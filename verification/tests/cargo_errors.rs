//! The error classifier, the publisher state machine, the checkpoint plan
//! and the registry index layout.

use subpub::cargo::{
    classify_publish_output, detect_rate_limit_error, detect_spurious_network_error, PublishError,
};
use subpub::checkpoint::{with_save_checkpoint, CheckpointStep};
use subpub::crates_io::{crate_index_path, index_line_vers};
use subpub::publisher::{
    publish_step, PublishAction, PublishEvent, PublishState, MAX_NETWORK_FAILURES,
    NETWORK_RETRY_DELAY_SECS, RATE_LIMIT_DELAY_SECS,
};

#[test]
fn test_detect_rate_limit_error() {
    let full_error_msg = "
Updating crates.io index
Packaging sc-rpc-api v0.10.0 (/substrate/client/rpc-api)
Uploading sc-rpc-api v0.10.0 (/substrate/client/rpc-api)
You have published too many crates in a short period of time. Please try again after {PLACEHOLDER} or email help@crates.io to have your limit increased.
";

    let expected_error_msg_part = "You have published too many crates in a short period of time. Please try again after {PLACEHOLDER} or email help@crates.io to have your limit increased.\n";

    assert_eq!(
        detect_rate_limit_error(full_error_msg),
        Some(expected_error_msg_part.to_owned())
    );
}

#[test]
fn test_detect_spurious_network_error() {
    let full_error_msg = "
Updating crates.io index
Packaging sc-rpc-api v0.10.0 (/substrate/client/rpc-api)
Uploading sc-rpc-api v0.10.0 (/substrate/client/rpc-api)
error: failed to publish crate sc-rpc-ai
Caused by:
  dns error: failed to lookup address information: Temporary failure in name resolution
";

    let expected_error_msg_part =
        "dns error: failed to lookup address information: Temporary failure in name resolution\n";

    assert_eq!(
        detect_spurious_network_error(full_error_msg),
        Some(expected_error_msg_part.to_owned())
    );
}

#[test]
fn classify_success_is_ok() {
    assert!(matches!(classify_publish_output(true, "anything"), Ok(())));
}

#[test]
fn classify_rate_limit_wins_over_network() {
    let msg = "You have published too many crates today";
    assert!(matches!(
        classify_publish_output(false, msg),
        Err(PublishError::RateLimited(tail)) if tail == "You have published too many crates today"
    ));
}

#[test]
fn classify_network_error() {
    let msg = "error:\n  dns error: failed to lookup address information: Temporary failure in name resolution\n";
    assert!(matches!(
        classify_publish_output(false, msg),
        Err(PublishError::SpuriousNetworkError(_))
    ));
}

#[test]
fn classify_other_error_keeps_message() {
    assert!(matches!(
        classify_publish_output(false, "error: broken"),
        Err(PublishError::Any(m)) if m == "error: broken"
    ));
}

#[test]
fn rate_limit_resets_network_failure_count() {
    let state = PublishState::Uploading { network_failures: 5 };
    let event = PublishEvent::UploadOutcome(Err(PublishError::RateLimited("limit".to_owned())));
    let (next, action) = publish_step(state, event, false);
    assert!(matches!(next, PublishState::Uploading { network_failures: 0 }));
    assert!(matches!(action, PublishAction::SleepThenUpload(s) if s == RATE_LIMIT_DELAY_SECS));
}

#[test]
fn network_failures_retry_then_fail() {
    // Eight consecutive transient failures are retried; the ninth fails
    // the crate.
    let mut state = PublishState::Uploading { network_failures: 0 };
    for _ in 0..MAX_NETWORK_FAILURES {
        let event =
            PublishEvent::UploadOutcome(Err(PublishError::SpuriousNetworkError("dns".to_owned())));
        let (next, action) = publish_step(state, event, false);
        assert!(
            matches!(action, PublishAction::SleepThenUpload(s) if s == NETWORK_RETRY_DELAY_SECS)
        );
        state = next;
    }
    assert!(matches!(state, PublishState::Uploading { network_failures } if network_failures == MAX_NETWORK_FAILURES));
    let event =
        PublishEvent::UploadOutcome(Err(PublishError::SpuriousNetworkError("dns".to_owned())));
    let (next, action) = publish_step(state, event, false);
    assert!(matches!(next, PublishState::Failed(_)));
    assert!(matches!(action, PublishAction::Stop));
}

#[test]
fn upload_success_polls_db_then_index_then_settles() {
    let state = PublishState::Uploading { network_failures: 3 };
    let (state, action) = publish_step(state, PublishEvent::UploadOutcome(Ok(())), true);
    assert!(matches!(state, PublishState::AwaitingRegistryDb));
    assert!(matches!(action, PublishAction::PollRegistryDb));
    let (state, action) = publish_step(state, PublishEvent::RegistryDbHasVersion(false), true);
    assert!(matches!(state, PublishState::AwaitingRegistryDb));
    assert!(matches!(action, PublishAction::PollRegistryDb));
    let (state, action) = publish_step(state, PublishEvent::RegistryDbHasVersion(true), true);
    assert!(matches!(state, PublishState::AwaitingRegistryIndex));
    assert!(matches!(action, PublishAction::PollRegistryIndex));
    let (state, action) = publish_step(state, PublishEvent::RegistryIndexHasVersion(true), true);
    assert!(matches!(state, PublishState::Settled));
    assert!(matches!(action, PublishAction::Stop));
}

#[test]
fn no_index_settles_after_db() {
    let state = PublishState::AwaitingRegistryDb;
    let (state, action) = publish_step(state, PublishEvent::RegistryDbHasVersion(true), false);
    assert!(matches!(state, PublishState::Settled));
    assert!(matches!(action, PublishAction::Stop));
}

#[test]
fn checkpoint_plan_brackets_the_work() {
    let plan = with_save_checkpoint();
    assert_eq!(plan.len(), 3);
    assert!(matches!(plan[0], CheckpointStep::SaveCheckpoint));
    assert!(matches!(plan[1], CheckpointStep::RunWork));
    assert!(matches!(plan[2], CheckpointStep::SaveCheckpoint));
}

#[test]
fn index_paths_follow_the_prefix_scheme() {
    assert_eq!(crate_index_path("a"), "1/a".to_owned());
    assert_eq!(crate_index_path("ab"), "2/ab".to_owned());
    assert_eq!(crate_index_path("abc"), "3/a/abc".to_owned());
    assert_eq!(crate_index_path("serde"), "se/rd/serde".to_owned());
    assert_eq!(crate_index_path("ABCD"), "ab/cd/abcd".to_owned());
}

#[test]
fn index_lines_yield_their_version_field() {
    let line = "{\"name\":\"demo\",\"vers\":\"0.2.0\",\"deps\":[],\"yanked\":false}";
    assert_eq!(index_line_vers(line), Some("0.2.0".to_owned()));
    assert_eq!(index_line_vers("{\"name\":\"demo\"}"), None);
    assert_eq!(index_line_vers("{\"vers\":\"unterminated"), None);
}
