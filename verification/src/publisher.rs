//! The publishing state machine for one crate. The engine decides every
//! transition; the surrounding process performs the actions — running the
//! packaging tool, sleeping, polling the registry — and reports each
//! outcome back as an event.

use vstd::prelude::*;

use crate::cargo::PublishError;

verus! {

/// How long to wait after a rate-limited upload before retrying.
pub const RATE_LIMIT_DELAY_SECS: u64 = 64;

/// How long to wait after a transient network failure before retrying.
pub const NETWORK_RETRY_DELAY_SECS: u64 = 30;

/// How often to poll the registry for visibility of the new version.
pub const POLL_INTERVAL_MS: u64 = 1536;

/// How many consecutive transient network failures are retried; the
/// next one fails the crate.
pub const MAX_NETWORK_FAILURES: u8 = 8;

/// Where the machine stands while publishing one crate.
pub enum PublishState {
    /// The manifest is being prepared for packaging.
    Preparing,
    /// The upload runs, with the count of consecutive transient network
    /// failures seen so far.
    Uploading { network_failures: u8 },
    /// The upload went through; the registry's database has not shown the
    /// version yet.
    AwaitingRegistryDb,
    /// The registry's database shows the version; its index does not yet.
    AwaitingRegistryIndex,
    /// The publish is complete and visible.
    Settled,
    /// The publish failed for good, with the failure text.
    Failed(String),
}

/// What the process reports back to the machine.
pub enum PublishEvent {
    /// The manifest preparation finished.
    Prepared,
    /// One run of the packaging tool's publish step, classified.
    UploadOutcome(Result<(), PublishError>),
    /// Whether the registry's database shows the version.
    RegistryDbHasVersion(bool),
    /// Whether the registry's index shows the version.
    RegistryIndexHasVersion(bool),
}

/// What the process must do next.
pub enum PublishAction {
    /// Prepare the crate's manifest for packaging.
    PrepareManifest,
    /// Run the packaging tool's publish step.
    RunUpload,
    /// Sleep for the given seconds, then run the upload again.
    SleepThenUpload(u64),
    /// Sleep for the poll interval, then ask the registry's database.
    PollRegistryDb,
    /// Sleep for the poll interval, then ask the registry's index.
    PollRegistryIndex,
    /// Nothing is left to do.
    Stop,
}

/// The machine's reaction to one event: the rate limit is always waited
/// out and retried; a transient network failure is retried up to the
/// consecutive-failure cap, and the failure after the cap is final; any
/// other failure is final. After
/// a successful upload, the registry's database and then, when an index
/// is configured, its index are polled until the version is visible.
pub open spec fn spec_publish_step(
    state: PublishState,
    event: PublishEvent,
    has_index: bool,
) -> (PublishState, PublishAction) {
    match (state, event) {
        (PublishState::Preparing, PublishEvent::Prepared) => (
            PublishState::Uploading { network_failures: 0 },
            PublishAction::RunUpload,
        ),
        (PublishState::Uploading { network_failures }, PublishEvent::UploadOutcome(outcome)) => {
            match outcome {
                Ok(()) => (PublishState::AwaitingRegistryDb, PublishAction::PollRegistryDb),
                Err(PublishError::RateLimited(_)) => (
                    PublishState::Uploading { network_failures: 0 },
                    PublishAction::SleepThenUpload(RATE_LIMIT_DELAY_SECS as u64),
                ),
                Err(PublishError::SpuriousNetworkError(msg)) => {
                    if network_failures < MAX_NETWORK_FAILURES {
                        (
                            PublishState::Uploading {
                                network_failures: (network_failures + 1) as u8,
                            },
                            PublishAction::SleepThenUpload(NETWORK_RETRY_DELAY_SECS as u64),
                        )
                    } else {
                        (PublishState::Failed(msg), PublishAction::Stop)
                    }
                },
                Err(PublishError::Any(msg)) => (PublishState::Failed(msg), PublishAction::Stop),
            }
        },
        (PublishState::AwaitingRegistryDb, PublishEvent::RegistryDbHasVersion(seen)) => {
            if seen {
                if has_index {
                    (PublishState::AwaitingRegistryIndex, PublishAction::PollRegistryIndex)
                } else {
                    (PublishState::Settled, PublishAction::Stop)
                }
            } else {
                (PublishState::AwaitingRegistryDb, PublishAction::PollRegistryDb)
            }
        },
        (PublishState::AwaitingRegistryIndex, PublishEvent::RegistryIndexHasVersion(seen)) => {
            if seen {
                (PublishState::Settled, PublishAction::Stop)
            } else {
                (PublishState::AwaitingRegistryIndex, PublishAction::PollRegistryIndex)
            }
        },
        (s, _) => (s, PublishAction::Stop),
    }
}

/// Drive the machine one step.
pub fn publish_step(state: PublishState, event: PublishEvent, has_index: bool) -> (r: (
    PublishState,
    PublishAction,
))
    ensures
        r == spec_publish_step(state, event, has_index),
{
    match (state, event) {
        (PublishState::Preparing, PublishEvent::Prepared) => (
            PublishState::Uploading { network_failures: 0 },
            PublishAction::RunUpload,
        ),
        (PublishState::Uploading { network_failures }, PublishEvent::UploadOutcome(outcome)) => {
            match outcome {
                Ok(()) => (PublishState::AwaitingRegistryDb, PublishAction::PollRegistryDb),
                Err(PublishError::RateLimited(_)) => (
                    PublishState::Uploading { network_failures: 0 },
                    PublishAction::SleepThenUpload(RATE_LIMIT_DELAY_SECS),
                ),
                Err(PublishError::SpuriousNetworkError(msg)) => {
                    if network_failures < MAX_NETWORK_FAILURES {
                        (
                            PublishState::Uploading { network_failures: network_failures + 1 },
                            PublishAction::SleepThenUpload(NETWORK_RETRY_DELAY_SECS),
                        )
                    } else {
                        (PublishState::Failed(msg), PublishAction::Stop)
                    }
                },
                Err(PublishError::Any(msg)) => (PublishState::Failed(msg), PublishAction::Stop),
            }
        },
        (PublishState::AwaitingRegistryDb, PublishEvent::RegistryDbHasVersion(seen)) => {
            if seen {
                if has_index {
                    (PublishState::AwaitingRegistryIndex, PublishAction::PollRegistryIndex)
                } else {
                    (PublishState::Settled, PublishAction::Stop)
                }
            } else {
                (PublishState::AwaitingRegistryDb, PublishAction::PollRegistryDb)
            }
        },
        (PublishState::AwaitingRegistryIndex, PublishEvent::RegistryIndexHasVersion(seen)) => {
            if seen {
                (PublishState::Settled, PublishAction::Stop)
            } else {
                (PublishState::AwaitingRegistryIndex, PublishAction::PollRegistryIndex)
            }
        },
        (s, _) => (s, PublishAction::Stop),
    }
}

/// How long the run must still wait before the next upload: the configured
/// delay less the time already elapsed since the previous publish.
pub fn remaining_publish_delay(
    after_publish_delay_secs: u64,
    elapsed_since_last_secs: u64,
) -> (r: u64)
    ensures
        r as int == if elapsed_since_last_secs < after_publish_delay_secs {
            after_publish_delay_secs - elapsed_since_last_secs
        } else {
            0
        },
{
    if elapsed_since_last_secs < after_publish_delay_secs {
        after_publish_delay_secs - elapsed_since_last_secs
    } else {
        0
    }
}

} // verus!
