//! Classifying the packaging tool's failures from its error stream. The
//! tool's exit code is too coarse, so the rate-limit and transient-network
//! conditions are recognized by their message text.

use vstd::prelude::*;

use crate::text::{find_first, occurs, occurs_at};

verus! {

/// How one invocation of the packaging tool's publish step failed.
#[derive(Debug)]
pub enum PublishError {
    /// The registry refused the upload for rate-limiting reasons; the
    /// message tail starting at the registry's rate-limit text.
    RateLimited(String),
    /// A transient network failure; the message tail starting at the
    /// transient-network text.
    SpuriousNetworkError(String),
    /// Any other failure, with the tool's full error stream.
    Any(String),
}

/// The registry's rate-limit message text.
pub open spec fn rate_limit_signature() -> Seq<char> {
    "You have published too many crates"@
}

/// The transient name-resolution failure text.
pub open spec fn spurious_network_signature() -> Seq<char> {
    "dns error: failed to lookup address information: Temporary failure in name resolution"@
}

fn rate_limit_signature_str() -> (r: &'static str)
    ensures
        r@ == rate_limit_signature(),
{
    "You have published too many crates"
}

fn spurious_network_signature_str() -> (r: &'static str)
    ensures
        r@ == spurious_network_signature(),
{
    "dns error: failed to lookup address information: Temporary failure in name resolution"
}

/// The tail of `msg` from the first occurrence of `sig`, if `sig` occurs.
fn detect_signature(err_msg: &str, sig: &str) -> (r: Option<String>)
    ensures
        match r {
            Some(s) => exists|i: int|
                occurs_at(err_msg@, sig@, i) && (forall|j: int|
                    0 <= j < i ==> !occurs_at(err_msg@, sig@, j)) && s@ == err_msg@.skip(i),
            None => !occurs(err_msg@, sig@),
        },
{
    match find_first(err_msg, sig) {
        Some(i) => {
            let len = err_msg.unicode_len();
            let tail = err_msg.substring_char(i, len);
            proof {
                assert(tail@ =~= err_msg@.skip(i as int));
            }
            Some(tail.to_owned())
        },
        None => None,
    }
}

/// The rate-limit tail of the error stream, when the registry's
/// rate-limit text occurs in it.
pub fn detect_rate_limit_error(err_msg: &str) -> (r: Option<String>)
    ensures
        match r {
            Some(s) => exists|i: int|
                occurs_at(err_msg@, rate_limit_signature(), i) && (forall|j: int|
                    0 <= j < i ==> !occurs_at(err_msg@, rate_limit_signature(), j)) && s@
                    == err_msg@.skip(i),
            None => !occurs(err_msg@, rate_limit_signature()),
        },
{
    detect_signature(err_msg, rate_limit_signature_str())
}

/// The transient-network tail of the error stream, when the
/// transient-network text occurs in it.
pub fn detect_spurious_network_error(err_msg: &str) -> (r: Option<String>)
    ensures
        match r {
            Some(s) => exists|i: int|
                occurs_at(err_msg@, spurious_network_signature(), i) && (forall|j: int|
                    0 <= j < i ==> !occurs_at(err_msg@, spurious_network_signature(), j)) && s@
                    == err_msg@.skip(i),
            None => !occurs(err_msg@, spurious_network_signature()),
        },
{
    detect_signature(err_msg, spurious_network_signature_str())
}

/// Classify one run of the packaging tool's publish step: success passes
/// through; a failure is rate-limited when the rate-limit text occurs in
/// the error stream, else transient when the network text occurs, else
/// carried whole.
pub fn classify_publish_output(success: bool, err_msg: &str) -> (r: Result<(), PublishError>)
    ensures
        match r {
            Ok(()) => success,
            Err(PublishError::RateLimited(s)) => !success && occurs(
                err_msg@,
                rate_limit_signature(),
            ) && (exists|i: int|
                occurs_at(err_msg@, rate_limit_signature(), i) && s@ == err_msg@.skip(i)),
            Err(PublishError::SpuriousNetworkError(s)) => !success && !occurs(
                err_msg@,
                rate_limit_signature(),
            ) && occurs(err_msg@, spurious_network_signature()) && (exists|i: int|
                occurs_at(err_msg@, spurious_network_signature(), i) && s@ == err_msg@.skip(i)),
            Err(PublishError::Any(s)) => !success && !occurs(err_msg@, rate_limit_signature())
                && !occurs(err_msg@, spurious_network_signature()) && s@ == err_msg@,
        },
{
    if success {
        return Ok(());
    }
    if let Some(tail) = detect_rate_limit_error(err_msg) {
        return Err(PublishError::RateLimited(tail));
    }
    if let Some(tail) = detect_spurious_network_error(err_msg) {
        return Err(PublishError::SpuriousNetworkError(tail));
    }
    Err(PublishError::Any(err_msg.to_owned()))
}

} // verus!
