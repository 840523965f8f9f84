//! Which failures another attempt could survive, and how many attempts there are.

use vstd::prelude::*;

verus! {

/// A failed model request, as far as it matters for trying again.
#[derive(Debug, Clone, Copy, PartialEq, Eq, Structural)]
pub enum Failure {
    /// The request could not be built.
    InvalidArgument,
    /// The provider answered with this status.
    Api(u16),
    /// Anything else: a broken connection, an answer that does not parse.
    Other,
}

/// Whether another attempt could succeed. A failure is deterministic where the request could
/// not be built, and where the provider refused it with anything but a server error, 408, 409
/// or 429.
pub open spec fn transient(failure: Failure) -> bool {
    match failure {
        Failure::InvalidArgument => false,
        Failure::Api(status) => 500 <= status < 600 || status == 429 || status == 408 || status
            == 409,
        Failure::Other => true,
    }
}

/// Whether another attempt could succeed.
pub fn is_transient(failure: &Failure) -> (retry: bool)
    ensures
        retry == transient(*failure),
{
    match failure {
        Failure::InvalidArgument => false,
        Failure::Api(status) => {
            let status: u16 = *status;
            (500 <= status && status < 600) || status == 429 || status == 408 || status == 409
        },
        Failure::Other => true,
    }
}

/// Whether to try once more after a failure, having done so `retried` times: a request, a whole
/// stream and a whole structured answer share one budget of `max_retries`, and a failure that
/// another attempt would only repeat ends it.
pub fn try_again(retried: usize, max_retries: usize, worth_it: bool) -> (again: bool)
    ensures
        again == (worth_it && retried < max_retries),
{
    worth_it && retried < max_retries
}

/// A refusal of the request itself is final: of the client errors only a timeout, a conflict and
/// too many requests may pass, while every server error may.
pub proof fn a_refused_request_is_not_sent_again(status: u16)
    ensures
        400 <= status < 500 ==> transient(Failure::Api(status)) == (status == 408 || status == 409
            || status == 429),
        500 <= status < 600 ==> transient(Failure::Api(status)),
        !transient(Failure::InvalidArgument),
        transient(Failure::Other),
{
}

/// There are never more retries than the budget has, and as many as it has while each is worth it.
pub proof fn retries_end_with_the_budget(retried: usize, max_retries: usize, again: bool)
    requires
        call_ensures(try_again, (retried, max_retries, true), again),
    ensures
        again == (retried + 1 <= max_retries),
{
}

} // verus!
