//! The concurrency budget of one account.

use vstd::prelude::*;

verus! {

/// How many requests may run at once: at least one, since with none every caller would wait
/// forever.
pub fn permits(max_concurrency: usize) -> (n: usize)
    ensures
        n == if max_concurrency == 0 {
            1
        } else {
            max_concurrency
        },
{
    if max_concurrency == 0 {
        1
    } else {
        max_concurrency
    }
}

/// As many requests may run as configured, and never none.
pub proof fn some_request_may_always_run(max_concurrency: usize, n: usize)
    requires
        call_ensures(permits, (max_concurrency,), n),
    ensures
        n > 0,
        max_concurrency > 0 ==> n == max_concurrency,
{
}

} // verus!
