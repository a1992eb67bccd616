//! Worker-count policy for kernels that split independent items across
//! threads.
use vstd::prelude::*;

verus! {

/// Workers to use for `items` independent items given a configured worker
/// count: never more than the items, never fewer than one.
pub fn worker_count(configured: usize, items: usize) -> (r: usize)
    ensures
        r == (if configured < items {
            if configured < 1 {
                1
            } else {
                configured
            }
        } else if items < 1 {
            1
        } else {
            items
        }),
{
    let m = if configured < items {
        configured
    } else {
        items
    };
    if m < 1 {
        1
    } else {
        m
    }
}

} // verus!
