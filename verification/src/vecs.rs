//! A helper for taking the items of a vector out in their order.

use vstd::prelude::*;

verus! {

/// The items of `v` in the opposite order, so that `pop` hands them out
/// first to last.
pub fn reversed<T>(v: Vec<T>) -> (r: Vec<T>)
    ensures
        r@ == v@.reverse(),
{
    let ghost all = v@;
    let mut input = v;
    let mut out: Vec<T> = Vec::new();
    while input.len() > 0
        invariant
            input@.len() + out@.len() == all.len(),
            input@ == all.subrange(0, input@.len() as int),
            forall|j: int| 0 <= j < out@.len() ==> out@[j] == all[all.len() - 1 - j],
        decreases input@.len(),
    {
        let item = input.pop().unwrap();
        out.push(item);
    }
    assert(out@ =~= all.reverse());
    out
}

} // verus!
