//! What is taken on trust of the code that this library calls and does not
//! verify: the contracts below are believed, not proved.

use vstd::prelude::*;

verus! {

/// `String::push` of the standard library appends one character to the end of
/// the string and leaves the rest as it was.
pub assume_specification[ String::push ](s: &mut String, c: char)
    ensures
        final(s)@ == old(s)@.push(c),
;

/// `rayon::join` takes two closures, runs both, possibly on two workers at
/// once, and returns when both have returned. It may be called with closures
/// that may themselves be called, and its result is the pair of what the first
/// and the second closure returned. Nothing is claimed of which worker runs
/// which closure, nor of the order in which they run. Like an allocation, the
/// first call in a process can fail for want of resources, when no worker
/// thread can be started.
pub assume_specification<A, B, RA, RB>[ rayon::join::<A, B, RA, RB> ](
    oper_a: A,
    oper_b: B,
) -> (r: (RA, RB))
    where
        A: FnOnce() -> RA + Send,
        B: FnOnce() -> RB + Send,
        RA: Send,
        RB: Send,

    requires
        oper_a.requires(()),
        oper_b.requires(()),
    ensures
        oper_a.ensures((), r.0),
        oper_b.ensures((), r.1),
;

} // verus!
