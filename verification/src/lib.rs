//! A verified model of a small concurrency demo: a fixed roster of actors
//! ("philosophers") sharing a ring of exclusively-held resources ("forks").
//!
//! The `roster` module holds the actor descriptions and the fixed default
//! roster; the `sim` module holds an interleaving simulation of the run,
//! together with proofs of mutual exclusion, ordering of the log events,
//! and deadlock freedom for rosters that acquire their lower-indexed
//! resource first.

use vstd::prelude::*;

pub mod roster;
pub mod sim;

verus! {

/// Adds two to its argument.
pub fn add_two(a: i32) -> (r: i32)
    requires
        a + 2 <= i32::MAX,
    ensures
        r == a + 2,
{
    a + 2
}

/// Counts from zero up to `limit` by repeated increments, returning the
/// final count.  This is the computation that a busy-work worker performs;
/// spawning such workers and printing their results is left to the caller.
pub fn spin_count(limit: u32) -> (r: u32)
    ensures
        r == limit,
{
    let mut x: u32 = 0;
    while x < limit
        invariant
            x <= limit,
        decreases limit - x,
    {
        x = x + 1;
    }
    x
}

} // verus!
