//! Verified core of a small exploration simulation: two robots cooperate on a
//! square grid under fog of war. An explorer roams to uncover resources and
//! reports them at a shared station; an extractor fetches each reported
//! resource and carries it home. The crate proves the grid invariants, the
//! validity of the A* path search, and the hand-off protocol between the two
//! robots.

use vstd::prelude::*;

pub mod grid;
pub mod pathfinder;
pub mod rng;
pub mod robots;
pub mod world;

verus! {

/// A vector of `len` copies of `val`.
pub fn filled<T: Copy>(len: usize, val: T) -> (r: Vec<T>)
    ensures
        r@.len() == len,
        forall|i: int| 0 <= i < len ==> r@[i] == val,
{
    let mut v: Vec<T> = Vec::new();
    while v.len() < len
        invariant
            v@.len() <= len,
            forall|i: int| 0 <= i < v@.len() ==> v@[i] == val,
        decreases len - v@.len(),
    {
        v.push(val);
    }
    v
}

} // verus!
