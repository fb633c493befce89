//! In-memory rumor store for a gossip-based cluster membership and
//! configuration dissemination layer: rumor variants with per-variant merge
//! rules, a two-level keyed store with change counting and expiration, a
//! binary envelope codec, snapshot persistence, and JSON projections.

pub mod archive;
pub mod builder;
pub mod codec;
pub mod error;
pub mod rumor;
pub mod store;
pub mod expiration;
pub mod text;

use vstd::prelude::*;

verus! {

/// Wrapping successor for the store's update counter: the counter only has to
/// distinguish two adjacent states, so it wraps to zero instead of panicking.
pub fn counter_next(c: usize) -> (r: usize)
    ensures
        r == if c == usize::MAX {
            0usize
        } else {
            (c + 1) as usize
        },
{
    c.wrapping_add(1)
}

} // verus!
