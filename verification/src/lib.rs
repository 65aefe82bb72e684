//! An in-memory ordered set and map kept as a log-structured cascade.
//!
//! Writes land in a small buffer (`Slot`); when it fills, its entries are
//! merged into a cascade of immutable, size-doubling sorted runs. Deletions
//! in a run set a tombstone flag; tombstones are reclaimed lazily when a
//! freshly merged run is sparse enough.

pub mod entries;
pub mod map;
pub mod flags;
pub mod merge;
pub mod multislot;
pub mod slot;

use vstd::prelude::*;

verus! {

} // verus!
