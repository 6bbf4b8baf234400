//! Entity/component store: identifier allocation with reuse, sparse
//! component tables, a parent/child hierarchy and per-scene membership sets.
use vstd::prelude::*;

pub mod command;
pub mod common;
pub mod geometry;
pub mod graphics;
pub mod table;

verus! {

/// A key that connects the data of one object across all systems.
/// The value `0` is reserved: it stands for "no parent".
pub type Entity = u32;

} // verus!
