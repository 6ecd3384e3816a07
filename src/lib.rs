//! An open-addressing hash table keyed by `u32`, with linear probing and
//! backward-shift deletion, and a set of `u32` built on top of it.
pub mod int_map;
pub mod int_set;

pub use int_map::{Entry, IntMap};
pub use int_set::{IntSet, IntoIteratorIS};
