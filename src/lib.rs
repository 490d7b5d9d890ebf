//! Bookkeeping core of a dynamic memory allocator.
//!
//! The library keeps the free spans of an address space in a sorted pool,
//! serves allocation, deallocation and reallocation requests from it, and
//! coalesces neighbouring free spans. Addresses are plain integers: the
//! library decides where memory goes, the layer that owns the memory reads
//! and writes it.
use vstd::prelude::*;

pub mod block;
pub mod breaker;
pub mod pool;
pub mod bookkeeper;

verus! {

pub use block::{Block, aligner};
pub use breaker::{Breaker, Segment};
pub use bookkeeper::{Bookkeeper, canonicalize_brk};

} // verus!
