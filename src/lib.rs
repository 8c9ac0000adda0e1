//! A contiguous growable container that hands out stable handles to the
//! values added to it.
//!
//! Values live in one dense vector, so they can be read as a slice. Each
//! insertion returns a handle that keeps resolving to its value while other
//! values are removed (the last value moves into the hole), swapped or sorted.
//! A handle whose value was removed never resolves again: every slot is
//! stamped with a fresh generation when it is taken.
//!
//! The behaviour of each operation is stated over [`ArenaView`], the arena
//! seen as mathematical sequences; [`laws`] holds the properties that relate
//! several operations.

mod arena;
mod compact_arena;
mod convert;
mod entry;
mod iter;
pub mod laws;
mod sort;

pub use arena::{slots_reversed, Arena, ArenaId, ArenaView};
pub use compact_arena::CompactArena;
pub use entry::{
    covers, decodes, encodes, entries_ok, entry_at, entry_ref_at, listed, permutes, ref_covers,
    ref_listed, Entry,
};
pub use iter::{Ids, Pairs};
pub use sort::{agrees, answers_leq, cmp_leq, orders, sorted_by, total_preorder};
