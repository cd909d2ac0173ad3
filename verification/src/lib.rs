//! A list of singly-linked chunks.
//!
//! Each chunk models one page-sized cell that holds several elements of the
//! stored type, so that insertion and deletion in the middle of a large
//! collection stay cheap and nothing is ever reallocated.  Chunks are linked
//! either by owning their successor or by an index into a slab of cells; a
//! free list that lives inside such a slab hands out ranges of its cells.
//!
//! * [`chunk`]: the chunk itself, and the laws of its operations.
//! * [`anchor`]: sequences in which each chunk owns the next, with a cursor
//!   that tolerates splits of the chunk it stands on.
//! * [`ptrlist`] and [`slicelist`]: cursors over sequences in a slab, and
//!   the fold that the free list borrows its search from.
//! * [`freelist`]: the free list.  [`model`] says what a slab holds as the
//!   list sees it, [`steps`] what each move of the list does to that, and
//!   [`laws`] what holds of every list.
//! * [`order`]: the order of elements, as far as searching needs it.
pub mod anchor;
pub mod chunk;
pub mod freelist;
pub mod laws;
pub mod model;
pub mod order;
pub mod ptrlist;
pub mod slicelist;
pub mod steps;

pub use chunk::Chunk;
