//! A small fixed-region heap allocator: a segregated free-list scheme over a
//! contiguous arena of pages, with a slab path for sub-page blocks and a
//! multi-page path for large blocks.
//!
//! The arena is modelled as an owned vector of words; every address handed out
//! is an absolute byte address inside `[base, base + LENGTH)`, and all
//! bookkeeping (the init marker, the free-list heads, the page-used words and
//! the intrusive free lists themselves) lives inside that same arena, exactly
//! as the allocator lays it out in real memory.

pub mod arena;
pub mod bits;
pub mod config;
pub mod laws;

pub use arena::PageState;
pub use arena::Smalloc;
