//! Memory-management core of a freestanding kernel.
//!
//! Three components, leaf first: a physical frame allocator that turns the
//! boot-supplied memory-region list into a stream of unused page-aligned
//! frames (`frames`), a virtual-memory mapper that installs page-table
//! entries backing chosen virtual pages with physical frames (`paging`),
//! and a heap allocator that serves arbitrary-size, arbitrary-alignment
//! requests out of a mapped virtual range (`heap`). A small reference-count
//! discipline over heap blocks rounds the picture off (`rc`).
//!
//! All addresses are plain integers here: the hardware side (dereferencing
//! the physical-memory offset, loading the page-table root) lives outside
//! this crate, which owns the bookkeeping and its invariants.

use vstd::prelude::*;

pub mod frames;
pub mod heap;
pub mod paging;
pub mod rc;

verus! {

/// Smallest possible check that verification is running at all.
pub fn trivial_assertion() {
    assert(1int == 1int);
}

} // verus!
