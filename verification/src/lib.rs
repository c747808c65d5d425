//! A personal note store in which every document is addressed by an
//! unordered set of tags rather than a fixed path.  The heart of the
//! crate is a tag index with a progressive-narrowing search, kept
//! consistent under insertions and removals, together with a
//! reader/writer-locked shared store that applies filesystem change
//! notifications without corrupting the index.

use vstd::prelude::*;

pub mod data;
pub mod debounce;
pub mod markdown;
pub mod page;
pub mod settings;
pub mod sync;
pub mod text;
pub mod web;

verus! {

/// Opaque handle for an indexed page.  Handles are assigned in
/// increasing order at insertion time and are never reused for the
/// lifetime of a store.
#[derive(Clone, Copy, PartialEq, Eq, Hash, Debug, Structural)]
pub struct PageId(pub u32);

impl PageId {
    pub fn new(raw: u32) -> (r: PageId)
        ensures
            r.0 == raw,
    {
        PageId(raw)
    }

    pub fn value(&self) -> (r: u32)
        ensures
            r == self.0,
    {
        self.0
    }
}

} // verus!
