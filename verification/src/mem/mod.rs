pub mod heap;
pub mod paging;
pub mod wrappers;

use vstd::prelude::*;

verus! {

/// A run of bytes: its first address and its length in bytes.
#[derive(Clone, Copy)]
pub struct MemByteBuffer {
    pub start: usize,
    pub size: usize,
}

/// A run of pages: the index of its first page and its length in pages.
#[derive(Clone, Copy)]
pub struct MemPageBuffer {
    pub start: usize,
    pub pages: usize,
}

impl MemPageBuffer {
    /// The first page after the buffer, as a mathematical integer.
    pub open spec fn end_spec(&self) -> int {
        self.start + self.pages
    }

    pub fn new(start: usize, pages: usize) -> (r: Self)
        ensures
            r.start == start,
            r.pages == pages,
    {
        Self { start, pages }
    }

    /// Last page in the buffer
    pub fn inclusive_end(&self) -> (r: usize)
        requires
            1 <= self.end_spec() <= usize::MAX,
        ensures
            r == self.end_spec() - 1,
    {
        self.exclusive_end() - 1
    }

    /// First page after the buffer
    pub fn exclusive_end(&self) -> (r: usize)
        requires
            self.end_spec() <= usize::MAX,
        ensures
            r == self.end_spec(),
    {
        self.start + self.pages
    }
}

} // verus!
