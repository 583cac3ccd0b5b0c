//! Values exchanged with the allocation operations.
use vstd::prelude::*;

verus! {

/// Description of a desired block: its size and its alignment.
#[derive(Clone, Copy, Debug, PartialEq, Eq)]
pub struct Layout {
    size: usize,
    align: usize,
}

/// The size and alignment given to [`Layout::from_size_align`] describe no
/// valid layout.
#[derive(Clone, Copy, Debug, PartialEq, Eq)]
pub struct LayoutErr;

/// What a freshly allocated block holds.
#[derive(Clone, Copy, Debug, PartialEq, Eq)]
pub enum AllocInit {
    /// The contents of the block are left as they are.
    Uninitialized,
    /// Every byte of the block is zero.
    Zeroed,
}

/// Whether a resized block may move to another address.
#[derive(Clone, Copy, Debug, PartialEq, Eq)]
pub enum ReallocPlacement {
    /// The block may be moved.
    MayMove,
    /// The address of the block must not change.
    InPlace,
}

/// An allocated block: its address and its size in bytes.
#[derive(Clone, Copy, Debug, PartialEq, Eq)]
pub struct MemoryBlock {
    pub ptr: usize,
    pub size: usize,
}

/// Why an allocation operation failed.
#[derive(Clone, Copy, Debug, PartialEq, Eq)]
pub enum AllocErr {
    /// No pool able to hold the request has a block left.
    Exhausted,
    /// The request demands a resize without relocation, which is never
    /// performed.
    Unsupported,
}

impl Layout {
    pub closed spec fn spec_size(&self) -> usize {
        self.size
    }

    pub closed spec fn spec_align(&self) -> usize {
        self.align
    }

    /// Whether `size` and `align` describe a layout: `align` is a power of
    /// two, and `size` rounded up to a multiple of `align` does not exceed
    /// `isize::MAX`.
    pub open spec fn valid(size: usize, align: usize) -> bool {
        &&& align != 0
        &&& align & ((align - 1) as usize) == 0
        &&& size <= isize::MAX - (align - 1)
    }

    /// Builds a layout, or fails if `size` and `align` describe none.
    pub fn from_size_align(size: usize, align: usize) -> (r: Result<Layout, LayoutErr>)
        ensures
            Self::valid(size, align) ==> r.is_ok() && r.unwrap().size() == size
                && r.unwrap().align() == align,
            !Self::valid(size, align) ==> r.is_err(),
    {
        if align == 0 {
            return Err(LayoutErr);
        }
        if align & (align - 1) != 0 {
            return Err(LayoutErr);
        }
        let limit = isize::MAX as usize;
        if align - 1 > limit || size > limit - (align - 1) {
            return Err(LayoutErr);
        }
        Ok(Layout { size, align })
    }

    /// Builds a layout without checking that `size` and `align` describe
    /// one.
    pub fn from_size_align_unchecked(size: usize, align: usize) -> (layout: Layout)
        ensures
            layout.size() == size,
            layout.align() == align,
    {
        Layout { size, align }
    }

    /// The requested size in bytes.
    #[verifier::when_used_as_spec(spec_size)]
    pub fn size(&self) -> (s: usize)
        ensures
            s == self.size(),
    {
        self.size
    }

    /// The requested alignment in bytes.
    #[verifier::when_used_as_spec(spec_align)]
    pub fn align(&self) -> (a: usize)
        ensures
            a == self.align(),
    {
        self.align
    }

    /// The address handed out for a request of size zero: it is aligned as
    /// the layout asks and refers to no storage.
    pub fn dangling(&self) -> (ptr: usize)
        ensures
            ptr == self.align(),
    {
        self.align
    }
}

} // verus!
