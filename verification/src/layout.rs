//! Sizes, alignments and the memory blocks they describe.

use vstd::layout::{align_of, layout_for_type_is_valid, size_of, valid_layout};
use vstd::prelude::*;

verus! {

/// The size and alignment of a block of memory, in bytes.
#[derive(Clone, Copy, Debug, PartialEq, Eq, Structural)]
pub struct Layout {
    pub size: usize,
    pub align: usize,
}

/// A block of memory as an allocator hands it out and takes it back: where
/// it starts and the layout it was requested with.
#[derive(Clone, Copy, Debug, PartialEq, Eq, Structural)]
pub struct Block {
    pub addr: usize,
    pub layout: Layout,
}

impl Layout {
    /// `self` is the size and alignment of values of type `T`.
    pub open spec fn describes<T>(self) -> bool {
        &&& self.size as nat == size_of::<T>()
        &&& self.align as nat == align_of::<T>()
    }

    /// The layout of values of type `T`.
    pub fn of<T>() -> (l: Layout)
        ensures
            l.describes::<T>(),
            valid_layout(l.size, l.align),
            l.align > 0,
            l.size % l.align == 0,
    {
        layout_for_type_is_valid::<T>();
        Layout { size: core::mem::size_of::<T>(), align: core::mem::align_of::<T>() }
    }
}

} // verus!
