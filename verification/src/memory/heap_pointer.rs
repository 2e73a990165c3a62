//! An opaque unsigned address naming a byte within one of the heap regions.
//! Address 0 is the null address; every live object sits at a positive one.

use vstd::prelude::*;

verus! {

#[derive(Debug, Copy, Clone, PartialEq, Eq, Structural)]
pub struct HeapPointer(pub usize);

impl HeapPointer {
    pub fn new(ptr: usize) -> (r: Self)
        ensures
            r.0 == ptr,
    {
        HeapPointer(ptr)
    }

    pub fn as_usize(self) -> (r: usize)
        ensures
            r == self.0,
    {
        self.0
    }

    /// The address `n` bytes past this one.
    pub fn offset(self, n: usize) -> (r: Self)
        requires
            self.0 + n <= usize::MAX,
        ensures
            r.0 == self.0 + n,
    {
        HeapPointer(self.0 + n)
    }

    pub fn is_null(self) -> (r: bool)
        ensures
            r == (self.0 == 0),
    {
        self.0 == 0
    }

    pub fn is_non_null(self) -> (r: bool)
        ensures
            r == (self.0 != 0),
    {
        self.0 != 0
    }
}

} // verus!
