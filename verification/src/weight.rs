//! Bookkeeping for a tracing extension of the collector: a weight records one
//! heap object together with the graph data tri-color marking would need.

use vstd::prelude::*;

use crate::free_list::PocketSize;
use crate::memory::AllocId;
use crate::memory::HeapPointer;

verus! {

#[derive(Debug, Clone)]
pub struct Weight {
    pub ptr: HeapPointer,
    pub size: usize,
    pub children: Vec<AllocId>,
    pub shade: Shade,
    pub pocket: PocketSize,
}

impl Weight {
    pub fn new(ptr: HeapPointer, size: usize, pocket: PocketSize) -> (r: Self)
        ensures
            r.ptr == ptr,
            r.size == size,
            r.pocket == pocket,
            r.children@.len() == 0,
            r.shade == Shade::White,
    {
        Weight { ptr, size, children: Vec::new(), shade: Shade::White, pocket }
    }

    pub fn size(&self) -> (r: usize)
        ensures
            r == self.size,
    {
        self.size
    }

    pub fn ptr(&self) -> (r: HeapPointer)
        ensures
            r == self.ptr,
    {
        self.ptr
    }
}

#[derive(Debug, Copy, Clone, PartialEq, Eq, Structural)]
pub enum Shade {
    White,
    Grey,
    Black,
}

impl Shade {
    pub fn is_white(&self) -> (r: bool)
        ensures
            r == (*self == Shade::White),
    {
        *self == Shade::White
    }

    pub fn is_grey(&self) -> (r: bool)
        ensures
            r == (*self == Shade::Grey),
    {
        *self == Shade::Grey
    }

    pub fn is_black(&self) -> (r: bool)
        ensures
            r == (*self == Shade::Black),
    {
        *self == Shade::Black
    }
}

} // verus!
