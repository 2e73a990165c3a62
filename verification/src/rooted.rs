//! Root descriptors and client handles. A descriptor is the pinned record
//! that mediates between a handle and the object's current location; it is
//! named by a stable `AllocId`, so a handle stays valid while the collector
//! rewrites the descriptor's `value` address.

use vstd::prelude::*;

use crate::free_list::pocket_size_of;
use crate::free_list::class_of;
use crate::memory::AllocId;
use crate::memory::HeapPointer;

verus! {

/// Tri-color mark used by the major cycle; reserved for tracing extensions.
#[derive(Debug, Copy, Clone, PartialEq, Eq, Structural)]
pub enum Color {
    Black,
    Grey,
    White,
}

/// Which region currently holds an object's bytes. `Intermediate` carries the
/// byte size of the pocket class the object occupies.
#[derive(Debug, Copy, Clone, PartialEq, Eq, Structural)]
pub enum ContainingHeap {
    Eden,
    Intermediate(usize),
}

/// The raw bytes of one client payload, stored contiguously once allocated.
#[derive(Debug, Clone)]
pub struct HeapValue {
    pub value: Vec<u8>,
}

impl HeapValue {
    pub fn new(value: Vec<u8>) -> (r: Self)
        ensures
            r.value@ == value@,
    {
        HeapValue { value }
    }
}

/// A pinned per-object descriptor: where the payload currently lives, whether
/// a client handle still exists, the tri-color mark, the containing region,
/// and the payload's byte size.
#[derive(Debug, Copy, Clone, PartialEq, Eq, Structural)]
pub struct RootedInner {
    pub id: AllocId,
    pub value: HeapPointer,
    pub rooted: bool,
    pub color: Color,
    pub heap: ContainingHeap,
    pub size: usize,
}

impl RootedInner {
    pub fn new(id: AllocId, value: HeapPointer, size: usize, heap: ContainingHeap) -> (r: Self)
        ensures
            r == (RootedInner { id, value, rooted: true, color: Color::White, heap, size }),
    {
        RootedInner { id, value, rooted: true, color: Color::White, heap, size }
    }

    pub fn size(&self) -> (r: usize)
        ensures
            r == self.size,
    {
        self.size
    }

    pub fn is_rooted(&self) -> (r: bool)
        ensures
            r == self.rooted,
    {
        self.rooted
    }

    pub fn color(&self) -> (r: Color)
        ensures
            r == self.color,
    {
        self.color
    }

    pub fn containing_heap(&self) -> (r: ContainingHeap)
        ensures
            r == self.heap,
    {
        self.heap
    }

    pub fn is_null(&self) -> (r: bool)
        ensures
            r == (self.value.0 == 0),
    {
        self.value.is_null()
    }

    pub fn value_ptr(&self) -> (r: HeapPointer)
        ensures
            r == self.value,
    {
        self.value
    }

    /// The descriptor's pocket is the class chosen for its size whenever the
    /// object sits in the old region.
    pub open spec fn pocket_ok(self) -> bool {
        match self.heap {
            ContainingHeap::Eden => true,
            ContainingHeap::Intermediate(c) => c == pocket_size_of(class_of(self.size as int))
                && self.size <= c,
        }
    }
}

/// The client-visible handle: the stable name of a descriptor. The collector
/// owns both the descriptor and the payload; a handle merely names them.
#[derive(Debug, PartialEq, Eq, Structural)]
pub struct Rooted {
    pub id: AllocId,
}

impl Rooted {
    pub fn new(id: AllocId) -> (r: Self)
        ensures
            r.id == id,
    {
        Rooted { id }
    }

    pub fn is_null(&self) -> (r: bool)
        ensures
            r == (self.id.0 == 0),
    {
        self.id.0 == 0
    }
}

} // verus!
