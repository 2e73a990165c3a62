//! A stable name for one allocation. Handles carry an `AllocId` instead of a
//! raw descriptor address, so a descriptor stays reachable however often the
//! collector moves the object it describes.

use vstd::prelude::*;

verus! {

#[derive(Debug, Copy, Clone, PartialEq, Eq, Structural)]
pub struct AllocId(pub usize);

impl AllocId {
    pub fn new(id: usize) -> (r: Self)
        ensures
            r.0 == id,
    {
        AllocId(id)
    }

    pub fn increment(&mut self)
        requires
            old(self).0 < usize::MAX,
        ensures
            final(self).0 == old(self).0 + 1,
    {
        self.0 = self.0 + 1;
    }
}

} // verus!
