//! Size classes ("pockets") and the old region's free list: a bump frontier
//! plus one LIFO stack of recycled addresses per class. Recycled slots are
//! preferred over virgin bump space.

use vstd::prelude::*;

use crate::memory::HeapPointer;

verus! {

pub const MINI_POCKET: usize = 1;

pub const TINY_POCKET: usize = 32;

pub const SMALL_POCKET: usize = 128;

pub const MEDIUM_POCKET: usize = 2048;

pub const LARGE_POCKET: usize = 8192;

pub const HUGE_POCKET: usize = 32768;

pub const NUMBER_MEMORY_POCKETS: usize = 6;

/// The byte size of the class with the given index; 0 for an invalid index.
pub open spec fn pocket_size_of(c: int) -> int {
    if c == 0 {
        MINI_POCKET as int
    } else if c == 1 {
        TINY_POCKET as int
    } else if c == 2 {
        SMALL_POCKET as int
    } else if c == 3 {
        MEDIUM_POCKET as int
    } else if c == 4 {
        LARGE_POCKET as int
    } else if c == 5 {
        HUGE_POCKET as int
    } else {
        0
    }
}

/// The index of the smallest class whose size is at least `size`;
/// `NUMBER_MEMORY_POCKETS` when no class is large enough.
pub open spec fn class_of(size: int) -> int {
    if size <= MINI_POCKET {
        0
    } else if size <= TINY_POCKET {
        1
    } else if size <= SMALL_POCKET {
        2
    } else if size <= MEDIUM_POCKET {
        3
    } else if size <= LARGE_POCKET {
        4
    } else if size <= HUGE_POCKET {
        5
    } else {
        NUMBER_MEMORY_POCKETS as int
    }
}

pub open spec fn is_pocket_size(size: int) -> bool {
    ||| size == MINI_POCKET
    ||| size == TINY_POCKET
    ||| size == SMALL_POCKET
    ||| size == MEDIUM_POCKET
    ||| size == LARGE_POCKET
    ||| size == HUGE_POCKET
}

/// Two byte ranges `[a, a + la)` and `[b, b + lb)` share no byte.
pub open spec fn ranges_disjoint(a: int, la: int, b: int, lb: int) -> bool {
    a + la <= b || b + lb <= a
}

/// Every recycled entry lies inside the carved span `[start, current)` of its
/// class's extent, and no two entries overlap.
pub open spec fn stacks_ok(stacks: Seq<Seq<HeapPointer>>, start: int, current: int) -> bool {
    &&& forall|c: int, k: int|
        0 <= c < NUMBER_MEMORY_POCKETS && 0 <= k < stacks[c].len() ==> start <= (
        #[trigger] stacks[c][k]).0 && stacks[c][k].0 + pocket_size_of(c) <= current
    &&& forall|c1: int, k1: int, c2: int, k2: int|
        #![trigger stacks[c1][k1], stacks[c2][k2]]
        0 <= c1 < NUMBER_MEMORY_POCKETS && 0 <= k1 < stacks[c1].len() && 0 <= c2
            < NUMBER_MEMORY_POCKETS && 0 <= k2 < stacks[c2].len() && (c1 != c2 || k1 != k2)
            ==> ranges_disjoint(
            stacks[c1][k1].0 as int,
            pocket_size_of(c1),
            stacks[c2][k2].0 as int,
            pocket_size_of(c2),
        )
}

#[derive(Debug, Copy, Clone, PartialEq, Eq, Structural)]
pub enum PocketSize {
    Mini,
    Tiny,
    Small,
    Medium,
    Large,
    Huge,
}

impl PocketSize {
    pub open spec fn class_index(self) -> int {
        match self {
            PocketSize::Mini => 0,
            PocketSize::Tiny => 1,
            PocketSize::Small => 2,
            PocketSize::Medium => 3,
            PocketSize::Large => 4,
            PocketSize::Huge => 5,
        }
    }

    pub open spec fn class_bytes(self) -> int {
        pocket_size_of(self.class_index())
    }

    pub fn from_usize(pocket: usize) -> (r: Self)
        requires
            pocket < NUMBER_MEMORY_POCKETS,
        ensures
            r.class_index() == pocket,
    {
        if pocket == 0 {
            PocketSize::Mini
        } else if pocket == 1 {
            PocketSize::Tiny
        } else if pocket == 2 {
            PocketSize::Small
        } else if pocket == 3 {
            PocketSize::Medium
        } else if pocket == 4 {
            PocketSize::Large
        } else {
            PocketSize::Huge
        }
    }

    pub fn from_pocket_size(size: usize) -> (r: Self)
        requires
            is_pocket_size(size as int),
        ensures
            r.class_bytes() == size,
    {
        if size == MINI_POCKET {
            PocketSize::Mini
        } else if size == TINY_POCKET {
            PocketSize::Tiny
        } else if size == SMALL_POCKET {
            PocketSize::Small
        } else if size == MEDIUM_POCKET {
            PocketSize::Medium
        } else if size == LARGE_POCKET {
            PocketSize::Large
        } else {
            PocketSize::Huge
        }
    }

    /// The smallest class whose size is at least `size`; absent exactly when
    /// `size` exceeds the largest class.
    pub fn next_up(size: usize) -> (r: Option<PocketSize>)
        ensures
            match r {
                Some(p) => {
                    &&& size <= HUGE_POCKET
                    &&& p.class_index() == class_of(size as int)
                    &&& p.class_bytes() >= size
                    &&& forall|q: PocketSize|
                        q.class_bytes() >= size ==> p.class_bytes() <= #[trigger] q.class_bytes()
                },
                None => size > HUGE_POCKET,
            },
    {
        let r = if size <= MINI_POCKET {
            Some(PocketSize::Mini)
        } else if size <= TINY_POCKET {
            Some(PocketSize::Tiny)
        } else if size <= SMALL_POCKET {
            Some(PocketSize::Small)
        } else if size <= MEDIUM_POCKET {
            Some(PocketSize::Medium)
        } else if size <= LARGE_POCKET {
            Some(PocketSize::Large)
        } else if size <= HUGE_POCKET {
            Some(PocketSize::Huge)
        } else {
            None
        };
        proof {
            if r is Some {
                assert forall|q: PocketSize| q.class_bytes() >= size implies (
                r->0).class_bytes() <= #[trigger] q.class_bytes() by {
                    match q {
                        PocketSize::Mini => {},
                        PocketSize::Tiny => {},
                        PocketSize::Small => {},
                        PocketSize::Medium => {},
                        PocketSize::Large => {},
                        PocketSize::Huge => {},
                    }
                }
            }
        }
        r
    }

    pub fn index(&self) -> (r: usize)
        ensures
            r == self.class_index(),
    {
        match self {
            PocketSize::Mini => 0,
            PocketSize::Tiny => 1,
            PocketSize::Small => 2,
            PocketSize::Medium => 3,
            PocketSize::Large => 4,
            PocketSize::Huge => 5,
        }
    }

    pub fn size(&self) -> (r: usize)
        ensures
            r == self.class_bytes(),
    {
        match self {
            PocketSize::Mini => MINI_POCKET,
            PocketSize::Tiny => TINY_POCKET,
            PocketSize::Small => SMALL_POCKET,
            PocketSize::Medium => MEDIUM_POCKET,
            PocketSize::Large => LARGE_POCKET,
            PocketSize::Huge => HUGE_POCKET,
        }
    }

    /// Push a released slot onto the stack of its class. The caller guarantees
    /// the slot was carved for exactly this class and has no other live
    /// reference: the slot lies inside the carved span and overlaps neither a
    /// live pocket (not stated here) nor any recycled entry.
    pub fn reclaim(size: usize, ptr: HeapPointer, list: &mut FreeList)
        requires
            old(list).wf(),
            is_pocket_size(size as int),
            old(list).start.0 <= ptr.0,
            ptr.0 + size <= old(list).current.0,
            forall|c: int, k: int|
                0 <= c < NUMBER_MEMORY_POCKETS && 0 <= k < old(list).stacks()[c].len()
                    ==> ranges_disjoint(
                    (#[trigger] old(list).stacks()[c][k]).0 as int,
                    pocket_size_of(c),
                    ptr.0 as int,
                    size as int,
                ),
        ensures
            final(list).wf(),
            final(list).start == old(list).start,
            final(list).current == old(list).current,
            final(list).size == old(list).size,
            final(list).stacks() =~~= old(list).stacks().update(
                class_of(size as int),
                old(list).stacks()[class_of(size as int)].push(ptr),
            ),
    {
        let pocket = PocketSize::from_pocket_size(size);
        let idx = pocket.index();
        stack_push(&mut list.pockets, idx, ptr);
        proof {
            assert(final(list).stacks() =~~= old(list).stacks().update(
                class_of(size as int),
                old(list).stacks()[class_of(size as int)].push(ptr),
            ));
        }
    }
}

/// Append `p` to stack `c`, leaving every other stack as it was.
fn stack_push(pockets: &mut Vec<Vec<HeapPointer>>, c: usize, p: HeapPointer)
    requires
        c < old(pockets)@.len(),
    ensures
        final(pockets)@.len() == old(pockets)@.len(),
        final(pockets)@[c as int]@ == old(pockets)@[c as int]@.push(p),
        forall|j: int|
            0 <= j < old(pockets)@.len() && j != c ==> (#[trigger] final(pockets)@[j])@ == old(
                pockets,
            )@[j]@,
{
    let mut s = pockets.remove(c);
    s.push(p);
    pockets.insert(c, s);
    proof {
        assert(final(pockets)@[c as int]@ == old(pockets)@[c as int]@.push(p));
    }
}

/// Pop the most recently pushed entry of stack `c`, if any.
fn stack_pop(pockets: &mut Vec<Vec<HeapPointer>>, c: usize) -> (r: Option<HeapPointer>)
    requires
        c < old(pockets)@.len(),
    ensures
        final(pockets)@.len() == old(pockets)@.len(),
        forall|j: int|
            0 <= j < old(pockets)@.len() && j != c ==> (#[trigger] final(pockets)@[j])@ == old(
                pockets,
            )@[j]@,
        match r {
            Some(p) => old(pockets)@[c as int]@.len() > 0 && p == old(pockets)@[c as int]@.last()
                && final(pockets)@[c as int]@ == old(pockets)@[c as int]@.drop_last(),
            None => old(pockets)@[c as int]@.len() == 0 && final(pockets)@[c as int]@ == old(
                pockets,
            )@[c as int]@,
        },
{
    let mut s = pockets.remove(c);
    let r = s.pop();
    pockets.insert(c, s);
    r
}

/// Total bytes held by the first `n` class stacks.
pub open spec fn stack_sum_upto(stacks: Seq<Seq<HeapPointer>>, n: int) -> int
    decreases n,
{
    if n <= 0 {
        0
    } else {
        stack_sum_upto(stacks, n - 1) + stacks[n - 1].len() * pocket_size_of(n - 1)
    }
}

/// Total bytes held by all class stacks.
pub open spec fn stack_sum(stacks: Seq<Seq<HeapPointer>>) -> int {
    stack_sum_upto(stacks, NUMBER_MEMORY_POCKETS as int)
}

pub proof fn lemma_stack_sum_update(
    stacks: Seq<Seq<HeapPointer>>,
    c: int,
    v: Seq<HeapPointer>,
    n: int,
)
    requires
        0 <= c < stacks.len(),
        n <= stacks.len(),
    ensures
        c < n ==> stack_sum_upto(stacks.update(c, v), n) == stack_sum_upto(stacks, n) + (v.len()
            - stacks[c].len()) * pocket_size_of(c),
        c >= n ==> stack_sum_upto(stacks.update(c, v), n) == stack_sum_upto(stacks, n),
    decreases n,
{
    if n > 0 {
        lemma_stack_sum_update(stacks, c, v, n - 1);
        if c == n - 1 {
            assert((v.len() - stacks[c].len()) * pocket_size_of(c) == v.len() * pocket_size_of(c)
                - stacks[c].len() * pocket_size_of(c)) by (nonlinear_arith);
        }
    }
}

pub proof fn lemma_stack_sum_all_empty(stacks: Seq<Seq<HeapPointer>>, n: int)
    requires
        n <= stacks.len(),
        forall|c: int| 0 <= c < stacks.len() ==> (#[trigger] stacks[c]).len() == 0,
    ensures
        stack_sum_upto(stacks, n) == 0,
    decreases n,
{
    if n > 0 {
        lemma_stack_sum_all_empty(stacks, n - 1);
    }
}

pub proof fn lemma_stack_sum_nonneg(stacks: Seq<Seq<HeapPointer>>, n: int)
    ensures
        stack_sum_upto(stacks, n) >= 0,
    decreases n,
{
    if n > 0 {
        lemma_stack_sum_nonneg(stacks, n - 1);
        assert(stacks[n - 1].len() * pocket_size_of(n - 1) >= 0) by (nonlinear_arith);
    }
}

#[derive(Debug, Clone)]
pub struct FreeList {
    pub start: HeapPointer,
    pub current: HeapPointer,
    pub size: usize,
    pub pockets: Vec<Vec<HeapPointer>>,
}

impl FreeList {
    /// The recycled stacks as plain sequences, indexed by class.
    pub open spec fn stacks(self) -> Seq<Seq<HeapPointer>> {
        Seq::new(self.pockets@.len(), |c: int| self.pockets@[c]@)
    }

    pub open spec fn wf(self) -> bool {
        &&& self.start.0 >= 1
        &&& self.start.0 <= self.current.0
        &&& self.current.0 <= self.start.0 + self.size
        &&& self.start.0 + self.size <= usize::MAX
        &&& self.pockets@.len() == NUMBER_MEMORY_POCKETS
        &&& stacks_ok(self.stacks(), self.start.0 as int, self.current.0 as int)
    }

    pub fn new(start: HeapPointer, size: usize) -> (r: Self)
        requires
            start.0 >= 1,
            start.0 + size <= usize::MAX,
        ensures
            r.wf(),
            r.start == start,
            r.current == start,
            r.size == size,
            forall|c: int| 0 <= c < NUMBER_MEMORY_POCKETS ==> (#[trigger] r.stacks()[c]).len() == 0,
    {
        let mut pockets: Vec<Vec<HeapPointer>> = Vec::new();
        pockets.push(Vec::new());
        pockets.push(Vec::new());
        pockets.push(Vec::new());
        pockets.push(Vec::new());
        pockets.push(Vec::new());
        pockets.push(Vec::new());
        FreeList { start, current: start, size, pockets }
    }

    /// What `alloc` did, stated over the before and after states.
    pub open spec fn alloc_post(
        pre: FreeList,
        post: FreeList,
        size: int,
        r: Option<(HeapPointer, usize)>,
    ) -> bool {
        match r {
            None => {
                &&& post.current == pre.current
                &&& post.stacks() =~~= pre.stacks()
                &&& (size > HUGE_POCKET || (pre.stacks()[class_of(size)].len() == 0 && pre.current.0
                    + pocket_size_of(class_of(size)) > pre.start.0 + pre.size))
            },
            Some((p, c)) => {
                &&& size <= HUGE_POCKET
                &&& c == pocket_size_of(class_of(size))
                &&& size <= c
                &&& pre.start.0 <= p.0
                &&& p.0 + c <= post.current.0
                &&& if pre.stacks()[class_of(size)].len() > 0 {
                    &&& p == pre.stacks()[class_of(size)].last()
                    &&& post.stacks() =~~= pre.stacks().update(
                        class_of(size),
                        pre.stacks()[class_of(size)].drop_last(),
                    )
                    &&& post.current == pre.current
                } else {
                    &&& p == pre.current
                    &&& post.current.0 == pre.current.0 + c
                    &&& post.stacks() =~~= pre.stacks()
                }
            },
        }
    }

    /// Hand out a slot for `size` bytes: the most recently recycled slot of
    /// the matching class when one exists, else a carve from the bump
    /// frontier, else nothing.
    pub fn allocate(&mut self, size: usize) -> (r: Option<(HeapPointer, usize)>)
        requires
            old(self).wf(),
        ensures
            final(self).wf(),
            final(self).start == old(self).start,
            final(self).size == old(self).size,
            FreeList::alloc_post(*old(self), *final(self), size as int, r),
    {
        let pocket = match PocketSize::next_up(size) {
            Some(p) => p,
            None => {
                return None;
            },
        };
        let psize = pocket.size();
        let idx = pocket.index();
        if let Some(p) = stack_pop(&mut self.pockets, idx) {
            proof {
                assert(self.stacks() =~~= old(self).stacks().update(
                    class_of(size as int),
                    old(self).stacks()[class_of(size as int)].drop_last(),
                ));
                let c = class_of(size as int);
                assert(old(self).stacks()[c][old(self).stacks()[c].len() - 1] == p);
            }
            return Some((p, psize));
        }
        let used = self.current.as_usize() - self.start.as_usize();
        if psize <= self.size - used {
            let p = self.current;
            self.current = self.current.offset(psize);
            proof {
                assert(self.stacks() =~~= old(self).stacks());
                assert forall|c: int, k: int|
                    0 <= c < NUMBER_MEMORY_POCKETS && 0 <= k < self.stacks()[c].len() implies self
                    .start.0 <= (#[trigger] self.stacks()[c][k]).0 && self.stacks()[c][k].0
                    + pocket_size_of(c) <= self.current.0 by {
                    assert(old(self).stacks()[c][k].0 + pocket_size_of(c) <= old(self).current.0);
                }
            }
            Some((p, psize))
        } else {
            proof {
                assert(self.stacks() =~~= old(self).stacks());
            }
            None
        }
    }
}

} // verus!
