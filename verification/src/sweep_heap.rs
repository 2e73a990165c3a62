//! The old (sweep) heap: a contiguous region allocated through size classes,
//! swept by the `rooted` flag alone and compacted toward the region's low end
//! when fragmentation grows.

use vstd::prelude::*;

use crate::free_list::class_of;
use crate::free_list::pocket_size_of;
use crate::free_list::ranges_disjoint;
use crate::free_list::stack_sum;
use crate::free_list::stacks_ok;
use crate::free_list::FreeList;
use crate::free_list::PocketSize;
use crate::free_list::NUMBER_MEMORY_POCKETS;
use crate::memory::alloc_zeroed;
use crate::memory::read_bytes;
use crate::memory::spliced;
use crate::memory::write_bytes;
use vstd::pervasive::VecAdditionalExecFns;
use crate::memory::HeapPointer;
use crate::rooted::ContainingHeap;
use crate::rooted::RootedInner;

verus! {

/// Bytes of the old region reserved by a descriptor: the byte size of its
/// pocket, or nothing while the object still sits in Eden.
pub open spec fn pocket_extent(d: RootedInner) -> int {
    match d.heap {
        ContainingHeap::Eden => 0,
        ContainingHeap::Intermediate(c) => c as int,
    }
}

/// Total old-region bytes reserved by a registry.
pub open spec fn roots_pocket_sum(roots: Seq<RootedInner>) -> int
    decreases roots.len(),
{
    if roots.len() == 0 {
        0
    } else {
        roots_pocket_sum(roots.drop_last()) + pocket_extent(roots.last())
    }
}

/// Old-region bytes reserved by the descriptors before index `k`.
pub open spec fn prefix_pocket_sum(roots: Seq<RootedInner>, k: int) -> int {
    roots_pocket_sum(roots.take(k))
}

pub proof fn lemma_roots_sum_concat(a: Seq<RootedInner>, b: Seq<RootedInner>)
    ensures
        roots_pocket_sum(a + b) == roots_pocket_sum(a) + roots_pocket_sum(b),
    decreases b.len(),
{
    if b.len() == 0 {
        assert(a + b =~= a);
    } else {
        lemma_roots_sum_concat(a, b.drop_last());
        assert((a + b).drop_last() =~= a + b.drop_last());
        assert((a + b).last() == b.last());
    }
}

pub proof fn lemma_roots_sum_nonneg(roots: Seq<RootedInner>)
    ensures
        roots_pocket_sum(roots) >= 0,
    decreases roots.len(),
{
    if roots.len() > 0 {
        lemma_roots_sum_nonneg(roots.drop_last());
    }
}

/// The reserved prefix grows by exactly one pocket at each descriptor.
pub proof fn lemma_prefix_sum_step(roots: Seq<RootedInner>, k: int)
    requires
        0 <= k < roots.len(),
    ensures
        prefix_pocket_sum(roots, k + 1) == prefix_pocket_sum(roots, k) + pocket_extent(roots[k]),
{
    assert(roots.take(k + 1).drop_last() =~= roots.take(k));
    assert(roots.take(k + 1).last() == roots[k]);
}

pub proof fn lemma_prefix_sum_monotone(roots: Seq<RootedInner>, a: int, b: int)
    requires
        0 <= a <= b <= roots.len(),
    ensures
        prefix_pocket_sum(roots, a) <= prefix_pocket_sum(roots, b),
{
    assert(roots.take(b) =~= roots.take(a) + roots.take(b).skip(a));
    lemma_roots_sum_concat(roots.take(a), roots.take(b).skip(a));
    lemma_roots_sum_nonneg(roots.take(b).skip(a));
}

pub proof fn lemma_prefix_sum_whole(roots: Seq<RootedInner>)
    ensures
        prefix_pocket_sum(roots, roots.len() as int) == roots_pocket_sum(roots),
{
    assert(roots.take(roots.len() as int) =~= roots);
}

/// Two registries whose descriptors reserve the same pockets reserve the same
/// total.
pub proof fn lemma_roots_sum_pointwise(a: Seq<RootedInner>, b: Seq<RootedInner>)
    requires
        a.len() == b.len(),
        forall|k: int| 0 <= k < a.len() ==> pocket_extent(#[trigger] a[k]) == pocket_extent(b[k]),
    ensures
        roots_pocket_sum(a) == roots_pocket_sum(b),
    decreases a.len(),
{
    if a.len() > 0 {
        lemma_roots_sum_pointwise(a.drop_last(), b.drop_last());
    }
}

pub proof fn lemma_roots_sum_update(a: Seq<RootedInner>, p: int, d: RootedInner)
    requires
        0 <= p < a.len(),
    ensures
        roots_pocket_sum(a.update(p, d)) == roots_pocket_sum(a) - pocket_extent(a[p])
            + pocket_extent(d),
    decreases a.len(),
{
    if p == a.len() - 1 {
        assert(a.update(p, d).drop_last() =~= a.drop_last());
        assert(a.update(p, d).last() == d);
    } else {
        lemma_roots_sum_update(a.drop_last(), p, d);
        assert(a.update(p, d).drop_last() =~= a.drop_last().update(p, d));
        assert(a.update(p, d).last() == a.last());
    }
}

/// Every old-region descriptor owns a pocket of the class its size resolves
/// to, lying inside the carved span `[start, current)`.
pub open spec fn live_in_bounds(roots: Seq<RootedInner>, start: int, current: int) -> bool {
    forall|i: int|
        0 <= i < roots.len() && (#[trigger] roots[i]).heap is Intermediate ==> roots[i].pocket_ok()
            && start <= roots[i].value.0 && roots[i].value.0 + pocket_extent(roots[i]) <= current
}

/// No two old-region pockets overlap.
pub open spec fn live_disjoint(roots: Seq<RootedInner>) -> bool {
    forall|i: int, j: int|
        #![trigger roots[i], roots[j]]
        0 <= i < j < roots.len() && roots[i].heap is Intermediate && roots[j].heap is Intermediate
            ==> ranges_disjoint(
            roots[i].value.0 as int,
            pocket_extent(roots[i]),
            roots[j].value.0 as int,
            pocket_extent(roots[j]),
        )
}

/// No old-region pocket overlaps a recycled slot.
pub open spec fn live_stack_disjoint(
    roots: Seq<RootedInner>,
    stacks: Seq<Seq<HeapPointer>>,
) -> bool {
    forall|i: int, c: int, k: int|
        #![trigger roots[i], stacks[c][k]]
        0 <= i < roots.len() && roots[i].heap is Intermediate && 0 <= c < NUMBER_MEMORY_POCKETS && 0
            <= k < stacks[c].len() ==> ranges_disjoint(
            roots[i].value.0 as int,
            pocket_extent(roots[i]),
            stacks[c][k].0 as int,
            pocket_size_of(c),
        )
}

/// One mathematical state of the old region together with the registry that
/// allocates from it.
pub struct OldModel {
    pub start: int,
    pub size: int,
    pub current: int,
    pub stacks: Seq<Seq<HeapPointer>>,
    pub region: Seq<u8>,
    pub roots: Seq<RootedInner>,
}

/// Well-formedness of an old-region state: pockets and recycled slots lie in
/// the carved span, nothing overlaps, and the reserved bytes are accounted
/// for by the bump frontier.
pub open spec fn model_wf(m: OldModel) -> bool {
    &&& 1 <= m.start
    &&& m.start <= m.current
    &&& m.current <= m.start + m.size
    &&& m.start + m.size <= usize::MAX
    &&& m.stacks.len() == NUMBER_MEMORY_POCKETS
    &&& m.region.len() == m.size
    &&& stacks_ok(m.stacks, m.start, m.current)
    &&& live_in_bounds(m.roots, m.start, m.current)
    &&& live_disjoint(m.roots)
    &&& live_stack_disjoint(m.roots, m.stacks)
    &&& roots_pocket_sum(m.roots) + stack_sum(m.stacks) <= m.current - m.start
}

/// The payload bytes of an old-region descriptor, read from a region image.
pub open spec fn payload_in(region: Seq<u8>, start: int, d: RootedInner) -> Seq<u8> {
    region.subrange(d.value.0 - start, d.value.0 - start + d.size)
}

/// A write outside a descriptor's payload leaves the payload unchanged.
pub proof fn lemma_payload_untouched(
    region: Seq<u8>,
    start: int,
    off: int,
    src: Seq<u8>,
    d: RootedInner,
)
    requires
        start <= d.value.0,
        d.value.0 - start + d.size <= region.len(),
        0 <= off,
        off + src.len() <= region.len(),
        ranges_disjoint(off, src.len() as int, d.value.0 - start, d.size as int),
    ensures
        payload_in(spliced(region, off, src), start, d) == payload_in(region, start, d),
{
    crate::memory::lemma_spliced_elsewhere(
        region,
        off,
        src,
        d.value.0 - start,
        d.value.0 - start + d.size,
    );
}

/// `spliced` keeps the buffer's length.
pub proof fn lemma_spliced_len(region: Seq<u8>, off: int, src: Seq<u8>)
    ensures
        spliced(region, off, src).len() == region.len(),
{
    reveal(crate::memory::spliced);
}

/// Writing one promoted payload into its fresh pocket leaves every other
/// old-region payload unchanged and reads back exactly.
pub proof fn lemma_promote_payloads(
    region: Seq<u8>,
    region2: Seq<u8>,
    start: int,
    roots: Seq<RootedInner>,
    idx: int,
    p: HeapPointer,
    c: usize,
    buf: Seq<u8>,
)
    requires
        0 <= idx < roots.len(),
        start <= p.0,
        p.0 - start + buf.len() <= region.len(),
        buf.len() <= c,
        region2 == spliced(region, p.0 - start, buf),
        forall|j: int|
            0 <= j < roots.len() && j != idx && (#[trigger] roots[j]).heap is Intermediate ==> start
                <= roots[j].value.0 && roots[j].value.0 - start + roots[j].size <= region.len()
                && ranges_disjoint(
                p.0 as int,
                c as int,
                roots[j].value.0 as int,
                roots[j].size as int,
            ),
    ensures
        forall|j: int|
            0 <= j < roots.len() && j != idx && (#[trigger] roots[j]).heap is Intermediate
                ==> payload_in(region2, start, roots[j]) == payload_in(region, start, roots[j]),
        region2.subrange(p.0 - start, p.0 - start + buf.len()) == buf,
{
    crate::memory::lemma_spliced_readback(region, p.0 - start, buf);
    assert forall|j: int|
        0 <= j < roots.len() && j != idx && (#[trigger] roots[j]).heap
            is Intermediate implies payload_in(region2, start, roots[j]) == payload_in(
        region,
        start,
        roots[j],
    ) by {
        crate::memory::lemma_spliced_elsewhere(
            region,
            p.0 - start,
            buf,
            roots[j].value.0 - start,
            roots[j].value.0 - start + roots[j].size,
        );
    }
}

/// Dropping a descriptor from the registry keeps the old region well formed.
pub proof fn lemma_model_wf_remove(m: OldModel, p: int, m2: OldModel)
    requires
        model_wf(m),
        0 <= p < m.roots.len(),
        m2 == (OldModel { roots: m.roots.remove(p), ..m }),
    ensures
        model_wf(m2),
{
    lemma_roots_sum_remove(m.roots, p);
    lemma_roots_sum_nonneg(seq![m.roots[p]]);
    assert(pocket_extent(m.roots[p]) >= 0);
    assert(forall|j: int|
        0 <= j < m2.roots.len() ==> #[trigger] m2.roots[j] == if j < p {
            m.roots[j]
        } else {
            m.roots[j + 1]
        });
    assert(live_in_bounds(m2.roots, m2.start, m2.current));
    assert(live_disjoint(m2.roots));
    assert(live_stack_disjoint(m2.roots, m2.stacks));
}

pub struct SweepHeap {
    pub start: HeapPointer,
    pub size: usize,
    pub free_list: FreeList,
    pub region: Vec<u8>,
}

impl SweepHeap {
    pub open spec fn wf(self) -> bool {
        &&& self.free_list.wf()
        &&& self.start == self.free_list.start
        &&& self.size == self.free_list.size
        &&& self.region@.len() == self.size
    }

    /// This heap and a registry, as one mathematical state.
    pub open spec fn model_with(self, roots: Seq<RootedInner>) -> OldModel {
        OldModel {
            start: self.start.0 as int,
            size: self.size as int,
            current: self.free_list.current.0 as int,
            stacks: self.free_list.stacks(),
            region: self.region@,
            roots,
        }
    }

    /// The payload bytes of an old-region descriptor.
    pub open spec fn payload(self, d: RootedInner) -> Seq<u8> {
        payload_in(self.region@, self.start.0 as int, d)
    }

    /// An old heap over the address range `[start, start + size)`, with the
    /// region's backing bytes held in `region` and zeroed.
    pub fn from_region(start: HeapPointer, size: usize) -> (r: Self)
        requires
            start.0 >= 1,
            start.0 + size <= usize::MAX,
        ensures
            r.wf(),
            r.start == start,
            r.size == size,
            r.free_list.current == start,
            forall|c: int|
                0 <= c < NUMBER_MEMORY_POCKETS ==> (#[trigger] r.free_list.stacks()[c]).len() == 0,
            forall|x: int| 0 <= x < size ==> r.region@[x] == 0u8,
            model_wf(r.model_with(Seq::empty())),
    {
        let region = alloc_zeroed(size);
        let r = SweepHeap { start, size, free_list: FreeList::new(start, size), region };
        proof {
            crate::free_list::lemma_stack_sum_all_empty(
                r.free_list.stacks(),
                NUMBER_MEMORY_POCKETS as int,
            );
        }
        r
    }

    pub fn allocate(&mut self, size: usize) -> (r: Option<(HeapPointer, usize)>)
        requires
            old(self).wf(),
        ensures
            final(self).wf(),
            final(self).start == old(self).start,
            final(self).size == old(self).size,
            final(self).region == old(self).region,
            FreeList::alloc_post(old(self).free_list, final(self).free_list, size as int, r),
    {
        self.free_list.allocate(size)
    }

    /// Copy `src` into the region at address `ptr`.
    pub fn write(&mut self, ptr: HeapPointer, src: &Vec<u8>)
        requires
            old(self).wf(),
            old(self).start.0 <= ptr.0,
            ptr.0 + src@.len() <= old(self).start.0 + old(self).size,
        ensures
            final(self).wf(),
            final(self).start == old(self).start,
            final(self).size == old(self).size,
            final(self).free_list == old(self).free_list,
            final(self).region@ == spliced(old(self).region@, ptr.0 - old(self).start.0, src@),
    {
        let off = ptr.as_usize() - self.start.as_usize();
        write_bytes(&mut self.region, off, src);
        proof {
            lemma_spliced_len(old(self).region@, off as int, src@);
        }
    }

    /// Copy of the `len` bytes at address `ptr`.
    pub fn read(&self, ptr: HeapPointer, len: usize) -> (r: Vec<u8>)
        requires
            self.wf(),
            self.start.0 <= ptr.0,
            ptr.0 + len <= self.start.0 + self.size,
        ensures
            r@ == self.region@.subrange(ptr.0 - self.start.0, ptr.0 - self.start.0 + len),
    {
        let off = ptr.as_usize() - self.start.as_usize();
        read_bytes(&self.region, off, len)
    }

    /// Iterate the registry; each old-region descriptor that is no longer
    /// rooted gives its pocket back to its class's stack and leaves the
    /// registry. Everything else is retained, in order.
    pub fn sweep(&mut self, roots: &mut Vec<RootedInner>)
        requires
            old(self).wf(),
            model_wf(old(self).model_with(old(roots)@)),
        ensures
            final(self).wf(),
            final(self).start == old(self).start,
            final(self).size == old(self).size,
            final(self).region == old(self).region,
            final(self).free_list.current == old(self).free_list.current,
            final(roots)@ == sweep_keep(old(roots)@),
            final(self).free_list.stacks() =~~= sweep_stacks(
                old(roots)@,
                old(self).free_list.stacks(),
            ),
            model_wf(final(self).model_with(final(roots)@)),
    {
        let mut kept: Vec<RootedInner> = Vec::new();
        let n = roots.len();
        proof {
            assert(kept@ + old(roots)@.skip(0) =~= old(roots)@);
            assert(old(roots)@.take(0) =~= Seq::<RootedInner>::empty());
        }
        let mut i: usize = 0;
        while i < n
            invariant
                n == old(roots)@.len(),
                roots@ == old(roots)@,
                i <= n,
                self.wf(),
                self.start == old(self).start,
                self.size == old(self).size,
                self.region == old(self).region,
                self.free_list.current == old(self).free_list.current,
                kept@ == sweep_keep(old(roots)@.take(i as int)),
                self.free_list.stacks() =~~= sweep_stacks(
                    old(roots)@.take(i as int),
                    old(self).free_list.stacks(),
                ),
                model_wf(self.model_with(kept@ + old(roots)@.skip(i as int))),
            decreases n - i,
        {
            let d = roots[i];
            let ghost all = kept@ + old(roots)@.skip(i as int);
            let ghost p = kept@.len() as int;
            proof {
                assert(all[p] == old(roots)@[i as int]);
                assert(old(roots)@.take(i as int + 1).drop_last() =~= old(roots)@.take(i as int));
                assert(old(roots)@.take(i as int + 1).last() == d);
            }
            let mut dead = false;
            if let ContainingHeap::Intermediate(c) = d.heap {
                if !d.rooted {
                    dead = true;
                    proof {
                        let m = self.model_with(all);
                        assert(m.roots[p].heap is Intermediate && m.roots[p].pocket_ok());
                        assert(c == pocket_size_of(class_of(d.size as int)));
                        assert forall|c2: int, k: int|
                            0 <= c2 < NUMBER_MEMORY_POCKETS && 0 <= k
                                < self.free_list.stacks()[c2].len() implies ranges_disjoint(
                            (#[trigger] self.free_list.stacks()[c2][k]).0 as int,
                            pocket_size_of(c2),
                            d.value.0 as int,
                            c as int,
                        ) by {
                            assert(live_stack_disjoint(m.roots, m.stacks));
                            assert(ranges_disjoint(
                                m.roots[p].value.0 as int,
                                pocket_extent(m.roots[p]),
                                m.stacks[c2][k].0 as int,
                                pocket_size_of(c2),
                            ));
                        }
                    }
                    let ghost pre = *self;
                    PocketSize::reclaim(c, d.value, &mut self.free_list);
                    proof {
                        let all2 = kept@ + old(roots)@.skip(i as int + 1);
                        assert(all2 =~= all.remove(p));
                        lemma_model_wf_reclaim(
                            pre.model_with(all),
                            p,
                            self.model_with(all2),
                        );
                        assert(sweep_keep(old(roots)@.take(i as int + 1)) == kept@);
                        assert(self.free_list.stacks() =~~= sweep_stacks(
                            old(roots)@.take(i as int + 1),
                            old(self).free_list.stacks(),
                        ));
                    }
                }
            }
            if !dead {
                kept.push(d);
                proof {
                    let all2 = kept@ + old(roots)@.skip(i as int + 1);
                    assert(all2 =~= all);
                    assert(kept@ == sweep_keep(old(roots)@.take(i as int + 1)));
                }
            }
            i = i + 1;
        }
        proof {
            assert(old(roots)@.take(n as int) =~= old(roots)@);
            assert(kept@ + old(roots)@.skip(n as int) =~= kept@);
        }
        *roots = kept;
    }
    /// Relocate every old-region object toward the region's low end, packed
    /// in registry order: payloads are staged, copied to their packed
    /// positions, each descriptor's `value` is rewritten, the class stacks
    /// are cleared, and the bump frontier is reset to just past the highest
    /// survivor.
    #[verifier::rlimit(60)]
    #[verifier::loop_isolation(false)]
    pub fn compact(&mut self, roots: &mut Vec<RootedInner>)
        requires
            old(self).wf(),
            model_wf(old(self).model_with(old(roots)@)),
        ensures
            final(self).wf(),
            final(self).start == old(self).start,
            final(self).size == old(self).size,
            final(self).model_with(final(roots)@) == compact_model(
                old(self).model_with(old(roots)@),
            ),
            model_wf(final(self).model_with(final(roots)@)),
            forall|k: int|
                0 <= k < old(roots)@.len() && (#[trigger] old(roots)@[k]).heap is Intermediate
                    ==> payload_in(
                    final(self).region@,
                    final(self).start.0 as int,
                    final(roots)@[k],
                ) == payload_in(old(self).region@, old(self).start.0 as int, old(roots)@[k]),
    {
        let ghost orig = old(self).region@;
        let ghost oroots = old(roots)@;
        let ghost gstart = old(self).start.0 as int;
        proof {
            crate::free_list::lemma_stack_sum_nonneg(
                old(self).free_list.stacks(),
                NUMBER_MEMORY_POCKETS as int,
            );
            lemma_roots_sum_nonneg(oroots);
        }
        // stage every survivor's payload before any byte moves
        let mut staged: Vec<Vec<u8>> = Vec::new();
        let n = roots.len();
        let mut k: usize = 0;
        while k < n
            invariant
                n == oroots.len(),
                roots@ == oroots,
                self.region@ == orig,
                self.start == old(self).start,
                self.size == old(self).size,
                self.free_list == old(self).free_list,
                self.wf(),
                old(self).wf(),
                model_wf(old(self).model_with(oroots)),
                k <= n,
                staged@.len() == k,
                forall|j: int|
                    0 <= j < k && (#[trigger] oroots[j]).heap is Intermediate ==> (staged@[j])@
                        == payload_in(orig, gstart, oroots[j]),
            decreases n - k,
        {
            let d = roots[k];
            let ghost prev_staged = staged@;
            match d.heap {
                ContainingHeap::Intermediate(_) => {
                    proof {
                        let m = old(self).model_with(oroots);
                        assert(m.roots[k as int].pocket_ok() && m.start <= m.roots[k as int].value.0
                            && m.roots[k as int].value.0 + pocket_extent(m.roots[k as int])
                            <= m.current);
                    }
                    let b = self.read(d.value, d.size);
                    proof {
                        assert(self.region@ == orig);
                        assert(b@ == self.region@.subrange(
                            d.value.0 - self.start.0,
                            d.value.0 - self.start.0 + d.size,
                        ));
                        assert(self.start.0 as int == gstart);
                        assert(d.value.0 - self.start.0 == d.value.0 - gstart);
                        assert(b@ == orig.subrange(
                            d.value.0 - gstart,
                            d.value.0 - gstart + d.size,
                        ));
                        assert(b@ == payload_in(orig, gstart, oroots[k as int]));
                    }
                    staged.push(b);
                    proof {
                        assert(staged@[k as int] == b);
                        assert((staged@[k as int])@ == payload_in(orig, gstart, oroots[k as int]));
                    }
                },
                ContainingHeap::Eden => {
                    staged.push(Vec::new());
                },
            }
            k = k + 1;
            proof {
                assert forall|j: int|
                    0 <= j < k && (#[trigger] oroots[j]).heap is Intermediate implies (
                staged@[j])@ == payload_in(orig, gstart, oroots[j]) by {
                    if j < k - 1 {
                        assert(staged@[j] == prev_staged[j]);
                    }
                }
            }
        }
        // the recycled stacks are dropped whole
        self.free_list.pockets = empty_pockets();
        proof {
            assert(self.free_list.stacks() =~~= empty_stacks());
            assert(stacks_ok(self.free_list.stacks(), gstart, self.free_list.current.0 as int));
            assert(prefix_pocket_sum(oroots, 0) == 0) by {
                assert(oroots.take(0) =~= Seq::<RootedInner>::empty());
            }
            assert(crate::free_list::stack_sum(old(self).free_list.stacks()) >= 0);
        }
        // copy each survivor to its packed position and repoint it
        let mut off: usize = 0;
        let mut k: usize = 0;
        while k < n
            invariant
                n == oroots.len(),
                roots@.len() == n,
                k <= n,
                staged@.len() == n,
                forall|j: int|
                    0 <= j < n && (#[trigger] oroots[j]).heap is Intermediate ==> (staged@[j])@
                        == payload_in(orig, gstart, oroots[j]),
                old(self).wf(),
                model_wf(old(self).model_with(oroots)),
                roots_pocket_sum(oroots) <= old(self).free_list.current.0 - gstart,
                self.wf(),
                self.start == old(self).start,
                self.size == old(self).size,
                self.free_list.start == old(self).free_list.start,
                self.free_list.size == old(self).free_list.size,
                self.free_list.current == old(self).free_list.current,
                self.free_list.stacks() =~~= empty_stacks(),
                off == prefix_pocket_sum(oroots, k as int),
                off <= roots_pocket_sum(oroots),
                forall|j: int| k <= j < n ==> roots@[j] == oroots[j],
                forall|j: int| 0 <= j < k ==> roots@[j] == compact_roots(oroots, gstart)[j],
                self.region@ == compact_region_rec(orig, oroots, gstart, k as int),
            decreases n - k,
        {
            proof {
                lemma_prefix_sum_step(oroots, k as int);
                lemma_prefix_sum_monotone(oroots, k as int + 1, n as int);
                lemma_prefix_sum_whole(oroots);
                lemma_compact_region_len(orig, oroots, gstart, k as int);
            }
            let d = roots[k];
            if let ContainingHeap::Intermediate(c) = d.heap {
                proof {
                    let m = old(self).model_with(oroots);
                    assert(m.roots[k as int].pocket_ok() && m.start <= m.roots[k as int].value.0
                        && m.roots[k as int].value.0 + pocket_extent(m.roots[k as int])
                        <= m.current);
                    assert((staged@[k as int])@ == payload_in(orig, gstart, oroots[k as int]));
                    assert((staged@[k as int])@.len() == d.size);
                    lemma_prefix_sum_monotone(oroots, 0, k as int);
                }
                let p = HeapPointer::new(self.start.as_usize() + off);
                self.write(p, &staged[k]);
                roots.set(k, RootedInner { value: p, ..d });
                off = off + c;
            }
            k = k + 1;
            proof {
                assert(self.region@ == compact_region_rec(orig, oroots, gstart, k as int));
                if oroots[k - 1].heap is Intermediate {
                    assert(roots@[k - 1] == compact_roots(oroots, gstart)[k - 1]);
                }
            }
        }
        proof {
            lemma_prefix_sum_whole(oroots);
        }
        self.free_list.current = HeapPointer::new(self.start.as_usize() + off);
        proof {
            let m = old(self).model_with(oroots);
            let m2 = self.model_with(roots@);
            assert(roots@ =~= compact_roots(oroots, gstart));
            assert(self.free_list.stacks() =~~= empty_stacks());
            assert(m2 == compact_model(m));
            lemma_compact_model_wf(m);
        }
    }

    /// A major pass over the old region: sweep, then compact when the
    /// fragmentation metric exceeds one half.
    pub fn collect(&mut self, roots: &mut Vec<RootedInner>)
        requires
            old(self).wf(),
            model_wf(old(self).model_with(old(roots)@)),
        ensures
            final(self).wf(),
            final(self).start == old(self).start,
            final(self).size == old(self).size,
            final(self).model_with(final(roots)@) == collect_model(
                old(self).model_with(old(roots)@),
            ),
            model_wf(final(self).model_with(final(roots)@)),
    {
        let ghost m = old(self).model_with(old(roots)@);
        proof {
            reveal(collect_model);
        }
        self.sweep(roots);
        proof {
            assert(self.model_with(roots@) == sweep_model(m));
        }
        let used = self.free_list.current.as_usize() - self.start.as_usize();
        if used < self.size - used {
            self.compact(roots);
        }
    }

}

/// A descriptor the sweep removes: it owns an old-region pocket and no client
/// handle roots it any more.
pub open spec fn sweep_dead(d: RootedInner) -> bool {
    d.heap is Intermediate && !d.rooted
}

/// The registry after a sweep: dead old-region descriptors removed, every
/// other descriptor kept in order.
pub open spec fn sweep_keep(roots: Seq<RootedInner>) -> Seq<RootedInner>
    decreases roots.len(),
{
    if roots.len() == 0 {
        Seq::empty()
    } else if sweep_dead(roots.last()) {
        sweep_keep(roots.drop_last())
    } else {
        sweep_keep(roots.drop_last()).push(roots.last())
    }
}

/// The recycled stacks after a sweep: each dead descriptor's pocket pushed
/// onto the stack of its class, in registry order.
pub open spec fn sweep_stacks(
    roots: Seq<RootedInner>,
    stacks: Seq<Seq<HeapPointer>>,
) -> Seq<Seq<HeapPointer>>
    decreases roots.len(),
{
    if roots.len() == 0 {
        stacks
    } else {
        let prev = sweep_stacks(roots.drop_last(), stacks);
        let d = roots.last();
        if sweep_dead(d) {
            let ci = class_of(pocket_extent(d));
            prev.update(ci, prev[ci].push(d.value))
        } else {
            prev
        }
    }
}

/// Nothing the sweep keeps is dead.
pub proof fn lemma_sweep_keep_no_dead(roots: Seq<RootedInner>)
    ensures
        forall|k: int|
            0 <= k < sweep_keep(roots).len() ==> !sweep_dead(#[trigger] sweep_keep(roots)[k]),
    decreases roots.len(),
{
    if roots.len() > 0 {
        lemma_sweep_keep_no_dead(roots.drop_last());
        let prev = sweep_keep(roots.drop_last());
        assert forall|k: int|
            0 <= k < sweep_keep(roots).len() implies !sweep_dead(
            #[trigger] sweep_keep(roots)[k],
        ) by {
            if !sweep_dead(roots.last()) {
                if k < prev.len() {
                    assert(sweep_keep(roots)[k] == prev[k]);
                } else {
                    assert(sweep_keep(roots)[k] == roots.last());
                }
            } else {
                assert(sweep_keep(roots)[k] == prev[k]);
            }
        }
    }
}

/// Every kept descriptor stood in the registry.
pub proof fn lemma_sweep_keep_index(roots: Seq<RootedInner>, k: int)
    requires
        0 <= k < sweep_keep(roots).len(),
    ensures
        exists|j: int| 0 <= j < roots.len() && sweep_keep(roots)[k] == roots[j],
    decreases roots.len(),
{
    if roots.len() > 0 {
        if !sweep_dead(roots.last()) && k == sweep_keep(roots).len() - 1 {
            assert(sweep_keep(roots)[k] == roots[roots.len() - 1]);
        } else {
            lemma_sweep_keep_index(roots.drop_last(), k);
            let j = choose|j: int|
                0 <= j < roots.drop_last().len() && sweep_keep(roots.drop_last())[k]
                    == roots.drop_last()[j];
            assert(sweep_keep(roots)[k] == roots[j]);
        }
    }
}

/// Kept descriptors stood in the registry in the same relative order.
pub proof fn lemma_sweep_keep_pair(roots: Seq<RootedInner>, k1: int, k2: int)
    requires
        0 <= k1 < k2 < sweep_keep(roots).len(),
    ensures
        exists|j1: int, j2: int|
            0 <= j1 < j2 < roots.len() && sweep_keep(roots)[k1] == roots[j1] && sweep_keep(
                roots,
            )[k2] == roots[j2],
    decreases roots.len(),
{
    if roots.len() > 0 {
        if !sweep_dead(roots.last()) && k2 == sweep_keep(roots).len() - 1 {
            lemma_sweep_keep_index(roots.drop_last(), k1);
            let j1 = choose|j: int|
                0 <= j < roots.drop_last().len() && sweep_keep(roots.drop_last())[k1]
                    == roots.drop_last()[j];
            assert(sweep_keep(roots)[k1] == roots[j1] && sweep_keep(roots)[k2] == roots[roots.len()
                - 1]);
        } else {
            lemma_sweep_keep_pair(roots.drop_last(), k1, k2);
            let (j1, j2) = choose|j1: int, j2: int|
                0 <= j1 < j2 < roots.drop_last().len() && sweep_keep(roots.drop_last())[k1]
                    == roots.drop_last()[j1] && sweep_keep(roots.drop_last())[k2]
                    == roots.drop_last()[j2];
            assert(sweep_keep(roots)[k1] == roots[j1] && sweep_keep(roots)[k2] == roots[j2]);
        }
    }
}

/// Every descriptor the sweep may not remove is kept, by value.
pub proof fn lemma_sweep_keep_survivor(roots: Seq<RootedInner>, j: int)
    requires
        0 <= j < roots.len(),
        !sweep_dead(roots[j]),
    ensures
        exists|k: int| 0 <= k < sweep_keep(roots).len() && #[trigger] sweep_keep(roots)[k]
            == roots[j],
    decreases roots.len(),
{
    if roots.len() > 0 {
        if j == roots.len() - 1 {
            assert(sweep_keep(roots)[sweep_keep(roots).len() - 1] == roots[j]);
        } else {
            lemma_sweep_keep_survivor(roots.drop_last(), j);
            let k = choose|k: int|
                0 <= k < sweep_keep(roots.drop_last()).len() && #[trigger] sweep_keep(
                    roots.drop_last(),
                )[k] == roots.drop_last()[j];
            assert(sweep_keep(roots)[k] == roots[j]);
        }
    }
}

pub proof fn lemma_roots_sum_remove(roots: Seq<RootedInner>, p: int)
    requires
        0 <= p < roots.len(),
    ensures
        roots_pocket_sum(roots.remove(p)) == roots_pocket_sum(roots) - pocket_extent(roots[p]),
{
    let one = seq![roots[p]];
    assert(roots =~= roots.take(p) + (one + roots.skip(p + 1)));
    assert(roots.remove(p) =~= roots.take(p) + roots.skip(p + 1));
    lemma_roots_sum_concat(roots.take(p), one + roots.skip(p + 1));
    lemma_roots_sum_concat(one, roots.skip(p + 1));
    lemma_roots_sum_concat(roots.take(p), roots.skip(p + 1));
    assert(one.drop_last() =~= Seq::<RootedInner>::empty());
    assert(roots_pocket_sum(Seq::<RootedInner>::empty()) == 0);
    assert(one.last() == roots[p]);
    assert(roots_pocket_sum(one) == pocket_extent(roots[p]));
}

/// Reclaiming the pocket of a dead descriptor at index `p` keeps the old
/// region well formed: the registry loses the descriptor and the stack of its
/// class gains the slot.
proof fn lemma_model_wf_reclaim(m: OldModel, p: int, m2: OldModel)
    requires
        model_wf(m),
        0 <= p < m.roots.len(),
        sweep_dead(m.roots[p]),
        m2.start == m.start,
        m2.size == m.size,
        m2.current == m.current,
        m2.region == m.region,
        m2.roots == m.roots.remove(p),
        m2.stacks == m.stacks.update(
            class_of(pocket_extent(m.roots[p])),
            m.stacks[class_of(pocket_extent(m.roots[p]))].push(m.roots[p].value),
        ),
    ensures
        model_wf(m2),
{
    let d = m.roots[p];
    let c = pocket_extent(d);
    let ci = class_of(c);
    assert(0 <= ci < NUMBER_MEMORY_POCKETS && pocket_size_of(ci) == c && c >= d.size >= 0);
    // the registry clauses carry over: every new index names an old descriptor
    assert(forall|j: int|
        0 <= j < m2.roots.len() ==> #[trigger] m2.roots[j] == if j < p {
            m.roots[j]
        } else {
            m.roots[j + 1]
        });
    assert(live_in_bounds(m2.roots, m2.start, m2.current));
    assert(live_disjoint(m2.roots));
    // the new stack entry is the dead pocket, disjoint from every survivor
    // and every older entry
    assert forall|i: int, c2: int, k: int|
        0 <= i < m2.roots.len() && (#[trigger] m2.roots[i]).heap is Intermediate && 0 <= c2
            < NUMBER_MEMORY_POCKETS && 0 <= k < m2.stacks[c2].len() implies ranges_disjoint(
        m2.roots[i].value.0 as int,
        pocket_extent(m2.roots[i]),
        (#[trigger] m2.stacks[c2][k]).0 as int,
        pocket_size_of(c2),
    ) by {
        let iorig = if i < p {
            i
        } else {
            i + 1
        };
        assert(m2.roots[i] == m.roots[iorig]);
        if c2 == ci && k == m.stacks[ci].len() {
            assert(m2.stacks[c2][k] == d.value);
            assert(ranges_disjoint(
                m.roots[iorig].value.0 as int,
                pocket_extent(m.roots[iorig]),
                d.value.0 as int,
                c,
            ));
        } else {
            assert(m2.stacks[c2][k] == m.stacks[c2][k]);
        }
    }
    assert forall|c1: int, k1: int, c2: int, k2: int|
        #![trigger m2.stacks[c1][k1], m2.stacks[c2][k2]]
        0 <= c1 < NUMBER_MEMORY_POCKETS && 0 <= k1 < m2.stacks[c1].len() && 0 <= c2
            < NUMBER_MEMORY_POCKETS && 0 <= k2 < m2.stacks[c2].len() && (c1 != c2 || k1
            != k2) implies ranges_disjoint(
        m2.stacks[c1][k1].0 as int,
        pocket_size_of(c1),
        m2.stacks[c2][k2].0 as int,
        pocket_size_of(c2),
    ) by {
        if c1 == ci && k1 == m.stacks[ci].len() {
            assert(m2.stacks[c1][k1] == d.value);
            assert(m2.stacks[c2][k2] == m.stacks[c2][k2]);
        } else if c2 == ci && k2 == m.stacks[ci].len() {
            assert(m2.stacks[c2][k2] == d.value);
            assert(m2.stacks[c1][k1] == m.stacks[c1][k1]);
        } else {
            assert(m2.stacks[c1][k1] == m.stacks[c1][k1]);
            assert(m2.stacks[c2][k2] == m.stacks[c2][k2]);
        }
    }
    assert forall|c2: int, k: int|
        0 <= c2 < NUMBER_MEMORY_POCKETS && 0 <= k < m2.stacks[c2].len() implies m2.start <= (
    #[trigger] m2.stacks[c2][k]).0 && m2.stacks[c2][k].0 + pocket_size_of(c2) <= m2.current by {
        if c2 == ci && k == m.stacks[ci].len() {
            assert(m2.stacks[c2][k] == d.value);
        } else {
            assert(m2.stacks[c2][k] == m.stacks[c2][k]);
        }
    }
    // accounting: the pocket moves from the registry's side to the stacks'
    lemma_roots_sum_remove(m.roots, p);
    crate::free_list::lemma_stack_sum_update(
        m.stacks,
        ci,
        m.stacks[ci].push(d.value),
        NUMBER_MEMORY_POCKETS as int,
    );
    assert((m.stacks[ci].push(d.value).len() - m.stacks[ci].len()) * pocket_size_of(ci)
        == pocket_size_of(ci)) by (nonlinear_arith)
        requires
            m.stacks[ci].push(d.value).len() == m.stacks[ci].len() + 1,
    ;
}

/// The registry after compaction: every old-region descriptor repointed to
/// the region's low end, packed in registry order; Eden descriptors as they
/// were.
pub open spec fn compact_roots(roots: Seq<RootedInner>, start: int) -> Seq<RootedInner> {
    Seq::new(
        roots.len(),
        |k: int|
            match roots[k].heap {
                ContainingHeap::Eden => roots[k],
                ContainingHeap::Intermediate(c) => RootedInner {
                    value: HeapPointer((start + prefix_pocket_sum(roots, k)) as usize),
                    ..roots[k]
                },
            },
    )
}

/// The region's bytes after the first `n` descriptors have been relocated:
/// each surviving payload copied to its packed position.
pub open spec fn compact_region_rec(
    orig: Seq<u8>,
    roots: Seq<RootedInner>,
    start: int,
    n: int,
) -> Seq<u8>
    decreases n,
{
    if n <= 0 {
        orig
    } else {
        let prev = compact_region_rec(orig, roots, start, n - 1);
        match roots[n - 1].heap {
            ContainingHeap::Eden => prev,
            ContainingHeap::Intermediate(c) => spliced(
                prev,
                prefix_pocket_sum(roots, n - 1),
                payload_in(orig, start, roots[n - 1]),
            ),
        }
    }
}

pub open spec fn empty_stacks() -> Seq<Seq<HeapPointer>> {
    Seq::new(NUMBER_MEMORY_POCKETS as nat, |c: int| Seq::<HeapPointer>::empty())
}

/// What a compaction does to an old-region state.
pub open spec fn compact_model(m: OldModel) -> OldModel {
    OldModel {
        current: m.start + roots_pocket_sum(m.roots),
        stacks: empty_stacks(),
        region: compact_region_rec(m.region, m.roots, m.start, m.roots.len() as int),
        roots: compact_roots(m.roots, m.start),
        ..m
    }
}

/// Compaction runs when the fragmentation metric `1 - (current - start) /
/// size` exceeds one half, that is, when twice the carved span is smaller
/// than the region.
pub open spec fn should_compact(m: OldModel) -> bool {
    2 * (m.current - m.start) < m.size
}

/// What a sweep does to an old-region state.
pub open spec fn sweep_model(m: OldModel) -> OldModel {
    OldModel { roots: sweep_keep(m.roots), stacks: sweep_stacks(m.roots, m.stacks), ..m }
}

/// What a major cycle does to an old-region state: a sweep, then a compaction
/// when fragmentation is high.
#[verifier::opaque]
pub open spec fn collect_model(m: OldModel) -> OldModel {
    let s = sweep_model(m);
    if should_compact(s) {
        compact_model(s)
    } else {
        s
    }
}

pub proof fn lemma_compact_region_len(orig: Seq<u8>, roots: Seq<RootedInner>, start: int, n: int)
    ensures
        compact_region_rec(orig, roots, start, n).len() == orig.len(),
    decreases n,
{
    reveal(crate::memory::spliced);
    if n > 0 {
        lemma_compact_region_len(orig, roots, start, n - 1);
    }
}

/// After relocation, reading a survivor's packed position gives exactly the
/// payload it had before.
pub proof fn lemma_compact_region_payloads(orig: Seq<u8>, roots: Seq<RootedInner>, start: int, n: int)
    requires
        0 <= n <= roots.len(),
        roots_pocket_sum(roots) <= orig.len(),
        forall|k: int|
            0 <= k < roots.len() && (#[trigger] roots[k]).heap is Intermediate
                ==> roots[k].pocket_ok() && start <= roots[k].value.0 && roots[k].value.0
                + pocket_extent(roots[k]) <= start + orig.len(),
    ensures
        forall|k: int|
            0 <= k < n && (#[trigger] roots[k]).heap is Intermediate ==> compact_region_rec(
                orig,
                roots,
                start,
                n,
            ).subrange(
                prefix_pocket_sum(roots, k),
                prefix_pocket_sum(roots, k) + roots[k].size,
            ) == payload_in(orig, start, roots[k]),
    decreases n,
{
    reveal(crate::memory::spliced);
    if n > 0 {
        lemma_compact_region_payloads(orig, roots, start, n - 1);
        lemma_compact_region_len(orig, roots, start, n - 1);
        let prev = compact_region_rec(orig, roots, start, n - 1);
        let cur = compact_region_rec(orig, roots, start, n);
        assert forall|k: int|
            0 <= k < n && (#[trigger] roots[k]).heap is Intermediate implies cur.subrange(
            prefix_pocket_sum(roots, k),
            prefix_pocket_sum(roots, k) + roots[k].size,
        ) == payload_in(orig, start, roots[k]) by {
            lemma_prefix_sum_step(roots, k);
            lemma_prefix_sum_monotone(roots, k + 1, roots.len() as int);
            lemma_prefix_sum_whole(roots);
            lemma_prefix_sum_monotone(roots, 0, k);
            assert(prefix_pocket_sum(roots, 0) == 0) by {
                assert(roots.take(0) =~= Seq::<RootedInner>::empty());
            }
            if roots[n - 1].heap is Intermediate {
                let w = prefix_pocket_sum(roots, n - 1);
                let pay = payload_in(orig, start, roots[n - 1]);
                assert(pay.len() == roots[n - 1].size);
                if k == n - 1 {
                    assert(cur.subrange(w, w + roots[k].size) =~= pay);
                } else {
                    lemma_prefix_sum_step(roots, n - 1);
                    lemma_prefix_sum_monotone(roots, k + 1, n - 1);
                    assert(cur.subrange(
                        prefix_pocket_sum(roots, k),
                        prefix_pocket_sum(roots, k) + roots[k].size,
                    ) =~= prev.subrange(
                        prefix_pocket_sum(roots, k),
                        prefix_pocket_sum(roots, k) + roots[k].size,
                    ));
                }
            } else {
                assert(cur == prev);
            }
        }
    }
}

/// A well-formed old-region descriptor's pocket names a real class.
pub proof fn lemma_pocket_class_valid(d: RootedInner)
    requires
        d.heap is Intermediate,
        d.pocket_ok(),
    ensures
        0 <= class_of(pocket_extent(d)) < NUMBER_MEMORY_POCKETS,
        pocket_size_of(class_of(pocket_extent(d))) == pocket_extent(d),
{
}

pub proof fn lemma_sweep_stacks_len(roots: Seq<RootedInner>, stacks: Seq<Seq<HeapPointer>>)
    requires
        stacks.len() == NUMBER_MEMORY_POCKETS,
        forall|j: int|
            0 <= j < roots.len() && (#[trigger] roots[j]).heap is Intermediate
                ==> roots[j].pocket_ok(),
    ensures
        sweep_stacks(roots, stacks).len() == stacks.len(),
    decreases roots.len(),
{
    if roots.len() > 0 {
        assert forall|j: int|
            0 <= j < roots.drop_last().len() && (#[trigger] roots.drop_last()[j]).heap
                is Intermediate implies roots.drop_last()[j].pocket_ok() by {
            assert(roots.drop_last()[j] == roots[j]);
        }
        lemma_sweep_stacks_len(roots.drop_last(), stacks);
        let d = roots.last();
        if sweep_dead(d) {
            assert(d == roots[roots.len() - 1]);
            lemma_pocket_class_valid(d);
        }
    }
}

/// Every entry of the swept stacks is an original entry or the pocket of a
/// dead descriptor of the matching class.
/// Entry `k` of the swept stack for class `c` is the reclaimed pocket of
/// some dead descriptor of that class.
pub open spec fn reclaimed_entry(
    roots: Seq<RootedInner>,
    stacks: Seq<Seq<HeapPointer>>,
    c: int,
    k: int,
) -> bool {
    exists|j: int|
        0 <= j < roots.len() && sweep_dead(#[trigger] roots[j]) && class_of(
            pocket_extent(roots[j]),
        ) == c && roots[j].value == sweep_stacks(roots, stacks)[c][k] && pocket_extent(roots[j])
            == pocket_size_of(c)
}

/// Every entry of the swept stacks is an original entry or the pocket of a
/// dead descriptor of the matching class.
pub proof fn lemma_sweep_stacks_entries(roots: Seq<RootedInner>, stacks: Seq<Seq<HeapPointer>>)
    requires
        stacks.len() == NUMBER_MEMORY_POCKETS,
        forall|j: int|
            0 <= j < roots.len() && (#[trigger] roots[j]).heap is Intermediate
                ==> roots[j].pocket_ok(),
    ensures
        forall|c: int|
            0 <= c < NUMBER_MEMORY_POCKETS ==> (#[trigger] sweep_stacks(roots, stacks)[c]).len()
                >= stacks[c].len(),
        forall|c: int, k: int|
            #![trigger sweep_stacks(roots, stacks)[c][k]]
            0 <= c < NUMBER_MEMORY_POCKETS && 0 <= k < stacks[c].len() ==> sweep_stacks(
                roots,
                stacks,
            )[c][k] == stacks[c][k],
        forall|c: int, k: int|
            0 <= c < NUMBER_MEMORY_POCKETS && stacks[c].len() <= k < sweep_stacks(
                roots,
                stacks,
            )[c].len() ==> #[trigger] reclaimed_entry(roots, stacks, c, k),
    decreases roots.len(),
{
    lemma_sweep_stacks_len(roots, stacks);
    if roots.len() > 0 {
        assert forall|j: int|
            0 <= j < roots.drop_last().len() && (#[trigger] roots.drop_last()[j]).heap
                is Intermediate implies roots.drop_last()[j].pocket_ok() by {
            assert(roots.drop_last()[j] == roots[j]);
        }
        lemma_sweep_stacks_entries(roots.drop_last(), stacks);
        lemma_sweep_stacks_len(roots.drop_last(), stacks);
        let prev = sweep_stacks(roots.drop_last(), stacks);
        let d = roots.last();
        if sweep_dead(d) {
            assert(d == roots[roots.len() - 1]);
            lemma_pocket_class_valid(d);
        }
        assert forall|c: int|
            0 <= c < NUMBER_MEMORY_POCKETS implies (#[trigger] sweep_stacks(roots, stacks)[c]).len()
            >= stacks[c].len() by {
            assert(prev[c].len() >= stacks[c].len());
            if sweep_dead(d) && c == class_of(pocket_extent(d)) {
                assert(sweep_stacks(roots, stacks)[c].len() == prev[c].len() + 1);
            } else {
                assert(sweep_stacks(roots, stacks)[c] == prev[c]);
            }
        }
        assert forall|c: int, k: int|
            #![trigger sweep_stacks(roots, stacks)[c][k]]
            0 <= c < NUMBER_MEMORY_POCKETS && 0 <= k < stacks[c].len() implies sweep_stacks(
            roots,
            stacks,
        )[c][k] == stacks[c][k] by {
            if sweep_dead(d) && c == class_of(pocket_extent(d)) {
                assert(k < prev[c].len());
                assert(sweep_stacks(roots, stacks)[c][k] == prev[c][k]);
            } else {
                assert(sweep_stacks(roots, stacks)[c] == prev[c]);
            }
        }
        assert forall|c: int, k: int|
            0 <= c < NUMBER_MEMORY_POCKETS && stacks[c].len() <= k < sweep_stacks(
                roots,
                stacks,
            )[c].len() implies #[trigger] reclaimed_entry(roots, stacks, c, k) by {
            let cur = sweep_stacks(roots, stacks);
            let fresh = sweep_dead(d) && c == class_of(pocket_extent(d)) && k == prev[c].len();
            if fresh {
                assert(cur[c][k] == d.value);
                let j = roots.len() - 1;
                assert(0 <= j < roots.len() && sweep_dead(roots[j]) && class_of(
                    pocket_extent(roots[j]),
                ) == c && roots[j].value == sweep_stacks(roots, stacks)[c][k] && pocket_extent(
                    roots[j],
                ) == pocket_size_of(c));
            } else {
                assert(cur[c][k] == prev[c][k]);
                assert(k < prev[c].len());
                assert(reclaimed_entry(roots.drop_last(), stacks, c, k));
                let j = choose|j: int|
                    0 <= j < roots.drop_last().len() && sweep_dead(
                        #[trigger] roots.drop_last()[j],
                    ) && class_of(pocket_extent(roots.drop_last()[j])) == c && roots.drop_last(
                    )[j].value == sweep_stacks(roots.drop_last(), stacks)[c][k] && pocket_extent(
                        roots.drop_last()[j],
                    ) == pocket_size_of(c);
                assert(roots[j] == roots.drop_last()[j]);
                assert(0 <= j < roots.len() && sweep_dead(roots[j]) && class_of(
                    pocket_extent(roots[j]),
                ) == c && roots[j].value == sweep_stacks(roots, stacks)[c][k] && pocket_extent(
                    roots[j],
                ) == pocket_size_of(c));
            }
        }
    }
}

/// A sweep moves bytes of accounting from the registry's side to the stacks'
/// side; the total is unchanged.
pub proof fn lemma_sweep_sum_invariant(roots: Seq<RootedInner>, stacks: Seq<Seq<HeapPointer>>)
    requires
        stacks.len() == NUMBER_MEMORY_POCKETS,
        forall|j: int|
            0 <= j < roots.len() && (#[trigger] roots[j]).heap is Intermediate
                ==> roots[j].pocket_ok(),
    ensures
        roots_pocket_sum(sweep_keep(roots)) + stack_sum(sweep_stacks(roots, stacks))
            == roots_pocket_sum(roots) + stack_sum(stacks),
    decreases roots.len(),
{
    if roots.len() > 0 {
        assert forall|j: int|
            0 <= j < roots.drop_last().len() && (#[trigger] roots.drop_last()[j]).heap
                is Intermediate implies roots.drop_last()[j].pocket_ok() by {
            assert(roots.drop_last()[j] == roots[j]);
        }
        lemma_sweep_sum_invariant(roots.drop_last(), stacks);
        lemma_sweep_stacks_len(roots.drop_last(), stacks);
        let d = roots.last();
        let prev = sweep_stacks(roots.drop_last(), stacks);
        if sweep_dead(d) {
            let ci = class_of(pocket_extent(d));
            assert(d.pocket_ok());
            crate::free_list::lemma_stack_sum_update(
                prev,
                ci,
                prev[ci].push(d.value),
                NUMBER_MEMORY_POCKETS as int,
            );
            assert((prev[ci].push(d.value).len() - prev[ci].len()) * pocket_size_of(ci)
                == pocket_size_of(ci)) by (nonlinear_arith)
                requires
                    prev[ci].push(d.value).len() == prev[ci].len() + 1,
            ;
        } else {
            assert(sweep_keep(roots).drop_last() =~= sweep_keep(roots.drop_last()));
        }
    }
}

/// A sweep leaves the old region well formed.
pub proof fn lemma_sweep_model_wf(m: OldModel)
    requires
        model_wf(m),
    ensures
        model_wf(sweep_model(m)),
    decreases m.roots.len(),
{
    let s = sweep_model(m);
    lemma_sweep_stacks_len(m.roots, m.stacks);
    lemma_sweep_sum_invariant(m.roots, m.stacks);
    lemma_sweep_stacks_entries(m.roots, m.stacks);
    // the kept descriptors and the new stack entries all come from the old
    // state, so bounds and disjointness transfer
    assert forall|i: int|
        0 <= i < s.roots.len() && (#[trigger] s.roots[i]).heap is Intermediate implies s.roots[
    i].pocket_ok() && s.start <= s.roots[i].value.0 && s.roots[i].value.0 + pocket_extent(
        s.roots[i],
    ) <= s.current by {
        lemma_sweep_keep_index(m.roots, i);
        let j = choose|j: int| 0 <= j < m.roots.len() && sweep_keep(m.roots)[i] == m.roots[j];
        assert(live_in_bounds(m.roots, m.start, m.current));
        assert(m.roots[j].heap is Intermediate ==> m.roots[j].pocket_ok());
    }
    assert forall|i: int, j: int|
        #![trigger s.roots[i], s.roots[j]]
        0 <= i < j < s.roots.len() && s.roots[i].heap is Intermediate && s.roots[j].heap
            is Intermediate implies ranges_disjoint(
        s.roots[i].value.0 as int,
        pocket_extent(s.roots[i]),
        s.roots[j].value.0 as int,
        pocket_extent(s.roots[j]),
    ) by {
        lemma_sweep_keep_pair(m.roots, i, j);
        let (j1, j2) = choose|j1: int, j2: int|
            0 <= j1 < j2 < m.roots.len() && sweep_keep(m.roots)[i] == m.roots[j1] && sweep_keep(
                m.roots,
            )[j] == m.roots[j2];
        assert(live_disjoint(m.roots));
        assert(ranges_disjoint(
            m.roots[j1].value.0 as int,
            pocket_extent(m.roots[j1]),
            m.roots[j2].value.0 as int,
            pocket_extent(m.roots[j2]),
        ));
    }
    assert forall|c: int, k: int|
        0 <= c < NUMBER_MEMORY_POCKETS && 0 <= k < s.stacks[c].len() implies s.start <= (
    #[trigger] s.stacks[c][k]).0 && s.stacks[c][k].0 + pocket_size_of(c) <= s.current by {
        if k < m.stacks[c].len() {
            assert(s.stacks[c][k] == m.stacks[c][k]);
            assert(stacks_ok(m.stacks, m.start, m.current));
        } else {
            assert(reclaimed_entry(m.roots, m.stacks, c, k));
            let j = choose|j: int|
                0 <= j < m.roots.len() && sweep_dead(#[trigger] m.roots[j]) && class_of(
                    pocket_extent(m.roots[j]),
                ) == c && m.roots[j].value == sweep_stacks(m.roots, m.stacks)[c][k]
                    && pocket_extent(m.roots[j]) == pocket_size_of(c);
            assert(live_in_bounds(m.roots, m.start, m.current));
            assert(m.roots[j].heap is Intermediate);
        }
    }
    assert forall|c1: int, k1: int, c2: int, k2: int|
        #![trigger s.stacks[c1][k1], s.stacks[c2][k2]]
        0 <= c1 < NUMBER_MEMORY_POCKETS && 0 <= k1 < s.stacks[c1].len() && 0 <= c2
            < NUMBER_MEMORY_POCKETS && 0 <= k2 < s.stacks[c2].len() && (c1 != c2 || k1
            != k2) implies ranges_disjoint(
        s.stacks[c1][k1].0 as int,
        pocket_size_of(c1),
        s.stacks[c2][k2].0 as int,
        pocket_size_of(c2),
    ) by {
        lemma_sweep_entry_disjoint(m, c1, k1, c2, k2);
    }
    assert forall|i: int, c: int, k: int|
        #![trigger s.roots[i], s.stacks[c][k]]
        0 <= i < s.roots.len() && s.roots[i].heap is Intermediate && 0 <= c < NUMBER_MEMORY_POCKETS
            && 0 <= k < s.stacks[c].len() implies ranges_disjoint(
        s.roots[i].value.0 as int,
        pocket_extent(s.roots[i]),
        s.stacks[c][k].0 as int,
        pocket_size_of(c),
    ) by {
        lemma_sweep_keep_index(m.roots, i);
        let j = choose|j: int| 0 <= j < m.roots.len() && sweep_keep(m.roots)[i] == m.roots[j];
        lemma_sweep_keep_no_dead(m.roots);
        if k < m.stacks[c].len() {
            assert(s.stacks[c][k] == m.stacks[c][k]);
            assert(live_stack_disjoint(m.roots, m.stacks));
            assert(ranges_disjoint(
                m.roots[j].value.0 as int,
                pocket_extent(m.roots[j]),
                m.stacks[c][k].0 as int,
                pocket_size_of(c),
            ));
        } else {
            assert(reclaimed_entry(m.roots, m.stacks, c, k));
            let j2 = choose|j2: int|
                0 <= j2 < m.roots.len() && sweep_dead(#[trigger] m.roots[j2]) && class_of(
                    pocket_extent(m.roots[j2]),
                ) == c && m.roots[j2].value == sweep_stacks(m.roots, m.stacks)[c][k]
                    && pocket_extent(m.roots[j2]) == pocket_size_of(c);
            assert(m.roots[j2].value == s.stacks[c][k]);
            // the kept descriptor is not dead, so it is a different registry
            // entry than the reclaimed one
            assert(j != j2);
            assert(live_disjoint(m.roots));
            if j < j2 {
                assert(ranges_disjoint(
                    m.roots[j].value.0 as int,
                    pocket_extent(m.roots[j]),
                    m.roots[j2].value.0 as int,
                    pocket_extent(m.roots[j2]),
                ));
            } else {
                assert(ranges_disjoint(
                    m.roots[j2].value.0 as int,
                    pocket_extent(m.roots[j2]),
                    m.roots[j].value.0 as int,
                    pocket_extent(m.roots[j]),
                ));
            }
        }
    }
}

/// Two distinct entries of the swept stacks never overlap.
proof fn lemma_sweep_entry_disjoint(m: OldModel, c1: int, k1: int, c2: int, k2: int)
    requires
        model_wf(m),
        0 <= c1 < NUMBER_MEMORY_POCKETS,
        0 <= c2 < NUMBER_MEMORY_POCKETS,
        0 <= k1 < sweep_stacks(m.roots, m.stacks)[c1].len(),
        0 <= k2 < sweep_stacks(m.roots, m.stacks)[c2].len(),
        c1 != c2 || k1 != k2,
    ensures
        ranges_disjoint(
            sweep_stacks(m.roots, m.stacks)[c1][k1].0 as int,
            pocket_size_of(c1),
            sweep_stacks(m.roots, m.stacks)[c2][k2].0 as int,
            pocket_size_of(c2),
        ),
    decreases m.roots.len(),
{
    let st = sweep_stacks(m.roots, m.stacks);
    lemma_sweep_stacks_len(m.roots, m.stacks);
    if m.roots.len() == 0 {
        assert(st == m.stacks);
        assert(stacks_ok(m.stacks, m.start, m.current));
    } else {
        let d = m.roots.last();
        let m_pre = OldModel { roots: m.roots.drop_last(), ..m };
        assert(model_wf(m_pre)) by {
            lemma_roots_sum_nonneg(m_pre.roots);
            assert(roots_pocket_sum(m.roots) == roots_pocket_sum(m_pre.roots) + pocket_extent(d));
            assert(pocket_extent(d) >= 0);
        }
        let prev = sweep_stacks(m_pre.roots, m.stacks);
        lemma_sweep_stacks_len(m_pre.roots, m.stacks);
        if sweep_dead(d) {
            let ci = class_of(pocket_extent(d));
            assert(d.pocket_ok());
            let fresh1 = c1 == ci && k1 == prev[ci].len();
            let fresh2 = c2 == ci && k2 == prev[ci].len();
            if fresh1 && fresh2 {
                assert(false);
            } else if fresh1 {
                assert(st[c1][k1] == d.value);
                assert(st[c2][k2] == prev[c2][k2]);
                lemma_sweep_dead_pocket_free(m_pre, m.stacks, d, c2, k2, m.roots.len() - 1, m);
            } else if fresh2 {
                assert(st[c2][k2] == d.value);
                assert(st[c1][k1] == prev[c1][k1]);
                lemma_sweep_dead_pocket_free(m_pre, m.stacks, d, c1, k1, m.roots.len() - 1, m);
            } else {
                assert(st[c1][k1] == prev[c1][k1]);
                assert(st[c2][k2] == prev[c2][k2]);
                lemma_sweep_entry_disjoint(m_pre, c1, k1, c2, k2);
            }
        } else {
            assert(st[c1][k1] == prev[c1][k1]);
            assert(st[c2][k2] == prev[c2][k2]);
            lemma_sweep_entry_disjoint(m_pre, c1, k1, c2, k2);
        }
    }
}

/// The pocket of the dead descriptor at index `p` of the full registry
/// overlaps no entry of the stacks swept from the shorter registry.
proof fn lemma_sweep_dead_pocket_free(
    m_pre: OldModel,
    stacks: Seq<Seq<HeapPointer>>,
    d: RootedInner,
    c: int,
    k: int,
    p: int,
    m: OldModel,
)
    requires
        model_wf(m),
        m_pre.roots == m.roots.drop_last(),
        m_pre.stacks == m.stacks,
        stacks == m.stacks,
        0 <= p == m.roots.len() - 1,
        d == m.roots[p],
        sweep_dead(d),
        0 <= c < NUMBER_MEMORY_POCKETS,
        0 <= k < sweep_stacks(m_pre.roots, stacks)[c].len(),
    ensures
        ranges_disjoint(
            d.value.0 as int,
            pocket_extent(d),
            sweep_stacks(m_pre.roots, stacks)[c][k].0 as int,
            pocket_size_of(c),
        ),
{
    assert forall|j: int|
        0 <= j < m_pre.roots.len() && (#[trigger] m_pre.roots[j]).heap
            is Intermediate implies m_pre.roots[j].pocket_ok() by {
        assert(m_pre.roots[j] == m.roots[j]);
        assert(live_in_bounds(m.roots, m.start, m.current));
    }
    lemma_sweep_stacks_entries(m_pre.roots, stacks);
    lemma_sweep_stacks_len(m_pre.roots, stacks);
    let e = sweep_stacks(m_pre.roots, stacks)[c][k];
    if k < stacks[c].len() {
        assert(e == m.stacks[c][k]);
        assert(live_stack_disjoint(m.roots, m.stacks));
        assert(ranges_disjoint(
            m.roots[p].value.0 as int,
            pocket_extent(m.roots[p]),
            m.stacks[c][k].0 as int,
            pocket_size_of(c),
        ));
    } else {
        assert(reclaimed_entry(m_pre.roots, stacks, c, k));
        let j = choose|j: int|
            0 <= j < m_pre.roots.len() && sweep_dead(#[trigger] m_pre.roots[j]) && class_of(
                pocket_extent(m_pre.roots[j]),
            ) == c && m_pre.roots[j].value == sweep_stacks(m_pre.roots, stacks)[c][k]
                && pocket_extent(m_pre.roots[j]) == pocket_size_of(c);
        assert(m.roots[j] == m_pre.roots[j]);
        assert(m_pre.roots[j].value == e);
        assert(live_disjoint(m.roots));
        assert(ranges_disjoint(
            m.roots[j].value.0 as int,
            pocket_extent(m.roots[j]),
            m.roots[p].value.0 as int,
            pocket_extent(m.roots[p]),
        ));
    }
}

/// Descriptor `b` is descriptor `a` after a collection may have moved its
/// object: identity, rootedness, color, size and region are unchanged, and an
/// Eden descriptor is untouched entirely.
pub open spec fn migrated(a: RootedInner, b: RootedInner) -> bool {
    &&& b.id == a.id
    &&& b.rooted == a.rooted
    &&& b.color == a.color
    &&& b.size == a.size
    &&& b.heap == a.heap
    &&& (a.heap is Eden ==> b == a)
}

/// Descriptor `k` of the collected state is descriptor `j` of the old state,
/// moved at most within the old region, with its payload intact.
pub open spec fn migrated_pair(m: OldModel, m2: OldModel, j: int, k: int) -> bool {
    &&& 0 <= j < m.roots.len()
    &&& 0 <= k < m2.roots.len()
    &&& migrated(m.roots[j], m2.roots[k])
    &&& (m.roots[j].heap is Intermediate ==> payload_in(m2.region, m.start, m2.roots[k])
        == payload_in(m.region, m.start, m.roots[j]))
}

/// Some old descriptor migrated into position `k` of the collected registry.
pub open spec fn some_origin(m: OldModel, k: int) -> bool {
    exists|j: int| #[trigger] migrated_pair(m, collect_model(m), j, k)
}

/// The origins of two collected positions stood in the same order.
pub open spec fn ordered_origins(m: OldModel, k1: int, k2: int) -> bool {
    exists|j1: int, j2: int|
        #![trigger migrated_pair(m, collect_model(m), j1, k1), migrated_pair(m, collect_model(m), j2, k2)]
        j1 < j2 && migrated_pair(m, collect_model(m), j1, k1) && migrated_pair(
            m,
            collect_model(m),
            j2,
            k2,
        )
}

/// Old descriptor `j` migrated to some position of the collected registry.
pub open spec fn some_target(m: OldModel, j: int) -> bool {
    exists|k: int| #[trigger] migrated_pair(m, collect_model(m), j, k)
}

/// Every descriptor of a collected state is a migrated old descriptor; the
/// mapping keeps the registry's order; and every descriptor the sweep may not
/// remove is still there.
pub proof fn lemma_collect_correspondence(m: OldModel)
    requires
        model_wf(m),
    ensures
        forall|k: int|
            0 <= k < collect_model(m).roots.len() ==> #[trigger] some_origin(m, k),
        forall|k1: int, k2: int|
            0 <= k1 < k2 < collect_model(m).roots.len() ==> #[trigger] ordered_origins(m, k1, k2),
        forall|j: int|
            0 <= j < m.roots.len() && !sweep_dead(m.roots[j]) ==> #[trigger] some_target(m, j),
{
    reveal(collect_model);
    let s = sweep_model(m);
    let m2 = collect_model(m);
    let keep = sweep_keep(m.roots);
    lemma_sweep_model_wf(m);
    if should_compact(s) {
        lemma_compact_model_wf(s);
    }
    // relate the collected registry index-for-index to the swept one
    assert(m2.roots.len() == keep.len());
    assert forall|k: int|
        #![trigger m2.roots[k]]
        0 <= k < m2.roots.len() implies migrated(keep[k], m2.roots[k]) && (keep[k].heap
        is Intermediate ==> payload_in(m2.region, m.start, m2.roots[k]) == payload_in(
        m.region,
        m.start,
        keep[k],
    )) by {
        if should_compact(s) {
            assert(m2.roots[k] == compact_roots(s.roots, s.start)[k]);
            assert(s.roots[k] == keep[k]);
            if keep[k].heap is Intermediate {
                assert(payload_in(compact_model(s).region, s.start, compact_model(s).roots[k])
                    == payload_in(s.region, s.start, s.roots[k]));
            }
        } else {
            assert(m2.roots[k] == keep[k]);
        }
    }
    assert forall|k: int| 0 <= k < collect_model(m).roots.len() implies #[trigger] some_origin(
        m,
        k,
    ) by {
        lemma_sweep_keep_index(m.roots, k);
        let j = choose|j: int| 0 <= j < m.roots.len() && keep[k] == m.roots[j];
        assert(migrated(keep[k], m2.roots[k]));
        assert(migrated_pair(m, collect_model(m), j, k));
    }
    assert forall|k1: int, k2: int|
        0 <= k1 < k2 < collect_model(m).roots.len() implies #[trigger] ordered_origins(
        m,
        k1,
        k2,
    ) by {
        lemma_sweep_keep_pair(m.roots, k1, k2);
        let (j1, j2) = choose|j1: int, j2: int|
            0 <= j1 < j2 < m.roots.len() && keep[k1] == m.roots[j1] && keep[k2] == m.roots[j2];
        assert(migrated(keep[k1], m2.roots[k1]) && migrated(keep[k2], m2.roots[k2]));
        assert(migrated_pair(m, collect_model(m), j1, k1) && migrated_pair(
            m,
            collect_model(m),
            j2,
            k2,
        ));
    }
    assert forall|j: int|
        0 <= j < m.roots.len() && !sweep_dead(m.roots[j]) implies #[trigger] some_target(
        m,
        j,
    ) by {
        lemma_sweep_keep_survivor(m.roots, j);
        let k = choose|k: int| 0 <= k < keep.len() && #[trigger] keep[k] == m.roots[j];
        assert(migrated(keep[k], m2.roots[k]));
        assert(migrated_pair(m, collect_model(m), j, k));
    }
}

/// A collection never changes which region holds a descriptor's object.
pub proof fn lemma_collect_count(m: OldModel)
    ensures
        collect_model(m).roots.len() == sweep_keep(m.roots).len(),
        forall|k: int|
            0 <= k < collect_model(m).roots.len() ==> ((#[trigger] collect_model(m).roots[k]).heap
                is Eden <==> (#[trigger] sweep_keep(m.roots)[k]).heap is Eden),
{
    reveal(collect_model);
    let s = sweep_model(m);
    if should_compact(s) {
        assert forall|k: int| 0 <= k < collect_model(m).roots.len() implies ((
        #[trigger] collect_model(m).roots[k]).heap is Eden <==> (#[trigger] sweep_keep(m.roots)[k]).heap
            is Eden) by {
            assert(collect_model(m).roots[k] == compact_roots(s.roots, s.start)[k]);
        }
    }
}

/// Compaction keeps the old region well formed, and every survivor's payload
/// reads back unchanged from its packed position.
pub proof fn lemma_compact_model_wf(m: OldModel)
    requires
        model_wf(m),
    ensures
        model_wf(compact_model(m)),
        forall|k: int|
            0 <= k < m.roots.len() && (#[trigger] m.roots[k]).heap is Intermediate ==> payload_in(
                compact_model(m).region,
                m.start,
                compact_model(m).roots[k],
            ) == payload_in(m.region, m.start, m.roots[k]),
{
    let m2 = compact_model(m);
    let n = m.roots.len() as int;
    crate::free_list::lemma_stack_sum_nonneg(m.stacks, NUMBER_MEMORY_POCKETS as int);
    lemma_roots_sum_nonneg(m.roots);
    lemma_compact_region_len(m.region, m.roots, m.start, n);
    lemma_prefix_sum_whole(m.roots);
    assert(prefix_pocket_sum(m.roots, 0) == 0) by {
        assert(m.roots.take(0) =~= Seq::<RootedInner>::empty());
    }
    lemma_roots_sum_pointwise(m2.roots, m.roots);
    assert forall|i: int|
        0 <= i < m2.roots.len() && (#[trigger] m2.roots[i]).heap is Intermediate implies m2.roots[
    i].pocket_ok() && m2.start <= m2.roots[i].value.0 && m2.roots[i].value.0 + pocket_extent(
        m2.roots[i],
    ) <= m2.current by {
        lemma_prefix_sum_step(m.roots, i);
        lemma_prefix_sum_monotone(m.roots, i + 1, n);
        lemma_prefix_sum_monotone(m.roots, 0, i);
    }
    assert forall|i: int, j: int|
        #![trigger m2.roots[i], m2.roots[j]]
        0 <= i < j < m2.roots.len() && m2.roots[i].heap is Intermediate && m2.roots[j].heap
            is Intermediate implies ranges_disjoint(
        m2.roots[i].value.0 as int,
        pocket_extent(m2.roots[i]),
        m2.roots[j].value.0 as int,
        pocket_extent(m2.roots[j]),
    ) by {
        lemma_prefix_sum_step(m.roots, i);
        lemma_prefix_sum_monotone(m.roots, i + 1, j);
        lemma_prefix_sum_monotone(m.roots, 0, i);
        lemma_prefix_sum_monotone(m.roots, j, n);
        lemma_prefix_sum_step(m.roots, j);
        lemma_prefix_sum_monotone(m.roots, j + 1, n);
    }
    crate::free_list::lemma_stack_sum_all_empty(m2.stacks, NUMBER_MEMORY_POCKETS as int);
    assert(model_wf(m2));
    lemma_compact_region_payloads(m.region, m.roots, m.start, n);
    assert forall|k: int|
        0 <= k < m.roots.len() && (#[trigger] m.roots[k]).heap is Intermediate implies payload_in(
        m2.region,
        m.start,
        m2.roots[k],
    ) == payload_in(m.region, m.start, m.roots[k]) by {
        lemma_prefix_sum_monotone(m.roots, 0, k);
        lemma_prefix_sum_monotone(m.roots, k, n);
        assert(m2.roots[k].value.0 == m.start + prefix_pocket_sum(m.roots, k));
        assert(m2.roots[k].size == m.roots[k].size);
    }
}

/// Splicing a range of a byte image back onto itself changes nothing.
proof fn lemma_spliced_identity(data: Seq<u8>, off: int, len: int)
    requires
        0 <= off,
        0 <= len,
        off + len <= data.len(),
    ensures
        spliced(data, off, data.subrange(off, off + len)) == data,
{
    reveal(crate::memory::spliced);
    assert(spliced(data, off, data.subrange(off, off + len)) =~= data);
}

/// Sweeping a registry with nothing dead removes nothing and reclaims
/// nothing.
proof fn lemma_sweep_clean(roots: Seq<RootedInner>, stacks: Seq<Seq<HeapPointer>>)
    requires
        forall|k: int| 0 <= k < roots.len() ==> !sweep_dead(#[trigger] roots[k]),
    ensures
        sweep_keep(roots) == roots,
        sweep_stacks(roots, stacks) == stacks,
    decreases roots.len(),
{
    if roots.len() > 0 {
        assert forall|k: int| 0 <= k < roots.drop_last().len() implies !sweep_dead(
            #[trigger] roots.drop_last()[k],
        ) by {
            assert(roots.drop_last()[k] == roots[k]);
        }
        lemma_sweep_clean(roots.drop_last(), stacks);
        assert(!sweep_dead(roots[roots.len() - 1]));
        assert(sweep_keep(roots) =~= roots);
    }
}

/// Relocating the survivors of an already packed region copies every payload
/// onto itself, so the region's bytes do not change.
proof fn lemma_compact_region_fixpoint(
    region: Seq<u8>,
    roots: Seq<RootedInner>,
    start: int,
    n: int,
)
    requires
        0 <= n <= roots.len(),
        forall|k: int|
            0 <= k < roots.len() && (#[trigger] roots[k]).heap is Intermediate ==> roots[k].value.0
                == start + prefix_pocket_sum(roots, k) && 0 <= prefix_pocket_sum(roots, k)
                && prefix_pocket_sum(roots, k) + roots[k].size <= region.len(),
    ensures
        compact_region_rec(region, roots, start, n) == region,
    decreases n,
{
    if n > 0 {
        lemma_compact_region_fixpoint(region, roots, start, n - 1);
        if roots[n - 1].heap is Intermediate {
            let w = prefix_pocket_sum(roots, n - 1);
            assert(payload_in(region, start, roots[n - 1]) == region.subrange(
                w,
                w + roots[n - 1].size,
            ));
            lemma_spliced_identity(region, w, roots[n - 1].size as int);
        }
    }
}

/// A second major cycle changes nothing: collecting a collected state gives
/// it back unchanged. No descriptor is removed, promoted or moved by the
/// second pass, and the stacks, the frontier and the region's bytes stay as
/// the first pass left them.
pub proof fn lemma_collect_idempotent(m: OldModel)
    requires
        model_wf(m),
    ensures
        collect_model(collect_model(m)) == collect_model(m),
{
    reveal(collect_model);
    let s = sweep_model(m);
    lemma_sweep_model_wf(m);
    lemma_sweep_keep_no_dead(m.roots);
    if should_compact(s) {
        let c = compact_model(s);
        lemma_compact_model_wf(s);
        let n = c.roots.len() as int;
        assert forall|k: int| 0 <= k < c.roots.len() implies !sweep_dead(
            #[trigger] c.roots[k],
        ) by {
            assert(c.roots[k] == compact_roots(s.roots, s.start)[k]);
            assert(!sweep_dead(s.roots[k]));
        }
        lemma_sweep_clean(c.roots, c.stacks);
        assert(sweep_model(c) == c);
        if should_compact(c) {
            // the registry is already packed against the region's low end,
            // so a second relocation is the identity
            assert forall|k: int|
                0 <= k <= n implies prefix_pocket_sum(c.roots, k) == prefix_pocket_sum(
                s.roots,
                k,
            ) by {
                assert forall|j: int|
                    0 <= j < c.roots.take(k).len() implies pocket_extent(
                    #[trigger] c.roots.take(k)[j],
                ) == pocket_extent(s.roots.take(k)[j]) by {
                    assert(c.roots.take(k)[j] == c.roots[j]);
                    assert(s.roots.take(k)[j] == s.roots[j]);
                    assert(c.roots[j] == compact_roots(s.roots, s.start)[j]);
                }
                lemma_roots_sum_pointwise(c.roots.take(k), s.roots.take(k));
            }
            lemma_prefix_sum_whole(c.roots);
            lemma_prefix_sum_whole(s.roots);
            assert forall|k: int|
                0 <= k < n && (#[trigger] c.roots[k]).heap is Intermediate implies c.roots[
            k].value.0 == c.start + prefix_pocket_sum(c.roots, k) && 0 <= prefix_pocket_sum(
                c.roots,
                k,
            ) && prefix_pocket_sum(c.roots, k) + c.roots[k].size <= c.region.len() by {
                assert(c.roots[k] == compact_roots(s.roots, s.start)[k]);
                lemma_prefix_sum_monotone(s.roots, 0, k);
                lemma_prefix_sum_monotone(s.roots, k, n);
                lemma_prefix_sum_step(s.roots, k);
                lemma_prefix_sum_monotone(s.roots, k + 1, n);
                assert(live_in_bounds(c.roots, c.start, c.current));
                assert(c.roots[k].size <= pocket_extent(c.roots[k]));
            }
            assert(compact_roots(c.roots, c.start) =~= c.roots);
            lemma_compact_region_fixpoint(c.region, c.roots, c.start, n);
            assert(compact_region_rec(c.region, c.roots, c.start, n) == c.region);
            assert(roots_pocket_sum(c.roots) == roots_pocket_sum(s.roots)) by {
                assert(c.roots.take(n) =~= c.roots);
                assert(s.roots.take(n) =~= s.roots);
            }
            assert(c.current == c.start + roots_pocket_sum(c.roots));
            assert(c.stacks == empty_stacks());
            assert(compact_model(c) == c);
        }
        assert(collect_model(c) == c);
    } else {
        lemma_sweep_clean(s.roots, s.stacks);
        assert(sweep_model(s) == s);
        assert(collect_model(s) == s);
    }
}

/// A vector of six empty recycled stacks.
fn empty_pockets() -> (r: Vec<Vec<HeapPointer>>)
    ensures
        r@.len() == NUMBER_MEMORY_POCKETS,
        forall|c: int| 0 <= c < NUMBER_MEMORY_POCKETS ==> (#[trigger] r@[c])@.len() == 0,
{
    let mut r: Vec<Vec<HeapPointer>> = Vec::new();
    r.push(Vec::new());
    r.push(Vec::new());
    r.push(Vec::new());
    r.push(Vec::new());
    r.push(Vec::new());
    r.push(Vec::new());
    r
}

} // verus!
