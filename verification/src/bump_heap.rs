//! The young heap and top-level collector. All allocations are born in the
//! bump-allocated Eden region; a scavenge promotes the survivors into the old
//! region and resets Eden; a major cycle sweeps and compacts the old region.
//! Client handles name pinned descriptors and stay valid across both cycles.

use vstd::prelude::*;
use vstd::pervasive::VecAdditionalExecFns;

use crate::free_list::FreeList;
use crate::memory::alloc_zeroed;
use crate::memory::read_bytes;
use crate::memory::spliced;
use crate::memory::write_bytes;
use crate::memory::AllocId;
use crate::memory::HeapPointer;
use crate::rooted::Color;
use crate::rooted::ContainingHeap;
use crate::rooted::HeapValue;
use crate::rooted::Rooted;
use crate::rooted::RootedInner;
use crate::sweep_heap::collect_model;
use crate::sweep_heap::live_in_bounds;
use crate::sweep_heap::model_wf;
use crate::sweep_heap::payload_in;
use crate::sweep_heap::pocket_extent;
use crate::sweep_heap::sweep_dead;
use crate::sweep_heap::SweepHeap;

verus! {

/// The ways an operation on the heap can fail.
#[derive(Debug, Copy, Clone, PartialEq, Eq, Structural)]
pub enum HeapError {
    /// A single allocation exceeds what the young region can ever hold.
    TooLarge,
    /// The old region cannot take a promotion even after a major cycle.
    OldOutOfSpace,
    /// A typed read asked for a size other than the stored payload's.
    SizeMisalign,
    /// An operation named a descriptor the registry does not hold.
    NoAllocationFound,
}

/// Construction parameters: the byte sizes of the young and old regions.
#[derive(Debug, Copy, Clone, PartialEq, Eq, Structural)]
pub struct BumpOptions {
    pub young_heap_size: usize,
    pub old_heap_size: usize,
}

impl BumpOptions {
    pub fn new(young_heap_size: usize, old_heap_size: usize) -> (r: Self)
        ensures
            r.young_heap_size == young_heap_size,
            r.old_heap_size == old_heap_size,
    {
        BumpOptions { young_heap_size, old_heap_size }
    }
}

impl Default for BumpOptions {
    /// A 4 KiB young region over a 2 KiB old region.
    fn default() -> (r: Self)
        ensures
            r.young_heap_size == 4096,
            r.old_heap_size == 2048,
    {
        BumpOptions { young_heap_size: 1024 * 4, old_heap_size: 1024 * 2 }
    }
}

/// No two descriptors share an id, and every id is positive and below the
/// next id to be handed out.
pub open spec fn ids_ok(roots: Seq<RootedInner>, next: int) -> bool {
    &&& forall|i: int, j: int|
        #![trigger roots[i].id, roots[j].id]
        0 <= i < j < roots.len() ==> roots[i].id.0 != roots[j].id.0
    &&& forall|i: int| 0 <= i < roots.len() ==> 1 <= (#[trigger] roots[i]).id.0 < next
}

/// Every Eden descriptor's payload lies inside the allocated part of Eden.
pub open spec fn eden_roots_ok(roots: Seq<RootedInner>, ystart: int, ycur: int) -> bool {
    forall|i: int|
        0 <= i < roots.len() && (#[trigger] roots[i]).heap is Eden ==> ystart <= roots[i].value.0
            && roots[i].value.0 + roots[i].size <= ycur
}

/// The registry holds a descriptor with this id.
pub open spec fn has_id(roots: Seq<RootedInner>, id: AllocId) -> bool {
    exists|k: int| 0 <= k < roots.len() && (#[trigger] roots[k]).id == id
}

/// How many descriptors still sit in Eden.
pub open spec fn count_eden(roots: Seq<RootedInner>) -> int
    decreases roots.len(),
{
    if roots.len() == 0 {
        0
    } else {
        count_eden(roots.drop_last()) + if roots.last().heap is Eden {
            1int
        } else {
            0int
        }
    }
}

pub proof fn lemma_count_eden_nonneg(roots: Seq<RootedInner>)
    ensures
        count_eden(roots) >= 0,
    decreases roots.len(),
{
    if roots.len() > 0 {
        lemma_count_eden_nonneg(roots.drop_last());
    }
}

/// Two registries that agree on which descriptors sit in Eden hold equally
/// many.
pub proof fn lemma_count_eden_pointwise(a: Seq<RootedInner>, b: Seq<RootedInner>)
    requires
        a.len() == b.len(),
        forall|k: int|
            0 <= k < a.len() ==> ((#[trigger] a[k]).heap is Eden <==> (#[trigger] b[k]).heap
                is Eden),
    ensures
        count_eden(a) == count_eden(b),
    decreases a.len(),
{
    if a.len() > 0 {
        lemma_count_eden_pointwise(a.drop_last(), b.drop_last());
    }
}

/// A sweep removes no Eden descriptor.
pub proof fn lemma_count_eden_sweep(roots: Seq<RootedInner>)
    ensures
        count_eden(crate::sweep_heap::sweep_keep(roots)) == count_eden(roots),
    decreases roots.len(),
{
    if roots.len() > 0 {
        lemma_count_eden_sweep(roots.drop_last());
        let prev = crate::sweep_heap::sweep_keep(roots.drop_last());
        let cur = crate::sweep_heap::sweep_keep(roots);
        if !sweep_dead(roots.last()) {
            assert(cur == prev.push(roots.last()));
            assert(cur.drop_last() =~= prev);
            assert(cur.last() == roots.last());
        } else {
            assert(!(roots.last().heap is Eden));
        }
    }
}

/// Promoting the descriptor at index `p` out of Eden lowers the count by one.
pub proof fn lemma_count_eden_update(a: Seq<RootedInner>, p: int, d: RootedInner)
    requires
        0 <= p < a.len(),
        a[p].heap is Eden,
        !(d.heap is Eden),
    ensures
        count_eden(a.update(p, d)) == count_eden(a) - 1,
    decreases a.len(),
{
    if p == a.len() - 1 {
        assert(a.update(p, d).drop_last() =~= a.drop_last());
    } else {
        lemma_count_eden_update(a.drop_last(), p, d);
        assert(a.update(p, d).drop_last() =~= a.drop_last().update(p, d));
    }
}

/// A registry with no Eden descriptor holds no Eden descriptor to count.
pub proof fn lemma_count_eden_zero(roots: Seq<RootedInner>)
    requires
        forall|k: int| 0 <= k < roots.len() ==> !((#[trigger] roots[k]).heap is Eden),
    ensures
        count_eden(roots) == 0,
    decreases roots.len(),
{
    if roots.len() > 0 {
        lemma_count_eden_zero(roots.drop_last());
    }
}

/// A registry holding an Eden descriptor counts at least one.
pub proof fn lemma_count_eden_pos(roots: Seq<RootedInner>, j: int)
    requires
        0 <= j < roots.len(),
        roots[j].heap is Eden,
    ensures
        count_eden(roots) >= 1,
    decreases roots.len(),
{
    lemma_count_eden_nonneg(roots.drop_last());
    if j < roots.len() - 1 {
        lemma_count_eden_pos(roots.drop_last(), j);
    }
}

/// A descriptor the scavenge drops before promoting: it sits in Eden and no
/// client handle roots it.
pub open spec fn eden_dead(d: RootedInner) -> bool {
    d.heap is Eden && !d.rooted
}

/// The registry after the scavenge's first pass: unrooted Eden descriptors
/// removed, everything else kept in order.
pub open spec fn eden_keep(roots: Seq<RootedInner>) -> Seq<RootedInner>
    decreases roots.len(),
{
    if roots.len() == 0 {
        Seq::empty()
    } else if eden_dead(roots.last()) {
        eden_keep(roots.drop_last())
    } else {
        eden_keep(roots.drop_last()).push(roots.last())
    }
}

pub proof fn lemma_eden_keep_no_dead(roots: Seq<RootedInner>)
    ensures
        forall|k: int|
            0 <= k < eden_keep(roots).len() ==> !eden_dead(#[trigger] eden_keep(roots)[k]),
    decreases roots.len(),
{
    if roots.len() > 0 {
        lemma_eden_keep_no_dead(roots.drop_last());
        let prev = eden_keep(roots.drop_last());
        assert forall|k: int|
            0 <= k < eden_keep(roots).len() implies !eden_dead(#[trigger] eden_keep(roots)[k]) by {
            if !eden_dead(roots.last()) {
                if k < prev.len() {
                    assert(eden_keep(roots)[k] == prev[k]);
                } else {
                    assert(eden_keep(roots)[k] == roots.last());
                }
            } else {
                assert(eden_keep(roots)[k] == prev[k]);
            }
        }
    }
}

pub proof fn lemma_eden_keep_index(roots: Seq<RootedInner>, k: int)
    requires
        0 <= k < eden_keep(roots).len(),
    ensures
        exists|j: int| 0 <= j < roots.len() && eden_keep(roots)[k] == roots[j],
    decreases roots.len(),
{
    if roots.len() > 0 {
        if !eden_dead(roots.last()) && k == eden_keep(roots).len() - 1 {
            assert(eden_keep(roots)[k] == roots[roots.len() - 1]);
        } else {
            lemma_eden_keep_index(roots.drop_last(), k);
            let j = choose|j: int|
                0 <= j < roots.drop_last().len() && eden_keep(roots.drop_last())[k]
                    == roots.drop_last()[j];
            assert(eden_keep(roots)[k] == roots[j]);
        }
    }
}

pub proof fn lemma_eden_keep_pair(roots: Seq<RootedInner>, k1: int, k2: int)
    requires
        0 <= k1 < k2 < eden_keep(roots).len(),
    ensures
        exists|j1: int, j2: int|
            0 <= j1 < j2 < roots.len() && eden_keep(roots)[k1] == roots[j1] && eden_keep(roots)[k2]
                == roots[j2],
    decreases roots.len(),
{
    if roots.len() > 0 {
        if !eden_dead(roots.last()) && k2 == eden_keep(roots).len() - 1 {
            lemma_eden_keep_index(roots.drop_last(), k1);
            let j1 = choose|j: int|
                0 <= j < roots.drop_last().len() && eden_keep(roots.drop_last())[k1]
                    == roots.drop_last()[j];
            assert(eden_keep(roots)[k1] == roots[j1] && eden_keep(roots)[k2] == roots[roots.len()
                - 1]);
        } else {
            lemma_eden_keep_pair(roots.drop_last(), k1, k2);
            let (j1, j2) = choose|j1: int, j2: int|
                0 <= j1 < j2 < roots.drop_last().len() && eden_keep(roots.drop_last())[k1]
                    == roots.drop_last()[j1] && eden_keep(roots.drop_last())[k2]
                    == roots.drop_last()[j2];
            assert(eden_keep(roots)[k1] == roots[j1] && eden_keep(roots)[k2] == roots[j2]);
        }
    }
}

pub proof fn lemma_eden_keep_survivor(roots: Seq<RootedInner>, j: int)
    requires
        0 <= j < roots.len(),
        !eden_dead(roots[j]),
    ensures
        exists|k: int| 0 <= k < eden_keep(roots).len() && #[trigger] eden_keep(roots)[k]
            == roots[j],
    decreases roots.len(),
{
    if roots.len() > 0 {
        if j == roots.len() - 1 {
            assert(eden_keep(roots)[eden_keep(roots).len() - 1] == roots[j]);
        } else {
            lemma_eden_keep_survivor(roots.drop_last(), j);
            let k = choose|k: int|
                0 <= k < eden_keep(roots.drop_last()).len() && #[trigger] eden_keep(
                    roots.drop_last(),
                )[k] == roots.drop_last()[j];
            assert(eden_keep(roots)[k] == roots[j]);
        }
    }
}

/// Moving one Eden payload into a freshly handed-out pocket keeps the heap
/// well formed, and every descriptor's payload reads back unchanged.
#[verifier::rlimit(100)]
#[verifier::spinoff_prover]
proof fn lemma_promote_step(
    pre: BumpHeap,
    post: BumpHeap,
    idx: int,
    p: HeapPointer,
    c: usize,
    buf: Seq<u8>,
)
    requires
        pre.wf(),
        0 <= idx < pre.roots@.len(),
        pre.roots@[idx].heap is Eden,
        post.young_start == pre.young_start,
        post.young_end == pre.young_end,
        post.young_current == pre.young_current,
        post.eden == pre.eden,
        post.next_id == pre.next_id,
        post.heap_size == pre.heap_size,
        post.intermediate.start == pre.intermediate.start,
        post.intermediate.size == pre.intermediate.size,
        post.intermediate.wf(),
        FreeList::alloc_post(
            pre.intermediate.free_list,
            post.intermediate.free_list,
            pre.roots@[idx].size as int,
            Some((p, c)),
        ),
        buf == pre.payload_of(pre.roots@[idx]),
        post.intermediate.region@ == spliced(
            pre.intermediate.region@,
            p.0 - pre.intermediate.start.0,
            buf,
        ),
        post.roots@ == pre.roots@.update(
            idx,
            RootedInner { value: p, heap: ContainingHeap::Intermediate(c), ..pre.roots@[idx] },
        ),
    ensures
        post.wf(),
        count_eden(post.roots@) == count_eden(pre.roots@) - 1,
        forall|k: int|
            0 <= k < post.roots@.len() ==> (#[trigger] post.roots@[k]).id == pre.roots@[k].id,
        forall|j: int|
            0 <= j < pre.roots@.len() && j != idx && (#[trigger] pre.roots@[j]).heap
                is Intermediate ==> pre.intermediate.start.0 <= pre.roots@[j].value.0 && pre.roots@[
            j].value.0 - pre.intermediate.start.0 + pre.roots@[j].size
                <= pre.intermediate.region@.len() && crate::free_list::ranges_disjoint(
                p.0 as int,
                c as int,
                pre.roots@[j].value.0 as int,
                pre.roots@[j].size as int,
            ),
        pre.intermediate.start.0 <= p.0,
        p.0 - pre.intermediate.start.0 + buf.len() <= pre.intermediate.region@.len(),
{
    let d = pre.roots@[idx];
    let size = d.size;
    let nd = RootedInner { value: p, heap: ContainingHeap::Intermediate(c), ..d };
    let m = pre.intermediate.model_with(pre.roots@);
    let m2 = post.intermediate.model_with(post.roots@);
    let ostart = pre.intermediate.start.0 as int;
    let fl_pre = pre.intermediate.free_list;
    let fl_post = post.intermediate.free_list;
    let ci = crate::free_list::class_of(size as int);
    let popped = fl_pre.stacks()[ci].len() > 0;
    assert(eden_roots_ok(pre.roots@, pre.young_start.0 as int, pre.young_current.0 as int));
    assert(buf.len() == size);
    assert(forall|k: int|
        0 <= k < post.roots@.len() ==> #[trigger] post.roots@[k] == if k == idx {
            nd
        } else {
            pre.roots@[k]
        });
    crate::sweep_heap::lemma_spliced_len(
        pre.intermediate.region@,
        p.0 - pre.intermediate.start.0,
        buf,
    );
    // how the allocation stepped the stacks, spelled out once
    assert(fl_post.current.0 >= fl_pre.current.0);
    if popped {
        assert(m2.stacks =~~= m.stacks.update(ci, m.stacks[ci].drop_last()));
        assert(forall|c2: int, k2: int|
            0 <= c2 < crate::free_list::NUMBER_MEMORY_POCKETS && 0 <= k2 < m2.stacks[c2].len()
                ==> #[trigger] m2.stacks[c2][k2] == m.stacks[c2][k2]);
    } else {
        assert(m2.stacks =~~= m.stacks);
    }
    // the fresh pocket is inside the carved span and overlaps no other pocket
    // and no remaining recycled slot
    assert(nd.pocket_ok());
    assert(live_in_bounds(m2.roots, m2.start, m2.current)) by {
        assert(live_in_bounds(m.roots, m.start, m.current));
    }
    assert forall|i: int, j: int|
        #![trigger m2.roots[i], m2.roots[j]]
        0 <= i < j < m2.roots.len() && m2.roots[i].heap is Intermediate && m2.roots[j].heap
            is Intermediate implies crate::free_list::ranges_disjoint(
        m2.roots[i].value.0 as int,
        pocket_extent(m2.roots[i]),
        m2.roots[j].value.0 as int,
        pocket_extent(m2.roots[j]),
    ) by {
        if i != idx && j != idx {
            assert(crate::sweep_heap::live_disjoint(m.roots));
        } else {
            let o = if i == idx {
                j
            } else {
                i
            };
            assert(m2.roots[o] == pre.roots@[o] && pre.roots@[o].heap is Intermediate);
            if popped {
                assert(p == fl_pre.stacks()[ci].last());
                assert(crate::sweep_heap::live_stack_disjoint(m.roots, m.stacks));
                assert(crate::free_list::ranges_disjoint(
                    pre.roots@[o].value.0 as int,
                    pocket_extent(pre.roots@[o]),
                    fl_pre.stacks()[ci][fl_pre.stacks()[ci].len() - 1].0 as int,
                    crate::free_list::pocket_size_of(ci),
                ));
            } else {
                assert(p == fl_pre.current);
                assert(pre.roots@[o].value.0 + pocket_extent(pre.roots@[o]) <= fl_pre.current.0);
            }
        }
    }
    assert forall|i: int, c2: int, k2: int|
        #![trigger m2.roots[i], m2.stacks[c2][k2]]
        0 <= i < m2.roots.len() && m2.roots[i].heap is Intermediate && 0 <= c2
            < crate::free_list::NUMBER_MEMORY_POCKETS && 0 <= k2
            < m2.stacks[c2].len() implies crate::free_list::ranges_disjoint(
        m2.roots[i].value.0 as int,
        pocket_extent(m2.roots[i]),
        m2.stacks[c2][k2].0 as int,
        crate::free_list::pocket_size_of(c2),
    ) by {
        if popped {
            assert(m2.stacks[c2][k2] == m.stacks[c2][k2]);
            if i == idx {
                assert((c2, k2) != (ci, m.stacks[ci].len() - 1));
                assert(crate::free_list::stacks_ok(m.stacks, m.start, m.current));
                assert(p == fl_pre.stacks()[ci].last());
            } else {
                assert(crate::sweep_heap::live_stack_disjoint(m.roots, m.stacks));
            }
        } else {
            assert(m2.stacks[c2][k2] == m.stacks[c2][k2]);
            if i == idx {
                assert(m.stacks[c2][k2].0 + crate::free_list::pocket_size_of(c2)
                    <= fl_pre.current.0);
                assert(p == fl_pre.current);
            } else {
                assert(crate::sweep_heap::live_stack_disjoint(m.roots, m.stacks));
            }
        }
    }
    // accounting: the new pocket is paid for by the bump step or the
    // recycled slot it came from
    crate::sweep_heap::lemma_roots_sum_update(pre.roots@, idx, nd);
    if popped {
        crate::free_list::lemma_stack_sum_update(
            m.stacks,
            ci,
            m.stacks[ci].drop_last(),
            crate::free_list::NUMBER_MEMORY_POCKETS as int,
        );
        assert((m.stacks[ci].drop_last().len() - m.stacks[ci].len())
            * crate::free_list::pocket_size_of(ci) == -1
            * crate::free_list::pocket_size_of(ci)) by (nonlinear_arith)
            requires
                m.stacks[ci].drop_last().len() == m.stacks[ci].len() - 1,
        ;
        assert(crate::free_list::stack_sum(m2.stacks) == crate::free_list::stack_sum(m.stacks) - (
        c as int));
    }
    assert(model_wf(m2));
    // identifiers are untouched
    assert(ids_ok(post.roots@, post.next_id.0 as int)) by {
        assert forall|i: int, j: int|
            #![trigger post.roots@[i].id, post.roots@[j].id]
            0 <= i < j < post.roots@.len() implies post.roots@[i].id.0 != post.roots@[j].id.0 by {
            assert(pre.roots@[i].id.0 != pre.roots@[j].id.0);
        }
    }
    assert(post.wf());
    lemma_count_eden_update(pre.roots@, idx, nd);
    assert forall|j: int|
        0 <= j < pre.roots@.len() && j != idx && (#[trigger] pre.roots@[j]).heap
            is Intermediate implies pre.intermediate.start.0 <= pre.roots@[j].value.0 && pre.roots@[
        j].value.0 - pre.intermediate.start.0 + pre.roots@[j].size
        <= pre.intermediate.region@.len() && crate::free_list::ranges_disjoint(
        p.0 as int,
        c as int,
        pre.roots@[j].value.0 as int,
        pre.roots@[j].size as int,
    ) by {
        assert(m2.roots[j] == pre.roots@[j] && m2.roots[j].heap is Intermediate);
        assert(m2.roots[idx] == nd);
        if idx < j {
            assert(crate::free_list::ranges_disjoint(
                m2.roots[idx].value.0 as int,
                pocket_extent(m2.roots[idx]),
                m2.roots[j].value.0 as int,
                pocket_extent(m2.roots[j]),
            ));
        } else {
            assert(crate::free_list::ranges_disjoint(
                m2.roots[j].value.0 as int,
                pocket_extent(m2.roots[j]),
                m2.roots[idx].value.0 as int,
                pocket_extent(m2.roots[idx]),
            ));
        }
        assert(pre.roots@[j].size <= pocket_extent(pre.roots@[j]));
    }
}

/// The second half of the promotion argument: with the promoted state known
/// to be well formed, every rooted descriptor's payload reads back unchanged.
#[verifier::rlimit(100)]
#[verifier::spinoff_prover]
proof fn lemma_promote_step_preserved(
    pre: BumpHeap,
    post: BumpHeap,
    idx: int,
    p: HeapPointer,
    c: usize,
    buf: Seq<u8>,
)
    requires
        0 <= idx < pre.roots@.len(),
        pre.roots@[idx].heap is Eden,
        post.young_start == pre.young_start,
        post.eden == pre.eden,
        post.intermediate.start == pre.intermediate.start,
        buf == pre.payload_of(pre.roots@[idx]),
        buf.len() == pre.roots@[idx].size,
        buf.len() <= c,
        post.intermediate.region@ == spliced(
            pre.intermediate.region@,
            p.0 - pre.intermediate.start.0,
            buf,
        ),
        post.roots@ == pre.roots@.update(
            idx,
            RootedInner { value: p, heap: ContainingHeap::Intermediate(c), ..pre.roots@[idx] },
        ),
        forall|j: int|
            0 <= j < pre.roots@.len() && j != idx && (#[trigger] pre.roots@[j]).heap
                is Intermediate ==> pre.intermediate.start.0 <= pre.roots@[j].value.0 && pre.roots@[
            j].value.0 - pre.intermediate.start.0 + pre.roots@[j].size
                <= pre.intermediate.region@.len() && crate::free_list::ranges_disjoint(
                p.0 as int,
                c as int,
                pre.roots@[j].value.0 as int,
                pre.roots@[j].size as int,
            ),
        pre.intermediate.start.0 <= p.0,
        p.0 - pre.intermediate.start.0 + buf.len() <= pre.intermediate.region@.len(),
    ensures
        BumpHeap::preserved_into(pre, post),
{
    reveal(BumpHeap::preserved_into);
    let d = pre.roots@[idx];
    let nd = RootedInner { value: p, heap: ContainingHeap::Intermediate(c), ..d };
    let ostart = pre.intermediate.start.0 as int;
    let region = pre.intermediate.region@;
    crate::memory::lemma_spliced_readback(region, p.0 - ostart, buf);
    assert forall|j: int|
        0 <= j < pre.roots@.len() && (#[trigger] pre.roots@[j]).rooted implies exists|k: int|
            0 <= k < post.roots@.len() && (#[trigger] post.roots@[k]).id == pre.roots@[j].id
                && post.roots@[k].rooted && post.roots@[k].size == pre.roots@[j].size
                && post.payload_of(post.roots@[k]) == pre.payload_of(pre.roots@[j]) by {
        if j == idx {
            assert(post.roots@[idx] == nd);
            assert(post.payload_of(nd) == buf);
            assert(0 <= idx < post.roots@.len() && post.roots@[idx].id == pre.roots@[j].id
                && post.roots@[idx].rooted && post.roots@[idx].size == pre.roots@[j].size
                && post.payload_of(post.roots@[idx]) == pre.payload_of(pre.roots@[j]));
        } else {
            assert(post.roots@[j] == pre.roots@[j]);
            match pre.roots@[j].heap {
                ContainingHeap::Eden => {},
                ContainingHeap::Intermediate(_) => {
                    crate::memory::lemma_spliced_elsewhere(
                        region,
                        p.0 - ostart,
                        buf,
                        pre.roots@[j].value.0 - ostart,
                        pre.roots@[j].value.0 - ostart + pre.roots@[j].size,
                    );
                },
            }
            assert(0 <= j < post.roots@.len() && post.roots@[j].id == pre.roots@[j].id
                && post.roots@[j].rooted && post.roots@[j].size == pre.roots@[j].size
                && post.payload_of(post.roots@[j]) == pre.payload_of(pre.roots@[j]));
        }
    }
}

impl Default for BumpHeap {
    /// A heap with the default region sizes, empty.
    fn default() -> (r: Self)
        ensures
            r.wf(),
            r.eden@.len() == 4096,
            r.intermediate.size == 2048,
            r.roots@.len() == 0,
            r.young_current == r.young_start,
            r.next_id.0 == 1,
    {
        BumpHeap::new(BumpOptions::default())
    }
}

/// Appending one freshly written Eden object to the registry keeps the heap
/// well formed, and every payload already there reads back unchanged.
#[verifier::rlimit(100)]
#[verifier::spinoff_prover]
proof fn lemma_alloc_step(mid: BumpHeap, post: BumpHeap, d: RootedInner, p: HeapPointer, bytes: Seq<u8>)
    requires
        mid.wf(),
        mid.next_id.0 < usize::MAX,
        p == mid.young_current,
        mid.young_current.0 + bytes.len() <= mid.young_end.0,
        d == (RootedInner {
            id: mid.next_id,
            value: p,
            rooted: true,
            color: Color::White,
            heap: ContainingHeap::Eden,
            size: bytes.len() as usize,
        }),
        post.young_start == mid.young_start,
        post.young_end == mid.young_end,
        post.young_current.0 == mid.young_current.0 + bytes.len(),
        post.eden@ == spliced(mid.eden@, p.0 - mid.young_start.0, bytes),
        post.intermediate == mid.intermediate,
        post.heap_size == mid.heap_size,
        post.roots@ == mid.roots@.push(d),
        post.next_id.0 == mid.next_id.0 + 1,
    ensures
        post.wf(),
        BumpHeap::preserved_into(mid, post),
        post.payload_of(d) == bytes,
{
    crate::sweep_heap::lemma_spliced_len(mid.eden@, p.0 - mid.young_start.0, bytes);
    crate::memory::lemma_spliced_readback(mid.eden@, p.0 - mid.young_start.0, bytes);
    crate::sweep_heap::lemma_roots_sum_concat(mid.roots@, seq![d]);
    assert(mid.roots@.push(d) =~= mid.roots@ + seq![d]);
    assert(seq![d].drop_last() =~= Seq::<RootedInner>::empty());
    assert(seq![d].last() == d);
    assert(crate::sweep_heap::roots_pocket_sum(Seq::<RootedInner>::empty()) == 0);
    assert(crate::sweep_heap::roots_pocket_sum(seq![d]) == 0);
    assert(model_wf(post.intermediate.model_with(post.roots@))) by {
        assert(live_in_bounds(
            post.roots@,
            post.intermediate.start.0 as int,
            post.intermediate.free_list.current.0 as int,
        ));
        assert(crate::sweep_heap::live_disjoint(post.roots@));
        assert(crate::sweep_heap::live_stack_disjoint(
            post.roots@,
            post.intermediate.free_list.stacks(),
        ));
    }
    assert(post.wf());
    assert(post.payload_of(d) == bytes);
    // the write landed past every Eden payload, and the old region was not
    // written
    reveal(BumpHeap::preserved_into);
    assert forall|j: int|
        0 <= j < mid.roots@.len() && (#[trigger] mid.roots@[j]).rooted implies exists|k: int|
            0 <= k < post.roots@.len() && (#[trigger] post.roots@[k]).id == mid.roots@[j].id
                && post.roots@[k].rooted && post.roots@[k].size == mid.roots@[j].size
                && post.payload_of(post.roots@[k]) == mid.payload_of(mid.roots@[j]) by {
        assert(post.roots@[j] == mid.roots@[j]);
        match mid.roots@[j].heap {
            ContainingHeap::Eden => {
                crate::memory::lemma_spliced_elsewhere(
                    mid.eden@,
                    p.0 - mid.young_start.0,
                    bytes,
                    mid.roots@[j].value.0 - mid.young_start.0,
                    mid.roots@[j].value.0 - mid.young_start.0 + mid.roots@[j].size,
                );
            },
            ContainingHeap::Intermediate(_) => {},
        }
        assert(0 <= j < post.roots@.len() && post.roots@[j].id == mid.roots@[j].id && post.roots@[
        j].rooted == mid.roots@[j].rooted && post.roots@[j].size == mid.roots@[j].size
            && post.payload_of(post.roots@[j]) == mid.payload_of(mid.roots@[j]));
    }
}

/// The top-level heap: the Eden address range and its backing bytes, the old
/// region, the registry of pinned descriptors, and the next allocation id.
pub struct BumpHeap {
    pub young_start: HeapPointer,
    pub young_end: HeapPointer,
    pub young_current: HeapPointer,
    pub heap_size: usize,
    pub eden: Vec<u8>,
    pub intermediate: SweepHeap,
    pub roots: Vec<RootedInner>,
    pub next_id: AllocId,
}

impl BumpHeap {
    /// The structural part of well-formedness: region bounds and sizes.
    pub open spec fn regions_wf(self) -> bool {
        &&& self.young_start.0 == 1
        &&& self.young_start.0 <= self.young_current.0 <= self.young_end.0
        &&& self.young_end.0 == self.young_start.0 + self.eden@.len()
        &&& self.intermediate.start.0 == self.young_end.0
        &&& self.intermediate.wf()
        &&& self.heap_size == self.eden@.len() + self.intermediate.size
        &&& self.next_id.0 >= 1
    }

    /// Well-formedness of a registry against this heap's regions.
    pub open spec fn roots_wf(self, roots: Seq<RootedInner>) -> bool {
        &&& model_wf(self.intermediate.model_with(roots))
        &&& eden_roots_ok(roots, self.young_start.0 as int, self.young_current.0 as int)
        &&& ids_ok(roots, self.next_id.0 as int)
    }

    pub open spec fn wf(self) -> bool {
        self.regions_wf() && self.roots_wf(self.roots@)
    }

    /// The payload bytes a descriptor currently points at, wherever they sit.
    pub open spec fn payload_of(self, d: RootedInner) -> Seq<u8> {
        match d.heap {
            ContainingHeap::Eden => self.eden@.subrange(
                d.value.0 - self.young_start.0,
                d.value.0 - self.young_start.0 + d.size,
            ),
            ContainingHeap::Intermediate(c) => payload_in(
                self.intermediate.region@,
                self.intermediate.start.0 as int,
                d,
            ),
        }
    }

    /// Every descriptor rooted in `pre` survives into `post`: same id, still
    /// rooted, same size, and its payload bytes are unchanged.
    #[verifier::opaque]
    pub open spec fn preserved_into(pre: BumpHeap, post: BumpHeap) -> bool {
        forall|j: int|
            0 <= j < pre.roots@.len() && (#[trigger] pre.roots@[j]).rooted ==> exists|k: int|
                0 <= k < post.roots@.len() && (#[trigger] post.roots@[k]).id == pre.roots@[j].id
                    && post.roots@[k].rooted && post.roots@[k].size == pre.roots@[j].size
                    && post.payload_of(post.roots@[k]) == pre.payload_of(pre.roots@[j])
    }

    /// A heap with an Eden of `options.young_heap_size` bytes and an old
    /// region of `options.old_heap_size` bytes, both zeroed and empty. The old
    /// region is a sub-view of the same arena, starting at `young_end`.
    pub fn new(options: BumpOptions) -> (r: Self)
        requires
            options.young_heap_size + options.old_heap_size + 1 <= usize::MAX,
        ensures
            r.wf(),
            r.eden@.len() == options.young_heap_size,
            r.intermediate.size == options.old_heap_size,
            r.young_current == r.young_start,
            r.roots@.len() == 0,
            r.next_id.0 == 1,
            r.heap_size == options.young_heap_size + options.old_heap_size,
            r.intermediate.free_list.current == r.intermediate.start,
            forall|x: int| 0 <= x < r.eden@.len() ==> r.eden@[x] == 0u8,
            forall|x: int| 0 <= x < r.intermediate.size ==> r.intermediate.region@[x] == 0u8,
            forall|c: int|
                0 <= c < crate::free_list::NUMBER_MEMORY_POCKETS ==> (
                #[trigger] r.intermediate.free_list.stacks()[c]).len() == 0,
    {
        let young_start = HeapPointer::new(1);
        let young_end = young_start.offset(options.young_heap_size);
        let eden = alloc_zeroed(options.young_heap_size);
        let intermediate = SweepHeap::from_region(young_end, options.old_heap_size);
        let r = BumpHeap {
            young_start,
            young_end,
            young_current: young_start,
            heap_size: options.young_heap_size + options.old_heap_size,
            eden,
            intermediate,
            roots: Vec::new(),
            next_id: AllocId::new(1),
        };
        proof {
            assert(model_wf(r.intermediate.model_with(r.roots@)));
        }
        r
    }

    /// How many descriptors the registry holds.
    pub fn root_count(&self) -> (r: usize)
        ensures
            r == self.roots@.len(),
    {
        self.roots.len()
    }

    /// The bump frontier's offset from Eden's start.
    pub fn young_used(&self) -> (r: usize)
        requires
            self.wf(),
        ensures
            r == self.young_current.0 - self.young_start.0,
    {
        self.young_current.as_usize() - self.young_start.as_usize()
    }

    /// The old region's bump frontier offset from its start.
    pub fn old_used(&self) -> (r: usize)
        requires
            self.wf(),
        ensures
            r == self.intermediate.free_list.current.0 - self.intermediate.start.0,
    {
        self.intermediate.free_list.current.as_usize() - self.intermediate.start.as_usize()
    }

    /// How many recycled slots the old region's stack for `class` holds.
    pub fn stack_len(&self, class: usize) -> (r: usize)
        requires
            self.wf(),
            class < crate::free_list::NUMBER_MEMORY_POCKETS,
        ensures
            r == self.intermediate.free_list.stacks()[class as int].len(),
    {
        self.intermediate.free_list.pockets[class].len()
    }

    /// The descriptor a handle names, if the registry still holds it.
    pub fn descriptor(&self, handle: &Rooted) -> (r: Option<RootedInner>)
        requires
            self.wf(),
        ensures
            match r {
                Some(d) => exists|k: int|
                    0 <= k < self.roots@.len() && #[trigger] self.roots@[k] == d && d.id
                        == handle.id,
                None => !has_id(self.roots@, handle.id),
            },
    {
        let n = self.roots.len();
        let mut k: usize = 0;
        while k < n
            invariant
                n == self.roots@.len(),
                k <= n,
                forall|t: int| 0 <= t < k ==> (#[trigger] self.roots@[t]).id != handle.id,
            decreases n - k,
        {
            let d = self.roots[k];
            if d.id.0 == handle.id.0 {
                proof {
                    assert(self.roots@[k as int].id == handle.id);
                }
                return Some(d);
            }
            k = k + 1;
        }
        None
    }

    /// The bytes a handle currently dereferences to.
    pub fn get(&self, handle: &Rooted) -> (r: Result<Vec<u8>, HeapError>)
        requires
            self.wf(),
        ensures
            match r {
                Ok(bytes) => exists|k: int|
                    0 <= k < self.roots@.len() && (#[trigger] self.roots@[k]).id == handle.id
                        && bytes@ == self.payload_of(self.roots@[k]),
                Err(e) => e == HeapError::NoAllocationFound && !has_id(self.roots@, handle.id),
            },
    {
        let n = self.roots.len();
        let mut k: usize = 0;
        while k < n
            invariant
                n == self.roots@.len(),
                k <= n,
                self.wf(),
                forall|t: int| 0 <= t < k ==> (#[trigger] self.roots@[t]).id != handle.id,
            decreases n - k,
        {
            let d = self.roots[k];
            if d.id.0 == handle.id.0 {
                proof {
                    assert(self.roots@[k as int].id == handle.id);
                }
                let bytes = match d.heap {
                    ContainingHeap::Eden => {
                        proof {
                            assert(eden_roots_ok(
                                self.roots@,
                                self.young_start.0 as int,
                                self.young_current.0 as int,
                            ));
                            assert(self.roots@[k as int].heap is Eden);
                        }
                        read_bytes(
                            &self.eden,
                            d.value.as_usize() - self.young_start.as_usize(),
                            d.size,
                        )
                    },
                    ContainingHeap::Intermediate(_) => {
                        proof {
                            let m = self.intermediate.model_with(self.roots@);
                            assert(m.roots[k as int].pocket_ok() && m.start <= m.roots[
                            k as int].value.0 && m.roots[k as int].value.0 + pocket_extent(
                                m.roots[k as int],
                            ) <= m.current);
                        }
                        self.intermediate.read(d.value, d.size)
                    },
                };
                return Ok(bytes);
            }
            k = k + 1;
        }
        Err(HeapError::NoAllocationFound)
    }

    /// Drop a handle: the descriptor's `rooted` flag is cleared, and the
    /// descriptor itself stays in the registry until the next cycle that
    /// covers its region.
    pub fn release(&mut self, handle: Rooted) -> (r: Result<(), HeapError>)
        requires
            old(self).wf(),
        ensures
            final(self).wf(),
            final(self).eden == old(self).eden,
            final(self).intermediate == old(self).intermediate,
            final(self).young_current == old(self).young_current,
            final(self).young_start == old(self).young_start,
            final(self).young_end == old(self).young_end,
            final(self).next_id == old(self).next_id,
            final(self).roots@.len() == old(self).roots@.len(),
            forall|j: int|
                0 <= j < old(self).roots@.len() ==> #[trigger] final(self).roots@[j] == if old(
                    self,
                ).roots@[j].id == handle.id {
                    RootedInner { rooted: false, ..old(self).roots@[j] }
                } else {
                    old(self).roots@[j]
                },
            match r {
                Ok(()) => has_id(old(self).roots@, handle.id),
                Err(e) => e == HeapError::NoAllocationFound && !has_id(
                    old(self).roots@,
                    handle.id,
                ),
            },
    {
        let n = self.roots.len();
        let mut k: usize = 0;
        while k < n
            invariant
                n == self.roots@.len(),
                k <= n,
                *self == *old(self),
                old(self).wf(),
                forall|t: int| 0 <= t < k ==> (#[trigger] self.roots@[t]).id != handle.id,
            decreases n - k,
        {
            let d = self.roots[k];
            if d.id.0 == handle.id.0 {
                proof {
                    assert(self.roots@[k as int].id == handle.id);
                }
                self.roots.set(k, RootedInner { rooted: false, ..d });
                proof {
                    let pre = old(self).roots@;
                    let post = self.roots@;
                    assert forall|j: int|
                        0 <= j < pre.len() implies #[trigger] post[j] == if pre[j].id == handle.id {
                        RootedInner { rooted: false, ..pre[j] }
                    } else {
                        pre[j]
                    } by {
                        if j != k {
                            assert(pre[j].id != handle.id || j == k) by {
                                if pre[j].id == handle.id && j != k {
                                    assert(pre[j].id.0 == pre[k as int].id.0);
                                    assert(ids_ok(pre, old(self).next_id.0 as int));
                                }
                            }
                        }
                    }
                    assert(model_wf(self.intermediate.model_with(self.roots@))) by {
                        let m = old(self).intermediate.model_with(pre);
                        let m2 = self.intermediate.model_with(post);
                        crate::sweep_heap::lemma_roots_sum_pointwise(post, pre);
                        assert(crate::sweep_heap::live_in_bounds(post, m2.start, m2.current));
                        assert(crate::sweep_heap::live_disjoint(post));
                        assert(crate::sweep_heap::live_stack_disjoint(post, m2.stacks));
                    }
                }
                return Ok(());
            }
            k = k + 1;
        }
        Err(HeapError::NoAllocationFound)
    }

    /// A heap preserves its own rooted handles.
    pub proof fn lemma_preserved_refl(a: BumpHeap)
        ensures
            BumpHeap::preserved_into(a, a),
    {
        reveal(BumpHeap::preserved_into);
        assert forall|j: int|
            0 <= j < a.roots@.len() && (#[trigger] a.roots@[j]).rooted implies exists|k: int|
                0 <= k < a.roots@.len() && (#[trigger] a.roots@[k]).id == a.roots@[j].id
                    && a.roots@[k].rooted && a.roots@[k].size == a.roots@[j].size && a.payload_of(
                a.roots@[k],
            ) == a.payload_of(a.roots@[j]) by {
            assert(0 <= j < a.roots@.len() && a.roots@[j].id == a.roots@[j].id && a.roots@[j].rooted
                && a.roots@[j].size == a.roots@[j].size && a.payload_of(a.roots@[j]) == a.payload_of(
                a.roots@[j],
            ));
        }
    }

    /// Handles that survive one collection survive the next: preservation
    /// chains across any sequence of cycles.
    pub proof fn lemma_preserved_trans(a: BumpHeap, b: BumpHeap, c: BumpHeap)
        requires
            BumpHeap::preserved_into(a, b),
            BumpHeap::preserved_into(b, c),
        ensures
            BumpHeap::preserved_into(a, c),
    {
        reveal(BumpHeap::preserved_into);
        assert forall|j: int|
            0 <= j < a.roots@.len() && (#[trigger] a.roots@[j]).rooted implies exists|k: int|
                0 <= k < c.roots@.len() && (#[trigger] c.roots@[k]).id == a.roots@[j].id
                    && c.roots@[k].rooted && c.roots@[k].size == a.roots@[j].size && c.payload_of(
                c.roots@[k],
            ) == a.payload_of(a.roots@[j]) by {
            let kb = choose|k: int|
                0 <= k < b.roots@.len() && (#[trigger] b.roots@[k]).id == a.roots@[j].id
                    && b.roots@[k].rooted && b.roots@[k].size == a.roots@[j].size && b.payload_of(
                    b.roots@[k],
                ) == a.payload_of(a.roots@[j]);
            let kc = choose|k: int|
                0 <= k < c.roots@.len() && (#[trigger] c.roots@[k]).id == b.roots@[kb].id
                    && c.roots@[k].rooted && c.roots@[k].size == b.roots@[kb].size && c.payload_of(
                    c.roots@[k],
                ) == b.payload_of(b.roots@[kb]);
            assert(c.roots@[kc].id == a.roots@[j].id && c.roots@[kc].rooted && c.roots@[kc].size
                == a.roots@[j].size && c.payload_of(c.roots@[kc]) == a.payload_of(a.roots@[j]));
        }
    }

    /// The index of the first descriptor still sitting in Eden, if any.
    fn first_eden(&self) -> (r: Option<usize>)
        ensures
            match r {
                Some(j) => j < self.roots@.len() && self.roots@[j as int].heap is Eden,
                None => forall|k: int|
                    0 <= k < self.roots@.len() ==> !((#[trigger] self.roots@[k]).heap is Eden),
            },
    {
        let n = self.roots.len();
        let mut j: usize = 0;
        while j < n
            invariant
                n == self.roots@.len(),
                j <= n,
                forall|t: int| 0 <= t < j ==> !((#[trigger] self.roots@[t]).heap is Eden),
            decreases n - j,
        {
            if let ContainingHeap::Eden = self.roots[j].heap {
                return Some(j);
            }
            j = j + 1;
        }
        None
    }

    /// The scavenge's first pass: drop every Eden descriptor that is no
    /// longer rooted. The Eden payload is discarded with the region later.
    #[verifier::spinoff_prover]
    fn drop_unrooted_eden(&mut self)
        requires
            old(self).wf(),
        ensures
            final(self).wf(),
            final(self).eden == old(self).eden,
            final(self).young_start == old(self).young_start,
            final(self).young_end == old(self).young_end,
            final(self).young_current == old(self).young_current,
            final(self).intermediate == old(self).intermediate,
            final(self).next_id == old(self).next_id,
            final(self).heap_size == old(self).heap_size,
            final(self).roots@ == eden_keep(old(self).roots@),
            BumpHeap::preserved_into(*old(self), *final(self)),
            forall|j: int|
                0 <= j < old(self).roots@.len() && eden_dead(#[trigger] old(self).roots@[j])
                    ==> !has_id(final(self).roots@, old(self).roots@[j].id),
            forall|k: int|
                0 <= k < final(self).roots@.len() && (#[trigger] final(self).roots@[k]).heap
                    is Eden ==> final(self).roots@[k].rooted,
    {
        let ghost oroots = old(self).roots@;
        let mut kept: Vec<RootedInner> = Vec::new();
        let n = self.roots.len();
        proof {
            assert(kept@ + oroots.skip(0) =~= oroots);
            assert(oroots.take(0) =~= Seq::<RootedInner>::empty());
        }
        let mut i: usize = 0;
        while i < n
            invariant
                n == oroots.len(),
                self.roots@ == oroots,
                *self == *old(self),
                old(self).wf(),
                i <= n,
                kept@ == eden_keep(oroots.take(i as int)),
                old(self).roots_wf(kept@ + oroots.skip(i as int)),
            decreases n - i,
        {
            let d = self.roots[i];
            let ghost all = kept@ + oroots.skip(i as int);
            let ghost p = kept@.len() as int;
            proof {
                assert(all[p] == oroots[i as int]);
                assert(oroots.take(i as int + 1).drop_last() =~= oroots.take(i as int));
                assert(oroots.take(i as int + 1).last() == d);
            }
            let dead = match d.heap {
                ContainingHeap::Eden => !d.rooted,
                ContainingHeap::Intermediate(_) => false,
            };
            if dead {
                proof {
                    let all2 = kept@ + oroots.skip(i as int + 1);
                    assert(all2 =~= all.remove(p));
                    let m = old(self).intermediate.model_with(all);
                    let m2 = old(self).intermediate.model_with(all2);
                    crate::sweep_heap::lemma_model_wf_remove(m, p, m2);
                    assert(forall|t: int|
                        0 <= t < all2.len() ==> #[trigger] all2[t] == if t < p {
                            all[t]
                        } else {
                            all[t + 1]
                        });
                    assert(eden_roots_ok(
                        all2,
                        old(self).young_start.0 as int,
                        old(self).young_current.0 as int,
                    ));
                    assert(ids_ok(all2, old(self).next_id.0 as int));
                }
            } else {
                kept.push(d);
                proof {
                    let all2 = kept@ + oroots.skip(i as int + 1);
                    assert(all2 =~= all);
                    assert(kept@ == eden_keep(oroots.take(i as int + 1)));
                }
            }
            i = i + 1;
        }
        proof {
            assert(oroots.take(n as int) =~= oroots);
            assert(kept@ + oroots.skip(n as int) =~= kept@);
        }
        self.roots = kept;
        proof {
            reveal(BumpHeap::preserved_into);
            // rooted descriptors were all kept, with the state untouched
            assert forall|j: int|
                0 <= j < oroots.len() && (#[trigger] oroots[j]).rooted implies exists|k: int|
                    0 <= k < self.roots@.len() && (#[trigger] self.roots@[k]).id == oroots[j].id
                        && self.roots@[k].rooted && self.roots@[k].size == oroots[j].size
                        && self.payload_of(self.roots@[k]) == old(self).payload_of(oroots[j]) by {
                lemma_eden_keep_survivor(oroots, j);
                let k = choose|k: int|
                    0 <= k < eden_keep(oroots).len() && #[trigger] eden_keep(oroots)[k]
                        == oroots[j];
                assert(self.roots@[k] == oroots[j]);
                assert(self.payload_of(oroots[j]) == old(self).payload_of(oroots[j]));
            }
            // a dropped descriptor's id names nothing any more
            assert forall|j: int|
                0 <= j < oroots.len() && eden_dead(#[trigger] oroots[j]) implies !has_id(
                self.roots@,
                oroots[j].id,
            ) by {
                lemma_eden_keep_no_dead(oroots);
                assert forall|t: int| 0 <= t < self.roots@.len() implies (
                #[trigger] self.roots@[t]).id != oroots[j].id by {
                    lemma_eden_keep_index(oroots, t);
                    let jt = choose|jt: int|
                        0 <= jt < oroots.len() && eden_keep(oroots)[t] == oroots[jt];
                    if jt == j {
                        assert(eden_dead(eden_keep(oroots)[t]));
                        assert(false);
                    } else {
                        assert(ids_ok(oroots, old(self).next_id.0 as int));
                        assert(oroots[jt].id.0 != oroots[j].id.0);
                    }
                }
            }
            lemma_eden_keep_no_dead(oroots);
        }
    }

    /// One promotion attempt: hand out a pocket for the Eden descriptor at
    /// `idx` and move its payload there; `false` when the old region has no
    /// room for it.
    #[verifier::rlimit(100)]
    #[verifier::spinoff_prover]
    fn promote_try(&mut self, idx: usize) -> (ok: bool)
        requires
            old(self).wf(),
            idx < old(self).roots@.len(),
            old(self).roots@[idx as int].heap is Eden,
        ensures
            final(self).wf(),
            final(self).young_start == old(self).young_start,
            final(self).young_end == old(self).young_end,
            final(self).young_current == old(self).young_current,
            final(self).eden == old(self).eden,
            final(self).intermediate.start == old(self).intermediate.start,
            final(self).intermediate.size == old(self).intermediate.size,
            final(self).heap_size == old(self).heap_size,
            final(self).next_id == old(self).next_id,
            BumpHeap::preserved_into(*old(self), *final(self)),
            final(self).roots@.len() == old(self).roots@.len(),
            forall|k: int|
                0 <= k < final(self).roots@.len() ==> (#[trigger] final(self).roots@[k]).id == old(
                    self,
                ).roots@[k].id,
            ok ==> count_eden(final(self).roots@) == count_eden(old(self).roots@) - 1,
            !ok ==> final(self).roots@ == old(self).roots@ && count_eden(final(self).roots@)
                == count_eden(old(self).roots@),
    {
        let ghost pre = *old(self);
        let d = self.roots[idx];
        if let Some((p, c)) = self.intermediate.allocate(d.size) {
            let off = d.value.as_usize() - self.young_start.as_usize();
            let buf = read_bytes(&self.eden, off, d.size);
            proof {
                assert(buf@ == pre.payload_of(pre.roots@[idx as int]));
            }
            self.intermediate.write(p, &buf);
            self.roots.set(
                idx,
                RootedInner { value: p, heap: ContainingHeap::Intermediate(c), ..d },
            );
            proof {
                lemma_promote_step(pre, *self, idx as int, p, c, buf@);
                lemma_promote_step_preserved(pre, *self, idx as int, p, c, buf@);
            }
            true
        } else {
            proof {
                reveal(BumpHeap::preserved_into);
                assert forall|j: int|
                    0 <= j < pre.roots@.len() && (#[trigger] pre.roots@[j]).rooted implies exists|
                    k: int|
                    0 <= k < self.roots@.len() && (#[trigger] self.roots@[k]).id == pre.roots@[j].id
                        && self.roots@[k].rooted && self.roots@[k].size == pre.roots@[j].size
                        && self.payload_of(self.roots@[k]) == pre.payload_of(pre.roots@[j]) by {
                    assert(self.roots@[j] == pre.roots@[j]);
                    assert(0 <= j < self.roots@.len() && self.roots@[j].id == pre.roots@[j].id
                        && self.roots@[j].rooted && self.roots@[j].size == pre.roots@[j].size
                        && self.payload_of(self.roots@[j]) == pre.payload_of(pre.roots@[j]));
                }
            }
            false
        }
    }

    /// Try to move one Eden object into the old region, running a major cycle
    /// and retrying once when the first allocation fails; `false` means the
    /// old region cannot take the promotion even after the major cycle.
    #[verifier::spinoff_prover]
    fn promote_at(&mut self, idx: usize) -> (ok: bool)
        requires
            old(self).wf(),
            idx < old(self).roots@.len(),
            old(self).roots@[idx as int].heap is Eden,
        ensures
            final(self).wf(),
            final(self).young_start == old(self).young_start,
            final(self).young_end == old(self).young_end,
            final(self).young_current == old(self).young_current,
            final(self).eden == old(self).eden,
            final(self).intermediate.start == old(self).intermediate.start,
            final(self).intermediate.size == old(self).intermediate.size,
            final(self).heap_size == old(self).heap_size,
            final(self).next_id == old(self).next_id,
            BumpHeap::preserved_into(*old(self), *final(self)),
            forall|k: int|
                0 <= k < final(self).roots@.len() ==> has_id(
                    old(self).roots@,
                    (#[trigger] final(self).roots@[k]).id,
                ),
            ok ==> count_eden(final(self).roots@) == count_eden(old(self).roots@) - 1,
            !ok ==> count_eden(final(self).roots@) == count_eden(old(self).roots@),
    {
        let ghost pre = *old(self);
        if self.promote_try(idx) {
            proof {
                assert forall|k: int| 0 <= k < self.roots@.len() implies has_id(
                    pre.roots@,
                    (#[trigger] self.roots@[k]).id,
                ) by {
                    assert(pre.roots@[k].id == self.roots@[k].id);
                }
            }
            return true;
        }
        let ghost mid = *self;
        self.major();
        let ghost mid2 = *self;
        proof {
            BumpHeap::lemma_preserved_trans(pre, mid, mid2);
            lemma_count_eden_pos(pre.roots@, idx as int);
            assert forall|k: int| 0 <= k < mid2.roots@.len() implies has_id(
                pre.roots@,
                (#[trigger] mid2.roots@[k]).id,
            ) by {
                assert(has_id(mid.roots@, mid2.roots@[k].id));
                let t = choose|t: int|
                    0 <= t < mid.roots@.len() && (#[trigger] mid.roots@[t]).id == mid2.roots@[k].id;
                assert(pre.roots@[t].id == mid2.roots@[k].id);
            }
        }
        let idx2 = match self.first_eden() {
            Some(j) => j,
            None => {
                proof {
                    lemma_count_eden_zero(self.roots@);
                    assert(false);
                }
                return false;
            },
        };
        let ok = self.promote_try(idx2);
        proof {
            BumpHeap::lemma_preserved_trans(pre, mid2, *self);
            assert forall|k: int| 0 <= k < self.roots@.len() implies has_id(
                pre.roots@,
                (#[trigger] self.roots@[k]).id,
            ) by {
                assert(mid2.roots@[k].id == self.roots@[k].id);
                assert(has_id(pre.roots@, mid2.roots@[k].id));
            }
        }
        ok
    }

    /// A manual minor cycle: every Eden object that is still rooted is copied
    /// into an old-region pocket and its descriptor repointed; unrooted Eden
    /// descriptors are dropped; then Eden is zeroed and its frontier reset.
    /// Fails only when the old region cannot take a promotion even after a
    /// major cycle.
    #[verifier::rlimit(60)]
    #[verifier::spinoff_prover]
    pub fn scavenge(&mut self) -> (r: Result<(), HeapError>)
        requires
            old(self).wf(),
        ensures
            final(self).wf(),
            final(self).young_start == old(self).young_start,
            final(self).young_end == old(self).young_end,
            final(self).eden@.len() == old(self).eden@.len(),
            final(self).intermediate.start == old(self).intermediate.start,
            final(self).intermediate.size == old(self).intermediate.size,
            final(self).heap_size == old(self).heap_size,
            final(self).next_id == old(self).next_id,
            BumpHeap::preserved_into(*old(self), *final(self)),
            forall|j: int|
                0 <= j < old(self).roots@.len() && eden_dead(#[trigger] old(self).roots@[j])
                    ==> !has_id(final(self).roots@, old(self).roots@[j].id),
            r is Ok ==> final(self).young_current == final(self).young_start,
            r is Ok ==> forall|x: int|
                0 <= x < final(self).eden@.len() ==> final(self).eden@[x] == 0u8,
            r is Ok ==> forall|k: int|
                0 <= k < final(self).roots@.len() ==> (#[trigger] final(self).roots@[k]).heap
                    is Intermediate,
            r is Err ==> r == Err::<(), HeapError>(HeapError::OldOutOfSpace),
    {
        self.drop_unrooted_eden();
        let ghost start_state = *self;
        let mut done = false;
        while !done
            invariant
                self.wf(),
                self.young_start == old(self).young_start,
                self.young_end == old(self).young_end,
                self.young_current == old(self).young_current,
                self.eden@.len() == old(self).eden@.len(),
                self.intermediate.start == old(self).intermediate.start,
                self.intermediate.size == old(self).intermediate.size,
                self.heap_size == old(self).heap_size,
                self.next_id == old(self).next_id,
                BumpHeap::preserved_into(*old(self), *self),
                forall|j: int|
                    0 <= j < old(self).roots@.len() && eden_dead(#[trigger] old(self).roots@[j]) ==> !has_id(
                        self.roots@,
                        old(self).roots@[j].id,
                    ),
                done ==> forall|k: int|
                    0 <= k < self.roots@.len() ==> !((#[trigger] self.roots@[k]).heap is Eden),
            decreases count_eden(self.roots@), (if done {
                0int
            } else {
                1int
            }),
        {
            let ghost loop_pre = *self;
            match self.first_eden() {
                None => {
                    done = true;
                },
                Some(idx) => {
                    proof {
                        lemma_count_eden_pos(self.roots@, idx as int);
                    }
                    let ok = self.promote_at(idx);
                    proof {
                        BumpHeap::lemma_preserved_trans(*old(self), loop_pre, *self);
                        assert forall|j: int|
                            0 <= j < old(self).roots@.len() && eden_dead(
                                #[trigger] old(self).roots@[j],
                            ) implies !has_id(self.roots@, old(self).roots@[j].id) by {
                            if has_id(self.roots@, old(self).roots@[j].id) {
                                let k = choose|k: int|
                                    0 <= k < self.roots@.len() && (#[trigger] self.roots@[k]).id
                                        == old(self).roots@[j].id;
                                assert(has_id(loop_pre.roots@, self.roots@[k].id));
                            }
                        }
                    }
                    if !ok {
                        return Err(HeapError::OldOutOfSpace);
                    }
                },
            }
        }
        let ghost before_reset = *self;
        let fresh = alloc_zeroed(self.eden.len());
        self.eden = fresh;
        self.young_current = self.young_start;
        proof {
            reveal(BumpHeap::preserved_into);
            assert(self.wf());
            assert forall|j: int|
                0 <= j < old(self).roots@.len() && (#[trigger] old(self).roots@[j]).rooted implies exists|
                k: int|
                0 <= k < self.roots@.len() && (#[trigger] self.roots@[k]).id == old(self).roots@[j].id
                    && self.roots@[k].rooted && self.roots@[k].size == old(self).roots@[j].size
                    && self.payload_of(self.roots@[k]) == old(self).payload_of(old(self).roots@[j]) by {
                let k = choose|k: int|
                    0 <= k < before_reset.roots@.len() && (#[trigger] before_reset.roots@[k]).id
                        == old(self).roots@[j].id && before_reset.roots@[k].rooted
                        && before_reset.roots@[k].size == old(self).roots@[j].size
                        && before_reset.payload_of(before_reset.roots@[k]) == old(self).payload_of(
                        old(self).roots@[j],
                    );
                assert(self.roots@[k].heap is Intermediate);
                assert(self.payload_of(self.roots@[k]) == before_reset.payload_of(
                    before_reset.roots@[k],
                ));
            }
        }
        Ok(())
    }

    /// Allocate a payload in Eden, scavenging first when the bump frontier
    /// cannot take it, and return a fresh handle to it. When the payload fits
    /// the frontier no collection runs: the bytes land at the old frontier and
    /// everything else is untouched. Fails with `TooLarge` when the payload
    /// exceeds the young region even when empty, and with `OldOutOfSpace` when
    /// the scavenge could not promote the survivors.
    #[verifier::rlimit(100)]
    #[verifier::spinoff_prover]
    pub fn allocate(&mut self, value: HeapValue) -> (r: Result<Rooted, HeapError>)
        requires
            old(self).wf(),
            old(self).next_id.0 < usize::MAX,
        ensures
            final(self).wf(),
            final(self).young_start == old(self).young_start,
            final(self).young_end == old(self).young_end,
            final(self).eden@.len() == old(self).eden@.len(),
            final(self).intermediate.start == old(self).intermediate.start,
            final(self).intermediate.size == old(self).intermediate.size,
            final(self).heap_size == old(self).heap_size,
            BumpHeap::preserved_into(*old(self), *final(self)),
            old(self).young_current.0 + value.value@.len() <= old(self).young_end.0 ==> r is Ok,
            old(self).young_current.0 + value.value@.len() <= old(self).young_end.0 ==> ({
                &&& final(self).intermediate == old(self).intermediate
                &&& final(self).young_current.0 == old(self).young_current.0 + value.value@.len()
                &&& final(self).eden@ == spliced(
                    old(self).eden@,
                    old(self).young_current.0 - old(self).young_start.0,
                    value.value@,
                )
                &&& final(self).roots@ == old(self).roots@.push(
                    (RootedInner {
                        id: old(self).next_id,
                        value: old(self).young_current,
                        rooted: true,
                        color: Color::White,
                        heap: ContainingHeap::Eden,
                        size: value.value@.len() as usize,
                    }),
                )
            }),
            match r {
                Ok(h) => {
                    &&& h.id == old(self).next_id
                    &&& final(self).next_id.0 == old(self).next_id.0 + 1
                    &&& final(self).roots@.len() >= 1
                    &&& final(self).roots@.last() == (RootedInner {
                        id: h.id,
                        value: final(self).roots@.last().value,
                        rooted: true,
                        color: Color::White,
                        heap: ContainingHeap::Eden,
                        size: value.value@.len() as usize,
                    })
                    &&& final(self).payload_of(final(self).roots@.last()) == value.value@
                },
                Err(e) => {
                    &&& final(self).next_id == old(self).next_id
                    &&& (e == HeapError::TooLarge || e == HeapError::OldOutOfSpace)
                    &&& (e == HeapError::TooLarge ==> value.value@.len() > old(self).eden@.len())
                },
            },
    {
        let ghost pre = *old(self);
        let size = value.value.len();
        if size > self.young_end.as_usize() - self.young_current.as_usize() {
            match self.scavenge() {
                Ok(()) => {},
                Err(e) => {
                    return Err(e);
                },
            }
            if size > self.young_end.as_usize() - self.young_current.as_usize() {
                proof {
                    // a successful scavenge emptied Eden, so the payload is
                    // larger than the whole young region
                    assert(self.young_current == self.young_start);
                    assert(value.value@.len() > self.eden@.len());
                }
                return Err(HeapError::TooLarge);
            }
        }
        let ghost mid = *self;
        let p = self.young_current;
        self.young_current = self.young_current.offset(size);
        write_bytes(&mut self.eden, p.as_usize() - self.young_start.as_usize(), &value.value);
        proof {
            crate::sweep_heap::lemma_spliced_len(
                mid.eden@,
                p.0 - mid.young_start.0,
                value.value@,
            );
        }
        let d = RootedInner::new(self.next_id, p, size, ContainingHeap::Eden);
        self.roots.push(d);
        let h = Rooted::new(self.next_id);
        self.next_id.increment();
        proof {
            lemma_alloc_step(mid, *self, d, p, value.value@);
            BumpHeap::lemma_preserved_refl(pre);
            BumpHeap::lemma_preserved_trans(pre, mid, *self);
        }
        Ok(h)
    }

    /// Allocate one little-endian 64-bit value.
    pub fn alloc_u64(&mut self, value: u64) -> (r: Result<Rooted, HeapError>)
        requires
            old(self).wf(),
            old(self).next_id.0 < usize::MAX,
        ensures
            final(self).wf(),
            final(self).young_start == old(self).young_start,
            final(self).young_end == old(self).young_end,
            final(self).eden@.len() == old(self).eden@.len(),
            final(self).intermediate.start == old(self).intermediate.start,
            final(self).intermediate.size == old(self).intermediate.size,
            final(self).heap_size == old(self).heap_size,
            BumpHeap::preserved_into(*old(self), *final(self)),
            old(self).young_current.0 + 8 <= old(self).young_end.0 ==> r is Ok,
            old(self).young_current.0 + 8 <= old(self).young_end.0 ==> ({
                &&& final(self).intermediate == old(self).intermediate
                &&& final(self).young_current.0 == old(self).young_current.0 + 8
                &&& final(self).roots@ == old(self).roots@.push(
                    (RootedInner {
                        id: old(self).next_id,
                        value: old(self).young_current,
                        rooted: true,
                        color: Color::White,
                        heap: ContainingHeap::Eden,
                        size: 8,
                    }),
                )
            }),
            match r {
                Ok(h) => {
                    &&& h.id == old(self).next_id
                    &&& final(self).next_id.0 == old(self).next_id.0 + 1
                    &&& final(self).roots@.len() >= 1
                    &&& final(self).roots@.last().id == h.id
                    &&& final(self).roots@.last().rooted
                    &&& final(self).roots@.last().size == 8
                    &&& final(self).payload_of(final(self).roots@.last())
                        == vstd::bytes::spec_u64_to_le_bytes(value)
                },
                Err(e) => {
                    &&& final(self).next_id == old(self).next_id
                    &&& (e == HeapError::TooLarge || e == HeapError::OldOutOfSpace)
                    &&& (e == HeapError::TooLarge ==> 8 > old(self).eden@.len())
                },
            },
    {
        proof {
            vstd::bytes::lemma_auto_spec_u64_to_from_le_bytes();
        }
        let bytes = vstd::bytes::u64_to_le_bytes(value);
        self.allocate(HeapValue::new(bytes))
    }

    /// Read a handle's payload as one little-endian 64-bit value; fails with
    /// `SizeMisalign` when the stored payload has any other size.
    pub fn read_u64(&self, handle: &Rooted) -> (r: Result<u64, HeapError>)
        requires
            self.wf(),
        ensures
            match r {
                Ok(v) => exists|k: int|
                    0 <= k < self.roots@.len() && (#[trigger] self.roots@[k]).id == handle.id
                        && self.roots@[k].size == 8 && v == vstd::bytes::spec_u64_from_le_bytes(
                        self.payload_of(self.roots@[k]),
                    ),
                Err(e) => {
                    &&& (e == HeapError::NoAllocationFound || e == HeapError::SizeMisalign)
                    &&& (e == HeapError::NoAllocationFound <==> !has_id(self.roots@, handle.id))
                    &&& (e == HeapError::SizeMisalign <==> exists|k: int|
                        0 <= k < self.roots@.len() && (#[trigger] self.roots@[k]).id == handle.id
                            && self.roots@[k].size != 8)
                },
            },
    {
        let d = match self.descriptor(handle) {
            Some(d) => d,
            None => {
                proof {
                    assert forall|k: int|
                        0 <= k < self.roots@.len() implies !((#[trigger] self.roots@[k]).id
                        == handle.id && self.roots@[k].size != 8) by {
                        assert(!has_id(self.roots@, handle.id));
                    }
                }
                return Err(HeapError::NoAllocationFound);
            },
        };
        if d.size != 8 {
            proof {
                assert(has_id(self.roots@, handle.id));
                let kd = choose|k2: int|
                    0 <= k2 < self.roots@.len() && #[trigger] self.roots@[k2] == d && d.id
                        == handle.id;
                assert(self.roots@[kd].id == handle.id && self.roots@[kd].size != 8);
            }
            return Err(HeapError::SizeMisalign);
        }
        let bytes = match self.get(handle) {
            Ok(b) => b,
            Err(_) => {
                proof {
                    assert(false);
                }
                return Err(HeapError::NoAllocationFound);
            },
        };
        proof {
            let k = choose|k: int|
                0 <= k < self.roots@.len() && (#[trigger] self.roots@[k]).id == handle.id
                    && bytes@ == self.payload_of(self.roots@[k]);
            let kd = choose|k2: int|
                0 <= k2 < self.roots@.len() && #[trigger] self.roots@[k2] == d && d.id == handle.id;
            assert(k == kd) by {
                if k != kd {
                    assert(ids_ok(self.roots@, self.next_id.0 as int));
                    assert(self.roots@[k].id.0 == self.roots@[kd].id.0);
                }
            }
            assert(self.roots@[k].size == 8);
            assert(bytes@.len() == 8) by {
                if self.roots@[k].heap is Eden {
                    assert(eden_roots_ok(
                        self.roots@,
                        self.young_start.0 as int,
                        self.young_current.0 as int,
                    ));
                } else {
                    assert(live_in_bounds(
                        self.roots@,
                        self.intermediate.start.0 as int,
                        self.intermediate.free_list.current.0 as int,
                    ));
                    assert(self.roots@[k].size <= pocket_extent(self.roots@[k]));
                }
            }
        }
        let v = vstd::bytes::u64_from_le_bytes(bytes.as_slice());
        Ok(v)
    }

    /// A manual major cycle: sweep the old region and compact it when
    /// fragmentation is high. Eden and every rooted handle are untouched;
    /// surviving old-region objects may move, their descriptors repointed.
    pub fn major(&mut self)
        requires
            old(self).wf(),
        ensures
            final(self).wf(),
            final(self).eden == old(self).eden,
            final(self).young_start == old(self).young_start,
            final(self).young_end == old(self).young_end,
            final(self).young_current == old(self).young_current,
            final(self).next_id == old(self).next_id,
            final(self).heap_size == old(self).heap_size,
            final(self).intermediate.model_with(final(self).roots@) == collect_model(
                old(self).intermediate.model_with(old(self).roots@),
            ),
            BumpHeap::preserved_into(*old(self), *final(self)),
            count_eden(final(self).roots@) == count_eden(old(self).roots@),
            forall|k: int|
                0 <= k < final(self).roots@.len() ==> has_id(
                    old(self).roots@,
                    (#[trigger] final(self).roots@[k]).id,
                ),
    {
        let ghost pre = *old(self);
        let ghost m = old(self).intermediate.model_with(old(self).roots@);
        let mut roots: Vec<RootedInner> = Vec::new();
        core::mem::swap(&mut self.roots, &mut roots);
        self.intermediate.collect(&mut roots);
        core::mem::swap(&mut self.roots, &mut roots);
        proof {
            self.lemma_after_collect(pre);
        }
    }

    /// After a collection of the old region, the heap as a whole is well
    /// formed again, every rooted descriptor survived with its payload, and
    /// the Eden population is unchanged.
    #[verifier::rlimit(80)]
    #[verifier::spinoff_prover]
    proof fn lemma_after_collect(self, pre: BumpHeap)
        requires
            pre.wf(),
            self.eden == pre.eden,
            self.young_start == pre.young_start,
            self.young_end == pre.young_end,
            self.young_current == pre.young_current,
            self.next_id == pre.next_id,
            self.heap_size == pre.heap_size,
            self.intermediate.wf(),
            self.intermediate.start == pre.intermediate.start,
            self.intermediate.size == pre.intermediate.size,
            self.intermediate.model_with(self.roots@) == collect_model(
                pre.intermediate.model_with(pre.roots@),
            ),
            model_wf(self.intermediate.model_with(self.roots@)),
        ensures
            self.wf(),
            BumpHeap::preserved_into(pre, self),
            count_eden(self.roots@) == count_eden(pre.roots@),
            forall|k: int|
                0 <= k < self.roots@.len() ==> has_id(pre.roots@, (#[trigger] self.roots@[k]).id),
    {
        reveal(BumpHeap::preserved_into);
        reveal(collect_model);
        let proots = pre.roots@;
        let m = pre.intermediate.model_with(proots);
        let m2 = self.intermediate.model_with(self.roots@);
        crate::sweep_heap::lemma_collect_correspondence(m);
        assert(m2 == collect_model(m));
        let nroots = self.roots@;
        assert(nroots == collect_model(m).roots);
        // each clause of wf transfers along the correspondence
        assert forall|k: int|
            0 <= k < nroots.len() && (#[trigger] nroots[k]).heap is Eden implies pre.young_start.0
            <= nroots[k].value.0 && nroots[k].value.0 + nroots[k].size
            <= pre.young_current.0 by {
            assert(crate::sweep_heap::some_origin(m, k));
            let j = choose|j: int|
                #[trigger] crate::sweep_heap::migrated_pair(m, collect_model(m), j, k);
            assert(proots[j].heap is Eden && nroots[k] == proots[j]);
        }
        assert forall|i: int, j2: int|
            #![trigger nroots[i].id, nroots[j2].id]
            0 <= i < j2 < nroots.len() implies nroots[i].id.0 != nroots[j2].id.0 by {
            assert(crate::sweep_heap::ordered_origins(m, i, j2));
            let (a, b) = choose|a: int, b: int|
                #![trigger crate::sweep_heap::migrated_pair(m, collect_model(m), a, i), crate::sweep_heap::migrated_pair(m, collect_model(m), b, j2)]
                a < b && crate::sweep_heap::migrated_pair(m, collect_model(m), a, i)
                    && crate::sweep_heap::migrated_pair(m, collect_model(m), b, j2);
            assert(proots[a].id.0 != proots[b].id.0);
        }
        assert forall|k: int| 0 <= k < nroots.len() implies 1 <= (#[trigger] nroots[k]).id.0
            < self.next_id.0 by {
            assert(crate::sweep_heap::some_origin(m, k));
            let j = choose|j: int|
                #[trigger] crate::sweep_heap::migrated_pair(m, collect_model(m), j, k);
            assert(1 <= proots[j].id.0 < pre.next_id.0);
        }
        assert(self.wf());
        // every rooted descriptor survives with its payload intact
        assert forall|j: int|
            0 <= j < proots.len() && (#[trigger] proots[j]).rooted implies exists|k: int|
                0 <= k < nroots.len() && (#[trigger] nroots[k]).id == proots[j].id && nroots[
            k].rooted && nroots[k].size == proots[j].size && self.payload_of(nroots[k])
                == pre.payload_of(proots[j]) by {
            assert(!sweep_dead(proots[j]));
            assert(crate::sweep_heap::some_target(m, j));
            let k = choose|k: int|
                #[trigger] crate::sweep_heap::migrated_pair(m, collect_model(m), j, k);
            assert(nroots[k].id == proots[j].id && nroots[k].rooted && nroots[k].size == proots[
            j].size);
            if proots[j].heap is Eden {
                assert(nroots[k] == proots[j]);
                assert(self.payload_of(nroots[k]) == pre.payload_of(proots[j]));
            } else {
                assert(self.payload_of(nroots[k]) == pre.payload_of(proots[j]));
            }
        }
        // the Eden population is untouched
        crate::sweep_heap::lemma_collect_count(m);
        lemma_count_eden_pointwise(collect_model(m).roots, crate::sweep_heap::sweep_keep(proots));
        lemma_count_eden_sweep(proots);
        // no collection invents a descriptor
        assert forall|k: int| 0 <= k < nroots.len() implies has_id(
            proots,
            (#[trigger] nroots[k]).id,
        ) by {
            assert(crate::sweep_heap::some_origin(m, k));
            let j = choose|j: int|
                #[trigger] crate::sweep_heap::migrated_pair(m, collect_model(m), j, k);
            assert(proots[j].id == nroots[k].id);
        }
    }
}

} // verus!
