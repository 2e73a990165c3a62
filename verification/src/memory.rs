//! Typed integer wrappers for heap addresses and allocation names, and the
//! padding helper used when an arena is sized to a page boundary.

use vstd::prelude::*;
use vstd::pervasive::VecAdditionalExecFns;

mod alloc_id;
mod heap_pointer;

pub use alloc_id::AllocId;
pub use heap_pointer::HeapPointer;

verus! {

/// `data` with `src` written at offset `off`, all other bytes unchanged.
#[verifier::opaque]
pub open spec fn spliced(data: Seq<u8>, off: int, src: Seq<u8>) -> Seq<u8> {
    Seq::new(
        data.len(),
        |x: int|
            if off <= x < off + src.len() {
                src[x - off]
            } else {
                data[x]
            },
    )
}

/// Reading a write back gives the bytes written.
pub proof fn lemma_spliced_readback(data: Seq<u8>, off: int, src: Seq<u8>)
    requires
        0 <= off,
        off + src.len() <= data.len(),
    ensures
        spliced(data, off, src).len() == data.len(),
        spliced(data, off, src).subrange(off, off + src.len() as int) == src,
{
    reveal(spliced);
    assert(spliced(data, off, src).subrange(off, off + src.len() as int) =~= src);
}

/// A write leaves every byte range it does not touch as it was.
pub proof fn lemma_spliced_elsewhere(data: Seq<u8>, off: int, src: Seq<u8>, lo: int, hi: int)
    requires
        0 <= lo <= hi <= data.len(),
        hi <= off || off + src.len() <= lo,
    ensures
        spliced(data, off, src).len() == data.len(),
        spliced(data, off, src).subrange(lo, hi) == data.subrange(lo, hi),
{
    reveal(spliced);
    assert(spliced(data, off, src).subrange(lo, hi) =~= data.subrange(lo, hi));
}

/// A zeroed byte vector of the given length.
pub fn alloc_zeroed(size: usize) -> (r: Vec<u8>)
    ensures
        r@.len() == size,
        forall|x: int| 0 <= x < size ==> r@[x] == 0u8,
{
    let mut r: Vec<u8> = Vec::new();
    let mut k: usize = 0;
    while k < size
        invariant
            k <= size,
            r@.len() == k,
            forall|x: int| 0 <= x < k ==> r@[x] == 0u8,
        decreases size - k,
    {
        r.push(0u8);
        k = k + 1;
    }
    r
}

/// Copy of the bytes `[off, off + len)` of `data`.
pub fn read_bytes(data: &Vec<u8>, off: usize, len: usize) -> (r: Vec<u8>)
    requires
        off + len <= data.len(),
    ensures
        r@ == data@.subrange(off as int, off as int + len as int),
{
    let mut r: Vec<u8> = Vec::new();
    let mut k: usize = 0;
    while k < len
        invariant
            k <= len,
            off + len <= data.len(),
            r@ == data@.subrange(off as int, off as int + k as int),
        decreases len - k,
    {
        r.push(data[off + k]);
        k = k + 1;
        proof {
            assert(data@.subrange(off as int, off as int + k as int) =~= data@.subrange(
                off as int,
                off as int + (k - 1) as int,
            ).push(data@[off + k - 1]));
        }
    }
    r
}

/// Write all of `src` into `data` at offset `off`.
pub fn write_bytes(data: &mut Vec<u8>, off: usize, src: &Vec<u8>)
    requires
        off + src.len() <= old(data).len(),
    ensures
        final(data)@ == spliced(old(data)@, off as int, src@),
{
    let len = src.len();
    let mut k: usize = 0;
    while k < len
        invariant
            k <= len,
            off + len <= data.len(),
            data@.len() == old(data)@.len(),
            src@.len() == len,
            forall|x: int|
                0 <= x < data@.len() ==> #[trigger] data@[x] == if off <= x < off + k {
                    src@[x - off]
                } else {
                    old(data)@[x]
                },
        decreases len - k,
    {
        data.set(off + k, src[k]);
        k = k + 1;
    }
    proof {
        reveal(spliced);
        assert(data@ =~= spliced(old(data)@, off as int, src@));
    }
}

/// Bytes that must be added to `size` so that the total is a multiple of
/// `align`.
pub fn padding_for(size: usize, align: usize) -> (r: usize)
    requires
        align >= 1,
    ensures
        r < align,
        (size + r) % (align as int) == 0,
{
    let rem = size % align;
    if rem == 0 {
        0
    } else {
        proof {
            vstd::arithmetic::div_mod::lemma_add_mod_noop(
                size as int,
                (align - rem) as int,
                align as int,
            );
            vstd::arithmetic::div_mod::lemma_small_mod((align - rem) as nat, align as nat);
            vstd::arithmetic::div_mod::lemma_mod_self_0(align as int);
        }
        align - rem
    }
}

} // verus!
