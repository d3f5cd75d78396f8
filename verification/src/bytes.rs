//! Little-endian integers inside a byte store, and alignment of offsets.

use crate::implicit_forest::is_p2;
use vstd::bytes::{
    spec_u32_from_le_bytes, spec_u32_to_le_bytes, spec_u64_from_le_bytes, spec_u64_to_le_bytes,
    u32_from_le_bytes, u32_to_le_bytes, u64_from_le_bytes, u64_to_le_bytes,
    lemma_auto_spec_u32_to_from_le_bytes, lemma_auto_spec_u64_to_from_le_bytes,
};
use vstd::prelude::*;
use vstd::slice::slice_subrange;

verus! {

/// `store` with the bytes from `at` on replaced by `part`.
pub open spec fn splice(store: Seq<u8>, at: int, part: Seq<u8>) -> Seq<u8> {
    store.subrange(0, at) + part + store.subrange(at + part.len(), store.len() as int)
}

/// The 64-bit little-endian integer at `at`.
pub open spec fn le64_at(store: Seq<u8>, at: int) -> u64 {
    spec_u64_from_le_bytes(store.subrange(at, at + 8))
}

/// The 32-bit little-endian integer at `at`.
pub open spec fn le32_at(store: Seq<u8>, at: int) -> u32 {
    spec_u32_from_le_bytes(store.subrange(at, at + 4))
}

/// `count` bytes that are all zero.
pub open spec fn zeros(count: int) -> Seq<u8> {
    Seq::new(count as nat, |k: int| 0u8)
}

/// The little-endian bytes of the 64-bit integer 0 are zeros.
pub proof fn lemma_zero_le64()
    ensures
        spec_u64_to_le_bytes(0) == zeros(8),
{
    vstd::bytes::spec_u64_to_le_bytes_to_open(0);
    assert(0u64 & 0xff == 0 && (0u64 >> 8) & 0xff == 0 && (0u64 >> 16) & 0xff == 0 && (0u64 >> 24)
        & 0xff == 0 && (0u64 >> 32) & 0xff == 0 && (0u64 >> 40) & 0xff == 0 && (0u64 >> 48) & 0xff
        == 0 && (0u64 >> 56) & 0xff == 0) by (bit_vector);
    assert(vstd::bytes::spec_u64_to_le_bytes_open(0) =~= zeros(8));
}

/// A splice keeps the length, puts `part` in place and leaves every byte
/// outside it alone.
pub proof fn lemma_splice(store: Seq<u8>, at: int, part: Seq<u8>)
    requires
        0 <= at,
        at + part.len() <= store.len(),
    ensures
        splice(store, at, part).len() == store.len(),
        splice(store, at, part).subrange(at, at + part.len()) == part,
        forall|k: int|
            0 <= k < store.len() && !(at <= k < at + part.len()) ==> #[trigger] splice(
                store,
                at,
                part,
            )[k] == store[k],
        forall|k: int| at <= k < at + part.len() ==> #[trigger] splice(store, at, part)[k] == part[k - at],
{
    assert(splice(store, at, part).subrange(at, at + part.len()) =~= part);
}

/// A range that a splice does not touch reads as before.
pub proof fn lemma_splice_apart(store: Seq<u8>, at: int, part: Seq<u8>, lo: int, hi: int)
    requires
        0 <= at,
        at + part.len() <= store.len(),
        0 <= lo <= hi <= store.len(),
        hi <= at || at + part.len() <= lo,
    ensures
        splice(store, at, part).subrange(lo, hi) == store.subrange(lo, hi),
{
    lemma_splice(store, at, part);
    assert(splice(store, at, part).subrange(lo, hi) =~= store.subrange(lo, hi));
}

/// Lends the bytes `from .. to` of a slice for writing.
///
/// This is the range form of the standard library's mutable slice indexing,
/// `store[from..to]` through `IndexMut`. It is taken on trust that the
/// borrowed part holds those bytes, that it keeps its length while it is
/// lent, and that the slice afterwards holds what was written to the part
/// and is unchanged outside it. The indexing panics where the range does not
/// lie in the slice; the precondition rules that out.
#[verifier::external_body]
pub(crate) fn range_mut<'a>(store: &'a mut [u8], from: usize, to: usize) -> (r: &'a mut [u8])
    requires
        from <= to <= old(store)@.len(),
    ensures
        r@ == old(store)@.subrange(from as int, to as int),
        final(r)@.len() == r@.len(),
        final(store)@ == splice(old(store)@, from as int, final(r)@),
{
    &mut store[from..to]
}

/// Reads the 64-bit little-endian integer at `at`.
pub fn read_u64(store: &[u8], at: usize) -> (r: u64)
    requires
        at + 8 <= store@.len(),
    ensures
        r == le64_at(store@, at as int),
{
    let _ = store.len();
    u64_from_le_bytes(slice_subrange(store, at, at + 8))
}

/// Reads the 32-bit little-endian integer at `at`.
pub fn read_u32(store: &[u8], at: usize) -> (r: u32)
    requires
        at + 4 <= store@.len(),
    ensures
        r == le32_at(store@, at as int),
{
    let _ = store.len();
    u32_from_le_bytes(slice_subrange(store, at, at + 4))
}

/// Overwrites the bytes from `at` on with `part`.
pub fn write_bytes(store: &mut Vec<u8>, at: usize, part: &[u8])
    requires
        at + part@.len() <= old(store)@.len(),
    ensures
        final(store)@ == splice(old(store)@, at as int, part@),
        final(store)@.len() == old(store)@.len(),
{
    let n = part.len();
    let _ = store.len();
    let mut i: usize = 0;
    while i < n
        invariant
            i <= n,
            n == part@.len(),
            at + n <= store@.len(),
            store@.len() <= usize::MAX,
            store@.len() == old(store)@.len(),
            forall|k: int| 0 <= k < store@.len() && !(at <= k < at + i) ==> store@[k] == old(store)@[k],
            forall|k: int| at <= k < at + i ==> store@[k] == part@[k - at],
        decreases n - i,
    {
        store[at + i] = part[i];
        i += 1;
    }
    proof {
        lemma_splice(old(store)@, at as int, part@);
        assert(store@ =~= splice(old(store)@, at as int, part@));
    }
}

/// Overwrites the front of `target` with `part`.
pub fn write_front(target: &mut [u8], part: &[u8])
    requires
        part@.len() <= old(target)@.len(),
    ensures
        final(target)@ == splice(old(target)@, 0, part@),
        final(target)@.len() == old(target)@.len(),
{
    let n = part.len();
    let mut k: usize = 0;
    while k < n
        invariant
            k <= n,
            n == part@.len(),
            n <= target@.len(),
            target@.len() == old(target)@.len(),
            forall|x: int| 0 <= x < k ==> target@[x] == part@[x],
            forall|x: int| k <= x < target@.len() ==> target@[x] == old(target)@[x],
        decreases n - k,
    {
        target[k] = part[k];
        k += 1;
    }
    proof {
        lemma_splice(old(target)@, 0, part@);
        assert(target@ =~= splice(old(target)@, 0, part@));
    }
}

/// Writes `value` as a 64-bit little-endian integer at `at`.
pub fn write_u64(store: &mut Vec<u8>, at: usize, value: u64)
    requires
        at + 8 <= old(store)@.len(),
    ensures
        final(store)@ == splice(old(store)@, at as int, spec_u64_to_le_bytes(value)),
        final(store)@.len() == old(store)@.len(),
        le64_at(final(store)@, at as int) == value,
{
    let encoded = u64_to_le_bytes(value);
    write_bytes(store, at, encoded.as_slice());
    proof {
        lemma_auto_spec_u64_to_from_le_bytes();
        lemma_splice(old(store)@, at as int, spec_u64_to_le_bytes(value));
    }
}

/// Writes `value` as a 32-bit little-endian integer at `at`.
pub fn write_u32(store: &mut Vec<u8>, at: usize, value: u32)
    requires
        at + 4 <= old(store)@.len(),
    ensures
        final(store)@ == splice(old(store)@, at as int, spec_u32_to_le_bytes(value)),
        final(store)@.len() == old(store)@.len(),
        le32_at(final(store)@, at as int) == value,
{
    let encoded = u32_to_le_bytes(value);
    write_bytes(store, at, encoded.as_slice());
    proof {
        lemma_auto_spec_u32_to_from_le_bytes();
        lemma_splice(old(store)@, at as int, spec_u32_to_le_bytes(value));
    }
}

/// Appends `count` zero bytes.
pub fn extend_zeroed(store: &mut Vec<u8>, count: usize)
    requires
        old(store)@.len() + count <= usize::MAX,
    ensures
        final(store)@ == old(store)@ + Seq::new(count as nat, |k: int| 0u8),
{
    let mut i: usize = 0;
    while i < count
        invariant
            i <= count,
            store@.len() == old(store)@.len() + i,
            old(store)@.len() + count <= usize::MAX,
            forall|k: int| 0 <= k < old(store)@.len() ==> store@[k] == old(store)@[k],
            forall|k: int| old(store)@.len() <= k < store@.len() ==> store@[k] == 0u8,
        decreases count - i,
    {
        store.push(0u8);
        i += 1;
    }
    assert(store@ =~= old(store)@ + Seq::new(count as nat, |k: int| 0u8));
}

/// Eight, the alignment of a block, is a power of two.
pub proof fn lemma_eight_is_p2()
    ensures
        is_p2(8),
{
    assert(is_p2(1));
    assert(is_p2(2));
    assert(is_p2(4));
}

/// The greatest multiple of `align` that is not above `addr`; `addr`
/// itself for an alignment of 0.
pub open spec fn aligned_down(addr: int, align: int) -> int {
    if align == 0 {
        addr
    } else {
        addr - addr % align
    }
}

/// The least multiple of `align` that is not below `addr`; `addr` itself
/// for an alignment of 0.
pub open spec fn aligned_up(addr: int, align: int) -> int {
    if align == 0 {
        addr
    } else {
        aligned_down(addr + align - 1, align)
    }
}

/// Aligns downwards: the greatest multiple of `align` that is not above
/// `addr`. The alignment is a power of two; an alignment of 0 leaves `addr`
/// as it is.
pub fn align_down(addr: usize, align: usize) -> (r: usize)
    requires
        align == 0 || is_p2(align as nat),
    ensures
        r == aligned_down(addr as int, align as int),
        align == 0 ==> r == addr,
        align != 0 ==> r <= addr && r % align == 0 && addr - r < align,
{
    if align == 0 {
        addr
    } else {
        let rest = addr % align;
        proof {
            vstd::arithmetic::div_mod::lemma_fundamental_div_mod(addr as int, align as int);
            vstd::arithmetic::div_mod::lemma_mod_multiples_basic((addr / align) as int, align as int);
            assert(addr - rest == align * (addr / align)) by (nonlinear_arith)
                requires
                    addr == align * (addr / align) + rest,
            ;
            assert(align * (addr / align) == (addr / align) * align) by (nonlinear_arith);
        }
        addr - rest
    }
}

/// Aligns upwards: the least multiple of `align` that is not below `addr`.
/// The alignment is a power of two; an alignment of 0 leaves `addr` as it
/// is.
pub fn align_up(addr: usize, align: usize) -> (r: usize)
    requires
        align == 0 || is_p2(align as nat),
        addr + align <= usize::MAX,
    ensures
        r == aligned_up(addr as int, align as int),
        align == 0 ==> r == addr,
        align != 0 ==> r >= addr && r % align == 0 && r - addr < align,
{
    if align == 0 {
        addr
    } else {
        let r = align_down(addr + align - 1, align);
        proof {
            if r < addr {
                // Both `r` and `r + align` are multiples of `align`, and `addr - 1`
                // lies at least `align` above `r`'s successor multiple.
                assert(addr + align - 1 - r < align);
            }
        }
        r
    }
}

} // verus!
