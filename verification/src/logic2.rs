//! Packing whole vectors of units into bytes and back.

use crate::logic::{
    bytes_for, field_at, field_set, get_unit, lemma_field_set, lemma_packed_bounds,
    lemma_position, packed_len, per_byte, raw_at, shift_of, tail_clean, unit_at, unit_mask,
    units_per_byte, unpack as units_in, Logic,
};
use itertools::Itertools;
use vstd::prelude::*;

verus! {

/// The number of units of a value.
#[derive(Debug, Copy, Clone, Hash, PartialEq, Eq, PartialOrd, Ord, Structural)]
pub struct DataWidth(pub u32);

/// The number of bytes that a value of `width` units takes.
pub fn bytes<L: Logic>(width: DataWidth) -> (r: usize)
    ensures
        r == packed_len(width.0 as nat, L::spec_bits()),
{
    bytes_for::<L>(width.0 as usize)
}

/// Chunk `k` of a sequence that is cut into chunks of `size` items: the
/// last chunk is shorter where the items do not fill it.
pub open spec fn chunk_of(items: Seq<u8>, size: int, k: int) -> Seq<u8> {
    items.subrange(
        k * size,
        if (k + 1) * size <= items.len() {
            (k + 1) * size
        } else {
            items.len() as int
        },
    )
}

/// Cuts bit patterns into chunks of `size` with `itertools`' `chunks`.
///
/// Taken on trust, as the crate documents it: every chunk holds `size`
/// items, in their order, and the last chunk is shorter where there are not
/// enough items; there is no empty chunk. The crate panics on a size of 0,
/// which the precondition rules out.
#[verifier::external_body]
fn chunked(items: &[u8], size: usize) -> (r: Vec<Vec<u8>>)
    requires
        size > 0,
    ensures
        r@.len() == (items@.len() + size - 1) / (size as int),
        forall|k: int| 0 <= k < r@.len() ==> (#[trigger] r@[k])@ == chunk_of(items@, size as int, k),
{
    items.iter().copied().chunks(size).into_iter().map(|chunk| chunk.collect()).collect()
}

/// Packs one chunk of bit patterns into a byte, the first at the bottom.
fn pack_byte(chunk: &Vec<u8>, bits: u8) -> (byte: u8)
    requires
        bits == 1 || bits == 2 || bits == 4,
        1 <= chunk@.len() <= per_byte(bits),
        forall|j: int| 0 <= j < chunk@.len() ==> chunk@[j] <= unit_mask(bits),
    ensures
        forall|j: int|
            0 <= j < chunk@.len() ==> field_at(byte, bits, (j * bits) as u8) == #[trigger] chunk@[j],
        chunk@.len() < per_byte(bits) ==> byte >> ((chunk@.len() * bits) as u8) == 0,
{
    let mask: u8 = if bits == 1 {
        1
    } else if bits == 2 {
        3
    } else {
        15
    };
    let mut byte: u8 = 0;
    let mut j: usize = 0;
    proof {
        assert(forall|s: u8| s < 8 ==> #[trigger] (0u8 >> s) == 0) by (bit_vector);
    }
    while j < chunk.len()
        invariant
            bits == 1 || bits == 2 || bits == 4,
            mask == unit_mask(bits),
            j <= chunk@.len() <= per_byte(bits),
            forall|k: int| 0 <= k < chunk@.len() ==> chunk@[k] <= unit_mask(bits),
            forall|k: int|
                0 <= k < j ==> field_at(byte, bits, (k * bits) as u8) == #[trigger] chunk@[k],
            j < per_byte(bits) ==> byte >> ((j * bits) as u8) == 0,
        decreases chunk@.len() - j,
    {
        let shift: u8 = (j as u8) * bits;
        let ghost before = byte;
        byte = (byte & !(mask << shift)) | (chunk[j] << shift);
        proof {
            assert(byte == field_set(before, bits, shift, chunk@[j as int]));
            assert forall|k: int| 0 <= k < j + 1 implies field_at(byte, bits, (k * bits) as u8)
                == #[trigger] chunk@[k] by {
                lemma_field_set(before, bits, shift, chunk@[j as int], (k * bits) as u8);
            }
            if j + 1 < per_byte(bits) {
                let next = ((j + 1) * bits) as u8;
                lemma_field_set(before, bits, shift, chunk@[j as int], next);
                let value = chunk@[j as int];
                if bits == 1 {
                    assert(shift < 7 && next == shift + 1 && value <= 1 && before >> shift == 0
                        ==> ((before & !(1u8 << shift)) | (value << shift)) >> next == 0)
                        by (bit_vector);
                } else if bits == 2 {
                    assert(shift < 6 && next == shift + 2 && value <= 3 && before >> shift == 0
                        ==> ((before & !(3u8 << shift)) | (value << shift)) >> next == 0)
                        by (bit_vector);
                } else {
                    assert(shift < 4 && next == shift + 4 && value <= 15 && before >> shift == 0
                        ==> ((before & !(15u8 << shift)) | (value << shift)) >> next == 0)
                        by (bit_vector);
                }
            }
        }
        j += 1;
    }
    byte
}

/// Packs `logics` into the front of `output`, the first unit at the bottom
/// of the first byte. What lies behind the packed bytes is left alone.
pub fn pack<L: Logic>(logics: &[L], output: &mut [u8])
    requires
        old(output)@.len() >= packed_len(logics@.len(), L::spec_bits()),
    ensures
        final(output)@.len() == old(output)@.len(),
        units_in::<L>(final(output)@, logics@.len()) == logics@,
        tail_clean(
            final(output)@.subrange(0, packed_len(logics@.len(), L::spec_bits()) as int),
            L::spec_bits(),
            logics@.len(),
        ),
        forall|k: int|
            packed_len(logics@.len(), L::spec_bits()) <= k < old(output)@.len() ==> final(output)@[k] == old(output)@[k],
{
    let bits = L::bits();
    let per = units_per_byte::<L>();
    let n = logics.len();
    proof {
        L::lemma_bits();
        lemma_packed_bounds(n as nat, bits, n as int);
    }
    let mut patterns: Vec<u8> = Vec::new();
    let mut i: usize = 0;
    while i < n
        invariant
            i <= n,
            n == logics@.len(),
            patterns@.len() == i,
            forall|k: int| 0 <= k < i ==> patterns@[k] == (#[trigger] logics@[k]).spec_to_bits(),
        decreases n - i,
    {
        patterns.push(logics[i].to_bits());
        i += 1;
    }
    let chunks = chunked(patterns.as_slice(), per);
    let count = chunks.len();
    proof {
        assert(count == packed_len(n as nat, bits));
    }
    let mut at: usize = 0;
    while at < count
        invariant
            at <= count,
            bits == L::spec_bits(),
            bits == 1 || bits == 2 || bits == 4,
            per == per_byte(bits),
            n == logics@.len(),
            patterns@.len() == n,
            count == chunks@.len(),
            count == packed_len(n as nat, bits),
            count <= output@.len(),
            output@.len() == old(output)@.len(),
            forall|k: int| 0 <= k < n ==> patterns@[k] == (#[trigger] logics@[k]).spec_to_bits(),
            forall|k: int|
                0 <= k < count ==> (#[trigger] chunks@[k])@ == chunk_of(patterns@, per as int, k),
            forall|k: int| at <= k < output@.len() ==> output@[k] == old(output)@[k],
            forall|u: int|
                0 <= u < n && u / (per as int) < at ==> #[trigger] raw_at(output@, bits, u)
                    == patterns@[u],
            at > 0 && at == count && (n as int) % (per as int) != 0 ==> output@[count - 1] >> shift_of(
                n as int,
                bits,
            ) == 0,
        decreases count - at,
    {
        let chunk = &chunks[at];
        proof {
            lemma_packed_bounds(n as nat, bits, n as int);
            assert(chunk@ == chunk_of(patterns@, per as int, at as int));
            assert(at * per < n) by (nonlinear_arith)
                requires
                    at < count,
                    count == (n + per - 1) / (per as int),
                    per > 0,
            ;
            assert((at + 1) * per == at * per + per) by (nonlinear_arith);
            assert forall|j: int| 0 <= j < chunk@.len() implies chunk@[j] <= unit_mask(bits) by {
                L::lemma_encoding(logics@[at * per + j]);
            }
        }
        let byte = pack_byte(chunk, bits);
        let ghost before = output@;
        output[at] = byte;
        proof {
            assert forall|u: int| 0 <= u < n && u / (per as int) < at + 1 implies #[trigger] raw_at(
                output@,
                bits,
                u,
            ) == patterns@[u] by {
                lemma_position(u, bits);
                if u / (per as int) == at {
                    let j = u % (per as int);
                    assert(u == at * per + j);
                    assert(chunk@[j] == patterns@[u]);
                    assert(shift_of(u, bits) == (j * bits) as u8);
                } else {
                    assert(raw_at(before, bits, u) == patterns@[u]);
                }
            }
            if at + 1 == count && (n as int) % (per as int) != 0 {
                lemma_position(n as int, bits);
                assert(chunk@.len() == (n as int) % (per as int));
            }
        }
        at += 1;
    }
    proof {
        assert forall|u: int| 0 <= u < n implies unit_at::<L>(output@, u) == logics@[u] by {
            lemma_packed_bounds(n as nat, bits, u);
            L::lemma_encoding(logics@[u]);
        }
        assert(units_in::<L>(output@, n as nat) =~= logics@);
        lemma_packed_bounds(n as nat, bits, n as int);
    }
}

/// Unpacks `width` units out of `data`, or as many as `data` holds where
/// that is fewer.
pub fn unpack<L: Logic>(width: DataWidth, data: &[u8]) -> (r: Vec<L>)
    ensures
        r@.len() == if width.0 <= data@.len() * per_byte(L::spec_bits()) {
            width.0 as int
        } else {
            (data@.len() * per_byte(L::spec_bits())) as int
        },
        forall|k: int| 0 <= k < r@.len() ==> r@[k] == unit_at::<L>(data@, k),
{
    let per = units_per_byte::<L>();
    let wanted = width.0 as usize;
    let len = data.len();
    proof {
        L::lemma_bits();
    }
    let mut units: Vec<L> = Vec::new();
    let mut i: usize = 0;
    while i < wanted && i / per < len
        invariant
            i <= wanted,
            per == per_byte(L::spec_bits()),
            len == data@.len(),
            i <= len * per,
            units@.len() == i,
            forall|k: int| 0 <= k < i ==> units@[k] == unit_at::<L>(data@, k),
        decreases wanted - i,
    {
        proof {
            assert(i + 1 <= len * per) by (nonlinear_arith)
                requires
                    (i as int) / (per as int) < len,
                    per > 0,
                    i >= 0,
            ;
        }
        units.push(get_unit::<L>(data, i));
        i += 1;
    }
    proof {
        if i < wanted {
            assert(i >= len * per) by (nonlinear_arith)
                requires
                    (i as int) / (per as int) >= len,
                    per > 0,
                    i >= 0,
            ;
        }
    }
    units
}

} // verus!
