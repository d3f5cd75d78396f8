//! Multi-valued logic units and their bit-packed containers.
//!
//! A unit takes 1, 2 or 4 bits. Units share a byte starting at its lowest
//! bits: unit `i` of a packed vector lives in byte `i / per_byte`, at bit
//! `(i % per_byte) * bits`.

use crate::error::Error;
use core::marker::PhantomData;
use vstd::prelude::*;

verus! {

/// Two-valued logic: one bit per unit, eight units per byte.
#[derive(Debug, Clone, Copy, PartialEq, Eq, Structural)]
pub enum Two {
    Zero,
    One,
}

/// Four-valued logic: two bits per unit, four units per byte.
#[derive(Debug, Clone, Copy, PartialEq, Eq, Structural)]
pub enum Four {
    Zero,
    One,
    Unknown,
    HighImpedance,
}

/// Nine-valued logic (IEEE 1164): four bits per unit, two units per byte.
#[derive(Debug, Clone, Copy, PartialEq, Eq, Structural)]
pub enum Nine {
    ZeroStrong,
    OneStrong,
    ZeroWeak,
    OneWeak,
    UnknownStrong,
    UnknownWeak,
    ZeroUnknown,
    OneUnknown,
    HighImpedance,
}

/// A unit could not be narrowed to two-valued logic.
#[derive(Debug, Clone, Copy, PartialEq, Eq, Structural)]
pub struct LogicConversionFailed;

/// The mask that selects one unit of `bits` bits at the bottom of a byte.
pub open spec fn unit_mask(bits: u8) -> u8 {
    if bits == 1 {
        1
    } else if bits == 2 {
        3
    } else {
        15
    }
}

/// How many units of `bits` bits share a byte.
pub open spec fn per_byte(bits: u8) -> nat {
    if bits == 1 {
        8
    } else if bits == 2 {
        4
    } else {
        2
    }
}

/// The number of bytes that hold `width` units of `bits` bits.
pub open spec fn packed_len(width: nat, bits: u8) -> nat {
    (width + per_byte(bits) - 1) as nat / per_byte(bits)
}

/// The unit stored `shift` bits above the bottom of `byte`.
pub open spec fn field_at(byte: u8, bits: u8, shift: u8) -> u8 {
    (byte >> shift) & unit_mask(bits)
}

/// `byte` with the unit `shift` bits above its bottom replaced by `value`.
pub open spec fn field_set(byte: u8, bits: u8, shift: u8, value: u8) -> u8 {
    (byte & !(unit_mask(bits) << shift)) | (value << shift)
}

/// The bit position of unit `index` inside its byte.
pub open spec fn shift_of(index: int, bits: u8) -> u8 {
    ((index % per_byte(bits) as int) * bits) as u8
}

/// The raw bit pattern of unit `index` of a packed vector.
pub open spec fn raw_at(bytes: Seq<u8>, bits: u8, index: int) -> u8 {
    field_at(bytes[index / per_byte(bits) as int], bits, shift_of(index, bits))
}

/// Whether the last byte of a packed vector of `width` units carries nothing
/// above its last unit.
pub open spec fn tail_clean(bytes: Seq<u8>, bits: u8, width: nat) -> bool {
    width % per_byte(bits) != 0 ==> bytes[width as int / per_byte(bits) as int] >> shift_of(
        width as int,
        bits,
    ) == 0
}

/// A logic variant: how its units are encoded in `bits()` bits.
pub trait Logic: Copy + Sized {
    /// Bits per unit: 1, 2 or 4.
    spec fn spec_bits() -> u8;

    /// The bit pattern of a unit.
    spec fn spec_to_bits(self) -> u8;

    /// The unit that a bit pattern stands for. Only the low `bits()` bits count.
    spec fn spec_from_bits(bits: u8) -> Self;

    /// Whether the variant defines the pattern, rather than clamping it.
    spec fn spec_defined(bits: u8) -> bool;

    /// The unit that a fresh vector is filled with.
    spec fn spec_empty() -> Self;

    fn bits() -> (r: u8)
        ensures
            r == Self::spec_bits(),
    ;

    fn to_bits(self) -> (r: u8)
        ensures
            r == self.spec_to_bits(),
    ;

    fn from_bits(bits: u8) -> (r: Self)
        ensures
            r == Self::spec_from_bits(bits),
    ;

    fn defined(bits: u8) -> (r: bool)
        ensures
            r == Self::spec_defined(bits),
    ;

    fn empty() -> (r: Self)
        ensures
            r == Self::spec_empty(),
    ;

    /// The prefix that marks the variant in printed values.
    spec fn spec_format_prefix() -> Seq<char>;

    /// The prefix that marks the variant in printed values.
    fn format_prefix() -> (r: &'static str)
        ensures
            r@ == Self::spec_format_prefix(),
    ;

    /// A unit takes 1, 2 or 4 bits.
    proof fn lemma_bits()
        ensures
            Self::spec_bits() == 1 || Self::spec_bits() == 2 || Self::spec_bits() == 4,
    ;

    /// The all-zero pattern is a unit of the variant.
    proof fn lemma_zero()
        ensures
            Self::spec_from_bits(0).spec_to_bits() == 0,
    ;

    /// Encoding and decoding agree, and a pattern fits in the unit's bits.
    proof fn lemma_encoding(unit: Self)
        ensures
            unit.spec_to_bits() <= unit_mask(Self::spec_bits()),
            Self::spec_from_bits(unit.spec_to_bits()) == unit,
            Self::spec_defined(unit.spec_to_bits()),
    ;
}

impl Logic for Two {
    open spec fn spec_bits() -> u8 {
        1
    }

    open spec fn spec_to_bits(self) -> u8 {
        match self {
            Two::Zero => 0,
            Two::One => 1,
        }
    }

    open spec fn spec_from_bits(bits: u8) -> Self {
        if bits & 1 == 0 {
            Two::Zero
        } else {
            Two::One
        }
    }

    open spec fn spec_defined(bits: u8) -> bool {
        bits <= 1
    }

    open spec fn spec_empty() -> Self {
        Two::Zero
    }

    open spec fn spec_format_prefix() -> Seq<char> {
        seq!['0', 'b']
    }

    fn bits() -> (r: u8) {
        1
    }

    fn to_bits(self) -> (r: u8) {
        match self {
            Two::Zero => 0,
            Two::One => 1,
        }
    }

    fn from_bits(bits: u8) -> (r: Self) {
        if bits & 1 == 0 {
            Two::Zero
        } else {
            Two::One
        }
    }

    fn defined(bits: u8) -> (r: bool) {
        bits <= 1
    }

    fn empty() -> (r: Self) {
        Two::Zero
    }

    fn format_prefix() -> (r: &'static str) {
        proof {
            reveal_strlit("0b");
        }
        let r = "0b";
        assert(r@ =~= seq!['0', 'b']);
        r
    }

    proof fn lemma_bits() {
    }

    proof fn lemma_zero() {
        assert(0u8 & 1 == 0) by (bit_vector);
    }

    proof fn lemma_encoding(unit: Self) {
        assert(0u8 & 1 == 0 && 1u8 & 1 == 1) by (bit_vector);
    }
}

impl Logic for Four {
    open spec fn spec_bits() -> u8 {
        2
    }

    open spec fn spec_to_bits(self) -> u8 {
        match self {
            Four::Zero => 0,
            Four::One => 1,
            Four::Unknown => 2,
            Four::HighImpedance => 3,
        }
    }

    open spec fn spec_from_bits(bits: u8) -> Self {
        let low = bits & 3;
        if low == 0 {
            Four::Zero
        } else if low == 1 {
            Four::One
        } else if low == 2 {
            Four::Unknown
        } else {
            Four::HighImpedance
        }
    }

    open spec fn spec_defined(bits: u8) -> bool {
        bits <= 3
    }

    open spec fn spec_empty() -> Self {
        Four::Zero
    }

    open spec fn spec_format_prefix() -> Seq<char> {
        seq!['0', 'q']
    }

    fn bits() -> (r: u8) {
        2
    }

    fn to_bits(self) -> (r: u8) {
        match self {
            Four::Zero => 0,
            Four::One => 1,
            Four::Unknown => 2,
            Four::HighImpedance => 3,
        }
    }

    fn from_bits(bits: u8) -> (r: Self) {
        let low = bits & 3;
        if low == 0 {
            Four::Zero
        } else if low == 1 {
            Four::One
        } else if low == 2 {
            Four::Unknown
        } else {
            Four::HighImpedance
        }
    }

    fn defined(bits: u8) -> (r: bool) {
        bits <= 3
    }

    fn empty() -> (r: Self) {
        Four::Zero
    }

    fn format_prefix() -> (r: &'static str) {
        proof {
            reveal_strlit("0q");
        }
        let r = "0q";
        assert(r@ =~= seq!['0', 'q']);
        r
    }

    proof fn lemma_bits() {
    }

    proof fn lemma_zero() {
        assert(0u8 & 3 == 0) by (bit_vector);
    }

    proof fn lemma_encoding(unit: Self) {
        assert(0u8 & 3 == 0 && 1u8 & 3 == 1 && 2u8 & 3 == 2 && 3u8 & 3 == 3) by (bit_vector);
    }
}

impl Logic for Nine {
    open spec fn spec_bits() -> u8 {
        4
    }

    open spec fn spec_to_bits(self) -> u8 {
        match self {
            Nine::ZeroStrong => 0,
            Nine::OneStrong => 1,
            Nine::ZeroWeak => 2,
            Nine::OneWeak => 3,
            Nine::UnknownStrong => 4,
            Nine::UnknownWeak => 5,
            Nine::ZeroUnknown => 6,
            Nine::OneUnknown => 7,
            Nine::HighImpedance => 8,
        }
    }

    /// The seven patterns above 8 are not defined; they read as
    /// `HighImpedance`.
    open spec fn spec_from_bits(bits: u8) -> Self {
        let low = bits & 15;
        if low == 0 {
            Nine::ZeroStrong
        } else if low == 1 {
            Nine::OneStrong
        } else if low == 2 {
            Nine::ZeroWeak
        } else if low == 3 {
            Nine::OneWeak
        } else if low == 4 {
            Nine::UnknownStrong
        } else if low == 5 {
            Nine::UnknownWeak
        } else if low == 6 {
            Nine::ZeroUnknown
        } else if low == 7 {
            Nine::OneUnknown
        } else {
            Nine::HighImpedance
        }
    }

    open spec fn spec_defined(bits: u8) -> bool {
        bits <= 8
    }

    open spec fn spec_empty() -> Self {
        Nine::UnknownWeak
    }

    open spec fn spec_format_prefix() -> Seq<char> {
        seq!['0', 'n']
    }

    fn bits() -> (r: u8) {
        4
    }

    fn to_bits(self) -> (r: u8) {
        match self {
            Nine::ZeroStrong => 0,
            Nine::OneStrong => 1,
            Nine::ZeroWeak => 2,
            Nine::OneWeak => 3,
            Nine::UnknownStrong => 4,
            Nine::UnknownWeak => 5,
            Nine::ZeroUnknown => 6,
            Nine::OneUnknown => 7,
            Nine::HighImpedance => 8,
        }
    }

    fn from_bits(bits: u8) -> (r: Self) {
        let low = bits & 15;
        if low == 0 {
            Nine::ZeroStrong
        } else if low == 1 {
            Nine::OneStrong
        } else if low == 2 {
            Nine::ZeroWeak
        } else if low == 3 {
            Nine::OneWeak
        } else if low == 4 {
            Nine::UnknownStrong
        } else if low == 5 {
            Nine::UnknownWeak
        } else if low == 6 {
            Nine::ZeroUnknown
        } else if low == 7 {
            Nine::OneUnknown
        } else {
            Nine::HighImpedance
        }
    }

    fn defined(bits: u8) -> (r: bool) {
        bits <= 8
    }

    fn empty() -> (r: Self) {
        Nine::UnknownWeak
    }

    fn format_prefix() -> (r: &'static str) {
        proof {
            reveal_strlit("0n");
        }
        let r = "0n";
        assert(r@ =~= seq!['0', 'n']);
        r
    }

    proof fn lemma_bits() {
    }

    proof fn lemma_zero() {
        assert(0u8 & 15 == 0) by (bit_vector);
    }

    proof fn lemma_encoding(unit: Self) {
        assert(0u8 & 15 == 0 && 1u8 & 15 == 1 && 2u8 & 15 == 2 && 3u8 & 15 == 3 && 4u8 & 15 == 4
            && 5u8 & 15 == 5 && 6u8 & 15 == 6 && 7u8 & 15 == 7 && 8u8 & 15 == 8) by (bit_vector);
    }
}

impl Two {
    /// Narrows a four-valued unit: `Zero` and `One` carry over, the rest fail.
    pub fn try_from_four(value: Four) -> (r: Result<Two, LogicConversionFailed>)
        ensures
            r == match value {
                Four::Zero => Ok::<Two, LogicConversionFailed>(Two::Zero),
                Four::One => Ok(Two::One),
                _ => Err(LogicConversionFailed),
            },
    {
        match value {
            Four::Zero => Ok(Two::Zero),
            Four::One => Ok(Two::One),
            _ => Err(LogicConversionFailed),
        }
    }

    /// Narrows a nine-valued unit: a strong or weak zero or one carries over,
    /// the rest fail.
    pub fn try_from_nine(value: Nine) -> (r: Result<Two, LogicConversionFailed>)
        ensures
            r == match value {
                Nine::ZeroStrong | Nine::ZeroWeak => Ok::<Two, LogicConversionFailed>(Two::Zero),
                Nine::OneStrong | Nine::OneWeak => Ok(Two::One),
                _ => Err(LogicConversionFailed),
            },
    {
        match value {
            Nine::ZeroStrong | Nine::ZeroWeak => Ok(Two::Zero),
            Nine::OneStrong | Nine::OneWeak => Ok(Two::One),
            _ => Err(LogicConversionFailed),
        }
    }
}

/// Replacing one unit of a byte changes that unit and no other, and keeps
/// whatever lies above `tail` clear.
pub proof fn lemma_field_set(byte: u8, bits: u8, shift: u8, value: u8, other: u8)
    requires
        bits == 1 || bits == 2 || bits == 4,
        shift < 8,
        other < 8,
        shift % bits == 0,
        other % bits == 0,
        value <= unit_mask(bits),
    ensures
        field_at(field_set(byte, bits, shift, value), bits, shift) == value,
        other != shift ==> field_at(field_set(byte, bits, shift, value), bits, other) == field_at(
            byte,
            bits,
            other,
        ),
        shift < other && byte >> other == 0 ==> field_set(byte, bits, shift, value) >> other == 0,
{
    if bits == 1 {
        assert(shift < 8 && value <= 1 ==> ((((byte & !(1u8 << shift)) | (value << shift))
            >> shift) & 1) == value) by (bit_vector);
        assert(shift < 8 && other < 8 && other != shift && value <= 1 ==> ((((byte & !(1u8 << shift)) | (value
            << shift)) >> other) & 1) == ((byte >> other) & 1)) by (bit_vector);
        assert(shift < other && other < 8 && value <= 1 && byte >> other == 0 ==> ((byte & !(1u8
            << shift)) | (value << shift)) >> other == 0) by (bit_vector);
    } else if bits == 2 {
        assert(shift < 8 && shift % 2 == 0 && value <= 3 ==> ((((byte & !(3u8 << shift)) | (value
            << shift)) >> shift) & 3) == value) by (bit_vector);
        assert(shift < 8 && other < 8 && shift % 2 == 0 && other % 2 == 0 && other != shift && value
            <= 3 ==> ((((
        byte & !(3u8 << shift)) | (value << shift)) >> other) & 3) == ((byte >> other) & 3))
            by (bit_vector);
        assert(shift < other && other < 8 && shift % 2 == 0 && other % 2 == 0 && value <= 3 && byte
            >> other == 0 ==> ((byte & !(3u8 << shift)) | (value << shift)) >> other == 0)
            by (bit_vector);
    } else {
        assert(shift < 8 && shift % 4 == 0 && value <= 15 ==> ((((byte & !(15u8 << shift)) | (value
            << shift)) >> shift) & 15) == value) by (bit_vector);
        assert(shift < 8 && other < 8 && shift % 4 == 0 && other % 4 == 0 && other != shift && value
            <= 15 ==> ((((
        byte & !(15u8 << shift)) | (value << shift)) >> other) & 15) == ((byte >> other) & 15))
            by (bit_vector);
        assert(shift < other && other < 8 && shift % 4 == 0 && other % 4 == 0 && value <= 15
            && byte >> other == 0 ==> ((byte & !(15u8 << shift)) | (value << shift)) >> other == 0)
            by (bit_vector);
    }
}

/// Where a unit lies: its byte, and its shift, a multiple of `bits` below 8.
pub proof fn lemma_position(index: int, bits: u8)
    requires
        0 <= index,
        bits == 1 || bits == 2 || bits == 4,
    ensures
        0 <= index / per_byte(bits) as int <= index,
        shift_of(index, bits) < 8,
        shift_of(index, bits) % bits == 0,
        shift_of(index, bits) as int == (index % per_byte(bits) as int) * bits,
        index == (index / per_byte(bits) as int) * per_byte(bits) + (index % per_byte(bits) as int),
{
    if bits == 1 {
        assert(per_byte(bits) == 8);
        assert(index == (index / 8) * 8 + index % 8 && 0 <= index % 8 < 8);
    } else if bits == 2 {
        assert(per_byte(bits) == 4);
        assert(index == (index / 4) * 4 + index % 4 && 0 <= index % 4 < 4);
    } else {
        assert(per_byte(bits) == 2);
        assert(index == (index / 2) * 2 + index % 2 && 0 <= index % 2 < 2);
    }
}

/// Every unit of a packed vector, and its partial tail, lies inside the
/// packed length.
pub proof fn lemma_packed_bounds(width: nat, bits: u8, index: int)
    requires
        bits == 1 || bits == 2 || bits == 4,
        0 <= index <= width,
    ensures
        index < width ==> (index / per_byte(bits) as int) < packed_len(width, bits),
        width % per_byte(bits) != 0 ==> width as int / per_byte(bits) as int + 1 == packed_len(
            width,
            bits,
        ),
        width % per_byte(bits) == 0 ==> width as int / per_byte(bits) as int == packed_len(
            width,
            bits,
        ),
{
    let w = width as int;
    if bits == 1 {
        assert(packed_len(width, bits) == (w + 7) / 8);
        assert(w / 8 <= (w + 7) / 8);
        if w % 8 != 0 {
            assert((w + 7) / 8 == w / 8 + 1);
        }
    } else if bits == 2 {
        assert(packed_len(width, bits) == (w + 3) / 4);
        assert(w / 4 <= (w + 3) / 4);
        if w % 4 != 0 {
            assert((w + 3) / 4 == w / 4 + 1);
        }
    } else {
        assert(packed_len(width, bits) == (w + 1) / 2);
        assert(w / 2 <= (w + 1) / 2);
        if w % 2 != 0 {
            assert((w + 1) / 2 == w / 2 + 1);
        }
    }
}

/// Units per byte of a variant.
pub fn units_per_byte<L: Logic>() -> (r: usize)
    ensures
        r == per_byte(L::spec_bits()),
        r == 8 || r == 4 || r == 2,
{
    let bits = L::bits();
    if bits == 1 {
        8
    } else if bits == 2 {
        4
    } else {
        2
    }
}

/// The number of bytes that `width` units of a variant take.
pub fn bytes_for<L: Logic>(width: usize) -> (r: usize)
    ensures
        r == packed_len(width as nat, L::spec_bits()),
        r <= width,
        width > 0 ==> r > 0,
{
    proof {
        L::lemma_bits();
    }
    let per = units_per_byte::<L>();
    if width % per == 0 {
        width / per
    } else {
        width / per + 1
    }
}

/// The unit at `index` of a packed vector.
pub open spec fn unit_at<L: Logic>(bytes: Seq<u8>, index: int) -> L {
    L::spec_from_bits(raw_at(bytes, L::spec_bits(), index))
}

/// The first `width` units of a packed vector.
pub open spec fn unpack<L: Logic>(bytes: Seq<u8>, width: nat) -> Seq<L> {
    Seq::new(width, |i: int| unit_at::<L>(bytes, i))
}

/// In bytes that are all zero every unit is the one of the pattern zero.
pub proof fn lemma_blank<L: Logic>(bytes: Seq<u8>, width: nat)
    requires
        forall|k: int| 0 <= k < bytes.len() ==> bytes[k] == 0,
        bytes.len() == packed_len(width, L::spec_bits()),
    ensures
        unpack::<L>(bytes, width) =~= Seq::new(width, |k: int| L::spec_from_bits(0)),
{
    L::lemma_bits();
    assert forall|k: int| 0 <= k < width implies unit_at::<L>(bytes, k) == L::spec_from_bits(
        0,
    ) by {
        lemma_position(k, L::spec_bits());
        lemma_packed_bounds(width, L::spec_bits(), k);
        let shift = shift_of(k, L::spec_bits());
        let mask = unit_mask(L::spec_bits());
        assert((0u8 >> shift) & mask == 0) by (bit_vector);
    }
}

/// A vector of `width` units is well packed in `bytes`: the length fits and
/// the tail is clean.
pub open spec fn well_packed<L: Logic>(bytes: Seq<u8>, width: nat) -> bool {
    &&& bytes.len() == packed_len(width, L::spec_bits())
    &&& tail_clean(bytes, L::spec_bits(), width)
}

/// Reads the unit at `offset` out of packed bytes.
pub fn get_unit<L: Logic>(bytes: &[u8], offset: usize) -> (r: L)
    requires
        offset / (per_byte(L::spec_bits()) as usize) < bytes@.len(),
    ensures
        r == unit_at::<L>(bytes@, offset as int),
{
    let bits = L::bits();
    let per = units_per_byte::<L>();
    proof {
        L::lemma_bits();
        lemma_position(offset as int, bits);
    }
    let shift: u8 = ((offset % per) as u8) * bits;
    let mask: u8 = if bits == 1 {
        1
    } else if bits == 2 {
        3
    } else {
        15
    };
    L::from_bits((bytes[offset / per] >> shift) & mask)
}

/// Writes `unit` at `offset` into packed bytes, leaving every other unit as
/// it was.
pub fn set_unit<L: Logic>(bytes: &mut [u8], offset: usize, unit: L)
    requires
        offset / (per_byte(L::spec_bits()) as usize) < old(bytes)@.len(),
    ensures
        final(bytes)@.len() == old(bytes)@.len(),
        final(bytes)@ == old(bytes)@.update(
            offset as int / per_byte(L::spec_bits()) as int,
            field_set(
                old(bytes)@[offset as int / per_byte(L::spec_bits()) as int],
                L::spec_bits(),
                shift_of(offset as int, L::spec_bits()),
                unit.spec_to_bits(),
            ),
        ),
{
    let bits = L::bits();
    let per = units_per_byte::<L>();
    proof {
        L::lemma_bits();
        lemma_position(offset as int, bits);
    }
    let shift: u8 = ((offset % per) as u8) * bits;
    let mask: u8 = if bits == 1 {
        1
    } else if bits == 2 {
        3
    } else {
        15
    };
    let at = offset / per;
    let byte = bytes[at];
    bytes[at] = (byte & !(mask << shift)) | (unit.to_bits() << shift);
}

/// What a write of one unit does to a packed vector: that unit reads back,
/// every other unit is untouched, and a clean tail stays clean.
pub proof fn lemma_set_unit<L: Logic>(bytes: Seq<u8>, width: nat, offset: int, unit: L)
    requires
        0 <= offset < width,
        bytes.len() == packed_len(width, L::spec_bits()),
    ensures
        ({
            let at = offset / per_byte(L::spec_bits()) as int;
            let after = bytes.update(
                at,
                field_set(
                    bytes[at],
                    L::spec_bits(),
                    shift_of(offset, L::spec_bits()),
                    unit.spec_to_bits(),
                ),
            );
            &&& 0 <= at < bytes.len()
            &&& unpack::<L>(after, width) == unpack::<L>(bytes, width).update(offset, unit)
            &&& tail_clean(bytes, L::spec_bits(), width) ==> tail_clean(after, L::spec_bits(), width)
        }),
{
    let bits = L::spec_bits();
    L::lemma_bits();
    L::lemma_encoding(unit);
    let per = per_byte(bits) as int;
    let at = offset / per;
    let shift = shift_of(offset, bits);
    let after = bytes.update(at, field_set(bytes[at], bits, shift, unit.spec_to_bits()));
    lemma_position(offset, bits);
    assert(0 <= at < bytes.len());
    assert forall|i: int| 0 <= i < width implies #[trigger] unit_at::<L>(after, i) == (if i
        == offset {
        unit
    } else {
        unit_at::<L>(bytes, i)
    }) by {
        lemma_position(i, bits);
        if i / per == at {
            lemma_field_set(bytes[at], bits, shift, unit.spec_to_bits(), shift_of(i, bits));
        }
    }
    assert(unpack::<L>(after, width) =~= unpack::<L>(bytes, width).update(offset, unit));
    if tail_clean(bytes, bits, width) && width as int % per != 0 {
        lemma_position(width as int, bits);
        if width as int / per == at {
            lemma_field_set(bytes[at], bits, shift, unit.spec_to_bits(), shift_of(width as int, bits));
        }
    }
}

/// Clearing what lies above the last unit leaves every unit below it alone.
proof fn lemma_mask_tail(byte: u8, bits: u8, tail: u8, shift: u8)
    requires
        bits == 1 || bits == 2 || bits == 4,
        0 < tail < 8,
        shift < 8,
        tail % bits == 0,
        shift % bits == 0,
    ensures
        (byte & !(0xFFu8 << tail)) >> tail == 0,
        shift < tail ==> field_at(byte & !(0xFFu8 << tail), bits, shift) == field_at(
            byte,
            bits,
            shift,
        ),
{
    assert(0 < tail < 8 ==> (byte & !(0xFFu8 << tail)) >> tail == 0) by (bit_vector);
    if bits == 1 {
        assert(shift < tail && tail < 8 ==> ((byte & !(0xFFu8 << tail)) >> shift) & 1 == (byte
            >> shift) & 1) by (bit_vector);
    } else if bits == 2 {
        assert(shift < tail && tail < 8 && shift % 2 == 0 && tail % 2 == 0 ==> ((byte & !(0xFFu8
            << tail)) >> shift) & 3 == (byte >> shift) & 3) by (bit_vector);
    } else {
        assert(shift < tail && tail < 8 && shift % 4 == 0 && tail % 4 == 0 ==> ((byte & !(0xFFu8
            << tail)) >> shift) & 15 == (byte >> shift) & 15) by (bit_vector);
    }
}

/// Clears the bits of the last byte that lie above the last unit, so that a
/// partial tail byte carries no garbage. The units themselves are unchanged.
pub fn mask_off<L: Logic>(bytes: &mut [u8], width: usize)
    requires
        old(bytes)@.len() == packed_len(width as nat, L::spec_bits()),
    ensures
        final(bytes)@.len() == old(bytes)@.len(),
        well_packed::<L>(final(bytes)@, width as nat),
        unpack::<L>(final(bytes)@, width as nat) == unpack::<L>(old(bytes)@, width as nat),
        forall|i: int| 0 <= i < width as int / per_byte(L::spec_bits()) as int ==> final(bytes)@[i]
            == old(bytes)@[i],
{
    let bits = L::bits();
    let per = units_per_byte::<L>();
    proof {
        L::lemma_bits();
        lemma_position(width as int, bits);
        lemma_packed_bounds(width as nat, bits, width as int);
    }
    let rest = width % per;
    if rest != 0 {
        let tail: u8 = (rest as u8) * bits;
        let at = width / per;
        let byte = bytes[at];
        proof {
            lemma_mask_tail(byte, bits, tail, 0);
        }
        bytes[at] = byte & !(0xFFu8 << tail);
        proof {
            let before = old(bytes)@;
            let after = bytes@;
            assert forall|i: int| 0 <= i < width implies #[trigger] unit_at::<L>(after, i)
                == unit_at::<L>(before, i) by {
                lemma_position(i, bits);
                if i / per as int == at {
                    lemma_mask_tail(byte, bits, tail, shift_of(i, bits));
                }
            }
            assert(unpack::<L>(after, width as nat) =~= unpack::<L>(before, width as nat));
        }
    }
}

/// A borrowed, read-only packed vector of `width` units.
pub struct LogicSlice<'a, L: Logic> {
    pub(crate) width: usize,
    pub(crate) bytes: &'a [u8],
    pub(crate) marker: PhantomData<L>,
}

/// A borrowed packed vector of `width` units that can be written to.
///
/// The fields are public so that a lender's contract can say what it gets
/// back through `bytes`. A slice is made by the container that lends it, and
/// written through `set`.
pub struct LogicSliceMut<'a, L: Logic> {
    pub width: usize,
    pub bytes: &'a mut [u8],
    pub marker: PhantomData<L>,
}

/// An owned packed vector of `width` units.
pub struct LogicArray<L: Logic> {
    pub(crate) width: usize,
    pub(crate) bytes: Vec<u8>,
    pub(crate) marker: PhantomData<L>,
}

/// Walks the units of a packed vector from the lowest offset up.
pub struct LogicIter<'a, L: Logic> {
    width: usize,
    offset: usize,
    bytes: &'a [u8],
    marker: PhantomData<L>,
}

impl<'a, L: Logic> View for LogicSlice<'a, L> {
    type V = Seq<L>;

    open spec fn view(&self) -> Seq<L> {
        unpack::<L>(self.raw(), self.spec_width() as nat)
    }
}

impl<'a, L: Logic> LogicSlice<'a, L> {
    /// The packed bytes behind the slice.
    pub open(crate) spec fn raw(&self) -> Seq<u8> {
        self.bytes@
    }

    pub open(crate) spec fn spec_width(&self) -> usize {
        self.width
    }

    /// The bytes hold exactly `width` units and the tail is clean.
    pub open spec fn wf(&self) -> bool {
        well_packed::<L>(self.raw(), self.spec_width() as nat)
    }

    pub(crate) fn new(width: usize, bytes: &'a [u8]) -> (r: Self)
        requires
            well_packed::<L>(bytes@, width as nat),
        ensures
            r.wf(),
            r.raw() == bytes@,
            r.spec_width() == width,
    {
        LogicSlice { width, bytes, marker: PhantomData }
    }

    /// Takes `bytes` as a packed vector of `width` units. The length must be
    /// the packed length of `width`, else `WidthMismatch`; the tail must be
    /// clean, else `InvalidEncoding` at offset `width`.
    pub fn from_bytes(width: usize, bytes: &'a [u8]) -> (r: Result<Self, Error>)
        ensures
            bytes@.len() != packed_len(width as nat, L::spec_bits()) ==> r == Err::<Self, Error>(
                Error::WidthMismatch,
            ),
            bytes@.len() == packed_len(width as nat, L::spec_bits()) && !tail_clean(
                bytes@,
                L::spec_bits(),
                width as nat,
            ) ==> r == Err::<Self, Error>(Error::InvalidEncoding { offset: width }),
            well_packed::<L>(bytes@, width as nat) ==> r is Ok && r->Ok_0.wf() && r->Ok_0.raw()
                == bytes@ && r->Ok_0.spec_width() == width,
    {
        if bytes.len() != bytes_for::<L>(width) {
            return Err(Error::WidthMismatch);
        }
        let bits = L::bits();
        let per = units_per_byte::<L>();
        proof {
            L::lemma_bits();
            lemma_position(width as int, bits);
            lemma_packed_bounds(width as nat, bits, width as int);
        }
        let rest = width % per;
        if rest != 0 {
            let tail: u8 = (rest as u8) * bits;
            if bytes[width / per] >> tail != 0 {
                return Err(Error::InvalidEncoding { offset: width });
            }
        }
        Ok(LogicSlice { width, bytes, marker: PhantomData })
    }

    /// The number of units.
    pub fn width(&self) -> (r: usize)
        ensures
            r == self.spec_width(),
            r == self@.len(),
    {
        self.width
    }

    /// The packed bytes.
    pub fn as_bytes(&self) -> (r: &'a [u8])
        ensures
            r@ == self.raw(),
    {
        self.bytes
    }

    /// The unit at `offset`.
    pub fn get(&self, offset: usize) -> (r: L)
        requires
            self.wf(),
            offset < self@.len(),
        ensures
            r == self@[offset as int],
    {
        proof {
            L::lemma_bits();
            lemma_packed_bounds(self.spec_width() as nat, L::spec_bits(), offset as int);
        }
        get_unit::<L>(self.bytes, offset)
    }

    /// The unit at `offset`, or `OutOfBounds` where `offset` is not below the
    /// width.
    pub fn try_get(&self, offset: usize) -> (r: Result<L, Error>)
        requires
            self.wf(),
        ensures
            r == if offset < self@.len() {
                Ok::<L, Error>(self@[offset as int])
            } else {
                Err(Error::OutOfBounds)
            },
    {
        if offset < self.width {
            Ok(self.get(offset))
        } else {
            Err(Error::OutOfBounds)
        }
    }

    /// Walks the units from offset 0 up.
    pub fn iter(&self) -> (r: LogicIter<'a, L>)
        requires
            self.wf(),
        ensures
            r.wf(),
            r@ == self@,
    {
        let r = LogicIter { width: self.width, offset: 0, bytes: self.bytes, marker: PhantomData };
        assert(r@ =~= self@);
        r
    }

    /// Checks every unit's bit pattern against the variant's defined set.
    /// Fails with `InvalidEncoding` at the lowest offset whose pattern the
    /// variant does not define.
    pub fn validate(&self) -> (r: Result<(), Error>)
        requires
            self.wf(),
        ensures
            r is Ok <==> forall|i: int|
                0 <= i < self@.len() ==> L::spec_defined(
                    #[trigger] raw_at(self.raw(), L::spec_bits(), i),
                ),
            r is Err ==> exists|at: usize|
                {
                    &&& r == Err::<(), Error>(Error::InvalidEncoding { offset: at })
                    &&& at < self@.len()
                    &&& !L::spec_defined(raw_at(self.raw(), L::spec_bits(), at as int))
                    &&& forall|i: int|
                        0 <= i < at ==> L::spec_defined(
                            #[trigger] raw_at(self.raw(), L::spec_bits(), i),
                        )
                },
    {
        let bits = L::bits();
        let per = units_per_byte::<L>();
        let mask: u8 = if bits == 1 {
            1
        } else if bits == 2 {
            3
        } else {
            15
        };
        proof {
            L::lemma_bits();
        }
        let mut offset: usize = 0;
        while offset < self.width
            invariant
                self.wf(),
                offset <= self.width,
                bits == L::spec_bits(),
                bits == 1 || bits == 2 || bits == 4,
                per == per_byte(bits),
                mask == unit_mask(bits),
                forall|i: int|
                    0 <= i < offset ==> L::spec_defined(
                        #[trigger] raw_at(self.raw(), L::spec_bits(), i),
                    ),
            decreases self.width - offset,
        {
            proof {
                lemma_position(offset as int, bits);
                lemma_packed_bounds(self.width as nat, bits, offset as int);
            }
            let shift: u8 = ((offset % per) as u8) * bits;
            let raw = (self.bytes[offset / per] >> shift) & mask;
            if !L::defined(raw) {
                assert(raw == raw_at(self.raw(), L::spec_bits(), offset as int));
                return Err(Error::InvalidEncoding { offset });
            }
            offset += 1;
        }
        Ok(())
    }
}

impl<'a, L: Logic> View for LogicIter<'a, L> {
    type V = Seq<L>;

    /// The units still to come.
    closed spec fn view(&self) -> Seq<L> {
        unpack::<L>(self.bytes@, self.width as nat).subrange(self.offset as int, self.width as int)
    }
}

impl<'a, L: Logic> LogicIter<'a, L> {
    pub closed spec fn wf(&self) -> bool {
        &&& self.offset <= self.width
        &&& well_packed::<L>(self.bytes@, self.width as nat)
    }

    /// The next unit, or `None` once `width` units have come.
    pub fn next(&mut self) -> (r: Option<L>)
        requires
            old(self).wf(),
        ensures
            final(self).wf(),
            r == if old(self)@.len() > 0 {
                Some(old(self)@[0])
            } else {
                None::<L>
            },
            final(self)@ == if old(self)@.len() > 0 {
                old(self)@.drop_first()
            } else {
                old(self)@
            },
    {
        if self.offset < self.width {
            proof {
                L::lemma_bits();
                lemma_packed_bounds(self.width as nat, L::spec_bits(), self.offset as int);
            }
            let unit = get_unit::<L>(self.bytes, self.offset);
            self.offset += 1;
            assert(final(self)@ =~= old(self)@.drop_first());
            Some(unit)
        } else {
            None
        }
    }

    /// How many units are still to come.
    pub fn remaining(&self) -> (r: usize)
        requires
            self.wf(),
        ensures
            r == self@.len(),
    {
        self.width - self.offset
    }
}

impl<'a, L: Logic> View for LogicSliceMut<'a, L> {
    type V = Seq<L>;

    open spec fn view(&self) -> Seq<L> {
        unpack::<L>(self.raw(), self.spec_width() as nat)
    }
}

impl<'a, L: Logic> LogicSliceMut<'a, L> {
    /// The packed bytes behind the slice, as they are now.
    pub open spec fn raw(&self) -> Seq<u8> {
        self.bytes@
    }

    pub open spec fn spec_width(&self) -> usize {
        self.width
    }

    /// The bytes hold exactly `width` units and the tail is clean.
    pub open spec fn wf(&self) -> bool {
        well_packed::<L>(self.raw(), self.spec_width() as nat)
    }

    pub(crate) fn new(width: usize, bytes: &'a mut [u8]) -> (r: Self)
        requires
            well_packed::<L>(old(bytes)@, width as nat),
        ensures
            r.wf(),
            r.raw() == old(bytes)@,
            final(r.bytes)@ == final(bytes)@,
            r.spec_width() == width,
    {
        LogicSliceMut { width, bytes, marker: PhantomData }
    }

    /// The number of units.
    pub fn width(&self) -> (r: usize)
        ensures
            r == self.spec_width(),
            r == self@.len(),
    {
        self.width
    }

    /// The unit at `offset`.
    pub fn get(&self, offset: usize) -> (r: L)
        requires
            self.wf(),
            offset < self@.len(),
        ensures
            r == self@[offset as int],
    {
        proof {
            L::lemma_bits();
            lemma_packed_bounds(self.spec_width() as nat, L::spec_bits(), offset as int);
        }
        get_unit::<L>(self.bytes, offset)
    }

    /// Writes `unit` at `offset`. Every other unit stays as it was.
    pub fn set(&mut self, offset: usize, unit: L)
        requires
            old(self).wf(),
            offset < old(self)@.len(),
        ensures
            final(self).wf(),
            final(self)@ == old(self)@.update(offset as int, unit),
            final(self).spec_width() == old(self).spec_width(),
            final(final(self).bytes)@ == final(old(self).bytes)@,
    {
        proof {
            L::lemma_bits();
            lemma_packed_bounds(self.spec_width() as nat, L::spec_bits(), offset as int);
            lemma_set_unit::<L>(self.bytes@, self.width as nat, offset as int, unit);
        }
        set_unit::<L>(self.bytes, offset, unit);
    }

    /// Writes `unit` at `offset`, or fails with `OutOfBounds` and changes
    /// nothing where `offset` is not below the width.
    pub fn try_set(&mut self, offset: usize, unit: L) -> (r: Result<(), Error>)
        requires
            old(self).wf(),
        ensures
            final(self).wf(),
            final(self).spec_width() == old(self).spec_width(),
            final(final(self).bytes)@ == final(old(self).bytes)@,
            offset < old(self)@.len() ==> r == Ok::<(), Error>(()) && final(self)@ == old(self)@.update(offset as int, unit),
            offset >= old(self)@.len() ==> r == Err::<(), Error>(Error::OutOfBounds) && final(self).raw() == old(self).raw(),
    {
        if offset < self.width {
            self.set(offset, unit);
            Ok(())
        } else {
            Err(Error::OutOfBounds)
        }
    }

    /// Copies every unit of `source` into the slice.
    pub fn copy_from(&mut self, source: &LogicSlice<'_, L>)
        requires
            old(self).wf(),
            source.wf(),
            source@.len() == old(self)@.len(),
        ensures
            final(self).wf(),
            final(self)@ == source@,
            final(self).raw() == source.raw(),
            final(self).spec_width() == old(self).spec_width(),
            final(final(self).bytes)@ == final(old(self).bytes)@,
    {
        let n = self.bytes.len();
        let src = source.as_bytes();
        let mut i: usize = 0;
        while i < n
            invariant
                i <= n,
                n == self.bytes@.len(),
                n == src@.len(),
                self.width == old(self).width,
                final(self.bytes)@ == final(old(self).bytes)@,
                forall|j: int| 0 <= j < i ==> self.bytes@[j] == src@[j],
            decreases n - i,
        {
            self.bytes[i] = src[i];
            i += 1;
        }
        assert(self.bytes@ =~= src@);
    }

    /// Reads the slice as it is now.
    pub fn as_slice(&self) -> (r: LogicSlice<'_, L>)
        requires
            self.wf(),
        ensures
            r.wf(),
            r@ == self@,
            r.raw() == self.raw(),
            r.spec_width() == self.spec_width(),
    {
        LogicSlice { width: self.width, bytes: &*self.bytes, marker: PhantomData }
    }
}

impl<L: Logic> View for LogicArray<L> {
    type V = Seq<L>;

    open spec fn view(&self) -> Seq<L> {
        unpack::<L>(self.raw(), self.spec_width() as nat)
    }
}

impl<L: Logic> LogicArray<L> {
    /// The packed bytes of the array.
    pub open(crate) spec fn raw(&self) -> Seq<u8> {
        self.bytes@
    }

    pub open(crate) spec fn spec_width(&self) -> usize {
        self.width
    }

    /// The bytes hold exactly `width` units and the tail is clean.
    pub open spec fn wf(&self) -> bool {
        well_packed::<L>(self.raw(), self.spec_width() as nat)
    }

    /// An array of `width` units, each of them `fill`.
    pub fn new(width: usize, fill: L) -> (r: Self)
        ensures
            r.wf(),
            r.spec_width() == width,
            r@ == Seq::new(width as nat, |i: int| fill),
    {
        let n = bytes_for::<L>(width);
        let mut bytes: Vec<u8> = Vec::new();
        let mut k: usize = 0;
        while k < n
            invariant
                k <= n,
                bytes@.len() == k,
                forall|j: int| 0 <= j < k ==> bytes@[j] == 0u8,
            decreases n - k,
        {
            bytes.push(0u8);
            k += 1;
        }
        proof {
            L::lemma_bits();
            lemma_position(width as int, L::spec_bits());
            lemma_packed_bounds(width as nat, L::spec_bits(), width as int);
            let s = shift_of(width as int, L::spec_bits());
            assert(s < 8 ==> 0u8 >> s == 0) by (bit_vector);
        }
        let mut i: usize = 0;
        while i < width
            invariant
                i <= width,
                bytes@.len() == n,
                n == packed_len(width as nat, L::spec_bits()),
                tail_clean(bytes@, L::spec_bits(), width as nat),
                forall|j: int| 0 <= j < i ==> unpack::<L>(bytes@, width as nat)[j] == fill,
            decreases width - i,
        {
            proof {
                L::lemma_bits();
                lemma_packed_bounds(width as nat, L::spec_bits(), i as int);
                lemma_set_unit::<L>(bytes@, width as nat, i as int, fill);
            }
            set_unit::<L>(bytes.as_mut_slice(), i, fill);
            i += 1;
        }
        let r = LogicArray { width, bytes, marker: PhantomData };
        assert(r@ =~= Seq::new(width as nat, |i: int| fill));
        r
    }

    /// Takes over `bytes` as the packed form of `width` units. The length
    /// must be the packed length of `width`, else `WidthMismatch`. What lies
    /// above the last unit is cleared.
    pub fn from_bytes(width: usize, bytes: Vec<u8>) -> (r: Result<Self, Error>)
        ensures
            bytes@.len() != packed_len(width as nat, L::spec_bits()) ==> r == Err::<Self, Error>(
                Error::WidthMismatch,
            ),
            bytes@.len() == packed_len(width as nat, L::spec_bits()) ==> r is Ok && r->Ok_0.wf()
                && r->Ok_0.spec_width() == width && r->Ok_0@ == unpack::<L>(bytes@, width as nat),
    {
        if bytes.len() != bytes_for::<L>(width) {
            return Err(Error::WidthMismatch);
        }
        let mut bytes = bytes;
        mask_off::<L>(bytes.as_mut_slice(), width);
        Ok(LogicArray { width, bytes, marker: PhantomData })
    }

    /// The number of units.
    pub fn width(&self) -> (r: usize)
        ensures
            r == self.spec_width(),
            r == self@.len(),
    {
        self.width
    }

    /// The unit at `offset`.
    pub fn get(&self, offset: usize) -> (r: L)
        requires
            self.wf(),
            offset < self@.len(),
        ensures
            r == self@[offset as int],
    {
        proof {
            L::lemma_bits();
            lemma_packed_bounds(self.spec_width() as nat, L::spec_bits(), offset as int);
        }
        get_unit::<L>(self.bytes.as_slice(), offset)
    }

    /// The unit at `offset`, or `OutOfBounds` where `offset` is not below the
    /// width.
    pub fn try_get(&self, offset: usize) -> (r: Result<L, Error>)
        requires
            self.wf(),
        ensures
            r == if offset < self@.len() {
                Ok::<L, Error>(self@[offset as int])
            } else {
                Err(Error::OutOfBounds)
            },
    {
        if offset < self.width {
            Ok(self.get(offset))
        } else {
            Err(Error::OutOfBounds)
        }
    }

    /// Writes `unit` at `offset`. Every other unit stays as it was.
    pub fn set(&mut self, offset: usize, unit: L)
        requires
            old(self).wf(),
            offset < old(self)@.len(),
        ensures
            final(self).wf(),
            final(self)@ == old(self)@.update(offset as int, unit),
            final(self).spec_width() == old(self).spec_width(),
    {
        proof {
            L::lemma_bits();
            lemma_packed_bounds(self.spec_width() as nat, L::spec_bits(), offset as int);
            lemma_set_unit::<L>(self.bytes@, self.width as nat, offset as int, unit);
        }
        set_unit::<L>(self.bytes.as_mut_slice(), offset, unit);
    }

    /// Writes `unit` at `offset`, or fails with `OutOfBounds` and changes
    /// nothing where `offset` is not below the width.
    pub fn try_set(&mut self, offset: usize, unit: L) -> (r: Result<(), Error>)
        requires
            old(self).wf(),
        ensures
            final(self).wf(),
            final(self).spec_width() == old(self).spec_width(),
            offset < old(self)@.len() ==> r == Ok::<(), Error>(()) && final(self)@ == old(self)@.update(offset as int, unit),
            offset >= old(self)@.len() ==> r == Err::<(), Error>(Error::OutOfBounds) && final(self).raw() == old(self).raw(),
    {
        if offset < self.width {
            self.set(offset, unit);
            Ok(())
        } else {
            Err(Error::OutOfBounds)
        }
    }

    /// Lends the array for reading.
    pub fn as_slice(&self) -> (r: LogicSlice<'_, L>)
        requires
            self.wf(),
        ensures
            r.wf(),
            r@ == self@,
            r.raw() == self.raw(),
            r.spec_width() == self.spec_width(),
    {
        LogicSlice { width: self.width, bytes: self.bytes.as_slice(), marker: PhantomData }
    }

    /// Lends the array for writing. What is written through the slice is in
    /// the array once the slice is given back.
    pub fn as_slice_mut(&mut self) -> (r: LogicSliceMut<'_, L>)
        requires
            old(self).wf(),
        ensures
            r.wf(),
            r@ == old(self)@,
            r.raw() == old(self).raw(),
            r.spec_width() == old(self).spec_width(),
            final(self).raw() == final(r.bytes)@,
            final(self).spec_width() == old(self).spec_width(),
    {
        LogicSliceMut { width: self.width, bytes: self.bytes.as_mut_slice(), marker: PhantomData }
    }

    /// Walks the units from offset 0 up.
    pub fn iter(&self) -> (r: LogicIter<'_, L>)
        requires
            self.wf(),
        ensures
            r.wf(),
            r@ == self@,
    {
        let r = LogicIter {
            width: self.width,
            offset: 0,
            bytes: self.bytes.as_slice(),
            marker: PhantomData,
        };
        assert(r@ =~= self@);
        r
    }

    /// The packed bytes.
    pub fn as_bytes(&self) -> (r: &[u8])
        ensures
            r@ == self.raw(),
    {
        self.bytes.as_slice()
    }
}

} // verus!
