//! Bit vectors whose length is known only at run time, and vectors of
//! records that hold one.
//!
//! A record of a `KnownUnsizedVec` is a header of the record type, if it
//! has one, followed by the packed bits. All records of a vector have the
//! same number of bits, its `meta`.
use crate::logic::{bytes_for, field_at, get_unit, lemma_packed_bounds, lemma_position, lemma_set_unit, packed_len, per_byte, set_unit, shift_of, unit_at, unpack, Logic};
use core::marker::PhantomData;
use vstd::prelude::*;

verus! {

/// A binary digit.
#[derive(Debug, Clone, Copy, PartialEq, Eq, PartialOrd, Ord, Structural)]
pub enum Bit {
    Zero,
    One,
}

/// A quaternary digit: zero, one, unknown or high impedance.
#[derive(Debug, Clone, Copy, PartialEq, Eq, PartialOrd, Ord, Structural)]
pub enum Qit {
    Zero,
    One,
    X,
    Z,
}

impl Logic for Bit {
    open spec fn spec_bits() -> u8 {
        1
    }

    open spec fn spec_to_bits(self) -> u8 {
        match self {
            Bit::Zero => 0,
            Bit::One => 1,
        }
    }

    open spec fn spec_from_bits(bits: u8) -> Self {
        if bits & 1 == 0 {
            Bit::Zero
        } else {
            Bit::One
        }
    }

    open spec fn spec_defined(bits: u8) -> bool {
        bits <= 1
    }

    open spec fn spec_empty() -> Self {
        Bit::Zero
    }

    open spec fn spec_format_prefix() -> Seq<char> {
        seq!['b']
    }

    fn bits() -> (r: u8) {
        1
    }

    fn to_bits(self) -> (r: u8) {
        match self {
            Bit::Zero => 0,
            Bit::One => 1,
        }
    }

    fn from_bits(bits: u8) -> (r: Self) {
        if bits & 1 == 0 {
            Bit::Zero
        } else {
            Bit::One
        }
    }

    fn defined(bits: u8) -> (r: bool) {
        bits <= 1
    }

    fn empty() -> (r: Self) {
        Bit::Zero
    }

    fn format_prefix() -> (r: &'static str) {
        proof {
            reveal_strlit("b");
        }
        let r = "b";
        assert(r@ =~= seq!['b']);
        r
    }

    proof fn lemma_bits() {
    }

    proof fn lemma_zero() {
        assert(0u8 & 1 == 0) by (bit_vector);
    }

    proof fn lemma_encoding(unit: Self) {
        assert(0u8 & 1 == 0 && 1u8 & 1 == 1) by (bit_vector);
    }
}

impl Logic for Qit {
    open spec fn spec_bits() -> u8 {
        2
    }

    open spec fn spec_to_bits(self) -> u8 {
        match self {
            Qit::Zero => 0,
            Qit::One => 1,
            Qit::X => 2,
            Qit::Z => 3,
        }
    }

    open spec fn spec_from_bits(bits: u8) -> Self {
        let low = bits & 3;
        if low == 0 {
            Qit::Zero
        } else if low == 1 {
            Qit::One
        } else if low == 2 {
            Qit::X
        } else {
            Qit::Z
        }
    }

    open spec fn spec_defined(bits: u8) -> bool {
        bits <= 3
    }

    open spec fn spec_empty() -> Self {
        Qit::X
    }

    open spec fn spec_format_prefix() -> Seq<char> {
        seq!['q']
    }

    fn bits() -> (r: u8) {
        2
    }

    fn to_bits(self) -> (r: u8) {
        match self {
            Qit::Zero => 0,
            Qit::One => 1,
            Qit::X => 2,
            Qit::Z => 3,
        }
    }

    fn from_bits(bits: u8) -> (r: Self) {
        let low = bits & 3;
        if low == 0 {
            Qit::Zero
        } else if low == 1 {
            Qit::One
        } else if low == 2 {
            Qit::X
        } else {
            Qit::Z
        }
    }

    fn defined(bits: u8) -> (r: bool) {
        bits <= 3
    }

    fn empty() -> (r: Self) {
        Qit::X
    }

    fn format_prefix() -> (r: &'static str) {
        proof {
            reveal_strlit("q");
        }
        let r = "q";
        assert(r@ =~= seq!['q']);
        r
    }

    proof fn lemma_bits() {
    }

    proof fn lemma_zero() {
        assert(0u8 & 3 == 0) by (bit_vector);
    }

    proof fn lemma_encoding(unit: Self) {
        assert(0u8 & 3 == 0 && 1u8 & 3 == 1 && 2u8 & 3 == 2 && 3u8 & 3 == 3) by (bit_vector);
    }
}

impl Qit {
    /// The number of bytes that hold `bits` quaternary digits.
    pub fn bits_to_bytes(bits: usize) -> (r: usize)
        ensures
            r == packed_len(bits as nat, 2),
    {
        bytes_for::<Qit>(bits)
    }
}

/// A digit type whose fresh vectors are filled with one byte pattern.
pub trait BitType: Logic {
    /// The byte that fresh vectors are filled with.
    spec fn spec_uninit_byte() -> u8;

    fn uninit_byte() -> (r: u8)
        ensures
            r == Self::spec_uninit_byte(),
    ;

    /// Every digit of the fill byte is the type's empty digit.
    proof fn lemma_uninit(shift: u8)
        requires
            shift < 8,
            shift % Self::spec_bits() == 0,
        ensures
            Self::spec_from_bits(field_at(Self::spec_uninit_byte(), Self::spec_bits(), shift))
                == Self::spec_empty(),
    ;
}

impl BitType for Bit {
    open spec fn spec_uninit_byte() -> u8 {
        0
    }

    fn uninit_byte() -> (r: u8) {
        0
    }

    proof fn lemma_uninit(shift: u8) {
        assert(shift < 8 ==> ((0u8 >> shift) & 1) & 1 == 0) by (bit_vector);
    }
}

impl BitType for Qit {
    open spec fn spec_uninit_byte() -> u8 {
        0b1010_1010
    }

    fn uninit_byte() -> (r: u8) {
        0b1010_1010
    }

    proof fn lemma_uninit(shift: u8) {
        assert(shift < 8 && shift % 2 == 0 ==> ((0b1010_1010u8 >> shift) & 3) & 3 == 2)
            by (bit_vector);
    }
}

/// A vector of digits, packed into bytes.
pub struct BitSlice<T: BitType> {
    len: usize,
    bytes: Vec<u8>,
    marker: PhantomData<T>,
}

impl<T: BitType> View for BitSlice<T> {
    type V = Seq<T>;

    closed spec fn view(&self) -> Seq<T> {
        unpack::<T>(self.bytes@, self.len as nat)
    }
}

impl<T: BitType> BitSlice<T> {
    /// The packed bytes.
    pub closed spec fn raw(&self) -> Seq<u8> {
        self.bytes@
    }

    /// The bytes hold exactly as many digits as the vector has.
    pub closed spec fn wf(&self) -> bool {
        self.bytes@.len() == packed_len(self.len as nat, T::spec_bits())
    }

    /// A vector of `len` digits read out of `bytes`, which must hold at
    /// least as many. Bytes beyond the last digit are left out.
    pub fn new(len: usize, bytes: &[u8]) -> (r: Self)
        requires
            bytes@.len() * per_byte(T::spec_bits()) >= len,
        ensures
            r.wf(),
            r@ == unpack::<T>(bytes@, len as nat),
            r.raw() == bytes@.subrange(0, packed_len(len as nat, T::spec_bits()) as int),
    {
        let n = bytes_for::<T>(len);
        proof {
            T::lemma_bits();
            lemma_packed_bounds(len as nat, T::spec_bits(), len as int);
            let count = bytes@.len() as int;
            if T::spec_bits() == 1 {
                assert(count * 8 >= len ==> (len + 7) / 8 <= count);
            } else if T::spec_bits() == 2 {
                assert(count * 4 >= len ==> (len + 3) / 4 <= count);
            } else {
                assert(count * 2 >= len ==> (len + 1) / 2 <= count);
            }
        }
        let mut own: Vec<u8> = Vec::new();
        let mut i: usize = 0;
        while i < n
            invariant
                i <= n,
                n <= bytes@.len(),
                own@ == bytes@.subrange(0, i as int),
            decreases n - i,
        {
            own.push(bytes[i]);
            i += 1;
            assert(own@ =~= bytes@.subrange(0, i as int));
        }
        let r = BitSlice { len, bytes: own, marker: PhantomData };
        proof {
            assert forall|k: int| 0 <= k < len implies unit_at::<T>(r.bytes@, k) == unit_at::<T>(
                bytes@,
                k,
            ) by {
                lemma_packed_bounds(len as nat, T::spec_bits(), k);
            }
            assert(r@ =~= unpack::<T>(bytes@, len as nat));
        }
        r
    }

    /// A vector of `len` digits, each of them the type's empty digit.
    pub fn new_boxed(len: usize) -> (r: Self)
        ensures
            r.wf(),
            r@ == Seq::new(len as nat, |i: int| T::spec_empty()),
    {
        let n = bytes_for::<T>(len);
        let fill = T::uninit_byte();
        let mut bytes: Vec<u8> = Vec::new();
        let mut k: usize = 0;
        while k < n
            invariant
                k <= n,
                bytes@.len() == k,
                forall|j: int| 0 <= j < k ==> bytes@[j] == fill,
            decreases n - k,
        {
            bytes.push(fill);
            k += 1;
        }
        let r = BitSlice { len, bytes, marker: PhantomData };
        proof {
            T::lemma_bits();
            assert forall|i: int| 0 <= i < len implies unit_at::<T>(r.bytes@, i)
                == T::spec_empty() by {
                lemma_position(i, T::spec_bits());
                lemma_packed_bounds(len as nat, T::spec_bits(), i);
                T::lemma_uninit(shift_of(i, T::spec_bits()));
            }
            assert(r@ =~= Seq::new(len as nat, |i: int| T::spec_empty()));
        }
        r
    }

    /// The number of digits.
    pub fn len(&self) -> (r: usize)
        ensures
            r == self@.len(),
    {
        self.len
    }

    /// The packed bytes.
    pub fn bytes(&self) -> (r: &[u8])
        ensures
            r@ == self.raw(),
    {
        self.bytes.as_slice()
    }

    /// The digit at `index`.
    pub fn get(&self, index: usize) -> (r: T)
        requires
            self.wf(),
            index < self@.len(),
        ensures
            r == self@[index as int],
    {
        proof {
            T::lemma_bits();
            lemma_packed_bounds(self.len as nat, T::spec_bits(), index as int);
        }
        get_unit::<T>(self.bytes.as_slice(), index)
    }

    /// Replaces every digit by what `f` makes of it.
    pub fn update<F: Fn(T) -> T>(&mut self, f: F)
        requires
            old(self).wf(),
            forall|digit: T| call_requires(f, (digit,)),
        ensures
            final(self).wf(),
            final(self)@.len() == old(self)@.len(),
            forall|i: int|
                0 <= i < old(self)@.len() ==> call_ensures(f, (old(self)@[i],), #[trigger] final(self)@[i]),
    {
        let mut i: usize = 0;
        while i < self.len
            invariant
                i <= self.len,
                self.len == old(self).len,
                self.wf(),
                forall|digit: T| call_requires(f, (digit,)),
                forall|j: int|
                    0 <= j < i ==> call_ensures(f, (old(self)@[j],), #[trigger] self@[j]),
                forall|j: int| i <= j < self.len ==> self@[j] == old(self)@[j],
            decreases self.len - i,
        {
            proof {
                T::lemma_bits();
                lemma_packed_bounds(self.len as nat, T::spec_bits(), i as int);
            }
            let digit = get_unit::<T>(self.bytes.as_slice(), i);
            let made = f(digit);
            let ghost before = self@;
            proof {
                lemma_set_unit::<T>(self.bytes@, self.len as nat, i as int, made);
            }
            set_unit::<T>(self.bytes.as_mut_slice(), i, made);
            assert(self@ == before.update(i as int, made));
            i += 1;
        }
    }

    /// Replaces every digit by what `f` makes of it and of the digit of
    /// `other` at the same place.
    pub fn mix<F: Fn(T, T) -> T>(&mut self, other: &Self, f: F)
        requires
            old(self).wf(),
            other.wf(),
            old(self)@.len() == other@.len(),
            forall|mine: T, theirs: T| call_requires(f, (mine, theirs)),
        ensures
            final(self).wf(),
            final(self)@.len() == old(self)@.len(),
            forall|i: int|
                0 <= i < old(self)@.len() ==> call_ensures(
                    f,
                    (old(self)@[i], other@[i]),
                    #[trigger] final(self)@[i],
                ),
    {
        let mut i: usize = 0;
        while i < self.len
            invariant
                i <= self.len,
                self.len == old(self).len,
                self.len == other.len,
                self.wf(),
                other.wf(),
                forall|mine: T, theirs: T| call_requires(f, (mine, theirs)),
                forall|j: int|
                    0 <= j < i ==> call_ensures(
                        f,
                        (old(self)@[j], other@[j]),
                        #[trigger] self@[j],
                    ),
                forall|j: int| i <= j < self.len ==> self@[j] == old(self)@[j],
            decreases self.len - i,
        {
            proof {
                T::lemma_bits();
                lemma_packed_bounds(self.len as nat, T::spec_bits(), i as int);
            }
            let mine = get_unit::<T>(self.bytes.as_slice(), i);
            let theirs = get_unit::<T>(other.bytes.as_slice(), i);
            let made = f(mine, theirs);
            let ghost before = self@;
            proof {
                lemma_set_unit::<T>(self.bytes@, self.len as nat, i as int, made);
            }
            set_unit::<T>(self.bytes.as_mut_slice(), i, made);
            assert(self@ == before.update(i as int, made));
            i += 1;
        }
    }

    /// Walks the digits from the first on.
    pub fn iter(&self) -> (r: BitSliceIter<'_, T>)
        requires
            self.wf(),
        ensures
            r.wf(),
            r@ == self@,
    {
        let r = BitSliceIter { size: self.len, index: 0, bytes: self.bytes.as_slice(), marker: PhantomData };
        assert(r@ =~= self@);
        r
    }
}

/// Walks the digits of a vector.
pub struct BitSliceIter<'a, T: BitType> {
    size: usize,
    index: usize,
    bytes: &'a [u8],
    marker: PhantomData<T>,
}

impl<'a, T: BitType> View for BitSliceIter<'a, T> {
    type V = Seq<T>;

    /// The digits still to come.
    closed spec fn view(&self) -> Seq<T> {
        unpack::<T>(self.bytes@, self.size as nat).subrange(self.index as int, self.size as int)
    }
}

impl<'a, T: BitType> BitSliceIter<'a, T> {
    pub closed spec fn wf(&self) -> bool {
        &&& self.index <= self.size
        &&& self.bytes@.len() == packed_len(self.size as nat, T::spec_bits())
    }

    /// The next digit, or `None` once every digit has come.
    pub fn next(&mut self) -> (r: Option<T>)
        requires
            old(self).wf(),
        ensures
            final(self).wf(),
            r == if old(self)@.len() > 0 {
                Some(old(self)@[0])
            } else {
                None::<T>
            },
            final(self)@ == if old(self)@.len() > 0 {
                old(self)@.drop_first()
            } else {
                old(self)@
            },
    {
        if self.index < self.size {
            proof {
                T::lemma_bits();
                lemma_packed_bounds(self.size as nat, T::spec_bits(), self.index as int);
            }
            let digit = get_unit::<T>(self.bytes, self.index);
            self.index += 1;
            assert(final(self)@ =~= old(self)@.drop_first());
            Some(digit)
        } else {
            None
        }
    }
}

/// A value change: a timestamp and the bits of the value.
pub struct ValueChangeNode<T: BitType> {
    pub timestamp: u64,
    pub bits: BitSlice<T>,
}

/// A record type whose size depends on a number of bits that is known at
/// run time: what precedes the bits, and how a record is aligned.
pub trait KnownUnsized: Sized {
    /// What a record holds besides its bits.
    type Parts;

    /// The digits of the record's bits.
    type Bit: BitType;

    /// The number of bytes that precede the bits.
    spec fn spec_header_size() -> usize;

    /// The alignment of a record.
    spec fn spec_align() -> usize;

    /// The bytes that precede the bits, for given parts.
    spec fn spec_header(parts: Self::Parts) -> Seq<u8>;

    fn header_size() -> (r: usize)
        ensures
            r == Self::spec_header_size(),
    ;

    fn align() -> (r: usize)
        ensures
            r == Self::spec_align(),
    ;

    /// Appends the bytes that precede the bits.
    fn write_header(parts: Self::Parts, dest: &mut Vec<u8>)
        ensures
            final(dest)@ == old(dest)@ + Self::spec_header(parts),
    ;

    /// The header is as long as the type says, at most 8 bytes; the
    /// alignment is 1 or 8.
    proof fn lemma_layout(parts: Self::Parts)
        ensures
            Self::spec_header(parts).len() == Self::spec_header_size(),
            Self::spec_header_size() <= 8,
            Self::spec_align() == 1 || Self::spec_align() == 8,
    ;
}

impl<T: BitType> KnownUnsized for BitSlice<T> {
    type Parts = ();

    type Bit = T;

    open spec fn spec_header_size() -> usize {
        0
    }

    open spec fn spec_align() -> usize {
        1
    }

    open spec fn spec_header(parts: ()) -> Seq<u8> {
        Seq::empty()
    }

    fn header_size() -> (r: usize) {
        0
    }

    fn align() -> (r: usize) {
        1
    }

    fn write_header(parts: (), dest: &mut Vec<u8>) {
        assert(dest@ =~= old(dest)@ + Seq::<u8>::empty());
    }

    proof fn lemma_layout(parts: ()) {
    }
}

impl<T: BitType> KnownUnsized for ValueChangeNode<T> {
    type Parts = u64;

    type Bit = T;

    open spec fn spec_header_size() -> usize {
        8
    }

    open spec fn spec_align() -> usize {
        8
    }

    /// The timestamp, little-endian.
    open spec fn spec_header(parts: u64) -> Seq<u8> {
        vstd::bytes::spec_u64_to_le_bytes(parts)
    }

    fn header_size() -> (r: usize) {
        8
    }

    fn align() -> (r: usize) {
        8
    }

    fn write_header(parts: u64, dest: &mut Vec<u8>) {
        let encoded = vstd::bytes::u64_to_le_bytes(parts);
        let mut i: usize = 0;
        while i < 8
            invariant
                i <= 8,
                encoded@.len() == 8,
                dest@ == old(dest)@ + encoded@.subrange(0, i as int),
            decreases 8 - i,
        {
            dest.push(encoded[i]);
            i += 1;
            assert(dest@ =~= old(dest)@ + encoded@.subrange(0, i as int));
        }
        assert(encoded@.subrange(0, 8) =~= encoded@);
    }

    proof fn lemma_layout(parts: u64) {
        vstd::bytes::lemma_auto_spec_u64_to_from_le_bytes();
    }
}

impl<T: BitType> ValueChangeNode<T> {
    /// Where the bits of a node begin, counted in bytes from its timestamp.
    pub fn bits_offset() -> (r: usize)
        ensures
            r == 8,
            r == <ValueChangeNode<T> as KnownUnsized>::spec_header_size(),
    {
        <ValueChangeNode<T> as KnownUnsized>::header_size()
    }
}

/// The bytes that a record of `meta` bits takes, without padding.
pub open spec fn spec_size_from_meta<T: KnownUnsized>(meta: usize) -> nat {
    (T::spec_header_size() + packed_len(meta as nat, T::Bit::spec_bits())) as nat
}

/// The bytes from one record to the next: the size, rounded up to the
/// alignment.
pub open spec fn spec_element_size<T: KnownUnsized>(meta: usize) -> nat {
    let size = spec_size_from_meta::<T>(meta);
    if T::spec_align() == 8 && size % 8 != 0 {
        (size + (8 - size % 8)) as nat
    } else {
        size
    }
}

/// The bytes that a record of `meta` bits takes, without padding.
pub fn size_from_meta<T: KnownUnsized>(meta: usize) -> (r: usize)
    requires
        spec_size_from_meta::<T>(meta) <= usize::MAX,
    ensures
        r == spec_size_from_meta::<T>(meta),
{
    T::header_size() + bytes_for::<T::Bit>(meta)
}

/// One record as a vector holds it.
pub struct Record<T: KnownUnsized> {
    /// The bytes that precede the bits.
    pub header: Seq<u8>,
    /// The bits.
    pub bits: Seq<T::Bit>,
}

/// A vector of records of one run-time size.
pub struct KnownUnsizedVec<T: KnownUnsized> {
    element_size: usize,
    meta: usize,
    len: usize,
    data: Vec<u8>,
    marker: PhantomData<T>,
}

impl<T: KnownUnsized> View for KnownUnsizedVec<T> {
    type V = Seq<Record<T>>;

    closed spec fn view(&self) -> Seq<Record<T>> {
        Seq::new(
            self.len as nat,
            |i: int|
                Record {
                    header: self.data@.subrange(
                        i * self.element_size,
                        i * self.element_size + T::spec_header_size(),
                    ),
                    bits: unpack::<T::Bit>(
                        self.data@.subrange(
                            i * self.element_size + T::spec_header_size(),
                            i * self.element_size + spec_size_from_meta::<T>(self.meta),
                        ),
                        self.meta as nat,
                    ),
                },
        )
    }
}

impl<T: KnownUnsized> KnownUnsizedVec<T> {
    /// The number of bits of every record.
    pub closed spec fn spec_meta(&self) -> usize {
        self.meta
    }

    /// The records lie one behind the other, each as large as the vector's
    /// element size.
    pub closed spec fn wf(&self) -> bool {
        &&& self.element_size == spec_element_size::<T>(self.meta)
        &&& self.data@.len() == self.len * self.element_size
    }

    /// An empty vector for records of `meta` bits, with room for `cap`
    /// records.
    pub fn with_capacity_in(meta: usize, cap: usize) -> (r: Self)
        requires
            spec_size_from_meta::<T>(meta) + 8 <= usize::MAX,
        ensures
            r.wf(),
            r.spec_meta() == meta,
            r@ == Seq::<Record<T>>::empty(),
    {
        let size = size_from_meta::<T>(meta);
        let element_size = if T::align() == 8 && size % 8 != 0 {
            size + (8 - size % 8)
        } else {
            size
        };
        let room = match cap.checked_mul(element_size) {
            Some(room) => room,
            None => 0,
        };
        let r = KnownUnsizedVec {
            element_size,
            meta,
            len: 0,
            data: Vec::with_capacity(room),
            marker: PhantomData,
        };
        assert(r.len * r.element_size == 0) by (nonlinear_arith)
            requires
                r.len == 0,
        ;
        assert(r@ =~= Seq::<Record<T>>::empty());
        r
    }

    /// The number of records.
    pub fn len(&self) -> (r: usize)
        ensures
            r == self@.len(),
    {
        self.len
    }

    /// The number of bits of every record.
    pub fn meta(&self) -> (r: usize)
        ensures
            r == self.spec_meta(),
    {
        self.meta
    }

    /// Appends a record: the header of `parts`, then the bits of `slice`.
    pub fn push(&mut self, slice: &BitSlice<T::Bit>, parts: T::Parts)
        requires
            old(self).wf(),
            slice.wf(),
            slice@.len() == old(self).spec_meta(),
            old(self)@.len() < usize::MAX,
            (old(self)@.len() + 1) * spec_element_size::<T>(old(self).spec_meta()) <= usize::MAX,
        ensures
            final(self).wf(),
            final(self).spec_meta() == old(self).spec_meta(),
            final(self)@ == old(self)@.push(
                Record { header: T::spec_header(parts), bits: slice@ },
            ),
    {
        let ghost data0 = self.data@;
        let ghost start = self.len * self.element_size;
        proof {
            T::lemma_layout(parts);
            T::Bit::lemma_bits();
            assert((self.len + 1) * self.element_size == self.len * self.element_size
                + self.element_size) by (nonlinear_arith);
        }
        let target = self.data.len() + self.element_size;
        T::write_header(parts, &mut self.data);
        let bits = slice.bytes();
        let mut i: usize = 0;
        while i < bits.len()
            invariant
                i <= bits@.len(),
                self.data@ == data0 + T::spec_header(parts) + bits@.subrange(0, i as int),
                self.len == old(self).len,
                self.meta == old(self).meta,
                self.element_size == old(self).element_size,
            decreases bits@.len() - i,
        {
            self.data.push(bits[i]);
            i += 1;
            assert(self.data@ =~= data0 + T::spec_header(parts) + bits@.subrange(0, i as int));
        }
        assert(bits@.subrange(0, bits@.len() as int) =~= bits@);
        let ghost data1 = self.data@;
        assert(data1.subrange(0, start as int) =~= data0);
        while self.data.len() < target
            invariant
                self.len == old(self).len,
                self.meta == old(self).meta,
                self.element_size == old(self).element_size,
                self.data@.len() <= target,
                target == (self.len + 1) * self.element_size,
                self.data@.len() >= data1.len(),
                self.data@.subrange(0, data1.len() as int) == data1,
            decreases target - self.data@.len(),
        {
            self.data.push(0u8);
            assert(self.data@.subrange(0, data1.len() as int) =~= data1);
        }
        self.len += 1;
        proof {
            let size = spec_size_from_meta::<T>(self.meta);
            let es = self.element_size as int;
            let grown = old(self)@.push(Record { header: T::spec_header(parts), bits: slice@ });
            let count = old(self).len as int;
            assert(self.data@.len() == start + es);
            assert(size <= es);
            assert(data1.len() == start + size);
            assert forall|x: int| 0 <= x < start + size implies self.data@[x] == data1[x] by {
                assert(self.data@.subrange(0, data1.len() as int)[x] == data1[x]);
            }
            assert forall|k: int| 0 <= k < self.len implies self@[k] == grown[k] by {
                assert(k * es + es <= start + es) by (nonlinear_arith)
                    requires
                        0 <= k < count + 1,
                        start == count * es,
                        es >= 0,
                ;
                assert(k * es >= 0) by (nonlinear_arith)
                    requires
                        0 <= k,
                        es >= 0,
                ;
                if k < count {
                    assert(k * es + es <= start) by (nonlinear_arith)
                        requires
                            0 <= k < count,
                            start == count * es,
                            es >= 0,
                    ;
                    assert(self.data@.subrange(k * es, k * es + T::spec_header_size())
                        =~= data0.subrange(k * es, k * es + T::spec_header_size()));
                    assert(self.data@.subrange(k * es + T::spec_header_size(), k * es + size)
                        =~= data0.subrange(k * es + T::spec_header_size(), k * es + size));
                } else {
                    assert(k * es == start) by (nonlinear_arith)
                        requires
                            k == count,
                            start == count * es,
                    ;
                    assert(data1.subrange(start, start + T::spec_header_size())
                        =~= T::spec_header(parts));
                    assert(data1.subrange(start + T::spec_header_size(), start + size) =~= bits@);
                    assert(self.data@.subrange(start, start + T::spec_header_size())
                        =~= T::spec_header(parts));
                    assert(self.data@.subrange(start + T::spec_header_size(), start + size)
                        =~= bits@);
                }
            }
            assert(self@ =~= grown);
        }
    }

    /// The record at `index`: the bytes that precede its bits, and its
    /// bits.
    pub fn get(&self, index: usize) -> (r: (Vec<u8>, BitSlice<T::Bit>))
        requires
            self.wf(),
            index < self@.len(),
        ensures
            r.0@ == self@[index as int].header,
            r.1@ == self@[index as int].bits,
            r.1.wf(),
    {
        let ghost es = self.element_size as int;
        proof {
            T::Bit::lemma_bits();
            assert(index * es + es <= self.len * es) by (nonlinear_arith)
                requires
                    0 <= index < self.len,
                    es >= 0,
            ;
            assert(index * es >= 0) by (nonlinear_arith)
                requires
                    0 <= index,
                    es >= 0,
            ;
        }
        let _ = self.data.len();
        let start = index * self.element_size;
        let head = T::header_size();
        let packed = bytes_for::<T::Bit>(self.meta);
        assert(start + head + packed <= self.data@.len());
        let mut header: Vec<u8> = Vec::new();
        let mut i: usize = 0;
        while i < head
            invariant
                i <= head,
                start + head + packed <= self.data@.len(),
                self.data@.len() <= usize::MAX,
                header@ == self.data@.subrange(start as int, start + i),
            decreases head - i,
        {
            header.push(self.data[start + i]);
            i += 1;
            assert(header@ =~= self.data@.subrange(start as int, start + i));
        }
        let source = vstd::slice::slice_subrange(
            self.data.as_slice(),
            start + head,
            start + head + packed,
        );
        proof {
            if T::Bit::spec_bits() == 1 {
            } else if T::Bit::spec_bits() == 2 {
            } else {
            }
            lemma_packed_bounds(self.meta as nat, T::Bit::spec_bits(), self.meta as int);
        }
        let bits = BitSlice::<T::Bit>::new(self.meta, source);
        proof {
            assert(source@.subrange(0, packed as int) =~= source@);
        }
        (header, bits)
    }
}

} // verus!
