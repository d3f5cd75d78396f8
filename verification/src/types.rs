//! Borrowed and owned vectors of binary and quaternary digits, as the
//! parsers hand them on.

use crate::logic::{bytes_for, get_unit, packed_len, unpack, Logic};
pub use crate::unsized_types::{Bit, Qit};
use vstd::prelude::*;

verus! {

/// The number of bytes that `count` items of a container take.
pub trait SizeInBytes {
    spec fn spec_size_in_bytes(count: usize) -> nat;

    fn size_in_bytes(count: usize) -> (r: usize)
        ensures
            r == Self::spec_size_in_bytes(count),
    ;
}

/// A borrowed vector of binary digits.
#[derive(Clone, Copy)]
pub struct BitSlice<'a> {
    size: usize,
    data: &'a [u8],
}

/// A borrowed vector of quaternary digits.
#[derive(Clone, Copy)]
pub struct QitSlice<'a> {
    size: usize,
    data: &'a [u8],
}

/// An owned vector of binary digits.
#[derive(Debug)]
pub struct BitVec {
    size: usize,
    data: Vec<u8>,
}

/// An owned vector of quaternary digits.
#[derive(Debug)]
pub struct QitVec {
    size: usize,
    data: Vec<u8>,
}

impl<'a> SizeInBytes for BitSlice<'a> {
    open spec fn spec_size_in_bytes(count: usize) -> nat {
        packed_len(count as nat, 1)
    }

    fn size_in_bytes(count: usize) -> (r: usize) {
        bytes_for::<Bit>(count)
    }
}

impl<'a> SizeInBytes for QitSlice<'a> {
    open spec fn spec_size_in_bytes(count: usize) -> nat {
        packed_len(count as nat, 2)
    }

    fn size_in_bytes(count: usize) -> (r: usize) {
        bytes_for::<Qit>(count)
    }
}

impl SizeInBytes for BitVec {
    open spec fn spec_size_in_bytes(count: usize) -> nat {
        packed_len(count as nat, 1)
    }

    fn size_in_bytes(count: usize) -> (r: usize) {
        bytes_for::<Bit>(count)
    }
}

impl SizeInBytes for QitVec {
    open spec fn spec_size_in_bytes(count: usize) -> nat {
        packed_len(count as nat, 2)
    }

    fn size_in_bytes(count: usize) -> (r: usize) {
        bytes_for::<Qit>(count)
    }
}

impl<'a> BitSlice<'a> {
    /// The number of digits.
    pub closed spec fn spec_size(&self) -> usize {
        self.size
    }

    /// The packed bytes.
    pub closed spec fn raw(&self) -> Seq<u8> {
        self.data@
    }

    /// `size` binary digits in `data`.
    pub fn new(size: usize, data: &'a [u8]) -> (r: Self)
        ensures
            r.spec_size() == size,
            r.raw() == data@,
    {
        BitSlice { size, data }
    }

    /// The number of digits.
    pub fn size(&self) -> (r: usize)
        ensures
            r == self.spec_size(),
    {
        self.size
    }

    /// The packed bytes.
    pub fn as_ref(&self) -> (r: &'a [u8])
        ensures
            r@ == self.raw(),
    {
        self.data
    }

    /// The digit at `index`, where it lies in the bytes.
    pub fn get(&self, index: usize) -> (r: Option<Bit>)
        ensures
            r == if index < self.spec_size() && index / 8 < self.raw().len() {
                Some(unpack::<Bit>(self.raw(), self.spec_size() as nat)[index as int])
            } else {
                None
            },
    {
        if index < self.size && index / 8 < self.data.len() {
            Some(get_unit::<Bit>(self.data, index))
        } else {
            None
        }
    }
}

impl<'a> QitSlice<'a> {
    /// The number of digits.
    pub closed spec fn spec_size(&self) -> usize {
        self.size
    }

    /// The packed bytes.
    pub closed spec fn raw(&self) -> Seq<u8> {
        self.data@
    }

    /// `size` quaternary digits in `data`.
    pub fn new(size: usize, data: &'a [u8]) -> (r: Self)
        ensures
            r.spec_size() == size,
            r.raw() == data@,
    {
        QitSlice { size, data }
    }

    /// The number of digits.
    pub fn size(&self) -> (r: usize)
        ensures
            r == self.spec_size(),
    {
        self.size
    }

    /// The packed bytes.
    pub fn as_ref(&self) -> (r: &'a [u8])
        ensures
            r@ == self.raw(),
    {
        self.data
    }

    /// The digit at `index`, where it lies in the bytes.
    pub fn get(&self, index: usize) -> (r: Option<Qit>)
        ensures
            r == if index < self.spec_size() && index / 4 < self.raw().len() {
                Some(unpack::<Qit>(self.raw(), self.spec_size() as nat)[index as int])
            } else {
                None
            },
    {
        if index < self.size && index / 4 < self.data.len() {
            Some(get_unit::<Qit>(self.data, index))
        } else {
            None
        }
    }
}

impl BitVec {
    /// The number of digits.
    pub closed spec fn spec_size(&self) -> usize {
        self.size
    }

    /// The packed bytes.
    pub closed spec fn raw(&self) -> Seq<u8> {
        self.data@
    }

    /// `size` binary digits in `data`.
    pub fn new(size: usize, data: Vec<u8>) -> (r: Self)
        ensures
            r.spec_size() == size,
            r.raw() == data@,
    {
        BitVec { size, data }
    }

    /// Lends the digits.
    pub fn as_slice(&self) -> (r: BitSlice<'_>)
        ensures
            r.spec_size() == self.spec_size(),
            r.raw() == self.raw(),
    {
        BitSlice::new(self.size, self.data.as_slice())
    }
}

impl QitVec {
    /// The number of digits.
    pub closed spec fn spec_size(&self) -> usize {
        self.size
    }

    /// The packed bytes.
    pub closed spec fn raw(&self) -> Seq<u8> {
        self.data@
    }

    /// `size` quaternary digits in `data`.
    pub fn new(size: usize, data: Vec<u8>) -> (r: Self)
        ensures
            r.spec_size() == size,
            r.raw() == data@,
    {
        QitVec { size, data }
    }

    /// Lends the digits.
    pub fn as_slice(&self) -> (r: QitSlice<'_>)
        ensures
            r.spec_size() == self.spec_size(),
            r.raw() == self.raw(),
    {
        QitSlice::new(self.size, self.data.as_slice())
    }
}

} // verus!
