//! Varints: integers in as few bytes as their size asks for, seven bits to
//! the byte. Encoding and decoding are done by the `varint_simd` crate.

use crate::bytes::splice;
use crate::mmap_vec::{NoMeta, VariableLength, VariableRead, VariableWrite};
use vstd::prelude::*;

verus! {

/// What `varint_simd::decode::<u32>` makes of the bytes: the number and the
/// count of bytes that it read, or whether it failed for overflow (`true`)
/// or for want of bytes (`false`).
pub uninterp spec fn varint_u32(bytes: Seq<u8>) -> Result<(u32, usize), bool>;

/// What `varint_simd::decode::<u64>` makes of the bytes: the number and the
/// count of bytes that it read, or whether it failed for overflow (`true`)
/// or for want of bytes (`false`).
pub uninterp spec fn varint_u64(bytes: Seq<u8>) -> Result<(u64, usize), bool>;

/// The bytes that `varint_simd::encode_to_slice::<u32>` writes for a
/// number.
pub uninterp spec fn varint_bytes_u32(num: u32) -> Seq<u8>;

/// The bytes that `varint_simd::encode_to_slice::<u64>` writes for a
/// number.
pub uninterp spec fn varint_bytes_u64(num: u64) -> Seq<u8>;

/// Decodes a varint of at most 32 bits with `varint_simd::decode`.
///
/// The decoder is taken on trust. What is claimed of it: it is a function
/// of the bytes alone; it reads at least one byte and at most five, and
/// none beyond the input.
#[verifier::external_body]
pub(crate) fn decode_varint_u32(bytes: &[u8]) -> (r: Result<(u32, usize), bool>)
    ensures
        r == varint_u32(bytes@),
        r is Ok ==> 1 <= (r->Ok_0).1 <= 5 && (r->Ok_0).1 <= bytes@.len(),
{
    match varint_simd::decode::<u32>(bytes) {
        Ok(found) => Ok(found),
        Err(varint_simd::VarIntDecodeError::Overflow) => Err(true),
        Err(varint_simd::VarIntDecodeError::NotEnoughBytes) => Err(false),
    }
}

/// Decodes a varint of at most 64 bits with `varint_simd::decode`.
///
/// The decoder is taken on trust. What is claimed of it: it is a function
/// of the bytes alone; it reads at least one byte and at most ten, and none
/// beyond the input.
#[verifier::external_body]
pub(crate) fn decode_varint_u64(bytes: &[u8]) -> (r: Result<(u64, usize), bool>)
    ensures
        r == varint_u64(bytes@),
        r is Ok ==> 1 <= (r->Ok_0).1 <= 10 && (r->Ok_0).1 <= bytes@.len(),
{
    match varint_simd::decode::<u64>(bytes) {
        Ok(found) => Ok(found),
        Err(varint_simd::VarIntDecodeError::Overflow) => Err(true),
        Err(varint_simd::VarIntDecodeError::NotEnoughBytes) => Err(false),
    }
}

/// Encodes a number of 32 bits with `varint_simd::encode_to_slice`.
///
/// The encoder is taken on trust. What is claimed of it: the bytes are a
/// function of the number alone, at least one and at most five; they are
/// written to the front of `dest`, and the rest of `dest` is left alone.
/// The encoder panics where `dest` is too small; ten bytes are enough.
#[verifier::external_body]
pub(crate) fn encode_varint_u32(num: u32, dest: &mut [u8]) -> (n: usize)
    requires
        old(dest)@.len() >= 10,
    ensures
        n == varint_bytes_u32(num).len(),
        1 <= n <= 5,
        final(dest)@ == splice(old(dest)@, 0, varint_bytes_u32(num)),
{
    varint_simd::encode_to_slice::<u32>(num, dest) as usize
}

/// Encodes a number of 64 bits with `varint_simd::encode_to_slice`.
///
/// The encoder is taken on trust. What is claimed of it: the bytes are a
/// function of the number alone, at least one and at most ten; they are
/// written to the front of `dest`, and the rest of `dest` is left alone.
/// The encoder panics where `dest` is too small; ten bytes are enough.
#[verifier::external_body]
pub(crate) fn encode_varint_u64(num: u64, dest: &mut [u8]) -> (n: usize)
    requires
        old(dest)@.len() >= 10,
    ensures
        n == varint_bytes_u64(num).len(),
        1 <= n <= 10,
        final(dest)@ == splice(old(dest)@, 0, varint_bytes_u64(num)),
{
    varint_simd::encode_to_slice::<u64>(num, dest) as usize
}

impl VariableLength for u32 {
    type Meta = NoMeta;

    type DefaultReadData = u32;
}

impl VariableLength for u64 {
    type Meta = NoMeta;

    type DefaultReadData = u64;
}

impl<Parent: VariableLength> VariableWrite<Parent> for u32 {
    open spec fn spec_max_size(meta: Parent::Meta) -> usize {
        10
    }

    open spec fn encoded(self, meta: Parent::Meta) -> Seq<u8> {
        varint_bytes_u32(self)
    }

    fn max_size(meta: Parent::Meta) -> (r: usize) {
        10
    }

    fn write_variable(self, meta: Parent::Meta, b: &mut [u8]) -> (n: usize) {
        encode_varint_u32(self, b)
    }
}

impl<Parent: VariableLength> VariableWrite<Parent> for u64 {
    open spec fn spec_max_size(meta: Parent::Meta) -> usize {
        10
    }

    open spec fn encoded(self, meta: Parent::Meta) -> Seq<u8> {
        varint_bytes_u64(self)
    }

    fn max_size(meta: Parent::Meta) -> (r: usize) {
        10
    }

    fn write_variable(self, meta: Parent::Meta, b: &mut [u8]) -> (n: usize) {
        encode_varint_u64(self, b)
    }
}

impl<Parent: VariableLength> VariableRead<Parent> for u32 {
    open spec fn decoded(meta: Parent::Meta, b: Seq<u8>) -> Option<(u32, usize)> {
        match varint_u32(b) {
            Ok(found) => Some(found),
            Err(_) => None,
        }
    }

    fn read_variable(meta: Parent::Meta, b: &[u8]) -> (r: Option<(u32, usize)>) {
        match decode_varint_u32(b) {
            Ok(found) => Some(found),
            Err(_) => None,
        }
    }
}

impl<Parent: VariableLength> VariableRead<Parent> for u64 {
    open spec fn decoded(meta: Parent::Meta, b: Seq<u8>) -> Option<(u64, usize)> {
        match varint_u64(b) {
            Ok(found) => Some(found),
            Err(_) => None,
        }
    }

    fn read_variable(meta: Parent::Meta, b: &[u8]) -> (r: Option<(u64, usize)>) {
        match decode_varint_u64(b) {
            Ok(found) => Some(found),
            Err(_) => None,
        }
    }
}

} // verus!
