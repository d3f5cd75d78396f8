//! The parser of streamed value change blocks (SVCB).
//!
//! A stream is a header and then blocks, each a type byte and a body.
//! Integers are little-endian; strings are a 32-bit length and UTF-8 bytes;
//! storage ids and timesteps inside the value change blocks are varints.
//! Every parser takes the input that is left and hands back what it parsed
//! and the input behind it. Where the input ends early a parser says how
//! many bytes it misses, if it knows, so that a caller that reads a stream
//! can fetch more and try again.

use crate::logic::packed_len;
use crate::mmap_vec::{NoMeta, ReallocEnabled, VarMmapVec, VariableLength, VariableWrite};
use crate::varint::{
    decode_varint_u32, decode_varint_u64, encode_varint_u32, encode_varint_u64, varint_bytes_u32,
    varint_bytes_u64, varint_u32, varint_u64,
};
use std::collections::HashMap;
use crate::types::{BitSlice, BitVec, QitSlice, SizeInBytes};
use vstd::bytes::{
    spec_u128_from_le_bytes, spec_u32_from_le_bytes, u128_from_le_bytes, u32_from_le_bytes,
};
use vstd::prelude::*;
use vstd::slice::slice_subrange;
use vstd::string::StringSliceAdditionalSpecFns;
use vstd::utf8::{decode_utf8, valid_utf8};

verus! {

/// Why a stream is not a stream of value change blocks.
#[derive(Debug, Clone, Copy, PartialEq, Eq, Structural)]
pub enum Reason {
    /// An invalid file signature was present.
    InvalidFileSignature,
    /// An invalid version header was present.
    InvalidVersion,
    /// A storage id is not valid.
    InvalidStorageId,
    /// A storage id was already used.
    DuplicatedStorageId,
    /// Bytes are not valid UTF-8.
    InvalidUTF8,
    /// An invalid signedness value was present.
    InvalidSignedValue,
    /// An invalid variable interpretation value was present.
    InvalidInterpretationValue,
    /// An invalid storage type was present.
    InvalidStorageType,
    /// An invalid varint was present.
    InvalidVarInt,
    /// Reading the stream failed.
    IoError,
    /// An invalid block type was present.
    InvalidBlockType,
    /// The stream ended inside a block.
    BrokenStream,
}

/// Why a parser gave nothing.
#[derive(Debug, Clone, Copy, PartialEq, Eq, Structural)]
pub enum Error {
    /// Not all data is there yet; with the number of bytes that are missed,
    /// where it is known.
    Incomplete(Option<usize>),
    /// The data is wrong.
    Failure(Reason),
}

/// What a parser makes of an input: the value and the number of bytes it
/// took, or why it gave nothing.
pub type Parsed<T> = Result<(T, int), Error>;

/// Whether `r` is what `spec` says of the input `i`: the same value, with
/// the rest of the input behind what was taken, or the same error.
pub open spec fn agrees<T>(i: Seq<u8>, r: Result<(&[u8], T), Error>, spec: Parsed<T>) -> bool {
    match (r, spec) {
        (Ok((rest, value)), Ok((expected, taken))) => value == expected && 0 <= taken <= i.len()
            && rest@ == i.subrange(taken, i.len() as int),
        (Err(e), Err(expected)) => e == expected,
        _ => false,
    }
}

/// The first `count` bytes.
pub open spec fn spec_take(i: Seq<u8>, count: nat) -> Parsed<Seq<u8>> {
    if i.len() < count {
        Err(Error::Incomplete(Some((count - i.len()) as usize)))
    } else {
        Ok((i.subrange(0, count as int), count as int))
    }
}

/// One byte.
pub open spec fn spec_u8(i: Seq<u8>) -> Parsed<u8> {
    if i.len() < 1 {
        Err(Error::Incomplete(Some(1)))
    } else {
        Ok((i[0], 1))
    }
}

/// A 32-bit little-endian integer.
pub open spec fn spec_u32(i: Seq<u8>) -> Parsed<u32> {
    if i.len() < 4 {
        Err(Error::Incomplete(Some((4 - i.len()) as usize)))
    } else {
        Ok((spec_u32_from_le_bytes(i.subrange(0, 4)), 4))
    }
}

/// A 128-bit little-endian integer.
pub open spec fn spec_u128(i: Seq<u8>) -> Parsed<u128> {
    if i.len() < 16 {
        Err(Error::Incomplete(Some((16 - i.len()) as usize)))
    } else {
        Ok((spec_u128_from_le_bytes(i.subrange(0, 16)), 16))
    }
}

/// A string: its length in bytes as a 32-bit integer, then its bytes, which
/// must be UTF-8.
pub open spec fn spec_string(i: Seq<u8>) -> Parsed<Seq<char>> {
    match spec_u32(i) {
        Err(e) => Err(e),
        Ok((length, _)) => match spec_take(i.subrange(4, i.len() as int), length as nat) {
            Err(e) => Err(e),
            Ok((bytes, _)) => if valid_utf8(bytes) {
                Ok((decode_utf8(bytes), 4 + length))
            } else {
                Err(Error::Failure(Reason::InvalidUTF8))
            },
        },
    }
}

/// Takes `count` bytes off the input.
pub fn take(i: &[u8], count: usize) -> (r: Result<(&[u8], &[u8]), Error>)
    ensures
        match (r, spec_take(i@, count as nat)) {
            (Ok((rest, taken)), Ok((expected, n))) => taken@ == expected && rest@ == i@.subrange(
                n,
                i@.len() as int,
            ),
            (Err(e), Err(expected)) => e == expected,
            _ => false,
        },
{
    if i.len() < count {
        Err(Error::Incomplete(Some(count - i.len())))
    } else {
        Ok((slice_subrange(i, count, i.len()), slice_subrange(i, 0, count)))
    }
}

/// Parses one byte.
pub fn parse_u8(i: &[u8]) -> (r: Result<(&[u8], u8), Error>)
    ensures
        agrees(i@, r, spec_u8(i@)),
{
    if i.len() < 1 {
        Err(Error::Incomplete(Some(1)))
    } else {
        Ok((slice_subrange(i, 1, i.len()), i[0]))
    }
}

/// Parses a 32-bit little-endian integer.
pub fn parse_u32(i: &[u8]) -> (r: Result<(&[u8], u32), Error>)
    ensures
        agrees(i@, r, spec_u32(i@)),
{
    if i.len() < 4 {
        Err(Error::Incomplete(Some(4 - i.len())))
    } else {
        Ok((slice_subrange(i, 4, i.len()), u32_from_le_bytes(slice_subrange(i, 0, 4))))
    }
}

/// Parses a 128-bit little-endian integer.
pub fn parse_u128(i: &[u8]) -> (r: Result<(&[u8], u128), Error>)
    ensures
        agrees(i@, r, spec_u128(i@)),
{
    if i.len() < 16 {
        Err(Error::Incomplete(Some(16 - i.len())))
    } else {
        Ok((slice_subrange(i, 16, i.len()), u128_from_le_bytes(slice_subrange(i, 0, 16))))
    }
}

/// Decodes bytes as UTF-8 with the standard library's `core::str::from_utf8`.
///
/// Taken on trust: the bytes are accepted exactly where they are valid
/// UTF-8, and the string then holds the characters that they encode.
#[verifier::external_body]
fn utf8_to_string(bytes: &[u8]) -> (r: Option<String>)
    ensures
        r is Some <==> valid_utf8(bytes@),
        r is Some ==> r->Some_0@ == decode_utf8(bytes@),
{
    match core::str::from_utf8(bytes) {
        Ok(s) => Some(s.to_string()),
        Err(_) => None,
    }
}

/// What a decoded varint means to a parser: the number and the bytes it
/// took, a failure for overflow, or a want of bytes of unknown size.
pub open spec fn spec_varint<T>(found: Result<(T, usize), bool>) -> Parsed<T> {
    match found {
        Ok((value, taken)) => Ok((value, taken as int)),
        Err(true) => Err(Error::Failure(Reason::InvalidVarInt)),
        Err(false) => Err(Error::Incomplete(None)),
    }
}

/// Turns a decoded varint into a parser's result: the number with the input
/// behind it, or the parser's error.
pub fn varint_result<T>(i: &[u8], found: Result<(T, usize), bool>) -> (r: Result<(&[u8], T), Error>)
    requires
        found is Ok ==> (found->Ok_0).1 <= i@.len(),
    ensures
        agrees(i@, r, spec_varint(found)),
{
    match found {
        Ok((value, taken)) => Ok((slice_subrange(i, taken, i.len()), value)),
        Err(overflow) => if overflow {
            Err(Error::Failure(Reason::InvalidVarInt))
        } else {
            Err(Error::Incomplete(None))
        },
    }
}

/// Parses a varint of at most 32 bits.
pub fn parse_varu32(i: &[u8]) -> (r: Result<(&[u8], u32), Error>)
    ensures
        agrees(i@, r, spec_varint(varint_u32(i@))),
{
    let found = decode_varint_u32(i);
    varint_result(i, found)
}

/// Parses a varint of at most 64 bits.
pub fn parse_varu64(i: &[u8]) -> (r: Result<(&[u8], u64), Error>)
    ensures
        agrees(i@, r, spec_varint(varint_u64(i@))),
{
    let found = decode_varint_u64(i);
    varint_result(i, found)
}

/// Parses a string.
pub fn parse_string(i: &[u8]) -> (r: Result<(&[u8], String), Error>)
    ensures
        match (r, spec_string(i@)) {
            (Ok((rest, value)), Ok((expected, taken))) => value@ == expected && 0 <= taken
                <= i@.len() && rest@ == i@.subrange(taken, i@.len() as int),
            (Err(e), Err(expected)) => e == expected,
            _ => false,
        },
{
    let (i1, length) = match parse_u32(i) {
        Ok(found) => found,
        Err(e) => {
            return Err(e);
        },
    };
    let (i2, bytes) = match take(i1, length as usize) {
        Ok(found) => found,
        Err(e) => {
            return Err(e);
        },
    };
    proof {
        assert(i2@ =~= i@.subrange(4 + length, i@.len() as int));
    }
    match utf8_to_string(bytes) {
        Some(value) => Ok((i2, value)),
        None => Err(Error::Failure(Reason::InvalidUTF8)),
    }
}

/// The file signature, "svcb", read as a little-endian integer.
pub const MAGIC: u32 = 0x62637673;

/// The version of the format that is understood.
pub const VERSION: u32 = 1;

/// The start of a stream.
#[derive(Debug, Clone, Copy, PartialEq, Eq, Structural)]
pub struct Header {
    pub magic: u32,
    pub version: u32,
    /// Femtoseconds per timestep.
    pub timescale: u128,
}

/// A scope of the design.
#[derive(Debug)]
pub struct ScopeDeclaration {
    pub parent_scope_id: u32,
    pub scope_id: u32,
    pub name: String,
}

/// How the bits of an integer are read.
#[derive(Debug, Clone, Copy, PartialEq, Eq, Structural)]
pub enum Signedness {
    SignedTwosComplement,
    Unsigned,
}

/// What a storage holds.
#[derive(Debug, Clone, Copy, PartialEq, Eq, Structural)]
pub enum StorageType {
    Binary { lsb: u32 },
    Quaternary { lsb: u32 },
    Utf8,
}

/// A storage: its id, what it holds and how much of it.
#[derive(Debug, Clone, Copy, PartialEq, Eq, Structural)]
pub struct StorageDeclaration {
    pub id: u32,
    pub ty: StorageType,
    pub length: u32,
}

/// A step of the clock, as the difference to the step before.
#[derive(Debug, Clone, Copy, PartialEq, Eq, Structural)]
pub struct Timestep(pub u64);

/// Marks the parser of 32-bit varints.
pub struct Varu32;

/// Marks the parser of 64-bit varints.
pub struct Varu64;

/// What lies `taken` bytes into the input.
pub open spec fn behind(i: Seq<u8>, taken: int) -> Seq<u8> {
    i.subrange(taken, i.len() as int)
}

/// The header: the signature, the version and the timescale.
pub open spec fn spec_header(i: Seq<u8>) -> Parsed<Header> {
    match spec_u32(i) {
        Err(e) => Err(e),
        Ok((magic, _)) => if magic != MAGIC {
            Err(Error::Failure(Reason::InvalidFileSignature))
        } else {
            match spec_u32(behind(i, 4)) {
                Err(e) => Err(e),
                Ok((version, _)) => if version != VERSION {
                    Err(Error::Failure(Reason::InvalidVersion))
                } else {
                    match spec_u128(behind(i, 8)) {
                        Err(e) => Err(e),
                        Ok((timescale, _)) => Ok((Header { magic, version, timescale }, 24)),
                    }
                },
            }
        },
    }
}

/// A signedness: 0 for two's complement, 1 for unsigned.
pub open spec fn spec_signedness(i: Seq<u8>) -> Parsed<Signedness> {
    match spec_u32(i) {
        Err(e) => Err(e),
        Ok((raw, _)) => if raw == 0 {
            Ok((Signedness::SignedTwosComplement, 4))
        } else if raw == 1 {
            Ok((Signedness::Unsigned, 4))
        } else {
            Err(Error::Failure(Reason::InvalidSignedValue))
        },
    }
}

/// A storage type: 0 and 1 for binary and quaternary, each followed by the
/// index of the lowest bit; 2 for UTF-8.
pub open spec fn spec_storage_type(i: Seq<u8>) -> Parsed<StorageType> {
    match spec_u32(i) {
        Err(e) => Err(e),
        Ok((ty, _)) => if ty == 0 || ty == 1 {
            match spec_u32(behind(i, 4)) {
                Err(e) => Err(e),
                Ok((lsb, _)) => Ok(
                    (
                        if ty == 0 {
                            StorageType::Binary { lsb }
                        } else {
                            StorageType::Quaternary { lsb }
                        },
                        8,
                    ),
                ),
            }
        } else if ty == 2 {
            Ok((StorageType::Utf8, 4))
        } else {
            Err(Error::Failure(Reason::InvalidStorageType))
        },
    }
}

/// A storage declaration: the id, the type and the length.
pub open spec fn spec_storage_declaration(i: Seq<u8>) -> Parsed<StorageDeclaration> {
    match spec_u32(i) {
        Err(e) => Err(e),
        Ok((id, _)) => match spec_storage_type(behind(i, 4)) {
            Err(e) => Err(e),
            Ok((ty, taken)) => match spec_u32(behind(i, 4 + taken)) {
                Err(e) => Err(e),
                Ok((length, _)) => Ok((StorageDeclaration { id, ty, length }, 8 + taken)),
            },
        },
    }
}

/// A scope declaration: the parent's id, the scope's id and its name.
pub open spec fn spec_scope_declaration(i: Seq<u8>) -> Parsed<(u32, u32, Seq<char>)> {
    match spec_u32(i) {
        Err(e) => Err(e),
        Ok((parent, _)) => match spec_u32(behind(i, 4)) {
            Err(e) => Err(e),
            Ok((scope, _)) => match spec_string(behind(i, 8)) {
                Err(e) => Err(e),
                Ok((name, taken)) => Ok(((parent, scope, name), 8 + taken)),
            },
        },
    }
}

/// Parses the header.
pub fn parse_header(i: &[u8]) -> (r: Result<(&[u8], Header), Error>)
    ensures
        agrees(i@, r, spec_header(i@)),
{
    let (i1, magic) = match parse_u32(i) {
        Ok(found) => found,
        Err(e) => {
            return Err(e);
        },
    };
    if magic != MAGIC {
        return Err(Error::Failure(Reason::InvalidFileSignature));
    }
    let (i2, version) = match parse_u32(i1) {
        Ok(found) => found,
        Err(e) => {
            return Err(e);
        },
    };
    if version != VERSION {
        return Err(Error::Failure(Reason::InvalidVersion));
    }
    proof {
        assert(i2@ =~= behind(i@, 8));
    }
    let (i3, timescale) = match parse_u128(i2) {
        Ok(found) => found,
        Err(e) => {
            return Err(e);
        },
    };
    proof {
        assert(i3@ =~= behind(i@, 24));
    }
    Ok((i3, Header { magic, version, timescale }))
}

/// Parses a signedness.
pub fn parse_signedness(i: &[u8]) -> (r: Result<(&[u8], Signedness), Error>)
    ensures
        agrees(i@, r, spec_signedness(i@)),
{
    let (i1, raw) = match parse_u32(i) {
        Ok(found) => found,
        Err(e) => {
            return Err(e);
        },
    };
    if raw == 0 {
        Ok((i1, Signedness::SignedTwosComplement))
    } else if raw == 1 {
        Ok((i1, Signedness::Unsigned))
    } else {
        Err(Error::Failure(Reason::InvalidSignedValue))
    }
}

/// Parses a storage type.
pub fn parse_storage_type(i: &[u8]) -> (r: Result<(&[u8], StorageType), Error>)
    ensures
        agrees(i@, r, spec_storage_type(i@)),
{
    let (i1, ty) = match parse_u32(i) {
        Ok(found) => found,
        Err(e) => {
            return Err(e);
        },
    };
    if ty == 0 || ty == 1 {
        let (i2, lsb) = match parse_u32(i1) {
            Ok(found) => found,
            Err(e) => {
                return Err(e);
            },
        };
        proof {
            assert(i2@ =~= behind(i@, 8));
        }
        if ty == 0 {
            Ok((i2, StorageType::Binary { lsb }))
        } else {
            Ok((i2, StorageType::Quaternary { lsb }))
        }
    } else if ty == 2 {
        Ok((i1, StorageType::Utf8))
    } else {
        Err(Error::Failure(Reason::InvalidStorageType))
    }
}

/// Parses a storage declaration.
pub fn parse_storage_declaration(i: &[u8]) -> (r: Result<(&[u8], StorageDeclaration), Error>)
    ensures
        agrees(i@, r, spec_storage_declaration(i@)),
{
    let (i1, id) = match parse_u32(i) {
        Ok(found) => found,
        Err(e) => {
            return Err(e);
        },
    };
    let (i2, ty) = match parse_storage_type(i1) {
        Ok(found) => found,
        Err(e) => {
            return Err(e);
        },
    };
    let ghost taken = spec_storage_type(behind(i@, 4))->Ok_0.1;
    proof {
        assert(i2@ =~= behind(i@, 4 + taken));
    }
    let (i3, length) = match parse_u32(i2) {
        Ok(found) => found,
        Err(e) => {
            return Err(e);
        },
    };
    proof {
        assert(i3@ =~= behind(i@, 8 + taken));
    }
    Ok((i3, StorageDeclaration { id, ty, length }))
}

/// Parses a scope declaration.
pub fn parse_scope_declaration(i: &[u8]) -> (r: Result<(&[u8], ScopeDeclaration), Error>)
    ensures
        match (r, spec_scope_declaration(i@)) {
            (Ok((rest, value)), Ok((expected, taken))) => (
                value.parent_scope_id,
                value.scope_id,
                value.name@,
            ) == expected && 0 <= taken <= i@.len() && rest@ == behind(i@, taken),
            (Err(e), Err(expected)) => e == expected,
            _ => false,
        },
{
    let (i1, parent_scope_id) = match parse_u32(i) {
        Ok(found) => found,
        Err(e) => {
            return Err(e);
        },
    };
    let (i2, scope_id) = match parse_u32(i1) {
        Ok(found) => found,
        Err(e) => {
            return Err(e);
        },
    };
    proof {
        assert(i2@ =~= behind(i@, 8));
    }
    let (i3, name) = match parse_string(i2) {
        Ok(found) => found,
        Err(e) => {
            return Err(e);
        },
    };
    proof {
        let taken = spec_string(behind(i@, 8))->Ok_0.1;
        assert(i3@ =~= behind(i@, 8 + taken));
    }
    Ok((i3, ScopeDeclaration { parent_scope_id, scope_id, name }))
}

/// Parses a timestep: a 64-bit varint.
pub fn parse_timestep(i: &[u8]) -> (r: Result<(&[u8], Timestep), Error>)
    ensures
        match (r, spec_varint(varint_u64(i@))) {
            (Ok((rest, value)), Ok((expected, taken))) => value == Timestep(expected) && 0 <= taken
                <= i@.len() && rest@ == behind(i@, taken),
            (Err(e), Err(expected)) => e == expected,
            _ => false,
        },
{
    match parse_varu64(i) {
        Ok((rest, value)) => Ok((rest, Timestep(value))),
        Err(e) => Err(e),
    }
}

/// `count` 32-bit integers, one behind the other.
pub open spec fn spec_u32s(i: Seq<u8>, count: nat) -> Parsed<Seq<u32>>
    decreases count,
{
    if count == 0 {
        Ok((Seq::empty(), 0))
    } else {
        match spec_u32(i) {
            Err(e) => Err(e),
            Ok((first, _)) => match spec_u32s(behind(i, 4), (count - 1) as nat) {
                Err(e) => Err(e),
                Ok((rest, taken)) => Ok((seq![first] + rest, 4 + taken)),
            },
        }
    }
}

/// A list of 32-bit integers: their number, then the integers.
pub open spec fn spec_u32_list(i: Seq<u8>) -> Parsed<Seq<u32>> {
    match spec_u32(i) {
        Err(e) => Err(e),
        Ok((count, _)) => match spec_u32s(behind(i, 4), count as nat) {
            Err(e) => Err(e),
            Ok((list, taken)) => Ok((list, 4 + taken)),
        },
    }
}

/// Parses a list of 32-bit integers.
pub fn parse_u32_list(i: &[u8]) -> (r: Result<(&[u8], Vec<u32>), Error>)
    ensures
        match (r, spec_u32_list(i@)) {
            (Ok((rest, value)), Ok((expected, taken))) => value@ == expected && 0 <= taken
                <= i@.len() && rest@ == behind(i@, taken),
            (Err(e), Err(expected)) => e == expected,
            _ => false,
        },
{
    let (first, count) = match parse_u32(i) {
        Ok(found) => found,
        Err(e) => {
            return Err(e);
        },
    };
    let ghost whole = spec_u32s(first@, count as nat);
    let mut input = first;
    let mut list: Vec<u32> = Vec::new();
    let mut left = count;
    let ghost mut done: int = 0;
    proof {
        assert(list@ + spec_u32s(first@, count as nat)->Ok_0.0 =~= spec_u32s(
            first@,
            count as nat,
        )->Ok_0.0);
        assert(first@ =~= behind(first@, 0));
    }
    while left > 0
        invariant
            0 <= done <= first@.len(),
            first@ == behind(i@, 4),
            spec_u32(i@) is Ok,
            spec_u32(i@)->Ok_0.0 == count,
            input@ == behind(first@, done),
            whole == spec_u32s(first@, count as nat),
            whole == match spec_u32s(input@, left as nat) {
                Ok((rest, taken)) => Ok::<(Seq<u32>, int), Error>((list@ + rest, done + taken)),
                Err(e) => Err(e),
            },
        decreases left,
    {
        let ghost before = list@;
        let ghost tail = spec_u32s(behind(input@, 4), (left - 1) as nat);
        proof {
            assert(spec_u32s(input@, left as nat) == match spec_u32(input@) {
                Err(e) => Err::<(Seq<u32>, int), Error>(e),
                Ok((head, _)) => match tail {
                    Err(e) => Err(e),
                    Ok((rest, taken)) => Ok((seq![head] + rest, 4 + taken)),
                },
            });
        }
        let (next, value) = match parse_u32(input) {
            Ok(found) => found,
            Err(e) => {
                return Err(e);
            },
        };
        list.push(value);
        proof {
            if tail is Ok {
                assert((before + seq![value]) + tail->Ok_0.0 =~= before + (seq![value]
                    + tail->Ok_0.0));
                assert(list@ =~= before + seq![value]);
            }
            assert(next@ =~= behind(first@, done + 4));
            done = done + 4;
        }
        input = next;
        left -= 1;
    }
    proof {
        assert(list@ + Seq::<u32>::empty() =~= list@);
        assert(input@ =~= behind(i@, 4 + done));
    }
    Ok((input, list))
}

/// One named value of an enumeration.
#[derive(Debug)]
pub struct EnumField {
    pub name: String,
    pub value: BitVec,
}

/// How the storages of a variable are read.
#[derive(Debug)]
pub enum VariableInterpretation {
    Integer { storage_ids: Vec<u32>, msb: u32, lsb: u32, signedness: Signedness },
    Enum { storage_id: u32, fields: Vec<EnumField> },
    Other { storage_id: u32 },
}

/// A variable of a scope.
#[derive(Debug)]
pub struct VariableDeclaration {
    pub scope_id: u32,
    pub name: String,
    pub interpretation: VariableInterpretation,
}

/// One change of a storage's value.
pub enum ValueChange<'a> {
    Binary(BitSlice<'a>),
    Quaternary(QitSlice<'a>),
    Utf8(&'a [u8]),
}

/// A named value as the contracts speak of it: its name and its packed
/// bits.
pub struct FieldView {
    pub name: Seq<char>,
    pub size: usize,
    pub bits: Seq<u8>,
}

/// An interpretation as the contracts speak of it.
pub enum InterpretationView {
    Integer { storage_ids: Seq<u32>, msb: u32, lsb: u32, signedness: Signedness },
    Enum { storage_id: u32, fields: Seq<FieldView> },
    Other { storage_id: u32 },
}

impl View for EnumField {
    type V = FieldView;

    open spec fn view(&self) -> FieldView {
        FieldView { name: self.name@, size: self.value.spec_size(), bits: self.value.raw() }
    }
}

impl View for VariableInterpretation {
    type V = InterpretationView;

    open spec fn view(&self) -> InterpretationView {
        match self {
            VariableInterpretation::Integer { storage_ids, msb, lsb, signedness } => {
                InterpretationView::Integer {
                    storage_ids: storage_ids@,
                    msb: *msb,
                    lsb: *lsb,
                    signedness: *signedness,
                }
            },
            VariableInterpretation::Enum { storage_id, fields } => InterpretationView::Enum {
                storage_id: *storage_id,
                fields: Seq::new(fields@.len(), |k: int| fields@[k]@),
            },
            VariableInterpretation::Other { storage_id } => InterpretationView::Other {
                storage_id: *storage_id,
            },
        }
    }
}

/// Finds the declaration of a storage by its id.
pub trait StorageLookup {
    spec fn spec_lookup(&self, storage_id: u32) -> Option<StorageDeclaration>;

    fn lookup(&self, storage_id: u32) -> (r: Option<StorageDeclaration>)
        ensures
            r == self.spec_lookup(storage_id),
    ;
}

/// A named value of `bits` bits: the name, then the packed bits.
pub open spec fn spec_enum_field(i: Seq<u8>, bits: usize) -> Parsed<FieldView> {
    match spec_string(i) {
        Err(e) => Err(e),
        Ok((name, taken)) => match spec_take(behind(i, taken), packed_len(bits as nat, 1)) {
            Err(e) => Err(e),
            Ok((packed, more)) => Ok((FieldView { name, size: bits, bits: packed }, taken + more)),
        },
    }
}

/// `count` named values, one behind the other.
pub open spec fn spec_enum_fields(i: Seq<u8>, count: nat, bits: usize) -> Parsed<Seq<FieldView>>
    decreases count,
{
    if count == 0 {
        Ok((Seq::empty(), 0))
    } else {
        match spec_enum_field(i, bits) {
            Err(e) => Err(e),
            Ok((first, taken)) => match spec_enum_fields(
                behind(i, taken),
                (count - 1) as nat,
                bits,
            ) {
                Err(e) => Err(e),
                Ok((rest, more)) => Ok((seq![first] + rest, taken + more)),
            },
        }
    }
}

/// An interpretation: its tag, then what the tag asks for. The tag 1 is an
/// integer: its storages, the indexes of its highest and lowest bit, its
/// signedness. The tag 2 is an enumeration over one storage, which must be
/// declared: the number of its values, then the values, each as wide as the
/// storage is long. The tags 0 and 3 name one storage and no more.
pub open spec fn spec_interpretation(
    i: Seq<u8>,
    lookup: spec_fn(u32) -> Option<StorageDeclaration>,
) -> Parsed<InterpretationView> {
    match spec_u32(i) {
        Err(e) => Err(e),
        Ok((tag, _)) => if tag == 0 || tag == 2 || tag == 3 {
            match spec_u32(behind(i, 4)) {
                Err(e) => Err(e),
                Ok((storage_id, _)) => if tag == 2 {
                    match lookup(storage_id) {
                        None => Err(Error::Failure(Reason::InvalidStorageId)),
                        Some(declaration) => match spec_u32(behind(i, 8)) {
                            Err(e) => Err(e),
                            Ok((count, _)) => match spec_enum_fields(
                                behind(i, 12),
                                count as nat,
                                declaration.length as usize,
                            ) {
                                Err(e) => Err(e),
                                Ok((fields, taken)) => Ok(
                                    (InterpretationView::Enum { storage_id, fields }, 12 + taken),
                                ),
                            },
                        },
                    }
                } else {
                    Ok((InterpretationView::Other { storage_id }, 8))
                },
            }
        } else if tag == 1 {
            match spec_u32_list(behind(i, 4)) {
                Err(e) => Err(e),
                Ok((storage_ids, taken)) => match spec_u32(behind(i, 4 + taken)) {
                    Err(e) => Err(e),
                    Ok((msb, _)) => match spec_u32(behind(i, 8 + taken)) {
                        Err(e) => Err(e),
                        Ok((lsb, _)) => match spec_signedness(behind(i, 12 + taken)) {
                            Err(e) => Err(e),
                            Ok((signedness, _)) => Ok(
                                (
                                    InterpretationView::Integer { storage_ids, msb, lsb, signedness },
                                    16 + taken,
                                ),
                            ),
                        },
                    },
                },
            }
        } else {
            Err(Error::Failure(Reason::InvalidInterpretationValue))
        },
    }
}

/// Whether `r` is what `spec` says of the input `i`, for a value that the
/// contracts speak of by its view.
pub open spec fn agrees_by_view<T: View>(
    i: Seq<u8>,
    r: Result<(&[u8], T), Error>,
    spec: Parsed<T::V>,
) -> bool {
    match (r, spec) {
        (Ok((rest, value)), Ok((expected, taken))) => value@ == expected && 0 <= taken <= i.len()
            && rest@ == behind(i, taken),
        (Err(e), Err(expected)) => e == expected,
        _ => false,
    }
}

/// Parses a named value of `bits` bits.
pub fn parse_enum_field(i: &[u8], bits: usize) -> (r: Result<(&[u8], EnumField), Error>)
    ensures
        agrees_by_view(i@, r, spec_enum_field(i@, bits)),
{
    let (i1, name) = match parse_string(i) {
        Ok(found) => found,
        Err(e) => {
            return Err(e);
        },
    };
    let (i2, data) = match take(i1, BitVec::size_in_bytes(bits)) {
        Ok(found) => found,
        Err(e) => {
            return Err(e);
        },
    };
    proof {
        let taken = spec_string(i@)->Ok_0.1;
        let more = packed_len(bits as nat, 1) as int;
        assert(i2@ =~= behind(i@, taken + more));
    }
    Ok((i2, EnumField { name, value: BitVec::new(bits, vstd::slice::slice_to_vec(data)) }))
}

/// Parses the values of an enumeration: their number, then the values.
pub fn parse_enum_fields(i: &[u8], bits: usize) -> (r: Result<(&[u8], Vec<EnumField>), Error>)
    ensures
        match (r, spec_u32(i@)) {
            (Err(e), Err(expected)) => e == expected,
            (_, Ok((count, _))) => match (r, spec_enum_fields(behind(i@, 4), count as nat, bits)) {
                (Ok((rest, value)), Ok((expected, taken))) => Seq::new(
                    value@.len(),
                    |k: int| value@[k]@,
                ) == expected && 0 <= taken + 4 <= i@.len() && rest@ == behind(i@, 4 + taken),
                (Err(e), Err(expected)) => e == expected,
                _ => false,
            },
            _ => false,
        },
{
    let (first, count) = match parse_u32(i) {
        Ok(found) => found,
        Err(e) => {
            return Err(e);
        },
    };
    let ghost whole = spec_enum_fields(first@, count as nat, bits);
    let mut input = first;
    let mut list: Vec<EnumField> = Vec::new();
    let mut left = count;
    let ghost mut done: int = 0;
    proof {
        assert(Seq::new(list@.len(), |k: int| list@[k]@) + whole->Ok_0.0 =~= whole->Ok_0.0);
        assert(first@ =~= behind(first@, 0));
    }
    while left > 0
        invariant
            0 <= done <= first@.len(),
            first@ == behind(i@, 4),
            spec_u32(i@) is Ok,
            spec_u32(i@)->Ok_0.0 == count,
            input@ == behind(first@, done),
            whole == spec_enum_fields(first@, count as nat, bits),
            whole == match spec_enum_fields(input@, left as nat, bits) {
                Ok((rest, taken)) => Ok::<(Seq<FieldView>, int), Error>(
                    (Seq::new(list@.len(), |k: int| list@[k]@) + rest, done + taken),
                ),
                Err(e) => Err(e),
            },
        decreases left,
    {
        let ghost before = Seq::new(list@.len(), |k: int| list@[k]@);
        let ghost head = spec_enum_field(input@, bits);
        let ghost tail = spec_enum_fields(behind(input@, head->Ok_0.1), (left - 1) as nat, bits);
        proof {
            assert(spec_enum_fields(input@, left as nat, bits) == match head {
                Err(e) => Err::<(Seq<FieldView>, int), Error>(e),
                Ok((first_field, taken)) => match tail {
                    Err(e) => Err(e),
                    Ok((rest, more)) => Ok((seq![first_field] + rest, taken + more)),
                },
            });
        }
        let (next, value) = match parse_enum_field(input, bits) {
            Ok(found) => found,
            Err(e) => {
                return Err(e);
            },
        };
        let ghost view = value@;
        list.push(value);
        proof {
            let after = Seq::new(list@.len(), |k: int| list@[k]@);
            assert(after =~= before + seq![view]);
            if tail is Ok {
                assert((before + seq![view]) + tail->Ok_0.0 =~= before + (seq![view]
                    + tail->Ok_0.0));
            }
            assert(next@ =~= behind(first@, done + head->Ok_0.1));
            done = done + head->Ok_0.1;
        }
        input = next;
        left -= 1;
    }
    proof {
        let all = Seq::new(list@.len(), |k: int| list@[k]@);
        assert(all + Seq::<FieldView>::empty() =~= all);
        assert(input@ =~= behind(i@, 4 + done));
    }
    Ok((input, list))
}

/// Parses an interpretation; `storages` holds the storages that were
/// declared so far.
pub fn parse_interpretation<'i, E: StorageLookup>(i: &'i [u8], storages: &E) -> (r: Result<
    (&'i [u8], VariableInterpretation),
    Error,
>)
    ensures
        agrees_by_view(i@, r, spec_interpretation(i@, |id: u32| storages.spec_lookup(id))),
{
    let (i1, tag) = match parse_u32(i) {
        Ok(found) => found,
        Err(e) => {
            return Err(e);
        },
    };
    if tag == 0 || tag == 2 || tag == 3 {
        let (i2, storage_id) = match parse_u32(i1) {
            Ok(found) => found,
            Err(e) => {
                return Err(e);
            },
        };
        proof {
            assert(i2@ =~= behind(i@, 8));
        }
        if tag == 2 {
            let declaration = match storages.lookup(storage_id) {
                Some(declaration) => declaration,
                None => {
                    return Err(Error::Failure(Reason::InvalidStorageId));
                },
            };
            match parse_enum_fields(i2, declaration.length as usize) {
                Ok((rest, fields)) => {
                    proof {
                        assert(behind(i2@, 4) =~= behind(i@, 12));
                        let taken = spec_enum_fields(
                            behind(i@, 12),
                            spec_u32(i2@)->Ok_0.0 as nat,
                            declaration.length as usize,
                        )->Ok_0.1;
                        assert(rest@ =~= behind(i@, 12 + taken));
                    }
                    Ok((rest, VariableInterpretation::Enum { storage_id, fields }))
                },
                Err(e) => {
                    proof {
                        if spec_u32(i2@) is Ok {
                            assert(behind(i2@, 4) =~= behind(i@, 12));
                        }
                    }
                    Err(e)
                },
            }
        } else {
            Ok((i2, VariableInterpretation::Other { storage_id }))
        }
    } else if tag == 1 {
        let (i2, storage_ids) = match parse_u32_list(i1) {
            Ok(found) => found,
            Err(e) => {
                return Err(e);
            },
        };
        let ghost taken = spec_u32_list(behind(i@, 4))->Ok_0.1;
        proof {
            assert(i2@ =~= behind(i@, 4 + taken));
        }
        let (i3, msb) = match parse_u32(i2) {
            Ok(found) => found,
            Err(e) => {
                return Err(e);
            },
        };
        proof {
            assert(i3@ =~= behind(i@, 8 + taken));
        }
        let (i4, lsb) = match parse_u32(i3) {
            Ok(found) => found,
            Err(e) => {
                return Err(e);
            },
        };
        proof {
            assert(i4@ =~= behind(i@, 12 + taken));
        }
        let (i5, signedness) = match parse_signedness(i4) {
            Ok(found) => found,
            Err(e) => {
                return Err(e);
            },
        };
        proof {
            assert(i5@ =~= behind(i@, 16 + taken));
        }
        Ok((i5, VariableInterpretation::Integer { storage_ids, msb, lsb, signedness }))
    } else {
        Err(Error::Failure(Reason::InvalidInterpretationValue))
    }
}

/// A variable declaration: the scope's id, the name and the
/// interpretation.
pub open spec fn spec_variable_declaration(
    i: Seq<u8>,
    lookup: spec_fn(u32) -> Option<StorageDeclaration>,
) -> Parsed<(u32, Seq<char>, InterpretationView)> {
    match spec_u32(i) {
        Err(e) => Err(e),
        Ok((scope_id, _)) => match spec_string(behind(i, 4)) {
            Err(e) => Err(e),
            Ok((name, taken)) => match spec_interpretation(behind(i, 4 + taken), lookup) {
                Err(e) => Err(e),
                Ok((interpretation, more)) => Ok(
                    ((scope_id, name, interpretation), 4 + taken + more),
                ),
            },
        },
    }
}

/// Parses a variable declaration; `storages` holds the storages that were
/// declared so far.
pub fn parse_variable_declaration<'i, E: StorageLookup>(i: &'i [u8], storages: &E) -> (r: Result<
    (&'i [u8], VariableDeclaration),
    Error,
>)
    ensures
        match (r, spec_variable_declaration(i@, |id: u32| storages.spec_lookup(id))) {
            (Ok((rest, value)), Ok((expected, taken))) => (
                value.scope_id,
                value.name@,
                value.interpretation@,
            ) == expected && 0 <= taken <= i@.len() && rest@ == behind(i@, taken),
            (Err(e), Err(expected)) => e == expected,
            _ => false,
        },
{
    let (i1, scope_id) = match parse_u32(i) {
        Ok(found) => found,
        Err(e) => {
            return Err(e);
        },
    };
    let (i2, name) = match parse_string(i1) {
        Ok(found) => found,
        Err(e) => {
            return Err(e);
        },
    };
    let ghost taken = spec_string(behind(i@, 4))->Ok_0.1;
    proof {
        assert(i2@ =~= behind(i@, 4 + taken));
    }
    let (i3, interpretation) = match parse_interpretation(i2, storages) {
        Ok(found) => found,
        Err(e) => {
            return Err(e);
        },
    };
    proof {
        let more = spec_interpretation(
            behind(i@, 4 + taken),
            |id: u32| storages.spec_lookup(id),
        )->Ok_0.1;
        assert(i3@ =~= behind(i@, 4 + taken + more));
    }
    Ok((i3, VariableDeclaration { scope_id, name, interpretation }))
}

/// The number of bytes of one value of a storage: the packed digits from
/// the lowest bit up, or the bytes of the text. `None` where the lowest bit
/// lies beyond the storage's length.
pub open spec fn payload_len(declaration: StorageDeclaration) -> Option<nat> {
    match declaration.ty {
        StorageType::Binary { lsb } => if lsb <= declaration.length {
            Some(packed_len((declaration.length - lsb) as nat, 1))
        } else {
            None
        },
        StorageType::Quaternary { lsb } => if lsb <= declaration.length {
            Some(packed_len((declaration.length - lsb) as nat, 2))
        } else {
            None
        },
        StorageType::Utf8 => Some(declaration.length as nat),
    }
}

/// A value change: the storage's id as a varint, then one value of the
/// storage. The storage must be declared, and its lowest bit must lie
/// within its length.
pub open spec fn spec_value_change(
    i: Seq<u8>,
    lookup: spec_fn(u32) -> Option<StorageDeclaration>,
) -> Parsed<(u32, Seq<u8>)> {
    match spec_varint(varint_u32(i)) {
        Err(e) => Err(e),
        Ok((storage_id, taken)) => match lookup(storage_id) {
            None => Err(Error::Failure(Reason::InvalidStorageId)),
            Some(declaration) => match payload_len(declaration) {
                None => Err(Error::Failure(Reason::InvalidStorageId)),
                Some(size) => match spec_take(behind(i, taken), size) {
                    Err(e) => Err(e),
                    Ok((bytes, more)) => Ok(((storage_id, bytes), taken + more)),
                },
            },
        },
    }
}

impl<'a> ValueChange<'a> {
    /// The bytes of the value.
    pub open spec fn raw(&self) -> Seq<u8> {
        match self {
            ValueChange::Binary(bits) => bits.raw(),
            ValueChange::Quaternary(qits) => qits.raw(),
            ValueChange::Utf8(bytes) => bytes@,
        }
    }

    /// The bytes of the value.
    pub fn bytes(&self) -> (r: &'a [u8])
        ensures
            r@ == self.raw(),
    {
        match self {
            ValueChange::Binary(bits) => bits.as_ref(),
            ValueChange::Quaternary(qits) => qits.as_ref(),
            ValueChange::Utf8(bytes) => bytes,
        }
    }
}

/// Parses a value change, and gives the id of its storage with it.
pub fn parse_value_change<'i, E: StorageLookup>(i: &'i [u8], storages: &E) -> (r: Result<
    (&'i [u8], (u32, ValueChange<'i>)),
    Error,
>)
    ensures
        match (r, spec_value_change(i@, |id: u32| storages.spec_lookup(id))) {
            (Ok((rest, (id, value))), Ok(((storage_id, bytes), taken))) => {
                &&& id == storage_id
                &&& storages.spec_lookup(storage_id) is Some
                &&& value.raw() == bytes
                &&& match storages.spec_lookup(storage_id)->Some_0.ty {
                    StorageType::Binary { lsb } => value is Binary,
                    StorageType::Quaternary { lsb } => value is Quaternary,
                    StorageType::Utf8 => value is Utf8,
                }
                &&& 0 <= taken <= i@.len()
                &&& rest@ == behind(i@, taken)
            },
            (Err(e), Err(expected)) => e == expected,
            _ => false,
        },
{
    let (i1, storage_id) = match parse_varu32(i) {
        Ok(found) => found,
        Err(e) => {
            return Err(e);
        },
    };
    let ghost taken = spec_varint(varint_u32(i@))->Ok_0.1;
    let declaration = match storages.lookup(storage_id) {
        Some(declaration) => declaration,
        None => {
            return Err(Error::Failure(Reason::InvalidStorageId));
        },
    };
    match declaration.ty {
        StorageType::Binary { lsb } => {
            if lsb > declaration.length {
                return Err(Error::Failure(Reason::InvalidStorageId));
            }
            let digits = (declaration.length - lsb) as usize;
            match take(i1, <BitSlice as SizeInBytes>::size_in_bytes(digits)) {
                Ok((rest, bytes)) => {
                    proof {
                        assert(rest@ =~= behind(i@, taken + bytes@.len()));
                    }
                    Ok((rest, (storage_id, ValueChange::Binary(BitSlice::new(digits, bytes)))))
                },
                Err(e) => Err(e),
            }
        },
        StorageType::Quaternary { lsb } => {
            if lsb > declaration.length {
                return Err(Error::Failure(Reason::InvalidStorageId));
            }
            let digits = (declaration.length - lsb) as usize;
            match take(i1, <QitSlice as SizeInBytes>::size_in_bytes(digits)) {
                Ok((rest, bytes)) => {
                    proof {
                        assert(rest@ =~= behind(i@, taken + bytes@.len()));
                    }
                    Ok((rest, (storage_id, ValueChange::Quaternary(QitSlice::new(digits, bytes)))))
                },
                Err(e) => Err(e),
            }
        },
        StorageType::Utf8 => {
            match take(i1, declaration.length as usize) {
                Ok((rest, bytes)) => {
                    proof {
                        assert(rest@ =~= behind(i@, taken + bytes@.len()));
                    }
                    Ok((rest, (storage_id, ValueChange::Utf8(bytes))))
                },
                Err(e) => Err(e),
            }
        },
    }
}

/// A parser of values of one type.
pub trait Parse<Output> {
    /// Takes a value off the front of the input.
    fn parse<'i>(i: &'i [u8]) -> (r: Result<(&'i [u8], Output), Error>)
        ensures
            r is Ok ==> exists|taken: int|
                0 <= taken <= i@.len() && (#[trigger] behind(i@, taken)) == (r->Ok_0).0@,
    ;
}

/// A parser of values of one type that needs to be told something.
pub trait ParseWith<Extra, Output> {
    /// Takes a value off the front of the input.
    fn parse_with<'i>(i: &'i [u8], extra: Extra) -> (r: Result<(&'i [u8], Output), Error>)
        ensures
            r is Ok ==> exists|taken: int|
                0 <= taken <= i@.len() && (#[trigger] behind(i@, taken)) == (r->Ok_0).0@,
    ;
}

impl Parse<u8> for u8 {
    fn parse<'i>(i: &'i [u8]) -> (r: Result<(&'i [u8], u8), Error>)
        ensures
            agrees(i@, r, spec_u8(i@)),
    {
        let r = parse_u8(i);
        proof {
            if r is Ok {
                assert(behind(i@, 1) == (r->Ok_0).0@);
            }
        }
        r
    }
}

impl Parse<u32> for u32 {
    fn parse<'i>(i: &'i [u8]) -> (r: Result<(&'i [u8], u32), Error>)
        ensures
            agrees(i@, r, spec_u32(i@)),
    {
        let r = parse_u32(i);
        proof {
            if r is Ok {
                assert(behind(i@, 4) == (r->Ok_0).0@);
            }
        }
        r
    }
}

impl Parse<u128> for u128 {
    fn parse<'i>(i: &'i [u8]) -> (r: Result<(&'i [u8], u128), Error>)
        ensures
            agrees(i@, r, spec_u128(i@)),
    {
        let r = parse_u128(i);
        proof {
            if r is Ok {
                assert(behind(i@, 16) == (r->Ok_0).0@);
            }
        }
        r
    }
}

impl Parse<u32> for Varu32 {
    fn parse<'i>(i: &'i [u8]) -> (r: Result<(&'i [u8], u32), Error>)
        ensures
            agrees(i@, r, spec_varint(varint_u32(i@))),
    {
        let r = parse_varu32(i);
        proof {
            if r is Ok {
                let taken = spec_varint(varint_u32(i@))->Ok_0.1;
                assert(behind(i@, taken) == (r->Ok_0).0@);
            }
        }
        r
    }
}

impl Parse<u64> for Varu64 {
    fn parse<'i>(i: &'i [u8]) -> (r: Result<(&'i [u8], u64), Error>)
        ensures
            agrees(i@, r, spec_varint(varint_u64(i@))),
    {
        let r = parse_varu64(i);
        proof {
            if r is Ok {
                let taken = spec_varint(varint_u64(i@))->Ok_0.1;
                assert(behind(i@, taken) == (r->Ok_0).0@);
            }
        }
        r
    }
}

impl Parse<String> for String {
    fn parse<'i>(i: &'i [u8]) -> (r: Result<(&'i [u8], String), Error>)
        ensures
            match (r, spec_string(i@)) {
                (Ok((rest, value)), Ok((expected, taken))) => value@ == expected && 0 <= taken
                    <= i@.len() && rest@ == i@.subrange(taken, i@.len() as int),
                (Err(e), Err(expected)) => e == expected,
                _ => false,
            },
    {
        let r = parse_string(i);
        proof {
            if r is Ok {
                let taken = spec_string(i@)->Ok_0.1;
                assert(behind(i@, taken) == (r->Ok_0).0@);
            }
        }
        r
    }
}

impl Parse<Header> for Header {
    fn parse<'i>(i: &'i [u8]) -> (r: Result<(&'i [u8], Header), Error>)
        ensures
            agrees(i@, r, spec_header(i@)),
    {
        let r = parse_header(i);
        proof {
            if r is Ok {
                assert(behind(i@, 24) == (r->Ok_0).0@);
            }
        }
        r
    }
}

impl Parse<Signedness> for Signedness {
    fn parse<'i>(i: &'i [u8]) -> (r: Result<(&'i [u8], Signedness), Error>)
        ensures
            agrees(i@, r, spec_signedness(i@)),
    {
        let r = parse_signedness(i);
        proof {
            if r is Ok {
                assert(behind(i@, 4) == (r->Ok_0).0@);
            }
        }
        r
    }
}

impl Parse<StorageType> for StorageType {
    fn parse<'i>(i: &'i [u8]) -> (r: Result<(&'i [u8], StorageType), Error>)
        ensures
            agrees(i@, r, spec_storage_type(i@)),
    {
        let r = parse_storage_type(i);
        proof {
            if r is Ok {
                let taken = spec_storage_type(i@)->Ok_0.1;
                assert(behind(i@, taken) == (r->Ok_0).0@);
            }
        }
        r
    }
}

impl Parse<StorageDeclaration> for StorageDeclaration {
    fn parse<'i>(i: &'i [u8]) -> (r: Result<(&'i [u8], StorageDeclaration), Error>)
        ensures
            agrees(i@, r, spec_storage_declaration(i@)),
    {
        let r = parse_storage_declaration(i);
        proof {
            if r is Ok {
                let taken = spec_storage_declaration(i@)->Ok_0.1;
                assert(behind(i@, taken) == (r->Ok_0).0@);
            }
        }
        r
    }
}

impl Parse<ScopeDeclaration> for ScopeDeclaration {
    fn parse<'i>(i: &'i [u8]) -> (r: Result<(&'i [u8], ScopeDeclaration), Error>)
        ensures
            match (r, spec_scope_declaration(i@)) {
                (Ok((rest, value)), Ok((expected, taken))) => (
                    value.parent_scope_id,
                    value.scope_id,
                    value.name@,
                ) == expected && 0 <= taken <= i@.len() && rest@ == behind(i@, taken),
                (Err(e), Err(expected)) => e == expected,
                _ => false,
            },
    {
        let r = parse_scope_declaration(i);
        proof {
            if r is Ok {
                let taken = spec_scope_declaration(i@)->Ok_0.1;
                assert(behind(i@, taken) == (r->Ok_0).0@);
            }
        }
        r
    }
}

impl Parse<Timestep> for Timestep {
    fn parse<'i>(i: &'i [u8]) -> (r: Result<(&'i [u8], Timestep), Error>)
        ensures
            match (r, spec_varint(varint_u64(i@))) {
                (Ok((rest, value)), Ok((expected, taken))) => value == Timestep(expected) && 0 <= taken
                    <= i@.len() && rest@ == behind(i@, taken),
                (Err(e), Err(expected)) => e == expected,
                _ => false,
            },
    {
        let r = parse_timestep(i);
        proof {
            if r is Ok {
                let taken = spec_varint(varint_u64(i@))->Ok_0.1;
                assert(behind(i@, taken) == (r->Ok_0).0@);
            }
        }
        r
    }
}

impl ParseWith<usize, EnumField> for EnumField {
    fn parse_with<'i>(i: &'i [u8], bits: usize) -> (r: Result<(&'i [u8], EnumField), Error>)
        ensures
            agrees_by_view(i@, r, spec_enum_field(i@, bits)),
    {
        let r = parse_enum_field(i, bits);
        proof {
            if r is Ok {
                let taken = spec_enum_field(i@, bits)->Ok_0.1;
                assert(behind(i@, taken) == (r->Ok_0).0@);
            }
        }
        r
    }
}

/// What the converter keeps of a storage while it reads the stream.
#[derive(Debug, Clone, Copy, PartialEq, Eq, Structural)]
pub struct StorageMeta {
    /// Where the storage's last value change lies in the log of changes.
    pub last_value_change_offset: u64,
    pub number_of_value_changes: u64,
    /// Where the timestep of the last change lies in the log of timesteps.
    pub last_timestamp_offset: u64,
    /// The time of the last change.
    pub last_timestamp: u64,
}

/// The storages that a stream has declared so far.
pub struct Storages {
    map: HashMap<u32, (StorageMeta, StorageDeclaration)>,
}

impl View for Storages {
    type V = Map<u32, (StorageMeta, StorageDeclaration)>;

    closed spec fn view(&self) -> Map<u32, (StorageMeta, StorageDeclaration)> {
        self.map@
    }
}

impl StorageLookup for Storages {
    open spec fn spec_lookup(&self, storage_id: u32) -> Option<StorageDeclaration> {
        if self@.contains_key(storage_id) {
            Some(self@[storage_id].1)
        } else {
            None
        }
    }

    fn lookup(&self, storage_id: u32) -> (r: Option<StorageDeclaration>) {
        match self.map.get(&storage_id) {
            Some(entry) => Some(entry.1),
            None => None,
        }
    }
}

impl Storages {
    /// No storage.
    pub fn new() -> (r: Self)
        ensures
            r@ == Map::<u32, (StorageMeta, StorageDeclaration)>::empty(),
    {
        Storages { map: HashMap::new() }
    }

    /// What is kept of the storage `storage_id`, if it is declared.
    pub fn meta(&self, storage_id: u32) -> (r: Option<StorageMeta>)
        ensures
            r == if self@.contains_key(storage_id) {
                Some(self@[storage_id].0)
            } else {
                None
            },
    {
        match self.map.get(&storage_id) {
            Some(entry) => Some(entry.0),
            None => None,
        }
    }

    /// Declares a storage, with nothing known of its changes. Fails with
    /// `DuplicatedStorageId`, and changes nothing, where the id is taken.
    pub fn declare(&mut self, declaration: StorageDeclaration) -> (r: Result<(), Error>)
        ensures
            r == if old(self)@.contains_key(declaration.id) {
                Err::<(), Error>(Error::Failure(Reason::DuplicatedStorageId))
            } else {
                Ok(())
            },
            final(self)@ == if old(self)@.contains_key(declaration.id) {
                old(self)@
            } else {
                old(self)@.insert(
                    declaration.id,
                    (
                        StorageMeta {
                            last_value_change_offset: 0,
                            number_of_value_changes: 0,
                            last_timestamp_offset: 0,
                            last_timestamp: 0,
                        },
                        declaration,
                    ),
                )
            },
    {
        if self.map.contains_key(&declaration.id) {
            return Err(Error::Failure(Reason::DuplicatedStorageId));
        }
        self.map.insert(
            declaration.id,
            (
                StorageMeta {
                    last_value_change_offset: 0,
                    number_of_value_changes: 0,
                    last_timestamp_offset: 0,
                    last_timestamp: 0,
                },
                declaration,
            ),
        );
        Ok(())
    }

    /// Replaces what is kept of a storage that is declared.
    pub fn set_meta(&mut self, storage_id: u32, meta: StorageMeta)
        requires
            old(self)@.contains_key(storage_id),
        ensures
            final(self)@ == old(self)@.insert(storage_id, (meta, old(self)@[storage_id].1)),
    {
        let declaration = match self.map.get(&storage_id) {
            Some(entry) => entry.1,
            None => StorageDeclaration { id: storage_id, ty: StorageType::Utf8, length: 0 },
        };
        self.map.insert(storage_id, (meta, declaration));
    }
}

/// Marks the log of value changes.
pub struct ValueChangeProxy;

impl VariableLength for ValueChangeProxy {
    type Meta = usize;

    type DefaultReadData = NoMeta;
}

/// One value change as the log of changes holds it: the storage's id, the
/// distances back to the storage's change before and to the timestep of
/// that change, and the value.
pub struct ValueChangeData<'a> {
    pub storage_id: u32,
    pub offset_to_prev: u64,
    pub offset_to_prev_timestamp: u64,
    pub storage: &'a [u8],
}

/// The bytes of a value change in the log: three varints and the value,
/// cut to `meta` bytes where it is longer.
pub open spec fn change_record(
    storage_id: u32,
    offset_to_prev: u64,
    offset_to_prev_timestamp: u64,
    storage: Seq<u8>,
    meta: usize,
) -> Seq<u8> {
    varint_bytes_u32(storage_id) + varint_bytes_u64(offset_to_prev) + varint_bytes_u64(
        offset_to_prev_timestamp,
    ) + storage.subrange(
        0,
        if storage.len() <= meta {
            storage.len() as int
        } else {
            meta as int
        },
    )
}

/// Appends a 32-bit varint to `out`.
fn append_varint_u32(out: &mut Vec<u8>, num: u32)
    ensures
        final(out)@ == old(out)@ + varint_bytes_u32(num),
        1 <= varint_bytes_u32(num).len() <= 5,
{
    let mut buffer: Vec<u8> = Vec::new();
    crate::bytes::extend_zeroed(&mut buffer, 10);
    let ghost zeros = buffer@;
    let n = encode_varint_u32(num, buffer.as_mut_slice());
    proof {
        crate::bytes::lemma_splice(zeros, 0, varint_bytes_u32(num));
    }
    let mut i: usize = 0;
    while i < n
        invariant
            i <= n,
            n == varint_bytes_u32(num).len(),
            n <= buffer@.len(),
            buffer@.subrange(0, n as int) == varint_bytes_u32(num),
            out@ == old(out)@ + buffer@.subrange(0, i as int),
        decreases n - i,
    {
        out.push(buffer[i]);
        i += 1;
        assert(out@ =~= old(out)@ + buffer@.subrange(0, i as int));
    }
}

/// Appends a 64-bit varint to `out`.
fn append_varint_u64(out: &mut Vec<u8>, num: u64)
    ensures
        final(out)@ == old(out)@ + varint_bytes_u64(num),
        1 <= varint_bytes_u64(num).len() <= 10,
{
    let mut buffer: Vec<u8> = Vec::new();
    crate::bytes::extend_zeroed(&mut buffer, 10);
    let ghost zeros = buffer@;
    let n = encode_varint_u64(num, buffer.as_mut_slice());
    proof {
        crate::bytes::lemma_splice(zeros, 0, varint_bytes_u64(num));
    }
    let mut i: usize = 0;
    while i < n
        invariant
            i <= n,
            n == varint_bytes_u64(num).len(),
            n <= buffer@.len(),
            buffer@.subrange(0, n as int) == varint_bytes_u64(num),
            out@ == old(out)@ + buffer@.subrange(0, i as int),
        decreases n - i,
    {
        out.push(buffer[i]);
        i += 1;
        assert(out@ =~= old(out)@ + buffer@.subrange(0, i as int));
    }
}

impl<'a> VariableWrite<ValueChangeProxy> for ValueChangeData<'a> {
    open spec fn spec_max_size(meta: usize) -> usize {
        if meta <= usize::MAX - 25 {
            (25 + meta) as usize
        } else {
            usize::MAX
        }
    }

    open spec fn encoded(self, meta: usize) -> Seq<u8> {
        change_record(
            self.storage_id,
            self.offset_to_prev,
            self.offset_to_prev_timestamp,
            self.storage@,
            meta,
        )
    }

    fn max_size(meta: usize) -> (r: usize) {
        if meta <= usize::MAX - 25 {
            25 + meta
        } else {
            usize::MAX
        }
    }

    fn write_variable(self, meta: usize, b: &mut [u8]) -> (n: usize) {
        let mut record: Vec<u8> = Vec::new();
        append_varint_u32(&mut record, self.storage_id);
        append_varint_u64(&mut record, self.offset_to_prev);
        append_varint_u64(&mut record, self.offset_to_prev_timestamp);
        let take = if self.storage.len() <= meta {
            self.storage.len()
        } else {
            meta
        };
        let ghost head = record@;
        let mut i: usize = 0;
        while i < take
            invariant
                i <= take,
                take <= self.storage@.len(),
                record@ == head + self.storage@.subrange(0, i as int),
            decreases take - i,
        {
            record.push(self.storage[i]);
            i += 1;
            assert(record@ =~= head + self.storage@.subrange(0, i as int));
        }
        let n = record.len();
        let _ = b.len();
        crate::bytes::write_front(b, record.as_slice());
        n
    }
}

/// Reads a stream that is larger than memory into two logs, of timesteps
/// and of value changes, that can be walked backward from the last change
/// of each storage.
pub struct SvcbConverter {
    storages: Storages,
    /// The timesteps, each as the difference to the one before.
    timestamp_chain: VarMmapVec<u64, ReallocEnabled>,
    value_changes: VarMmapVec<ValueChangeProxy, ReallocEnabled>,
    /// Femtoseconds per timestep.
    timescale: u128,
    timestamp_acc: u64,
    timestep_offset: u64,
    number_of_timestamps: u64,
    processed_commands_count: u64,
}

/// What a converter holds.
pub struct ConverterView {
    pub storages: Map<u32, (StorageMeta, StorageDeclaration)>,
    /// The log of timesteps.
    pub timestamps: Seq<u8>,
    /// The log of value changes.
    pub changes: Seq<u8>,
    pub timescale: u128,
    /// The time that the stream has reached.
    pub timestamp_acc: u64,
    /// Where the last timestep lies in the log of timesteps.
    pub timestep_offset: u64,
    pub number_of_timestamps: u64,
    pub processed_commands_count: u64,
}

impl View for SvcbConverter {
    type V = ConverterView;

    closed spec fn view(&self) -> ConverterView {
        ConverterView {
            storages: self.storages@,
            timestamps: self.timestamp_chain.written(),
            changes: self.value_changes.written(),
            timescale: self.timescale,
            timestamp_acc: self.timestamp_acc,
            timestep_offset: self.timestep_offset,
            number_of_timestamps: self.number_of_timestamps,
            processed_commands_count: self.processed_commands_count,
        }
    }
}

/// The state after one value change of the storage `storage_id` with the
/// value `payload`: a record behind the log of changes, and the storage's
/// last change moved to it.
///
/// There is none, with `InvalidStorageId`, where the storage's last change
/// would lie beyond the logs or the storage has as many changes as can be
/// counted; and none, with `IoError`, where the record and one byte more
/// would end beyond the greatest `usize`.
pub open spec fn after_change(state: ConverterView, storage_id: u32, payload: Seq<u8>) -> Result<
    ConverterView,
    Error,
> {
    let (meta, declaration) = state.storages[storage_id];
    let at = state.changes.len();
    if !(meta.last_value_change_offset <= at && meta.last_timestamp_offset
        <= state.timestep_offset && meta.number_of_value_changes < u64::MAX && at <= u64::MAX) {
        Err(Error::Failure(Reason::InvalidStorageId))
    } else if at + <ValueChangeData as VariableWrite<ValueChangeProxy>>::spec_max_size(
        payload.len() as usize,
    ) + 1 > usize::MAX {
        Err(Error::Failure(Reason::IoError))
    } else {
        Ok(
            ConverterView {
                storages: state.storages.insert(
                    storage_id,
                    (
                        StorageMeta {
                            last_value_change_offset: at as u64,
                            number_of_value_changes: (meta.number_of_value_changes + 1) as u64,
                            last_timestamp_offset: state.timestep_offset,
                            last_timestamp: state.timestamp_acc,
                        },
                        declaration,
                    ),
                ),
                changes: state.changes + change_record(
                    storage_id,
                    (at - meta.last_value_change_offset) as u64,
                    (state.timestep_offset - meta.last_timestamp_offset) as u64,
                    payload,
                    payload.len() as usize,
                ),
                ..state
            },
        )
    }
}

/// The state after a timestep of `delta`: the delta behind the log of
/// timesteps, and the clock moved on.
///
/// There is none, with `InvalidVarInt`, where the clock would leave 64
/// bits or there are as many timesteps as can be counted; and none, with
/// `IoError`, where a varint and one byte more would end beyond the
/// greatest `usize`.
pub open spec fn after_timestep(state: ConverterView, delta: u64) -> Result<ConverterView, Error> {
    if !(state.timestamp_acc + delta <= u64::MAX && state.number_of_timestamps < u64::MAX) {
        Err(Error::Failure(Reason::InvalidVarInt))
    } else if state.timestamps.len() + 11 > usize::MAX {
        Err(Error::Failure(Reason::IoError))
    } else {
        Ok(
            ConverterView {
                timestamps: state.timestamps + varint_bytes_u64(delta),
                timestep_offset: state.timestamps.len() as u64,
                timestamp_acc: (state.timestamp_acc + delta) as u64,
                number_of_timestamps: (state.number_of_timestamps + 1) as u64,
                ..state
            },
        )
    }
}

impl SvcbConverter {
    pub closed spec fn wf(&self) -> bool {
        &&& self.timestamp_chain.wf()
        &&& self.value_changes.wf()
    }

    /// A converter at the start of a stream with the given header.
    pub fn new(header: Header) -> (r: Self)
        ensures
            r.wf(),
            r@ == (ConverterView {
                storages: Map::empty(),
                timestamps: Seq::empty(),
                changes: Seq::empty(),
                timescale: header.timescale,
                timestamp_acc: 0,
                timestep_offset: 0,
                number_of_timestamps: 0,
                processed_commands_count: 0,
            }),
    {
        SvcbConverter {
            storages: Storages::new(),
            timestamp_chain: VarMmapVec::create(),
            value_changes: VarMmapVec::create(),
            timescale: header.timescale,
            timestamp_acc: 0,
            timestep_offset: 0,
            number_of_timestamps: 0,
            processed_commands_count: 0,
        }
    }

    /// Femtoseconds per timestep.
    pub fn timescale(&self) -> (r: u128)
        ensures
            r == self@.timescale,
    {
        self.timescale
    }

    /// The storages that were declared.
    pub fn storages(&self) -> (r: &Storages)
        ensures
            r@ == self@.storages,
    {
        &self.storages
    }

    /// The number of blocks that were read.
    pub fn processed_commands_count(&self) -> (r: u64)
        ensures
            r == self@.processed_commands_count,
    {
        self.processed_commands_count
    }

    /// The number of timesteps, and the time that the stream has reached.
    pub fn clock(&self) -> (r: (u64, u64))
        ensures
            r == (self@.number_of_timestamps, self@.timestamp_acc),
    {
        (self.number_of_timestamps, self.timestamp_acc)
    }

    /// Notes one value change of a storage that is declared.
    ///
    /// Fails with `InvalidStorageId` where the storage's last change lies
    /// beyond the logs, and with `IoError` where the log cannot take the
    /// change; nothing changes then.
    pub fn note_change(&mut self, storage_id: u32, payload: &[u8]) -> (r: Result<(), Error>)
        requires
            old(self).wf(),
            old(self)@.storages.contains_key(storage_id),
        ensures
            final(self).wf(),
            match after_change(old(self)@, storage_id, payload@) {
                Ok(next) => r == Ok::<(), Error>(()) && final(self)@ == next,
                Err(e) => r == Err::<(), Error>(e) && final(self)@ == old(self)@,
            },
    {
        let meta = match self.storages.meta(storage_id) {
            Some(meta) => meta,
            None => {
                return Err(Error::Failure(Reason::InvalidStorageId));
            },
        };
        let at = self.value_changes.current_offset();
        if meta.last_value_change_offset > at || meta.last_timestamp_offset > self.timestep_offset
            || meta.number_of_value_changes == u64::MAX {
            return Err(Error::Failure(Reason::InvalidStorageId));
        }
        let data = ValueChangeData {
            storage_id,
            offset_to_prev: at - meta.last_value_change_offset,
            offset_to_prev_timestamp: self.timestep_offset - meta.last_timestamp_offset,
            storage: payload,
        };
        let ghost before = self@;
        match self.value_changes.push(payload.len(), data) {
            None => Err(Error::Failure(Reason::IoError)),
            Some(offset) => {
                self.storages.set_meta(
                    storage_id,
                    StorageMeta {
                        last_value_change_offset: offset,
                        number_of_value_changes: meta.number_of_value_changes + 1,
                        last_timestamp_offset: self.timestep_offset,
                        last_timestamp: self.timestamp_acc,
                    },
                );
                proof {
                    assert(self@.storages =~= after_change(
                        before,
                        storage_id,
                        payload@,
                    )->Ok_0.storages);
                }
                Ok(())
            },
        }
    }

    /// Notes a timestep of `delta` behind the last.
    ///
    /// Fails with `InvalidVarInt` where the clock would leave 64 bits, and
    /// with `IoError` where the log cannot take the timestep; nothing
    /// changes then.
    pub fn note_timestep(&mut self, delta: u64) -> (r: Result<(), Error>)
        requires
            old(self).wf(),
        ensures
            final(self).wf(),
            match after_timestep(old(self)@, delta) {
                Ok(next) => r == Ok::<(), Error>(()) && final(self)@ == next,
                Err(e) => r == Err::<(), Error>(e) && final(self)@ == old(self)@,
            },
    {
        let _ = self.timestamp_chain.current_offset();
        if delta > u64::MAX - self.timestamp_acc || self.number_of_timestamps == u64::MAX {
            return Err(Error::Failure(Reason::InvalidVarInt));
        }
        match self.timestamp_chain.push(NoMeta, delta) {
            None => Err(Error::Failure(Reason::IoError)),
            Some(offset) => {
                self.timestep_offset = offset;
                self.timestamp_acc = self.timestamp_acc + delta;
                self.number_of_timestamps = self.number_of_timestamps + 1;
                Ok(())
            },
        }
    }
}

/// The declarations of the storages of a state, by id.
pub open spec fn lookup_of(state: ConverterView) -> spec_fn(u32) -> Option<StorageDeclaration> {
    |id: u32|
        if state.storages.contains_key(id) {
            Some(state.storages[id].1)
        } else {
            None
        }
}

/// A state with one more block read.
pub open spec fn counted(state: ConverterView) -> ConverterView {
    ConverterView {
        processed_commands_count: if state.processed_commands_count == u64::MAX {
            u64::MAX
        } else {
            (state.processed_commands_count + 1) as u64
        },
        ..state
    }
}

/// The state after `count` value changes, one behind the other, as far as
/// none fails, and the bytes that they take, or why the first that fails
/// does.
pub open spec fn after_changes(state: ConverterView, i: Seq<u8>, count: nat) -> (
    ConverterView,
    Result<int, Error>,
)
    decreases count,
{
    if count == 0 {
        (state, Ok(0))
    } else {
        match spec_value_change(i, lookup_of(state)) {
            Err(e) => (state, Err(e)),
            Ok(((storage_id, payload), taken)) => match after_change(state, storage_id, payload) {
                Err(e) => (state, Err(e)),
                Ok(next) => {
                    let (last, outcome) = after_changes(
                        next,
                        behind(i, taken),
                        (count - 1) as nat,
                    );
                    (last, moved(outcome, taken))
                },
            },
        }
    }
}

/// A count of bytes with `before` bytes before them, or the failure as it
/// is.
pub open spec fn moved(outcome: Result<int, Error>, before: int) -> Result<int, Error> {
    match outcome {
        Ok(more) => Ok(before + more),
        Err(e) => Err(e),
    }
}

/// The state after one block, and the bytes that the block takes or why it
/// fails. A block is its type and its body: 0 a scope declaration, 1 a
/// variable declaration, 2 a storage declaration, 3 a number of value
/// changes, 4 a timestep. A block that fails leaves the state as it was;
/// but of a block of value changes, those before the one that fails are
/// noted.
pub open spec fn after_block(state: ConverterView, i: Seq<u8>) -> (
    ConverterView,
    Result<int, Error>,
) {
    match spec_u8(i) {
        Err(e) => (state, Err(e)),
        Ok((block_type, _)) => {
            let body = behind(i, 1);
            if block_type == 0 {
                match spec_scope_declaration(body) {
                    Err(e) => (state, Err(e)),
                    Ok((_, taken)) => (counted(state), Ok(1 + taken)),
                }
            } else if block_type == 1 {
                match spec_variable_declaration(body, lookup_of(state)) {
                    Err(e) => (state, Err(e)),
                    Ok((_, taken)) => (counted(state), Ok(1 + taken)),
                }
            } else if block_type == 2 {
                match spec_storage_declaration(body) {
                    Err(e) => (state, Err(e)),
                    Ok((declaration, taken)) => if state.storages.contains_key(declaration.id) {
                        (state, Err(Error::Failure(Reason::DuplicatedStorageId)))
                    } else {
                        (
                            counted(
                                ConverterView {
                                    storages: state.storages.insert(
                                        declaration.id,
                                        (
                                            StorageMeta {
                                                last_value_change_offset: 0,
                                                number_of_value_changes: 0,
                                                last_timestamp_offset: 0,
                                                last_timestamp: 0,
                                            },
                                            declaration,
                                        ),
                                    ),
                                    ..state
                                },
                            ),
                            Ok(1 + taken),
                        )
                    },
                }
            } else if block_type == 3 {
                match spec_varint(varint_u32(body)) {
                    Err(e) => (state, Err(e)),
                    Ok((count, taken)) => {
                        let (last, outcome) = after_changes(
                            state,
                            behind(body, taken),
                            count as nat,
                        );
                        match outcome {
                            Ok(more) => (counted(last), Ok(1 + taken + more)),
                            Err(e) => (last, Err(e)),
                        }
                    },
                }
            } else if block_type == 4 {
                match spec_varint(varint_u64(body)) {
                    Err(e) => (state, Err(e)),
                    Ok((delta, taken)) => match after_timestep(state, delta) {
                        Err(e) => (state, Err(e)),
                        Ok(next) => (counted(next), Ok(1 + taken)),
                    },
                }
            } else {
                (state, Err(Error::Failure(Reason::InvalidBlockType)))
            }
        },
    }
}

impl SvcbConverter {
    /// The declarations are those of the state.
    proof fn lemma_lookup(&self)
        ensures
            forall|id: u32| #[trigger] self.storages.spec_lookup(id) == lookup_of(self@)(id),
            (|id: u32| self.storages.spec_lookup(id)) == lookup_of(self@),
    {
        assert((|id: u32| self.storages.spec_lookup(id)) =~= lookup_of(self@));
    }

    fn count_command(&mut self)
        requires
            old(self).wf(),
        ensures
            final(self).wf(),
            final(self)@ == counted(old(self)@),
    {
        self.processed_commands_count = if self.processed_commands_count == u64::MAX {
            u64::MAX
        } else {
            self.processed_commands_count + 1
        };
    }

    /// Reads one block off the input and notes what it says.
    ///
    /// Fails as the block's parser fails, with `DuplicatedStorageId` for a
    /// storage that is declared again, with `InvalidBlockType` for a block
    /// of no known type, and with `IoError` where a log cannot grow.
    /// Nothing changes then; but after a failure inside a block of value
    /// changes, the changes before it are noted.
    pub fn step<'i>(&mut self, i: &'i [u8]) -> (r: Result<&'i [u8], Error>)
        requires
            old(self).wf(),
        ensures
            final(self).wf(),
            final(self)@ == after_block(old(self)@, i@).0,
            match after_block(old(self)@, i@).1 {
                Ok(taken) => r is Ok && 1 <= taken <= i@.len() && r->Ok_0@ == behind(i@, taken),
                Err(e) => r is Err && r->Err_0 == e,
            },
    {
        let (body, block_type) = match parse_u8(i) {
            Ok(found) => found,
            Err(e) => {
                return Err(e);
            },
        };
        proof {
            self.lemma_lookup();
        }
        if block_type == 0 {
            let (rest, _scope) = match parse_scope_declaration(body) {
                Ok(found) => found,
                Err(e) => {
                    return Err(e);
                },
            };
            proof {
                let taken = spec_scope_declaration(body@)->Ok_0.1;
                assert(rest@ =~= behind(i@, 1 + taken));
            }
            self.count_command();
            Ok(rest)
        } else if block_type == 1 {
            let (rest, _variable) = match parse_variable_declaration(body, &self.storages) {
                Ok(found) => found,
                Err(e) => {
                    return Err(e);
                },
            };
            proof {
                let taken = spec_variable_declaration(body@, lookup_of(self@))->Ok_0.1;
                assert(rest@ =~= behind(i@, 1 + taken));
            }
            self.count_command();
            Ok(rest)
        } else if block_type == 2 {
            let (rest, declaration) = match parse_storage_declaration(body) {
                Ok(found) => found,
                Err(e) => {
                    return Err(e);
                },
            };
            proof {
                let taken = spec_storage_declaration(body@)->Ok_0.1;
                assert(rest@ =~= behind(i@, 1 + taken));
            }
            match self.storages.declare(declaration) {
                Ok(()) => {},
                Err(e) => {
                    return Err(e);
                },
            }
            self.count_command();
            Ok(rest)
        } else if block_type == 3 {
            let (first, count) = match parse_varu32(body) {
                Ok(found) => found,
                Err(e) => {
                    return Err(e);
                },
            };
            let ghost header = spec_varint(varint_u32(body@))->Ok_0.1;
            let ghost start = self@;
            let ghost whole = after_changes(start, first@, count as nat);
            let mut input = first;
            let mut left = count;
            let ghost mut done: int = 0;
            proof {
                assert(first@ =~= behind(first@, 0));
            }
            while left > 0
                invariant
                    self.wf(),
                    0 <= done <= first@.len(),
                    input@ == behind(first@, done),
                    start == old(self)@,
                    spec_u8(i@) == Ok::<(u8, int), Error>((3u8, 1)),
                    body@ == behind(i@, 1),
                    spec_varint(varint_u32(body@)) == Ok::<(u32, int), Error>((count, header)),
                    first@ == behind(body@, header),
                    whole == after_changes(start, first@, count as nat),
                    whole == (
                        after_changes(self@, input@, left as nat).0,
                        moved(after_changes(self@, input@, left as nat).1, done),
                    ),
                ensures
                    left == 0,
                    self.wf(),
                    0 <= done <= first@.len(),
                    input@ == behind(first@, done),
                    whole == (self@, Ok::<int, Error>(done)),
                decreases left,
            {
                proof {
                    self.lemma_lookup();
                }
                let ghost state = self@;
                let ghost one = spec_value_change(input@, lookup_of(state));
                let (next, (storage_id, value)) = match parse_value_change(input, &self.storages) {
                    Ok(found) => found,
                    Err(e) => {
                        return Err(e);
                    },
                };
                match self.note_change(storage_id, value.bytes()) {
                    Ok(()) => {},
                    Err(e) => {
                        return Err(e);
                    },
                }
                proof {
                    assert(next@ =~= behind(first@, done + one->Ok_0.1));
                    done = done + one->Ok_0.1;
                }
                input = next;
                left -= 1;
            }
            proof {
                assert(input@ =~= behind(i@, 1 + header + done));
            }
            self.count_command();
            Ok(input)
        } else if block_type == 4 {
            let (rest, delta) = match parse_varu64(body) {
                Ok(found) => found,
                Err(e) => {
                    return Err(e);
                },
            };
            proof {
                let taken = spec_varint(varint_u64(body@))->Ok_0.1;
                assert(rest@ =~= behind(i@, 1 + taken));
            }
            match self.note_timestep(delta) {
                Ok(()) => {},
                Err(e) => {
                    return Err(e);
                },
            }
            self.count_command();
            Ok(rest)
        } else {
            Err(Error::Failure(Reason::InvalidBlockType))
        }
    }
}

/// The state after all the blocks of an input.
pub open spec fn after_stream(state: ConverterView, i: Seq<u8>) -> Result<ConverterView, Error>
    decreases i.len(),
{
    if i.len() == 0 {
        Ok(state)
    } else {
        match after_block(state, i).1 {
            Err(e) => Err(e),
            Ok(taken) => if 1 <= taken <= i.len() {
                after_stream(after_block(state, i).0, behind(i, taken))
            } else {
                Err(Error::Failure(Reason::BrokenStream))
            },
        }
    }
}

/// The state at the start of a stream.
pub open spec fn initial(header: Header) -> ConverterView {
    ConverterView {
        storages: Map::empty(),
        timestamps: Seq::empty(),
        changes: Seq::empty(),
        timescale: header.timescale,
        timestamp_acc: 0,
        timestep_offset: 0,
        number_of_timestamps: 0,
        processed_commands_count: 0,
    }
}

/// What a whole stream amounts to: the header, then the blocks to the end
/// of the input.
pub open spec fn spec_load(i: Seq<u8>) -> Result<ConverterView, Error> {
    match spec_header(i) {
        Err(e) => Err(e),
        Ok((header, _)) => after_stream(initial(header), behind(i, 24)),
    }
}

impl SvcbConverter {
    /// Reads a whole stream that lies in memory.
    ///
    /// Fails as the header or a block fails, and with `IoError` where a log
    /// cannot grow.
    pub fn load_svcb(input: &[u8]) -> (r: Result<Self, Error>)
        ensures
            match spec_load(input@) {
                Ok(state) => r is Ok && r->Ok_0.wf() && r->Ok_0@ == state,
                Err(e) => r is Err && r->Err_0 == e,
            },
    {
        let (first, header) = match parse_header(input) {
            Ok(found) => found,
            Err(e) => {
                return Err(e);
            },
        };
        let mut converter = SvcbConverter::new(header);
        let mut rest = first;
        let ghost whole = after_stream(initial(header), first@);
        while rest.len() > 0
            invariant
                converter.wf(),
                spec_header(input@) == Ok::<(Header, int), Error>((header, 24)),
                first@ == behind(input@, 24),
                whole == after_stream(initial(header), first@),
                whole == after_stream(converter@, rest@),
            decreases rest@.len(),
        {
            rest = match converter.step(rest) {
                Ok(rest) => rest,
                Err(e) => {
                    return Err(e);
                },
            };
        }
        Ok(converter)
    }
}

/// Loads streamed value change blocks.
pub struct SvcbLoader {}

impl SvcbLoader {
    pub fn new() -> (r: Self) {
        SvcbLoader {  }
    }

    /// Whether files of the extension `s` are streams of value change
    /// blocks: whether `s` is "svcb".
    pub fn supports_file_extension(&self, s: &str) -> (r: bool)
        ensures
            r == (s.spec_bytes() == seq![0x73u8, 0x76u8, 0x63u8, 0x62u8]),
    {
        let bytes = s.as_bytes();
        let r = bytes.len() == 4 && bytes[0] == 0x73 && bytes[1] == 0x76 && bytes[2] == 0x63
            && bytes[3] == 0x62;
        proof {
            if r {
                assert(bytes@ =~= seq![0x73u8, 0x76u8, 0x63u8, 0x62u8]);
            }
        }
        r
    }

    /// What the loader loads, in words.
    pub fn description(&self) -> (r: &'static str)
        ensures
            r@ == "the Streamed Value Change Blocks (SVCB) loader"@,
    {
        "the Streamed Value Change Blocks (SVCB) loader"
    }
}

} // verus!
