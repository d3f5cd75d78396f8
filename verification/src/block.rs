//! Buffering the value changes of one storage into blocks that are written
//! out as they fill.
//!
//! A record is the timestamp, 64 bits little-endian, and the value, padded
//! with zeros to the storage's size. Writing is left to the caller: a
//! flush hands back the bytes to write and notes where in the output they
//! go.

use crate::meta::{StorageId, StorageType, Timesteps};
use vstd::bytes::{spec_u64_from_le_bytes, spec_u64_to_le_bytes, u64_from_le_bytes, u64_to_le_bytes};
use vstd::prelude::*;
use vstd::slice::slice_subrange;

verus! {

/// The least size of a block's buffer.
pub const MIN_BLOCK_SIZE: usize = 10240;

/// The size of the timestamp that starts a record.
pub const TIMESTAMP_SIZE: usize = 8;

/// One value of a storage, as the bytes of a value change.
pub struct Value<'a> {
    pub storage_id: StorageId,
    pub data: &'a [u8],
}

/// The number of bytes of a value of `width` units.
pub fn storage_bytes(ty: StorageType, width: u32) -> (r: u32)
    ensures
        r == match ty {
            StorageType::TwoLogic => (width as int + 7) / 8,
            StorageType::FourLogic => (width as int + 3) / 4,
            StorageType::NineLogic => width as int,
        },
{
    match ty {
        StorageType::TwoLogic => width / 8 + if width % 8 == 0 {
            0
        } else {
            1
        },
        StorageType::FourLogic => width / 4 + if width % 4 == 0 {
            0
        } else {
            1
        },
        StorageType::NineLogic => width,
    }
}

/// A record: the timestamp, then the value, then zeros up to `bytes`.
pub open spec fn record(timestamp: u64, data: Seq<u8>, bytes: nat) -> Seq<u8> {
    spec_u64_to_le_bytes(timestamp) + data + Seq::new((bytes - data.len()) as nat, |k: int| 0u8)
}

/// The block of one storage that is being filled.
pub struct Block {
    bytes: u32,
    block_size: usize,
    data: Vec<u8>,
    block_offsets: Vec<(u64, usize)>,
}

/// Where the blocks of one storage went.
pub struct CommittedBlocks {
    bytes: u32,
    block_size: usize,
    block_offsets: Vec<(u64, usize)>,
}

impl Block {
    /// The size of a value in bytes.
    pub closed spec fn spec_bytes(&self) -> u32 {
        self.bytes
    }

    /// The size of the buffer.
    pub closed spec fn spec_block_size(&self) -> usize {
        self.block_size
    }

    /// The records that are buffered and not yet handed out.
    pub closed spec fn pending(&self) -> Seq<u8> {
        self.data@
    }

    /// Offset and size of each block that was handed out.
    pub closed spec fn offsets(&self) -> Seq<(u64, usize)> {
        self.block_offsets@
    }

    /// The buffer holds whole records and is not over its size.
    pub closed spec fn wf(&self) -> bool {
        &&& self.block_size >= MIN_BLOCK_SIZE
        &&& self.block_size >= self.bytes + TIMESTAMP_SIZE
        &&& self.data@.len() <= self.block_size
    }

    /// An empty block for values of `bytes` bytes. The buffer takes 10 KiB,
    /// or one record where a record is larger.
    pub fn new(bytes: u32) -> (r: Self)
        requires
            bytes + TIMESTAMP_SIZE <= usize::MAX,
        ensures
            r.wf(),
            r.spec_bytes() == bytes,
            r.spec_block_size() == if bytes + TIMESTAMP_SIZE > MIN_BLOCK_SIZE {
                (bytes + TIMESTAMP_SIZE) as usize
            } else {
                MIN_BLOCK_SIZE
            },
            r.pending() == Seq::<u8>::empty(),
            r.offsets() == Seq::<(u64, usize)>::empty(),
    {
        let record = bytes as usize + TIMESTAMP_SIZE;
        let block_size = if record > MIN_BLOCK_SIZE {
            record
        } else {
            MIN_BLOCK_SIZE
        };
        Block { bytes, block_size, data: Vec::new(), block_offsets: Vec::new() }
    }

    /// Hands out what is buffered, to be written at `writer_offset`, notes
    /// the block and moves `writer_offset` behind it.
    pub fn flush(&mut self, writer_offset: &mut u64) -> (r: Vec<u8>)
        requires
            old(self).wf(),
            *old(writer_offset) + old(self).pending().len() <= u64::MAX,
        ensures
            final(self).wf(),
            r@ == old(self).pending(),
            final(self).pending() == Seq::<u8>::empty(),
            final(self).offsets() == old(self).offsets().push(
                (*old(writer_offset), old(self).pending().len() as usize),
            ),
            *final(writer_offset) == *old(writer_offset) + old(self).pending().len(),
            final(self).spec_bytes() == old(self).spec_bytes(),
            final(self).spec_block_size() == old(self).spec_block_size(),
    {
        let mut out: Vec<u8> = Vec::new();
        core::mem::swap(&mut out, &mut self.data);
        let size = out.len();
        self.block_offsets.push((*writer_offset, size));
        *writer_offset = *writer_offset + size as u64;
        out
    }

    /// Buffers one record: `data` under `timestamp`. Where the record does
    /// not fit any more, what was buffered is handed out first, as by
    /// `flush`.
    pub fn push(&mut self, writer_offset: &mut u64, timestamp: Timesteps, data: &[u8]) -> (r: Option<
        Vec<u8>,
    >)
        requires
            old(self).wf(),
            data@.len() <= old(self).spec_bytes(),
            *old(writer_offset) + old(self).pending().len() <= u64::MAX,
        ensures
            final(self).wf(),
            final(self).spec_bytes() == old(self).spec_bytes(),
            final(self).spec_block_size() == old(self).spec_block_size(),
            old(self).pending().len() + TIMESTAMP_SIZE + old(self).spec_bytes() <= old(self).spec_block_size() ==> r is None && final(self).pending() == old(self).pending()
                + record(timestamp.0, data@, old(self).spec_bytes() as nat) && final(self).offsets()
                == old(self).offsets() && *final(writer_offset) == *old(writer_offset),
            old(self).pending().len() + TIMESTAMP_SIZE + old(self).spec_bytes() > old(self).spec_block_size() ==> r is Some && r->Some_0@ == old(self).pending() && final(self).pending() == record(timestamp.0, data@, old(self).spec_bytes() as nat) && final(self).offsets() == old(self).offsets().push(
                (*old(writer_offset), old(self).pending().len() as usize),
            ) && *final(writer_offset) == *old(writer_offset) + old(self).pending().len(),
    {
        let flushed = if self.block_size - self.data.len() < TIMESTAMP_SIZE + self.bytes as usize {
            Some(self.flush(writer_offset))
        } else {
            None
        };
        let ghost base = self.data@;
        let stamp = u64_to_le_bytes(timestamp.0);
        let mut i: usize = 0;
        while i < 8
            invariant
                i <= 8,
                stamp@.len() == 8,
                self.data@ == base + stamp@.subrange(0, i as int),
                self.bytes == old(self).bytes,
                self.block_size == old(self).block_size,
                self.block_offsets@ == if flushed is Some {
                    old(self).offsets().push(
                        (*old(writer_offset), old(self).pending().len() as usize),
                    )
                } else {
                    old(self).offsets()
                },
            decreases 8 - i,
        {
            self.data.push(stamp[i]);
            i += 1;
            assert(self.data@ =~= base + stamp@.subrange(0, i as int));
        }
        assert(stamp@.subrange(0, 8) =~= stamp@);
        let mut j: usize = 0;
        while j < data.len()
            invariant
                j <= data@.len(),
                self.data@ == base + stamp@ + data@.subrange(0, j as int),
                self.bytes == old(self).bytes,
                self.block_size == old(self).block_size,
                self.block_offsets@ == if flushed is Some {
                    old(self).offsets().push(
                        (*old(writer_offset), old(self).pending().len() as usize),
                    )
                } else {
                    old(self).offsets()
                },
            decreases data@.len() - j,
        {
            self.data.push(data[j]);
            j += 1;
            assert(self.data@ =~= base + stamp@ + data@.subrange(0, j as int));
        }
        assert(data@.subrange(0, data@.len() as int) =~= data@);
        let rest = self.bytes as usize - data.len();
        let mut k: usize = 0;
        while k < rest
            invariant
                k <= rest,
                self.data@ == base + stamp@ + data@ + Seq::new(k as nat, |x: int| 0u8),
                self.bytes == old(self).bytes,
                self.block_size == old(self).block_size,
                self.block_offsets@ == if flushed is Some {
                    old(self).offsets().push(
                        (*old(writer_offset), old(self).pending().len() as usize),
                    )
                } else {
                    old(self).offsets()
                },
            decreases rest - k,
        {
            self.data.push(0u8);
            k += 1;
            assert(self.data@ =~= base + stamp@ + data@ + Seq::new(k as nat, |x: int| 0u8));
        }
        proof {
            let whole = record(timestamp.0, data@, self.bytes as nat);
            assert(self.data@ =~= base + whole);
            if flushed is Some {
                assert(base + whole =~= whole);
            }
        }
        flushed
    }

    /// Hands out what is still buffered, as by `flush`, and with it the list
    /// of all blocks.
    pub fn commit(self, writer_offset: &mut u64) -> (r: (CommittedBlocks, Vec<u8>))
        requires
            self.wf(),
            *old(writer_offset) + self.pending().len() <= u64::MAX,
        ensures
            r.1@ == self.pending(),
            r.0.offsets() == self.offsets().push((*old(writer_offset), self.pending().len() as usize)),
            r.0.spec_bytes() == self.spec_bytes(),
            r.0.spec_block_size() == self.spec_block_size(),
            *final(writer_offset) == *old(writer_offset) + self.pending().len(),
    {
        let mut block = self;
        let out = block.flush(writer_offset);
        (
            CommittedBlocks {
                bytes: block.bytes,
                block_size: block.block_size,
                block_offsets: block.block_offsets,
            },
            out,
        )
    }
}

/// The records of a block: each a timestamp and a value of `bytes` bytes.
pub open spec fn records_in(block: Seq<u8>, bytes: nat) -> Seq<(u64, Seq<u8>)> {
    Seq::new(
        block.len() / (bytes + 8),
        |i: int|
            (
                spec_u64_from_le_bytes(block.subrange(i * (bytes + 8), i * (bytes + 8) + 8)),
                block.subrange(i * (bytes + 8) + 8, (i + 1) * (bytes + 8)),
            ),
    )
}

impl CommittedBlocks {
    /// The size of a value in bytes.
    pub closed spec fn spec_bytes(&self) -> u32 {
        self.bytes
    }

    /// The size of the buffer that the blocks were filled in.
    pub closed spec fn spec_block_size(&self) -> usize {
        self.block_size
    }

    /// Offset and size of each block.
    pub closed spec fn offsets(&self) -> Seq<(u64, usize)> {
        self.block_offsets@
    }

    /// The size of the buffer that holds any one block.
    pub fn block_size(&self) -> (r: usize)
        ensures
            r == self.spec_block_size(),
    {
        self.block_size
    }

    /// Offset and size of each block, in the order in which they were
    /// handed out.
    pub fn block_offsets(&self) -> (r: &Vec<(u64, usize)>)
        ensures
            r@ == self.offsets(),
    {
        &self.block_offsets
    }

    /// Decodes a block that was read back: its records in order, each with
    /// its timestamp and its value. Bytes behind the last whole record are
    /// left out.
    pub fn read_block(&self, block: &[u8]) -> (r: Vec<(Timesteps, Vec<u8>)>)
        requires
            self.spec_bytes() + 8 <= usize::MAX,
        ensures
            r@.len() == records_in(block@, self.spec_bytes() as nat).len(),
            forall|i: int|
                0 <= i < r@.len() ==> (#[trigger] r@[i]).0.0 == records_in(
                    block@,
                    self.spec_bytes() as nat,
                )[i].0 && r@[i].1@ == records_in(block@, self.spec_bytes() as nat)[i].1,
    {
        let step = self.bytes as usize + 8;
        let count = block.len() / step;
        let mut out: Vec<(Timesteps, Vec<u8>)> = Vec::new();
        let mut i: usize = 0;
        while i < count
            invariant
                i <= count,
                step == self.bytes + 8,
                block@.len() <= usize::MAX,
                count == (block@.len() as int) / (step as int),
                out@.len() == i,
                forall|k: int|
                    0 <= k < i ==> (#[trigger] out@[k]).0.0 == records_in(
                        block@,
                        self.bytes as nat,
                    )[k].0 && out@[k].1@ == records_in(block@, self.bytes as nat)[k].1,
            decreases count - i,
        {
            proof {
                assert((i + 1) * step <= count * step) by (nonlinear_arith)
                    requires
                        i < count,
                        step >= 0,
                ;
                assert(count * step <= block@.len()) by (nonlinear_arith)
                    requires
                        count == (block@.len() as int) / (step as int),
                        step > 0,
                ;
                assert((i + 1) * step == i * step + step) by (nonlinear_arith);
                assert(i * step >= 0) by (nonlinear_arith)
                    requires
                        i >= 0,
                        step >= 0,
                ;
            }
            let at = i * step;
            let stamp = u64_from_le_bytes(slice_subrange(block, at, at + 8));
            let mut value: Vec<u8> = Vec::new();
            let end = at + step;
            let mut j: usize = at + 8;
            while j < end
                invariant
                    at + 8 <= j <= at + step,
                    end == at + step,
                    at + step <= block@.len(),
                    value@ == block@.subrange(at + 8, j as int),
                decreases end - j,
            {
                value.push(block[j]);
                j += 1;
                assert(value@ =~= block@.subrange(at + 8, j as int));
            }
            out.push((Timesteps(stamp), value));
            i += 1;
        }
        out
    }
}

} // verus!
