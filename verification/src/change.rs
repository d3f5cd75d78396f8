//! The change store: every signal's value changes, in one append-only byte
//! store.
//!
//! A signal's changes lie in a chain of blocks. A block is a header of 16
//! bytes, two little-endian 64-bit integers: the distance in bytes to the
//! signal's next block (0 in the last block) and the number of records in
//! the block. Behind the header lie 128 record slots. A record is the index
//! of its timestep, 32 bits little-endian, and the packed units of the
//! value. Blocks start at multiples of 8 and the blocks of different signals
//! interleave.

use crate::bytes::{
    align_up, aligned_up, extend_zeroed, le32_at, le64_at, lemma_splice, lemma_splice_apart,
    lemma_zero_le64, zeros,
    range_mut, read_u32, read_u64, splice, write_u32, write_u64,
};
use crate::error::Error;
use crate::logic::{bytes_for, lemma_packed_bounds, packed_len, tail_clean, Logic, LogicSlice, LogicSliceMut};
use crate::meta::{StorageId, Timesteps};
use crate::timesteps::TimestepTable;
use vstd::prelude::*;
use vstd::slice::slice_subrange;

verus! {

/// The number of record slots of a block.
pub const CHANGES_PER_BLOCK: usize = 128;

/// The size of a block header in bytes.
pub const BLOCK_HEADER_SIZE: usize = 16;

/// The size of the timestep index that starts a record.
pub const TIMESTEP_INDEX_SIZE: usize = 4;

/// The alignment of a block.
pub const BLOCK_ALIGN: usize = 8;

/// The header of a block.
#[derive(Debug, Clone, Copy, PartialEq, Eq, Structural)]
pub struct BlockHeader {
    /// The distance in bytes to the signal's next block; `None` in the last.
    pub delta_next: Option<u64>,
    /// The number of records in the block, at most `CHANGES_PER_BLOCK`.
    pub len: u64,
}

impl BlockHeader {
    /// Whether every slot of the block holds a record.
    pub fn is_full(&self) -> (r: bool)
        ensures
            r == (self.len == CHANGES_PER_BLOCK),
    {
        self.len == CHANGES_PER_BLOCK as u64
    }
}

/// The byte offset of a record in the store.
#[derive(Debug, Clone, Copy, PartialEq, Eq, Structural)]
pub struct ChangeOffset(pub usize);

/// How much the store holds.
#[derive(Debug, Clone, Copy, PartialEq, Eq, Structural)]
pub struct ChangeListInfo {
    pub total_bytes_used: usize,
    pub total_storages: usize,
}

/// One record of the store: the index of its timestep and its packed units.
pub struct Change {
    pub timestep: u32,
    pub bytes: Seq<u8>,
}

/// What a byte of the store belongs to.
pub enum Tag {
    /// Padding between blocks.
    Free,
    /// The header of a signal's block.
    Header { signal: int, block: int },
    /// The timestep index of a signal's record slot.
    Index { signal: int, record: int },
    /// The packed units of a signal's record slot.
    Payload { signal: int, record: int },
}

/// What the store keeps of a declared signal.
pub struct StorageInfo {
    first_offset: usize,
    last_offset: usize,
    bytes_per_change: usize,
    width: usize,
    count: usize,
    bits: u8,
    blocks: Ghost<Seq<int>>,
}

/// The size of a block whose records take `bpc` bytes each.
pub open spec fn block_size(bpc: int) -> int {
    16 + 128 * bpc
}

/// The number of blocks in the chain of a signal with `count` records.
pub open spec fn blocks_for(count: int) -> int {
    if count == 0 {
        1
    } else {
        (count + 127) / 128
    }
}

/// The offset of slot `i` of a chain.
pub open spec fn record_at(blocks: Seq<int>, bpc: int, i: int) -> int {
    blocks[i / 128] + 16 + (i % 128) * bpc
}

/// Every byte of `lo .. hi` belongs to `tag`.
pub open spec fn tagged(owner: Seq<Tag>, lo: int, hi: int, tag: Tag) -> bool {
    &&& 0 <= lo <= hi <= owner.len()
    &&& forall|k: int| lo <= k < hi ==> #[trigger] owner[k] == tag
}

/// What the byte `rel` bytes into block `block` of `signal` belongs to.
pub open spec fn tag_in_block(signal: int, block: int, bpc: int, rel: int) -> Tag {
    if rel < 16 {
        Tag::Header { signal, block }
    } else if (rel - 16) % bpc < 4 {
        Tag::Index { signal, record: 128 * block + (rel - 16) / bpc }
    } else {
        Tag::Payload { signal, record: 128 * block + (rel - 16) / bpc }
    }
}

spec fn block_ok(data: Seq<u8>, owner: Seq<Tag>, t: int, info: StorageInfo, j: int) -> bool {
    let blocks = info.blocks@;
    let o = blocks[j];
    &&& 0 <= o
    &&& o % 8 == 0
    &&& o + block_size(info.bytes_per_change as int) <= data.len()
    &&& tagged(owner, o, o + 16, Tag::Header { signal: t, block: j })
    &&& le64_at(data, o) == (if j + 1 < blocks.len() {
        blocks[j + 1] - o
    } else {
        0
    })
    &&& (j + 1 < blocks.len() ==> o < blocks[j + 1])
    &&& le64_at(data, o + 8) == (if j + 1 < blocks.len() {
        128
    } else {
        info.count - 128 * j
    })
}

spec fn slot_ok(data: Seq<u8>, owner: Seq<Tag>, steps: int, t: int, info: StorageInfo, i: int) -> bool {
    let at = record_at(info.blocks@, info.bytes_per_change as int, i);
    &&& tagged(owner, at, at + 4, Tag::Index { signal: t, record: i })
    &&& tagged(owner, at + 4, at + info.bytes_per_change, Tag::Payload { signal: t, record: i })
    &&& (i < info.count ==> le32_at(data, at) < steps)
}

/// The chain of a signal is intact, whether or not its last block is one
/// that a record is about to be put in.
spec fn chain_ok(data: Seq<u8>, owner: Seq<Tag>, steps: int, t: int, info: StorageInfo) -> bool {
    let blocks = info.blocks@;
    &&& info.bits == 1 || info.bits == 2 || info.bits == 4
    &&& info.width > 0
    &&& info.bytes_per_change == 4 + packed_len(info.width as nat, info.bits)
    &&& blocks.len() >= 1
    &&& 128 * (blocks.len() - 1) <= info.count <= 128 * blocks.len()
    &&& info.first_offset == blocks[0]
    &&& info.last_offset == blocks[blocks.len() - 1]
    &&& forall|j: int| 0 <= j < blocks.len() ==> #[trigger] block_ok(data, owner, t, info, j)
    &&& forall|i: int|
        0 <= i < 128 * blocks.len() ==> #[trigger] slot_ok(data, owner, steps, t, info, i)
}

spec fn signal_ok(data: Seq<u8>, owner: Seq<Tag>, steps: int, t: int, info: StorageInfo) -> bool {
    &&& chain_ok(data, owner, steps, t, info)
    &&& info.blocks@.len() == blocks_for(info.count as int)
}

spec fn parts_ok(
    data: Seq<u8>,
    owner: Seq<Tag>,
    infos: Seq<Option<StorageInfo>>,
    steps: int,
) -> bool {
    &&& owner.len() == data.len()
    &&& forall|t: int|
        0 <= t < infos.len() && infos[t] is Some ==> #[trigger] signal_ok(
            data,
            owner,
            steps,
            t,
            infos[t]->Some_0,
        )
}

/// The records of a signal, read out of the store.
spec fn changes_in(data: Seq<u8>, info: StorageInfo) -> Seq<Change> {
    Seq::new(
        info.count as nat,
        |i: int|
            {
                let at = record_at(info.blocks@, info.bytes_per_change as int, i);
                Change {
                    timestep: le32_at(data, at),
                    bytes: data.subrange(at + 4, at + info.bytes_per_change),
                }
            },
    )
}

/// Where a slot lies inside its block.
proof fn lemma_slot_position(j: int, s: int, bpc: int, r: int)
    requires
        0 <= j,
        0 <= s < 128,
        4 <= bpc,
        0 <= r < bpc,
    ensures
        (128 * j + s) / 128 == j,
        (128 * j + s) % 128 == s,
        0 <= s * bpc,
        s * bpc + bpc <= 128 * bpc,
        (s * bpc + r) / bpc == s,
        (s * bpc + r) % bpc == r,
{
    assert(0 <= s * bpc && s * bpc + bpc <= 128 * bpc) by (nonlinear_arith)
        requires
            0 <= s < 128,
            4 <= bpc,
    ;
    vstd::arithmetic::div_mod::lemma_fundamental_div_mod_converse(s * bpc + r, bpc, s, r);
}

/// The signal that a byte belongs to, or -1 for padding.
spec fn tag_signal(tag: Tag) -> int {
    match tag {
        Tag::Free => -1,
        Tag::Header { signal, block } => signal,
        Tag::Index { signal, record } => signal,
        Tag::Payload { signal, record } => signal,
    }
}

/// Whatever is appended to the store or rewritten in the bytes of signal
/// `t`: every other signal is as it was.
proof fn lemma_signal_kept(
    data: Seq<u8>,
    after: Seq<u8>,
    owner: Seq<Tag>,
    owner2: Seq<Tag>,
    steps: int,
    steps2: int,
    t2: int,
    info2: StorageInfo,
    t: int,
)
    requires
        chain_ok(data, owner, steps, t2, info2),
        owner.len() == data.len(),
        owner2.len() == after.len(),
        after.len() >= data.len(),
        steps2 >= steps,
        forall|k: int| 0 <= k < data.len() ==> owner2[k] == owner[k],
        forall|k: int| 0 <= k < data.len() && tag_signal(owner[k]) != t ==> after[k] == data[k],
        t2 != t,
    ensures
        chain_ok(after, owner2, steps2, t2, info2),
        signal_ok(data, owner, steps, t2, info2) ==> signal_ok(after, owner2, steps2, t2, info2),
        changes_in(after, info2) == changes_in(data, info2),
{
    let blocks = info2.blocks@;
    let bpc = info2.bytes_per_change as int;
    assert forall|j: int| 0 <= j < blocks.len() implies #[trigger] block_ok(
        after,
        owner2,
        t2,
        info2,
        j,
    ) by {
        assert(block_ok(data, owner, t2, info2, j));
        let o = blocks[j];
        assert(after.subrange(o, o + 8) =~= data.subrange(o, o + 8));
        assert(after.subrange(o + 8, o + 16) =~= data.subrange(o + 8, o + 16));
    }
    assert forall|i: int| 0 <= i < 128 * blocks.len() implies #[trigger] slot_ok(
        after,
        owner2,
        steps2,
        t2,
        info2,
        i,
    ) by {
        assert(slot_ok(data, owner, steps, t2, info2, i));
        let at = record_at(blocks, bpc, i);
        assert(after.subrange(at, at + 4) =~= data.subrange(at, at + 4));
    }
    assert forall|i: int| 0 <= i < info2.count implies changes_in(after, info2)[i] == changes_in(
        data,
        info2,
    )[i] by {
        assert(slot_ok(data, owner, steps, t2, info2, i));
        let at = record_at(blocks, bpc, i);
        assert(after.subrange(at, at + 4) =~= data.subrange(at, at + 4));
        assert(after.subrange(at + 4, at + bpc) =~= data.subrange(at + 4, at + bpc));
    }
    assert(changes_in(after, info2) =~= changes_in(data, info2));
}

/// What the store holds of one signal.
pub struct SignalView {
    /// Bits per unit of the signal's logic variant.
    pub bits: u8,
    /// The number of units of a value.
    pub width: nat,
    /// The records, in the order in which they were appended.
    pub changes: Seq<Change>,
    /// The byte offset of each record.
    pub offsets: Seq<int>,
    /// The byte offset of the signal's first block.
    pub first: int,
}

/// The number of bytes of a record of `width` units of `bits` bits: the
/// index of its timestep, then its packed units.
pub open spec fn record_size(width: nat, bits: u8) -> int {
    4 + packed_len(width, bits) as int
}

/// Where a block is put into a store of `used` bytes: at its end, on the
/// next multiple of eight.
pub open spec fn next_block(used: nat) -> int {
    aligned_up(used as int, 8)
}

/// The number of bytes of a store of `used` bytes after a block for
/// records of `bpc` bytes was put at its end.
pub open spec fn used_with_block(used: nat, bpc: int) -> nat {
    (next_block(used) + block_size(bpc)) as nat
}

/// A store with a new block for records of `bpc` bytes at its end: zeros
/// up to the next multiple of eight, then the block, all zero too: a
/// header that names no next block and no record, and 128 empty slots.
pub open spec fn with_block(store: Seq<u8>, bpc: int) -> Seq<u8> {
    store + zeros(next_block(store.len()) - store.len() + block_size(bpc))
}

/// A store with one more record in the block at `block`, in its slot
/// `slot`: the header counts one record more, and the slot holds the
/// timestep index `stamp` and the units `part`.
pub open spec fn with_slot(
    store: Seq<u8>,
    block: int,
    bpc: int,
    slot: int,
    stamp: u32,
    part: Seq<u8>,
) -> Seq<u8> {
    let at = block + 16 + slot * bpc;
    splice(
        splice(
            splice(store, block + 8, vstd::bytes::spec_u64_to_le_bytes((slot + 1) as u64)),
            at,
            vstd::bytes::spec_u32_to_le_bytes(stamp),
        ),
        at + 4,
        part,
    )
}

/// A store with one more record of a signal that has `count` records and
/// its last block at `last`: in the next slot of that block; or, where
/// the block is full, in the first slot of a new block at the end of the
/// store, to which the full block is linked.
pub open spec fn with_record(
    store: Seq<u8>,
    last: int,
    bpc: int,
    count: nat,
    stamp: u32,
    part: Seq<u8>,
) -> Seq<u8> {
    if block_full(count) {
        let start = next_block(store.len());
        with_slot(
            with_block(
                splice(store, last, vstd::bytes::spec_u64_to_le_bytes((start - last) as u64)),
                bpc,
            ),
            start,
            bpc,
            0,
            stamp,
            part,
        )
    } else {
        with_slot(store, last, bpc, count as int % 128, stamp, part)
    }
}

/// Whether a signal with `count` records needs a new block for its next
/// record: its blocks hold 128 records each, and its first block is there
/// from its declaration.
pub open spec fn block_full(count: nat) -> bool {
    count > 0 && count % 128 == 0
}

impl SignalView {
    /// A signal as it is declared in a store of `used` bytes: without
    /// changes, its first block at the end of the store.
    pub open spec fn fresh(bits: u8, width: nat, used: nat) -> SignalView {
        SignalView {
            bits,
            width,
            changes: Seq::empty(),
            offsets: Seq::empty(),
            first: next_block(used),
        }
    }

    /// Where the next record of the signal is put, in a store of `used`
    /// bytes: behind the header of the first block, behind the last
    /// record, or, where the last block is full, behind the header of a
    /// new block at the end of the store.
    pub open spec fn next_record(self, used: nat) -> int {
        if self.changes.len() == 0 {
            self.first + 16
        } else if block_full(self.changes.len()) {
            next_block(used) + 16
        } else {
            self.offsets.last() + record_size(self.width, self.bits)
        }
    }
}

spec fn view_of(data: Seq<u8>, info: StorageInfo) -> SignalView {
    SignalView {
        bits: info.bits,
        width: info.width as nat,
        changes: changes_in(data, info),
        offsets: Seq::new(
            info.count as nat,
            |i: int| record_at(info.blocks@, info.bytes_per_change as int, i),
        ),
        first: info.first_offset as int,
    }
}

spec fn signal_in(data: Seq<u8>, infos: Seq<Option<StorageInfo>>, id: StorageId) -> Option<
    SignalView,
> {
    if id.0 < infos.len() && infos[id.0 as int] is Some {
        Some(view_of(data, infos[id.0 as int]->Some_0))
    } else {
        None
    }
}

/// Whether `after` is the signal `before` with one more record, of the
/// timestep index `stamp` and the units `part`, behind the others.
pub open spec fn appended(
    before: SignalView,
    after: Option<SignalView>,
    stamp: u32,
    part: Seq<u8>,
) -> bool {
    &&& after is Some
    &&& after->Some_0.bits == before.bits
    &&& after->Some_0.width == before.width
    &&& after->Some_0.offsets.len() == before.offsets.len() + 1
    &&& after->Some_0.offsets.subrange(0, before.offsets.len() as int) =~= before.offsets
    &&& after->Some_0.first == before.first
    &&& after->Some_0.changes =~= before.changes.push(Change { timestep: stamp, bytes: part })
}

/// A block-chained log of value changes, with the table of their timesteps.
pub struct ChangeBlockList {
    data: Vec<u8>,
    /// Indexed by storage id.
    storage_infos: Vec<Option<StorageInfo>>,
    timesteps: TimestepTable,
    owner: Ghost<Seq<Tag>>,
}

impl ChangeBlockList {
    /// The chains are intact: every header tells the truth about its block
    /// and its successor, and every record names a timestep of the table.
    pub closed spec fn wf(&self) -> bool {
        &&& parts_ok(
            self.data@,
            self.owner@,
            self.storage_infos@,
            self.timesteps@.len() as int,
        )
        &&& self.timesteps.wf()
    }

    /// What the store holds of the signal `id`; `None` where it was never
    /// declared.
    pub closed spec fn signal(&self, id: StorageId) -> Option<SignalView> {
        signal_in(self.data@, self.storage_infos@, id)
    }

    /// The distinct timesteps so far.
    pub closed spec fn timesteps(&self) -> Seq<u64> {
        self.timesteps@
    }

    /// The number of bytes of the store.
    pub closed spec fn bytes_used(&self) -> nat {
        self.data@.len()
    }

    /// The bytes of the store.
    pub closed spec fn store(&self) -> Seq<u8> {
        self.data@
    }

    /// The byte offset of each block of the signal `id`, the first block
    /// first; none for a signal that was not declared.
    pub closed spec fn chain(&self, id: StorageId) -> Seq<int> {
        if id.0 < self.storage_infos@.len() && self.storage_infos@[id.0 as int] is Some {
            self.storage_infos@[id.0 as int]->Some_0.blocks@
        } else {
            Seq::empty()
        }
    }

    /// One more than the greatest storage id that was declared.
    pub closed spec fn storages(&self) -> nat {
        self.storage_infos@.len()
    }

    /// A store without signals and timesteps.
    pub fn new_in() -> (r: Self)
        ensures
            r.wf(),
            r.timesteps() == Seq::<u64>::empty(),
            r.bytes_used() == 0,
            r.store() == Seq::<u8>::empty(),
            r.storages() == 0,
            forall|id: StorageId| r.signal(id) is None,
            forall|id: StorageId| r.chain(id) == Seq::<int>::empty(),
    {
        ChangeBlockList {
            data: Vec::new(),
            storage_infos: Vec::new(),
            timesteps: TimestepTable::new(),
            owner: Ghost(Seq::empty()),
        }
    }

    /// The number of records of the signal `id`, or `UnknownSignal`.
    pub fn count_of(&self, id: StorageId) -> (r: Result<usize, Error>)
        ensures
            r == match self.signal(id) {
                Some(signal) => Ok::<usize, Error>(signal.changes.len() as usize),
                None => Err(Error::UnknownSignal),
            },
            self.signal(id) is Some ==> self.signal(id)->Some_0.changes.len() <= usize::MAX,
    {
        let at = id.0 as usize;
        if at < self.storage_infos.len() {
            match &self.storage_infos[at] {
                Some(info) => Ok(info.count),
                None => Err(Error::UnknownSignal),
            }
        } else {
            Err(Error::UnknownSignal)
        }
    }

    /// The bytes of the store, as they lie.
    pub fn as_bytes(&self) -> (r: &[u8])
        ensures
            r@ == self.store(),
    {
        self.data.as_slice()
    }

    /// How much the store holds.
    pub fn info(&self) -> (r: ChangeListInfo)
        ensures
            r.total_bytes_used == self.bytes_used(),
            r.total_storages == self.storages(),
    {
        ChangeListInfo {
            total_bytes_used: self.data.len(),
            total_storages: self.storage_infos.len(),
        }
    }

    /// Moves the ingest clock to `timesteps`. The most recent timestep again
    /// changes nothing; a later one gets the next index, which the records
    /// appended from now on carry.
    ///
    /// Fails with `TimestepRegression` where the clock would move backward
    /// and with `TimestepIndexOverflow` where the index does not fit in 32
    /// bits; nothing changes then.
    pub fn push_timesteps(&mut self, timesteps: Timesteps) -> (r: Result<(), Error>)
        requires
            old(self).wf(),
        ensures
            final(self).wf(),
            forall|id: StorageId| final(self).signal(id) == old(self).signal(id),
            final(self).bytes_used() == old(self).bytes_used(),
            final(self).storages() == old(self).storages(),
            final(self).store() == old(self).store(),
            forall|id: StorageId| final(self).chain(id) == old(self).chain(id),
            r == if old(self).timesteps().len() > 0 && timesteps.0 < old(self).timesteps().last() {
                Err::<(), Error>(Error::TimestepRegression)
            } else if old(self).timesteps().len() > 0 && timesteps.0 == old(self).timesteps().last() {
                Ok(())
            } else if old(self).timesteps().len() >= crate::timesteps::MAX_TIMESTEPS {
                Err(Error::TimestepIndexOverflow)
            } else {
                Ok(())
            },
            final(self).timesteps() == if r is Ok && !(old(self).timesteps().len() > 0
                && timesteps.0 == old(self).timesteps().last()) {
                old(self).timesteps().push(timesteps.0)
            } else {
                old(self).timesteps()
            },
    {
        let ghost steps = self.timesteps@.len() as int;
        let pushed = self.timesteps.push(timesteps.0);
        proof {
            let steps2 = self.timesteps@.len() as int;
            assert forall|t: int|
                0 <= t < self.storage_infos@.len() && self.storage_infos@[t] is Some implies #[trigger] signal_ok(
                self.data@,
                self.owner@,
                steps2,
                t,
                self.storage_infos@[t]->Some_0,
            ) by {
                assert(signal_ok(self.data@, self.owner@, steps, t, self.storage_infos@[t]->Some_0));
                lemma_signal_kept(
                    self.data@,
                    self.data@,
                    self.owner@,
                    self.owner@,
                    steps,
                    steps2,
                    t,
                    self.storage_infos@[t]->Some_0,
                    -1,
                );
            }
        }
        match pushed {
            Ok(_) => Ok(()),
            Err(e) => Err(e),
        }
    }
}

/// The owners of a store that has grown by `pad` bytes of padding and by
/// one block of `signal`.
spec fn owner_with_block(owner: Seq<Tag>, pad: int, signal: int, block: int, bpc: int) -> Seq<Tag> {
    owner + Seq::new(pad as nat, |k: int| Tag::Free) + Seq::new(
        block_size(bpc) as nat,
        |k: int| tag_in_block(signal, block, bpc, k),
    )
}

/// The bytes of a fresh block belong to its header and to its slots, in
/// turn.
proof fn lemma_fresh_block(owner: Seq<Tag>, pad: int, signal: int, block: int, bpc: int)
    requires
        0 <= pad,
        0 <= block,
        4 <= bpc,
    ensures
        ({
            let grown = owner_with_block(owner, pad, signal, block, bpc);
            let o = owner.len() + pad;
            &&& grown.len() == o + block_size(bpc)
            &&& forall|k: int| 0 <= k < owner.len() ==> grown[k] == owner[k]
            &&& tagged(grown, o, o + 16, Tag::Header { signal, block })
            &&& forall|s: int|
                0 <= s < 128 ==> tagged(
                    grown,
                    #[trigger] (o + 16 + s * bpc),
                    o + 16 + s * bpc + 4,
                    Tag::Index { signal, record: 128 * block + s },
                ) && tagged(
                    grown,
                    o + 16 + s * bpc + 4,
                    o + 16 + s * bpc + bpc,
                    Tag::Payload { signal, record: 128 * block + s },
                )
        }),
{
    let grown = owner_with_block(owner, pad, signal, block, bpc);
    let o = owner.len() + pad;
    assert forall|s: int| 0 <= s < 128 implies tagged(
        grown,
        #[trigger] (o + 16 + s * bpc),
        o + 16 + s * bpc + 4,
        Tag::Index { signal, record: 128 * block + s },
    ) && tagged(
        grown,
        o + 16 + s * bpc + 4,
        o + 16 + s * bpc + bpc,
        Tag::Payload { signal, record: 128 * block + s },
    ) by {
        lemma_slot_position(block, s, bpc, 0);
        assert forall|k: int| o + 16 + s * bpc <= k < o + 16 + s * bpc + bpc implies grown[k] == (if k
            < o + 16 + s * bpc + 4 {
            Tag::Index { signal, record: 128 * block + s }
        } else {
            Tag::Payload { signal, record: 128 * block + s }
        }) by {
            let r = k - (o + 16 + s * bpc);
            lemma_slot_position(block, s, bpc, r);
            assert(grown[k] == tag_in_block(signal, block, bpc, k - o));
        }
    }
}

impl ChangeBlockList {
    /// Whether the store can take one more block for records of `bpc` bytes
    /// without an offset leaving the range of `usize`.
    pub open spec fn room_for_block(&self, bpc: int) -> bool {
        self.bytes_used() + 8 + block_size(bpc) <= usize::MAX
    }

    /// Declares the signal `id` with values of `width` units of the variant
    /// `L`, and starts its chain with an empty block.
    ///
    /// Fails with `WidthZero` where `width` is 0, with `AlreadyDeclared`
    /// where the id is taken, and with `AllocFailure` where the first block
    /// does not fit; nothing changes then.
    pub fn add_storage<L: Logic>(&mut self, id: StorageId, width: usize) -> (r: Result<(), Error>)
        requires
            old(self).wf(),
        ensures
            final(self).wf(),
            final(self).timesteps() == old(self).timesteps(),
            forall|other: StorageId| other != id ==> final(self).signal(other) == old(self).signal(other),
            r == if width == 0 {
                Err::<(), Error>(Error::WidthZero)
            } else if old(self).signal(id) is Some {
                Err(Error::AlreadyDeclared)
            } else if id.0 >= usize::MAX || !old(self).room_for_block(
                (4 + packed_len(width as nat, L::spec_bits())) as int,
            ) {
                Err(Error::AllocFailure)
            } else {
                Ok(())
            },
            final(self).signal(id) == if r is Ok {
                Some(SignalView::fresh(L::spec_bits(), width as nat, old(self).bytes_used()))
            } else {
                old(self).signal(id)
            },
            final(self).bytes_used() == if r is Ok {
                used_with_block(old(self).bytes_used(), record_size(width as nat, L::spec_bits()))
            } else {
                old(self).bytes_used()
            },
            final(self).storages() == if r is Ok && id.0 >= old(self).storages() {
                id.0 + 1
            } else {
                old(self).storages() as int
            },
            final(self).store() == if r is Ok {
                with_block(old(self).store(), record_size(width as nat, L::spec_bits()))
            } else {
                old(self).store()
            },
            forall|other: StorageId|
                other != id ==> final(self).chain(other) == old(self).chain(other),
            final(self).chain(id) == if r is Ok {
                seq![next_block(old(self).bytes_used())]
            } else {
                old(self).chain(id)
            },
    {
        if width == 0 {
            return Err(Error::WidthZero);
        }
        let at = id.0 as usize;
        if at < self.storage_infos.len() {
            if self.storage_infos[at].is_some() {
                return Err(Error::AlreadyDeclared);
            }
        }
        if at >= usize::MAX {
            return Err(Error::AllocFailure);
        }
        let packed = bytes_for::<L>(width);
        let len = self.data.len();
        // 16 + 128 * (4 + packed) + len + 8 must not leave usize.
        if len > usize::MAX - 8 - 16 - 512 {
            return Err(Error::AllocFailure);
        }
        if packed > (usize::MAX - 8 - 16 - 512 - len) / 128 {
            return Err(Error::AllocFailure);
        }
        let bpc = 4 + packed;
        let size = 16 + 128 * bpc;
        proof {
            crate::bytes::lemma_eight_is_p2();
        }
        let start = align_up(len, 8);
        let ghost data0 = self.data@;
        let ghost owner0 = self.owner@;
        let ghost infos0 = self.storage_infos@;
        let ghost steps = self.timesteps@.len() as int;
        let ghost t = at as int;
        while self.storage_infos.len() <= at
            invariant
                self.storage_infos@.len() >= infos0.len(),
                self.storage_infos@.len() == infos0.len() || self.storage_infos@.len() <= at + 1,
                at < usize::MAX,
                forall|k: int| 0 <= k < infos0.len() ==> self.storage_infos@[k] == infos0[k],
                forall|k: int|
                    infos0.len() <= k < self.storage_infos@.len() ==> self.storage_infos@[k] is None,
                self.data@ == data0,
                self.owner@ == owner0,
                self.timesteps@ == old(self).timesteps@,
                self.timesteps.wf(),
            decreases at + 1 - self.storage_infos@.len(),
        {
            self.storage_infos.push(None);
        }
        extend_zeroed(&mut self.data, start - len + size);
        let ghost blank = self.data@;
        write_u64(&mut self.data, start, 0);
        let ghost data1 = self.data@;
        write_u64(&mut self.data, start + 8, 0);
        proof {
            lemma_zero_le64();
            lemma_splice(blank, start as int, zeros(8));
            lemma_splice(data1, start + 8, zeros(8));
            assert(blank == with_block(data0, bpc as int));
            assert(self.data@ =~= blank);
        }
        let ghost chain: Seq<int> = seq![start as int];
        let info = StorageInfo {
            first_offset: start,
            last_offset: start,
            bytes_per_change: bpc,
            width,
            count: 0,
            bits: L::bits(),
            blocks: Ghost(chain),
        };
        proof {
            L::lemma_bits();
            let data2 = self.data@;
            let owner2 = owner_with_block(owner0, start - len, t, 0, bpc as int);
            lemma_fresh_block(owner0, start - len, t, 0, bpc as int);
            self.owner@ = owner2;
            vstd::bytes::lemma_auto_spec_u64_to_from_le_bytes();
            lemma_splice(data1, start + 8, vstd::bytes::spec_u64_to_le_bytes(0));
            lemma_splice_apart(data1, start + 8, vstd::bytes::spec_u64_to_le_bytes(0), start as int, start + 8);
            assert(block_ok(data2, owner2, t, info, 0));
            assert forall|i: int| 0 <= i < 128 implies #[trigger] slot_ok(
                data2,
                owner2,
                steps,
                t,
                info,
                i,
            ) by {
                lemma_slot_position(0, i, bpc as int, 0);
                assert(record_at(info.blocks@, bpc as int, i) == start + 16 + i * bpc);
            }
            assert(signal_ok(data2, owner2, steps, t, info));
            assert(changes_in(data2, info) =~= Seq::<Change>::empty());
            assert(view_of(data2, info).offsets =~= Seq::<int>::empty());
        }
        let ghost infos1 = self.storage_infos@;
        self.storage_infos[at] = Some(info);
        proof {
            let data2 = self.data@;
            let owner2 = self.owner@;
            let infos2 = self.storage_infos@;
            lemma_splice(
                data0 + Seq::new((start - len + size) as nat, |k: int| 0u8),
                start as int,
                vstd::bytes::spec_u64_to_le_bytes(0),
            );
            assert forall|t2: int| 0 <= t2 < infos2.len() && infos2[t2] is Some implies #[trigger] signal_ok(
                data2,
                owner2,
                steps,
                t2,
                infos2[t2]->Some_0,
            ) by {
                if t2 != t {
                    assert(infos2[t2] == infos1[t2]);
                    assert(t2 < infos0.len());
                    assert(signal_ok(data0, owner0, steps, t2, infos0[t2]->Some_0));
                    lemma_signal_kept(
                        data0,
                        data2,
                        owner0,
                        owner2,
                        steps,
                        steps,
                        t2,
                        infos0[t2]->Some_0,
                        t,
                    );
                }
            }
            assert forall|other: StorageId| other != id implies final(self).signal(other) == old(self).signal(other) by {
                let t2 = other.0 as int;
                if t2 < infos0.len() && infos0[t2] is Some {
                    assert(infos2[t2] == infos1[t2]);
                    assert(signal_ok(data0, owner0, steps, t2, infos0[t2]->Some_0));
                    lemma_signal_kept(
                        data0,
                        data2,
                        owner0,
                        owner2,
                        steps,
                        steps,
                        t2,
                        infos0[t2]->Some_0,
                        t,
                    );
                    assert(view_of(data2, infos0[t2]->Some_0) == view_of(data0, infos0[t2]->Some_0));
                } else if t2 < infos2.len() {
                    assert(infos2[t2] == infos1[t2]);
                }
            }
        }
        Ok(())
    }
}

/// Two ranges of bytes that belong to different tags do not overlap.
proof fn lemma_apart(owner: Seq<Tag>, lo: int, hi: int, tag: Tag, x: int, y: int, other: Tag)
    requires
        tagged(owner, lo, hi, tag),
        tagged(owner, x, y, other),
        tag != other,
    ensures
        lo >= hi || x >= y || hi <= x || y <= lo,
{
    if lo < hi && x < y && hi > x && y > lo {
        let k = if lo >= x {
            lo
        } else {
            x
        };
        assert(owner[k] == tag);
        assert(owner[k] == other);
    }
}

/// Every signal's chain is intact, and all but that of `t` end in a block
/// that holds a record.
spec fn parts_ok_but(
    data: Seq<u8>,
    owner: Seq<Tag>,
    infos: Seq<Option<StorageInfo>>,
    steps: int,
    t: int,
) -> bool {
    &&& owner.len() == data.len()
    &&& forall|t2: int|
        0 <= t2 < infos.len() && infos[t2] is Some ==> #[trigger] chain_ok(
            data,
            owner,
            steps,
            t2,
            infos[t2]->Some_0,
        ) && (t2 != t ==> infos[t2]->Some_0.blocks@.len() == blocks_for(
            infos[t2]->Some_0.count as int,
        ))
}

/// Writing zeros as the header of a block that is all zero leaves the
/// store as it is with the block.
proof fn lemma_block_bytes(linked: Seq<u8>, grown: Seq<u8>, start: int, bpc: int)
    requires
        0 <= bpc,
        start == next_block(linked.len()),
        linked.len() <= start,
        grown == splice(
            splice(
                linked + zeros(start - linked.len() + block_size(bpc)),
                start,
                vstd::bytes::spec_u64_to_le_bytes(0),
            ),
            start + 8,
            vstd::bytes::spec_u64_to_le_bytes(0),
        ),
    ensures
        grown == with_block(linked, bpc),
{
    let blank = linked + zeros(start - linked.len() + block_size(bpc));
    lemma_zero_le64();
    lemma_splice(blank, start, zeros(8));
    lemma_splice(splice(blank, start, zeros(8)), start + 8, zeros(8));
    assert(grown =~= blank);
}

/// The three writes that put a record into a slot come to the same in
/// either order, as the header and the slot lie apart.
proof fn lemma_slot_bytes(
    store: Seq<u8>,
    block: int,
    bpc: int,
    slot: int,
    stamp: u32,
    held: u64,
    after: Seq<u8>,
)
    requires
        0 <= block,
        0 <= slot,
        4 <= bpc,
        held == slot + 1,
        block + 16 + slot * bpc + bpc <= store.len(),
        after == splice(
            splice(
                splice(
                    store,
                    block + 16 + slot * bpc,
                    vstd::bytes::spec_u32_to_le_bytes(stamp),
                ),
                block + 16 + slot * bpc + 4,
                zeros(bpc - 4),
            ),
            block + 8,
            vstd::bytes::spec_u64_to_le_bytes(held),
        ),
    ensures
        after == with_slot(store, block, bpc, slot, stamp, zeros(bpc - 4)),
        forall|part: Seq<u8>|
            part.len() == bpc - 4 ==> #[trigger] splice(after, block + 16 + slot * bpc + 4, part)
                == with_slot(store, block, bpc, slot, stamp, part),
{
    let at = block + 16 + slot * bpc;
    assert(0 <= slot * bpc) by (nonlinear_arith)
        requires
            0 <= slot,
            0 <= bpc,
    ;
    let index = vstd::bytes::spec_u32_to_le_bytes(stamp);
    let header = vstd::bytes::spec_u64_to_le_bytes(held);
    vstd::bytes::lemma_auto_spec_u64_to_from_le_bytes();
    vstd::bytes::lemma_auto_spec_u32_to_from_le_bytes();
    let a1 = splice(store, at, index);
    let a2 = splice(a1, at + 4, zeros(bpc - 4));
    lemma_splice(store, at, index);
    lemma_splice(a1, at + 4, zeros(bpc - 4));
    lemma_splice(a2, block + 8, header);
    let b1 = splice(store, block + 8, header);
    let b2 = splice(b1, at, index);
    lemma_splice(store, block + 8, header);
    lemma_splice(b1, at, index);
    lemma_splice(b2, at + 4, zeros(bpc - 4));
    assert(after =~= with_slot(store, block, bpc, slot, stamp, zeros(bpc - 4)));
    assert forall|part: Seq<u8>| part.len() == bpc - 4 implies #[trigger] splice(
        after,
        at + 4,
        part,
    ) == with_slot(store, block, bpc, slot, stamp, part) by {
        lemma_splice(after, at + 4, part);
        lemma_splice(b2, at + 4, part);
        assert(splice(after, at + 4, part) =~= splice(b2, at + 4, part));
    }
}

impl ChangeBlockList {
    /// Gives the signal at `at`, whose last block is full, one more block,
    /// and links the full block to it.
    #[verifier::rlimit(60)]
    #[verifier::spinoff_prover]
    fn grow(&mut self, at: usize)
        requires
            old(self).wf(),
            at < old(self).storage_infos@.len(),
            old(self).storage_infos@[at as int] is Some,
            old(self).storage_infos@[at as int]->Some_0.count == 128 * old(self).storage_infos@[at as int]->Some_0.blocks@.len(),
            old(self).room_for_block(
                old(self).storage_infos@[at as int]->Some_0.bytes_per_change as int,
            ),
        ensures
            parts_ok_but(
                final(self).data@,
                final(self).owner@,
                final(self).storage_infos@,
                final(self).timesteps@.len() as int,
                at as int,
            ),
            final(self).timesteps == old(self).timesteps,
            final(self).storage_infos@.len() == old(self).storage_infos@.len(),
            final(self).data@.len() == used_with_block(
                old(self).data@.len(),
                old(self).storage_infos@[at as int]->Some_0.bytes_per_change as int,
            ),
            forall|t2: int|
                0 <= t2 < final(self).storage_infos@.len() && t2 != at ==> final(self).storage_infos@[t2] == old(self).storage_infos@[t2],
            forall|id: StorageId| final(self).signal(id) == old(self).signal(id),
            final(self).storage_infos@[at as int] is Some,
            ({
                let before = old(self).storage_infos@[at as int]->Some_0;
                let after = final(self).storage_infos@[at as int]->Some_0;
                &&& after.count == before.count
                &&& after.width == before.width
                &&& after.bits == before.bits
                &&& after.bytes_per_change == before.bytes_per_change
                &&& after.first_offset == before.first_offset
                &&& after.blocks@ == before.blocks@.push(next_block(old(self).data@.len()))
                &&& final(self).data@ == with_block(
                    splice(
                        old(self).data@,
                        before.blocks@.last(),
                        vstd::bytes::spec_u64_to_le_bytes(
                            (next_block(old(self).data@.len()) - before.blocks@.last()) as u64,
                        ),
                    ),
                    before.bytes_per_change as int,
                )
            }),
    {
        let ghost data0 = self.data@;
        let ghost owner0 = self.owner@;
        let ghost infos0 = self.storage_infos@;
        let ghost steps = self.timesteps@.len() as int;
        let ghost t = at as int;
        let ghost info0 = infos0[t]->Some_0;
        let ghost blocks0 = info0.blocks@;
        let ghost jb = blocks0.len() - 1;
        let (first, last, bpc, width, count, bits) = match &self.storage_infos[at] {
            Some(info) => (
                info.first_offset,
                info.last_offset,
                info.bytes_per_change,
                info.width,
                info.count,
                info.bits,
            ),
            None => (0, 0, 0, 0, 0, 0),
        };
        proof {
            assert(signal_ok(data0, owner0, steps, t, info0));
            assert(block_ok(data0, owner0, t, info0, jb));
            crate::bytes::lemma_eight_is_p2();
        }
        let len = self.data.len();
        let size = 16 + 128 * bpc;
        let start = align_up(len, 8);
        write_u64(&mut self.data, last, (start - last) as u64);
        let ghost data1 = self.data@;
        extend_zeroed(&mut self.data, start - len + size);
        let ghost data2 = self.data@;
        write_u64(&mut self.data, start, 0);
        let ghost data3 = self.data@;
        write_u64(&mut self.data, start + 8, 0);
        let ghost data4 = self.data@;
        let ghost chain: Seq<int> = blocks0.push(start as int);
        let info = StorageInfo {
            first_offset: first,
            last_offset: start,
            bytes_per_change: bpc,
            width,
            count,
            bits,
            blocks: Ghost(chain),
        };
        proof {
            lemma_block_bytes(data1, data4, start as int, bpc as int);
        }
        proof {
            let owner4 = owner_with_block(owner0, start - len, t, jb + 1, bpc as int);
            lemma_fresh_block(owner0, start - len, t, jb + 1, bpc as int);
            self.owner@ = owner4;
            assert(self.owner@.len() == self.data@.len());
            vstd::bytes::lemma_auto_spec_u64_to_from_le_bytes();
            let zero = vstd::bytes::spec_u64_to_le_bytes(0);
            let delta = vstd::bytes::spec_u64_to_le_bytes((start - last) as u64);
            lemma_splice(data0, last as int, delta);
            lemma_splice(data2, start as int, zero);
            lemma_splice(data3, start + 8, zero);
            lemma_splice_apart(data3, start + 8, zero, start as int, start + 8);
            // Bytes of the old store change only in the first half of the
            // last header.
            assert forall|k: int| 0 <= k < data0.len() && !(last <= k < last + 8) implies #[trigger] data4[k]
                == data0[k] by {}
            assert forall|j: int| 0 <= j < chain.len() implies #[trigger] block_ok(
                data4,
                owner4,
                t,
                info,
                j,
            ) by {
                if j <= jb {
                    assert(block_ok(data0, owner0, t, info0, j));
                    let o = blocks0[j];
                    assert(data4.subrange(o + 8, o + 16) =~= data0.subrange(o + 8, o + 16));
                    if j < jb {
                        assert(block_ok(data0, owner0, t, info0, jb));
                        lemma_apart(
                            owner0,
                            o,
                            o + 16,
                            Tag::Header { signal: t, block: j },
                            last as int,
                            last + 16,
                            Tag::Header { signal: t, block: jb },
                        );
                        assert(data4.subrange(o, o + 8) =~= data0.subrange(o, o + 8));
                    } else {
                        assert(data4.subrange(o, o + 8) =~= data1.subrange(o, o + 8));
                    }
                } else {
                    assert(data4.subrange(start as int, start + 8) =~= data3.subrange(
                        start as int,
                        start + 8,
                    ));
                }
            }
            assert forall|i: int| 0 <= i < 128 * chain.len() implies #[trigger] slot_ok(
                data4,
                owner4,
                steps,
                t,
                info,
                i,
            ) by {
                if i < 128 * blocks0.len() {
                    assert(slot_ok(data0, owner0, steps, t, info0, i));
                    let rec = record_at(blocks0, bpc as int, i);
                    assert(record_at(chain, bpc as int, i) == rec);
                    lemma_apart(
                        owner0,
                        rec,
                        rec + 4,
                        Tag::Index { signal: t, record: i },
                        last as int,
                        last + 16,
                        Tag::Header { signal: t, block: jb },
                    );
                    assert(data4.subrange(rec, rec + 4) =~= data0.subrange(rec, rec + 4));
                } else {
                    let s = i - 128 * (jb + 1);
                    lemma_slot_position(jb + 1, s, bpc as int, 0);
                    assert(record_at(chain, bpc as int, i) == start + 16 + s * bpc);
                }
            }
            assert(chain_ok(data4, owner4, steps, t, info));
            assert forall|i: int| 0 <= i < count implies changes_in(data4, info)[i] == changes_in(
                data0,
                info0,
            )[i] by {
                assert(slot_ok(data0, owner0, steps, t, info0, i));
                let rec = record_at(blocks0, bpc as int, i);
                assert(record_at(chain, bpc as int, i) == rec);
                lemma_apart(
                    owner0,
                    rec,
                    rec + 4,
                    Tag::Index { signal: t, record: i },
                    last as int,
                    last + 16,
                    Tag::Header { signal: t, block: jb },
                );
                lemma_apart(
                    owner0,
                    rec + 4,
                    rec + bpc,
                    Tag::Payload { signal: t, record: i },
                    last as int,
                    last + 16,
                    Tag::Header { signal: t, block: jb },
                );
                assert(data4.subrange(rec, rec + 4) =~= data0.subrange(rec, rec + 4));
                assert(data4.subrange(rec + 4, rec + bpc) =~= data0.subrange(rec + 4, rec + bpc));
            }
            assert(changes_in(data4, info) =~= changes_in(data0, info0));
            assert(view_of(data4, info).offsets =~= view_of(data0, info0).offsets) by {
                assert forall|i: int| 0 <= i < count implies record_at(chain, bpc as int, i)
                    == record_at(blocks0, bpc as int, i) by {}
            }
        }
        self.storage_infos[at] = Some(info);
        proof {
            let data4 = self.data@;
            let owner4 = self.owner@;
            let infos4 = self.storage_infos@;
            assert forall|t2: int| 0 <= t2 < infos4.len() && infos4[t2] is Some implies #[trigger] chain_ok(
                data4,
                owner4,
                steps,
                t2,
                infos4[t2]->Some_0,
            ) && (t2 != t ==> infos4[t2]->Some_0.blocks@.len() == blocks_for(
                infos4[t2]->Some_0.count as int,
            )) by {
                if t2 != t {
                    assert(infos4[t2] == infos0[t2]);
                    assert(signal_ok(data0, owner0, steps, t2, infos0[t2]->Some_0));
                    assert forall|k: int|
                        0 <= k < data0.len() && tag_signal(owner0[k]) != t implies data4[k]
                        == data0[k] by {
                        if last <= k < last + 8 {
                            assert(owner0[k] == Tag::Header { signal: t, block: jb });
                        }
                    }
                    lemma_signal_kept(
                        data0,
                        data4,
                        owner0,
                        owner4,
                        steps,
                        steps,
                        t2,
                        infos0[t2]->Some_0,
                        t,
                    );
                }
            }
            assert forall|id: StorageId| final(self).signal(id) == old(self).signal(id) by {
                let t2 = id.0 as int;
                if t2 < infos0.len() && infos0[t2] is Some && t2 != t {
                    assert(infos4[t2] == infos0[t2]);
                    assert(signal_ok(data0, owner0, steps, t2, infos0[t2]->Some_0));
                    assert forall|k: int|
                        0 <= k < data0.len() && tag_signal(owner0[k]) != t implies data4[k]
                        == data0[k] by {
                        if last <= k < last + 8 {
                            assert(owner0[k] == Tag::Header { signal: t, block: jb });
                        }
                    }
                    lemma_signal_kept(
                        data0,
                        data4,
                        owner0,
                        owner4,
                        steps,
                        steps,
                        t2,
                        infos0[t2]->Some_0,
                        t,
                    );
                    assert(view_of(data4, infos0[t2]->Some_0) == view_of(data0, infos0[t2]->Some_0));
                } else if t2 < infos4.len() && t2 != t {
                    assert(infos4[t2] == infos0[t2]);
                }
            }
            assert(parts_ok_but(data4, owner4, infos4, steps, t));
        }
    }
}

/// Overwrites `count` bytes from `at` on with zeros.
fn write_zeros(store: &mut Vec<u8>, at: usize, count: usize)
    requires
        at + count <= old(store)@.len(),
    ensures
        final(store)@ == splice(old(store)@, at as int, Seq::new(count as nat, |k: int| 0u8)),
        final(store)@.len() == old(store)@.len(),
{
    let _ = store.len();
    let mut i: usize = 0;
    while i < count
        invariant
            i <= count,
            at + count <= store@.len(),
            store@.len() == old(store)@.len(),
            store@.len() <= usize::MAX,
            forall|k: int| 0 <= k < store@.len() && !(at <= k < at + i) ==> store@[k] == old(store)@[k],
            forall|k: int| at <= k < at + i ==> store@[k] == 0u8,
        decreases count - i,
    {
        store[at + i] = 0u8;
        i += 1;
    }
    proof {
        lemma_splice(old(store)@, at as int, Seq::new(count as nat, |k: int| 0u8));
        assert(store@ =~= splice(old(store)@, at as int, Seq::new(count as nat, |k: int| 0u8)));
    }
}

impl ChangeBlockList {
    /// Puts a record with zeroed units into the next free slot of the signal
    /// at `at`, under the most recent timestep. Returns the offset of the
    /// record's units.
    #[verifier::rlimit(60)]
    #[verifier::spinoff_prover]
    fn reserve_slot(&mut self, at: usize) -> (payload: usize)
        requires
            parts_ok_but(
                old(self).data@,
                old(self).owner@,
                old(self).storage_infos@,
                old(self).timesteps@.len() as int,
                at as int,
            ),
            old(self).timesteps.wf(),
            old(self).timesteps@.len() > 0,
            at < old(self).storage_infos@.len(),
            old(self).storage_infos@[at as int] is Some,
            old(self).storage_infos@[at as int]->Some_0.count < 128 * old(self).storage_infos@[at as int]->Some_0.blocks@.len(),
            old(self).storage_infos@[at as int]->Some_0.count < usize::MAX,
        ensures
            final(self).wf(),
            final(self).timesteps == old(self).timesteps,
            final(self).owner@ == old(self).owner@,
            final(self).data@.len() == old(self).data@.len(),
            final(self).storage_infos@.len() == old(self).storage_infos@.len(),
            forall|t2: int|
                0 <= t2 < final(self).storage_infos@.len() && t2 != at ==> final(self).storage_infos@[t2] == old(self).storage_infos@[t2],
            forall|id: StorageId|
                id.0 != at ==> final(self).signal(id) == old(self).signal(id),
            final(self).storage_infos@[at as int] is Some,
            ({
                let before = old(self).storage_infos@[at as int]->Some_0;
                let after = final(self).storage_infos@[at as int]->Some_0;
                let packed = before.bytes_per_change - 4;
                &&& after.count == before.count + 1
                &&& after.width == before.width
                &&& after.bits == before.bits
                &&& after.bytes_per_change == before.bytes_per_change
                &&& after.first_offset == before.first_offset
                &&& after.blocks@ == before.blocks@
                &&& final(self).data@ == with_slot(
                    old(self).data@,
                    before.blocks@.last(),
                    before.bytes_per_change as int,
                    before.count - 128 * (before.blocks@.len() - 1),
                    (old(self).timesteps@.len() - 1) as u32,
                    zeros(packed),
                )
                &&& forall|part: Seq<u8>|
                    part.len() == packed ==> #[trigger] splice(
                        final(self).data@,
                        payload as int,
                        part,
                    ) == with_slot(
                        old(self).data@,
                        before.blocks@.last(),
                        before.bytes_per_change as int,
                        before.count - 128 * (before.blocks@.len() - 1),
                        (old(self).timesteps@.len() - 1) as u32,
                        part,
                    )
                &&& payload == record_at(before.blocks@, before.bytes_per_change as int, before.count as int) + 4
                &&& tagged(
                    final(self).owner@,
                    payload as int,
                    payload + packed,
                    Tag::Payload { signal: at as int, record: before.count as int },
                )
                &&& final(self).data@.subrange(payload as int, payload + packed) == Seq::new(
                    packed as nat,
                    |k: int| 0u8,
                )
                &&& changes_in(final(self).data@, after) == changes_in(old(self).data@, before).push(
                    Change {
                        timestep: (old(self).timesteps@.len() - 1) as u32,
                        bytes: Seq::new(packed as nat, |k: int| 0u8),
                    },
                )
            }),
    {
        let ghost data0 = self.data@;
        let ghost owner = self.owner@;
        let ghost infos0 = self.storage_infos@;
        let ghost steps = self.timesteps@.len() as int;
        let ghost t = at as int;
        let ghost info0 = infos0[t]->Some_0;
        let ghost blocks = info0.blocks@;
        let ghost jb = blocks.len() - 1;
        let ghost c = info0.count as int;
        let (first, last, bpc, width, count, bits) = match &self.storage_infos[at] {
            Some(info) => (
                info.first_offset,
                info.last_offset,
                info.bytes_per_change,
                info.width,
                info.count,
                info.bits,
            ),
            None => (0, 0, 0, 0, 0, 0),
        };
        proof {
            assert(chain_ok(data0, owner, steps, t, info0));
            assert(block_ok(data0, owner, t, info0, jb));
            assert(slot_ok(data0, owner, steps, t, info0, c));
            assert(c / 128 == jb);
            lemma_slot_position(jb, c % 128, bpc as int, 0);
        }
        let _ = self.data.len();
        let held = read_u64(self.data.as_slice(), last + 8);
        let slot = held as usize;
        let rec = last + 16 + slot * bpc;
        let stamp = (self.timesteps.len() - 1) as u32;
        write_u32(&mut self.data, rec, stamp);
        let ghost data1 = self.data@;
        write_zeros(&mut self.data, rec + 4, bpc - 4);
        let ghost data2 = self.data@;
        write_u64(&mut self.data, last + 8, held + 1);
        let ghost data3 = self.data@;
        proof {
            assert(held == c - 128 * jb);
            lemma_slot_bytes(data0, last as int, bpc as int, held as int, stamp, (held + 1) as u64, data3);
        }
        let ghost chain: Seq<int> = blocks;
        let info = StorageInfo {
            first_offset: first,
            last_offset: last,
            bytes_per_change: bpc,
            width,
            count: count + 1,
            bits,
            blocks: Ghost(chain),
        };
        proof {
            let zeros = Seq::new((bpc - 4) as nat, |k: int| 0u8);
            let index_tag = Tag::Index { signal: t, record: c };
            let payload_tag = Tag::Payload { signal: t, record: c };
            let header_tag = Tag::Header { signal: t, block: jb };
            vstd::bytes::lemma_auto_spec_u64_to_from_le_bytes();
            vstd::bytes::lemma_auto_spec_u32_to_from_le_bytes();
            lemma_splice(data0, rec as int, vstd::bytes::spec_u32_to_le_bytes(stamp));
            lemma_splice(data1, rec + 4, zeros);
            lemma_splice(data2, last + 8, vstd::bytes::spec_u64_to_le_bytes((held + 1) as u64));
            lemma_apart(owner, rec as int, rec + 4, index_tag, last as int, last + 16, header_tag);
            lemma_apart(owner, rec + 4, rec + bpc, payload_tag, last as int, last + 16, header_tag);
            // What changed lies in the slot and in the second half of the
            // last header.
            assert forall|k: int|
                0 <= k < data0.len() && !(rec <= k < rec + bpc) && !(last + 8 <= k < last + 16) implies #[trigger] data3[k]
                == data0[k] by {}
            assert(data3.subrange(rec as int, rec + 4) =~= data1.subrange(rec as int, rec + 4));
            assert(data3.subrange(rec + 4, rec + bpc) =~= zeros);
            assert forall|j: int| 0 <= j < blocks.len() implies #[trigger] block_ok(
                data3,
                owner,
                t,
                info,
                j,
            ) by {
                assert(block_ok(data0, owner, t, info0, j));
                let o = blocks[j];
                lemma_apart(owner, o, o + 16, Tag::Header { signal: t, block: j }, rec as int, rec + 4, index_tag);
                lemma_apart(owner, o, o + 16, Tag::Header { signal: t, block: j }, rec + 4, rec + bpc, payload_tag);
                if j < jb {
                    lemma_apart(
                        owner,
                        o,
                        o + 16,
                        Tag::Header { signal: t, block: j },
                        last as int,
                        last + 16,
                        header_tag,
                    );
                    assert(data3.subrange(o + 8, o + 16) =~= data0.subrange(o + 8, o + 16));
                }
                assert(data3.subrange(o, o + 8) =~= data0.subrange(o, o + 8));
            }
            assert forall|i: int| 0 <= i < 128 * blocks.len() implies #[trigger] slot_ok(
                data3,
                owner,
                steps,
                t,
                info,
                i,
            ) by {
                assert(slot_ok(data0, owner, steps, t, info0, i));
                let at_i = record_at(blocks, bpc as int, i);
                if i != c {
                    lemma_apart(owner, at_i, at_i + 4, Tag::Index { signal: t, record: i }, rec as int, rec + 4, index_tag);
                    lemma_apart(owner, at_i, at_i + 4, Tag::Index { signal: t, record: i }, rec + 4, rec + bpc, payload_tag);
                    lemma_apart(owner, at_i, at_i + 4, Tag::Index { signal: t, record: i }, last as int, last + 16, header_tag);
                    assert(data3.subrange(at_i, at_i + 4) =~= data0.subrange(at_i, at_i + 4));
                }
            }
            assert(chain_ok(data3, owner, steps, t, info));
            assert(signal_ok(data3, owner, steps, t, info));
            let grown = changes_in(data0, info0).push(Change { timestep: stamp, bytes: zeros });
            assert forall|i: int| 0 <= i < c + 1 implies changes_in(data3, info)[i] == grown[i] by {
                assert(slot_ok(data0, owner, steps, t, info0, i));
                let at_i = record_at(blocks, bpc as int, i);
                if i != c {
                    lemma_apart(owner, at_i, at_i + 4, Tag::Index { signal: t, record: i }, rec as int, rec + 4, index_tag);
                    lemma_apart(owner, at_i, at_i + 4, Tag::Index { signal: t, record: i }, rec + 4, rec + bpc, payload_tag);
                    lemma_apart(owner, at_i, at_i + 4, Tag::Index { signal: t, record: i }, last as int, last + 16, header_tag);
                    lemma_apart(owner, at_i + 4, at_i + bpc, Tag::Payload { signal: t, record: i }, rec as int, rec + 4, index_tag);
                    lemma_apart(owner, at_i + 4, at_i + bpc, Tag::Payload { signal: t, record: i }, rec + 4, rec + bpc, payload_tag);
                    lemma_apart(owner, at_i + 4, at_i + bpc, Tag::Payload { signal: t, record: i }, last as int, last + 16, header_tag);
                    assert(data3.subrange(at_i, at_i + 4) =~= data0.subrange(at_i, at_i + 4));
                    assert(data3.subrange(at_i + 4, at_i + bpc) =~= data0.subrange(at_i + 4, at_i + bpc));
                }
            }
            assert(changes_in(data3, info) =~= grown);
        }
        self.storage_infos[at] = Some(info);
        proof {
            let data3 = self.data@;
            let infos3 = self.storage_infos@;
            let header_tag = Tag::Header { signal: t, block: jb };
            let index_tag = Tag::Index { signal: t, record: c };
            let payload_tag = Tag::Payload { signal: t, record: c };
            assert forall|k: int| 0 <= k < data0.len() && tag_signal(owner[k]) != t implies data3[k]
                == data0[k] by {
                if rec <= k < rec + 4 {
                    assert(owner[k] == index_tag);
                }
                if rec + 4 <= k < rec + bpc {
                    assert(owner[k] == payload_tag);
                }
                if last + 8 <= k < last + 16 {
                    assert(owner[k] == header_tag);
                }
            }
            assert forall|t2: int| 0 <= t2 < infos3.len() && infos3[t2] is Some implies #[trigger] signal_ok(
                data3,
                owner,
                steps,
                t2,
                infos3[t2]->Some_0,
            ) by {
                if t2 != t {
                    assert(infos3[t2] == infos0[t2]);
                    assert(chain_ok(data0, owner, steps, t2, infos0[t2]->Some_0));
                    lemma_signal_kept(data0, data3, owner, owner, steps, steps, t2, infos0[t2]->Some_0, t);
                }
            }
            assert forall|id: StorageId| id.0 != at implies final(self).signal(id) == old(self).signal(id) by {
                let t2 = id.0 as int;
                if t2 < infos0.len() && infos0[t2] is Some {
                    assert(infos3[t2] == infos0[t2]);
                    assert(chain_ok(data0, owner, steps, t2, infos0[t2]->Some_0));
                    lemma_signal_kept(data0, data3, owner, owner, steps, steps, t2, infos0[t2]->Some_0, t);
                    assert(view_of(data3, infos0[t2]->Some_0) == view_of(data0, infos0[t2]->Some_0));
                } else if t2 < infos3.len() {
                    assert(infos3[t2] == infos0[t2]);
                }
            }
        }
        rec + 4
    }
}

/// Whatever is written into the units of one record: the chains stay
/// intact, that record has the new units, and every other record of every
/// signal is as it was.
proof fn lemma_any_payload(
    data: Seq<u8>,
    owner: Seq<Tag>,
    infos: Seq<Option<StorageInfo>>,
    steps: int,
    t: int,
    c: int,
    part: Seq<u8>,
)
    requires
        parts_ok(data, owner, infos, steps),
        0 <= t < infos.len(),
        infos[t] is Some,
        0 <= c < infos[t]->Some_0.count,
        part.len() == infos[t]->Some_0.bytes_per_change - 4,
    ensures
        ({
            let info = infos[t]->Some_0;
            let p = record_at(info.blocks@, info.bytes_per_change as int, c) + 4;
            let after = splice(data, p, part);
            &&& 0 <= p
            &&& p + part.len() <= data.len()
            &&& parts_ok(after, owner, infos, steps)
            &&& forall|t2: int|
                0 <= t2 < infos.len() && infos[t2] is Some && t2 != t ==> #[trigger] view_of(
                    after,
                    infos[t2]->Some_0,
                ) == view_of(data, infos[t2]->Some_0)
            &&& view_of(after, info) == (SignalView {
                changes: changes_in(data, info).update(
                    c,
                    Change { timestep: changes_in(data, info)[c].timestep, bytes: part },
                ),
                ..view_of(data, info)
            })
        }),
{
    let info = infos[t]->Some_0;
    let blocks = info.blocks@;
    let bpc = info.bytes_per_change as int;
    let p = record_at(blocks, bpc, c) + 4;
    let after = splice(data, p, part);
    let payload_tag = Tag::Payload { signal: t, record: c };
    assert(signal_ok(data, owner, steps, t, info));
    assert(slot_ok(data, owner, steps, t, info, c));
    lemma_splice(data, p, part);
    assert forall|k: int| 0 <= k < data.len() && owner[k] != payload_tag implies #[trigger] after[k]
        == data[k] by {
        if p <= k < p + part.len() {
            assert(owner[k] == payload_tag);
        }
    }
    assert forall|t2: int| 0 <= t2 < infos.len() && infos[t2] is Some implies #[trigger] signal_ok(
        after,
        owner,
        steps,
        t2,
        infos[t2]->Some_0,
    ) by {
        let info2 = infos[t2]->Some_0;
        assert(signal_ok(data, owner, steps, t2, info2));
        assert forall|j: int| 0 <= j < info2.blocks@.len() implies #[trigger] block_ok(
            after,
            owner,
            t2,
            info2,
            j,
        ) by {
            assert(block_ok(data, owner, t2, info2, j));
            let o = info2.blocks@[j];
            assert(after.subrange(o, o + 8) =~= data.subrange(o, o + 8));
            assert(after.subrange(o + 8, o + 16) =~= data.subrange(o + 8, o + 16));
        }
        assert forall|i: int| 0 <= i < 128 * info2.blocks@.len() implies #[trigger] slot_ok(
            after,
            owner,
            steps,
            t2,
            info2,
            i,
        ) by {
            assert(slot_ok(data, owner, steps, t2, info2, i));
            let at = record_at(info2.blocks@, info2.bytes_per_change as int, i);
            assert(after.subrange(at, at + 4) =~= data.subrange(at, at + 4));
        }
    }
    assert forall|t2: int|
        0 <= t2 < infos.len() && infos[t2] is Some && t2 != t implies #[trigger] view_of(
        after,
        infos[t2]->Some_0,
    ) == view_of(data, infos[t2]->Some_0) by {
        let info2 = infos[t2]->Some_0;
        assert(signal_ok(data, owner, steps, t2, info2));
        assert forall|i: int| 0 <= i < info2.count implies changes_in(after, info2)[i]
            == changes_in(data, info2)[i] by {
            assert(slot_ok(data, owner, steps, t2, info2, i));
            let at = record_at(info2.blocks@, info2.bytes_per_change as int, i);
            assert(after.subrange(at, at + 4) =~= data.subrange(at, at + 4));
            assert(after.subrange(at + 4, at + info2.bytes_per_change) =~= data.subrange(
                at + 4,
                at + info2.bytes_per_change,
            ));
        }
        assert(changes_in(after, info2) =~= changes_in(data, info2));
    }
    let updated = changes_in(data, info).update(
        c,
        Change { timestep: changes_in(data, info)[c].timestep, bytes: part },
    );
    assert forall|i: int| 0 <= i < info.count implies changes_in(after, info)[i] == updated[i] by {
        assert(slot_ok(data, owner, steps, t, info, i));
        let at = record_at(blocks, bpc, i);
        assert(after.subrange(at, at + 4) =~= data.subrange(at, at + 4));
        if i != c {
            assert(after.subrange(at + 4, at + bpc) =~= data.subrange(at + 4, at + bpc));
        } else {
            assert(after.subrange(at + 4, at + bpc) =~= part);
        }
    }
    assert(changes_in(after, info) =~= updated);
}

/// Where the record behind `count` records lies: in a new block at `start`
/// where the blocks are full, else behind the record before it, or behind
/// the header of the first block.
proof fn lemma_next_offset(before: Seq<int>, after: Seq<int>, bpc: int, count: int, start: int)
    requires
        0 <= count,
        before.len() == blocks_for(count),
        after == if count == 128 * before.len() {
            before.push(start)
        } else {
            before
        },
    ensures
        record_at(after, bpc, count) == if count == 0 {
            before[0] + 16
        } else if count % 128 == 0 {
            start + 16
        } else {
            record_at(before, bpc, count - 1) + bpc
        },
{
    let m = count / 128;
    let r = count % 128;
    assert(count == 128 * m + r && 0 <= r < 128);
    if count == 0 {
        assert(after == before);
        assert(r * bpc == 0) by (nonlinear_arith)
            requires
                r == 0,
        ;
    } else if r == 0 {
        assert(before.len() == m);
        assert(after == before.push(start));
        assert(after[m] == start);
        assert(r * bpc == 0) by (nonlinear_arith)
            requires
                r == 0,
        ;
    } else {
        assert(before.len() == m + 1);
        assert(after == before);
        assert((count - 1) / 128 == m && (count - 1) % 128 == r - 1);
        assert(r * bpc == (r - 1) * bpc + bpc) by (nonlinear_arith);
    }
}

impl ChangeBlockList {
    /// Whether the signal `id` can take one more record: its count fits and,
    /// where its last block is full, the store has room for another block.
    pub open spec fn can_append(&self, id: StorageId) -> bool {
        let signal = self.signal(id)->Some_0;
        &&& signal.changes.len() < usize::MAX
        &&& (block_full(signal.changes.len()) ==> self.room_for_block(
            record_size(signal.width, signal.bits),
        ))
    }

    /// The same, said of what the store keeps of the signal.
    closed spec fn fits(&self, id: StorageId) -> bool {
        let info = self.storage_infos@[id.0 as int]->Some_0;
        &&& info.count < usize::MAX
        &&& (info.count == 128 * info.blocks@.len() ==> self.room_for_block(
            info.bytes_per_change as int,
        ))
    }

    proof fn lemma_fits(&self, id: StorageId)
        requires
            self.wf(),
            self.signal(id) is Some,
        ensures
            self.fits(id) == self.can_append(id),
    {
        let t = id.0 as int;
        let info = self.storage_infos@[t]->Some_0;
        assert(signal_ok(self.data@, self.owner@, self.timesteps@.len() as int, t, info));
        let count = info.count as int;
        assert(view_of(self.data@, info).changes.len() == count);
        assert((count > 0 && count % 128 == 0) <==> count == 128 * blocks_for(count)) by {
            if count > 0 {
                vstd::arithmetic::div_mod::lemma_fundamental_div_mod(count, 128);
                vstd::arithmetic::div_mod::lemma_fundamental_div_mod(count + 127, 128);
            }
        }
    }

    /// Appends a record to the signal `id` under the most recent timestep
    /// and lends its units, all zero, to be written. Whatever the borrower
    /// writes is the record once the slice is given back. Where the
    /// signal's last block is full, a new block is put at the end of the
    /// store and the full block is linked to it.
    ///
    /// Fails with `UnknownSignal` where `id` was not declared, with
    /// `WidthMismatch` where `L` is not the variant that `id` was declared
    /// with, with `OutOfBounds` where no timestep was pushed yet, and with
    /// `AllocFailure` where the record cannot be placed; nothing changes
    /// then.
    #[verifier::rlimit(100)]
    #[verifier::spinoff_prover]
    pub fn push_get<L: Logic>(&mut self, id: StorageId) -> (r: Result<LogicSliceMut<'_, L>, Error>)
        requires
            old(self).wf(),
        ensures
            final(self).wf(),
            final(self).timesteps() == old(self).timesteps(),
            forall|other: StorageId|
                other != id ==> final(self).signal(other) == old(self).signal(other),
            r is Err ==> final(self).signal(id) == old(self).signal(id) && r->Err_0 == (
            if old(self).signal(id) is None {
                Error::UnknownSignal
            } else if old(self).signal(id)->Some_0.bits != L::spec_bits() {
                Error::WidthMismatch
            } else if old(self).timesteps().len() == 0 {
                Error::OutOfBounds
            } else {
                Error::AllocFailure
            }),
            r is Ok <==> old(self).signal(id) is Some && old(self).signal(id)->Some_0.bits
                == L::spec_bits() && old(self).timesteps().len() > 0 && old(self).can_append(id),
            r is Ok ==> (r->Ok_0).wf(),
            r is Ok ==> (r->Ok_0).spec_width() == old(self).signal(id)->Some_0.width,
            r is Ok ==> (r->Ok_0).raw() =~= Seq::new(
                packed_len(old(self).signal(id)->Some_0.width, old(self).signal(id)->Some_0.bits),
                |k: int| 0u8,
            ),
            r is Ok ==> appended(
                old(self).signal(id)->Some_0,
                final(self).signal(id),
                (old(self).timesteps().len() - 1) as u32,
                final((r->Ok_0).bytes)@,
            ),
            r is Ok ==> final(self).signal(id)->Some_0.offsets.last() == old(self).signal(
                id,
            )->Some_0.next_record(old(self).bytes_used()),
            final(self).storages() == old(self).storages(),
            forall|other: StorageId|
                other != id ==> final(self).chain(other) == old(self).chain(other),
            final(self).chain(id) == if r is Ok && block_full(
                old(self).signal(id)->Some_0.changes.len(),
            ) {
                old(self).chain(id).push(next_block(old(self).bytes_used()))
            } else {
                old(self).chain(id)
            },
            final(self).store() == if r is Ok {
                with_record(
                    old(self).store(),
                    old(self).chain(id).last(),
                    record_size(old(self).signal(id)->Some_0.width, old(self).signal(id)->Some_0.bits),
                    old(self).signal(id)->Some_0.changes.len(),
                    (old(self).timesteps().len() - 1) as u32,
                    final((r->Ok_0).bytes)@,
                )
            } else {
                old(self).store()
            },
            final(self).bytes_used() == if r is Ok && block_full(
                old(self).signal(id)->Some_0.changes.len(),
            ) {
                used_with_block(
                    old(self).bytes_used(),
                    record_size(old(self).signal(id)->Some_0.width, old(self).signal(id)->Some_0.bits),
                )
            } else {
                old(self).bytes_used()
            },
    {
        let at = id.0 as usize;
        if at >= self.storage_infos.len() {
            return Err(Error::UnknownSignal);
        }
        proof {
            if self.signal(id) is Some {
                self.lemma_fits(id);
            }
        }
        let (bpc, width, count, bits, last) = match &self.storage_infos[at] {
            Some(info) => (
                info.bytes_per_change,
                info.width,
                info.count,
                info.bits,
                info.last_offset,
            ),
            None => {
                return Err(Error::UnknownSignal);
            },
        };
        if bits != L::bits() {
            return Err(Error::WidthMismatch);
        }
        if self.timesteps.len() == 0 {
            return Err(Error::OutOfBounds);
        }
        if count == usize::MAX {
            return Err(Error::AllocFailure);
        }
        let ghost t = at as int;
        let ghost info0 = self.storage_infos@[t]->Some_0;
        proof {
            assert(signal_ok(
                self.data@,
                self.owner@,
                self.timesteps@.len() as int,
                t,
                info0,
            ));
            assert(block_ok(self.data@, self.owner@, t, info0, info0.blocks@.len() - 1));
        }
        let len = self.data.len();
        let held = read_u64(self.data.as_slice(), last + 8);
        if held == CHANGES_PER_BLOCK as u64 {
            // 16 + 128 * bpc + len + 8 must not leave usize.
            if len > usize::MAX - 8 - 16 || bpc > (usize::MAX - 8 - 16 - len) / 128 {
                return Err(Error::AllocFailure);
            }
            self.grow(at);
        }
        let ghost blocks1 = self.storage_infos@[t]->Some_0.blocks@;
        proof {
            assert(info0.blocks@.len() == blocks_for(count as int));
            assert(held == 128 <==> count == 128 * info0.blocks@.len());
            assert(blocks1 == if held == 128 {
                info0.blocks@.push(next_block(old(self).data@.len()))
            } else {
                info0.blocks@
            });
        }
        proof {
            let data = self.data@;
            let owner = self.owner@;
            let infos = self.storage_infos@;
            let steps = self.timesteps@.len() as int;
            if held != CHANGES_PER_BLOCK as u64 {
                assert forall|t2: int| 0 <= t2 < infos.len() && infos[t2] is Some implies #[trigger] chain_ok(
                    data,
                    owner,
                    steps,
                    t2,
                    infos[t2]->Some_0,
                ) && (t2 != t ==> infos[t2]->Some_0.blocks@.len() == blocks_for(
                    infos[t2]->Some_0.count as int,
                )) by {
                    assert(signal_ok(data, owner, steps, t2, infos[t2]->Some_0));
                }
            }
        }
        let payload = self.reserve_slot(at);
        let packed = bpc - 4;
        let _ = self.data.len();
        proof {
            let data = self.data@;
            let owner = self.owner@;
            let infos = self.storage_infos@;
            let steps = self.timesteps@.len() as int;
            let info = infos[t]->Some_0;
            let before = old(self).signal(id)->Some_0;
            let stamp = (steps - 1) as u32;
            let zeros = Seq::new(packed as nat, |k: int| 0u8);
            assert(before.width == width && before.bits == bits);
            assert(packed == packed_len(before.width, before.bits));
            assert(data.subrange(payload as int, payload + packed) =~= Seq::new(
                packed_len(before.width, before.bits),
                |k: int| 0u8,
            ));
            assert(view_of(data, info).changes == before.changes.push(
                Change { timestep: stamp, bytes: zeros },
            ));
            assert(view_of(data, info).offsets.subrange(0, before.offsets.len() as int)
                =~= before.offsets);
            let used0 = old(self).data@.len();
            let c = count as int;
            assert(view_of(data, info).offsets.last() == before.next_record(used0)) by {
                assert(view_of(data, info).offsets.len() == c + 1);
                assert(view_of(data, info).offsets.last() == record_at(info.blocks@, bpc as int, c));
                assert(before.changes.len() == c);
                assert(record_size(before.width, before.bits) == bpc);
                assert(before.first == info0.blocks@[0]);
                if c > 0 {
                    assert(before.offsets.len() == c);
                    assert(before.offsets.last() == record_at(info0.blocks@, bpc as int, c - 1));
                }
                assert(info.blocks@ == blocks1);
                lemma_next_offset(info0.blocks@, blocks1, bpc as int, c, next_block(used0));
            }
            assert forall|part: Seq<u8>| part.len() == packed implies #[trigger] parts_ok(
                splice(data, payload as int, part),
                owner,
                infos,
                steps,
            ) && appended(before, signal_in(splice(data, payload as int, part), infos, id), stamp, part)
                && signal_in(splice(data, payload as int, part), infos, id)->Some_0.offsets.last()
                == before.next_record(used0) by {
                lemma_any_payload(data, owner, infos, steps, t, count as int, part);
                let v = view_of(splice(data, payload as int, part), info);
                assert(v.changes =~= before.changes.push(Change { timestep: stamp, bytes: part }));
                assert(v.offsets =~= view_of(data, info).offsets);
            }
            assert forall|other: StorageId| other != id implies self.chain(other) == old(
                self,
            ).chain(other) by {
                let t2 = other.0 as int;
                if t2 < infos.len() {
                    assert(infos[t2] == old(self).storage_infos@[t2]);
                }
            }
            assert(self.chain(id) == blocks1);
            assert forall|part: Seq<u8>| part.len() == packed implies #[trigger] splice(
                data,
                payload as int,
                part,
            ) == with_record(old(self).data@, info0.blocks@.last(), bpc as int, c as nat, stamp, part) by {
                if held == 128 {
                    assert(block_full(c as nat));
                } else {
                    assert(!block_full(c as nat));
                    assert(c - 128 * (info0.blocks@.len() - 1) == c % 128);
                }
            }
            assert forall|part: Seq<u8>, other: StorageId|
                part.len() == packed && other != id implies #[trigger] signal_in(
                splice(data, payload as int, part),
                infos,
                other,
            ) == old(self).signal(other) by {
                lemma_any_payload(data, owner, infos, steps, t, count as int, part);
                assert(self.signal(other) == old(self).signal(other));
                let t2 = other.0 as int;
                if t2 < infos.len() && infos[t2] is Some {
                    assert(view_of(splice(data, payload as int, part), infos[t2]->Some_0)
                        == view_of(data, infos[t2]->Some_0));
                }
            }
            L::lemma_bits();
            lemma_packed_bounds(width as nat, bits, width as int);
            crate::logic::lemma_position(width as int, bits);
            let s = crate::logic::shift_of(width as int, bits);
            assert(s < 8 ==> 0u8 >> s == 0) by (bit_vector);
        }
        let ghost data = self.data@;
        let ghost owner = self.owner@;
        let ghost infos = self.storage_infos@;
        let ghost steps = self.timesteps@.len() as int;
        let ghost before = old(self).signal(id)->Some_0;
        let units = range_mut(self.data.as_mut_slice(), payload, payload + packed);
        let slice = LogicSliceMut::new(width, units);
        proof {
            let part = final(slice.bytes)@;
            assert(part.len() == packed);
            assert(parts_ok(splice(data, payload as int, part), owner, infos, steps));
            assert(appended(
                before,
                signal_in(splice(data, payload as int, part), infos, id),
                (steps - 1) as u32,
                part,
            ));
        }
        Ok(slice)
    }
}

/// The offsets of a signal's records as handles.
pub open spec fn handles(signal: SignalView) -> Seq<ChangeOffset> {
    Seq::new(signal.offsets.len(), |i: int| ChangeOffset(signal.offsets[i] as usize))
}

/// Walks the records of one signal in the order in which they were
/// appended, following the links from block to block.
pub struct StorageIter<'a> {
    data: &'a [u8],
    block_offset: usize,
    remaining: usize,
    index_in_block: usize,
    bytes_per_change: usize,
    blocks: Ghost<Seq<int>>,
    block: Ghost<int>,
}

impl<'a> View for StorageIter<'a> {
    type V = Seq<ChangeOffset>;

    /// The handles still to come.
    closed spec fn view(&self) -> Seq<ChangeOffset> {
        Seq::new(
            self.remaining as nat,
            |k: int|
                ChangeOffset(
                    record_at(
                        self.blocks@,
                        self.bytes_per_change as int,
                        128 * self.block@ + self.index_in_block + k,
                    ) as usize,
                ),
        )
    }
}

impl<'a> StorageIter<'a> {
    /// The walk stands in a block of the chain, and the blocks from there on
    /// are linked as their headers say.
    pub closed spec fn wf(&self) -> bool {
        let blocks = self.blocks@;
        let b = self.block@;
        &&& 0 <= b < blocks.len()
        &&& self.block_offset == blocks[b]
        &&& self.index_in_block <= 128
        &&& self.bytes_per_change >= 4
        &&& 128 * b + self.index_in_block + self.remaining <= 128 * blocks.len()
        &&& forall|j: int|
            b <= j < blocks.len() ==> 0 <= #[trigger] blocks[j] && blocks[j] + block_size(
                self.bytes_per_change as int,
            ) <= self.data@.len() && (j + 1 < blocks.len() ==> blocks[j] < blocks[j + 1] && le64_at(
                self.data@,
                blocks[j],
            ) == blocks[j + 1] - blocks[j])
    }

    /// The handle of the next record, or `None` once every record has come.
    pub fn next(&mut self) -> (r: Option<ChangeOffset>)
        requires
            old(self).wf(),
        ensures
            final(self).wf(),
            r == if old(self)@.len() > 0 {
                Some(old(self)@[0])
            } else {
                None::<ChangeOffset>
            },
            final(self)@ == if old(self)@.len() > 0 {
                old(self)@.drop_first()
            } else {
                old(self)@
            },
    {
        if self.remaining > 0 {
            let _ = self.data.len();
            self.remaining -= 1;
            if self.index_in_block == CHANGES_PER_BLOCK {
                proof {
                    assert(self.blocks@[self.block@] >= 0);
                    assert(self.blocks@[self.block@ + 1] >= 0);
                }
                let delta = read_u64(self.data, self.block_offset);
                self.block_offset += delta as usize;
                self.index_in_block = 0;
                proof {
                    self.block@ = self.block@ + 1;
                }
            }
            proof {
                assert(self.blocks@[self.block@] >= 0);
                lemma_slot_position(
                    self.block@,
                    self.index_in_block as int,
                    self.bytes_per_change as int,
                    0,
                );
            }
            let offset = self.block_offset + 16 + self.bytes_per_change * self.index_in_block;
            self.index_in_block += 1;
            proof {
                let bpc = self.bytes_per_change as int;
                let index = self.index_in_block - 1;
                assert(bpc * index == index * bpc) by (nonlinear_arith);
                assert(final(self)@ =~= old(self)@.drop_first()) by {
                    assert forall|k: int| 0 <= k < final(self)@.len() implies final(self)@[k]
                        == old(self)@[k + 1] by {
                        assert(128 * final(self).block@ + final(self).index_in_block + k == 128 * old(self).block@ + old(self).index_in_block + (k + 1));
                    }
                }
                assert(old(self)@[0] == ChangeOffset(offset));
            }
            Some(ChangeOffset(offset))
        } else {
            None
        }
    }

    /// How many records are still to come.
    pub fn remaining(&self) -> (r: usize)
        ensures
            r == self@.len(),
    {
        self.remaining
    }
}

impl ChangeBlockList {
    /// Walks the records of the signal `id` from the first on. Fails with
    /// `UnknownSignal` where `id` was not declared.
    pub fn iter_storage(&self, id: StorageId) -> (r: Result<StorageIter<'_>, Error>)
        requires
            self.wf(),
        ensures
            match self.signal(id) {
                Some(signal) => r is Ok && r->Ok_0.wf() && r->Ok_0@ == handles(signal),
                None => r is Err && r->Err_0 == Error::UnknownSignal,
            },
    {
        let at = id.0 as usize;
        if at >= self.storage_infos.len() {
            return Err(Error::UnknownSignal);
        }
        match &self.storage_infos[at] {
            Some(info) => {
                let ghost chain = info.blocks@;
                let iter = StorageIter {
                    data: self.data.as_slice(),
                    block_offset: info.first_offset,
                    remaining: info.count,
                    index_in_block: 0,
                    bytes_per_change: info.bytes_per_change,
                    blocks: Ghost(chain),
                    block: Ghost(0),
                };
                proof {
                    let steps = self.timesteps@.len() as int;
                    assert(signal_ok(self.data@, self.owner@, steps, at as int, *info));
                    assert forall|j: int| 0 <= j < chain.len() implies 0 <= #[trigger] chain[j]
                        && chain[j] + block_size(info.bytes_per_change as int) <= self.data@.len() && (
                    j + 1 < chain.len() ==> chain[j] < chain[j + 1] && le64_at(self.data@, chain[j])
                        == chain[j + 1] - chain[j]) by {
                        assert(block_ok(self.data@, self.owner@, at as int, *info, j));
                    }
                    assert(iter@ =~= handles(self.signal(id)->Some_0)) by {
                        assert forall|k: int| 0 <= k < info.count implies record_at(
                            chain,
                            info.bytes_per_change as int,
                            k,
                        ) >= 0 by {
                            assert(slot_ok(self.data@, self.owner@, steps, at as int, *info, k));
                        }
                    }
                }
                Ok(iter)
            },
            None => Err(Error::UnknownSignal),
        }
    }

    /// The number of blocks in the chain of the signal `id`, found by
    /// following the links from its first block. Fails with `UnknownSignal`
    /// where `id` was not declared.
    pub fn blocks_of(&self, id: StorageId) -> (r: Result<usize, Error>)
        requires
            self.wf(),
        ensures
            match self.signal(id) {
                Some(signal) => r == Ok::<usize, Error>(
                    blocks_for(signal.changes.len() as int) as usize,
                ),
                None => r == Err::<usize, Error>(Error::UnknownSignal),
            },
    {
        let at = id.0 as usize;
        if at >= self.storage_infos.len() {
            return Err(Error::UnknownSignal);
        }
        match &self.storage_infos[at] {
            Some(info) => {
                let ghost chain = info.blocks@;
                let ghost steps = self.timesteps@.len() as int;
                proof {
                    assert(signal_ok(self.data@, self.owner@, steps, at as int, *info));
                    assert forall|j: int| 0 <= j < chain.len() implies 0 <= #[trigger] chain[j]
                        && chain[j] + block_size(info.bytes_per_change as int) <= self.data@.len()
                        && le64_at(self.data@, chain[j]) == (if j + 1 < chain.len() {
                        chain[j + 1] - chain[j]
                    } else {
                        0
                    }) && (j + 1 < chain.len() ==> chain[j] < chain[j + 1]) by {
                        assert(block_ok(self.data@, self.owner@, at as int, *info, j));
                    }
                }
                let _ = self.data.len();
                let mut offset = info.first_offset;
                let mut seen: usize = 1;
                let ghost mut j: int = 0;
                loop
                    invariant
                        0 <= j < chain.len(),
                        offset == chain[j],
                        offset >= j,
                        seen == j + 1,
                        self.data@.len() <= usize::MAX,
                        forall|j: int|
                            0 <= j < chain.len() ==> 0 <= #[trigger] chain[j] && chain[j]
                                + block_size(info.bytes_per_change as int) <= self.data@.len()
                                && le64_at(self.data@, chain[j]) == (if j + 1 < chain.len() {
                                chain[j + 1] - chain[j]
                            } else {
                                0
                            }) && (j + 1 < chain.len() ==> chain[j] < chain[j + 1]),
                    ensures
                        seen == chain.len(),
                    decreases chain.len() - j,
                {
                    proof {
                        assert(chain[j] >= 0);
                        if j + 1 < chain.len() {
                            assert(chain[j + 1] >= 0);
                        }
                    }
                    let delta = read_u64(self.data.as_slice(), offset);
                    if delta == 0 {
                        break ;
                    }
                    offset += delta as usize;
                    seen += 1;
                    proof {
                        j = j + 1;
                    }
                }
                Ok(seen)
            },
            None => Err(Error::UnknownSignal),
        }
    }
}

impl ChangeBlockList {
    /// Whether `offset` is where record `index` of the signal `id` lies, and
    /// `width` and `bits` are those of the signal.
    pub open spec fn is_record(
        &self,
        id: StorageId,
        index: int,
        offset: ChangeOffset,
        width: usize,
        bits: u8,
    ) -> bool {
        &&& self.signal(id) is Some
        &&& 0 <= index < self.signal(id)->Some_0.changes.len()
        &&& self.signal(id)->Some_0.offsets[index] == offset.0
        &&& self.signal(id)->Some_0.width == width
        &&& self.signal(id)->Some_0.bits == bits
    }

    /// A record lies inside the store, and its timestep is in the table.
    proof fn lemma_record(&self, id: StorageId, index: int, offset: ChangeOffset, width: usize, bits: u8)
        requires
            self.wf(),
            self.is_record(id, index, offset, width, bits),
        ensures
            ({
                let change = self.signal(id)->Some_0.changes[index];
                let packed = packed_len(width as nat, bits);
                &&& offset.0 + 4 + packed <= self.data@.len()
                &&& le32_at(self.data@, offset.0 as int) == change.timestep
                &&& change.timestep < self.timesteps@.len()
                &&& self.data@.subrange(offset.0 + 4, offset.0 + 4 + packed) == change.bytes
                &&& id.0 < self.storage_infos@.len()
                &&& self.storage_infos@[id.0 as int] is Some
                &&& index < self.storage_infos@[id.0 as int]->Some_0.count
                &&& self.storage_infos@[id.0 as int]->Some_0.bytes_per_change == 4 + packed
                &&& offset.0 == record_at(
                    self.storage_infos@[id.0 as int]->Some_0.blocks@,
                    (4 + packed) as int,
                    index,
                )
            }),
    {
        let t = id.0 as int;
        let info = self.storage_infos@[t]->Some_0;
        let steps = self.timesteps@.len() as int;
        assert(signal_ok(self.data@, self.owner@, steps, t, info));
        assert(slot_ok(self.data@, self.owner@, steps, t, info, index));
    }

    /// Decodes the record at `offset` as `width` units of the variant `L`:
    /// its timestep and its units.
    ///
    /// The offset is taken on trust, but never read beyond the store: where
    /// the record would not lie in the store or its timestep index is not in
    /// the table, the result is `OutOfBounds`; where what lies above the
    /// last unit is not clear, it is `InvalidEncoding` at offset `width`.
    pub fn get_change<L: Logic>(&self, offset: ChangeOffset, width: usize) -> (r: Result<
        (Timesteps, LogicSlice<'_, L>),
        Error,
    >)
        requires
            self.wf(),
        ensures
            r is Ok ==> (r->Ok_0).1.wf() && (r->Ok_0).1.spec_width() == width,
            ({
                let packed = packed_len(width as nat, L::spec_bits());
                let units = self.store().subrange(offset.0 + 4, offset.0 + 4 + packed);
                if !(offset.0 + 4 + packed <= self.bytes_used() && le32_at(
                    self.store(),
                    offset.0 as int,
                ) < self.timesteps().len()) {
                    r is Err && r->Err_0 == Error::OutOfBounds
                } else if !tail_clean(units, L::spec_bits(), width as nat) {
                    r is Err && r->Err_0 == (Error::InvalidEncoding { offset: width })
                } else {
                    &&& r is Ok
                    &&& (r->Ok_0).0 == Timesteps(
                        self.timesteps()[le32_at(self.store(), offset.0 as int) as int],
                    )
                    &&& (r->Ok_0).1.raw() == units
                }
            }),
            forall|id: StorageId, index: int| #[trigger]
                self.is_record(id, index, offset, width, L::spec_bits()) ==> {
                    let change = self.signal(id)->Some_0.changes[index];
                    if tail_clean(change.bytes, L::spec_bits(), width as nat) {
                        &&& r is Ok
                        &&& (r->Ok_0).0 == Timesteps(self.timesteps()[change.timestep as int])
                        &&& (r->Ok_0).1.raw() == change.bytes
                    } else {
                        r is Err && r->Err_0 == (Error::InvalidEncoding { offset: width })
                    }
                },
    {
        proof {
            assert forall|id: StorageId, index: int| #[trigger]
                self.is_record(id, index, offset, width, L::spec_bits()) implies {
                let change = self.signal(id)->Some_0.changes[index];
                let packed = packed_len(width as nat, L::spec_bits());
                &&& offset.0 + 4 + packed <= self.data@.len()
                &&& le32_at(self.data@, offset.0 as int) == change.timestep
                &&& change.timestep < self.timesteps@.len()
                &&& self.data@.subrange(offset.0 + 4, offset.0 + 4 + packed) == change.bytes
            } by {
                self.lemma_record(id, index, offset, width, L::spec_bits());
            }
        }
        let len = self.data.len();
        let packed = bytes_for::<L>(width);
        let at = offset.0;
        if at > len || len - at < 4 || len - at - 4 < packed {
            return Err(Error::OutOfBounds);
        }
        let stamp = read_u32(self.data.as_slice(), at);
        let timestep = match self.timesteps.get(stamp) {
            Ok(timestep) => timestep,
            Err(e) => {
                return Err(e);
            },
        };
        let bytes = slice_subrange(self.data.as_slice(), at + 4, at + 4 + packed);
        match LogicSlice::from_bytes(width, bytes) {
            Ok(slice) => Ok((Timesteps(timestep), slice)),
            Err(e) => Err(e),
        }
    }

    /// Lends the units of the record at `offset` for writing, together with
    /// the record's timestep. Whatever the borrower writes is the record
    /// once the slice is given back; every other record is as it was.
    ///
    /// The offset must be that of a record of a signal of `width` units of
    /// the variant `L`, as `iter_storage` hands them out. Where what lies
    /// above the record's last unit is not clear, the result is
    /// `InvalidEncoding` at offset `width` and nothing is lent.
    pub fn get_change_mut<L: Logic>(&mut self, offset: ChangeOffset, width: usize) -> (r: Result<
        (Timesteps, LogicSliceMut<'_, L>),
        Error,
    >)
        requires
            old(self).wf(),
            exists|id: StorageId, index: int| #[trigger]
                old(self).is_record(id, index, offset, width, L::spec_bits()),
        ensures
            final(self).wf(),
            final(self).timesteps() == old(self).timesteps(),
            final(self).bytes_used() == old(self).bytes_used(),
            final(self).storages() == old(self).storages(),
            forall|id: StorageId| final(self).chain(id) == old(self).chain(id),
            final(self).store() == if r is Ok {
                splice(old(self).store(), offset.0 + 4, final((r->Ok_0).1.bytes)@)
            } else {
                old(self).store()
            },
            forall|id: StorageId, index: int| #[trigger]
                old(self).is_record(id, index, offset, width, L::spec_bits()) ==> {
                    let before = old(self).signal(id)->Some_0;
                    let change = before.changes[index];
                    &&& (forall|other: StorageId|
                        other != id ==> final(self).signal(other) == old(self).signal(other))
                    &&& r is Ok <==> tail_clean(change.bytes, L::spec_bits(), width as nat)
                    &&& r is Err ==> r->Err_0 == (Error::InvalidEncoding { offset: width })
                        && final(self).signal(id) == old(self).signal(id)
                    &&& r is Ok ==> {
                        &&& (r->Ok_0).0 == Timesteps(old(self).timesteps()[change.timestep as int])
                        &&& (r->Ok_0).1.wf()
                        &&& (r->Ok_0).1.spec_width() == width
                        &&& (r->Ok_0).1.raw() == change.bytes
                        &&& final(self).signal(id) == Some(
                            SignalView {
                                changes: before.changes.update(
                                    index,
                                    Change {
                                        timestep: change.timestep,
                                        bytes: final((r->Ok_0).1.bytes)@,
                                    },
                                ),
                                ..before
                            },
                        )
                    }
                },
    {
        let ghost (id, index) = choose|id: StorageId, index: int| #[trigger]
            self.is_record(id, index, offset, width, L::spec_bits());
        let ghost data = self.data@;
        let ghost owner = self.owner@;
        let ghost infos = self.storage_infos@;
        let ghost steps = self.timesteps@.len() as int;
        let ghost t = id.0 as int;
        let ghost before = self.signal(id)->Some_0;
        proof {
            self.lemma_record(id, index, offset, width, L::spec_bits());
            // The offset names one record only.
            assert forall|id2: StorageId, index2: int| #[trigger]
                self.is_record(id2, index2, offset, width, L::spec_bits()) implies id2 == id
                && index2 == index by {
                self.lemma_record(id2, index2, offset, width, L::spec_bits());
                let t2 = id2.0 as int;
                assert(signal_ok(data, owner, steps, t, infos[t]->Some_0));
                assert(slot_ok(data, owner, steps, t, infos[t]->Some_0, index));
                assert(signal_ok(data, owner, steps, t2, infos[t2]->Some_0));
                assert(slot_ok(data, owner, steps, t2, infos[t2]->Some_0, index2));
                assert(owner[offset.0 as int] == Tag::Index { signal: t, record: index });
                assert(owner[offset.0 as int] == Tag::Index { signal: t2, record: index2 });
            }
        }
        let _ = self.data.len();
        let packed = bytes_for::<L>(width);
        let at = offset.0;
        let stamp = read_u32(self.data.as_slice(), at);
        let timestep = match self.timesteps.get(stamp) {
            Ok(timestep) => timestep,
            Err(e) => 0,
        };
        let clean = match LogicSlice::<L>::from_bytes(
            width,
            slice_subrange(self.data.as_slice(), at + 4, at + 4 + packed),
        ) {
            Ok(_) => true,
            Err(_) => false,
        };
        if !clean {
            return Err(Error::InvalidEncoding { offset: width });
        }
        proof {
            assert forall|part: Seq<u8>| part.len() == packed implies #[trigger] parts_ok(
                splice(data, at + 4, part),
                owner,
                infos,
                steps,
            ) && signal_in(splice(data, at + 4, part), infos, id) == Some(
                SignalView {
                    changes: before.changes.update(
                        index,
                        Change { timestep: before.changes[index].timestep, bytes: part },
                    ),
                    ..before
                },
            ) by {
                lemma_any_payload(data, owner, infos, steps, t, index, part);
            }
            assert forall|part: Seq<u8>, other: StorageId|
                part.len() == packed && other != id implies #[trigger] signal_in(
                splice(data, at + 4, part),
                infos,
                other,
            ) == self.signal(other) by {
                lemma_any_payload(data, owner, infos, steps, t, index, part);
                let t2 = other.0 as int;
                if t2 < infos.len() && infos[t2] is Some {
                    assert(view_of(splice(data, at + 4, part), infos[t2]->Some_0) == view_of(
                        data,
                        infos[t2]->Some_0,
                    ));
                }
            }
        }
        let units = range_mut(self.data.as_mut_slice(), at + 4, at + 4 + packed);
        let slice = LogicSliceMut::new(width, units);
        proof {
            let part = final(slice.bytes)@;
            assert(part.len() == packed);
            assert(parts_ok(splice(data, at + 4, part), owner, infos, steps));
        }
        Ok((Timesteps(timestep), slice))
    }
}

impl ChangeBlockList {
    /// Every record names a timestep of the table.
    pub proof fn lemma_timestep_in_table(&self, id: StorageId, index: int)
        requires
            self.wf(),
            self.signal(id) is Some,
            0 <= index < self.signal(id)->Some_0.changes.len(),
        ensures
            self.signal(id)->Some_0.changes[index].timestep < self.timesteps().len(),
            self.signal(id)->Some_0.offsets.len() == self.signal(id)->Some_0.changes.len(),
            0 <= self.signal(id)->Some_0.offsets[index] <= usize::MAX,
            self.signal(id)->Some_0.changes[index].bytes.len() == packed_len(
                self.signal(id)->Some_0.width,
                self.signal(id)->Some_0.bits,
            ),
            self.signal(id)->Some_0.width > 0,
            self.signal(id)->Some_0.width <= usize::MAX,
            self.timesteps().len() <= crate::timesteps::MAX_TIMESTEPS,
            crate::timesteps::increasing(self.timesteps()),
    {
        let t = id.0 as int;
        let info = self.storage_infos@[t]->Some_0;
        let steps = self.timesteps@.len() as int;
        vstd::std_specs::vec::axiom_spec_len(&self.data);
        assert(signal_ok(self.data@, self.owner@, steps, t, info));
        assert(slot_ok(self.data@, self.owner@, steps, t, info, index));
    }

    /// The handle of the record that was appended last to the signal `id`;
    /// `None` where it has no record. Fails with `UnknownSignal` where `id`
    /// was not declared.
    pub fn last_change(&self, id: StorageId) -> (r: Result<Option<ChangeOffset>, Error>)
        requires
            self.wf(),
        ensures
            match self.signal(id) {
                Some(signal) => r == Ok::<Option<ChangeOffset>, Error>(
                    if signal.changes.len() == 0 {
                        None
                    } else {
                        Some(ChangeOffset(signal.offsets.last() as usize))
                    },
                ),
                None => r == Err::<Option<ChangeOffset>, Error>(Error::UnknownSignal),
            },
    {
        let at = id.0 as usize;
        if at >= self.storage_infos.len() {
            return Err(Error::UnknownSignal);
        }
        match &self.storage_infos[at] {
            Some(info) => {
                if info.count == 0 {
                    return Ok(None);
                }
                let ghost steps = self.timesteps@.len() as int;
                let ghost last = info.count - 1;
                proof {
                    assert(signal_ok(self.data@, self.owner@, steps, at as int, *info));
                    assert(block_ok(self.data@, self.owner@, at as int, *info, info.blocks@.len() - 1));
                    assert(slot_ok(self.data@, self.owner@, steps, at as int, *info, last));
                    lemma_slot_position(last / 128, last % 128, info.bytes_per_change as int, 0);
                }
                let _ = self.data.len();
                let held = read_u64(self.data.as_slice(), info.last_offset + 8);
                let slot = (held - 1) as usize;
                let offset = info.last_offset + 16 + slot * info.bytes_per_change;
                Ok(Some(ChangeOffset(offset)))
            },
            None => Err(Error::UnknownSignal),
        }
    }

    /// Bits per unit and width of the signal `id`, or `UnknownSignal`.
    pub fn shape_of(&self, id: StorageId) -> (r: Result<(u8, usize), Error>)
        requires
            self.wf(),
        ensures
            match self.signal(id) {
                Some(signal) => r == Ok::<(u8, usize), Error>((signal.bits, signal.width as usize))
                    && signal.width <= usize::MAX,
                None => r == Err::<(u8, usize), Error>(Error::UnknownSignal),
            },
    {
        let at = id.0 as usize;
        if at >= self.storage_infos.len() {
            return Err(Error::UnknownSignal);
        }
        match &self.storage_infos[at] {
            Some(info) => Ok((info.bits, info.width)),
            None => Err(Error::UnknownSignal),
        }
    }

    /// The number of distinct timesteps so far.
    pub fn timestep_count(&self) -> (r: usize)
        ensures
            r == self.timesteps().len(),
    {
        self.timesteps.len()
    }
}

impl ChangeBlockList {
    /// Whether the signal `id`, which was declared, can take one more
    /// record.
    pub fn has_room(&self, id: StorageId) -> (r: bool)
        requires
            self.wf(),
            self.signal(id) is Some,
        ensures
            r == self.can_append(id),
    {
        proof {
            self.lemma_fits(id);
        }
        let at = id.0 as usize;
        match &self.storage_infos[at] {
            Some(info) => {
                if info.count == usize::MAX {
                    return false;
                }
                proof {
                    let steps = self.timesteps@.len() as int;
                    assert(signal_ok(self.data@, self.owner@, steps, at as int, *info));
                    assert(block_ok(self.data@, self.owner@, at as int, *info, info.blocks@.len() - 1));
                }
                let len = self.data.len();
                let held = read_u64(self.data.as_slice(), info.last_offset + 8);
                if held == CHANGES_PER_BLOCK as u64 {
                    !(len > usize::MAX - 8 - 16 || info.bytes_per_change > (usize::MAX - 8 - 16 - len)
                        / 128)
                } else {
                    true
                }
            },
            None => false,
        }
    }
}

impl ChangeBlockList {
    /// The record at `offset` as it lies in the store: its timestep and
    /// `bytes` bytes of packed units, whatever they hold.
    ///
    /// Fails with `OutOfBounds` where the record would not lie in the store
    /// or its timestep index is not in the table.
    pub fn get_raw(&self, offset: ChangeOffset, bytes: usize) -> (r: Result<(Timesteps, &[u8]), Error>)
        requires
            self.wf(),
        ensures
            offset.0 + 4 + bytes <= self.bytes_used() && le32_at(self.store(), offset.0 as int)
                < self.timesteps().len() ==> r is Ok && (r->Ok_0).0 == Timesteps(
                self.timesteps()[le32_at(self.store(), offset.0 as int) as int],
            ) && (r->Ok_0).1@ == self.store().subrange(offset.0 + 4, offset.0 + 4 + bytes),
            !(offset.0 + 4 + bytes <= self.bytes_used() && le32_at(self.store(), offset.0 as int)
                < self.timesteps().len()) ==> r is Err && r->Err_0 == Error::OutOfBounds,
            forall|id: StorageId, index: int, width: usize, bits: u8| #[trigger]
                self.is_record(id, index, offset, width, bits) && bytes == packed_len(
                    width as nat,
                    bits,
                ) ==> {
                    let change = self.signal(id)->Some_0.changes[index];
                    &&& r is Ok
                    &&& (r->Ok_0).0 == Timesteps(self.timesteps()[change.timestep as int])
                    &&& (r->Ok_0).1@ == change.bytes
                },
    {
        proof {
            assert forall|id: StorageId, index: int, width: usize, bits: u8| #[trigger]
                self.is_record(id, index, offset, width, bits) && bytes == packed_len(
                    width as nat,
                    bits,
                ) implies {
                let change = self.signal(id)->Some_0.changes[index];
                &&& offset.0 + 4 + bytes <= self.data@.len()
                &&& le32_at(self.data@, offset.0 as int) == change.timestep
                &&& change.timestep < self.timesteps@.len()
                &&& self.data@.subrange(offset.0 + 4, offset.0 + 4 + bytes) == change.bytes
            } by {
                self.lemma_record(id, index, offset, width, bits);
            }
        }
        let len = self.data.len();
        let at = offset.0;
        if at > len || len - at < 4 || len - at - 4 < bytes {
            return Err(Error::OutOfBounds);
        }
        let stamp = read_u32(self.data.as_slice(), at);
        let timestep = match self.timesteps.get(stamp) {
            Ok(timestep) => timestep,
            Err(e) => {
                return Err(e);
            },
        };
        Ok((Timesteps(timestep), slice_subrange(self.data.as_slice(), at + 4, at + 4 + bytes)))
    }
}

impl ChangeBlockList {
    /// The layout of the store. The blocks of a signal are a chain: each
    /// lies on a multiple of eight and begins with a header of two 64-bit
    /// little-endian integers, the distance to the next block of the
    /// signal, 0 in its last block, and the number of records in the
    /// block, 128 in every block but the last. Behind the header lie 128
    /// slots, each the index of a timestep as a 32-bit little-endian
    /// integer and the packed units of a value; the records of the signal
    /// fill the slots in their order.
    pub proof fn lemma_layout(&self, id: StorageId)
        requires
            self.wf(),
            self.signal(id) is Some,
        ensures
            ({
                let signal = self.signal(id)->Some_0;
                let chain = self.chain(id);
                let bpc = record_size(signal.width, signal.bits);
                let count = signal.changes.len() as int;
                &&& self.store().len() == self.bytes_used()
                &&& chain.len() == blocks_for(count)
                &&& chain[0] == signal.first
                &&& signal.offsets.len() == count
                &&& forall|j: int|
                    0 <= j < chain.len() ==> {
                        &&& 0 <= #[trigger] chain[j]
                        &&& chain[j] % 8 == 0
                        &&& chain[j] + block_size(bpc) <= self.store().len()
                        &&& le64_at(self.store(), chain[j]) == (if j + 1 < chain.len() {
                            chain[j + 1] - chain[j]
                        } else {
                            0
                        })
                        &&& (j + 1 < chain.len() ==> chain[j] < chain[j + 1])
                        &&& le64_at(self.store(), chain[j] + 8) == (if j + 1 < chain.len() {
                            128
                        } else {
                            count - 128 * j
                        })
                    }
                &&& forall|k: int|
                    0 <= k < count ==> {
                        &&& #[trigger] signal.offsets[k] == record_at(chain, bpc, k)
                        &&& le32_at(self.store(), signal.offsets[k]) == signal.changes[k].timestep
                        &&& self.store().subrange(signal.offsets[k] + 4, signal.offsets[k] + bpc)
                            == signal.changes[k].bytes
                    }
            }),
    {
        let t = id.0 as int;
        let info = self.storage_infos@[t]->Some_0;
        let steps = self.timesteps@.len() as int;
        let signal = self.signal(id)->Some_0;
        let chain = self.chain(id);
        let bpc = record_size(signal.width, signal.bits);
        let count = signal.changes.len() as int;
        assert(signal_ok(self.data@, self.owner@, steps, t, info));
        assert(chain == info.blocks@);
        assert(bpc == info.bytes_per_change);
        assert(count == info.count);
        assert forall|j: int| 0 <= j < chain.len() implies {
            &&& 0 <= #[trigger] chain[j]
            &&& chain[j] % 8 == 0
            &&& chain[j] + block_size(bpc) <= self.store().len()
            &&& le64_at(self.store(), chain[j]) == (if j + 1 < chain.len() {
                chain[j + 1] - chain[j]
            } else {
                0
            })
            &&& (j + 1 < chain.len() ==> chain[j] < chain[j + 1])
            &&& le64_at(self.store(), chain[j] + 8) == (if j + 1 < chain.len() {
                128
            } else {
                count - 128 * j
            })
        } by {
            assert(block_ok(self.data@, self.owner@, t, info, j));
        }
        assert forall|k: int| 0 <= k < count implies {
            &&& #[trigger] signal.offsets[k] == record_at(chain, bpc, k)
            &&& le32_at(self.store(), signal.offsets[k]) == signal.changes[k].timestep
            &&& self.store().subrange(signal.offsets[k] + 4, signal.offsets[k] + bpc)
                == signal.changes[k].bytes
        } by {
            assert(slot_ok(self.data@, self.owner@, steps, t, info, k));
        }
    }

    /// A signal has one offset for each change.
    pub proof fn lemma_offsets(&self, id: StorageId)
        requires
            self.signal(id) is Some,
        ensures
            self.signal(id)->Some_0.offsets.len() == self.signal(id)->Some_0.changes.len(),
    {
    }
}

} // verus!
