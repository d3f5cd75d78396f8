//! Events: values over a span of time, whose units lie packed in a storage
//! that many events share.

use crate::logic::{packed_len, unpack as units_in, Logic};
use crate::logic2::{bytes, pack, unpack, DataWidth};
use crate::meta::Timesteps;
use core::marker::PhantomData;
use core::ops::Range;
use vstd::prelude::*;

verus! {

/// Where the units of an event begin in the storage.
#[derive(Debug, Copy, Clone, Hash, PartialEq, Eq, PartialOrd, Ord, Structural)]
pub struct DataIndex(pub usize);

/// A value over a span of time. Its units lie in an `EventStorage`.
pub struct Event<L: Logic> {
    start: Timesteps,
    end: Timesteps,
    start_idx: DataIndex,
    marker: PhantomData<L>,
}

/// The packed units of the events of one width.
pub struct EventStorage<L: Logic> {
    data: Vec<u8>,
    width: DataWidth,
    width_bytes: usize,
    marker: PhantomData<L>,
}

impl<L: Logic> EventStorage<L> {
    /// The packed bytes of all events.
    pub closed spec fn raw(&self) -> Seq<u8> {
        self.data@
    }

    /// The number of units of every event.
    pub closed spec fn spec_width(&self) -> DataWidth {
        self.width
    }

    /// Every event takes the packed length of the width.
    pub closed spec fn wf(&self) -> bool {
        self.width_bytes == packed_len(self.width.0 as nat, L::spec_bits())
    }

    /// The bytes of one event.
    pub open spec fn width_bytes(&self) -> nat {
        packed_len(self.spec_width().0 as nat, L::spec_bits())
    }

    /// A storage without events, for events of `width` units.
    pub fn new(width: DataWidth) -> (r: Self)
        ensures
            r.wf(),
            r.spec_width() == width,
            r.raw() == Seq::<u8>::empty(),
    {
        EventStorage {
            data: Vec::new(),
            width,
            width_bytes: bytes::<L>(width),
            marker: PhantomData,
        }
    }

    /// Packs `logics`, as many as the storage's width, behind what the
    /// storage holds, and returns where they begin.
    pub fn push_pack(&mut self, logics: &[L]) -> (r: DataIndex)
        requires
            old(self).wf(),
            logics@.len() == old(self).spec_width().0,
            old(self).raw().len() + old(self).width_bytes() <= usize::MAX,
        ensures
            final(self).wf(),
            final(self).spec_width() == old(self).spec_width(),
            r.0 == old(self).raw().len(),
            final(self).raw().len() == old(self).raw().len() + old(self).width_bytes(),
            final(self).raw().subrange(0, r.0 as int) == old(self).raw(),
            units_in::<L>(
                final(self).raw().subrange(r.0 as int, final(self).raw().len() as int),
                logics@.len(),
            ) == logics@,
    {
        let idx = self.data.len();
        let ghost before = self.data@;
        crate::bytes::extend_zeroed(&mut self.data, self.width_bytes);
        let total = self.data.len();
        let ghost grown = self.data@;
        let ghost mut packed: Seq<u8> = Seq::empty();
        {
            let target = crate::bytes::range_mut(self.data.as_mut_slice(), idx, total);
            pack::<L>(logics, target);
            proof {
                packed = target@;
            }
        }
        proof {
            crate::bytes::lemma_splice(grown, idx as int, packed);
            assert(self.data@.subrange(0, idx as int) =~= before);
            assert(self.data@.subrange(idx as int, total as int) =~= packed);
        }
        DataIndex(idx)
    }

    /// Puts the packed units `data`, as many bytes as one event takes,
    /// behind what the storage holds, and returns where they begin.
    pub fn push_raw(&mut self, data: &[u8]) -> (r: DataIndex)
        requires
            old(self).wf(),
            data@.len() == old(self).width_bytes(),
        ensures
            final(self).wf(),
            final(self).spec_width() == old(self).spec_width(),
            r.0 == old(self).raw().len(),
            final(self).raw() == old(self).raw() + data@,
    {
        let idx = self.data.len();
        let mut i: usize = 0;
        while i < data.len()
            invariant
                i <= data@.len(),
                self.data@ == old(self).data@ + data@.subrange(0, i as int),
                self.width == old(self).width,
                self.width_bytes == old(self).width_bytes,
            decreases data@.len() - i,
        {
            self.data.push(data[i]);
            i += 1;
            assert(self.data@ =~= old(self).data@ + data@.subrange(0, i as int));
        }
        assert(data@.subrange(0, data@.len() as int) =~= data@);
        DataIndex(idx)
    }
}

impl<L: Logic> Event<L> {
    /// The span of time of the event.
    pub closed spec fn spec_timespan(&self) -> (Timesteps, Timesteps) {
        (self.start, self.end)
    }

    /// Where the units of the event begin in its storage.
    pub closed spec fn index(&self) -> DataIndex {
        self.start_idx
    }

    /// An event over `timespan` with the units `logics`, which are packed
    /// into `storage`.
    pub fn from_logic(storage: &mut EventStorage<L>, timespan: Range<Timesteps>, logics: &[L]) -> (r:
        Self)
        requires
            old(storage).wf(),
            logics@.len() == old(storage).spec_width().0,
            old(storage).raw().len() + old(storage).width_bytes() <= usize::MAX,
        ensures
            final(storage).wf(),
            final(storage).spec_width() == old(storage).spec_width(),
            r.spec_timespan() == (timespan.start, timespan.end),
            r.index().0 == old(storage).raw().len(),
            final(storage).raw().len() == old(storage).raw().len() + old(storage).width_bytes(),
            final(storage).raw().subrange(0, r.index().0 as int) == old(storage).raw(),
            units_in::<L>(
                final(storage).raw().subrange(
                    r.index().0 as int,
                    final(storage).raw().len() as int,
                ),
                logics@.len(),
            ) == logics@,
    {
        let start_idx = storage.push_pack(logics);
        Event { start: timespan.start, end: timespan.end, start_idx, marker: PhantomData }
    }

    /// An event over `timespan` with the packed units `data`, which are put
    /// into `storage`.
    pub fn from_raw(storage: &mut EventStorage<L>, timespan: Range<Timesteps>, data: &[u8]) -> (r:
        Self)
        requires
            old(storage).wf(),
            data@.len() == old(storage).width_bytes(),
        ensures
            final(storage).wf(),
            final(storage).spec_width() == old(storage).spec_width(),
            r.spec_timespan() == (timespan.start, timespan.end),
            r.index().0 == old(storage).raw().len(),
            final(storage).raw() == old(storage).raw() + data@,
    {
        let start_idx = storage.push_raw(data);
        Event { start: timespan.start, end: timespan.end, start_idx, marker: PhantomData }
    }

    /// The units of the event, read out of its storage.
    pub fn unpack(&self, storage: &EventStorage<L>) -> (r: Vec<L>)
        requires
            storage.wf(),
            self.index().0 + storage.width_bytes() <= storage.raw().len(),
        ensures
            r@ == units_in::<L>(
                storage.raw().subrange(
                    self.index().0 as int,
                    self.index().0 + storage.width_bytes(),
                ),
                storage.spec_width().0 as nat,
            ),
    {
        let _ = storage.data.len();
        let source = vstd::slice::slice_subrange(
            storage.data.as_slice(),
            self.start_idx.0,
            self.start_idx.0 + storage.width_bytes,
        );
        let r = unpack::<L>(storage.width, source);
        proof {
            L::lemma_bits();
            let width = storage.width.0 as nat;
            crate::logic::lemma_packed_bounds(width, L::spec_bits(), width as int);
            if L::spec_bits() == 1 {
            } else if L::spec_bits() == 2 {
            } else {
            }
            assert(r@ =~= units_in::<L>(source@, width));
        }
        r
    }

    /// The span of time of the event.
    pub fn timespan(&self) -> (r: Range<Timesteps>)
        ensures
            (r.start, r.end) == self.spec_timespan(),
    {
        Range { start: self.start, end: self.end }
    }
}

} // verus!
