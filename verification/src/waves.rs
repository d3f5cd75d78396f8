//! The waveform database: the change store with an index over each signal,
//! behind one ingest and one query interface.
//!
//! A change is written through the slice that `push_change` lends, so the
//! database learns of its units only once the slice is given back. The
//! index of a signal therefore runs at most one record behind the store;
//! the record that is not yet indexed is folded in by hand where a query
//! reaches it.

use crate::aggregate::{empty, fold, lemma_fold_width, Aggregate, Combine, Max, OrDominates, Timespan};
use crate::change::{
    appended, block_full, block_size, handles, next_block, record_size, used_with_block,
    with_block, with_record, Change, ChangeBlockList, ChangeOffset, SignalView, StorageIter,
};
use crate::error::Error;
use crate::implicit_forest::{range_end, Element, ImplicitForest};
use crate::logic::{packed_len, tail_clean, unpack, Four, Logic, LogicSliceMut, Nine, Two};
use crate::meta::{ScopeId, Storage, StorageId, StorageType, Timesteps, Variable};
use crate::scope::{Scopes, ScopesError, ScopesView};
use core::ops::Range;
use vstd::prelude::*;

verus! {

/// The absolute time of a change.
pub open spec fn time_of(change: Change, timesteps: Seq<u64>) -> u64 {
    timesteps[change.timestep as int]
}

/// A change as a leaf of the index: its time as a span of one timestep, and
/// its units.
pub open spec fn leaf_of<L: Logic>(change: Change, timesteps: Seq<u64>, width: nat) -> Aggregate<L> {
    Aggregate {
        span: Some(
            Timespan { start: time_of(change, timesteps), end: time_of(change, timesteps) },
        ),
        units: unpack::<L>(change.bytes, width),
    }
}

/// The changes of a signal as leaves, in the order in which they were
/// appended.
pub open spec fn leaves_of<L: Logic>(signal: SignalView, timesteps: Seq<u64>) -> Seq<Aggregate<L>> {
    Seq::new(signal.changes.len(), |i: int| leaf_of::<L>(signal.changes[i], timesteps, signal.width))
}

/// The number of changes among the first `upto` that lie before the time
/// `t`.
pub open spec fn count_before(signal: SignalView, timesteps: Seq<u64>, t: u64, upto: nat) -> nat
    decreases upto,
{
    if upto == 0 {
        0
    } else {
        count_before(signal, timesteps, t, (upto - 1) as nat) + if time_of(
            signal.changes[upto - 1],
            timesteps,
        ) < t {
            1nat
        } else {
            0nat
        }
    }
}

/// The timestep indexes of a signal's changes never decrease.
pub open spec fn ordered(signal: SignalView) -> bool {
    forall|i: int, j: int|
        0 <= i <= j < signal.changes.len() ==> signal.changes[i].timestep
            <= signal.changes[j].timestep
}

/// Where the changes never go back in time, those before `t` are the first
/// ones: a place that parts the earlier from the later is their number.
proof fn lemma_cut(signal: SignalView, timesteps: Seq<u64>, t: u64, cut: int, upto: nat)
    requires
        0 <= cut <= signal.changes.len(),
        upto <= signal.changes.len(),
        forall|i: int| 0 <= i < cut ==> time_of(#[trigger] signal.changes[i], timesteps) < t,
        forall|i: int|
            cut <= i < signal.changes.len() ==> time_of(#[trigger] signal.changes[i], timesteps)
                >= t,
    ensures
        count_before(signal, timesteps, t, upto) == if upto <= cut {
            upto as int
        } else {
            cut
        },
    decreases upto,
{
    if upto > 0 {
        lemma_cut(signal, timesteps, t, cut, (upto - 1) as nat);
    }
}

/// The index of one signal: a forest over its changes, which may lack the
/// change that was appended last.
pub struct Indexed<L: Logic, C: Combine<L>> {
    forest: ImplicitForest<L, C>,
    pending: bool,
}

impl<L: Logic, C: Combine<L>> Indexed<L, C> {
    /// The index goes with the signal `id` of `changes`: its leaves are the
    /// signal's changes, all of them or all but the last.
    pub closed spec fn inv(&self, changes: &ChangeBlockList, id: StorageId) -> bool {
        let signal = changes.signal(id)->Some_0;
        let n = self.forest.leaves().len();
        &&& changes.signal(id) is Some
        &&& signal.bits == L::spec_bits()
        &&& self.forest.wf()
        &&& self.forest.spec_width() == signal.width
        &&& ordered(signal)
        &&& signal.changes.len() == if self.pending {
            n + 1
        } else {
            n
        }
        &&& forall|i: int|
            0 <= i < n ==> #[trigger] self.forest.leaves()[i] == leaf_of::<L>(
                signal.changes[i],
                changes.timesteps(),
                signal.width,
            )
        &&& forall|i: int|
            0 <= i < n ==> tail_clean(
                (#[trigger] signal.changes[i]).bytes,
                signal.bits,
                signal.width,
            )
    }

    /// An index that is behind lacks a change, which lies at a timestep.
    pub proof fn lemma_behind(&self, changes: &ChangeBlockList, id: StorageId)
        requires
            self.inv(changes, id),
            changes.wf(),
            self.behind(),
        ensures
            changes.signal(id)->Some_0.changes.len() > 0,
            changes.timesteps().len() > 0,
    {
        changes.lemma_timestep_in_table(id, changes.signal(id)->Some_0.changes.len() - 1);
    }

    /// The index can read the change that it lacks exactly where the
    /// signal's last change carries nothing above its last unit: it has
    /// read every change that it holds.
    pub proof fn lemma_readable(&self, changes: &ChangeBlockList, id: StorageId)
        requires
            self.inv(changes, id),
        ensures
            self.readable(changes, id) <==> (changes.signal(id)->Some_0.changes.len() > 0
                ==> tail_clean(
                changes.signal(id)->Some_0.changes.last().bytes,
                changes.signal(id)->Some_0.bits,
                changes.signal(id)->Some_0.width,
            )),
    {
        let signal = changes.signal(id)->Some_0;
        if !self.pending && signal.changes.len() > 0 {
            assert(tail_clean(
                signal.changes[signal.changes.len() - 1].bytes,
                signal.bits,
                signal.width,
            ));
        }
    }

    /// Whether the change that was appended last is not yet indexed.
    pub closed spec fn behind(&self) -> bool {
        self.pending
    }

    /// Whether the forest can take one more leaf.
    pub closed spec fn roomy(&self) -> bool {
        2 * self.forest.leaves().len() + 2 <= usize::MAX
    }

    /// Whether the change that is not yet indexed, if there is one, carries
    /// nothing above its last unit, so that it can be read.
    pub open spec fn readable(&self, changes: &ChangeBlockList, id: StorageId) -> bool {
        self.behind() ==> tail_clean(
            changes.signal(id)->Some_0.changes.last().bytes,
            L::spec_bits(),
            changes.signal(id)->Some_0.width,
        )
    }

    /// An index for a signal of `width` units that has no change yet.
    pub fn new(width: usize) -> (r: Self)
        ensures
            !r.behind(),
            forall|changes: &ChangeBlockList, id: StorageId|
                changes.signal(id) is Some && changes.signal(id)->Some_0.bits == L::spec_bits()
                    && changes.signal(id)->Some_0.width == width
                    && changes.signal(id)->Some_0.changes.len() == 0 ==> #[trigger] r.inv(
                    changes,
                    id,
                ),
    {
        Indexed { forest: ImplicitForest::new_in(width), pending: false }
    }

    /// The index still goes with the signal where the store has changed
    /// elsewhere: the signal is as it was, and the table of timesteps has
    /// only grown.
    pub proof fn lemma_kept(
        &self,
        before: &ChangeBlockList,
        after: &ChangeBlockList,
        id: StorageId,
    )
        requires
            self.inv(before, id),
            before.wf(),
            after.signal(id) == before.signal(id),
            before.timesteps().len() <= after.timesteps().len(),
            after.timesteps().subrange(0, before.timesteps().len() as int) == before.timesteps(),
        ensures
            self.inv(after, id),
    {
        let signal = before.signal(id)->Some_0;
        assert forall|i: int| 0 <= i < self.forest.leaves().len() implies #[trigger] self.forest.leaves()[i]
            == leaf_of::<L>(signal.changes[i], after.timesteps(), signal.width) by {
            before.lemma_timestep_in_table(id, i);
            let at = signal.changes[i].timestep as int;
            assert(after.timesteps().subrange(0, before.timesteps().len() as int)[at]
                == before.timesteps()[at]);
        }
    }

    /// Notes that one more change is being appended to the signal, under
    /// the most recent timestep. The index must not be behind.
    pub fn note_append(&mut self)
        requires
            !old(self).behind(),
        ensures
            final(self).behind(),
            forall|before: &ChangeBlockList, after: &ChangeBlockList, id: StorageId, part: Seq<u8>|
                old(self).inv(before, id) && before.wf() && before.timesteps().len() > 0
                    && after.timesteps() == before.timesteps() && #[trigger] appended(
                    before.signal(id)->Some_0,
                    after.signal(id),
                    (before.timesteps().len() - 1) as u32,
                    part,
                ) ==> final(self).inv(after, id),
    {
        self.pending = true;
        proof {
            assert forall|
                before: &ChangeBlockList,
                after: &ChangeBlockList,
                id: StorageId,
                part: Seq<u8>,
            |
                old(self).inv(before, id) && before.wf() && before.timesteps().len() > 0
                    && after.timesteps() == before.timesteps() && #[trigger] appended(
                    before.signal(id)->Some_0,
                    after.signal(id),
                    (before.timesteps().len() - 1) as u32,
                    part,
                ) implies final(self).inv(after, id) by {
                let old_signal = before.signal(id)->Some_0;
                let signal = after.signal(id)->Some_0;
                let n = old_signal.changes.len() as int;
                assert forall|i: int, j: int|
                    0 <= i <= j < signal.changes.len() implies signal.changes[i].timestep
                    <= signal.changes[j].timestep by {
                    if i < n {
                        before.lemma_timestep_in_table(id, i);
                    }
                }
            }
        }
    }

    /// Indexes the change that was appended last, where it is not yet
    /// indexed.
    ///
    /// Fails with `InvalidEncoding` where that change carries something
    /// above its last unit, and with `AllocFailure` where the forest cannot
    /// grow; the index is then as it was.
    pub fn settle(&mut self, changes: &ChangeBlockList, id: StorageId) -> (r: Result<(), Error>)
        requires
            old(self).inv(changes, id),
            changes.wf(),
        ensures
            final(self).inv(changes, id),
            r is Ok <==> !old(self).behind() || (old(self).readable(changes, id) && old(self).roomy()),
            r is Ok ==> !final(self).behind(),
            r is Err ==> final(self).behind() && old(self).behind() && final(self).roomy() == old(self).roomy() && r->Err_0 == if !old(self).readable(changes, id) {
                Error::InvalidEncoding { offset: changes.signal(id)->Some_0.width as usize }
            } else {
                Error::AllocFailure
            },
    {
        if !self.pending {
            return Ok(());
        }
        let ghost signal = changes.signal(id)->Some_0;
        let ghost last = signal.changes.len() - 1;
        proof {
            changes.lemma_timestep_in_table(id, last);
        }
        let (bits, width) = match changes.shape_of(id) {
            Ok(shape) => shape,
            Err(e) => {
                return Err(e);
            },
        };
        let offset = match changes.last_change(id) {
            Ok(Some(offset)) => offset,
            Ok(None) => {
                return Err(Error::OutOfBounds);
            },
            Err(e) => {
                return Err(e);
            },
        };
        assert(changes.is_record(id, last, offset, width, L::spec_bits()));
        let (time, slice) = match changes.get_change::<L>(offset, width) {
            Ok(found) => found,
            Err(e) => {
                return Err(e);
            },
        };
        let pushed = self.forest.push(Timespan { start: time.0, end: time.0 }, &slice);
        match pushed {
            Ok(()) => {
                self.pending = false;
                Ok(())
            },
            Err(e) => Err(e),
        }
    }

    /// The number of indexed changes that lie before the time `t`.
    fn lower_bound(&self, changes: &ChangeBlockList, id: StorageId, t: u64) -> (r: usize)
        requires
            self.inv(changes, id),
            changes.wf(),
        ensures
            r <= self.forest.leaves().len(),
            forall|i: int|
                0 <= i < r ==> time_of(
                    #[trigger] changes.signal(id)->Some_0.changes[i],
                    changes.timesteps(),
                ) < t,
            forall|i: int|
                r <= i < self.forest.leaves().len() ==> time_of(
                    #[trigger] changes.signal(id)->Some_0.changes[i],
                    changes.timesteps(),
                ) >= t,
    {
        let ghost signal = changes.signal(id)->Some_0;
        let ghost times = changes.timesteps();
        let n = self.forest.len();
        proof {
            assert forall|i: int, j: int| 0 <= i <= j < n implies time_of(
                signal.changes[i],
                times,
            ) <= time_of(signal.changes[j], times) by {
                changes.lemma_timestep_in_table(id, i);
                changes.lemma_timestep_in_table(id, j);
            }
        }
        let mut lo: usize = 0;
        let mut hi: usize = n;
        while lo < hi
            invariant
                self.inv(changes, id),
                changes.wf(),
                signal == changes.signal(id)->Some_0,
                times == changes.timesteps(),
                n == self.forest.leaves().len(),
                lo <= hi <= n,
                forall|i: int, j: int|
                    0 <= i <= j < n ==> time_of(signal.changes[i], times) <= time_of(
                        signal.changes[j],
                        times,
                    ),
                forall|i: int| 0 <= i < lo ==> time_of(#[trigger] signal.changes[i], times) < t,
                forall|i: int| hi <= i < n ==> time_of(#[trigger] signal.changes[i], times) >= t,
            decreases hi - lo,
        {
            let mid = lo + (hi - lo) / 2;
            let start = match self.forest.leaf(mid) {
                Ok(leaf) => match leaf.span() {
                    Some(span) => span.start,
                    None => 0,
                },
                Err(_) => 0,
            };
            proof {
                assert(self.forest.leaves()[mid as int] == leaf_of::<L>(
                    signal.changes[mid as int],
                    times,
                    signal.width,
                ));
                assert(start == time_of(signal.changes[mid as int], times));
            }
            if start < t {
                proof {
                    assert forall|i: int| 0 <= i < mid + 1 implies time_of(
                        #[trigger] signal.changes[i],
                        times,
                    ) < t by {
                        assert(time_of(signal.changes[i], times) <= time_of(
                            signal.changes[mid as int],
                            times,
                        ));
                    }
                }
                lo = mid + 1;
            } else {
                proof {
                    assert forall|i: int| mid <= i < n implies time_of(
                        #[trigger] signal.changes[i],
                        times,
                    ) >= t by {
                        assert(time_of(signal.changes[mid as int], times) <= time_of(
                            signal.changes[i],
                            times,
                        ));
                    }
                }
                hi = mid;
            }
        }
        lo
    }
}

/// The aggregate of a signal's changes in a window of time: the fold of
/// those that lie at or after `window.start` and before `window.end`.
pub open spec fn window_fold<L: Logic, C: Combine<L>>(
    signal: SignalView,
    timesteps: Seq<u64>,
    window: Range<u64>,
) -> Aggregate<L> {
    let total = signal.changes.len();
    let from = count_before(signal, timesteps, window.start, total) as int;
    let to = count_before(signal, timesteps, window.end, total) as int;
    fold::<L, C>(
        leaves_of::<L>(signal, timesteps).subrange(from, range_end(from, to)),
        signal.width,
    )
}

impl<L: Logic, C: Combine<L>> Indexed<L, C> {
    /// The aggregate of the signal's changes in a window of time.
    ///
    /// Fails with `InvalidEncoding` where the change that was appended last
    /// is not yet indexed and carries something above its last unit.
    pub fn query(&self, changes: &ChangeBlockList, id: StorageId, window: Range<u64>) -> (r: Result<
        Element<L>,
        Error,
    >)
        requires
            self.inv(changes, id),
            changes.wf(),
        ensures
            r is Ok <==> self.readable(changes, id),
            r is Ok ==> (r->Ok_0).wf() && (r->Ok_0)@ == window_fold::<L, C>(
                changes.signal(id)->Some_0,
                changes.timesteps(),
                window,
            ),
            r is Err ==> r->Err_0 == (Error::InvalidEncoding {
                offset: changes.signal(id)->Some_0.width as usize,
            }),
    {
        let ghost signal = changes.signal(id)->Some_0;
        let ghost times = changes.timesteps();
        let ghost leaves = leaves_of::<L>(signal, times);
        let ghost total = signal.changes.len();
        let n = self.forest.len();
        let from = self.lower_bound(changes, id, window.start);
        let to = self.lower_bound(changes, id, window.end);
        proof {
            self.forest.lemma_leaves_width();
        }
        if !self.pending {
            proof {
                lemma_cut(signal, times, window.start, from as int, total);
                lemma_cut(signal, times, window.end, to as int, total);
                assert(leaves =~= self.forest.leaves());
            }
            return self.forest.range_query(from..to);
        }
        let ghost last = total - 1;
        proof {
            changes.lemma_timestep_in_table(id, last);
        }
        let (bits, width) = match changes.shape_of(id) {
            Ok(shape) => shape,
            Err(e) => (0, 0),
        };
        let offset = match changes.last_change(id) {
            Ok(Some(offset)) => offset,
            _ => ChangeOffset(0),
        };
        assert(changes.is_record(id, last, offset, width, L::spec_bits()));
        let (time, slice) = match changes.get_change::<L>(offset, width) {
            Ok(found) => found,
            Err(e) => {
                return Err(e);
            },
        };
        let before_start = time.0 < window.start;
        let before_end = time.0 < window.end;
        let mut acc = match self.forest.range_query(from..to) {
            Ok(acc) => acc,
            Err(e) => {
                return Err(e);
            },
        };
        proof {
            // The change that is not indexed is the latest.
            assert forall|i: int| 0 <= i < n implies time_of(#[trigger] signal.changes[i], times)
                <= time.0 by {
                changes.lemma_timestep_in_table(id, i);
            }
            if before_start && from < n {
                assert(time_of(signal.changes[from as int], times) >= window.start);
            }
            if before_end && to < n {
                assert(time_of(signal.changes[to as int], times) >= window.end);
            }
            let a = if before_start {
                n + 1
            } else {
                from as int
            };
            let b = if before_end {
                n + 1
            } else {
                to as int
            };
            lemma_cut(signal, times, window.start, a, total);
            lemma_cut(signal, times, window.end, b, total);
            assert(leaves.subrange(0, n as int) =~= self.forest.leaves());
            assert(leaves.subrange(from as int, range_end(from as int, to as int))
                =~= self.forest.leaves().subrange(from as int, range_end(from as int, to as int)));
            if !before_start && before_end {
                let run = leaves.subrange(from as int, n + 1);
                assert(run.drop_last() =~= leaves.subrange(from as int, n as int));
                assert(run.last() == leaves[n as int]);
            } else {
                assert(leaves.subrange(a, range_end(a, b)) =~= leaves.subrange(
                    from as int,
                    range_end(from as int, to as int),
                ));
            }
        }
        if !before_start && before_end {
            let leaf = Element::leaf(Timespan { start: time.0, end: time.0 }, &slice);
            proof {
                lemma_fold_width::<L, C>(
                    self.forest.leaves().subrange(
                        from as int,
                        range_end(from as int, to as int),
                    ),
                    signal.width,
                );
            }
            acc.absorb::<C>(&leaf);
        }
        Ok(acc)
    }
}

/// The index of a signal, by its logic variant. Two- and nine-valued
/// signals are aggregated by the greatest unit, four-valued ones by "or"
/// with the unknowns on top.
pub enum SignalIndex {
    Two(Indexed<Two, Max>),
    Four(Indexed<Four, OrDominates>),
    Nine(Indexed<Nine, Max>),
}

/// The units of a change that is being appended, lent for writing.
pub enum ChangeSlot<'a> {
    Two(LogicSliceMut<'a, Two>),
    Four(LogicSliceMut<'a, Four>),
    Nine(LogicSliceMut<'a, Nine>),
}

/// The aggregate of a window of a signal.
pub enum Aggregated {
    Two(Element<Two>),
    Four(Element<Four>),
    Nine(Element<Nine>),
}

impl SignalIndex {
    pub closed spec fn inv(&self, changes: &ChangeBlockList, id: StorageId) -> bool {
        match self {
            SignalIndex::Two(index) => index.inv(changes, id),
            SignalIndex::Four(index) => index.inv(changes, id),
            SignalIndex::Nine(index) => index.inv(changes, id),
        }
    }

    /// Bits per unit of the signal's variant.
    pub open spec fn spec_bits(&self) -> u8 {
        match self {
            SignalIndex::Two(_) => 1,
            SignalIndex::Four(_) => 2,
            SignalIndex::Nine(_) => 4,
        }
    }

    pub closed spec fn behind(&self) -> bool {
        match self {
            SignalIndex::Two(index) => index.behind(),
            SignalIndex::Four(index) => index.behind(),
            SignalIndex::Nine(index) => index.behind(),
        }
    }

    proof fn lemma_kept(&self, before: &ChangeBlockList, after: &ChangeBlockList, id: StorageId)
        requires
            self.inv(before, id),
            before.wf(),
            after.signal(id) == before.signal(id),
            before.timesteps().len() <= after.timesteps().len(),
            after.timesteps().subrange(0, before.timesteps().len() as int) == before.timesteps(),
        ensures
            self.inv(after, id),
    {
        match self {
            SignalIndex::Two(index) => index.lemma_kept(before, after, id),
            SignalIndex::Four(index) => index.lemma_kept(before, after, id),
            SignalIndex::Nine(index) => index.lemma_kept(before, after, id),
        }
    }

    /// An index that is behind lacks a change, which lies at a timestep.
    proof fn lemma_behind(&self, changes: &ChangeBlockList, id: StorageId)
        requires
            self.inv(changes, id),
            changes.wf(),
            self.behind(),
        ensures
            changes.signal(id)->Some_0.changes.len() > 0,
            changes.timesteps().len() > 0,
    {
        match self {
            SignalIndex::Two(index) => index.lemma_behind(changes, id),
            SignalIndex::Four(index) => index.lemma_behind(changes, id),
            SignalIndex::Nine(index) => index.lemma_behind(changes, id),
        }
    }

    proof fn lemma_bits(&self, changes: &ChangeBlockList, id: StorageId)
        requires
            self.inv(changes, id),
        ensures
            changes.signal(id) is Some,
            changes.signal(id)->Some_0.bits == self.spec_bits(),
            self.readable(changes, id) <==> (changes.signal(id)->Some_0.changes.len() > 0
                ==> tail_clean(
                changes.signal(id)->Some_0.changes.last().bytes,
                changes.signal(id)->Some_0.bits,
                changes.signal(id)->Some_0.width,
            )),
    {
        match self {
            SignalIndex::Two(index) => index.lemma_readable(changes, id),
            SignalIndex::Four(index) => index.lemma_readable(changes, id),
            SignalIndex::Nine(index) => index.lemma_readable(changes, id),
        }
    }
}

/// The index at `id` goes with the store: the signal has an index exactly
/// where it is declared, and the index is that of its changes.
spec fn index_ok(changes: &ChangeBlockList, indexes: Seq<Option<SignalIndex>>, id: StorageId) -> bool {
    let has = id.0 < indexes.len() && indexes[id.0 as int] is Some;
    &&& changes.signal(id) is Some <==> has
    &&& has ==> (indexes[id.0 as int]->Some_0).inv(changes, id)
}

spec fn indexes_ok(changes: &ChangeBlockList, indexes: Seq<Option<SignalIndex>>) -> bool {
    forall|id: StorageId| #[trigger] index_ok(changes, indexes, id)
}

/// The waveform database: scopes and variables, the change store, and an
/// index over the changes of each signal.
pub struct Waves {
    scopes: Scopes,
    storages: Vec<Storage>,
    changes: ChangeBlockList,
    indexes: Vec<Option<SignalIndex>>,
}

impl Waves {
    pub closed spec fn wf(&self) -> bool {
        &&& self.scopes.wf()
        &&& self.changes.wf()
        &&& indexes_ok(&self.changes, self.indexes@)
    }

    /// What the database holds of the signal `id`; `None` where it was
    /// never declared.
    pub closed spec fn signal(&self, id: StorageId) -> Option<SignalView> {
        self.changes.signal(id)
    }

    /// The distinct timesteps so far.
    pub closed spec fn timesteps(&self) -> Seq<u64> {
        self.changes.timesteps()
    }

    /// The number of bytes of the change store.
    pub closed spec fn bytes_used(&self) -> nat {
        self.changes.bytes_used()
    }

    /// The bytes of the change store.
    pub closed spec fn bytes(&self) -> Seq<u8> {
        self.changes.store()
    }

    /// The byte offset of each block of the signal `id`, the first block
    /// first; none for a signal that was not declared.
    pub closed spec fn chain(&self, id: StorageId) -> Seq<int> {
        self.changes.chain(id)
    }

    /// The change store.
    pub closed spec fn store(&self) -> ChangeBlockList {
        self.changes
    }

    /// The signals, the timesteps and the size of the database are those
    /// of its change store, which is well formed; so what holds of the
    /// layout of a change store holds of the database.
    pub proof fn lemma_store(&self)
        requires
            self.wf(),
        ensures
            self.store().wf(),
            self.store().timesteps() == self.timesteps(),
            self.store().bytes_used() == self.bytes_used(),
            self.store().store() == self.bytes(),
            forall|id: StorageId| #[trigger] self.store().signal(id) == self.signal(id),
            forall|id: StorageId| #[trigger] self.store().chain(id) == self.chain(id),
    {
    }

    /// The storages in the order in which they were declared.
    pub closed spec fn declared(&self) -> Seq<Storage> {
        self.storages@
    }

    /// The scope tree.
    pub closed spec fn scopes(&self) -> Scopes {
        self.scopes
    }

    /// Whether the change of `id` that was appended last, if there is one,
    /// carries nothing above its last unit.
    pub open spec fn last_clean(&self, id: StorageId) -> bool {
        let signal = self.signal(id)->Some_0;
        signal.changes.len() > 0 ==> tail_clean(
            signal.changes.last().bytes,
            signal.bits,
            signal.width,
        )
    }

    /// A database without scopes but the root, without signals and
    /// timesteps.
    pub fn new() -> (r: Self)
        ensures
            r.wf(),
            r.bytes_used() == 0,
            r.bytes() == Seq::<u8>::empty(),
            forall|id: StorageId| r.chain(id) == Seq::<int>::empty(),
            r.timesteps() == Seq::<u64>::empty(),
            r.declared() == Seq::<Storage>::empty(),
            r.scopes()@ == ScopesView::root(),
            forall|id: StorageId| r.signal(id) is None,
    {
        let r = Waves {
            scopes: Scopes::new(),
            storages: Vec::new(),
            changes: ChangeBlockList::new_in(),
            indexes: Vec::new(),
        };
        assert forall|id: StorageId| #[trigger] index_ok(&r.changes, r.indexes@, id) by {}
        r
    }

    /// The bytes of the change store, as they lie.
    pub fn as_bytes(&self) -> (r: &[u8])
        ensures
            r@ == self.bytes(),
    {
        self.changes.as_bytes()
    }

    /// The scope tree.
    pub fn scope_tree(&self) -> (r: &Scopes)
        ensures
            *r == self.scopes(),
    {
        &self.scopes
    }

    /// The ids of the declared signals, in the order of their declaration.
    pub fn list_signals(&self) -> (r: Vec<StorageId>)
        ensures
            r@.len() == self.declared().len(),
            forall|i: int| 0 <= i < r@.len() ==> r@[i] == self.declared()[i].id,
    {
        let mut ids: Vec<StorageId> = Vec::new();
        let mut i: usize = 0;
        while i < self.storages.len()
            invariant
                i <= self.storages@.len(),
                ids@.len() == i,
                forall|k: int| 0 <= k < i ==> ids@[k] == self.storages@[k].id,
            decreases self.storages@.len() - i,
        {
            ids.push(self.storages[i].id);
            i += 1;
        }
        ids
    }

    /// Adds the scope `id` below `parent`.
    pub fn declare_scope(&mut self, parent: ScopeId, id: ScopeId, name: String) -> (r: Result<
        (),
        ScopesError,
    >)
        requires
            old(self).wf(),
        ensures
            final(self).wf(),
            final(self).bytes_used() == old(self).bytes_used(),
            final(self).bytes() == old(self).bytes(),
            forall|id: StorageId| final(self).chain(id) == old(self).chain(id),
            final(self).timesteps() == old(self).timesteps(),
            final(self).declared() == old(self).declared(),
            forall|other: StorageId| final(self).signal(other) == old(self).signal(other),
            r is Err <==> parent.0 >= id.0 || !old(self).scopes().contains(parent),
            r is Err ==> r->Err_0 == ScopesError::InvalidParent,
            final(self).scopes()@ == if r is Ok {
                old(self).scopes()@.with_scope(parent, id, name@)
            } else {
                old(self).scopes()@
            },
            forall|other: ScopeId|
                final(self).scopes().contains(other) == (old(self).scopes().contains(other) || (r is Ok
                    && other == id)),
    {
        self.scopes.add_scope(parent, id, name)
    }

    /// Adds `variable` to the scope `scope`.
    pub fn declare_variable(&mut self, scope: ScopeId, variable: Variable) -> (r: Result<
        (),
        ScopesError,
    >)
        requires
            old(self).wf(),
        ensures
            final(self).wf(),
            final(self).bytes_used() == old(self).bytes_used(),
            final(self).bytes() == old(self).bytes(),
            forall|id: StorageId| final(self).chain(id) == old(self).chain(id),
            final(self).timesteps() == old(self).timesteps(),
            final(self).declared() == old(self).declared(),
            forall|other: StorageId| final(self).signal(other) == old(self).signal(other),
            r is Err <==> !old(self).scopes().contains(scope),
            r is Err ==> r->Err_0 == ScopesError::InvalidParent,
            final(self).scopes()@ == if r is Ok {
                old(self).scopes()@.with_variable(scope, variable)
            } else {
                old(self).scopes()@
            },
            forall|other: ScopeId|
                final(self).scopes().contains(other) == old(self).scopes().contains(other),
    {
        self.scopes.add_variable(scope, variable)
    }

    /// Moves the ingest clock to `timestep`. Changes that are appended from
    /// now on lie at that time.
    ///
    /// Fails with `TimestepRegression` where the clock would move backward
    /// and with `TimestepIndexOverflow` where there are 2^32 timesteps
    /// already; nothing changes then.
    pub fn push_timestep(&mut self, timestep: u64) -> (r: Result<(), Error>)
        requires
            old(self).wf(),
        ensures
            final(self).wf(),
            final(self).bytes_used() == old(self).bytes_used(),
            final(self).bytes() == old(self).bytes(),
            forall|id: StorageId| final(self).chain(id) == old(self).chain(id),
            final(self).declared() == old(self).declared(),
            final(self).scopes() == old(self).scopes(),
            forall|id: StorageId| final(self).signal(id) == old(self).signal(id),
            r == if old(self).timesteps().len() > 0 && timestep < old(self).timesteps().last() {
                Err::<(), Error>(Error::TimestepRegression)
            } else if old(self).timesteps().len() > 0 && timestep == old(self).timesteps().last() {
                Ok(())
            } else if old(self).timesteps().len() >= crate::timesteps::MAX_TIMESTEPS {
                Err(Error::TimestepIndexOverflow)
            } else {
                Ok(())
            },
            final(self).timesteps() == if r is Ok && !(old(self).timesteps().len() > 0 && timestep
                == old(self).timesteps().last()) {
                old(self).timesteps().push(timestep)
            } else {
                old(self).timesteps()
            },
    {
        let ghost before = self.changes;
        let r = self.changes.push_timesteps(Timesteps(timestep));
        proof {
            let after = self.changes;
            assert(after.timesteps().subrange(0, before.timesteps().len() as int)
                =~= before.timesteps());
            assert forall|id: StorageId| #[trigger] index_ok(&after, self.indexes@, id) by {
                assert(index_ok(&before, self.indexes@, id));
                if before.signal(id) is Some {
                    (self.indexes@[id.0 as int]->Some_0).lemma_kept(&before, &after, id);
                }
            }
        }
        r
    }
}

impl Waves {
    /// Whether the first block of a signal like `storage` can be placed:
    /// the end of the block stays within `usize`, and so does the id's
    /// successor.
    pub open spec fn can_declare(&self, storage: Storage) -> bool {
        &&& storage.id.0 < usize::MAX
        &&& self.bytes_used() + 8 + block_size(
            record_size(storage.width as nat, storage.ty.spec_bits()),
        ) <= usize::MAX
    }

    /// Declares a signal: `storage.width` units of the variant `storage.ty`
    /// under the id `storage.id`.
    ///
    /// Fails with `WidthZero` where the width is 0, with `AlreadyDeclared`
    /// where the id is taken, and with `AllocFailure` where the signal's
    /// first block does not fit; nothing changes then.
    pub fn declare_signal(&mut self, storage: Storage) -> (r: Result<(), Error>)
        requires
            old(self).wf(),
        ensures
            final(self).wf(),
            final(self).timesteps() == old(self).timesteps(),
            final(self).scopes() == old(self).scopes(),
            forall|other: StorageId|
                other != storage.id ==> final(self).signal(other) == old(self).signal(other),
            r == if storage.width == 0 {
                Err::<(), Error>(Error::WidthZero)
            } else if old(self).signal(storage.id) is Some {
                Err(Error::AlreadyDeclared)
            } else if !old(self).can_declare(storage) {
                Err(Error::AllocFailure)
            } else {
                Ok(())
            },
            r is Err ==> final(self).signal(storage.id) == old(self).signal(storage.id)
                && final(self).declared() == old(self).declared(),
            r is Ok ==> final(self).declared() == old(self).declared().push(storage) && final(self).signal(storage.id) == Some(
                SignalView::fresh(
                    storage.ty.spec_bits(),
                    storage.width as nat,
                    old(self).bytes_used(),
                ),
            ),
            final(self).bytes_used() == if r is Ok {
                used_with_block(
                    old(self).bytes_used(),
                    record_size(storage.width as nat, storage.ty.spec_bits()),
                )
            } else {
                old(self).bytes_used()
            },
            final(self).bytes() == if r is Ok {
                with_block(
                    old(self).bytes(),
                    record_size(storage.width as nat, storage.ty.spec_bits()),
                )
            } else {
                old(self).bytes()
            },
            forall|other: StorageId|
                other != storage.id ==> final(self).chain(other) == old(self).chain(other),
            final(self).chain(storage.id) == if r is Ok {
                seq![next_block(old(self).bytes_used())]
            } else {
                old(self).chain(storage.id)
            },
    {
        let id = storage.id;
        let width = storage.width as usize;
        let ghost before = self.changes;
        let (added, index) = match storage.ty {
            StorageType::TwoLogic => (
                self.changes.add_storage::<Two>(id, width),
                SignalIndex::Two(Indexed::new(width)),
            ),
            StorageType::FourLogic => (
                self.changes.add_storage::<Four>(id, width),
                SignalIndex::Four(Indexed::new(width)),
            ),
            StorageType::NineLogic => (
                self.changes.add_storage::<Nine>(id, width),
                SignalIndex::Nine(Indexed::new(width)),
            ),
        };
        let ghost after = self.changes;
        let ghost indexes0 = self.indexes@;
        proof {
            assert(after.timesteps().subrange(0, before.timesteps().len() as int)
                =~= before.timesteps());
        }
        match added {
            Err(e) => {
                proof {
                    assert forall|other: StorageId| #[trigger] index_ok(&after, indexes0, other) by {
                        assert(index_ok(&before, indexes0, other));
                        if before.signal(other) is Some {
                            (indexes0[other.0 as int]->Some_0).lemma_kept(&before, &after, other);
                        }
                    }
                }
                Err(e)
            },
            Ok(()) => {
                let at = id.0 as usize;
                while self.indexes.len() <= at
                    invariant
                        at < usize::MAX,
                        self.indexes@.len() >= indexes0.len(),
                        forall|k: int| 0 <= k < indexes0.len() ==> self.indexes@[k] == indexes0[k],
                        forall|k: int|
                            indexes0.len() <= k < self.indexes@.len() ==> self.indexes@[k] is None,
                        self.changes == after,
                        self.scopes == old(self).scopes,
                        self.storages == old(self).storages,
                    decreases at + 1 - self.indexes@.len(),
                {
                    self.indexes.push(None);
                }
                let ghost indexes1 = self.indexes@;
                self.indexes[at] = Some(index);
                self.storages.push(storage);
                proof {
                    let indexes2 = self.indexes@;
                    assert(indexes0.len() <= at ==> indexes1[at as int] is None);
                    assert forall|other: StorageId| #[trigger] index_ok(&after, indexes2, other) by {
                        assert(index_ok(&before, indexes0, other));
                        if other != id {
                            assert(other.0 != at);
                            if other.0 < indexes2.len() {
                                assert(indexes2[other.0 as int] == indexes1[other.0 as int]);
                            }
                            if before.signal(other) is Some {
                                (indexes0[other.0 as int]->Some_0).lemma_kept(
                                    &before,
                                    &after,
                                    other,
                                );
                            }
                        }
                    }
                }
                Ok(())
            },
        }
    }

    /// Variant, width and number of changes of the signal `id`, or
    /// `UnknownSignal`.
    pub fn signal_info(&self, id: StorageId) -> (r: Result<(StorageType, usize, usize), Error>)
        requires
            self.wf(),
        ensures
            match self.signal(id) {
                Some(signal) => r is Ok && (r->Ok_0).0.spec_bits() == signal.bits && (r->Ok_0).1
                    == signal.width && (r->Ok_0).2 == signal.changes.len(),
                None => r == Err::<(StorageType, usize, usize), Error>(Error::UnknownSignal),
            },
    {
        let (bits, width) = match self.changes.shape_of(id) {
            Ok(shape) => shape,
            Err(e) => {
                return Err(e);
            },
        };
        let count = match self.changes.count_of(id) {
            Ok(count) => count,
            Err(e) => {
                return Err(e);
            },
        };
        proof {
            assert(index_ok(&self.changes, self.indexes@, id));
            (self.indexes@[id.0 as int]->Some_0).lemma_bits(&self.changes, id);
        }
        let ty = if bits == 1 {
            StorageType::TwoLogic
        } else if bits == 2 {
            StorageType::FourLogic
        } else {
            StorageType::NineLogic
        };
        Ok((ty, width, count))
    }

    /// The aggregate of the changes of the signal `id` that lie at or after
    /// `window.start` and before `window.end`: their fold under the
    /// signal's aggregator, in the order in which they were appended, with
    /// the span of their timesteps. A window without a change gives the
    /// aggregator's identity.
    ///
    /// Fails with `UnknownSignal` where `id` was not declared, and with
    /// `InvalidEncoding` where the change that was appended last carries
    /// something above its last unit.
    pub fn query(&self, id: StorageId, window: Range<u64>) -> (r: Result<Aggregated, Error>)
        requires
            self.wf(),
        ensures
            self.signal(id) is None ==> r is Err && r->Err_0 == Error::UnknownSignal,
            self.signal(id) is Some && self.last_clean(id) ==> r is Ok,
            r is Err && self.signal(id) is Some ==> r->Err_0 == (Error::InvalidEncoding {
                offset: self.signal(id)->Some_0.width as usize,
            }) && !self.last_clean(id),
            r is Ok ==> self.signal(id) is Some && match r->Ok_0 {
                Aggregated::Two(element) => self.signal(id)->Some_0.bits == 1 && element.wf()
                    && element@ == window_fold::<Two, Max>(
                    self.signal(id)->Some_0,
                    self.timesteps(),
                    window,
                ),
                Aggregated::Four(element) => self.signal(id)->Some_0.bits == 2 && element.wf()
                    && element@ == window_fold::<Four, OrDominates>(
                    self.signal(id)->Some_0,
                    self.timesteps(),
                    window,
                ),
                Aggregated::Nine(element) => self.signal(id)->Some_0.bits == 4 && element.wf()
                    && element@ == window_fold::<Nine, Max>(
                    self.signal(id)->Some_0,
                    self.timesteps(),
                    window,
                ),
            },
    {
        let at = id.0 as usize;
        proof {
            assert(index_ok(&self.changes, self.indexes@, id));
        }
        if at >= self.indexes.len() {
            return Err(Error::UnknownSignal);
        }
        match &self.indexes[at] {
            None => Err(Error::UnknownSignal),
            Some(SignalIndex::Two(index)) => {
                match index.query(&self.changes, id, window) {
                    Ok(element) => Ok(Aggregated::Two(element)),
                    Err(e) => Err(e),
                }
            },
            Some(SignalIndex::Four(index)) => {
                match index.query(&self.changes, id, window) {
                    Ok(element) => Ok(Aggregated::Four(element)),
                    Err(e) => Err(e),
                }
            },
            Some(SignalIndex::Nine(index)) => {
                match index.query(&self.changes, id, window) {
                    Ok(element) => Ok(Aggregated::Nine(element)),
                    Err(e) => Err(e),
                }
            },
        }
    }
}

impl SignalIndex {
    pub closed spec fn roomy(&self) -> bool {
        match self {
            SignalIndex::Two(index) => index.roomy(),
            SignalIndex::Four(index) => index.roomy(),
            SignalIndex::Nine(index) => index.roomy(),
        }
    }

    pub closed spec fn readable(&self, changes: &ChangeBlockList, id: StorageId) -> bool {
        match self {
            SignalIndex::Two(index) => index.readable(changes, id),
            SignalIndex::Four(index) => index.readable(changes, id),
            SignalIndex::Nine(index) => index.readable(changes, id),
        }
    }

    /// Bits per unit of the signal's variant.
    fn bits(&self) -> (r: u8)
        ensures
            r == self.spec_bits(),
    {
        match self {
            SignalIndex::Two(_) => 1,
            SignalIndex::Four(_) => 2,
            SignalIndex::Nine(_) => 4,
        }
    }

    fn settle(&mut self, changes: &ChangeBlockList, id: StorageId) -> (r: Result<(), Error>)
        requires
            old(self).inv(changes, id),
            changes.wf(),
        ensures
            final(self).inv(changes, id),
            final(self).spec_bits() == old(self).spec_bits(),
            r is Ok <==> !old(self).behind() || (old(self).readable(changes, id) && old(self).roomy()),
            r is Ok ==> !final(self).behind(),
            r is Err ==> final(self).behind() && r->Err_0 == if !old(self).readable(changes, id) {
                Error::InvalidEncoding { offset: changes.signal(id)->Some_0.width as usize }
            } else {
                Error::AllocFailure
            },
    {
        match self {
            SignalIndex::Two(index) => index.settle(changes, id),
            SignalIndex::Four(index) => index.settle(changes, id),
            SignalIndex::Nine(index) => index.settle(changes, id),
        }
    }

    fn note_append(&mut self)
        requires
            !old(self).behind(),
        ensures
            final(self).behind(),
            final(self).spec_bits() == old(self).spec_bits(),
            forall|before: &ChangeBlockList, after: &ChangeBlockList, id: StorageId, part: Seq<u8>|
                old(self).inv(before, id) && before.wf() && before.timesteps().len() > 0
                    && after.timesteps() == before.timesteps() && #[trigger] appended(
                    before.signal(id)->Some_0,
                    after.signal(id),
                    (before.timesteps().len() - 1) as u32,
                    part,
                ) ==> final(self).inv(after, id),
    {
        match self {
            SignalIndex::Two(index) => index.note_append(),
            SignalIndex::Four(index) => index.note_append(),
            SignalIndex::Nine(index) => index.note_append(),
        }
    }
}

impl<'a> ChangeSlot<'a> {
    /// Bits per unit of the slot's variant.
    pub open spec fn spec_bits(&self) -> u8 {
        match self {
            ChangeSlot::Two(_) => 1,
            ChangeSlot::Four(_) => 2,
            ChangeSlot::Nine(_) => 4,
        }
    }

    /// The packed bytes behind the slot, as they are now.
    pub open spec fn raw(&self) -> Seq<u8> {
        match self {
            ChangeSlot::Two(slice) => slice.raw(),
            ChangeSlot::Four(slice) => slice.raw(),
            ChangeSlot::Nine(slice) => slice.raw(),
        }
    }

    pub open spec fn spec_width(&self) -> usize {
        match self {
            ChangeSlot::Two(slice) => slice.spec_width(),
            ChangeSlot::Four(slice) => slice.spec_width(),
            ChangeSlot::Nine(slice) => slice.spec_width(),
        }
    }

    pub open spec fn wf(&self) -> bool {
        match self {
            ChangeSlot::Two(slice) => slice.wf(),
            ChangeSlot::Four(slice) => slice.wf(),
            ChangeSlot::Nine(slice) => slice.wf(),
        }
    }

    /// The number of units of the change.
    pub fn width(&self) -> (r: usize)
        ensures
            r == self.spec_width(),
    {
        match self {
            ChangeSlot::Two(slice) => slice.width(),
            ChangeSlot::Four(slice) => slice.width(),
            ChangeSlot::Nine(slice) => slice.width(),
        }
    }
}

impl Waves {
    /// Whether one more change can be placed: in the store and in the
    /// signal's index.
    pub open spec fn can_take(&self, id: StorageId) -> bool {
        let signal = self.signal(id)->Some_0;
        &&& 2 * signal.changes.len() + 2 <= usize::MAX
        &&& (block_full(signal.changes.len()) ==> self.bytes_used() + 8 + block_size(
            record_size(signal.width, signal.bits),
        ) <= usize::MAX)
    }

    /// Appends a change to the signal `id` at the most recent timestep and
    /// lends its units, all zero, to be written. What the borrower has
    /// written is the change once the slot is given back.
    ///
    /// Fails with `UnknownSignal` where `id` was not declared, with
    /// `InvalidEncoding` where the signal's last change carries something
    /// above its last unit, with `OutOfBounds` where no timestep was pushed
    /// yet, and with `AllocFailure` where the change cannot be placed;
    /// nothing changes then.
    pub fn push_change(&mut self, id: StorageId) -> (r: Result<ChangeSlot<'_>, Error>)
        requires
            old(self).wf(),
        ensures
            final(self).wf(),
            final(self).timesteps() == old(self).timesteps(),
            final(self).declared() == old(self).declared(),
            final(self).scopes() == old(self).scopes(),
            forall|other: StorageId|
                other != id ==> final(self).signal(other) == old(self).signal(other),
            r is Ok <==> old(self).signal(id) is Some && old(self).last_clean(id) && old(self).timesteps().len() > 0 && old(self).can_take(id),
            r is Err ==> final(self).signal(id) == old(self).signal(id) && r->Err_0 == (
            if old(self).signal(id) is None {
                Error::UnknownSignal
            } else if !old(self).last_clean(id) {
                Error::InvalidEncoding { offset: old(self).signal(id)->Some_0.width as usize }
            } else if old(self).timesteps().len() == 0 {
                Error::OutOfBounds
            } else {
                Error::AllocFailure
            }),
            r is Ok ==> (r->Ok_0).wf() && (r->Ok_0).spec_bits() == old(self).signal(id)->Some_0.bits
                && (r->Ok_0).spec_width() == old(self).signal(id)->Some_0.width && (r->Ok_0).raw()
                =~= Seq::new(
                packed_len(old(self).signal(id)->Some_0.width, old(self).signal(id)->Some_0.bits),
                |k: int| 0u8,
            ),
            r is Ok ==> appended(
                old(self).signal(id)->Some_0,
                final(self).signal(id),
                (old(self).timesteps().len() - 1) as u32,
                match r->Ok_0 {
                    ChangeSlot::Two(slice) => final(slice.bytes)@,
                    ChangeSlot::Four(slice) => final(slice.bytes)@,
                    ChangeSlot::Nine(slice) => final(slice.bytes)@,
                },
            ),
            r is Ok ==> final(self).signal(id)->Some_0.offsets.last() == old(self).signal(
                id,
            )->Some_0.next_record(old(self).bytes_used()),
            final(self).bytes_used() == if r is Ok && block_full(
                old(self).signal(id)->Some_0.changes.len(),
            ) {
                used_with_block(
                    old(self).bytes_used(),
                    record_size(old(self).signal(id)->Some_0.width, old(self).signal(id)->Some_0.bits),
                )
            } else {
                old(self).bytes_used()
            },
            forall|other: StorageId|
                other != id ==> final(self).chain(other) == old(self).chain(other),
            final(self).chain(id) == if r is Ok && block_full(
                old(self).signal(id)->Some_0.changes.len(),
            ) {
                old(self).chain(id).push(next_block(old(self).bytes_used()))
            } else {
                old(self).chain(id)
            },
            final(self).bytes() == if r is Ok {
                with_record(
                    old(self).bytes(),
                    old(self).chain(id).last(),
                    record_size(old(self).signal(id)->Some_0.width, old(self).signal(id)->Some_0.bits),
                    old(self).signal(id)->Some_0.changes.len(),
                    (old(self).timesteps().len() - 1) as u32,
                    match r->Ok_0 {
                        ChangeSlot::Two(slice) => final(slice.bytes)@,
                        ChangeSlot::Four(slice) => final(slice.bytes)@,
                        ChangeSlot::Nine(slice) => final(slice.bytes)@,
                    },
                )
            } else {
                old(self).bytes()
            },
    {
        let at = id.0 as usize;
        proof {
            assert(index_ok(&self.changes, self.indexes@, id));
        }
        if at >= self.indexes.len() {
            return Err(Error::UnknownSignal);
        }
        let ghost indexes0 = self.indexes@;
        let mut taken: Option<SignalIndex> = None;
        core::mem::swap(&mut taken, &mut self.indexes[at]);
        let mut index = match taken {
            Some(index) => index,
            None => {
                assert(self.indexes@ =~= indexes0);
                return Err(Error::UnknownSignal);
            },
        };
        let ghost index0 = index;
        proof {
            index0.lemma_bits(&self.changes, id);
            if index0.behind() {
                index0.lemma_behind(&self.changes, id);
            }
        }
        let crowded = match self.changes.count_of(id) {
            Ok(count) => count > (usize::MAX - 2) / 2,
            Err(_) => true,
        };
        let settled = index.settle(&self.changes, id);
        let failure: Option<Error> = match settled {
            Err(e) => Some(e),
            Ok(()) => {
                if self.changes.timestep_count() == 0 {
                    Some(Error::OutOfBounds)
                } else if crowded || !self.changes.has_room(id) {
                    Some(Error::AllocFailure)
                } else {
                    None
                }
            },
        };
        if failure.is_none() {
            index.note_append();
        }
        let bits = index.bits();
        let ghost index1 = index;
        self.indexes[at] = Some(index);
        let ghost c1 = self.changes;
        let ghost ix = self.indexes@;
        proof {
            index0.lemma_bits(&c1, id);
            assert forall|other: StorageId| other != id implies #[trigger] index_ok(
                &c1,
                ix,
                other,
            ) by {
                assert(index_ok(&c1, indexes0, other));
                if other.0 < ix.len() {
                    assert(ix[other.0 as int] == indexes0[other.0 as int]);
                }
            }
        }
        match failure {
            Some(e) => {
                proof {
                    assert forall|other: StorageId| #[trigger] index_ok(&c1, ix, other) by {
                        if other == id {
                        }
                    }
                }
                Err(e)
            },
            None => {
                proof {
                    let before = c1.signal(id)->Some_0;
                    let stamp = (c1.timesteps().len() - 1) as u32;
                    assert forall|c2: ChangeBlockList, part: Seq<u8>|
                        c2.wf() && c2.timesteps() == c1.timesteps() && (forall|other: StorageId|
                            other != id ==> c2.signal(other) == c1.signal(other))
                            && #[trigger] appended(before, c2.signal(id), stamp, part) implies indexes_ok(
                        &c2,
                        ix,
                    ) by {
                        assert(c2.timesteps().subrange(0, c1.timesteps().len() as int)
                            =~= c1.timesteps());
                        assert forall|other: StorageId| #[trigger] index_ok(&c2, ix, other) by {
                            if other != id {
                                assert(index_ok(&c1, ix, other));
                                if c1.signal(other) is Some {
                                    (ix[other.0 as int]->Some_0).lemma_kept(&c1, &c2, other);
                                }
                            }
                        }
                    }
                }
                if bits == 1 {
                    match self.changes.push_get::<Two>(id) {
                        Ok(slice) => Ok(ChangeSlot::Two(slice)),
                        Err(e) => Err(e),
                    }
                } else if bits == 2 {
                    match self.changes.push_get::<Four>(id) {
                        Ok(slice) => Ok(ChangeSlot::Four(slice)),
                        Err(e) => Err(e),
                    }
                } else {
                    match self.changes.push_get::<Nine>(id) {
                        Ok(slice) => Ok(ChangeSlot::Nine(slice)),
                        Err(e) => Err(e),
                    }
                }
            },
        }
    }
}

/// The changes of a signal as they are handed out: each with its absolute
/// time and its packed units.
pub open spec fn records_of(signal: SignalView, timesteps: Seq<u64>) -> Seq<(u64, Seq<u8>)> {
    Seq::new(
        signal.changes.len(),
        |i: int| (time_of(signal.changes[i], timesteps), signal.changes[i].bytes),
    )
}

/// Walks the changes of one signal in the order in which they were
/// appended.
pub struct ChangeIter<'a> {
    changes: &'a ChangeBlockList,
    iter: StorageIter<'a>,
    bytes: usize,
    id: Ghost<StorageId>,
    at: Ghost<int>,
}

impl<'a> View for ChangeIter<'a> {
    type V = Seq<(u64, Seq<u8>)>;

    /// The changes still to come.
    closed spec fn view(&self) -> Seq<(u64, Seq<u8>)> {
        let signal = self.changes.signal(self.id@)->Some_0;
        records_of(signal, self.changes.timesteps()).subrange(
            self.at@,
            signal.changes.len() as int,
        )
    }
}

impl<'a> ChangeIter<'a> {
    pub closed spec fn wf(&self) -> bool {
        let signal = self.changes.signal(self.id@)->Some_0;
        &&& self.changes.wf()
        &&& self.changes.signal(self.id@) is Some
        &&& self.iter.wf()
        &&& 0 <= self.at@ <= signal.changes.len()
        &&& self.iter@ == handles(signal).subrange(self.at@, signal.changes.len() as int)
        &&& self.bytes == packed_len(signal.width, signal.bits)
    }

    /// The next change: its absolute time and its packed units. `None` once
    /// every change has come.
    pub fn next(&mut self) -> (r: Option<(u64, &'a [u8])>)
        requires
            old(self).wf(),
        ensures
            final(self).wf(),
            old(self)@.len() == 0 ==> r is None && final(self)@ == old(self)@,
            old(self)@.len() > 0 ==> r is Some && (r->Some_0).0 == old(self)@[0].0 && (
            r->Some_0).1@ == old(self)@[0].1 && final(self)@ == old(self)@.drop_first(),
    {
        let ghost signal = self.changes.signal(self.id@)->Some_0;
        let ghost at = self.at@;
        proof {
            self.changes.lemma_offsets(self.id@);
        }
        match self.iter.next() {
            None => None,
            Some(offset) => {
                proof {
                    self.changes.lemma_timestep_in_table(self.id@, at);
                    assert(handles(signal).subrange(at, signal.changes.len() as int)[0]
                        == handles(signal)[at]);
                    assert(self.changes.is_record(
                        self.id@,
                        at,
                        offset,
                        signal.width as usize,
                        signal.bits,
                    ));
                    self.at@ = at + 1;
                    assert(self.iter@ =~= handles(signal).subrange(
                        at + 1,
                        signal.changes.len() as int,
                    ));
                    assert(final(self)@ =~= old(self)@.drop_first());
                }
                match self.changes.get_raw(offset, self.bytes) {
                    Ok((time, units)) => Some((time.0, units)),
                    Err(_) => None,
                }
            },
        }
    }

    /// How many changes are still to come.
    pub fn remaining(&self) -> (r: usize)
        requires
            self.wf(),
        ensures
            r == self@.len(),
    {
        proof {
            self.changes.lemma_offsets(self.id@);
        }
        self.iter.remaining()
    }
}

impl Waves {
    /// Walks the changes of the signal `id` from the first on: exactly the
    /// changes that were appended, in their order, each with the units that
    /// were written and the timestep it was appended at.
    ///
    /// Fails with `UnknownSignal` where `id` was not declared.
    pub fn iter_changes(&self, id: StorageId) -> (r: Result<ChangeIter<'_>, Error>)
        requires
            self.wf(),
        ensures
            match self.signal(id) {
                Some(signal) => r is Ok && (r->Ok_0).wf() && (r->Ok_0)@ == records_of(
                    signal,
                    self.timesteps(),
                ),
                None => r is Err && r->Err_0 == Error::UnknownSignal,
            },
    {
        let (bits, width) = match self.changes.shape_of(id) {
            Ok(shape) => shape,
            Err(e) => {
                return Err(e);
            },
        };
        let iter = match self.changes.iter_storage(id) {
            Ok(iter) => iter,
            Err(e) => {
                return Err(e);
            },
        };
        proof {
            assert(index_ok(&self.changes, self.indexes@, id));
            (self.indexes@[id.0 as int]->Some_0).lemma_bits(&self.changes, id);
        }
        let bytes = if bits == 1 {
            crate::logic::bytes_for::<Two>(width)
        } else if bits == 2 {
            crate::logic::bytes_for::<Four>(width)
        } else {
            crate::logic::bytes_for::<Nine>(width)
        };
        let r = ChangeIter { changes: &self.changes, iter, bytes, id: Ghost(id), at: Ghost(0) };
        proof {
            let signal = self.changes.signal(id)->Some_0;
            self.changes.lemma_offsets(id);
            assert(handles(signal).subrange(0, signal.changes.len() as int) =~= handles(signal));
            assert(r@ =~= records_of(signal, self.timesteps()));
        }
        Ok(r)
    }
}

/// Round trip: a walk over a signal to which a change was appended yields
/// the walk as it was before, followed by that change, with the units that
/// were written and the time it was appended at.
pub proof fn lemma_round_trip(
    before: SignalView,
    after: SignalView,
    timesteps: Seq<u64>,
    stamp: u32,
    part: Seq<u8>,
)
    requires
        appended(before, Some(after), stamp, part),
    ensures
        records_of(after, timesteps) == records_of(before, timesteps).push(
            (timesteps[stamp as int], part),
        ),
{
    assert(records_of(after, timesteps) =~= records_of(before, timesteps).push(
        (timesteps[stamp as int], part),
    ));
}

/// Round trip, for any run of changes: a walk over a signal that had no
/// change and to which changes were appended one after the other yields
/// exactly those changes, in their order, each with the units that were
/// written and the time it was appended at.
pub proof fn lemma_round_trip_all(
    states: Seq<SignalView>,
    timesteps: Seq<u64>,
    stamps: Seq<u32>,
    parts: Seq<Seq<u8>>,
)
    requires
        states.len() == stamps.len() + 1,
        parts.len() == stamps.len(),
        states[0].changes.len() == 0,
        forall|k: int|
            0 <= k < stamps.len() ==> appended(
                states[k],
                Some(states[k + 1]),
                #[trigger] stamps[k],
                parts[k],
            ),
    ensures
        records_of(states.last(), timesteps) == Seq::new(
            stamps.len(),
            |k: int| (timesteps[stamps[k] as int], parts[k]),
        ),
    decreases stamps.len(),
{
    let n = stamps.len() as int;
    if n == 0 {
        assert(records_of(states.last(), timesteps) =~= Seq::new(
            stamps.len(),
            |k: int| (timesteps[stamps[k] as int], parts[k]),
        ));
    } else {
        let front = states.drop_last();
        assert forall|k: int| 0 <= k < n - 1 implies appended(
            front[k],
            Some(front[k + 1]),
            #[trigger] stamps.drop_last()[k],
            parts.drop_last()[k],
        ) by {
            assert(appended(states[k], Some(states[k + 1]), stamps[k], parts[k]));
        }
        lemma_round_trip_all(front, timesteps, stamps.drop_last(), parts.drop_last());
        assert(appended(states[n - 1], Some(states[n]), stamps[n - 1], parts[n - 1]));
        lemma_round_trip(states[n - 1], states[n], timesteps, stamps[n - 1], parts[n - 1]);
        assert(front.last() == states[n - 1]);
        assert(records_of(states.last(), timesteps) =~= Seq::new(
            stamps.len(),
            |k: int| (timesteps[stamps[k] as int], parts[k]),
        ));
    }
}

} // verus!
