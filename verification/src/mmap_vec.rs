//! An append-only log of items of varying length, in one growing byte
//! region.
//!
//! The region doubles when an item might not fit. What backs the region,
//! the heap or a file mapping, is the allocator's business; the log sees
//! bytes.

use crate::bytes::{range_mut, splice, lemma_splice};
use core::marker::PhantomData;
use vstd::prelude::*;
use vstd::slice::slice_subrange;

verus! {

/// The size of a page, which a region's capacity is a multiple of.
pub const PAGE_SIZE: usize = 4096;

/// A family of items of varying length, with what an item's layout depends
/// on.
pub trait VariableLength {
    type Meta: Copy;

    type DefaultReadData;
}

/// The meta of a family whose items' layout depends on nothing.
#[derive(Debug, Clone, Copy, PartialEq, Eq, Structural)]
pub struct NoMeta;

/// An item that can be written into a log of the family `Parent`.
pub trait VariableWrite<Parent: VariableLength>: Sized {
    /// The most bytes that an item takes. Should be small.
    spec fn spec_max_size(meta: Parent::Meta) -> usize;

    /// The bytes of the item.
    spec fn encoded(self, meta: Parent::Meta) -> Seq<u8>;

    fn max_size(meta: Parent::Meta) -> (r: usize)
        ensures
            r == Self::spec_max_size(meta),
    ;

    /// Writes the item to the front of `b` and returns the number of bytes
    /// written.
    fn write_variable(self, meta: Parent::Meta, b: &mut [u8]) -> (n: usize)
        requires
            old(b)@.len() >= Self::spec_max_size(meta),
        ensures
            n == self.encoded(meta).len(),
            n <= Self::spec_max_size(meta),
            final(b)@ == splice(old(b)@, 0, self.encoded(meta)),
    ;
}

/// An item that can be read out of a log of the family `Parent`.
pub trait VariableRead<Parent: VariableLength>: Sized {
    /// What the bytes at the front of a region decode to, and how many of
    /// them the item takes; `None` where they are no item.
    spec fn decoded(meta: Parent::Meta, b: Seq<u8>) -> Option<(Self, usize)>;

    fn read_variable(meta: Parent::Meta, b: &[u8]) -> (r: Option<(Self, usize)>)
        ensures
            r == Self::decoded(meta, b@),
            r is Some ==> (r->Some_0).1 <= b@.len(),
    ;
}

/// An item whose size depends on the meta alone.
pub trait ConsistentSize<Parent: VariableLength> {
    spec fn spec_size(meta: Parent::Meta) -> usize;

    fn size(meta: Parent::Meta) -> (r: usize)
        ensures
            r == Self::spec_size(meta),
    ;
}

/// Marks a log that may grow.
pub struct ReallocEnabled;

/// Marks a log that must stay within its first capacity.
pub struct ReallocDisabled;

/// Whether a log may grow.
pub trait ReallocOption {
    spec fn spec_enabled() -> bool;

    fn enabled() -> (r: bool)
        ensures
            r == Self::spec_enabled(),
    ;
}

impl ReallocOption for ReallocEnabled {
    open spec fn spec_enabled() -> bool {
        true
    }

    fn enabled() -> (r: bool) {
        true
    }
}

impl ReallocOption for ReallocDisabled {
    open spec fn spec_enabled() -> bool {
        false
    }

    fn enabled() -> (r: bool) {
        false
    }
}

/// An appendable log of items of the family `T`.
pub struct VarMmapVec<T: VariableLength, Realloc: ReallocOption> {
    data: Vec<u8>,
    offset: usize,
    marker: PhantomData<(T, Realloc)>,
}

/// The capacity `cap`, which is not 0, doubled until it is `wanted` at
/// least, and never above the greatest `usize`.
pub open spec fn doubled(cap: int, wanted: int) -> int
    decreases usize::MAX - cap,
{
    if cap >= wanted || cap >= usize::MAX || cap < 1 {
        cap
    } else if cap <= usize::MAX / 2 {
        doubled(2 * cap, wanted)
    } else {
        doubled(usize::MAX as int, wanted)
    }
}

/// The capacity that a wish for `cap` bytes is rounded up to: the next
/// multiple of the page size.
pub open spec fn page_up(cap: int) -> int {
    if cap % 4096 == 0 {
        cap
    } else {
        cap + (4096 - cap % 4096)
    }
}

impl<T: VariableLength, Realloc: ReallocOption> VarMmapVec<T, Realloc> {
    /// What was written so far.
    pub closed spec fn written(&self) -> Seq<u8> {
        self.data@.subrange(0, self.offset as int)
    }

    /// The size of the region.
    pub closed spec fn cap(&self) -> nat {
        self.data@.len()
    }

    /// The whole region, written or not.
    pub closed spec fn region(&self) -> Seq<u8> {
        self.data@
    }

    /// What was written lies in the region.
    pub closed spec fn wf(&self) -> bool {
        self.offset <= self.data@.len()
    }

    /// A log of one page, with nothing written.
    pub fn create() -> (r: Self)
        ensures
            r.wf(),
            r.cap() == PAGE_SIZE,
            r.written() == Seq::<u8>::empty(),
    {
        Self::create_with_capacity(PAGE_SIZE)
    }

    /// A log with room for at least `cap` bytes, rounded up to whole pages,
    /// with nothing written. A wish that cannot be rounded up is taken as it
    /// is.
    pub fn create_with_capacity(cap: usize) -> (r: Self)
        ensures
            r.wf(),
            r.cap() == if page_up(cap as int) <= usize::MAX {
                page_up(cap as int)
            } else {
                cap as int
            },
            r.written() == Seq::<u8>::empty(),
    {
        let rest = cap % PAGE_SIZE;
        let size = if rest == 0 {
            cap
        } else if cap <= usize::MAX - (PAGE_SIZE - rest) {
            cap + (PAGE_SIZE - rest)
        } else {
            cap
        };
        let mut data: Vec<u8> = Vec::new();
        crate::bytes::extend_zeroed(&mut data, size);
        let r = VarMmapVec { data, offset: 0, marker: PhantomData };
        assert(r.written() =~= Seq::<u8>::empty());
        r
    }

    /// The offset at which the next item will lie.
    pub fn current_offset(&self) -> (r: u64)
        requires
            self.wf(),
        ensures
            r == self.written().len(),
    {
        self.offset as u64
    }

    /// Whether the log takes one more item: a log that may grow, for as
    /// long as the item and one byte more end within `usize`; a log that
    /// must not grow, where the item is sure to fit.
    pub open spec fn takes<Data: VariableWrite<T>>(&self, meta: T::Meta) -> bool {
        if Realloc::spec_enabled() {
            self.written().len() + Data::spec_max_size(meta) + 1 <= usize::MAX
        } else {
            self.written().len() + Data::spec_max_size(meta) < self.cap()
        }
    }

    /// Appends `data` and returns the offset at which it lies. Where the
    /// item might not fit, the region is doubled until it does.
    ///
    /// Gives `None`, and changes nothing, where the region would have to
    /// grow and must not, or cannot.
    pub fn push<Data: VariableWrite<T>>(&mut self, meta: T::Meta, data: Data) -> (r: Option<u64>)
        requires
            old(self).wf(),
        ensures
            final(self).wf(),
            r == if old(self).takes::<Data>(meta) {
                Some(old(self).written().len() as u64)
            } else {
                None
            },
            final(self).written() == if r is Some {
                old(self).written() + data.encoded(meta)
            } else {
                old(self).written()
            },
            final(self).cap() == if r is Some && old(self).written().len() + Data::spec_max_size(
                meta,
            ) >= old(self).cap() {
                doubled(
                    if old(self).cap() == 0 {
                        1
                    } else {
                        old(self).cap() as int
                    },
                    old(self).written().len() + Data::spec_max_size(meta) + 1,
                )
            } else {
                old(self).cap() as int
            },
    {
        let need = Data::max_size(meta);
        let len = self.data.len();
        if need >= len - self.offset {
            // Room for offset + need + 1 bytes, by doubling.
            if !Realloc::enabled() || self.offset == usize::MAX || need > usize::MAX - 1
                - self.offset {
                return None;
            }
            let wanted = self.offset + need + 1;
            let mut cap = if len == 0 {
                1
            } else {
                len
            };
            let ghost first = cap;
            while cap < wanted
                invariant
                    cap >= 1,
                    cap >= len,
                    wanted <= usize::MAX,
                    doubled(cap as int, wanted as int) == doubled(first as int, wanted as int),
                decreases usize::MAX - cap,
            {
                cap = if cap <= usize::MAX / 2 {
                    cap * 2
                } else {
                    usize::MAX
                };
            }
            let ghost before = self.data@;
            crate::bytes::extend_zeroed(&mut self.data, cap - len);
            assert(self.data@.subrange(0, self.offset as int) =~= before.subrange(
                0,
                self.offset as int,
            ));
        }
        let at = self.offset;
        let ghost region = self.data@;
        let end = self.data.len();
        let n = {
            let target = range_mut(self.data.as_mut_slice(), at, end);
            data.write_variable(meta, target)
        };
        proof {
            let tail = region.subrange(at as int, end as int);
            lemma_splice(tail, 0, data.encoded(meta));
            lemma_splice(region, at as int, splice(tail, 0, data.encoded(meta)));
            assert(self.data@.subrange(0, at + n) =~= region.subrange(0, at as int)
                + data.encoded(meta));
        }
        self.offset = at + n;
        Some(at as u64)
    }

    /// Reads the item that lies at `offset`. Gives `None` where the offset
    /// is beyond what was written or the bytes there are no item.
    pub fn get_at<Data: VariableRead<T>>(&self, meta: T::Meta, offset: u64) -> (r: Option<Data>)
        requires
            self.wf(),
        ensures
            r == if offset <= self.written().len() {
                match Data::decoded(meta, self.region().subrange(offset as int, self.cap() as int)) {
                    Some((item, _)) => Some(item),
                    None => None,
                }
            } else {
                None
            },
    {
        if offset > self.offset as u64 {
            return None;
        }
        let at = offset as usize;
        match Data::read_variable(meta, slice_subrange(self.data.as_slice(), at, self.data.len())) {
            Some((item, _)) => Some(item),
            None => None,
        }
    }

    /// Lends the bytes `from .. to` of the region as a window to write
    /// items into.
    pub fn window(&mut self, from: usize, to: usize) -> (r: VarVecWindow<'_, T>)
        requires
            from <= to <= old(self).cap(),
        ensures
            r.origin == from,
            r.data@ == old(self).region().subrange(from as int, to as int),
            final(self).region() == splice(old(self).region(), from as int, final(r.data)@),
    {
        VarVecWindow {
            origin: from,
            data: range_mut(self.data.as_mut_slice(), from, to),
            marker: PhantomData,
        }
    }
}

/// A part of a log's region, to write items into from the front or from
/// the back.
///
/// The fields are public so that a lender's contract can say what it gets
/// back through `data`.
pub struct VarVecWindow<'a, T: VariableLength> {
    /// Where the window begins in the region.
    pub origin: usize,
    pub data: &'a mut [u8],
    pub marker: PhantomData<T>,
}

impl<'a, T: VariableLength> VarVecWindow<'a, T> {
    /// Where the window begins in the region.
    pub fn offset_in_mapping(&self) -> (r: usize)
        ensures
            r == self.origin,
    {
        self.origin
    }

    /// The number of bytes of the window.
    pub fn len(&self) -> (r: usize)
        ensures
            r == old(self.data)@.len(),
    {
        self.data.len()
    }

    /// Splits the first `size` bytes off as a window of their own; what is
    /// left begins behind them.
    pub fn take_window(self, size: usize) -> (r: (VarVecWindow<'a, T>, VarVecWindow<'a, T>))
        requires
            size <= self.data@.len(),
            self.origin + size <= usize::MAX,
        ensures
            r.0.origin == self.origin,
            r.0.data@ == old(self.data)@.subrange(0, size as int),
            r.1.origin == self.origin + size,
            r.1.data@ == old(self.data)@.subrange(size as int, old(self.data)@.len() as int),
            final(self.data)@ == final(r.0.data)@ + final(r.1.data)@,
    {
        let origin = self.origin;
        let (first, second) = self.data.split_at_mut(size);
        (
            VarVecWindow { origin, data: first, marker: PhantomData },
            VarVecWindow { origin: origin + size, data: second, marker: PhantomData },
        )
    }

    /// Writes `data` at the front of the window. What is left of the window
    /// begins behind the item.
    pub fn push<Data: VariableWrite<T>>(self, meta: T::Meta, data: Data) -> (r: VarVecWindow<'a, T>)
        requires
            self.data@.len() >= Data::spec_max_size(meta),
            self.origin + self.data@.len() <= usize::MAX,
        ensures
            r.origin == self.origin + data.encoded(meta).len(),
            r.data@ == old(self.data)@.subrange(
                data.encoded(meta).len() as int,
                old(self.data)@.len() as int,
            ),
            final(self.data)@ == data.encoded(meta) + final(r.data)@,
    {
        let origin = self.origin;
        let bytes = self.data;
        let ghost before = bytes@;
        let n = data.write_variable(meta, bytes);
        proof {
            lemma_splice(before, 0, data.encoded(meta));
        }
        let (first, second) = bytes.split_at_mut(n);
        proof {
            assert(first@ =~= data.encoded(meta));
            assert(second@ =~= before.subrange(n as int, before.len() as int));
        }
        VarVecWindow { origin: origin + n, data: second, marker: PhantomData }
    }

    /// Writes `data` at the back of the window. What is left of the window
    /// ends before the item.
    pub fn push_rev<Data: VariableWrite<T> + ConsistentSize<T>>(
        self,
        meta: T::Meta,
        data: Data,
    ) -> (r: VarVecWindow<'a, T>)
        requires
            <Data as ConsistentSize<T>>::spec_size(meta) <= self.data@.len(),
            <Data as ConsistentSize<T>>::spec_size(meta) >= <Data as VariableWrite<
                T,
            >>::spec_max_size(meta),
            data.encoded(meta).len() == <Data as ConsistentSize<T>>::spec_size(meta),
        ensures
            r.origin == self.origin,
            r.data@ == old(self.data)@.subrange(
                0,
                old(self.data)@.len() - <Data as ConsistentSize<T>>::spec_size(meta),
            ),
            final(self.data)@ == final(r.data)@ + data.encoded(meta),
    {
        let origin = self.origin;
        let size = <Data as ConsistentSize<T>>::size(meta);
        let len = self.data.len();
        let (rest, dest) = self.data.split_at_mut(len - size);
        let ghost before = dest@;
        let n = data.write_variable(meta, dest);
        proof {
            lemma_splice(before, 0, data.encoded(meta));
            assert(dest@ =~= data.encoded(meta));
        }
        VarVecWindow { origin, data: rest, marker: PhantomData }
    }

    /// Reads the items of the window one behind the other, until the window
    /// ends or bytes are no item.
    pub fn iter<Data: VariableRead<T>>(&self, meta: T::Meta) -> (r: Vec<Data>)
        ensures
            r@ == items_in::<T, Data>(meta, old(self.data)@),
    {
        let mut items: Vec<Data> = Vec::new();
        let mut at: usize = 0;
        let len = self.data.len();
        let mut more = true;
        proof {
            assert(self.data@.subrange(0, len as int) =~= self.data@);
            assert(items@ + items_in::<T, Data>(meta, self.data@) =~= items_in::<T, Data>(
                meta,
                self.data@,
            ));
        }
        while more && at < len
            invariant
                at <= len,
                len == self.data@.len(),
                items_in::<T, Data>(meta, self.data@) == items@ + (if more {
                    items_in::<T, Data>(meta, self.data@.subrange(at as int, len as int))
                } else {
                    Seq::empty()
                }),
            decreases
                    (if more {
                        1 + len - at
                    } else {
                        0
                    }),
        {
            let ghost rest = self.data@.subrange(at as int, len as int);
            let ghost before = items@;
            match Data::read_variable(meta, slice_subrange(self.data, at, len)) {
                Some((item, size)) => {
                    if size == 0 {
                        more = false;
                    } else {
                        items.push(item);
                        at += size;
                        proof {
                            assert(rest.subrange(size as int, rest.len() as int)
                                =~= self.data@.subrange(at as int, len as int));
                            assert(items@ =~= before + seq![item]);
                        }
                    }
                },
                None => {
                    more = false;
                },
            }
        }
        proof {
            if more {
                assert(self.data@.subrange(at as int, len as int).len() == 0);
            }
            assert(items@ + Seq::<Data>::empty() =~= items@);
        }
        items
    }
}

/// The items that a region holds one behind the other, from its front to
/// the first place where the bytes are no item.
pub open spec fn items_in<T: VariableLength, Data: VariableRead<T>>(
    meta: T::Meta,
    b: Seq<u8>,
) -> Seq<Data>
    decreases b.len(),
{
    match Data::decoded(meta, b) {
        Some((item, size)) => if 0 < size <= b.len() {
            seq![item] + items_in::<T, Data>(meta, b.subrange(size as int, b.len() as int))
        } else {
            Seq::empty()
        },
        None => Seq::empty(),
    }
}

} // verus!
