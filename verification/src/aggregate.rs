//! Aggregators: how two adjacent spans of value changes combine into one.
//!
//! An aggregate is a timestep span and a vector of units. Two aggregates of
//! the same width combine unit by unit, under a per-unit function that is
//! associative and has an identity; their spans unite. The fold of a run of
//! leaves is what the forest's range query returns.

use crate::logic::{Four, Logic, LogicSlice, LogicSliceMut, Two};
use vstd::prelude::*;

verus! {

/// A per-unit aggregate function with its identity. The two laws make the
/// order in which a run of leaves is folded irrelevant.
pub trait Combine<L: Logic> {
    /// The aggregate of two units, the left one earlier.
    spec fn spec_unit(lhs: L, rhs: L) -> L;

    /// The unit that changes nothing when combined with another.
    spec fn spec_identity() -> L;

    fn unit(lhs: L, rhs: L) -> (r: L)
        ensures
            r == Self::spec_unit(lhs, rhs),
    ;

    fn identity() -> (r: L)
        ensures
            r == Self::spec_identity(),
    ;

    proof fn lemma_associative(a: L, b: L, c: L)
        ensures
            Self::spec_unit(Self::spec_unit(a, b), c) == Self::spec_unit(a, Self::spec_unit(b, c)),
    ;

    proof fn lemma_identity(a: L)
        ensures
            Self::spec_unit(Self::spec_identity(), a) == a,
            Self::spec_unit(a, Self::spec_identity()) == a,
    ;
}

/// Keeps the unit with the greater bit pattern. Its identity is the unit of
/// pattern zero.
pub struct Max;

/// "Or" on zero and one, with the unknowns on top: high impedance dominates
/// unknown, unknown dominates one, one dominates zero.
pub struct OrDominates;

impl<L: Logic> Combine<L> for Max {
    open spec fn spec_unit(lhs: L, rhs: L) -> L {
        if lhs.spec_to_bits() >= rhs.spec_to_bits() {
            lhs
        } else {
            rhs
        }
    }

    open spec fn spec_identity() -> L {
        L::spec_from_bits(0)
    }

    fn unit(lhs: L, rhs: L) -> (r: L) {
        if lhs.to_bits() >= rhs.to_bits() {
            lhs
        } else {
            rhs
        }
    }

    fn identity() -> (r: L) {
        L::from_bits(0)
    }

    proof fn lemma_associative(a: L, b: L, c: L) {
        L::lemma_encoding(a);
        L::lemma_encoding(b);
        L::lemma_encoding(c);
    }

    proof fn lemma_identity(a: L) {
        L::lemma_zero();
        L::lemma_encoding(a);
        L::lemma_encoding(L::spec_from_bits(0));
    }
}

impl Combine<Four> for OrDominates {
    open spec fn spec_unit(lhs: Four, rhs: Four) -> Four {
        match (lhs, rhs) {
            (Four::Zero, Four::Zero) => Four::Zero,
            (Four::One, Four::Zero) => Four::One,
            (Four::Zero, Four::One) => Four::One,
            (Four::One, Four::One) => Four::One,
            (Four::HighImpedance, _) => Four::HighImpedance,
            (_, Four::HighImpedance) => Four::HighImpedance,
            (Four::Unknown, _) => Four::Unknown,
            (_, Four::Unknown) => Four::Unknown,
        }
    }

    open spec fn spec_identity() -> Four {
        Four::Zero
    }

    fn unit(lhs: Four, rhs: Four) -> (r: Four) {
        match (lhs, rhs) {
            (Four::Zero, Four::Zero) => Four::Zero,
            (Four::One, Four::Zero) => Four::One,
            (Four::Zero, Four::One) => Four::One,
            (Four::One, Four::One) => Four::One,
            (Four::HighImpedance, _) => Four::HighImpedance,
            (_, Four::HighImpedance) => Four::HighImpedance,
            (Four::Unknown, _) => Four::Unknown,
            (_, Four::Unknown) => Four::Unknown,
        }
    }

    fn identity() -> (r: Four) {
        Four::Zero
    }

    proof fn lemma_associative(a: Four, b: Four, c: Four) {
    }

    proof fn lemma_identity(a: Four) {
    }
}

impl Combine<Two> for OrDominates {
    open spec fn spec_unit(lhs: Two, rhs: Two) -> Two {
        match (lhs, rhs) {
            (Two::Zero, Two::Zero) => Two::Zero,
            _ => Two::One,
        }
    }

    open spec fn spec_identity() -> Two {
        Two::Zero
    }

    fn unit(lhs: Two, rhs: Two) -> (r: Two) {
        match (lhs, rhs) {
            (Two::Zero, Two::Zero) => Two::Zero,
            _ => Two::One,
        }
    }

    fn identity() -> (r: Two) {
        Two::Zero
    }

    proof fn lemma_associative(a: Two, b: Two, c: Two) {
    }

    proof fn lemma_identity(a: Two) {
    }
}

/// The timesteps that a span of value changes covers: the first and the
/// last, both included.
#[derive(Debug, Clone, Copy, PartialEq, Eq, Structural)]
pub struct Timespan {
    pub start: u64,
    pub end: u64,
}

/// The union of two spans; `None` is the span of no change at all.
pub open spec fn span_union(a: Option<Timespan>, b: Option<Timespan>) -> Option<Timespan> {
    match (a, b) {
        (None, _) => b,
        (_, None) => a,
        (Some(x), Some(y)) => Some(
            Timespan {
                start: if x.start <= y.start {
                    x.start
                } else {
                    y.start
                },
                end: if x.end >= y.end {
                    x.end
                } else {
                    y.end
                },
            },
        ),
    }
}

/// The union of two spans.
pub fn union(a: Option<Timespan>, b: Option<Timespan>) -> (r: Option<Timespan>)
    ensures
        r == span_union(a, b),
{
    match (a, b) {
        (None, _) => b,
        (_, None) => a,
        (Some(x), Some(y)) => Some(
            Timespan {
                start: if x.start <= y.start {
                    x.start
                } else {
                    y.start
                },
                end: if x.end >= y.end {
                    x.end
                } else {
                    y.end
                },
            },
        ),
    }
}

/// What a span of value changes amounts to: the timesteps it covers and the
/// aggregate of its values, unit by unit.
pub struct Aggregate<L> {
    pub span: Option<Timespan>,
    pub units: Seq<L>,
}

/// Two vectors of units combined unit by unit.
pub open spec fn combine_units<L: Logic, C: Combine<L>>(lhs: Seq<L>, rhs: Seq<L>) -> Seq<L> {
    Seq::new(lhs.len(), |i: int| C::spec_unit(lhs[i], rhs[i]))
}

/// The aggregate of `lhs`'s span followed by `rhs`'s span.
pub open spec fn combine<L: Logic, C: Combine<L>>(lhs: Aggregate<L>, rhs: Aggregate<L>) -> Aggregate<
    L,
> {
    Aggregate { span: span_union(lhs.span, rhs.span), units: combine_units::<L, C>(lhs.units, rhs.units) }
}

/// The aggregate of no change: no span, and the identity in every unit.
pub open spec fn empty<L: Logic, C: Combine<L>>(width: nat) -> Aggregate<L> {
    Aggregate { span: None, units: Seq::new(width, |i: int| C::spec_identity()) }
}

/// The reference fold: the leaves combined one after the other, from the
/// left, starting from the empty aggregate.
pub open spec fn fold<L: Logic, C: Combine<L>>(leaves: Seq<Aggregate<L>>, width: nat) -> Aggregate<
    L,
>
    decreases leaves.len(),
{
    if leaves.len() == 0 {
        empty::<L, C>(width)
    } else {
        combine::<L, C>(fold::<L, C>(leaves.drop_last(), width), leaves.last())
    }
}

/// Every leaf has `width` units.
pub open spec fn all_of_width<L>(leaves: Seq<Aggregate<L>>, width: nat) -> bool {
    forall|i: int| 0 <= i < leaves.len() ==> (#[trigger] leaves[i]).units.len() == width
}

/// Combining is associative.
pub proof fn lemma_combine_associative<L: Logic, C: Combine<L>>(
    a: Aggregate<L>,
    b: Aggregate<L>,
    c: Aggregate<L>,
)
    requires
        a.units.len() == b.units.len(),
        b.units.len() == c.units.len(),
    ensures
        combine::<L, C>(combine::<L, C>(a, b), c) == combine::<L, C>(a, combine::<L, C>(b, c)),
{
    let l = combine::<L, C>(combine::<L, C>(a, b), c);
    let r = combine::<L, C>(a, combine::<L, C>(b, c));
    assert forall|i: int| 0 <= i < a.units.len() implies l.units[i] == r.units[i] by {
        C::lemma_associative(a.units[i], b.units[i], c.units[i]);
    }
    assert(l.units =~= r.units);
}

/// The empty aggregate is an identity on both sides.
pub proof fn lemma_combine_identity<L: Logic, C: Combine<L>>(a: Aggregate<L>)
    ensures
        combine::<L, C>(empty::<L, C>(a.units.len()), a) == a,
        combine::<L, C>(a, empty::<L, C>(a.units.len())) == a,
{
    let e = empty::<L, C>(a.units.len());
    assert forall|i: int| 0 <= i < a.units.len() implies combine::<L, C>(e, a).units[i]
        == a.units[i] && combine::<L, C>(a, e).units[i] == a.units[i] by {
        C::lemma_identity(a.units[i]);
    }
    assert(combine::<L, C>(e, a).units =~= a.units);
    assert(combine::<L, C>(a, e).units =~= a.units);
}

/// A fold has the width it was asked for.
pub proof fn lemma_fold_width<L: Logic, C: Combine<L>>(leaves: Seq<Aggregate<L>>, width: nat)
    ensures
        fold::<L, C>(leaves, width).units.len() == width,
    decreases leaves.len(),
{
    if leaves.len() > 0 {
        lemma_fold_width::<L, C>(leaves.drop_last(), width);
    }
}

/// The fold of one leaf is that leaf.
pub proof fn lemma_fold_single<L: Logic, C: Combine<L>>(leaf: Aggregate<L>)
    ensures
        fold::<L, C>(seq![leaf], leaf.units.len()) == leaf,
{
    let s = seq![leaf];
    assert(s.drop_last() =~= Seq::<Aggregate<L>>::empty());
    assert(fold::<L, C>(s.drop_last(), leaf.units.len()) == empty::<L, C>(leaf.units.len()));
    lemma_combine_identity::<L, C>(leaf);
}

/// The fold of two runs laid end to end is the combination of their folds:
/// a run may be folded in any grouping that keeps the order.
pub proof fn lemma_fold_concat<L: Logic, C: Combine<L>>(
    first: Seq<Aggregate<L>>,
    second: Seq<Aggregate<L>>,
    width: nat,
)
    requires
        all_of_width(first, width),
        all_of_width(second, width),
    ensures
        fold::<L, C>(first + second, width) == combine::<L, C>(
            fold::<L, C>(first, width),
            fold::<L, C>(second, width),
        ),
    decreases second.len(),
{
    lemma_fold_width::<L, C>(first, width);
    if second.len() == 0 {
        assert(first + second =~= first);
        lemma_combine_identity::<L, C>(fold::<L, C>(first, width));
    } else {
        let whole = first + second;
        assert(whole.drop_last() =~= first + second.drop_last());
        assert(whole.last() == second.last());
        lemma_fold_concat::<L, C>(first, second.drop_last(), width);
        lemma_fold_width::<L, C>(second.drop_last(), width);
        lemma_combine_associative::<L, C>(
            fold::<L, C>(first, width),
            fold::<L, C>(second.drop_last(), width),
            second.last(),
        );
    }
}

/// Folds `rhs` into `lhs`, unit by unit: afterwards every unit of `lhs` is
/// the aggregate of what it was and the unit of `rhs` at the same offset.
pub fn combine_slices<L: Logic, C: Combine<L>>(lhs: &mut LogicSliceMut<'_, L>, rhs: &LogicSlice<'_, L>)
    requires
        old(lhs).wf(),
        rhs.wf(),
        old(lhs)@.len() == rhs@.len(),
    ensures
        final(lhs).wf(),
        final(lhs)@ == combine_units::<L, C>(old(lhs)@, rhs@),
        final(lhs).spec_width() == old(lhs).spec_width(),
        final(final(lhs).bytes)@ == final(old(lhs).bytes)@,
{
    let width = rhs.width();
    let mut i: usize = 0;
    while i < width
        invariant
            i <= width,
            lhs.wf(),
            rhs.wf(),
            width == rhs@.len(),
            lhs@.len() == width,
            lhs.spec_width() == old(lhs).spec_width(),
            final(lhs.bytes)@ == final(old(lhs).bytes)@,
            forall|j: int| 0 <= j < i ==> lhs@[j] == C::spec_unit(old(lhs)@[j], rhs@[j]),
            forall|j: int| i <= j < width ==> lhs@[j] == old(lhs)@[j],
        decreases width - i,
    {
        let merged = C::unit(lhs.get(i), rhs.get(i));
        lhs.set(i, merged);
        i += 1;
    }
    assert(lhs@ =~= combine_units::<L, C>(old(lhs)@, rhs@));
}

} // verus!
