//! The implicit forest: a segment-tree index over a signal's value changes,
//! laid out in one array with no child pointers.
//!
//! Leaf `i` lives at physical index `2 * i`. Between the leaves lie the
//! aggregates: the element at an odd index `p` summarises `s` consecutive
//! leaves, where `s` is the largest power of two that divides `p + 1`. A
//! range query folds at most two aggregates per level.

use crate::aggregate::{combine, combine_slices, empty, fold, lemma_combine_associative, lemma_combine_identity, lemma_fold_concat, lemma_fold_single, lemma_fold_width, all_of_width, union, Aggregate, Combine, Timespan};
use crate::error::Error;
use crate::logic::{Logic, LogicArray, LogicSlice};
use core::marker::PhantomData;
use core::ops::Range;
use vstd::prelude::*;
use vstd::std_specs::bits::{
    axiom_u64_leading_zeros, axiom_u64_trailing_zeros, u64_leading_zeros, u64_trailing_zeros,
};

verus! {

/// One element of the forest: a leaf or an aggregate of leaves.
pub struct Element<L: Logic> {
    pub(crate) span: Option<Timespan>,
    pub(crate) units: LogicArray<L>,
}

impl<L: Logic> View for Element<L> {
    type V = Aggregate<L>;

    open(crate) spec fn view(&self) -> Aggregate<L> {
        Aggregate { span: self.span, units: self.units@ }
    }
}

impl<L: Logic> Element<L> {
    pub open(crate) spec fn wf(&self) -> bool {
        self.units.wf()
    }

    /// The aggregate of no change, `width` units wide.
    pub fn empty<C: Combine<L>>(width: usize) -> (r: Self)
        ensures
            r.wf(),
            r@ == empty::<L, C>(width as nat),
    {
        let r = Element { span: None, units: LogicArray::new(width, C::identity()) };
        assert(r@.units =~= empty::<L, C>(width as nat).units);
        r
    }

    /// A leaf: the value `units` over the timesteps `span`.
    pub fn leaf(span: Timespan, units: &LogicSlice<'_, L>) -> (r: Self)
        requires
            units.wf(),
        ensures
            r.wf(),
            r@ == (Aggregate { span: Some(span), units: units@ }),
    {
        let mut array = LogicArray::new(units.width(), L::empty());
        {
            let mut target = array.as_slice_mut();
            target.copy_from(units);
        }
        Element { span: Some(span), units: array }
    }

    /// The timesteps that the element covers, if it covers any change.
    pub fn span(&self) -> (r: Option<Timespan>)
        ensures
            r == self@.span,
    {
        self.span
    }

    /// The aggregated units.
    pub fn units(&self) -> (r: &LogicArray<L>)
        ensures
            r@ == self@.units,
            self.wf() ==> r.wf(),
    {
        &self.units
    }

    /// A copy of the element.
    pub fn duplicate(&self) -> (r: Self)
        requires
            self.wf(),
        ensures
            r.wf(),
            r@ == self@,
    {
        let mut array = LogicArray::new(self.units.width(), L::empty());
        {
            let mut target = array.as_slice_mut();
            target.copy_from(&self.units.as_slice());
        }
        Element { span: self.span, units: array }
    }

    /// Folds `rhs` into the element: afterwards it is the aggregate of its
    /// own span followed by `rhs`'s.
    pub fn absorb<C: Combine<L>>(&mut self, rhs: &Element<L>)
        requires
            old(self).wf(),
            rhs.wf(),
            old(self)@.units.len() == rhs@.units.len(),
        ensures
            final(self).wf(),
            final(self)@ == combine::<L, C>(old(self)@, rhs@),
    {
        {
            let mut target = self.units.as_slice_mut();
            combine_slices::<L, C>(&mut target, &rhs.units.as_slice());
        }
        self.span = union(self.span, rhs.span);
    }
}

/// Whether `s` is a power of two.
pub open spec fn is_p2(s: nat) -> bool
    decreases s,
{
    s == 1 || (s > 1 && s % 2 == 0 && is_p2(s / 2))
}

/// The largest power of two that divides `x`; 1 for 0.
pub open spec fn reach(x: nat) -> nat
    decreases x,
{
    if x == 0 || x % 2 == 1 {
        1
    } else {
        2 * reach(x / 2)
    }
}

/// The largest power of two that does not exceed `x`; 1 for 0.
pub open spec fn floor_p2(x: nat) -> nat
    decreases x,
{
    if x <= 1 {
        1
    } else {
        2 * floor_p2(x / 2)
    }
}

/// The largest power of two that divides `min` and fits between `min` and
/// `max`: the width of the largest aligned aggregate that starts at `min`
/// and ends at or before `max`.
pub open spec fn aligned_skip(min: nat, max: nat) -> nat {
    let fit = floor_p2((max - min) as nat);
    if min == 0 || reach(min) >= fit {
        fit
    } else {
        reach(min)
    }
}

/// A power of two times an odd number has that power of two as its reach.
pub proof fn lemma_reach_of_product(s: nat, q: nat)
    requires
        is_p2(s),
        q % 2 == 1,
    ensures
        reach(s * q) == s,
    decreases s,
{
    if s == 1 {
        assert(s * q == q) by (nonlinear_arith)
            requires
                s == 1,
        ;
    } else {
        let h = s / 2;
        assert(s * q == 2 * (h * q)) by (nonlinear_arith)
            requires
                s == 2 * h,
        ;
        assert(h * q >= 1) by (nonlinear_arith)
            requires
                h >= 1,
                q >= 1,
        ;
        assert((s * q) / 2 == h * q);
        lemma_reach_of_product(h, q);
    }
}

/// A number is its reach times an odd number. Returns that odd number.
pub proof fn lemma_reach_shape(x: nat) -> (q: nat)
    requires
        x > 0,
    ensures
        is_p2(reach(x)),
        x == reach(x) * q,
        q % 2 == 1,
        x % 2 == 0 ==> reach(x) % 2 == 0 && reach(x) >= 2 && is_p2(reach(x) / 2),
    decreases x,
{
    if x % 2 == 1 {
        x
    } else {
        let q = lemma_reach_shape(x / 2);
        let r = reach(x / 2);
        assert(2 * (r * q) == (2 * r) * q) by (nonlinear_arith);
        assert((2 * r) / 2 == r);
        q
    }
}

/// The floor power of two of a positive number is a power of two, at most
/// the number and more than half of it.
pub proof fn lemma_floor_p2(x: nat)
    requires
        x > 0,
    ensures
        is_p2(floor_p2(x)),
        floor_p2(x) <= x < 2 * floor_p2(x),
    decreases x,
{
    if x > 1 {
        lemma_floor_p2(x / 2);
        assert((2 * floor_p2(x / 2)) / 2 == floor_p2(x / 2));
    }
}

/// Between a power of two and its double lies no other power of two.
pub proof fn lemma_p2_gap(a: nat, b: nat)
    requires
        is_p2(a),
        is_p2(b),
        a < b,
    ensures
        2 * a <= b,
    decreases a,
{
    if a > 1 {
        lemma_p2_gap(a / 2, b / 2);
    }
}

/// Of two powers of two the smaller divides the greater, and with an even
/// quotient unless they are equal. Returns the quotient.
pub proof fn lemma_p2_divides(a: nat, b: nat) -> (t: nat)
    requires
        is_p2(a),
        is_p2(b),
        a <= b,
    ensures
        b == a * t,
        t >= 1,
        a < b ==> t % 2 == 0 && 2 * a <= b,
    decreases b,
{
    if a == b {
        assert(b == a * 1) by (nonlinear_arith)
            requires
                a == b,
        ;
        1
    } else {
        lemma_p2_gap(a, b);
        let t = lemma_p2_divides(a, b / 2);
        assert(2 * (a * t) == a * (2 * t)) by (nonlinear_arith);
        assert(a * t >= a) by (nonlinear_arith)
            requires
                t >= 1,
        ;
        2 * t
    }
}

/// What `aligned_skip` is: a power of two that divides `min` and fits
/// before `max`. Returns `min` divided by it.
pub proof fn lemma_aligned_skip(min: nat, max: nat) -> (q: nat)
    requires
        min < max,
    ensures
        is_p2(aligned_skip(min, max)),
        min == aligned_skip(min, max) * q,
        min + aligned_skip(min, max) <= max,
        min % 2 == 0 && max % 2 == 0 ==> aligned_skip(min, max) % 2 == 0 && is_p2(
            aligned_skip(min, max) / 2,
        ),
{
    let d = (max - min) as nat;
    let fit = floor_p2(d);
    lemma_floor_p2(d);
    if d % 2 == 0 {
        assert(d >= 2);
        assert(fit == 2 * floor_p2(d / 2));
        lemma_floor_p2(d / 2);
        assert(fit / 2 == floor_p2(d / 2));
    }
    if min == 0 {
        assert(0 == fit * 0) by (nonlinear_arith);
        0
    } else {
        let odd = lemma_reach_shape(min);
        if reach(min) >= fit {
            let t = lemma_p2_divides(fit, reach(min));
            assert((fit * t) * odd == fit * (t * odd)) by (nonlinear_arith);
            t * odd
        } else {
            odd
        }
    }
}

/// No power of two greater than `aligned_skip` both divides `min` and fits
/// before `max`.
pub proof fn lemma_aligned_skip_largest(min: nat, max: nat, other: nat, q: nat)
    requires
        min < max,
        is_p2(other),
        other > aligned_skip(min, max),
        min == other * q,
    ensures
        min + other > max,
{
    let d = (max - min) as nat;
    let fit = floor_p2(d);
    lemma_floor_p2(d);
    if min == 0 || reach(min) >= fit {
        let t = lemma_p2_divides(fit, other);
    } else {
        let odd = lemma_reach_shape(min);
        let r = reach(min);
        let t = lemma_p2_divides(r, other);
        // min == r * odd == r * t * q with t even: odd would be even.
        assert((r * t) * q == r * (t * q)) by (nonlinear_arith);
        assert(odd == t * q) by (nonlinear_arith)
            requires
                r * odd == r * (t * q),
                r >= 1,
        ;
        let half = t / 2;
        assert(t * q == 2 * (half * q)) by (nonlinear_arith)
            requires
                t == 2 * half,
        ;
    }
}

/// A bit alone at position `t` is the reach of every number whose lowest
/// set bit is at `t`.
proof fn lemma_lowest_bit(x: u64, t: u64)
    requires
        t < 64,
        (x >> t) & 1 == 1,
        x << ((64 - t) as u64) == 0,
    ensures
        (1u64 << t) as nat == reach(x as nat),
    decreases t,
{
    if t == 0 {
        assert((x >> 0) & 1 == 1 ==> x % 2 == 1) by (bit_vector);
        assert(1u64 << 0 == 1) by (bit_vector);
    } else {
        let s = (64 - t) as u64;
        let y = x >> 1;
        let u = (t - 1) as u64;
        let v = (64 - u) as u64;
        assert(0 < t < 64 && s == 64 - t && u == t - 1 && v == 64 - u && y == x >> 1 && (x >> t) & 1
            == 1 && x << s == 0 ==> x % 2 == 0 && x != 0 && y == x / 2 && (y >> u) & 1 == 1 && y
            << v == 0 && 1u64 << t == 2 * (1u64 << u)) by (bit_vector);
        lemma_lowest_bit(y, u);
    }
}

/// A bit alone at position `e` is the floor power of two of every number
/// whose highest set bit is at `e`.
proof fn lemma_highest_bit(x: u64, e: u64)
    requires
        e < 64,
        (x >> e) & 1 != 0,
        x >> ((e + 1) as u64) == 0,
    ensures
        (1u64 << e) as nat == floor_p2(x as nat),
    decreases e,
{
    if e == 0 {
        assert((x >> 0) & 1 != 0 && x >> 1 == 0 ==> x == 1) by (bit_vector);
        assert(1u64 << 0 == 1) by (bit_vector);
    } else {
        let s = (e + 1) as u64;
        let y = x >> 1;
        let u = (e - 1) as u64;
        assert(0 < e < 64 && s == e + 1 && u == e - 1 && y == x >> 1 && (x >> e) & 1 != 0 && x >> s
            == 0 ==> x > 1 && y == x / 2 && (y >> u) & 1 != 0 && y >> e == 0 && 1u64 << e == 2 * (
        1u64 << u)) by (bit_vector);
        lemma_highest_bit(y, u);
    }
}

/// An "or" with a power of two has the lesser of the two reaches.
proof fn lemma_reach_of_or(x: u64, m: u64)
    requires
        is_p2(m as nat),
    ensures
        reach((x | m) as nat) == if x == 0 || reach(x as nat) >= m {
            m as nat
        } else {
            reach(x as nat)
        },
    decreases m,
{
    if m == 1 {
        assert((x | 1) % 2 == 1) by (bit_vector);
        if x != 0 {
            let q = lemma_reach_shape(x as nat);
        }
    } else {
        let h = m / 2;
        let y = x / 2;
        assert(m % 2 == 0 && m > 1 && h == m / 2 && y == x / 2 ==> (x % 2 == 1 ==> (x | m) % 2 == 1)
            && (x % 2 == 0 ==> (x | m) % 2 == 0 && (x | m) / 2 == y | h && (x | m) != 0))
            by (bit_vector);
        if x % 2 == 1 {
        } else {
            lemma_reach_of_or(y, h);
            if x == 0 {
                assert(y == 0);
            } else {
                assert(reach(x as nat) == 2 * reach(y as nat));
            }
        }
    }
}

/// The lowest set bit of `x`, alone: the largest power of two that divides
/// `x`.
pub fn lsp(x: u64) -> (r: u64)
    requires
        x > 0,
    ensures
        r == reach(x as nat),
{
    let t = x.trailing_zeros();
    proof {
        axiom_u64_trailing_zeros(x);
        let tz = u64_trailing_zeros(x) as u64;
        assert(tz < 64);
        assert(x << ((64 - tz) as u64) == 0);
        lemma_lowest_bit(x, tz);
    }
    1u64 << t
}

/// The highest set bit of `x`, alone: the largest power of two that does not
/// exceed `x`.
pub fn msp(x: u64) -> (r: u64)
    requires
        x > 0,
    ensures
        r == floor_p2(x as nat),
{
    let z = x.leading_zeros();
    proof {
        axiom_u64_leading_zeros(x);
        let lz = u64_leading_zeros(x);
        assert(0 <= lz < 64);
        let e = (63 - lz) as u64;
        assert(x >> ((e + 1) as u64) == 0);
        lemma_highest_bit(x, e);
    }
    1u64 << (63 - z)
}

/// The width of the largest aligned power-of-two span that starts at `min`
/// and ends at or before `max`.
pub fn largest_prefix_inside_skip(min: usize, max: usize) -> (r: usize)
    requires
        min < max,
    ensures
        r == aligned_skip(min as nat, max as nat),
{
    let fit = msp((max - min) as u64);
    proof {
        lemma_floor_p2((max - min) as nat);
        lemma_reach_of_or(min as u64, fit);
        assert(fit != 0 ==> (min as u64) | fit != 0) by (bit_vector);
    }
    let skip = lsp((min as u64) | fit);
    skip as usize
}

/// The physical index of the aggregate that covers the `skip` physical slots
/// from `start` on.
pub fn agg_node(start: usize, skip: usize) -> (r: usize)
    requires
        skip >= 2,
        start + skip / 2 <= usize::MAX,
    ensures
        r == start + skip / 2 - 1,
{
    start + skip / 2 - 1
}

/// Where a power of two, multiplied by an even number, meets a greater power
/// of two multiplied by another number, the latter... the other factor is
/// even: `s * (q + 1) == 2 * z * k` with `s > z` and `q` odd makes `k` even.
proof fn lemma_pending_even(s: nat, z: nat, q: nat, k: nat)
    requires
        is_p2(s),
        is_p2(z),
        s > z,
        q % 2 == 1,
        s * (q + 1) == 2 * z * k,
    ensures
        k % 2 == 0,
    decreases z,
{
    let sh = s / 2;
    if z == 1 {
        let r = (q + 1) / 2;
        assert(s * (q + 1) == 2 * (2 * (sh * r))) by (nonlinear_arith)
            requires
                s == 2 * sh,
                q + 1 == 2 * r,
        ;
        assert(2 * z * k == 2 * k) by (nonlinear_arith)
            requires
                z == 1,
        ;
    } else {
        let zh = z / 2;
        assert(s * (q + 1) == 2 * (sh * (q + 1))) by (nonlinear_arith)
            requires
                s == 2 * sh,
        ;
        assert(2 * z * k == 2 * (2 * zh * k)) by (nonlinear_arith)
            requires
                z == 2 * zh,
        ;
        lemma_pending_even(sh, zh, q, k);
    }
}

/// The shape of the aggregate at an odd index: it covers a power of two of
/// leaves, at least two, and lies in the middle of its span.
pub proof fn lemma_node_shape(p: int)
    requires
        p >= 1,
        p % 2 == 1,
    ensures
        is_p2(reach((p + 1) as nat)),
        is_p2(reach((p + 1) as nat) / 2),
        reach((p + 1) as nat) % 2 == 0,
        reach((p + 1) as nat) >= 2,
        2 * ((p + 1 - reach((p + 1) as nat)) / 2) + reach((p + 1) as nat) == p + 1,
        (p + 1 - reach((p + 1) as nat)) / 2 >= 0,
{
    let x = (p + 1) as nat;
    let q = lemma_reach_shape(x);
    let s = reach(x);
    assert(s * q >= s) by (nonlinear_arith)
        requires
            q >= 1,
    ;
}

/// What the aggregate at the odd index `p` holds in a forest of `count`
/// leaves: the fold of its whole span once all of it has been pushed, the
/// fold of its first half until then.
pub open spec fn expected<L: Logic, C: Combine<L>>(
    leaves: Seq<Aggregate<L>>,
    width: nat,
    p: int,
    count: int,
) -> Aggregate<L> {
    let s = reach((p + 1) as nat) as int;
    let lo = (p + 1 - s) / 2;
    if lo + s <= count {
        fold::<L, C>(leaves.subrange(lo, lo + s), width)
    } else {
        fold::<L, C>(leaves.subrange(lo, lo + s / 2), width)
    }
}

/// What the aggregate at `p` holds while a push is completing the
/// aggregates that cover up to `size` leaves: one that ends at the new leaf
/// and covers more still holds its first half.
spec fn pending<L: Logic, C: Combine<L>>(
    leaves: Seq<Aggregate<L>>,
    width: nat,
    p: int,
    count: int,
    size: int,
) -> Aggregate<L> {
    let s = reach((p + 1) as nat) as int;
    let lo = (p + 1 - s) / 2;
    if s > size && lo + s == count {
        fold::<L, C>(leaves.subrange(lo, lo + s / 2), width)
    } else {
        expected::<L, C>(leaves, width, p, count)
    }
}

/// A succinct segment-tree index over the leaves pushed so far.
pub struct ImplicitForest<L: Logic, C: Combine<L>> {
    pub(crate) width: usize,
    pub(crate) elements: Vec<Element<L>>,
    pub(crate) marker: PhantomData<C>,
}

impl<L: Logic, C: Combine<L>> ImplicitForest<L, C> {
    /// The number of units in every element.
    pub closed spec fn spec_width(&self) -> nat {
        self.width as nat
    }

    /// The leaves, in the order in which they were pushed.
    pub closed spec fn leaves(&self) -> Seq<Aggregate<L>> {
        Seq::new((self.elements@.len() / 2) as nat, |i: int| self.elements@[2 * i]@)
    }

    /// Every element has the forest's width, and every aggregate holds the
    /// fold of the leaves it covers.
    pub closed spec fn wf(&self) -> bool {
        &&& self.elements@.len() % 2 == 0
        &&& forall|i: int|
            0 <= i < self.elements@.len() ==> (#[trigger] self.elements@[i]).wf()
                && self.elements@[i]@.units.len() == self.width
        &&& forall|p: int|
            0 <= p < self.elements@.len() && p % 2 == 1 ==> (#[trigger] self.elements@[p])@
                == expected::<L, C>(
                self.leaves(),
                self.width as nat,
                p,
                self.elements@.len() as int / 2,
            )
    }

    /// Every leaf of a well-formed forest has the forest's width.
    pub proof fn lemma_leaves_width(&self)
        requires
            self.wf(),
        ensures
            all_of_width(self.leaves(), self.spec_width()),
            2 * self.leaves().len() <= usize::MAX,
    {
        vstd::std_specs::vec::axiom_spec_len(&self.elements);
        assert forall|i: int| 0 <= i < self.leaves().len() implies (
        #[trigger] self.leaves()[i]).units.len() == self.spec_width() by {
            assert(self.elements@[2 * i].wf());
        }
    }

    /// A forest without leaves, for elements of `width` units.
    pub fn new_in(width: usize) -> (r: Self)
        ensures
            r.wf(),
            r.spec_width() == width,
            r.leaves() == Seq::<Aggregate<L>>::empty(),
    {
        let r = ImplicitForest { width, elements: Vec::new(), marker: PhantomData };
        assert(r.leaves() =~= Seq::<Aggregate<L>>::empty());
        r
    }

    /// A forest without leaves that has room for `capacity` elements.
    pub fn with_capacity_in(width: usize, capacity: usize) -> (r: Self)
        ensures
            r.wf(),
            r.spec_width() == width,
            r.leaves() == Seq::<Aggregate<L>>::empty(),
    {
        let r = ImplicitForest { width, elements: Vec::with_capacity(capacity), marker: PhantomData };
        assert(r.leaves() =~= Seq::<Aggregate<L>>::empty());
        r
    }

    /// The number of units in every element.
    pub fn width(&self) -> (r: usize)
        ensures
            r == self.spec_width(),
    {
        self.width
    }

    /// The number of leaves.
    pub fn len(&self) -> (r: usize)
        ensures
            r == self.leaves().len(),
    {
        self.elements.len() / 2
    }

    /// The leaf that was pushed as the `index`-th, counting from 0.
    pub fn leaf(&self, index: usize) -> (r: Result<&Element<L>, Error>)
        requires
            self.wf(),
        ensures
            index < self.leaves().len() ==> r is Ok && r->Ok_0@ == self.leaves()[index as int]
                && r->Ok_0.wf(),
            index >= self.leaves().len() ==> r is Err && r->Err_0 == Error::OutOfBounds,
    {
        if index < self.elements.len() / 2 {
            Ok(&self.elements[2 * index])
        } else {
            Err(Error::OutOfBounds)
        }
    }

    /// Appends a leaf: the value `units` over the timesteps `span`. The
    /// aggregates that the leaf completes are folded, and a new aggregate is
    /// started behind it, so that the forest grows by two elements.
    ///
    /// Fails with `WidthMismatch` where `units` has not the forest's width,
    /// and with `AllocFailure` where two more elements cannot be indexed;
    /// the forest is then unchanged.
    #[verifier::rlimit(100)]
    #[verifier::spinoff_prover]
    pub fn push(&mut self, span: Timespan, units: &LogicSlice<'_, L>) -> (r: Result<(), Error>)
        requires
            old(self).wf(),
            units.wf(),
        ensures
            final(self).wf(),
            final(self).spec_width() == old(self).spec_width(),
            r == if units@.len() != old(self).spec_width() {
                Err::<(), Error>(Error::WidthMismatch)
            } else if 2 * old(self).leaves().len() + 2 > usize::MAX {
                Err(Error::AllocFailure)
            } else {
                Ok(())
            },
            final(self).leaves() == if r is Ok {
                old(self).leaves().push(Aggregate { span: Some(span), units: units@ })
            } else {
                old(self).leaves()
            },
    {
        if units.width() != self.width {
            return Err(Error::WidthMismatch);
        }
        if self.elements.len() >= usize::MAX - 1 {
            return Err(Error::AllocFailure);
        }
        let ghost width = self.width as nat;
        let ghost leaves0 = self.leaves();
        let ghost elements0 = self.elements@;
        let leaf = Element::leaf(span, units);
        let ghost leaves1 = leaves0.push(leaf@);
        proof {
            self.lemma_leaves_width();
        }
        self.elements.push(leaf);
        let n: usize = (self.elements.len() + 1) / 2;
        let mut size: usize = 1;
        let mut k: usize = n;
        let mut current: usize = self.elements.len() - 1;
        proof {
            assert(n == size * k) by (nonlinear_arith)
                requires
                    size == 1,
                    k == n,
            ;
            assert(leaves1.subrange(n - 1, n as int) =~= seq![leaf@]);
            lemma_fold_single::<L, C>(leaf@);
            assert forall|p: int|
                0 <= p < 2 * n - 1 && p % 2 == 1 implies (#[trigger] self.elements@[p])@
                == pending::<L, C>(leaves1, width, p, n as int, 1) by {
                lemma_node_shape(p);
                let s = reach((p + 1) as nat) as int;
                let lo = (p + 1 - s) / 2;
                assert(self.elements@[p] == elements0[p]);
                assert(leaves1.subrange(lo, lo + s / 2) =~= leaves0.subrange(lo, lo + s / 2));
                if lo + s <= n - 1 {
                    assert(leaves1.subrange(lo, lo + s) =~= leaves0.subrange(lo, lo + s));
                }
            }
            assert forall|i: int| 0 <= i < n implies (#[trigger] self.elements@[2 * i])@
                == leaves1[i] by {
                if i < n - 1 {
                    assert(self.elements@[2 * i] == elements0[2 * i]);
                }
            }
        }
        while k % 2 == 0
            invariant
                self.width == old(self).width,
                width == self.width,
                self.elements@.len() == 2 * n - 1,
                n >= 1,
                n == leaves1.len(),
                2 * n <= usize::MAX,
                is_p2(size as nat),
                k >= 1,
                n == size * k,
                current == 2 * n - size - 1,
                all_of_width(leaves1, width),
                forall|i: int|
                    0 <= i < self.elements@.len() ==> (#[trigger] self.elements@[i]).wf()
                        && self.elements@[i]@.units.len() == width,
                forall|i: int| 0 <= i < n ==> (#[trigger] self.elements@[2 * i])@ == leaves1[i],
                self.elements@[current as int]@ == fold::<L, C>(
                    leaves1.subrange(n - size, n as int),
                    width,
                ),
                forall|p: int|
                    0 <= p < 2 * n - 1 && p % 2 == 1 ==> (#[trigger] self.elements@[p])@
                        == pending::<L, C>(leaves1, width, p, n as int, size as int),
            decreases k,
        {
            proof {
                assert(size * k >= size * 2) by (nonlinear_arith)
                    requires
                        k >= 2,
                        size >= 0,
                ;
            }
            let prev = current - size;
            let ghost before = self.elements@;
            proof {
                assert(prev + 1 == (2 * size) * (k - 1)) by (nonlinear_arith)
                    requires
                        prev + 1 == 2 * n - 2 * size,
                        n == size * k,
                ;
                assert((2 * size) as nat / 2 == size as nat);
                lemma_reach_of_product((2 * size) as nat, (k - 1) as nat);
                assert(reach((prev + 1) as nat) == 2 * size);
                assert(before[prev as int]@ == pending::<L, C>(
                    leaves1,
                    width,
                    prev as int,
                    n as int,
                    size as int,
                ));
            }
            {
                let (head, tail) = self.elements.as_mut_slice().split_at_mut(current);
                head[prev].absorb::<C>(&tail[0]);
            }
            proof {
                let first = leaves1.subrange(n - 2 * size, n - size);
                let second = leaves1.subrange(n - size, n as int);
                assert(first + second =~= leaves1.subrange(n - 2 * size, n as int));
                lemma_fold_concat::<L, C>(first, second, width);
                assert(n == (2 * size) * (k / 2)) by (nonlinear_arith)
                    requires
                        n == size * k,
                        k % 2 == 0,
                ;
                let after = self.elements@;
                assert(after.len() == before.len());
                assert forall|i: int| 0 <= i < after.len() && i != prev implies after[i]
                    == before[i] by {
                    if i < current {
                        assert(after.subrange(0, current as int)[i] == before.subrange(
                            0,
                            current as int,
                        )[i]);
                    } else {
                        assert(after.subrange(current as int, after.len() as int)[i - current]
                            == before.subrange(current as int, before.len() as int)[i - current]);
                    }
                }
                assert(after[prev as int]@ == fold::<L, C>(
                    leaves1.subrange(n - 2 * size, n as int),
                    width,
                ));
                assert forall|p: int|
                    0 <= p < 2 * n - 1 && p % 2 == 1 implies (#[trigger] after[p])@ == pending::<
                    L,
                    C,
                >(leaves1, width, p, n as int, 2 * size) by {
                    lemma_node_shape(p);
                    let s = reach((p + 1) as nat);
                    if p != prev {
                        assert(after[p] == before[p]);
                        if s > size {
                            lemma_p2_gap(size as nat, s);
                        }
                    }
                }
                assert forall|i: int| 0 <= i < n implies (#[trigger] after[2 * i])@
                    == leaves1[i] by {
                    assert(after[2 * i] == before[2 * i]);
                }
            }
            current = prev;
            size = size * 2;
            k = k / 2;
        }
        proof {
            assert(2 * n == (2 * size) * k) by (nonlinear_arith)
                requires
                    n == size * k,
            ;
            assert((2 * size) as nat / 2 == size as nat);
            lemma_reach_of_product((2 * size) as nat, k as nat);
        }
        let copy = self.elements[current].duplicate();
        let ghost before = self.elements@;
        self.elements.push(copy);
        proof {
            let after = self.elements@;
            assert(self.leaves() =~= leaves1);
            assert forall|p: int| 0 <= p < after.len() && p % 2 == 1 implies (#[trigger] after[p])@
                == expected::<L, C>(self.leaves(), width, p, after.len() as int / 2) by {
                if p < 2 * n - 1 {
                    assert(after[p] == before[p]);
                    lemma_node_shape(p);
                    let s = reach((p + 1) as nat);
                    let lo = (p + 1 - s) / 2;
                    if s > size && lo + s == n {
                        let q = lemma_reach_shape((p + 1) as nat);
                        assert(s * (q + 1) == 2 * size * k) by (nonlinear_arith)
                            requires
                                s * q + s == 2 * n,
                                n == size * k,
                        ;
                        lemma_pending_even(s, size as nat, q, k as nat);
                    }
                }
            }
        }
        Ok(())
    }
}

/// Folding one more aligned run into an accumulator that already holds the
/// leaves before it gives the accumulator of the longer run.
proof fn lemma_accumulate<L: Logic, C: Combine<L>>(
    initial: Aggregate<L>,
    leaves: Seq<Aggregate<L>>,
    width: nat,
    from: int,
    c: int,
    s: int,
)
    requires
        0 <= from <= c,
        0 <= s,
        c + s <= leaves.len(),
        all_of_width(leaves, width),
        initial.units.len() == width,
    ensures
        combine::<L, C>(
            combine::<L, C>(initial, fold::<L, C>(leaves.subrange(from, c), width)),
            fold::<L, C>(leaves.subrange(c, c + s), width),
        ) == combine::<L, C>(initial, fold::<L, C>(leaves.subrange(from, c + s), width)),
{
    let done = leaves.subrange(from, c);
    let step = leaves.subrange(c, c + s);
    assert(done + step =~= leaves.subrange(from, c + s));
    lemma_fold_concat::<L, C>(done, step, width);
    lemma_fold_width::<L, C>(done, width);
    lemma_fold_width::<L, C>(step, width);
    lemma_combine_associative::<L, C>(initial, fold::<L, C>(done, width), fold::<L, C>(step, width));
}

impl<L: Logic, C: Combine<L>> ImplicitForest<L, C> {
    /// The element that a query step reads holds the fold of the aligned run
    /// of `s` leaves from leaf `c` on.
    proof fn lemma_node_value(&self, c: int, s: int, q: nat)
        requires
            self.wf(),
            0 <= c,
            is_p2(s as nat),
            s >= 1,
            2 * c == (2 * s) * q,
            c + s <= self.leaves().len(),
        ensures
            0 <= 2 * c + s - 1 < self.elements@.len(),
            self.elements@[2 * c + s - 1]@ == fold::<L, C>(
                self.leaves().subrange(c, c + s),
                self.width as nat,
            ),
    {
        let leaves = self.leaves();
        let width = self.width as nat;
        if s > 1 {
            let p = 2 * c + s - 1;
            assert(p + 1 == s * (2 * q + 1)) by (nonlinear_arith)
                requires
                    p + 1 == 2 * c + s,
                    2 * c == (2 * s) * q,
            ;
            lemma_reach_of_product(s as nat, 2 * q + 1);
            assert(self.elements@[p]@ == expected::<L, C>(
                leaves,
                width,
                p,
                self.elements@.len() as int / 2,
            ));
        } else {
            assert(leaves.subrange(c, c + 1) =~= seq![leaves[c]]);
            assert(self.elements@[2 * c].wf());
            lemma_fold_single::<L, C>(leaves[c]);
        }
    }
}

/// The upper end of a range that is read as empty when it is reversed.
pub open spec fn range_end(start: int, end: int) -> int {
    if end < start {
        start
    } else {
        end
    }
}

impl<L: Logic, C: Combine<L>> ImplicitForest<L, C> {
    /// Folds the aggregate of the leaves `r.start .. r.end` into `combined`,
    /// which is afterwards the aggregate of what it was and of those leaves.
    /// A reversed range is read as empty.
    ///
    /// Fails with `WidthMismatch` where `combined` has not the forest's
    /// width, and with `OutOfBounds` where the range reaches beyond the
    /// leaves; `combined` is then unchanged.
    pub fn range_query_reuse(&self, r: Range<usize>, combined: &mut Element<L>) -> (res: Result<
        (),
        Error,
    >)
        requires
            self.wf(),
            old(combined).wf(),
        ensures
            final(combined).wf(),
            res == if old(combined)@.units.len() != self.spec_width() {
                Err::<(), Error>(Error::WidthMismatch)
            } else if r.start > self.leaves().len() || r.end > self.leaves().len() {
                Err(Error::OutOfBounds)
            } else {
                Ok(())
            },
            final(combined)@ == if res is Ok {
                combine::<L, C>(
                    old(combined)@,
                    fold::<L, C>(
                        self.leaves().subrange(
                            r.start as int,
                            range_end(r.start as int, r.end as int),
                        ),
                        self.spec_width(),
                    ),
                )
            } else {
                old(combined)@
            },
    {
        if combined.units.width() != self.width {
            return Err(Error::WidthMismatch);
        }
        let count = self.elements.len() / 2;
        if r.start > count || r.end > count {
            return Err(Error::OutOfBounds);
        }
        let ghost width = self.width as nat;
        let ghost leaves = self.leaves();
        let ghost from = r.start as int;
        let ghost initial = combined@;
        proof {
            self.lemma_leaves_width();
            assert(leaves.subrange(from, from) =~= Seq::<Aggregate<L>>::empty());
            lemma_combine_identity::<L, C>(initial);
        }
        let mut start: usize = 2 * r.start;
        let end: usize = 2 * r.end;
        while start < end
            invariant
                self.wf(),
                combined.wf(),
                width == self.width,
                leaves == self.leaves(),
                all_of_width(leaves, width),
                initial.units.len() == width,
                combined@.units.len() == width,
                start % 2 == 0,
                end == 2 * r.end,
                r.end <= leaves.len(),
                2 * leaves.len() == self.elements@.len(),
                0 <= from,
                2 * from <= start,
                start <= end || 2 * from == start,
                combined@ == combine::<L, C>(
                    initial,
                    fold::<L, C>(leaves.subrange(from, start as int / 2), width),
                ),
            decreases end - start,
        {
            let skip = largest_prefix_inside_skip(start, end);
            let ghost c = start as int / 2;
            let ghost s = skip as int / 2;
            proof {
                let q = lemma_aligned_skip(start as nat, end as nat);
                self.lemma_node_value(c, s, q);
                lemma_accumulate::<L, C>(initial, leaves, width, from, c, s);
            }
            let node = agg_node(start, skip);
            combined.absorb::<C>(&self.elements[node]);
            start += skip;
        }
        Ok(())
    }

    /// The aggregate of the leaves `r.start .. r.end`: their fold under the
    /// aggregator, in the order in which they were pushed. A reversed range
    /// is read as empty, and the aggregate of no leaf is the empty one.
    ///
    /// Fails with `OutOfBounds` where the range reaches beyond the leaves.
    pub fn range_query(&self, r: Range<usize>) -> (res: Result<Element<L>, Error>)
        requires
            self.wf(),
        ensures
            r.start > self.leaves().len() || r.end > self.leaves().len() ==> res is Err
                && res->Err_0 == Error::OutOfBounds,
            r.start <= self.leaves().len() && r.end <= self.leaves().len() ==> res is Ok
                && res->Ok_0.wf() && res->Ok_0@ == fold::<L, C>(
                self.leaves().subrange(r.start as int, range_end(r.start as int, r.end as int)),
                self.spec_width(),
            ),
    {
        let mut combined = Element::empty::<C>(self.width);
        proof {
            let run = self.leaves().subrange(
                r.start as int,
                range_end(r.start as int, r.end as int),
            );
            lemma_fold_width::<L, C>(run, self.spec_width());
            lemma_combine_identity::<L, C>(fold::<L, C>(run, self.spec_width()));
        }
        match self.range_query_reuse(r, &mut combined) {
            Ok(()) => Ok(combined),
            Err(e) => Err(e),
        }
    }
}

/// The query of an empty range is the aggregator's identity, wherever the
/// range lies.
pub proof fn lemma_query_of_nothing<L: Logic, C: Combine<L>>(
    leaves: Seq<Aggregate<L>>,
    width: nat,
    at: int,
)
    requires
        0 <= at <= leaves.len(),
    ensures
        fold::<L, C>(leaves.subrange(at, at), width) == empty::<L, C>(width),
{
    assert(leaves.subrange(at, at) =~= Seq::<Aggregate<L>>::empty());
}

/// The query of the whole forest is the fold of all its leaves.
pub proof fn lemma_query_of_all<L: Logic, C: Combine<L>>(leaves: Seq<Aggregate<L>>, width: nat)
    ensures
        fold::<L, C>(leaves.subrange(0, leaves.len() as int), width) == fold::<L, C>(leaves, width),
{
    assert(leaves.subrange(0, leaves.len() as int) =~= leaves);
}

/// A query may be split at any leaf: the aggregate of a range is the
/// aggregate of its first part combined with that of the rest.
pub proof fn lemma_query_splits<L: Logic, C: Combine<L>>(
    leaves: Seq<Aggregate<L>>,
    width: nat,
    from: int,
    mid: int,
    to: int,
)
    requires
        0 <= from <= mid <= to <= leaves.len(),
        all_of_width(leaves, width),
    ensures
        fold::<L, C>(leaves.subrange(from, to), width) == combine::<L, C>(
            fold::<L, C>(leaves.subrange(from, mid), width),
            fold::<L, C>(leaves.subrange(mid, to), width),
        ),
{
    assert(leaves.subrange(from, mid) + leaves.subrange(mid, to) =~= leaves.subrange(from, to));
    lemma_fold_concat::<L, C>(leaves.subrange(from, mid), leaves.subrange(mid, to), width);
}

} // verus!
