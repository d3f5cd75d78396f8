use ligeia::aggregate::{union, Combine, Max, OrDominates, Timespan};
use ligeia::error::Error;
use ligeia::implicit_forest::{
    agg_node, largest_prefix_inside_skip, lsp, msp, Element, ImplicitForest,
};
use ligeia::logic::{Four, Logic, LogicArray, Nine, Two};

fn span(at: u64) -> Timespan {
    Timespan { start: at, end: at }
}

fn units_of<L: Logic>(element: &Element<L>) -> Vec<L> {
    let units = element.units();
    (0..units.width()).map(|i| units.get(i)).collect()
}

fn naive<L: Logic + PartialEq + core::fmt::Debug, C: Combine<L>>(
    leaves: &[(u64, Vec<L>)],
    width: usize,
) -> (Option<Timespan>, Vec<L>) {
    let mut span_so_far: Option<Timespan> = None;
    let mut units: Vec<L> = (0..width).map(|_| C::identity()).collect();
    for (at, leaf) in leaves {
        span_so_far = union(span_so_far, Some(span(*at)));
        for i in 0..width {
            units[i] = C::unit(units[i], leaf[i]);
        }
    }
    (span_so_far, units)
}

struct Lcg(u64);

impl Lcg {
    fn next(&mut self) -> u64 {
        self.0 = self.0.wrapping_mul(6364136223846793005).wrapping_add(1442695040888963407);
        self.0 >> 33
    }
}

#[test]
fn two_valued_three_changes_with_max() {
    let mut forest = ImplicitForest::<Two, Max>::new_in(1);
    for (at, value) in [(0u64, Two::Zero), (5, Two::One), (10, Two::Zero)] {
        let array = LogicArray::<Two>::new(1, value);
        assert_eq!(forest.push(span(at), &array.as_slice()), Ok(()));
    }
    assert_eq!(forest.len(), 3);
    let all = forest.range_query(0..3).ok().unwrap();
    assert_eq!(units_of(&all), vec![Two::One]);
    assert_eq!(all.span(), Some(Timespan { start: 0, end: 10 }));
    assert_eq!(units_of(&forest.range_query(0..1).ok().unwrap()), vec![Two::Zero]);
    assert_eq!(units_of(&forest.range_query(1..2).ok().unwrap()), vec![Two::One]);
    assert_eq!(units_of(&forest.range_query(2..3).ok().unwrap()), vec![Two::Zero]);
    assert_eq!(
        forest.range_query(1..2).ok().unwrap().span(),
        Some(Timespan { start: 5, end: 5 })
    );
}

#[test]
fn four_valued_or_dominates() {
    let mut forest = ImplicitForest::<Four, OrDominates>::new_in(4);
    let first = LogicArray::<Four>::from_bytes(4, vec![0b1110_0100u8]).ok().unwrap();
    let second = LogicArray::<Four>::from_bytes(4, vec![0b0000_0000u8]).ok().unwrap();
    assert_eq!(forest.push(span(0), &first.as_slice()), Ok(()));
    assert_eq!(forest.push(span(5), &second.as_slice()), Ok(()));
    let all = forest.range_query(0..2).ok().unwrap();
    assert_eq!(
        units_of(&all),
        vec![Four::Zero, Four::One, Four::Unknown, Four::HighImpedance]
    );
    assert_eq!(all.units().as_bytes(), &[0b1110_0100u8][..]);
}

#[test]
fn or_dominates_table() {
    let table = [
        (Four::Zero, Four::Zero, Four::Zero),
        (Four::One, Four::Zero, Four::One),
        (Four::Zero, Four::One, Four::One),
        (Four::One, Four::One, Four::One),
        (Four::HighImpedance, Four::Unknown, Four::HighImpedance),
        (Four::Unknown, Four::HighImpedance, Four::HighImpedance),
        (Four::Unknown, Four::One, Four::Unknown),
        (Four::Zero, Four::Unknown, Four::Unknown),
        (Four::HighImpedance, Four::Zero, Four::HighImpedance),
    ];
    for (lhs, rhs, expected) in table {
        assert_eq!(<OrDominates as Combine<Four>>::unit(lhs, rhs), expected);
    }
    assert_eq!(<OrDominates as Combine<Four>>::identity(), Four::Zero);
    assert_eq!(<OrDominates as Combine<Two>>::unit(Two::Zero, Two::One), Two::One);
    assert_eq!(<Max as Combine<Nine>>::identity(), Nine::ZeroStrong);
    assert_eq!(
        <Max as Combine<Nine>>::unit(Nine::OneWeak, Nine::UnknownStrong),
        Nine::UnknownStrong
    );
}

#[test]
fn nine_valued_three_hundred_random_changes() {
    let width = 2;
    let mut rng = Lcg(42);
    let mut forest = ImplicitForest::<Nine, Max>::with_capacity_in(width, 600);
    let mut leaves: Vec<(u64, Vec<Nine>)> = Vec::new();
    for i in 0..300u64 {
        let units: Vec<Nine> =
            (0..width).map(|_| Nine::from_bits((rng.next() % 9) as u8)).collect();
        let mut array = LogicArray::<Nine>::new(width, Nine::empty());
        for (offset, unit) in units.iter().enumerate() {
            array.set(offset, *unit);
        }
        assert_eq!(forest.push(span(i * 3), &array.as_slice()), Ok(()));
        leaves.push((i * 3, units));
    }
    assert_eq!(forest.len(), 300);
    let check = |a: usize, b: usize| {
        let got = forest.range_query(a..b).ok().unwrap();
        let (expected_span, expected_units) = naive::<Nine, Max>(&leaves[a..b], width);
        assert_eq!(units_of(&got), expected_units, "range {}..{}", a, b);
        assert_eq!(got.span(), expected_span, "range {}..{}", a, b);
    };
    check(0, 300);
    check(100, 200);
    for _ in 0..1000 {
        let a = (rng.next() % 301) as usize;
        let b = (rng.next() % 301) as usize;
        let (a, b) = if a <= b { (a, b) } else { (b, a) };
        check(a, b);
    }
}

#[test]
fn every_range_of_a_small_forest_matches_the_naive_fold() {
    let width = 5;
    let mut rng = Lcg(7);
    let mut forest = ImplicitForest::<Four, OrDominates>::new_in(width);
    let mut leaves: Vec<(u64, Vec<Four>)> = Vec::new();
    for n in 0..40u64 {
        for a in 0..=leaves.len() {
            for b in a..=leaves.len() {
                let got = forest.range_query(a..b).ok().unwrap();
                let (expected_span, expected_units) =
                    naive::<Four, OrDominates>(&leaves[a..b], width);
                assert_eq!(units_of(&got), expected_units);
                assert_eq!(got.span(), expected_span);
            }
        }
        let units: Vec<Four> =
            (0..width).map(|_| Four::from_bits((rng.next() % 4) as u8)).collect();
        let mut array = LogicArray::<Four>::new(width, Four::Zero);
        for (offset, unit) in units.iter().enumerate() {
            array.set(offset, *unit);
        }
        assert_eq!(forest.push(span(n), &array.as_slice()), Ok(()));
        leaves.push((n, units));
        assert_eq!(forest.len(), leaves.len());
        let leaf = forest.leaf(leaves.len() - 1).ok().unwrap();
        assert_eq!(units_of(leaf), leaves[leaves.len() - 1].1);
    }
}

#[test]
fn empty_ranges_give_the_identity() {
    let mut forest = ImplicitForest::<Nine, Max>::new_in(3);
    let empty = forest.range_query(0..0).ok().unwrap();
    assert_eq!(empty.span(), None);
    assert_eq!(units_of(&empty), vec![Nine::ZeroStrong; 3]);
    let array = LogicArray::<Nine>::new(3, Nine::HighImpedance);
    for at in 0..5 {
        assert_eq!(forest.push(span(at), &array.as_slice()), Ok(()));
    }
    for a in 0..=5 {
        let got = forest.range_query(a..a).ok().unwrap();
        assert_eq!(got.span(), None);
        assert_eq!(units_of(&got), vec![Nine::ZeroStrong; 3]);
    }
    // A reversed range is read as empty.
    let got = forest.range_query(4..2).ok().unwrap();
    assert_eq!(got.span(), None);
}

#[test]
fn changing_a_leaf_changes_the_whole_query() {
    let build = |middle: Two| {
        let mut forest = ImplicitForest::<Two, Max>::new_in(1);
        for (at, value) in [(0u64, Two::Zero), (1, middle), (2, Two::Zero)] {
            let array = LogicArray::<Two>::new(1, value);
            assert_eq!(forest.push(span(at), &array.as_slice()), Ok(()));
        }
        units_of(&forest.range_query(0..3).ok().unwrap())
    };
    assert_eq!(build(Two::Zero), vec![Two::Zero]);
    assert_eq!(build(Two::One), vec![Two::One]);
}

#[test]
fn forest_errors() {
    let mut forest = ImplicitForest::<Two, Max>::new_in(2);
    assert_eq!(forest.width(), 2);
    let narrow = LogicArray::<Two>::new(1, Two::One);
    assert_eq!(forest.push(span(0), &narrow.as_slice()), Err(Error::WidthMismatch));
    assert_eq!(forest.len(), 0);
    let fitting = LogicArray::<Two>::new(2, Two::One);
    assert_eq!(forest.push(span(0), &fitting.as_slice()), Ok(()));
    assert!(matches!(forest.range_query(0..2), Err(Error::OutOfBounds)));
    assert!(matches!(forest.range_query(2..2), Err(Error::OutOfBounds)));
    assert!(matches!(forest.leaf(1), Err(Error::OutOfBounds)));
    let mut wrong = Element::<Two>::empty::<Max>(3);
    assert_eq!(forest.range_query_reuse(0..1, &mut wrong), Err(Error::WidthMismatch));
    let mut acc = Element::<Two>::empty::<Max>(2);
    assert_eq!(forest.range_query_reuse(0..1, &mut acc), Ok(()));
    assert_eq!(units_of(&acc), vec![Two::One, Two::One]);
    assert_eq!(forest.range_query_reuse(0..9, &mut acc), Err(Error::OutOfBounds));
    let copy = acc.duplicate();
    assert_eq!(units_of(&copy), units_of(&acc));
    assert_eq!(copy.span(), acc.span());
}

#[test]
fn bit_tricks() {
    assert_eq!(lsp(1), 1);
    assert_eq!(lsp(12), 4);
    assert_eq!(lsp(0x8000_0000_0000_0000), 0x8000_0000_0000_0000);
    assert_eq!(msp(1), 1);
    assert_eq!(msp(12), 8);
    assert_eq!(msp(u64::MAX), 0x8000_0000_0000_0000);
    assert_eq!(largest_prefix_inside_skip(0, 6), 4);
    assert_eq!(largest_prefix_inside_skip(4, 6), 2);
    assert_eq!(largest_prefix_inside_skip(6, 16), 2);
    assert_eq!(largest_prefix_inside_skip(8, 16), 8);
    assert_eq!(largest_prefix_inside_skip(0, 16), 16);
    assert_eq!(largest_prefix_inside_skip(16, 48), 16);
    assert_eq!(agg_node(0, 2), 0);
    assert_eq!(agg_node(0, 4), 1);
    assert_eq!(agg_node(8, 8), 11);
}

#[test]
fn span_union() {
    let a = Some(Timespan { start: 3, end: 9 });
    let b = Some(Timespan { start: 5, end: 12 });
    assert_eq!(union(a, b), Some(Timespan { start: 3, end: 12 }));
    assert_eq!(union(None, b), b);
    assert_eq!(union(a, None), a);
    assert_eq!(union(None, None), None);
}
