use ligeia::aggregate::Timespan;
use ligeia::error::Error;
use ligeia::logic::{Four, Logic, Nine, Two};
use ligeia::meta::{
    ScopeId, Storage, StorageId, StorageType, Variable, VariableInterp,
};
use ligeia::scope::ScopesError;
use ligeia::waves::{Aggregated, ChangeSlot, Waves};

fn storage(id: u32, ty: StorageType, width: u32) -> Storage {
    Storage { id: StorageId(id), ty, width, start: 0 }
}

fn push_two(db: &mut Waves, id: u32, units: &[Two]) {
    match db.push_change(StorageId(id)).ok().unwrap() {
        ChangeSlot::Two(mut slice) => {
            for (i, unit) in units.iter().enumerate() {
                slice.set(i, *unit);
            }
        }
        _ => panic!("not two-valued"),
    }
}

fn push_four(db: &mut Waves, id: u32, units: &[Four]) {
    match db.push_change(StorageId(id)).ok().unwrap() {
        ChangeSlot::Four(mut slice) => {
            for (i, unit) in units.iter().enumerate() {
                slice.set(i, *unit);
            }
        }
        _ => panic!("not four-valued"),
    }
}

fn push_nine(db: &mut Waves, id: u32, units: &[Nine]) {
    match db.push_change(StorageId(id)).ok().unwrap() {
        ChangeSlot::Nine(mut slice) => {
            for (i, unit) in units.iter().enumerate() {
                slice.set(i, *unit);
            }
        }
        _ => panic!("not nine-valued"),
    }
}

fn two_units(found: Aggregated) -> (Option<Timespan>, Vec<Two>) {
    match found {
        Aggregated::Two(element) => {
            let units = element.units();
            (element.span(), (0..units.width()).map(|i| units.get(i)).collect())
        }
        _ => panic!("not two-valued"),
    }
}

fn four_units(found: Aggregated) -> (Option<Timespan>, Vec<Four>) {
    match found {
        Aggregated::Four(element) => {
            let units = element.units();
            (element.span(), (0..units.width()).map(|i| units.get(i)).collect())
        }
        _ => panic!("not four-valued"),
    }
}

fn nine_units(found: Aggregated) -> (Option<Timespan>, Vec<Nine>) {
    match found {
        Aggregated::Nine(element) => {
            let units = element.units();
            (element.span(), (0..units.width()).map(|i| units.get(i)).collect())
        }
        _ => panic!("not nine-valued"),
    }
}

struct Lcg(u64);

impl Lcg {
    fn next(&mut self) -> u64 {
        self.0 = self.0.wrapping_mul(6364136223846793005).wrapping_add(1442695040888963407);
        self.0 >> 33
    }
}

#[test]
fn two_valued_signal_over_time() {
    let mut db = Waves::new();
    assert_eq!(db.declare_signal(storage(0, StorageType::TwoLogic, 1)), Ok(()));
    for (at, value) in [(0u64, Two::Zero), (5, Two::One), (10, Two::Zero)] {
        assert_eq!(db.push_timestep(at), Ok(()));
        push_two(&mut db, 0, &[value]);
    }
    let (ty, width, count) = db.signal_info(StorageId(0)).ok().unwrap();
    assert_eq!((ty, width, count), (StorageType::TwoLogic, 1, 3));
    // The whole trace, then each change alone.
    let (span, units) = two_units(db.query(StorageId(0), 0..11).ok().unwrap());
    assert_eq!(units, vec![Two::One]);
    assert_eq!(span, Some(Timespan { start: 0, end: 10 }));
    assert_eq!(two_units(db.query(StorageId(0), 0..1).ok().unwrap()).1, vec![Two::Zero]);
    assert_eq!(two_units(db.query(StorageId(0), 5..6).ok().unwrap()).1, vec![Two::One]);
    assert_eq!(two_units(db.query(StorageId(0), 10..11).ok().unwrap()).1, vec![Two::Zero]);
    // Windows between changes hold nothing.
    let (span, units) = two_units(db.query(StorageId(0), 6..10).ok().unwrap());
    assert_eq!(span, None);
    assert_eq!(units, vec![Two::Zero]);
    let (span, _) = two_units(db.query(StorageId(0), 1..6).ok().unwrap());
    assert_eq!(span, Some(Timespan { start: 5, end: 5 }));
    let (span, _) = two_units(db.query(StorageId(0), 7..3).ok().unwrap());
    assert_eq!(span, None);
    let (span, _) = two_units(db.query(StorageId(0), 11..u64::MAX).ok().unwrap());
    assert_eq!(span, None);
}

#[test]
fn four_valued_round_trip() {
    let mut db = Waves::new();
    assert_eq!(db.declare_signal(storage(7, StorageType::FourLogic, 4)), Ok(()));
    assert_eq!(db.push_timestep(0), Ok(()));
    push_four(&mut db, 7, &[Four::Zero, Four::One, Four::Unknown, Four::HighImpedance]);
    assert_eq!(db.push_timestep(5), Ok(()));
    push_four(&mut db, 7, &[Four::Zero, Four::Zero, Four::Zero, Four::Zero]);

    let mut iter = db.iter_changes(StorageId(7)).ok().unwrap();
    assert_eq!(iter.remaining(), 2);
    assert_eq!(iter.next(), Some((0u64, &[0b1110_0100u8][..])));
    assert_eq!(iter.next(), Some((5u64, &[0b0000_0000u8][..])));
    assert_eq!(iter.next(), None);

    let (span, units) = four_units(db.query(StorageId(7), 0..6).ok().unwrap());
    assert_eq!(units, vec![Four::Zero, Four::One, Four::Unknown, Four::HighImpedance]);
    assert_eq!(span, Some(Timespan { start: 0, end: 5 }));
}

#[test]
fn nine_valued_random_windows() {
    let width = 2usize;
    let mut rng = Lcg(99);
    let mut db = Waves::new();
    assert_eq!(db.declare_signal(storage(1, StorageType::NineLogic, width as u32)), Ok(()));
    let mut pushed: Vec<(u64, Vec<Nine>)> = Vec::new();
    let mut now = 0u64;
    for _ in 0..300 {
        now += rng.next() % 3;
        assert_eq!(db.push_timestep(now), Ok(()));
        let units: Vec<Nine> =
            (0..width).map(|_| Nine::from_bits((rng.next() % 9) as u8)).collect();
        push_nine(&mut db, 1, &units);
        pushed.push((now, units));
    }
    assert_eq!(db.signal_info(StorageId(1)).ok().unwrap().2, 300);

    let mut iter = db.iter_changes(StorageId(1)).ok().unwrap();
    let mut seen = 0;
    while let Some((time, bytes)) = iter.next() {
        assert_eq!(time, pushed[seen].0);
        let packed = pushed[seen].1[0].to_bits() | (pushed[seen].1[1].to_bits() << 4);
        assert_eq!(bytes, &[packed][..]);
        seen += 1;
    }
    assert_eq!(seen, 300);

    let check = |from: u64, to: u64| {
        let (span, units) = nine_units(db.query(StorageId(1), from..to).ok().unwrap());
        let mut expected = vec![Nine::ZeroStrong; width];
        let mut expected_span: Option<Timespan> = None;
        for (time, leaf) in pushed.iter() {
            if from <= *time && *time < to {
                for i in 0..width {
                    if leaf[i].to_bits() > expected[i].to_bits() {
                        expected[i] = leaf[i];
                    }
                }
                expected_span = Some(match expected_span {
                    None => Timespan { start: *time, end: *time },
                    Some(span) => Timespan { start: span.start, end: *time },
                });
            }
        }
        assert_eq!(units, expected, "window {}..{}", from, to);
        assert_eq!(span, expected_span, "window {}..{}", from, to);
    };
    check(0, now + 1);
    check(0, now);
    check(100, 200);
    for _ in 0..1000 {
        let a = rng.next() % (now + 2);
        let b = rng.next() % (now + 2);
        check(a.min(b), a.max(b));
    }
}

#[test]
fn queries_see_the_change_that_is_not_yet_indexed() {
    let mut db = Waves::new();
    assert_eq!(db.declare_signal(storage(0, StorageType::TwoLogic, 3)), Ok(()));
    assert_eq!(db.push_timestep(4), Ok(()));
    push_two(&mut db, 0, &[Two::One, Two::Zero, Two::Zero]);
    let (span, units) = two_units(db.query(StorageId(0), 0..5).ok().unwrap());
    assert_eq!(units, vec![Two::One, Two::Zero, Two::Zero]);
    assert_eq!(span, Some(Timespan { start: 4, end: 4 }));
    assert_eq!(db.push_timestep(9), Ok(()));
    push_two(&mut db, 0, &[Two::Zero, Two::Zero, Two::One]);
    let (span, units) = two_units(db.query(StorageId(0), 0..10).ok().unwrap());
    assert_eq!(units, vec![Two::One, Two::Zero, Two::One]);
    assert_eq!(span, Some(Timespan { start: 4, end: 9 }));
    let (span, units) = two_units(db.query(StorageId(0), 5..10).ok().unwrap());
    assert_eq!(units, vec![Two::Zero, Two::Zero, Two::One]);
    assert_eq!(span, Some(Timespan { start: 9, end: 9 }));
    let (span, _) = two_units(db.query(StorageId(0), 0..9).ok().unwrap());
    assert_eq!(span, Some(Timespan { start: 4, end: 4 }));
}

#[test]
fn timestep_monotonicity() {
    let mut db = Waves::new();
    assert_eq!(db.declare_signal(storage(0, StorageType::TwoLogic, 1)), Ok(()));
    assert_eq!(db.push_timestep(10), Ok(()));
    push_two(&mut db, 0, &[Two::One]);
    assert_eq!(db.push_timestep(10), Ok(()));
    push_two(&mut db, 0, &[Two::Zero]);
    assert_eq!(db.push_timestep(9), Err(Error::TimestepRegression));
    let mut iter = db.iter_changes(StorageId(0)).ok().unwrap();
    assert_eq!(iter.next(), Some((10u64, &[1u8][..])));
    assert_eq!(iter.next(), Some((10u64, &[0u8][..])));
    assert_eq!(iter.next(), None);
}

#[test]
fn signals_of_mixed_variants_side_by_side() {
    let mut db = Waves::new();
    assert_eq!(db.declare_signal(storage(2, StorageType::NineLogic, 1)), Ok(()));
    assert_eq!(db.declare_signal(storage(0, StorageType::TwoLogic, 9)), Ok(()));
    assert_eq!(db.declare_signal(storage(5, StorageType::FourLogic, 2)), Ok(()));
    assert_eq!(db.list_signals(), vec![StorageId(2), StorageId(0), StorageId(5)]);
    for round in 0..400u64 {
        assert_eq!(db.push_timestep(round), Ok(()));
        push_nine(&mut db, 2, &[Nine::from_bits((round % 9) as u8)]);
        if round % 2 == 0 {
            let mut units = [Two::Zero; 9];
            units[(round % 9) as usize] = Two::One;
            push_two(&mut db, 0, &units);
        }
        if round % 3 == 0 {
            push_four(&mut db, 5, &[Four::One, Four::from_bits((round % 4) as u8)]);
        }
    }
    assert_eq!(db.signal_info(StorageId(2)).ok().unwrap().2, 400);
    assert_eq!(db.signal_info(StorageId(0)).ok().unwrap().2, 200);
    assert_eq!(db.signal_info(StorageId(5)).ok().unwrap().2, 134);
    let (_, units) = nine_units(db.query(StorageId(2), 0..8).ok().unwrap());
    assert_eq!(units, vec![Nine::OneUnknown]);
    let (_, units) = nine_units(db.query(StorageId(2), 0..400).ok().unwrap());
    assert_eq!(units, vec![Nine::HighImpedance]);
    let (span, units) = two_units(db.query(StorageId(0), 0..5).ok().unwrap());
    assert_eq!(span, Some(Timespan { start: 0, end: 4 }));
    let mut expected = [Two::Zero; 9];
    expected[0] = Two::One;
    expected[2] = Two::One;
    expected[4] = Two::One;
    assert_eq!(units, expected.to_vec());
    let (_, units) = four_units(db.query(StorageId(5), 3..10).ok().unwrap());
    // Rounds 3, 6 and 9: HighImpedance, Unknown, One.
    assert_eq!(units, vec![Four::One, Four::HighImpedance]);
    let mut count = 0;
    let mut iter = db.iter_changes(StorageId(5)).ok().unwrap();
    while let Some((time, _)) = iter.next() {
        assert_eq!(time, count * 3);
        count += 1;
    }
    assert_eq!(count, 134);
}

#[test]
fn database_errors() {
    let mut db = Waves::new();
    assert_eq!(db.declare_signal(storage(0, StorageType::TwoLogic, 0)), Err(Error::WidthZero));
    assert_eq!(db.declare_signal(storage(0, StorageType::TwoLogic, 2)), Ok(()));
    assert_eq!(
        db.declare_signal(storage(0, StorageType::FourLogic, 2)),
        Err(Error::AlreadyDeclared)
    );
    assert!(matches!(db.push_change(StorageId(0)), Err(Error::OutOfBounds)));
    assert!(matches!(db.push_change(StorageId(3)), Err(Error::UnknownSignal)));
    assert!(matches!(db.query(StorageId(3), 0..1), Err(Error::UnknownSignal)));
    assert!(matches!(db.iter_changes(StorageId(3)), Err(Error::UnknownSignal)));
    assert!(matches!(db.signal_info(StorageId(3)), Err(Error::UnknownSignal)));
    assert_eq!(db.list_signals(), vec![StorageId(0)]);
    // A query of a signal without changes gives the identity.
    let (span, units) = two_units(db.query(StorageId(0), 0..100).ok().unwrap());
    assert_eq!(span, None);
    assert_eq!(units, vec![Two::Zero, Two::Zero]);
    assert_eq!(db.push_timestep(1), Ok(()));
    {
        let slot = db.push_change(StorageId(0)).ok().unwrap();
        assert_eq!(slot.width(), 2);
    }
    let (span, units) = two_units(db.query(StorageId(0), 0..100).ok().unwrap());
    assert_eq!(span, Some(Timespan { start: 1, end: 1 }));
    assert_eq!(units, vec![Two::Zero, Two::Zero]);
}

#[test]
fn scopes_and_variables_through_the_database() {
    let mut db = Waves::new();
    assert_eq!(db.declare_scope(ScopeId(0), ScopeId(1), "top".to_string()), Ok(()));
    assert_eq!(
        db.declare_scope(ScopeId(4), ScopeId(5), "lost".to_string()),
        Err(ScopesError::InvalidParent)
    );
    let variable = Variable {
        name: "data".to_string(),
        interp: VariableInterp::Utf8 { storage: StorageId(0) },
    };
    assert_eq!(db.declare_variable(ScopeId(1), variable), Ok(()));
    let variable = Variable { name: "x".to_string(), interp: VariableInterp::Uninterpreted };
    assert_eq!(db.declare_variable(ScopeId(2), variable), Err(ScopesError::InvalidParent));
    let tree = db.scope_tree();
    assert_eq!(tree.top_level(), vec![ScopeId(1)]);
    let top = tree.get(ScopeId(1));
    assert_eq!(top.name, "top");
    assert_eq!(top.variables.len(), 1);
    assert_eq!(top.variables[0].name, "data");
}

#[test]
fn the_database_lays_its_changes_out_as_the_store_does() {
    let mut waves = Waves::new();
    assert!(waves.as_bytes().is_empty());
    assert_eq!(
        waves.declare_signal(Storage {
            id: StorageId(3),
            ty: StorageType::FourLogic,
            width: 6,
            start: 0
        }),
        Ok(())
    );
    // A header and 128 slots of 4 + 2 bytes.
    assert_eq!(waves.as_bytes().len(), 16 + 128 * 6);
    assert!(waves.as_bytes().iter().all(|b| *b == 0));
    assert_eq!(waves.push_timestep(40), Ok(()));
    match waves.push_change(StorageId(3)).ok().unwrap() {
        ChangeSlot::Four(mut slot) => {
            slot.set(0, Four::HighImpedance);
            slot.set(5, Four::One);
        }
        _ => panic!("not four-valued"),
    }
    let bytes = waves.as_bytes();
    assert_eq!(&bytes[0..8], &0u64.to_le_bytes()[..]);
    assert_eq!(&bytes[8..16], &1u64.to_le_bytes()[..]);
    assert_eq!(&bytes[16..20], &0u32.to_le_bytes()[..]);
    assert_eq!(&bytes[20..22], &[0b0000_0011u8, 0b0000_0100][..]);
    assert!(bytes[22..].iter().all(|b| *b == 0));
}
