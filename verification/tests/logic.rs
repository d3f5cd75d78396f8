use ligeia::error::Error;
use ligeia::logic::{
    bytes_for, get_unit, mask_off, set_unit, units_per_byte, Four, Logic, LogicArray,
    LogicConversionFailed, LogicSlice, Nine, Two,
};

#[test]
fn logic_array_set_get() {
    let mut array = LogicArray::<Nine>::new(1, Nine::HighImpedance);

    array.set(0, Nine::UnknownStrong);

    assert_eq!(array.get(0), Nine::UnknownStrong);
}

#[test]
fn logic_logic_array_set_get() {
    let mut array = LogicArray::<Nine>::new(1, Nine::empty());

    array.set(0, Nine::UnknownStrong);

    assert_eq!(array.get(0), Nine::UnknownStrong);
}

#[test]
fn logic_array_set_iter() {
    let mut array = LogicArray::<Two>::new(3, Two::Zero);
    array.set(0, Two::One);

    let mut iter = array.iter();
    println!("{:#08b}", array.as_bytes()[0]);
    assert_eq!(iter.next(), Some(Two::One));
    assert_eq!(iter.next(), Some(Two::Zero));
    assert_eq!(iter.next(), Some(Two::Zero));
    assert_eq!(iter.next(), None);

    let mut array = LogicArray::<Four>::new(3, Four::HighImpedance);
    array.set(0, Four::One);

    let mut iter = array.iter();
    println!("{:#08b}", array.as_bytes()[0]);
    assert_eq!(iter.next(), Some(Four::One));
    assert_eq!(iter.next(), Some(Four::HighImpedance));
    assert_eq!(iter.next(), Some(Four::HighImpedance));
    assert_eq!(iter.next(), None);

    let mut array = LogicArray::<Nine>::new(3, Nine::UnknownWeak);
    array.set(0, Nine::OneWeak);

    let mut iter = array.iter();
    assert_eq!(iter.next(), Some(Nine::OneWeak));
    assert_eq!(iter.next(), Some(Nine::UnknownWeak));
    assert_eq!(iter.next(), Some(Nine::UnknownWeak));
    assert_eq!(iter.next(), None);
}

#[test]
fn logic_logic_array_set_iter() {
    let mut array = LogicArray::<Nine>::new(1, Nine::empty());
    array.set(0, Nine::OneWeak);

    let mut iter = array.iter();
    assert_eq!(iter.next(), Some(Nine::OneWeak));
    assert_eq!(iter.next(), None);
}

#[test]
fn units_share_a_byte_from_the_low_bits_up() {
    // Zero, One, Unknown, HighImpedance packed LSB-first.
    let mut array = LogicArray::<Four>::new(4, Four::Zero);
    array.set(0, Four::Zero);
    array.set(1, Four::One);
    array.set(2, Four::Unknown);
    array.set(3, Four::HighImpedance);
    assert_eq!(array.as_bytes(), &[0b1110_0100u8][..]);

    let mut two = LogicArray::<Two>::new(10, Two::Zero);
    two.set(0, Two::One);
    two.set(9, Two::One);
    assert_eq!(two.as_bytes(), &[0b0000_0001u8, 0b0000_0010u8][..]);

    let mut nine = LogicArray::<Nine>::new(3, Nine::ZeroStrong);
    nine.set(0, Nine::HighImpedance);
    nine.set(1, Nine::OneUnknown);
    nine.set(2, Nine::UnknownWeak);
    assert_eq!(nine.as_bytes(), &[0x78u8, 0x05u8][..]);
}

#[test]
fn packed_length_rounds_up() {
    assert_eq!(units_per_byte::<Two>(), 8);
    assert_eq!(units_per_byte::<Four>(), 4);
    assert_eq!(units_per_byte::<Nine>(), 2);
    assert_eq!(bytes_for::<Two>(0), 0);
    assert_eq!(bytes_for::<Two>(1), 1);
    assert_eq!(bytes_for::<Two>(8), 1);
    assert_eq!(bytes_for::<Two>(9), 2);
    assert_eq!(bytes_for::<Four>(4), 1);
    assert_eq!(bytes_for::<Four>(5), 2);
    assert_eq!(bytes_for::<Nine>(2), 1);
    assert_eq!(bytes_for::<Nine>(3), 2);
}

#[test]
fn setter_isolation() {
    let width = 37;
    let mut array = LogicArray::<Nine>::new(width, Nine::UnknownWeak);
    assert_eq!(array.width(), width);
    for offset in 0..width {
        let before: Vec<Nine> = (0..width).map(|i| array.get(i)).collect();
        array.set(offset, Nine::OneStrong);
        for i in 0..width {
            if i == offset {
                assert_eq!(array.get(i), Nine::OneStrong);
            } else {
                assert_eq!(array.get(i), before[i]);
            }
        }
    }
    let mut iter = array.iter();
    let mut seen = 0;
    while let Some(unit) = iter.next() {
        assert_eq!(unit, Nine::OneStrong);
        seen += 1;
    }
    assert_eq!(seen, width);
}

#[test]
fn out_of_range_offsets_fail() {
    let mut array = LogicArray::<Four>::new(3, Four::Zero);
    assert_eq!(array.try_get(2), Ok(Four::Zero));
    assert_eq!(array.try_get(3), Err(Error::OutOfBounds));
    assert_eq!(array.try_set(3, Four::One), Err(Error::OutOfBounds));
    assert_eq!(array.try_set(2, Four::One), Ok(()));
    assert_eq!(array.get(2), Four::One);
    let slice = array.as_slice();
    assert_eq!(slice.try_get(2), Ok(Four::One));
    assert_eq!(slice.try_get(7), Err(Error::OutOfBounds));
    {
        let mut lent = array.as_slice_mut();
        assert_eq!(lent.try_set(5, Four::Unknown), Err(Error::OutOfBounds));
        assert_eq!(lent.try_set(0, Four::Unknown), Ok(()));
    }
    assert_eq!(array.get(0), Four::Unknown);
}

#[test]
fn mask_off_clears_the_tail() {
    // Width 3 of four-valued logic: the top two bits of the byte are tail.
    let mut bytes = vec![0b1111_1111u8];
    mask_off::<Four>(&mut bytes, 3);
    assert_eq!(bytes, vec![0b0011_1111u8]);
    assert_eq!(bytes[0] >> 6, 0);

    // Width 11 of two-valued logic: bits 3 and up of the second byte.
    let mut bytes = vec![0xFFu8, 0xFFu8];
    mask_off::<Two>(&mut bytes, 11);
    assert_eq!(bytes, vec![0xFFu8, 0b0000_0111u8]);

    // Width 1 of nine-valued logic: the high nibble.
    let mut bytes = vec![0xA5u8];
    mask_off::<Nine>(&mut bytes, 1);
    assert_eq!(bytes, vec![0x05u8]);

    // A full last byte is left alone.
    let mut bytes = vec![0xA5u8];
    mask_off::<Nine>(&mut bytes, 2);
    assert_eq!(bytes, vec![0xA5u8]);
}

#[test]
fn raw_bytes_are_checked_on_the_way_in() {
    let bytes = [0b0011_1111u8];
    let slice = LogicSlice::<Four>::from_bytes(3, &bytes).ok().unwrap();
    assert_eq!(slice.width(), 3);
    assert_eq!(slice.get(0), Four::HighImpedance);
    assert_eq!(slice.as_bytes(), &bytes[..]);

    assert!(matches!(
        LogicSlice::<Four>::from_bytes(5, &bytes),
        Err(Error::WidthMismatch)
    ));
    let dirty = [0b0111_1111u8];
    assert!(matches!(
        LogicSlice::<Four>::from_bytes(3, &dirty),
        Err(Error::InvalidEncoding { offset: 3 })
    ));
    assert!(matches!(
        LogicArray::<Four>::from_bytes(3, vec![1, 2]),
        Err(Error::WidthMismatch)
    ));
    let cleaned = LogicArray::<Four>::from_bytes(3, vec![0b0111_1111u8]).ok().unwrap();
    assert_eq!(cleaned.as_bytes(), &[0b0011_1111u8][..]);
}

#[test]
fn undefined_nine_patterns_clamp_and_are_reported() {
    assert_eq!(Nine::from_bits(8), Nine::HighImpedance);
    for pattern in 9..16u8 {
        assert_eq!(Nine::from_bits(pattern), Nine::HighImpedance);
        assert!(!Nine::defined(pattern));
    }
    let bytes = [0x21u8, 0x9Fu8];
    let slice = LogicSlice::<Nine>::from_bytes(4, &bytes).ok().unwrap();
    assert_eq!(slice.get(2), Nine::HighImpedance);
    assert_eq!(slice.validate(), Err(Error::InvalidEncoding { offset: 2 }));
    let fine = [0x21u8, 0x80u8];
    let slice = LogicSlice::<Nine>::from_bytes(4, &fine).ok().unwrap();
    assert_eq!(slice.validate(), Ok(()));
}

#[test]
fn encodings_round_trip() {
    for unit in [Two::Zero, Two::One] {
        assert_eq!(Two::from_bits(unit.to_bits()), unit);
    }
    for unit in [Four::Zero, Four::One, Four::Unknown, Four::HighImpedance] {
        assert_eq!(Four::from_bits(unit.to_bits()), unit);
    }
    let nines = [
        Nine::ZeroStrong,
        Nine::OneStrong,
        Nine::ZeroWeak,
        Nine::OneWeak,
        Nine::UnknownStrong,
        Nine::UnknownWeak,
        Nine::ZeroUnknown,
        Nine::OneUnknown,
        Nine::HighImpedance,
    ];
    for (pattern, unit) in nines.iter().enumerate() {
        assert_eq!(unit.to_bits() as usize, pattern);
        assert_eq!(Nine::from_bits(pattern as u8), *unit);
    }
    assert_eq!(Two::bits(), 1);
    assert_eq!(Four::bits(), 2);
    assert_eq!(Nine::bits(), 4);
    assert_eq!(Two::format_prefix(), "0b");
    assert_eq!(Four::format_prefix(), "0q");
    assert_eq!(Nine::format_prefix(), "0n");
    assert_eq!(Nine::empty(), Nine::UnknownWeak);
}

#[test]
fn narrowing_to_two_valued_logic() {
    assert_eq!(Two::try_from_four(Four::Zero), Ok(Two::Zero));
    assert_eq!(Two::try_from_four(Four::One), Ok(Two::One));
    assert_eq!(Two::try_from_four(Four::Unknown), Err(LogicConversionFailed));
    assert_eq!(Two::try_from_four(Four::HighImpedance), Err(LogicConversionFailed));
    assert_eq!(Two::try_from_nine(Nine::ZeroStrong), Ok(Two::Zero));
    assert_eq!(Two::try_from_nine(Nine::ZeroWeak), Ok(Two::Zero));
    assert_eq!(Two::try_from_nine(Nine::OneStrong), Ok(Two::One));
    assert_eq!(Two::try_from_nine(Nine::OneWeak), Ok(Two::One));
    for lossy in [
        Nine::UnknownStrong,
        Nine::UnknownWeak,
        Nine::ZeroUnknown,
        Nine::OneUnknown,
        Nine::HighImpedance,
    ] {
        assert_eq!(Two::try_from_nine(lossy), Err(LogicConversionFailed));
    }
}

#[test]
fn raw_unit_access() {
    let mut bytes = vec![0u8; 2];
    set_unit::<Four>(&mut bytes, 5, Four::HighImpedance);
    assert_eq!(bytes, vec![0u8, 0b0000_1100u8]);
    assert_eq!(get_unit::<Four>(&bytes, 5), Four::HighImpedance);
    assert_eq!(get_unit::<Four>(&bytes, 4), Four::Zero);
}

#[test]
fn copy_from_takes_every_unit() {
    let mut source = LogicArray::<Two>::new(9, Two::Zero);
    source.set(8, Two::One);
    source.set(3, Two::One);
    let mut target = LogicArray::<Two>::new(9, Two::One);
    {
        let mut lent = target.as_slice_mut();
        lent.copy_from(&source.as_slice());
        assert_eq!(lent.get(3), Two::One);
        assert_eq!(lent.width(), 9);
    }
    assert_eq!(target.as_bytes(), source.as_bytes());
}

#[test]
fn a_failed_narrowing_is_a_lossy_conversion() {
    let failed = Two::try_from_four(Four::Unknown).err().unwrap();
    assert_eq!(ligeia::error::Error::from(failed), ligeia::error::Error::ConversionLossy);
}
