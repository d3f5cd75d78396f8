use ligeia::mmap_vec::{
    NoMeta, ReallocDisabled, ReallocEnabled, ReallocOption, VarMmapVec, VariableWrite, PAGE_SIZE,
};
use ligeia::svcb::{
    parse_enum_field, parse_enum_fields, parse_header, parse_interpretation,
    parse_scope_declaration, parse_signedness, parse_storage_declaration, parse_storage_type,
    parse_string, parse_timestep, parse_u128, parse_u32, parse_u32_list, parse_u8,
    parse_value_change, parse_variable_declaration, parse_varu32, parse_varu64, take, Error,
    Header, Parse, ParseWith, EnumField, Reason, ScopeDeclaration, Signedness, StorageDeclaration,
    StorageLookup, StorageMeta, StorageType, Storages, SvcbConverter, SvcbLoader, Timestep,
    ValueChange, ValueChangeData, ValueChangeProxy, VariableInterpretation, Varu32, Varu64, MAGIC,
};
use ligeia::types::{BitSlice, BitVec, QitSlice, QitVec, SizeInBytes};
use ligeia::unsized_types::{Bit, Qit};

fn u32le(x: u32) -> Vec<u8> {
    x.to_le_bytes().to_vec()
}

fn string(s: &str) -> Vec<u8> {
    let mut out = u32le(s.len() as u32);
    out.extend_from_slice(s.as_bytes());
    out
}

fn header() -> Vec<u8> {
    let mut out = b"svcb".to_vec();
    out.extend(u32le(1));
    out.extend(1000u128.to_le_bytes());
    out
}

#[test]
fn integers_and_strings() {
    assert_eq!(parse_u8(&[7, 8]), Ok((&[8u8][..], 7)));
    assert_eq!(parse_u8(&[]), Err(Error::Incomplete(Some(1))));
    assert_eq!(parse_u32(&[1, 2, 3, 4, 5]), Ok((&[5u8][..], 0x0403_0201)));
    assert_eq!(parse_u32(&[1, 2]), Err(Error::Incomplete(Some(2))));
    let wide: Vec<u8> = (1..=17).collect();
    assert_eq!(
        parse_u128(&wide),
        Ok((&[17u8][..], 0x100f_0e0d_0c0b_0a09_0807_0605_0403_0201))
    );
    assert_eq!(parse_u128(&wide[..10]), Err(Error::Incomplete(Some(6))));
    assert_eq!(take(&[1, 2, 3], 2), Ok((&[3u8][..], &[1u8, 2][..])));
    assert_eq!(take(&[1, 2, 3], 5), Err(Error::Incomplete(Some(2))));
    let mut input = string("clk");
    input.push(9);
    assert_eq!(parse_string(&input), Ok((&[9u8][..], "clk".to_string())));
    assert_eq!(parse_string(&input[..6]), Err(Error::Incomplete(Some(1))));
    let mut bad = u32le(2);
    bad.extend([0xC3, 0x28]);
    assert_eq!(parse_string(&bad), Err(Error::Failure(Reason::InvalidUTF8)));
    let mut accented = u32le(2);
    accented.extend([0xC3, 0xA9]);
    assert_eq!(parse_string(&accented), Ok((&[][..], "\u{e9}".to_string())));
}

#[test]
fn varints() {
    assert_eq!(parse_varu32(&[0x00, 5]), Ok((&[5u8][..], 0)));
    assert_eq!(parse_varu32(&[0xAC, 0x02, 5]), Ok((&[5u8][..], 300)));
    assert_eq!(parse_varu32(&[185, 10]), Ok((&[][..], 1337)));
    assert_eq!(
        parse_varu32(&[0xFF, 0xFF, 0xFF, 0xFF, 0x0F]),
        Ok((&[][..], u32::MAX))
    );
    assert_eq!(
        parse_varu32(&[0xFF, 0xFF, 0xFF, 0xFF, 0x1F]),
        Err(Error::Failure(Reason::InvalidVarInt))
    );
    assert_eq!(parse_varu32(&[]), Err(Error::Incomplete(None)));
    assert_eq!(parse_varu32(&[0x80]), Err(Error::Incomplete(None)));
    assert_eq!(parse_varu64(&[0x80, 0x01, 7]), Ok((&[7u8][..], 128)));
    assert_eq!(
        parse_varu64(&[0xFF, 0xFF, 0xFF, 0xFF, 0xFF, 0xFF, 0xFF, 0xFF, 0xFF, 0x01]),
        Ok((&[][..], u64::MAX))
    );
    assert_eq!(parse_timestep(&[0x05]), Ok((&[][..], Timestep(5))));
    assert_eq!(<Varu32 as Parse<u32>>::parse(&[0xAC, 0x02]), Ok((&[][..], 300)));
    assert_eq!(<Varu64 as Parse<u64>>::parse(&[0x01]), Ok((&[][..], 1)));
}

#[test]
fn headers() {
    let mut input = header();
    input.push(4);
    assert_eq!(MAGIC.to_le_bytes(), *b"svcb");
    assert_eq!(
        parse_header(&input),
        Ok((&[4u8][..], Header { magic: MAGIC, version: 1, timescale: 1000 }))
    );
    assert_eq!(<Header as Parse<Header>>::parse(&input[..24]).map(|found| found.1.timescale), Ok(1000));
    let mut wrong = input.clone();
    wrong[0] = b'x';
    assert_eq!(parse_header(&wrong), Err(Error::Failure(Reason::InvalidFileSignature)));
    let mut wrong = input.clone();
    wrong[4] = 2;
    assert_eq!(parse_header(&wrong), Err(Error::Failure(Reason::InvalidVersion)));
    assert_eq!(parse_header(&input[..20]), Err(Error::Incomplete(Some(4))));
    assert_eq!(parse_header(&input[..2]), Err(Error::Incomplete(Some(2))));
}

#[test]
fn small_declarations() {
    assert_eq!(
        parse_signedness(&u32le(0)),
        Ok((&[][..], Signedness::SignedTwosComplement))
    );
    assert_eq!(parse_signedness(&u32le(1)), Ok((&[][..], Signedness::Unsigned)));
    assert_eq!(
        parse_signedness(&u32le(2)),
        Err(Error::Failure(Reason::InvalidSignedValue))
    );
    let mut binary = u32le(0);
    binary.extend(u32le(3));
    assert_eq!(parse_storage_type(&binary), Ok((&[][..], StorageType::Binary { lsb: 3 })));
    let mut quaternary = u32le(1);
    quaternary.extend(u32le(0));
    assert_eq!(
        parse_storage_type(&quaternary),
        Ok((&[][..], StorageType::Quaternary { lsb: 0 }))
    );
    assert_eq!(parse_storage_type(&u32le(2)), Ok((&[][..], StorageType::Utf8)));
    assert_eq!(
        parse_storage_type(&u32le(3)),
        Err(Error::Failure(Reason::InvalidStorageType))
    );
    let mut declaration = u32le(77);
    declaration.extend(quaternary.clone());
    declaration.extend(u32le(16));
    declaration.push(1);
    assert_eq!(
        parse_storage_declaration(&declaration),
        Ok((
            &[1u8][..],
            StorageDeclaration { id: 77, ty: StorageType::Quaternary { lsb: 0 }, length: 16 }
        ))
    );
    assert_eq!(
        parse_storage_declaration(&declaration[..14]),
        Err(Error::Incomplete(Some(2)))
    );
    let mut scope = u32le(0);
    scope.extend(u32le(1));
    scope.extend(string("top"));
    let (rest, found) = parse_scope_declaration(&scope).ok().unwrap();
    assert_eq!(rest.len(), 0);
    assert_eq!(found.parent_scope_id, 0);
    assert_eq!(found.scope_id, 1);
    assert_eq!(found.name, "top");
    let found: ScopeDeclaration = <ScopeDeclaration as Parse<ScopeDeclaration>>::parse(&scope).ok().unwrap().1;
    assert_eq!(found.name, "top");
    let mut list = u32le(3);
    for x in [10u32, 20, 30] {
        list.extend(u32le(x));
    }
    list.push(0xEE);
    assert_eq!(parse_u32_list(&list), Ok((&[0xEEu8][..], vec![10, 20, 30])));
    assert_eq!(parse_u32_list(&list[..10]), Err(Error::Incomplete(Some(2))));
    assert_eq!(parse_u32_list(&u32le(0)), Ok((&[][..], vec![])));
}

fn declared() -> Storages {
    let mut storages = Storages::new();
    for (id, ty, length) in [
        (1u32, StorageType::Binary { lsb: 0 }, 10u32),
        (2, StorageType::Quaternary { lsb: 2 }, 7),
        (3, StorageType::Utf8, 4),
        (4, StorageType::Binary { lsb: 9 }, 3),
    ] {
        assert_eq!(storages.declare(StorageDeclaration { id, ty, length }), Ok(()));
    }
    storages
}

#[test]
fn storage_lookup() {
    let mut storages = declared();
    assert_eq!(
        storages.lookup(2),
        Some(StorageDeclaration { id: 2, ty: StorageType::Quaternary { lsb: 2 }, length: 7 })
    );
    assert_eq!(storages.lookup(9), None);
    assert_eq!(
        storages.declare(StorageDeclaration { id: 2, ty: StorageType::Utf8, length: 1 }),
        Err(Error::Failure(Reason::DuplicatedStorageId))
    );
    assert_eq!(storages.meta(9), None);
    let meta = StorageMeta {
        last_value_change_offset: 5,
        number_of_value_changes: 1,
        last_timestamp_offset: 2,
        last_timestamp: 40,
    };
    storages.set_meta(2, meta);
    assert_eq!(storages.meta(2), Some(meta));
    assert_eq!(storages.lookup(2).unwrap().length, 7);
}

#[test]
fn interpretations() {
    let storages = declared();
    let mut other = u32le(3);
    other.extend(u32le(2));
    let (rest, found) = parse_interpretation(&other, &storages).ok().unwrap();
    assert_eq!(rest.len(), 0);
    assert!(matches!(found, VariableInterpretation::Other { storage_id: 2 }));

    let mut integer = u32le(1);
    integer.extend(u32le(2));
    integer.extend(u32le(1));
    integer.extend(u32le(3));
    integer.extend(u32le(15));
    integer.extend(u32le(0));
    integer.extend(u32le(1));
    let (rest, found) = parse_interpretation(&integer, &storages).ok().unwrap();
    assert_eq!(rest.len(), 0);
    match found {
        VariableInterpretation::Integer { storage_ids, msb, lsb, signedness } => {
            assert_eq!(storage_ids, vec![1, 3]);
            assert_eq!((msb, lsb, signedness), (15, 0, Signedness::Unsigned));
        }
        _ => panic!("not an integer"),
    }

    // An enumeration over storage 1, whose values are 10 bits wide.
    let mut enumeration = u32le(2);
    enumeration.extend(u32le(1));
    enumeration.extend(u32le(2));
    enumeration.extend(string("IDLE"));
    enumeration.extend([0x00, 0x00]);
    enumeration.extend(string("BUSY"));
    enumeration.extend([0x01, 0x02]);
    enumeration.push(0xAA);
    let (rest, found) = parse_interpretation(&enumeration, &storages).ok().unwrap();
    assert_eq!(rest, &[0xAA]);
    match found {
        VariableInterpretation::Enum { storage_id, fields } => {
            assert_eq!(storage_id, 1);
            assert_eq!(fields.len(), 2);
            assert_eq!(fields[0].name, "IDLE");
            assert_eq!(fields[1].name, "BUSY");
            assert_eq!(fields[1].value.as_slice().as_ref(), &[0x01, 0x02]);
            assert_eq!(fields[1].value.as_slice().size(), 10);
        }
        _ => panic!("not an enumeration"),
    }
    let mut unknown = u32le(2);
    unknown.extend(u32le(99));
    assert!(matches!(
        parse_interpretation(&unknown, &storages),
        Err(Error::Failure(Reason::InvalidStorageId))
    ));
    assert!(matches!(
        parse_interpretation(&u32le(4), &storages),
        Err(Error::Failure(Reason::InvalidInterpretationValue))
    ));
    assert!(matches!(
        parse_interpretation(&enumeration[..20], &storages),
        Err(Error::Incomplete(Some(2)))
    ));

    let mut variable = u32le(5);
    variable.extend(string("state"));
    variable.extend(other.clone());
    let (rest, found) = parse_variable_declaration(&variable, &storages).ok().unwrap();
    assert_eq!(rest.len(), 0);
    assert_eq!(found.scope_id, 5);
    assert_eq!(found.name, "state");
    assert!(matches!(found.interpretation, VariableInterpretation::Other { storage_id: 2 }));

    let mut field = string("A");
    field.extend([0xFF, 0x03, 0x55]);
    let (rest, found) = parse_enum_field(&field, 10).ok().unwrap();
    assert_eq!(rest, &[0x55]);
    assert_eq!(found.name, "A");
    let found: EnumField =
        <EnumField as ParseWith<usize, EnumField>>::parse_with(&field, 10).ok().unwrap().1;
    assert_eq!(found.value.as_slice().as_ref(), &[0xFF, 0x03]);
    let mut fields = u32le(1);
    fields.extend(field.clone());
    let (rest, found) = parse_enum_fields(&fields, 10).ok().unwrap();
    assert_eq!(rest, &[0x55]);
    assert_eq!(found.len(), 1);
}

#[test]
fn value_changes() {
    let storages = declared();
    // Storage 1: 10 binary digits, two bytes.
    let (rest, (id, value)) = parse_value_change(&[1, 0xFF, 0x03, 9], &storages).ok().unwrap();
    assert_eq!(rest, &[9]);
    assert_eq!(id, 1);
    match value {
        ValueChange::Binary(bits) => {
            assert_eq!(bits.size(), 10);
            assert_eq!(bits.as_ref(), &[0xFF, 0x03]);
            assert_eq!(bits.get(9), Some(Bit::One));
            assert_eq!(bits.get(10), None);
        }
        _ => panic!("not binary"),
    }
    // Storage 2: 7 - 2 quaternary digits, two bytes.
    let (rest, (id, value)) = parse_value_change(&[2, 0xE4, 0x01], &storages).ok().unwrap();
    assert_eq!(rest.len(), 0);
    assert_eq!(id, 2);
    match value {
        ValueChange::Quaternary(qits) => {
            assert_eq!(qits.size(), 5);
            assert_eq!(qits.get(2), Some(Qit::X));
            assert_eq!(qits.get(4), Some(Qit::One));
        }
        _ => panic!("not quaternary"),
    }
    let (rest, (_, value)) = parse_value_change(&[3, b'a', b'b', b'c', b'd', 1], &storages).ok().unwrap();
    assert_eq!(rest, &[1]);
    assert_eq!(value.bytes(), b"abcd");
    assert!(matches!(value, ValueChange::Utf8(_)));
    assert!(matches!(
        parse_value_change(&[9, 0], &storages),
        Err(Error::Failure(Reason::InvalidStorageId))
    ));
    // Storage 4 has its lowest bit beyond its length.
    assert!(matches!(
        parse_value_change(&[4, 0], &storages),
        Err(Error::Failure(Reason::InvalidStorageId))
    ));
    assert!(matches!(
        parse_value_change(&[1, 0xFF], &storages),
        Err(Error::Incomplete(Some(1)))
    ));
}

fn stream() -> Vec<u8> {
    let mut input = header();
    // A scope.
    input.push(0);
    input.extend(u32le(0));
    input.extend(u32le(1));
    input.extend(string("top"));
    // Two storages.
    input.push(2);
    input.extend(u32le(1));
    input.extend(u32le(0));
    input.extend(u32le(0));
    input.extend(u32le(10));
    input.push(2);
    input.extend(u32le(3));
    input.extend(u32le(2));
    input.extend(u32le(2));
    // A variable.
    input.push(1);
    input.extend(u32le(1));
    input.extend(string("data"));
    input.extend(u32le(0));
    input.extend(u32le(1));
    // A timestep of 5, two changes, a timestep of 300, one change.
    input.extend([4, 5]);
    input.extend([3, 2, 1, 0xFF, 0x03, 3, b'h', b'i']);
    input.extend([4, 0xAC, 0x02]);
    input.extend([3, 1, 1, 0x00, 0x00]);
    input
}

#[test]
fn whole_streams() {
    let input = stream();
    let converter = SvcbConverter::load_svcb(&input).ok().unwrap();
    assert_eq!(converter.timescale(), 1000);
    assert_eq!(converter.processed_commands_count(), 8);
    assert_eq!(converter.clock(), (2, 305));
    let storages = converter.storages();
    // Storage 1 changed twice: records of 5 and 4 bytes lie before its last.
    assert_eq!(
        storages.meta(1),
        Some(StorageMeta {
            last_value_change_offset: 10,
            number_of_value_changes: 2,
            last_timestamp_offset: 1,
            last_timestamp: 305,
        })
    );
    assert_eq!(
        storages.meta(3),
        Some(StorageMeta {
            last_value_change_offset: 5,
            number_of_value_changes: 1,
            last_timestamp_offset: 0,
            last_timestamp: 5,
        })
    );
    for cut in [1usize, 3, 10, 30, input.len() - 1] {
        assert!(matches!(
            SvcbConverter::load_svcb(&input[..cut]),
            Err(Error::Incomplete(_))
        ));
    }
    let mut twice = input.clone();
    twice.push(2);
    twice.extend(u32le(1));
    twice.extend(u32le(2));
    twice.extend(u32le(1));
    assert!(matches!(
        SvcbConverter::load_svcb(&twice),
        Err(Error::Failure(Reason::DuplicatedStorageId))
    ));
    let mut strange = input.clone();
    strange.push(9);
    assert!(matches!(
        SvcbConverter::load_svcb(&strange),
        Err(Error::Failure(Reason::InvalidBlockType))
    ));
    assert!(SvcbConverter::load_svcb(&header()).is_ok());
}

#[test]
fn streams_block_by_block() {
    let input = stream();
    let (mut rest, found) = parse_header(&input).ok().unwrap();
    let mut converter = SvcbConverter::new(found);
    let mut blocks = 0;
    while !rest.is_empty() {
        rest = converter.step(rest).ok().unwrap();
        blocks += 1;
    }
    assert_eq!(blocks, 8);
    assert_eq!(converter.note_change(7, &[1]), Err(Error::Failure(Reason::InvalidStorageId)));
    assert_eq!(converter.note_timestep(u64::MAX), Err(Error::Failure(Reason::InvalidVarInt)));
    assert_eq!(converter.note_timestep(1), Ok(()));
    assert_eq!(converter.clock(), (3, 306));
    assert_eq!(converter.note_change(3, b"ok"), Ok(()));
    assert_eq!(converter.storages().meta(3).unwrap().number_of_value_changes, 2);
    assert_eq!(converter.storages().meta(3).unwrap().last_timestamp, 306);
}

#[test]
fn loader() {
    let loader = SvcbLoader::new();
    assert!(loader.supports_file_extension("svcb"));
    assert!(!loader.supports_file_extension("vcd"));
    assert!(!loader.supports_file_extension("svcbx"));
    assert_eq!(loader.description(), "the Streamed Value Change Blocks (SVCB) loader");
}

#[test]
fn append_log() {
    let mut log: VarMmapVec<u64, ReallocEnabled> = VarMmapVec::create();
    assert_eq!(log.current_offset(), 0);
    assert_eq!(log.push(NoMeta, 300u64), Some(0));
    assert_eq!(log.push(NoMeta, 1u64), Some(2));
    assert_eq!(log.push(NoMeta, u64::MAX), Some(3));
    assert_eq!(log.current_offset(), 13);
    assert_eq!(log.get_at::<u64>(NoMeta, 0), Some(300));
    assert_eq!(log.get_at::<u64>(NoMeta, 2), Some(1));
    assert_eq!(log.get_at::<u64>(NoMeta, 3), Some(u64::MAX));
    assert_eq!(log.get_at::<u64>(NoMeta, 14), None);
    // The log grows by doubling.
    for i in 0..5000u64 {
        assert!(log.push(NoMeta, i).is_some());
    }
    assert_eq!(log.get_at::<u64>(NoMeta, 0), Some(300));

    let mut fixed: VarMmapVec<u64, ReallocDisabled> = VarMmapVec::create_with_capacity(1);
    let mut pushed = 0;
    while fixed.push(NoMeta, 0u64).is_some() {
        pushed += 1;
    }
    // One page, and the log keeps room for an item of ten bytes.
    assert_eq!(pushed, PAGE_SIZE - 10);
    assert!(ReallocEnabled::enabled());
    assert!(!ReallocDisabled::enabled());
    assert_eq!(<u64 as VariableWrite<u64>>::max_size(NoMeta), 10);
}

#[test]
fn change_records_in_the_log() {
    let mut log: VarMmapVec<ValueChangeProxy, ReallocEnabled> = VarMmapVec::create();
    let data = ValueChangeData {
        storage_id: 300,
        offset_to_prev: 1,
        offset_to_prev_timestamp: 128,
        storage: &[7, 8, 9],
    };
    assert_eq!(<ValueChangeData as VariableWrite<ValueChangeProxy>>::max_size(3), 28);
    assert_eq!(log.push(3, data), Some(0));
    assert_eq!(log.current_offset(), 8);
    let mut buffer = vec![0xEEu8; 40];
    let data = ValueChangeData {
        storage_id: 300,
        offset_to_prev: 1,
        offset_to_prev_timestamp: 128,
        storage: &[7, 8, 9],
    };
    assert_eq!(data.write_variable(3, &mut buffer), 8);
    assert_eq!(&buffer[..9], &[0xAC, 0x02, 0x01, 0x80, 0x01, 7, 8, 9, 0xEE]);
}

#[test]
fn windows() {
    let mut log: VarMmapVec<u64, ReallocEnabled> = VarMmapVec::create();
    {
        let window = log.window(100, 200);
        assert_eq!(window.offset_in_mapping(), 100);
        assert_eq!(window.len(), 100);
        let (first, rest) = window.take_window(30);
        assert_eq!(first.offset_in_mapping(), 100);
        assert_eq!(first.len(), 30);
        assert_eq!(rest.offset_in_mapping(), 130);
        assert_eq!(rest.len(), 70);
        let after = first.push(NoMeta, 300u64);
        assert_eq!(after.offset_in_mapping(), 102);
        assert_eq!(after.len(), 28);
        let after = after.push(NoMeta, 5u64);
        assert_eq!(after.len(), 27);
        let read: Vec<u64> = rest.iter(NoMeta);
        assert_eq!(read.len(), 70);
        assert!(read.iter().all(|x| *x == 0));
    }
    assert_eq!(log.get_at::<u64>(NoMeta, 0), Some(0));
}

#[test]
fn digit_containers() {
    assert_eq!(<BitSlice as SizeInBytes>::size_in_bytes(9), 2);
    assert_eq!(<QitSlice as SizeInBytes>::size_in_bytes(9), 3);
    assert_eq!(<BitVec as SizeInBytes>::size_in_bytes(8), 1);
    assert_eq!(<QitVec as SizeInBytes>::size_in_bytes(0), 0);
    assert_eq!(Qit::bits_to_bytes(5), 2);
    let owned = QitVec::new(3, vec![0b0010_0111]);
    let lent = owned.as_slice();
    assert_eq!(lent.size(), 3);
    assert_eq!(lent.get(0), Some(Qit::Z));
    assert_eq!(lent.get(1), Some(Qit::One));
    assert_eq!(lent.get(2), Some(Qit::X));
    assert_eq!(lent.get(3), None);
    let short = BitSlice::new(20, &[0xFF]);
    assert_eq!(short.get(7), Some(Bit::One));
    assert_eq!(short.get(8), None);
}

#[test]
fn nodes_are_written_from_the_back() {
    let max = <ligeia::vcd::Node as VariableWrite<ligeia::vcd::Node>>::max_size(5);
    assert_eq!(max, 10);
    assert_eq!(<ligeia::vcd::Node as ligeia::mmap_vec::ConsistentSize<ligeia::vcd::Node>>::size(5), 10);
    let mut buffer = [0xEEu8; 12];
    let node = ligeia::vcd::Node {
        timestamp: 0x0102,
        value_change: QitSlice::new(5, &[0x1B, 0x02]),
    };
    assert_eq!(node.write_variable(5, &mut buffer), 10);
    assert_eq!(buffer, [2, 1, 0, 0, 0, 0, 0, 0, 0x1B, 0x02, 0xEE, 0xEE]);

    let mut log: VarMmapVec<ligeia::vcd::Node<'static>, ReallocEnabled> = VarMmapVec::create();
    {
        let window = log.window(0, 32);
        let first = ligeia::vcd::Node {
            timestamp: 7,
            value_change: QitSlice::new(5, &[0xAA, 0x01]),
        };
        let rest = window.push_rev(5usize, first);
        assert_eq!(rest.offset_in_mapping(), 0);
        assert_eq!(rest.len(), 22);
        let second = ligeia::vcd::Node {
            timestamp: 9,
            value_change: QitSlice::new(5, &[0x55, 0x03]),
        };
        let rest = rest.push_rev(5usize, second);
        assert_eq!(rest.len(), 12);
    }
    let window = log.window(12, 32);
    assert_eq!(
        &window.data[..],
        &[9, 0, 0, 0, 0, 0, 0, 0, 0x55, 0x03, 7, 0, 0, 0, 0, 0, 0, 0, 0xAA, 0x01][..]
    );
}
