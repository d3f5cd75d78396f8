use ligeia::aggregate::Timespan;
use ligeia::error::Error;
use ligeia::forest::{DataIndex, Event, EventStorage};
use ligeia::lazy::LazyModify;
use ligeia::logic::{Four, Nine, Two};
use ligeia::logic2::{bytes, pack, unpack, DataWidth};
use ligeia::meta::{ScopeId, Storage, StorageId, StorageType, Timesteps, VariableInterp};
use ligeia::mmap_vec::{NoMeta, VariableRead, VariableWrite};
use ligeia::unsized_types::Qit;
use ligeia::vcd::{
    apply_command, declare, femtoseconds_per_timestep, generate_scopes, load_vcd, pack_values,
    plan_scopes, var_kind, write_change, Command, Declaration, NotValidVarIdError, Numbering,
    ScopeItem, TimescaleUnit, Value, VarDef, VarId, VarType, VcdError, VcdLoader,
};
use ligeia::waveform::{layer_count_generator, VariableId};
use ligeia::waves::{Aggregated, Waves};
use std::collections::HashMap;

#[test]
fn whole_vectors_pack_and_unpack() {
    assert_eq!(bytes::<Two>(DataWidth(9)), 2);
    assert_eq!(bytes::<Four>(DataWidth(9)), 3);
    assert_eq!(bytes::<Nine>(DataWidth(9)), 5);

    let units = [Two::One, Two::Zero, Two::One, Two::One, Two::Zero, Two::Zero, Two::Zero, Two::One, Two::One];
    let mut output = [0xEEu8; 3];
    pack::<Two>(&units, &mut output);
    assert_eq!(output, [0b1000_1101, 0b0000_0001, 0xEE]);
    assert_eq!(unpack::<Two>(DataWidth(9), &output), units.to_vec());

    let units = [Four::Zero, Four::One, Four::Unknown, Four::HighImpedance, Four::One];
    let mut output = [0xFFu8; 2];
    pack::<Four>(&units, &mut output);
    assert_eq!(output, [0b1110_0100, 0b0000_0001]);
    assert_eq!(unpack::<Four>(DataWidth(5), &output), units.to_vec());

    let units = [Nine::HighImpedance, Nine::OneUnknown, Nine::UnknownWeak];
    let mut output = [0u8; 2];
    pack::<Nine>(&units, &mut output);
    assert_eq!(output, [0x78, 0x05]);
    assert_eq!(unpack::<Nine>(DataWidth(3), &output), units.to_vec());
    // Fewer units than asked for where the bytes end early.
    assert_eq!(unpack::<Nine>(DataWidth(9), &output).len(), 4);
    assert_eq!(unpack::<Two>(DataWidth(0), &output).len(), 0);
    let mut nothing: [u8; 0] = [];
    pack::<Two>(&[], &mut nothing);
}

#[test]
fn events_share_a_storage() {
    let mut storage = EventStorage::<Four>::new(DataWidth(5));
    let span = Timesteps(3)..Timesteps(9);
    let first = Event::from_logic(
        &mut storage,
        span.clone(),
        &[Four::One, Four::Zero, Four::Unknown, Four::One, Four::HighImpedance],
    );
    let second = Event::from_raw(&mut storage, Timesteps(9)..Timesteps(12), &[0b1110_0100, 0b01]);
    assert_eq!(first.timespan(), span);
    assert_eq!(second.timespan(), Timesteps(9)..Timesteps(12));
    assert_eq!(
        first.unpack(&storage),
        vec![Four::One, Four::Zero, Four::Unknown, Four::One, Four::HighImpedance]
    );
    assert_eq!(
        second.unpack(&storage),
        vec![Four::Zero, Four::One, Four::Unknown, Four::HighImpedance, Four::One]
    );
    assert_eq!(DataIndex(2), DataIndex(2));
}

#[test]
fn lazily_modified() {
    let lazy = LazyModify::new(20);
    assert_eq!(lazy.get(), None);
    let lazy = lazy.modify(|x| x + 1);
    assert_eq!(lazy.get(), Some(&21));
    let lazy = lazy.modify(|x| x * 100);
    assert_eq!(lazy.get(), Some(&21));
}

#[test]
fn layers_above_a_first_layer() {
    assert_eq!(layer_count_generator(0), Vec::<usize>::new());
    assert_eq!(layer_count_generator(1023), Vec::<usize>::new());
    assert_eq!(layer_count_generator(1024), vec![256]);
    assert_eq!(layer_count_generator(4095), vec![1023]);
    assert_eq!(layer_count_generator(4096), vec![1024, 256]);
    assert_eq!(layer_count_generator(1_000_000), vec![250_000, 62_500, 15_625, 3_906, 976]);
    assert_eq!(VariableId(3), VariableId(3));
}

#[test]
fn variable_ids() {
    let id = VarId::new(0).ok().unwrap();
    assert_eq!(id.get(), 0);
    let id = VarId::new(41).ok().unwrap();
    assert_eq!(id.get(), 41);
    assert_eq!(VarId::new(u64::MAX - 1).ok().unwrap().get(), u64::MAX - 1);
    assert_eq!(VarId::new(u64::MAX), Err(NotValidVarIdError));
    let mut buffer = [0u8; 12];
    assert_eq!(id.write_variable(NoMeta, &mut buffer), 1);
    assert_eq!(buffer[0], 42);
    let (read, size) = <VarId as VariableRead<VarId>>::read_variable(NoMeta, &buffer).unwrap();
    assert_eq!((read.get(), size), (41, 1));
    assert_eq!(<VarId as VariableRead<VarId>>::read_variable(NoMeta, &[0u8; 4]), None);
    assert_eq!(<VarId as VariableWrite<VarId>>::max_size(NoMeta), 10);
}

#[test]
fn values_and_timescales() {
    assert_eq!(Value::V0.qit(), Qit::Zero);
    assert_eq!(Value::V1.qit(), Qit::One);
    assert_eq!(Value::X.qit(), Qit::X);
    assert_eq!(Value::Z.qit(), Qit::Z);
    assert_eq!(Value::X.four(), Four::Unknown);
    assert_eq!(Value::Z.four(), Four::HighImpedance);
    assert_eq!(
        pack_values(&[Value::V0, Value::V1, Value::X, Value::Z, Value::V1]),
        vec![0b1110_0100, 0b0000_0001]
    );
    assert_eq!(pack_values(&[]), Vec::<u8>::new());
    assert_eq!(femtoseconds_per_timestep(None), 1);
    assert_eq!(femtoseconds_per_timestep(Some((10, TimescaleUnit::NS))), 10_000_000);
    assert_eq!(femtoseconds_per_timestep(Some((1, TimescaleUnit::S))), 1_000_000_000_000_000);
    assert_eq!(femtoseconds_per_timestep(Some((3, TimescaleUnit::MS))), 3_000_000_000_000);
    assert_eq!(femtoseconds_per_timestep(Some((3, TimescaleUnit::US))), 3_000_000_000);
    assert_eq!(femtoseconds_per_timestep(Some((100, TimescaleUnit::PS))), 100_000);
    assert_eq!(femtoseconds_per_timestep(Some((7, TimescaleUnit::FS))), 7);
    assert_eq!(
        femtoseconds_per_timestep(Some((u32::MAX, TimescaleUnit::S))),
        4_294_967_295_000_000_000_000_000
    );
    let loader = VcdLoader::new();
    assert!(loader.supports_file_extension("vcd"));
    assert!(!loader.supports_file_extension("svcb"));
    assert_eq!(loader.description(), "the Value Change Dump (VCD) loader");
}

fn var(code: u64, name: &str, size: u32, var_type: VarType) -> ScopeItem {
    ScopeItem::Var(VarDef { code, reference: name.to_string(), size, var_type })
}

fn design() -> Vec<ScopeItem> {
    vec![
        ScopeItem::Scope {
            identifier: "top".to_string(),
            children: vec![
                var(10, "clk", 1, VarType::Wire),
                ScopeItem::Scope {
                    identifier: "cpu".to_string(),
                    children: vec![var(11, "pc", 8, VarType::Wire)],
                },
                var(12, "msg", 4, VarType::String),
            ],
        },
        ScopeItem::Scope { identifier: "tb".to_string(), children: vec![] },
    ]
}

#[test]
fn headers_are_numbered_in_order() {
    let mut waves = Waves::new();
    let mut numbering =
        Numbering { next_scope: 1, next_storage: 0, storage_map: HashMap::new() };
    assert_eq!(generate_scopes(&mut waves, &design(), ScopeId(0), &mut numbering), Ok(()));
    assert_eq!(numbering.next_scope, 4);
    assert_eq!(numbering.next_storage, 3);
    assert_eq!(numbering.storage_map.get(&10), Some(&0));
    assert_eq!(numbering.storage_map.get(&11), Some(&1));
    assert_eq!(numbering.storage_map.get(&12), Some(&2));
    assert_eq!(waves.list_signals(), vec![StorageId(0), StorageId(1), StorageId(2)]);
    assert_eq!(
        waves.signal_info(StorageId(1)).ok().unwrap(),
        (StorageType::FourLogic, 8, 0)
    );
    let tree = waves.scope_tree();
    assert_eq!(tree.top_level(), vec![ScopeId(1), ScopeId(3)]);
    let top = tree.get(ScopeId(1));
    assert_eq!(top.name, "top");
    assert_eq!(top.children, &[ScopeId(2)][..]);
    assert_eq!(top.variables.len(), 2);
    assert_eq!(top.variables[0].name, "clk");
    assert!(matches!(top.variables[1].interp, VariableInterp::Utf8 { storage: StorageId(2) }));
    let cpu = tree.get(ScopeId(2));
    assert_eq!(cpu.name, "cpu");
    match &cpu.variables[0].interp {
        VariableInterp::Integer { storages, msb_index, lsb_index, .. } => {
            assert_eq!(storages, &vec![StorageId(1)]);
            assert_eq!((*msb_index, *lsb_index), (7, 0));
        }
        _ => panic!("not an integer"),
    }
    assert_eq!(tree.get(ScopeId(3)).name, "tb");
    assert!(matches!(
        var_kind(VarType::Other, 1, StorageId(0)),
        Err(VcdError::UnsupportedVarType)
    ));
}

#[test]
fn dumps_load_into_the_database() {
    let commands = vec![
        Command::Timestamp(0),
        Command::ChangeScalar(10, Value::V0),
        Command::ChangeVector(11, vec![Value::V1, Value::V0, Value::X]),
        Command::Other,
        Command::Timestamp(5),
        Command::ChangeScalar(10, Value::V1),
        Command::Timestamp(5),
        Command::ChangeVector(11, vec![Value::Z; 8]),
        Command::Timestamp(9),
        Command::ChangeScalar(10, Value::V0),
    ];
    let waves = load_vcd(&design(), &commands).ok().unwrap();
    assert_eq!(waves.signal_info(StorageId(0)).ok().unwrap().2, 3);
    assert_eq!(waves.signal_info(StorageId(1)).ok().unwrap().2, 2);
    assert_eq!(waves.signal_info(StorageId(2)).ok().unwrap().2, 0);
    let mut iter = waves.iter_changes(StorageId(1)).ok().unwrap();
    assert_eq!(iter.next(), Some((0u64, &[0b0010_0001u8, 0][..])));
    assert_eq!(iter.next(), Some((5u64, &[0xFFu8, 0xFF][..])));
    assert_eq!(iter.next(), None);
    match waves.query(StorageId(0), 0..6).ok().unwrap() {
        Aggregated::Four(element) => {
            assert_eq!(element.units().get(0), Four::One);
            assert_eq!(element.span(), Some(Timespan { start: 0, end: 5 }));
        }
        _ => panic!("not four-valued"),
    }

    let backward = vec![Command::Timestamp(5), Command::Timestamp(4)];
    assert!(matches!(
        load_vcd(&design(), &backward),
        Err(VcdError::Database(Error::TimestepRegression))
    ));
    let unknown = vec![Command::Timestamp(0), Command::ChangeScalar(99, Value::V1)];
    assert!(matches!(load_vcd(&design(), &unknown), Err(VcdError::UnknownVariable)));
    let early = vec![Command::ChangeScalar(10, Value::V1)];
    assert!(matches!(
        load_vcd(&design(), &early),
        Err(VcdError::Database(Error::OutOfBounds))
    ));
    let wide = vec![Command::Timestamp(0), Command::ChangeVector(10, vec![Value::V1; 2])];
    assert!(matches!(load_vcd(&design(), &wide), Err(VcdError::TooManyValues)));
    let odd = vec![var(1, "r", 1, VarType::Other)];
    assert!(matches!(load_vcd(&odd, &vec![]), Err(VcdError::UnsupportedVarType)));
    let empty = vec![var(1, "r", 0, VarType::Wire)];
    assert!(matches!(
        load_vcd(&empty, &vec![]),
        Err(VcdError::Database(Error::WidthZero))
    ));

    let mut waves = Waves::new();
    let numbering = Numbering { next_scope: 1, next_storage: 0, storage_map: HashMap::new() };
    assert_eq!(apply_command(&mut waves, &numbering, &Command::Other), Ok(()));
    assert_eq!(apply_command(&mut waves, &numbering, &Command::Timestamp(3)), Ok(()));
}

#[test]
fn headers_are_planned_before_anything_is_declared() {
    let (plan, next_scope, next_storage) = plan_scopes(&design(), ScopeId(0), 1, 0).ok().unwrap();
    assert_eq!((next_scope, next_storage), (4, 3));
    assert_eq!(plan.len(), 6);
    assert!(matches!(
        &plan[0],
        Declaration::Scope { parent: ScopeId(0), id: ScopeId(1), name } if name == "top"
    ));
    assert!(matches!(
        &plan[1],
        Declaration::Var { scope: ScopeId(1), storage: StorageId(0), code: 10, size: 1, .. }
    ));
    assert!(matches!(
        &plan[2],
        Declaration::Scope { parent: ScopeId(1), id: ScopeId(2), name } if name == "cpu"
    ));
    assert!(matches!(
        &plan[3],
        Declaration::Var { scope: ScopeId(2), storage: StorageId(1), code: 11, size: 8, .. }
    ));
    assert!(matches!(
        &plan[4],
        Declaration::Var { scope: ScopeId(1), storage: StorageId(2), code: 12, size: 4, .. }
    ));
    assert!(matches!(
        &plan[5],
        Declaration::Scope { parent: ScopeId(0), id: ScopeId(3), name } if name == "tb"
    ));

    // The ids run out at the greatest.
    let scopes = vec![ScopeItem::Scope { identifier: "s".to_string(), children: vec![] }];
    assert!(matches!(
        plan_scopes(&scopes, ScopeId(0), u32::MAX, 0),
        Err(VcdError::TooManyItems)
    ));
    assert!(plan_scopes(&scopes, ScopeId(0), u32::MAX - 1, 0).is_ok());
    let vars = vec![var(1, "v", 1, VarType::Wire)];
    assert!(matches!(plan_scopes(&vars, ScopeId(0), 1, u32::MAX), Err(VcdError::TooManyItems)));

    // A type that is not taken stops the plan, and nothing is declared.
    let mixed = vec![var(1, "a", 1, VarType::Wire), var(2, "b", 1, VarType::Other)];
    let mut waves = Waves::new();
    let mut numbering =
        Numbering { next_scope: 1, next_storage: 0, storage_map: HashMap::new() };
    assert_eq!(
        generate_scopes(&mut waves, &mixed, ScopeId(0), &mut numbering),
        Err(VcdError::UnsupportedVarType)
    );
    assert!(waves.list_signals().is_empty());
    assert_eq!(numbering.next_storage, 0);
    assert!(numbering.storage_map.is_empty());
}

#[test]
fn refused_declarations_change_nothing() {
    let mut waves = Waves::new();
    let mut numbering =
        Numbering { next_scope: 1, next_storage: 0, storage_map: HashMap::new() };
    let absent = Declaration::Scope { parent: ScopeId(7), id: ScopeId(8), name: "x".to_string() };
    assert_eq!(
        declare(&mut waves, &mut numbering, &absent),
        Err(VcdError::Database(Error::OutOfBounds))
    );
    let above = Declaration::Scope { parent: ScopeId(0), id: ScopeId(0), name: "x".to_string() };
    assert_eq!(
        declare(&mut waves, &mut numbering, &above),
        Err(VcdError::Database(Error::OutOfBounds))
    );
    let last = Declaration::Scope {
        parent: ScopeId(0),
        id: ScopeId(u32::MAX),
        name: "x".to_string(),
    };
    assert_eq!(declare(&mut waves, &mut numbering, &last), Err(VcdError::TooManyItems));
    assert_eq!(numbering.next_scope, 1);
    assert!(waves.scope_tree().top_level().is_empty());

    let first = Declaration::Var {
        scope: ScopeId(0),
        storage: StorageId(4),
        code: 77,
        size: 3,
        var_type: VarType::Wire,
        name: "v".to_string(),
    };
    assert_eq!(declare(&mut waves, &mut numbering, &first), Ok(()));
    assert_eq!(numbering.next_storage, 5);
    assert_eq!(numbering.storage_map.get(&77), Some(&4));
    assert_eq!(
        waves.signal_info(StorageId(4)).ok().unwrap(),
        (StorageType::FourLogic, 3, 0)
    );
    assert_eq!(waves.scope_tree().get(ScopeId(0)).variables.len(), 1);
    // The same storage again.
    assert_eq!(
        declare(&mut waves, &mut numbering, &first),
        Err(VcdError::Database(Error::AlreadyDeclared))
    );
    assert_eq!(waves.scope_tree().get(ScopeId(0)).variables.len(), 1);
    let astray = Declaration::Var {
        scope: ScopeId(9),
        storage: StorageId(5),
        code: 78,
        size: 3,
        var_type: VarType::Wire,
        name: "w".to_string(),
    };
    assert_eq!(
        declare(&mut waves, &mut numbering, &astray),
        Err(VcdError::Database(Error::OutOfBounds))
    );
    assert!(waves.signal_info(StorageId(5)).is_err());
    assert_eq!(numbering.storage_map.get(&78), None);
}

#[test]
fn changes_are_written_unit_by_unit() {
    let mut waves = Waves::new();
    assert_eq!(
        waves.declare_signal(Storage {
            id: StorageId(0),
            ty: StorageType::FourLogic,
            width: 5,
            start: 0
        }),
        Ok(())
    );
    assert_eq!(
        waves.declare_signal(Storage {
            id: StorageId(1),
            ty: StorageType::TwoLogic,
            width: 5,
            start: 0
        }),
        Ok(())
    );
    // No timestep yet.
    assert_eq!(
        write_change(&mut waves, StorageId(0), &[Value::V1]),
        Err(VcdError::Database(Error::OutOfBounds))
    );
    assert_eq!(waves.push_timestep(4), Ok(()));
    assert_eq!(
        write_change(&mut waves, StorageId(0), &[Value::V1, Value::X, Value::Z]),
        Ok(())
    );
    assert_eq!(
        write_change(&mut waves, StorageId(0), &[Value::V1; 6]),
        Err(VcdError::TooManyValues)
    );
    assert_eq!(
        write_change(&mut waves, StorageId(1), &[Value::V1]),
        Err(VcdError::UnsupportedVarType)
    );
    assert_eq!(
        write_change(&mut waves, StorageId(2), &[Value::V1]),
        Err(VcdError::Database(Error::UnknownSignal))
    );
    assert_eq!(waves.signal_info(StorageId(0)).ok().unwrap().2, 1);
    assert_eq!(waves.signal_info(StorageId(1)).ok().unwrap().2, 0);
    let mut iter = waves.iter_changes(StorageId(0)).ok().unwrap();
    // One at the bottom, then unknown, then high impedance, then zeros.
    assert_eq!(iter.next(), Some((4u64, &[0b0011_1001u8, 0][..])));
    assert_eq!(iter.next(), None);
}
