//! What the value change dump (VCD) loader decides once the dump is
//! parsed: ids, packed values, the timescale, and the numbering of scopes
//! and storages.

use crate::error::Error;
use crate::change::{
    appended, block_full, block_size, record_size, used_with_block, SignalView,
};
use crate::logic::{lemma_blank, well_packed, Four, LogicSliceMut};
use crate::logic2::pack;
use crate::meta::{
    InterpView, ScopeId, Signedness, Storage, StorageId, StorageType, Variable, VariableInterp,
    VariableView,
};
use crate::scope::ScopesView;
use crate::waves::{ChangeSlot, Waves};
use std::collections::HashMap;
use crate::bytes::write_front;
use crate::mmap_vec::{ConsistentSize, NoMeta, VariableLength, VariableRead, VariableWrite};
use crate::types::QitSlice;
use crate::logic::{packed_len, unpack, Logic};
use crate::unsized_types::Qit;
use crate::varint::{decode_varint_u64, encode_varint_u64, varint_bytes_u64, varint_u64};
use vstd::prelude::*;
use vstd::string::StringSliceAdditionalSpecFns;

verus! {

/// A number is no id of a variable.
#[derive(Debug, Clone, Copy, PartialEq, Eq, Structural)]
pub struct NotValidVarIdError;

/// The id of a variable: any number but the greatest. It is kept as its
/// successor, which is never zero.
#[derive(Debug, Copy, Clone, Eq, PartialEq, Hash, Structural)]
pub struct VarId(u64);

impl VarId {
    /// The number that the id was made of.
    pub closed spec fn spec_get(&self) -> u64 {
        (self.0 - 1) as u64
    }

    /// An id is kept as a number that is not zero.
    pub closed spec fn wf(&self) -> bool {
        self.0 != 0
    }

    /// The id of the number `x`; fails for the greatest number.
    pub fn new(x: u64) -> (r: Result<Self, NotValidVarIdError>)
        ensures
            r is Err <==> x == u64::MAX,
            r is Ok ==> r->Ok_0.wf() && r->Ok_0.spec_get() == x,
    {
        if x == u64::MAX {
            Err(NotValidVarIdError)
        } else {
            Ok(VarId(x + 1))
        }
    }

    /// The number that the id was made of.
    pub fn get(&self) -> (r: u64)
        requires
            self.wf(),
        ensures
            r == self.spec_get(),
    {
        self.0 - 1
    }
}

impl VariableLength for VarId {
    type Meta = NoMeta;

    type DefaultReadData = VarId;
}

impl VariableWrite<VarId> for VarId {
    open spec fn spec_max_size(meta: NoMeta) -> usize {
        10
    }

    closed spec fn encoded(self, meta: NoMeta) -> Seq<u8> {
        varint_bytes_u64(self.0)
    }

    fn max_size(meta: NoMeta) -> (r: usize) {
        10
    }

    fn write_variable(self, meta: NoMeta, b: &mut [u8]) -> (n: usize) {
        encode_varint_u64(self.0, b)
    }
}

impl VariableRead<VarId> for VarId {
    closed spec fn decoded(meta: NoMeta, b: Seq<u8>) -> Option<(VarId, usize)> {
        match varint_u64(b) {
            Ok((raw, size)) => if raw != 0 {
                Some((VarId(raw), size))
            } else {
                None
            },
            Err(_) => None,
        }
    }

    fn read_variable(meta: NoMeta, b: &[u8]) -> (r: Option<(VarId, usize)>) {
        match decode_varint_u64(b) {
            Ok((raw, size)) => if raw != 0 {
                Some((VarId(raw), size))
            } else {
                None
            },
            Err(_) => None,
        }
    }
}

/// A value change as it lies in a log: the time, then the packed
/// quaternary digits of the value. How many digits there are is the log's
/// business.
pub struct Node<'a> {
    pub timestamp: u64,
    pub value_change: QitSlice<'a>,
}

/// The bytes of a value change of `qits` digits: the time as a 64-bit
/// little-endian integer, then the packed digits, as many bytes of them
/// as `qits` digits take and `packed` has.
pub open spec fn node_bytes(timestamp: u64, packed: Seq<u8>, qits: usize) -> Seq<u8> {
    let wanted = packed_len(qits as nat, 2);
    vstd::bytes::spec_u64_to_le_bytes(timestamp) + packed.subrange(
        0,
        if packed.len() <= wanted {
            packed.len() as int
        } else {
            wanted as int
        },
    )
}

impl<'a> VariableLength for Node<'a> {
    type Meta = usize;

    type DefaultReadData = ();
}

impl<'a, 'b> VariableWrite<Node<'a>> for Node<'b> {
    open spec fn spec_max_size(qits: usize) -> usize {
        (8 + packed_len(qits as nat, 2)) as usize
    }

    open spec fn encoded(self, qits: usize) -> Seq<u8> {
        node_bytes(self.timestamp, self.value_change.raw(), qits)
    }

    fn max_size(qits: usize) -> (r: usize) {
        8 + Qit::bits_to_bytes(qits)
    }

    fn write_variable(self, qits: usize, b: &mut [u8]) -> (n: usize) {
        let wanted = Qit::bits_to_bytes(qits);
        let packed = self.value_change.as_ref();
        let take = if packed.len() <= wanted {
            packed.len()
        } else {
            wanted
        };
        let mut record: Vec<u8> = vstd::bytes::u64_to_le_bytes(self.timestamp);
        proof {
            vstd::bytes::lemma_auto_spec_u64_to_from_le_bytes();
        }
        let ghost head = record@;
        let mut i: usize = 0;
        while i < take
            invariant
                i <= take,
                take <= packed@.len(),
                head.len() == 8,
                record@ == head + packed@.subrange(0, i as int),
            decreases take - i,
        {
            record.push(packed[i]);
            i += 1;
            assert(record@ =~= head + packed@.subrange(0, i as int));
        }
        write_front(b, record.as_slice());
        record.len()
    }
}

impl<'a> ConsistentSize<Node<'a>> for Node<'a> {
    open spec fn spec_size(qits: usize) -> usize {
        (8 + packed_len(qits as nat, 2)) as usize
    }

    fn size(qits: usize) -> (r: usize) {
        8 + Qit::bits_to_bytes(qits)
    }
}

/// A value of a dump.
#[derive(Debug, Clone, Copy, PartialEq, Eq, Structural)]
pub enum Value {
    V0,
    V1,
    X,
    Z,
}

impl Value {
    pub open spec fn spec_qit(self) -> Qit {
        match self {
            Value::V0 => Qit::Zero,
            Value::V1 => Qit::One,
            Value::X => Qit::X,
            Value::Z => Qit::Z,
        }
    }

    /// The quaternary digit of the value.
    pub fn qit(self) -> (r: Qit)
        ensures
            r == self.spec_qit(),
    {
        match self {
            Value::V0 => Qit::Zero,
            Value::V1 => Qit::One,
            Value::X => Qit::X,
            Value::Z => Qit::Z,
        }
    }
}

/// Packs the values of a change, four to the byte, the first at the bottom
/// of the first byte.
pub fn pack_values(values: &[Value]) -> (r: Vec<u8>)
    ensures
        r@.len() == packed_len(values@.len(), 2),
        unpack::<Qit>(r@, values@.len()) == Seq::new(values@.len(), |k: int| values@[k].spec_qit()),
{
    let mut qits: Vec<Qit> = Vec::new();
    let mut i: usize = 0;
    while i < values.len()
        invariant
            i <= values@.len(),
            qits@.len() == i,
            forall|k: int| 0 <= k < i ==> qits@[k] == values@[k].spec_qit(),
        decreases values@.len() - i,
    {
        qits.push(values[i].qit());
        i += 1;
    }
    let mut out: Vec<u8> = Vec::new();
    crate::bytes::extend_zeroed(&mut out, crate::logic::bytes_for::<Qit>(values.len()));
    pack::<Qit>(qits.as_slice(), out.as_mut_slice());
    proof {
        assert(qits@ =~= Seq::new(values@.len(), |k: int| values@[k].spec_qit()));
    }
    out
}

/// The unit of a dump's timescale.
#[derive(Debug, Clone, Copy, PartialEq, Eq, Structural)]
pub enum TimescaleUnit {
    S,
    MS,
    US,
    NS,
    PS,
    FS,
}

/// The femtoseconds in one unit.
pub open spec fn unit_femtoseconds(unit: TimescaleUnit) -> u128 {
    match unit {
        TimescaleUnit::S => 1_000_000_000_000_000,
        TimescaleUnit::MS => 1_000_000_000_000,
        TimescaleUnit::US => 1_000_000_000,
        TimescaleUnit::NS => 1_000_000,
        TimescaleUnit::PS => 1_000,
        TimescaleUnit::FS => 1,
    }
}

/// The femtoseconds per timestep of a dump: its timescale in
/// femtoseconds, or 1 where it names none.
pub fn femtoseconds_per_timestep(timescale: Option<(u32, TimescaleUnit)>) -> (r: u128)
    ensures
        r == match timescale {
            Some((timesteps, unit)) => timesteps * unit_femtoseconds(unit),
            None => 1,
        },
{
    match timescale {
        Some((timesteps, unit)) => {
            let per: u128 = match unit {
                TimescaleUnit::S => 1_000_000_000_000_000,
                TimescaleUnit::MS => 1_000_000_000_000,
                TimescaleUnit::US => 1_000_000_000,
                TimescaleUnit::NS => 1_000_000,
                TimescaleUnit::PS => 1_000,
                TimescaleUnit::FS => 1,
            };
            assert(timesteps * per <= 0xFFFF_FFFF * 1_000_000_000_000_000) by (nonlinear_arith)
                requires
                    timesteps <= 0xFFFF_FFFF,
                    per <= 1_000_000_000_000_000,
            ;
            timesteps as u128 * per
        },
        None => 1,
    }
}

/// Loads value change dumps.
pub struct VcdLoader {}

impl VcdLoader {
    pub fn new() -> (r: Self) {
        VcdLoader {  }
    }

    /// Whether files of the extension `s` are value change dumps: whether
    /// `s` is "vcd".
    pub fn supports_file_extension(&self, s: &str) -> (r: bool)
        ensures
            r == (s.spec_bytes() == seq![0x76u8, 0x63u8, 0x64u8]),
    {
        let bytes = s.as_bytes();
        let r = bytes.len() == 3 && bytes[0] == 0x76 && bytes[1] == 0x63 && bytes[2] == 0x64;
        proof {
            if r {
                assert(bytes@ =~= seq![0x76u8, 0x63u8, 0x64u8]);
            }
        }
        r
    }

    /// What the loader loads, in words.
    pub fn description(&self) -> (r: &'static str)
        ensures
            r@ == "the Value Change Dump (VCD) loader"@,
    {
        "the Value Change Dump (VCD) loader"
    }
}

/// The type of a variable of a dump.
#[derive(Debug, Clone, Copy, PartialEq, Eq, Structural)]
pub enum VarType {
    Wire,
    String,
    /// Any type that the loader does not take.
    Other,
}

/// A variable as a dump declares it.
#[derive(Debug)]
pub struct VarDef {
    /// The number of the variable's id code.
    pub code: u64,
    pub reference: String,
    pub size: u32,
    pub var_type: VarType,
}

/// An item of a dump's header: a scope with its items, or a variable.
#[derive(Debug)]
pub enum ScopeItem {
    Scope { identifier: String, children: Vec<ScopeItem> },
    Var(VarDef),
}

/// A command of a dump's body.
#[derive(Debug)]
pub enum Command {
    Timestamp(u64),
    ChangeVector(u64, Vec<Value>),
    ChangeScalar(u64, Value),
    /// Any command that the loader passes over.
    Other,
}

/// Why a dump could not be loaded.
#[derive(Debug, Clone, Copy, PartialEq, Eq, Structural)]
pub enum VcdError {
    /// A variable has a type that the loader does not take.
    UnsupportedVarType,
    /// A change names a variable that the header did not declare.
    UnknownVariable,
    /// A vector change has more values than its variable is wide.
    TooManyValues,
    /// There are more scopes or variables than ids.
    TooManyItems,
    /// The database refused what the dump says.
    Database(Error),
}

/// The numbering of a dump's scopes and storages, and which storage each
/// variable got.
pub struct Numbering {
    /// The id of the next scope.
    pub next_scope: u32,
    /// The id of the next storage.
    pub next_storage: u32,
    /// The storage of each variable, by the number of its id code.
    pub storage_map: HashMap<u64, u32>,
}

/// How a variable of a given type and size is read: a wire as an unsigned
/// integer over its one storage, a string as text.
pub open spec fn kind_of(var_type: VarType, size: u32, storage: StorageId) -> InterpView {
    match var_type {
        VarType::Wire => InterpView::Integer {
            storages: seq![storage],
            msb_index: if size == 0 {
                0
            } else {
                (size - 1) as u32
            },
            lsb_index: 0,
            signedness: Signedness::Unsigned,
        },
        VarType::String => InterpView::Utf8 { storage },
        VarType::Other => InterpView::Uninterpreted,
    }
}

/// How a variable of a given type and size is read, or
/// `UnsupportedVarType` for a type that the loader does not take.
pub fn var_kind(var_type: VarType, size: u32, storage: StorageId) -> (r: Result<
    VariableInterp,
    VcdError,
>)
    ensures
        var_type == VarType::Other <==> r is Err,
        r is Err ==> r->Err_0 == VcdError::UnsupportedVarType,
        r is Ok ==> r->Ok_0@ == kind_of(var_type, size, storage),
{
    match var_type {
        VarType::Wire => {
            let mut storages: Vec<StorageId> = Vec::new();
            storages.push(storage);
            proof {
                assert(storages@ =~= seq![storage]);
            }
            Ok(
                VariableInterp::Integer {
                    storages,
                    msb_index: if size == 0 {
                        0
                    } else {
                        size - 1
                    },
                    lsb_index: 0,
                    signedness: Signedness::Unsigned,
                },
            )
        },
        VarType::String => Ok(VariableInterp::Utf8 { storage }),
        VarType::Other => Err(VcdError::UnsupportedVarType),
    }
}

/// One declaration that the header of a dump amounts to: a scope under
/// its id below its parent, or a variable with its storage.
#[derive(Debug)]
pub enum Declaration {
    Scope { parent: ScopeId, id: ScopeId, name: String },
    Var { scope: ScopeId, storage: StorageId, code: u64, size: u32, var_type: VarType, name: String },
}

/// What a declaration holds.
pub enum Step {
    Scope { parent: ScopeId, id: ScopeId, name: Seq<char> },
    Var {
        scope: ScopeId,
        storage: StorageId,
        code: u64,
        size: u32,
        var_type: VarType,
        name: Seq<char>,
    },
}

impl View for Declaration {
    type V = Step;

    open spec fn view(&self) -> Step {
        match *self {
            Declaration::Scope { parent, id, name } => Step::Scope { parent, id, name: name@ },
            Declaration::Var { scope, storage, code, size, var_type, name } => Step::Var {
                scope,
                storage,
                code,
                size,
                var_type,
                name: name@,
            },
        }
    }
}

/// What declarations hold, one by one.
pub open spec fn steps(declarations: Seq<Declaration>) -> Seq<Step> {
    declarations.map_values(|declaration: Declaration| declaration@)
}

/// The declarations that the items of a header amount to, in the order of
/// the header, with the ids that follow `next_scope` and `next_storage`,
/// and the two ids that come next.
///
/// Every scope gets the next scope id and stands before what it holds;
/// every variable gets the next storage id. There is no plan where the
/// ids run out (`TooManyItems`) or a variable has a type that the loader
/// does not take (`UnsupportedVarType`): the error is that of the first
/// such item.
pub open spec fn plan_of(
    items: Seq<ScopeItem>,
    parent: ScopeId,
    next_scope: u32,
    next_storage: u32,
) -> Result<(Seq<Step>, u32, u32), VcdError>
    decreases items,
{
    if items.len() == 0 {
        Ok((Seq::empty(), next_scope, next_storage))
    } else {
        match plan_of(items.drop_last(), parent, next_scope, next_storage) {
            Err(e) => Err(e),
            Ok((before, scope, storage)) => match items.last() {
                ScopeItem::Scope { identifier, children } => if scope == u32::MAX {
                    Err(VcdError::TooManyItems)
                } else {
                    match plan_of(children@, ScopeId(scope), (scope + 1) as u32, storage) {
                        Err(e) => Err(e),
                        Ok((inner, scope2, storage2)) => Ok(
                            (
                                before.push(
                                    Step::Scope { parent, id: ScopeId(scope), name: identifier@ },
                                ) + inner,
                                scope2,
                                storage2,
                            ),
                        ),
                    }
                },
                ScopeItem::Var(var) => if storage == u32::MAX {
                    Err(VcdError::TooManyItems)
                } else if var.var_type == VarType::Other {
                    Err(VcdError::UnsupportedVarType)
                } else {
                    Ok(
                        (
                            before.push(
                                Step::Var {
                                    scope: parent,
                                    storage: StorageId(storage),
                                    code: var.code,
                                    size: var.size,
                                    var_type: var.var_type,
                                    name: var.reference@,
                                },
                            ),
                            scope,
                            (storage + 1) as u32,
                        ),
                    )
                },
            },
        }
    }
}

/// Plans the items behind what `out` holds already.
fn plan_into(
    items: &Vec<ScopeItem>,
    parent: ScopeId,
    next_scope: u32,
    next_storage: u32,
    out: &mut Vec<Declaration>,
) -> (r: Result<(u32, u32), VcdError>)
    ensures
        match plan_of(items@, parent, next_scope, next_storage) {
            Err(e) => r == Err::<(u32, u32), VcdError>(e),
            Ok((planned, scope, storage)) => r == Ok::<(u32, u32), VcdError>((scope, storage))
                && steps(final(out)@) == steps(old(out)@) + planned,
        },
    decreases items,
{
    let mut scope = next_scope;
    let mut storage = next_storage;
    let mut i: usize = 0;
    proof {
        assert(items@.take(0) =~= Seq::<ScopeItem>::empty());
        assert(steps(out@) + Seq::<Step>::empty() =~= steps(out@));
    }
    while i < items.len()
        invariant
            i <= items@.len(),
            plan_of(items@.take(i as int), parent, next_scope, next_storage) is Ok,
            scope == plan_of(items@.take(i as int), parent, next_scope, next_storage)->Ok_0.1,
            storage == plan_of(items@.take(i as int), parent, next_scope, next_storage)->Ok_0.2,
            steps(out@) == steps(old(out)@) + plan_of(
                items@.take(i as int),
                parent,
                next_scope,
                next_storage,
            )->Ok_0.0,
        decreases items@.len() - i,
    {
        let ghost front = items@.take(i as int);
        let ghost upto = items@.take(i + 1);
        let ghost before = plan_of(front, parent, next_scope, next_storage)->Ok_0.0;
        let ghost held = out@;
        proof {
            assert(upto.drop_last() =~= front);
            assert(upto.last() == items@[i as int]);
            lemma_failed_plan(items@, i + 1, parent, next_scope, next_storage);
        }
        match &items[i] {
            ScopeItem::Scope { identifier, children } => {
                if scope == u32::MAX {
                    return Err(VcdError::TooManyItems);
                }
                let id = ScopeId(scope);
                out.push(Declaration::Scope { parent, id, name: identifier.clone() });
                let ghost pushed = out@;
                proof {
                    assert(steps(pushed) =~= steps(held).push(
                        Step::Scope { parent, id, name: identifier@ },
                    ));
                }
                match plan_into(children, id, scope + 1, storage, out) {
                    Ok((scope2, storage2)) => {
                        scope = scope2;
                        storage = storage2;
                        proof {
                            let inner = plan_of(upto, parent, next_scope, next_storage)->Ok_0.0;
                            assert(steps(out@) =~= steps(old(out)@) + inner);
                        }
                    },
                    Err(e) => {
                        return Err(e);
                    },
                }
            },
            ScopeItem::Var(var) => {
                if storage == u32::MAX {
                    return Err(VcdError::TooManyItems);
                }
                match var.var_type {
                    VarType::Other => {
                        return Err(VcdError::UnsupportedVarType);
                    },
                    _ => {},
                }
                out.push(
                    Declaration::Var {
                        scope: parent,
                        storage: StorageId(storage),
                        code: var.code,
                        size: var.size,
                        var_type: var.var_type,
                        name: var.reference.clone(),
                    },
                );
                proof {
                    let step = Step::Var {
                        scope: parent,
                        storage: StorageId(storage),
                        code: var.code,
                        size: var.size,
                        var_type: var.var_type,
                        name: var.reference@,
                    };
                    assert(out@.last()@ == step);
                    assert(steps(out@) =~= steps(held).push(step));
                    let inner = plan_of(upto, parent, next_scope, next_storage)->Ok_0.0;
                    assert(inner == before.push(step));
                    assert(steps(out@) =~= steps(old(out)@) + inner);
                }
                storage = storage + 1;
            },
        }
        i += 1;
    }
    proof {
        assert(items@.take(i as int) =~= items@);
    }
    Ok((scope, storage))
}

/// Where the plan of the first `count` items fails, the plan of all items
/// fails in the same way.
proof fn lemma_failed_plan(
    items: Seq<ScopeItem>,
    count: int,
    parent: ScopeId,
    next_scope: u32,
    next_storage: u32,
)
    requires
        0 <= count <= items.len(),
    ensures
        plan_of(items.take(count), parent, next_scope, next_storage) is Err ==> plan_of(
            items,
            parent,
            next_scope,
            next_storage,
        ) == plan_of(items.take(count), parent, next_scope, next_storage),
    decreases items.len() - count,
{
    if count < items.len() {
        lemma_failed_plan(items, count + 1, parent, next_scope, next_storage);
        assert(items.take(count + 1).drop_last() =~= items.take(count));
    } else {
        assert(items.take(count) =~= items);
    }
}

/// Plans the declarations that the items of a header amount to: every
/// scope under the next scope id, every variable with the next storage
/// id. Returns them in the order of the header, with the two ids that
/// come next.
///
/// Fails with `TooManyItems` where the ids run out and with
/// `UnsupportedVarType` where a variable has a type that the loader does
/// not take.
pub fn plan_scopes(items: &Vec<ScopeItem>, parent: ScopeId, next_scope: u32, next_storage: u32) -> (r:
    Result<(Vec<Declaration>, u32, u32), VcdError>)
    ensures
        match plan_of(items@, parent, next_scope, next_storage) {
            Err(e) => r == Err::<(Vec<Declaration>, u32, u32), VcdError>(e),
            Ok((planned, scope, storage)) => r is Ok && steps(r->Ok_0.0@) == planned && r->Ok_0.1
                == scope && r->Ok_0.2 == storage,
        },
{
    let mut out: Vec<Declaration> = Vec::new();
    match plan_into(items, parent, next_scope, next_storage, &mut out) {
        Ok((scope, storage)) => {
            proof {
                let planned = plan_of(items@, parent, next_scope, next_storage)->Ok_0.0;
                assert(Seq::<Step>::empty() + planned =~= planned);
                assert(steps(Seq::<Declaration>::empty()) =~= Seq::<Step>::empty());
            }
            Ok((out, scope, storage))
        },
        Err(e) => Err(e),
    }
}

/// What a database and a numbering hold of the declarations of a header.
pub struct Outline {
    /// The name of every scope.
    pub names: Map<ScopeId, Seq<char>>,
    /// The parent of every scope.
    pub parents: Map<ScopeId, ScopeId>,
    /// The scopes directly below every scope, in their order.
    pub children: Map<ScopeId, Seq<ScopeId>>,
    /// The variables of every scope, in their order.
    pub variables: Map<ScopeId, Seq<VariableView>>,
    /// The storages in the order of their declaration.
    pub declared: Seq<Storage>,
    /// The declared signals with their changes.
    pub signals: Map<StorageId, SignalView>,
    /// The number of bytes of the change store.
    pub bytes_used: nat,
    /// The storage of each variable, by the number of its id code.
    pub storage_map: Map<u64, u32>,
    /// The id of the next scope.
    pub next_scope: u32,
    /// The id of the next storage.
    pub next_storage: u32,
}

/// What variables hold, one by one.
pub open spec fn views(variables: Seq<Variable>) -> Seq<VariableView> {
    Seq::new(variables.len(), |k: int| variables[k]@)
}

/// What `waves` and `numbering` hold of declarations.
pub open spec fn outline_of(waves: &Waves, numbering: &Numbering) -> Outline {
    outline(waves, numbering.storage_map@, numbering.next_scope, numbering.next_storage)
}

/// What `waves` holds of declarations, beside a numbering.
pub open spec fn outline(
    waves: &Waves,
    storage_map: Map<u64, u32>,
    next_scope: u32,
    next_storage: u32,
) -> Outline {
    let scopes = waves.scopes()@;
    Outline {
        names: scopes.names,
        parents: scopes.parents,
        children: scopes.children,
        variables: Map::new(
            |id: ScopeId| scopes.variables.contains_key(id),
            |id: ScopeId| views(scopes.variables[id]),
        ),
        declared: waves.declared(),
        signals: Map::new(
            |id: StorageId| waves.signal(id) is Some,
            |id: StorageId| waves.signal(id)->Some_0,
        ),
        bytes_used: waves.bytes_used(),
        storage_map,
        next_scope,
        next_storage,
    }
}

/// The storage that a variable of `size` units gets under the id
/// `storage`: four-valued logic, as wide as the variable.
pub open spec fn storage_of(storage: StorageId, size: u32) -> Storage {
    Storage { id: storage, ty: StorageType::FourLogic, width: size, start: 0 }
}

/// The outline after one declaration was made. A scope becomes the last
/// child of its parent; a variable gets a signal without changes, and
/// becomes the last variable of its scope.
pub open spec fn declared_one(o: Outline, step: Step) -> Outline {
    match step {
        Step::Scope { parent, id, name } => Outline {
            names: o.names.insert(id, name),
            parents: o.parents.insert(id, parent),
            children: o.children.insert(id, Seq::empty()).insert(
                parent,
                o.children[parent].push(id),
            ),
            variables: o.variables.insert(id, Seq::empty()),
            next_scope: (id.0 + 1) as u32,
            ..o
        },
        Step::Var { scope, storage, code, size, var_type, name } => Outline {
            variables: o.variables.insert(
                scope,
                o.variables[scope].push(
                    VariableView { name, interp: kind_of(var_type, size, storage) },
                ),
            ),
            declared: o.declared.push(storage_of(storage, size)),
            signals: o.signals.insert(storage, SignalView::fresh(2, size as nat, o.bytes_used)),
            bytes_used: used_with_block(o.bytes_used, record_size(size as nat, 2)),
            storage_map: o.storage_map.insert(code, storage.0),
            next_storage: (storage.0 + 1) as u32,
            ..o
        },
    }
}

/// Why a declaration cannot be made in a database of the outline `o`,
/// if it cannot: the first of these that holds. Its id is the greatest of
/// all, so that no id would follow it (`TooManyItems`); it is a variable
/// of a type that the loader does not take (`UnsupportedVarType`); the
/// parent, or the scope of the variable, is not there, or not below the
/// scope's own id (`OutOfBounds`); the variable has no units
/// (`WidthZero`); its storage is declared already (`AlreadyDeclared`); the
/// first block of its signal would end beyond the greatest `usize`
/// (`AllocFailure`).
pub open spec fn refused(o: Outline, step: Step) -> Option<VcdError> {
    match step {
        Step::Scope { parent, id, name } => if id.0 == u32::MAX {
            Some(VcdError::TooManyItems)
        } else if parent.0 >= id.0 || !o.names.contains_key(parent) {
            Some(VcdError::Database(Error::OutOfBounds))
        } else {
            None
        },
        Step::Var { scope, storage, code, size, var_type, name } => if storage.0 == u32::MAX {
            Some(VcdError::TooManyItems)
        } else if var_type == VarType::Other {
            Some(VcdError::UnsupportedVarType)
        } else if !o.names.contains_key(scope) {
            Some(VcdError::Database(Error::OutOfBounds))
        } else if size == 0 {
            Some(VcdError::Database(Error::WidthZero))
        } else if o.signals.contains_key(storage) {
            Some(VcdError::Database(Error::AlreadyDeclared))
        } else if o.bytes_used + 8 + block_size(record_size(size as nat, 2)) > usize::MAX {
            Some(VcdError::Database(Error::AllocFailure))
        } else {
            None
        },
    }
}

/// The outline after the declarations were made one after the other, as
/// far as none was refused, and why the first that was refused was.
pub open spec fn declared_until(o: Outline, planned: Seq<Step>) -> (Outline, Option<VcdError>)
    decreases planned.len(),
{
    if planned.len() == 0 {
        (o, None)
    } else {
        match refused(o, planned[0]) {
            Some(e) => (o, Some(e)),
            None => declared_until(declared_one(o, planned[0]), planned.drop_first()),
        }
    }
}

/// Makes one declaration in the database and notes it in the numbering.
///
/// Fails where the database refuses the declaration; nothing changes
/// then.
pub fn declare(waves: &mut Waves, numbering: &mut Numbering, declaration: &Declaration) -> (r:
    Result<(), VcdError>)
    requires
        old(waves).wf(),
    ensures
        final(waves).wf(),
        final(waves).timesteps() == old(waves).timesteps(),
        r == match refused(outline_of(old(waves), old(numbering)), declaration@) {
            Some(e) => Err::<(), VcdError>(e),
            None => Ok(()),
        },
        outline_of(final(waves), final(numbering)) == if r is Ok {
            declared_one(outline_of(old(waves), old(numbering)), declaration@)
        } else {
            outline_of(old(waves), old(numbering))
        },
{
    let ghost o = outline_of(waves, numbering);
    match declaration {
        Declaration::Scope { parent, id, name } => {
            if id.0 == u32::MAX {
                return Err(VcdError::TooManyItems);
            }
            match waves.declare_scope(*parent, *id, name.clone()) {
                Ok(()) => {},
                Err(_) => {
                    proof {
                        let after = outline_of(waves, numbering);
                        assert(after.variables =~= o.variables);
                        assert(after.signals =~= o.signals);
                    }
                    return Err(VcdError::Database(Error::OutOfBounds));
                },
            }
            numbering.next_scope = id.0 + 1;
            proof {
                let after = outline_of(waves, numbering);
                let expected = declared_one(o, declaration@);
                assert(views(Seq::<Variable>::empty()) =~= Seq::<VariableView>::empty());
                assert(after.variables =~= expected.variables);
                assert(after.signals =~= expected.signals);
            }
            Ok(())
        },
        Declaration::Var { scope, storage, code, size, var_type, name } => {
            if storage.0 == u32::MAX {
                return Err(VcdError::TooManyItems);
            }
            let interp = match var_kind(*var_type, *size, *storage) {
                Ok(interp) => interp,
                Err(e) => {
                    return Err(e);
                },
            };
            if !waves.scope_tree().has(*scope) {
                return Err(VcdError::Database(Error::OutOfBounds));
            }
            match waves.declare_signal(
                Storage { id: *storage, ty: StorageType::FourLogic, width: *size, start: 0 },
            ) {
                Ok(()) => {},
                Err(e) => {
                    proof {
                        let after = outline_of(waves, numbering);
                        assert(after.variables =~= o.variables);
                        assert(after.signals =~= o.signals);
                    }
                    return Err(VcdError::Database(e));
                },
            }
            numbering.next_storage = storage.0 + 1;
            numbering.storage_map.insert(*code, storage.0);
            let variable = Variable { name: name.clone(), interp };
            match waves.declare_variable(*scope, variable) {
                Ok(()) => {},
                Err(_) => {},
            }
            proof {
                let after = outline_of(waves, numbering);
                let expected = declared_one(o, declaration@);
                let added = VariableView { name: name@, interp: kind_of(*var_type, *size, *storage) };
                assert(variable@ == added);
                let before = old(waves).scopes()@.variables[*scope];
                assert(old(waves).scopes()@.variables.contains_key(*scope));
                assert(views(before.push(variable)) =~= views(before).push(added));
                assert(after.variables[*scope] == expected.variables[*scope]);
                assert(after.variables =~= expected.variables);
                assert(after.signals =~= expected.signals);
            }
            Ok(())
        },
    }
}

/// The plan of the items with the ids that follow those of `numbering`.
pub open spec fn plan_for(items: Seq<ScopeItem>, parent: ScopeId, numbering: &Numbering) -> Result<
    (Seq<Step>, u32, u32),
    VcdError,
> {
    plan_of(items, parent, numbering.next_scope, numbering.next_storage)
}

/// Declares the items of a dump's header in the database, in their order:
/// every scope under a fresh id below its parent, every variable under a
/// fresh storage of four-valued logic that is as wide as the variable.
/// The ids follow those of `numbering`, which notes the storage of every
/// variable.
///
/// Fails with `TooManyItems` or `UnsupportedVarType` where there is no
/// plan for the items; nothing changes then. Fails where the database
/// refuses a declaration; the declarations before it are made then.
pub fn generate_scopes(
    waves: &mut Waves,
    items: &Vec<ScopeItem>,
    parent: ScopeId,
    numbering: &mut Numbering,
) -> (r: Result<(), VcdError>)
    requires
        old(waves).wf(),
    ensures
        final(waves).wf(),
        final(waves).timesteps() == old(waves).timesteps(),
        match plan_for(items@, parent, old(numbering)) {
            Err(e) => r == Err::<(), VcdError>(e) && outline_of(final(waves), final(numbering))
                == outline_of(old(waves), old(numbering)),
            Ok((planned, _, _)) => outline_of(final(waves), final(numbering)) == declared_until(
                outline_of(old(waves), old(numbering)),
                planned,
            ).0 && r == match declared_until(outline_of(old(waves), old(numbering)), planned).1 {
                Some(e) => Err::<(), VcdError>(e),
                None => Ok(()),
            },
        },
{
    let ghost o = outline_of(waves, numbering);
    let (declarations, scope, storage) = match plan_scopes(
        items,
        parent,
        numbering.next_scope,
        numbering.next_storage,
    ) {
        Ok(plan) => plan,
        Err(e) => {
            return Err(e);
        },
    };
    let ghost planned = steps(declarations@);
    let mut i: usize = 0;
    proof {
        assert(planned.skip(0) =~= planned);
    }
    while i < declarations.len()
        invariant
            i <= declarations@.len(),
            planned == steps(declarations@),
            o == outline_of(old(waves), old(numbering)),
            plan_for(items@, parent, old(numbering)) == Ok::<(Seq<Step>, u32, u32), VcdError>(
                (planned, scope, storage),
            ),
            waves.wf(),
            waves.timesteps() == old(waves).timesteps(),
            declared_until(outline_of(waves, numbering), planned.skip(i as int)) == declared_until(
                o,
                planned,
            ),
        decreases declarations@.len() - i,
    {
        proof {
            assert(planned.skip(i as int)[0] == declarations@[i as int]@);
            assert(planned.skip(i as int).drop_first() =~= planned.skip(i + 1));
        }
        match declare(waves, numbering, &declarations[i]) {
            Ok(()) => {},
            Err(e) => {
                return Err(e);
            },
        }
        i += 1;
    }
    Ok(())
}

/// Writes the values of a change into the slot that the database lends:
/// value `k` into unit `k`.
pub fn write_values(slot: &mut LogicSliceMut<'_, Four>, values: &[Value])
    requires
        old(slot).wf(),
        values@.len() <= old(slot)@.len(),
    ensures
        final(slot).wf(),
        final(slot).spec_width() == old(slot).spec_width(),
        final(final(slot).bytes)@ == final(old(slot).bytes)@,
        final(slot)@.len() == old(slot)@.len(),
        forall|k: int| 0 <= k < values@.len() ==> final(slot)@[k] == values@[k].spec_four(),
        forall|k: int| values@.len() <= k < old(slot)@.len() ==> final(slot)@[k] == old(slot)@[k],
{
    let mut i: usize = 0;
    while i < values.len()
        invariant
            i <= values@.len(),
            slot.wf(),
            slot.spec_width() == old(slot).spec_width(),
            final(slot.bytes)@ == final(old(slot).bytes)@,
            slot@.len() == old(slot)@.len(),
            values@.len() <= slot@.len(),
            forall|k: int| 0 <= k < i ==> slot@[k] == values@[k].spec_four(),
            forall|k: int| i <= k < slot@.len() ==> slot@[k] == old(slot)@[k],
        decreases values@.len() - i,
    {
        slot.set(i, values[i].four());
        i += 1;
    }
}

impl Value {
    pub open spec fn spec_four(self) -> Four {
        match self {
            Value::V0 => Four::Zero,
            Value::V1 => Four::One,
            Value::X => Four::Unknown,
            Value::Z => Four::HighImpedance,
        }
    }

    /// The four-valued unit of the value.
    pub fn four(self) -> (r: Four)
        ensures
            r == self.spec_four(),
    {
        match self {
            Value::V0 => Four::Zero,
            Value::V1 => Four::One,
            Value::X => Four::Unknown,
            Value::Z => Four::HighImpedance,
        }
    }
}

/// The units that a change of `values` gives a variable of `width` units:
/// value `k` in unit `k`, and zero above the values.
pub open spec fn units_of(values: Seq<Value>, width: nat) -> Seq<Four> {
    Seq::new(
        width,
        |k: int|
            if k < values.len() {
                values[k].spec_four()
            } else {
                Four::Zero
            },
    )
}

/// Whether `after` is the signal `before` with one more change behind the
/// others, at the timestep index `stamp`, whose units are those of
/// `values`.
pub open spec fn written(
    before: SignalView,
    after: Option<SignalView>,
    stamp: u32,
    values: Seq<Value>,
) -> bool {
    &&& after is Some
    &&& after->Some_0.changes.len() == before.changes.len() + 1
    &&& appended(before, after, stamp, after->Some_0.changes.last().bytes)
    &&& well_packed::<Four>(after->Some_0.changes.last().bytes, before.width)
    &&& unpack::<Four>(after->Some_0.changes.last().bytes, before.width) == units_of(
        values,
        before.width,
    )
}

/// What comes of appending a change of `values` to the signal `id`.
pub open spec fn change_result(waves: &Waves, id: StorageId, values: Seq<Value>) -> Result<
    (),
    VcdError,
> {
    match waves.signal(id) {
        None => Err(VcdError::Database(Error::UnknownSignal)),
        Some(signal) => if signal.bits != 2 {
            Err(VcdError::UnsupportedVarType)
        } else if values.len() > signal.width {
            Err(VcdError::TooManyValues)
        } else if !waves.last_clean(id) {
            Err(VcdError::Database(Error::InvalidEncoding { offset: signal.width as usize }))
        } else if waves.timesteps().len() == 0 {
            Err(VcdError::Database(Error::OutOfBounds))
        } else if !waves.can_take(id) {
            Err(VcdError::Database(Error::AllocFailure))
        } else {
            Ok(())
        },
    }
}

/// The number of bytes of the change store after a change was appended to
/// the signal `id`, or was not: a signal whose last block is full gets a
/// new block.
pub open spec fn used_after(waves: &Waves, id: StorageId, appended: bool) -> nat {
    let signal = waves.signal(id)->Some_0;
    if appended && block_full(signal.changes.len()) {
        used_with_block(waves.bytes_used(), record_size(signal.width, signal.bits))
    } else {
        waves.bytes_used()
    }
}

/// Appends a change of `values` to the signal `id`, at the most recent
/// timestep. Units above the values are zero.
///
/// Fails where the signal is not declared, is not of four-valued logic or
/// is narrower than the values, and where the database refuses the change;
/// nothing changes then.
pub fn write_change(waves: &mut Waves, id: StorageId, values: &[Value]) -> (r: Result<
    (),
    VcdError,
>)
    requires
        old(waves).wf(),
    ensures
        final(waves).wf(),
        final(waves).declared() == old(waves).declared(),
        final(waves).scopes() == old(waves).scopes(),
        final(waves).timesteps() == old(waves).timesteps(),
        forall|other: StorageId|
            other != id ==> final(waves).signal(other) == old(waves).signal(other),
        r == change_result(old(waves), id, values@),
        r is Err ==> final(waves).signal(id) == old(waves).signal(id),
        r is Ok ==> written(
            old(waves).signal(id)->Some_0,
            final(waves).signal(id),
            (old(waves).timesteps().len() - 1) as u32,
            values@,
        ),
        r is Ok ==> final(waves).signal(id)->Some_0.offsets.last() == old(waves).signal(
            id,
        )->Some_0.next_record(old(waves).bytes_used()),
        final(waves).bytes_used() == used_after(old(waves), id, r is Ok),
{
    let (ty, width, _count) = match waves.signal_info(id) {
        Ok(info) => info,
        Err(e) => {
            return Err(VcdError::Database(e));
        },
    };
    match ty {
        StorageType::FourLogic => {},
        _ => {
            return Err(VcdError::UnsupportedVarType);
        },
    }
    if values.len() > width {
        return Err(VcdError::TooManyValues);
    }
    let ghost before = waves.signal(id)->Some_0;
    match waves.push_change(id) {
        Ok(ChangeSlot::Four(mut slot)) => {
            let ghost blank = slot@;
            proof {
                lemma_blank::<Four>(slot.raw(), before.width);
                assert(0u8 & 3 == 0) by (bit_vector);
                assert(Four::spec_from_bits(0) == Four::Zero);
                assert(blank.len() == before.width);
                assert(forall|k: int| 0 <= k < before.width ==> blank[k] == Four::Zero);
            }
            write_values(&mut slot, values);
            proof {
                assert(slot@.len() == before.width);
                assert(slot@ =~= units_of(values@, before.width));
            }
            Ok(())
        },
        Ok(_) => Err(VcdError::UnsupportedVarType),
        Err(e) => Err(VcdError::Database(e)),
    }
}

/// The variable that a command changes, by the number of its id code, and
/// the values that it gives.
pub open spec fn change_of(command: Command) -> Option<(u64, Seq<Value>)> {
    match command {
        Command::ChangeVector(code, values) => Some((code, values@)),
        Command::ChangeScalar(code, value) => Some((code, seq![value])),
        _ => None,
    }
}

/// The timesteps after the clock was moved to `timestep`, or why it cannot
/// be moved there.
pub open spec fn clock_after(steps: Seq<u64>, timestep: u64) -> Result<Seq<u64>, VcdError> {
    if steps.len() > 0 && timestep < steps.last() {
        Err(VcdError::Database(Error::TimestepRegression))
    } else if steps.len() > 0 && timestep == steps.last() {
        Ok(steps)
    } else if steps.len() >= crate::timesteps::MAX_TIMESTEPS {
        Err(VcdError::Database(Error::TimestepIndexOverflow))
    } else {
        Ok(steps.push(timestep))
    }
}

/// Notes one command of a dump's body in the database: a timestamp moves
/// the clock, a change appends a value to its variable's storage, and
/// nothing comes of any other command. Where the command fails, nothing
/// changes.
pub fn apply_command(waves: &mut Waves, numbering: &Numbering, command: &Command) -> (r: Result<
    (),
    VcdError,
>)
    requires
        old(waves).wf(),
    ensures
        final(waves).wf(),
        final(waves).declared() == old(waves).declared(),
        final(waves).scopes() == old(waves).scopes(),
        command is Other ==> r is Ok,
        command is Timestamp ==> (match clock_after(
            old(waves).timesteps(),
            command->Timestamp_0,
        ) {
            Ok(steps) => r is Ok && final(waves).timesteps() == steps,
            Err(e) => r == Err::<(), VcdError>(e) && final(waves).timesteps() == old(
                waves,
            ).timesteps(),
        }),
        !(command is Timestamp) ==> final(waves).timesteps() == old(waves).timesteps(),
        change_of(*command) is None ==> forall|id: StorageId|
            final(waves).signal(id) == old(waves).signal(id),
        change_of(*command) is Some ==> ({
            let (code, values) = change_of(*command)->Some_0;
            if numbering.storage_map@.contains_key(code) {
                let id = StorageId(numbering.storage_map@[code]);
                &&& r == change_result(old(waves), id, values)
                &&& forall|other: StorageId|
                    other != id ==> final(waves).signal(other) == old(waves).signal(other)
                &&& r is Err ==> final(waves).signal(id) == old(waves).signal(id)
                &&& r is Ok ==> written(
                    old(waves).signal(id)->Some_0,
                    final(waves).signal(id),
                    (old(waves).timesteps().len() - 1) as u32,
                    values,
                )
                &&& r is Ok ==> final(waves).signal(id)->Some_0.offsets.last() == old(
                    waves,
                ).signal(id)->Some_0.next_record(old(waves).bytes_used())
                &&& final(waves).bytes_used() == used_after(old(waves), id, r is Ok)
            } else {
                &&& r == Err::<(), VcdError>(VcdError::UnknownVariable)
                &&& forall|id: StorageId| final(waves).signal(id) == old(waves).signal(id)
                &&& final(waves).bytes_used() == old(waves).bytes_used()
            }
        }),
        change_of(*command) is None ==> final(waves).bytes_used() == old(waves).bytes_used(),
{
    match command {
        Command::Timestamp(timestamp) => {
            match waves.push_timestep(*timestamp) {
                Ok(()) => Ok(()),
                Err(e) => Err(VcdError::Database(e)),
            }
        },
        Command::ChangeVector(code, values) => {
            match numbering.storage_map.get(code) {
                Some(storage) => write_change(waves, StorageId(*storage), values.as_slice()),
                None => Err(VcdError::UnknownVariable),
            }
        },
        Command::ChangeScalar(code, value) => {
            match numbering.storage_map.get(code) {
                Some(storage) => {
                    let mut values: Vec<Value> = Vec::new();
                    values.push(*value);
                    proof {
                        assert(values@ =~= seq![*value]);
                    }
                    write_change(waves, StorageId(*storage), values.as_slice())
                },
                None => Err(VcdError::UnknownVariable),
            }
        },
        Command::Other => Ok(()),
    }
}

/// What a database holds of the body of a dump.
pub struct Trace {
    /// The distinct timesteps, in their order.
    pub timesteps: Seq<u64>,
    /// The changes of every signal, in their order: of each change the
    /// index of its timestep and its units.
    pub notes: Map<StorageId, Seq<(u32, Seq<Four>)>>,
    /// The number of bytes of the change store.
    pub bytes_used: nat,
}

/// The changes of a signal as units: of each change the index of its
/// timestep and its units.
pub open spec fn notes_of(signal: SignalView) -> Seq<(u32, Seq<Four>)> {
    Seq::new(
        signal.changes.len(),
        |k: int| (signal.changes[k].timestep, unpack::<Four>(signal.changes[k].bytes, signal.width)),
    )
}

/// The trace after one command was noted in a database of the outline
/// `o`, or why the command fails. A timestamp moves the clock; a change
/// appends the units of its values to the storage of its variable, at the
/// timestep that is current; nothing comes of any other command.
///
/// A change fails, with the first of these that holds: where its variable
/// has no storage (`UnknownVariable`), the storage no signal
/// (`UnknownSignal`), where the signal is not of four-valued logic
/// (`UnsupportedVarType`) or is narrower than the values
/// (`TooManyValues`), where there is no timestep yet (`OutOfBounds`), and
/// where the signal has as many changes as it can have, or needs a block
/// that would end beyond the greatest `usize` (`AllocFailure`).
pub open spec fn noted_one(t: Trace, o: Outline, command: Command) -> Result<Trace, VcdError> {
    match change_of(command) {
        None => match command {
            Command::Timestamp(timestamp) => match clock_after(t.timesteps, timestamp) {
                Ok(timesteps) => Ok(Trace { timesteps, ..t }),
                Err(e) => Err(e),
            },
            _ => Ok(t),
        },
        Some((code, values)) => if !o.storage_map.contains_key(code) {
            Err(VcdError::UnknownVariable)
        } else {
            let id = StorageId(o.storage_map[code]);
            let shape = o.signals[id];
            let count = t.notes[id].len();
            if !o.signals.contains_key(id) {
                Err(VcdError::Database(Error::UnknownSignal))
            } else if shape.bits != 2 {
                Err(VcdError::UnsupportedVarType)
            } else if values.len() > shape.width {
                Err(VcdError::TooManyValues)
            } else if t.timesteps.len() == 0 {
                Err(VcdError::Database(Error::OutOfBounds))
            } else if 2 * count + 2 > usize::MAX || (block_full(count) && t.bytes_used + 8
                + block_size(record_size(shape.width, 2)) > usize::MAX) {
                Err(VcdError::Database(Error::AllocFailure))
            } else {
                Ok(
                    Trace {
                        notes: t.notes.insert(
                            id,
                            t.notes[id].push(
                                ((t.timesteps.len() - 1) as u32, units_of(values, shape.width)),
                            ),
                        ),
                        bytes_used: if block_full(count) {
                            used_with_block(t.bytes_used, record_size(shape.width, 2))
                        } else {
                            t.bytes_used
                        },
                        ..t
                    },
                )
            }
        },
    }
}

/// The trace after the commands were noted one after the other, or why
/// the first command that fails does.
pub open spec fn noted_all(t: Trace, o: Outline, commands: Seq<Command>) -> Result<Trace, VcdError>
    decreases commands.len(),
{
    if commands.len() == 0 {
        Ok(t)
    } else {
        match noted_one(t, o, commands[0]) {
            Err(e) => Err(e),
            Ok(next) => noted_all(next, o, commands.drop_first()),
        }
    }
}

/// The outline of a database without declarations, beside a numbering
/// that starts with the scope 1 and the storage 0: the root scope alone.
pub open spec fn blank() -> Outline {
    Outline {
        names: ScopesView::root().names,
        parents: ScopesView::root().parents,
        children: ScopesView::root().children,
        variables: Map::empty().insert(ScopeId(0), Seq::empty()),
        declared: Seq::empty(),
        signals: Map::empty(),
        bytes_used: 0,
        storage_map: Map::empty(),
        next_scope: 1,
        next_storage: 0,
    }
}

/// The trace of a database of the outline `o` before any command: no
/// timestep, and no change of any signal.
pub open spec fn silent(o: Outline) -> Trace {
    Trace {
        timesteps: Seq::empty(),
        notes: Map::new(
            |id: StorageId| o.signals.contains_key(id),
            |id: StorageId| Seq::empty(),
        ),
        bytes_used: o.bytes_used,
    }
}

/// What loading a dump comes to: the outline that its header gives and
/// the trace that its body gives, or why the first item or command that
/// fails does. The scopes are numbered from 1, below the root; the
/// storages from 0.
pub open spec fn loaded(items: Seq<ScopeItem>, commands: Seq<Command>) -> Result<
    (Outline, Trace),
    VcdError,
> {
    match plan_of(items, ScopeId(0), 1, 0) {
        Err(e) => Err(e),
        Ok((planned, _, _)) => {
            let (o, refusal) = declared_until(blank(), planned);
            match refusal {
                Some(e) => Err(e),
                None => match noted_all(silent(o), o, commands) {
                    Err(e) => Err(e),
                    Ok(t) => Ok((o, t)),
                },
            }
        },
    }
}

/// Whether `waves` holds the trace `t` of the signals of the outline `o`:
/// the timesteps, and of every signal the changes, well packed.
pub open spec fn traced(waves: &Waves, o: Outline, t: Trace) -> bool {
    &&& waves.timesteps() == t.timesteps
    &&& waves.bytes_used() == t.bytes_used
    &&& forall|id: StorageId| #[trigger] o.signals.contains_key(id) <==> waves.signal(id) is Some
    &&& forall|id: StorageId| #[trigger] o.signals.contains_key(id) <==> t.notes.contains_key(id)
    &&& forall|id: StorageId| #[trigger]
        o.signals.contains_key(id) ==> {
            let signal = waves.signal(id)->Some_0;
            &&& signal.bits == o.signals[id].bits
            &&& signal.width == o.signals[id].width
            &&& signal.first == o.signals[id].first
            &&& notes_of(signal) == t.notes[id]
            &&& forall|k: int|
                0 <= k < signal.changes.len() ==> well_packed::<Four>(
                    #[trigger] signal.changes[k].bytes,
                    signal.width,
                )
        }
}

/// Whether `waves` holds the declarations of the outline `o` and the trace
/// `t`.
pub open spec fn shows(waves: &Waves, o: Outline, t: Trace) -> bool {
    let got = outline(waves, o.storage_map, o.next_scope, o.next_storage);
    &&& waves.wf()
    &&& got.names == o.names
    &&& got.parents == o.parents
    &&& got.children == o.children
    &&& got.variables == o.variables
    &&& got.declared == o.declared
    &&& traced(waves, o, t)
}

/// A signal of an outline after declarations is one that was there before
/// or one without changes.
proof fn lemma_declared_signals(o: Outline, planned: Seq<Step>, id: StorageId)
    requires
        declared_until(o, planned).0.signals.contains_key(id),
    ensures
        (o.signals.contains_key(id) && declared_until(o, planned).0.signals[id] == o.signals[id])
            || declared_until(o, planned).0.signals[id].changes.len() == 0,
    decreases planned.len(),
{
    if planned.len() > 0 && refused(o, planned[0]) is None {
        let next = declared_one(o, planned[0]);
        lemma_declared_signals(next, planned.drop_first(), id);
    }
}

/// Loads a parsed dump into a database: the items of its header, then the
/// commands of its body in their order. The scopes are numbered from 1,
/// below the root; the storages from 0.
///
/// Fails where there is no plan for the header, where the database
/// refuses a declaration, and where a command fails: with the error of the
/// first of them.
pub fn load_vcd(items: &Vec<ScopeItem>, commands: &Vec<Command>) -> (r: Result<Waves, VcdError>)
    ensures
        match loaded(items@, commands@) {
            Err(e) => r is Err && r->Err_0 == e,
            Ok((o, t)) => r is Ok && shows(&r->Ok_0, o, t),
        },
{
    let mut waves = Waves::new();
    let mut numbering = Numbering { next_scope: 1, next_storage: 0, storage_map: HashMap::new() };
    proof {
        let first = outline_of(&waves, &numbering);
        assert(views(Seq::<Variable>::empty()) =~= Seq::<VariableView>::empty());
        assert(first.variables =~= blank().variables);
        assert(first.signals =~= blank().signals);
        assert(first.storage_map =~= blank().storage_map);
        assert(first == blank());
    }
    match generate_scopes(&mut waves, items, ScopeId(0), &mut numbering) {
        Ok(()) => {},
        Err(e) => {
            return Err(e);
        },
    }
    let ghost planned = plan_of(items@, ScopeId(0), 1, 0)->Ok_0.0;
    let ghost o = outline_of(&waves, &numbering);
    let ghost declared = waves;
    let ghost mut t = silent(o);
    let mut i: usize = 0;
    proof {
        assert(commands@.skip(0) =~= commands@);
        assert forall|id: StorageId| #[trigger] o.signals.contains_key(id) implies (waves.signal(
            id,
        )->Some_0).changes.len() == 0 by {
            lemma_declared_signals(blank(), planned, id);
        }
        assert forall|id: StorageId| #[trigger] o.signals.contains_key(id) implies notes_of(
            waves.signal(id)->Some_0,
        ) == t.notes[id] by {
            assert(notes_of(waves.signal(id)->Some_0) =~= Seq::<(u32, Seq<Four>)>::empty());
        }
    }
    while i < commands.len()
        invariant
            i <= commands@.len(),
            waves.wf(),
            loaded(items@, commands@) == match noted_all(t, o, commands@.skip(i as int)) {
                Err(e) => Err::<(Outline, Trace), VcdError>(e),
                Ok(t) => Ok((o, t)),
            },
            numbering.storage_map@ == o.storage_map,
            numbering.next_scope == o.next_scope,
            numbering.next_storage == o.next_storage,
            o == outline_of(&declared, &numbering),
            waves.declared() == declared.declared(),
            waves.scopes() == declared.scopes(),
            traced(&waves, o, t),
        decreases commands@.len() - i,
    {
        let ghost before = waves;
        let ghost rest = commands@.skip(i as int);
        proof {
            assert(rest[0] == commands@[i as int]);
            assert(rest.drop_first() =~= commands@.skip(i + 1));
            let command = commands@[i as int];
            if change_of(command) is Some {
                let (code, values) = change_of(command)->Some_0;
                if o.storage_map.contains_key(code) {
                    let id = StorageId(o.storage_map[code]);
                    if o.signals.contains_key(id) {
                        let signal = waves.signal(id)->Some_0;
                        assert(notes_of(signal).len() == signal.changes.len());
                        if signal.bits == 2 && signal.changes.len() > 0 {
                            assert(well_packed::<Four>(signal.changes.last().bytes, signal.width));
                        }
                    }
                }
            }
        }
        match apply_command(&mut waves, &numbering, &commands[i]) {
            Ok(()) => {},
            Err(e) => {
                return Err(e);
            },
        }
        proof {
            let command = commands@[i as int];
            let next = noted_one(t, o, command)->Ok_0;
            assert(noted_one(t, o, command) is Ok);
            assert forall|id: StorageId| #[trigger] o.signals.contains_key(id) implies ({
                let signal = waves.signal(id)->Some_0;
                &&& waves.signal(id) is Some
                &&& next.notes.contains_key(id)
                &&& signal.bits == o.signals[id].bits
                &&& signal.width == o.signals[id].width
                &&& signal.first == o.signals[id].first
                &&& notes_of(signal) == next.notes[id]
                &&& forall|k: int|
                    0 <= k < signal.changes.len() ==> well_packed::<Four>(
                        #[trigger] signal.changes[k].bytes,
                        signal.width,
                    )
            }) by {
                let was = before.signal(id)->Some_0;
                let signal = waves.signal(id)->Some_0;
                if waves.signal(id) != before.signal(id) {
                    let (code, values) = change_of(command)->Some_0;
                    let stamp = (before.timesteps().len() - 1) as u32;
                    assert(written(was, waves.signal(id), stamp, values));
                    assert(notes_of(signal) =~= notes_of(was).push(
                        (stamp, units_of(values, was.width)),
                    ));
                }
            }
            assert forall|id: StorageId| waves.signal(id) is Some implies #[trigger] o.signals.contains_key(
                id,
            ) by {
                if waves.signal(id) != before.signal(id) {
                    assert(before.signal(id) is Some);
                }
            }
            assert forall|id: StorageId| next.notes.contains_key(id) implies #[trigger] o.signals.contains_key(
                id,
            ) by {}
            t = next;
        }
        i += 1;
    }
    proof {
        assert(commands@.skip(i as int) =~= Seq::<Command>::empty());
        let got = outline(&waves, o.storage_map, o.next_scope, o.next_storage);
        assert(got.variables =~= o.variables);
    }
    Ok(waves)
}

} // verus!
