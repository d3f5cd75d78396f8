//! What a trace declares beside its values: ids, scopes, storages and
//! variables.

use vstd::prelude::*;

verus! {

/// Names a storage: one signal whose value changes are recorded.
#[derive(Debug, Copy, Clone, Hash, PartialEq, Eq, PartialOrd, Ord, Structural)]
pub struct StorageId(pub u32);

/// Names a scope of the design hierarchy.
#[derive(Debug, Copy, Clone, Hash, PartialEq, Eq, PartialOrd, Ord, Structural)]
pub struct ScopeId(pub u32);

impl ScopeId {
    /// The scope above every top-level scope.
    pub fn root() -> (r: ScopeId)
        ensures
            r == ScopeId(0),
    {
        ScopeId(0)
    }
}

/// Some number of timesteps.
#[derive(Debug, Copy, Clone, Hash, PartialEq, Eq, PartialOrd, Ord, Structural)]
pub struct Timesteps(pub u64);

impl Timesteps {
    /// The sum of two numbers of timesteps, or `None` where it does not fit.
    pub fn checked_add(self, rhs: Timesteps) -> (r: Option<Timesteps>)
        ensures
            r == if self.0 + rhs.0 <= u64::MAX {
                Some(Timesteps((self.0 + rhs.0) as u64))
            } else {
                None
            },
    {
        if self.0 <= u64::MAX - rhs.0 {
            Some(Timesteps(self.0 + rhs.0))
        } else {
            None
        }
    }
}

/// A scope as a trace declares it: its own id and its parent's.
#[derive(Debug)]
pub struct Scope {
    pub name: String,
    pub id: ScopeId,
    pub parent: ScopeId,
}

/// The logic variant of a storage.
#[derive(Debug, Clone, Copy, PartialEq, Eq, Structural)]
pub enum StorageType {
    TwoLogic,
    FourLogic,
    NineLogic,
}

impl StorageType {
    pub open spec fn spec_bits(self) -> u8 {
        match self {
            StorageType::TwoLogic => 1,
            StorageType::FourLogic => 2,
            StorageType::NineLogic => 4,
        }
    }

    /// Bits per unit of the variant.
    pub fn bits(self) -> (r: u8)
        ensures
            r == self.spec_bits(),
    {
        match self {
            StorageType::TwoLogic => 1,
            StorageType::FourLogic => 2,
            StorageType::NineLogic => 4,
        }
    }
}

/// A storage as a trace declares it.
#[derive(Debug)]
pub struct Storage {
    pub id: StorageId,
    pub ty: StorageType,
    /// The number of units of a value.
    pub width: u32,
    /// The offset of the lowest unit within the variable it belongs to.
    pub start: u32,
}

/// One named value of an enumeration.
#[derive(Debug)]
pub struct EnumValue {
    pub name: String,
    pub value: Vec<bool>,
}

/// How the bits of an integer are read.
#[derive(Debug, Clone, Copy, PartialEq, Eq, Structural)]
pub enum Signedness {
    SignedTwosComplement,
    Unsigned,
}

/// How the storages of a variable are interpreted.
#[derive(Debug)]
pub enum VarKind {
    /// The storages are not interpreted.
    Uninterpreted,
    Integer { storages: Vec<StorageId>, msb_index: u32, lsb_index: u32, signedness: Signedness },
    Enum { storage: StorageId, values: Vec<EnumValue> },
    Utf8 { storage: StorageId },
}

/// One named value of an enumeration, as packed two-valued units.
#[derive(Debug)]
pub struct EnumSpec {
    pub name: String,
    /// The number of units of the value.
    pub width: usize,
    /// The packed units.
    pub value: Vec<u8>,
}

/// How the storages of a variable are interpreted.
#[derive(Debug)]
pub enum VariableInterp {
    /// The storages are not interpreted.
    Uninterpreted,
    Integer { storages: Vec<StorageId>, msb_index: u32, lsb_index: u32, signedness: Signedness },
    Enum { storage: StorageId, specs: Vec<EnumSpec> },
    Utf8 { storage: StorageId },
}

/// A variable of a scope.
#[derive(Debug)]
pub struct Variable {
    pub name: String,
    pub interp: VariableInterp,
}

/// What a named value of an enumeration holds.
pub struct EnumSpecView {
    pub name: Seq<char>,
    pub width: usize,
    pub value: Seq<u8>,
}

/// What an interpretation holds.
pub enum InterpView {
    Uninterpreted,
    Integer { storages: Seq<StorageId>, msb_index: u32, lsb_index: u32, signedness: Signedness },
    Enum { storage: StorageId, specs: Seq<EnumSpecView> },
    Utf8 { storage: StorageId },
}

/// What a variable holds.
pub struct VariableView {
    pub name: Seq<char>,
    pub interp: InterpView,
}

impl View for EnumSpec {
    type V = EnumSpecView;

    open spec fn view(&self) -> EnumSpecView {
        EnumSpecView { name: self.name@, width: self.width, value: self.value@ }
    }
}

impl View for VariableInterp {
    type V = InterpView;

    open spec fn view(&self) -> InterpView {
        match *self {
            VariableInterp::Uninterpreted => InterpView::Uninterpreted,
            VariableInterp::Integer { storages, msb_index, lsb_index, signedness } => {
                InterpView::Integer { storages: storages@, msb_index, lsb_index, signedness }
            },
            VariableInterp::Enum { storage, specs } => InterpView::Enum {
                storage,
                specs: specs@.map_values(|spec: EnumSpec| spec@),
            },
            VariableInterp::Utf8 { storage } => InterpView::Utf8 { storage },
        }
    }
}

impl View for Variable {
    type V = VariableView;

    open spec fn view(&self) -> VariableView {
        VariableView { name: self.name@, interp: self.interp@ }
    }
}

/// How far a load has come.
#[derive(Debug, Clone, Copy, PartialEq, Eq, Structural)]
pub struct Progress {
    /// Total bytes in the file or stream, if known.
    pub total: Option<usize>,
    /// Bytes processed so far.
    pub so_far: usize,
}

/// A variable as a trace declares it.
#[derive(Debug)]
pub struct Var {
    pub name: String,
    pub scope_id: ScopeId,
    pub kind: VarKind,
}

} // verus!
