//! What a loaded waveform is made of: the tree of its scopes and the
//! description of its variables.

use vstd::prelude::*;

verus! {

/// Why a waveform could not be loaded.
#[derive(Debug)]
pub enum LoadError {
    /// Reading failed.
    Io,
    /// The input is not what its format asks for.
    Parse(String),
}

/// Names a variable.
#[derive(Debug, Copy, Clone, Eq, PartialEq, Hash, Structural)]
pub struct VariableId(pub u64);

/// What kind of value a variable has.
#[derive(Debug)]
pub enum VariableInfo {
    Integer { bits: usize, is_signed: bool },
    /// An enumeration: each value with its name, its width and its packed
    /// bits.
    Enum { bits: usize, fields: Vec<(String, Vec<u8>)> },
    String { len: usize },
}

/// A variable.
#[derive(Debug)]
pub struct Variable {
    pub id: VariableId,
    pub name: String,
    pub info: VariableInfo,
}

/// A scope with its variables and the scopes below it.
#[derive(Debug)]
pub struct Scope {
    pub name: String,
    pub variables: Vec<Variable>,
    pub scopes: Vec<Scope>,
}

/// The least length of a layer that has a coarser layer above it.
pub const MIN_LAYER_LEN: usize = 1024;

/// The lengths of the layers above a first layer of `first_layer_len`
/// values: each a quarter of the one below, as long as the one below has
/// 1024 values or more.
pub open spec fn layer_counts(first_layer_len: nat) -> Seq<usize>
    decreases first_layer_len,
{
    if first_layer_len < 1024 {
        Seq::empty()
    } else {
        seq![(first_layer_len / 4) as usize] + layer_counts(first_layer_len / 4)
    }
}

/// The lengths of the layers above a first layer of `first_layer_len`
/// values.
pub fn layer_count_generator(first_layer_len: usize) -> (r: Vec<usize>)
    ensures
        r@ == layer_counts(first_layer_len as nat),
{
    let mut counts: Vec<usize> = Vec::new();
    let mut layer_len = first_layer_len;
    proof {
        assert(counts@ + layer_counts(layer_len as nat) =~= layer_counts(first_layer_len as nat));
    }
    while layer_len >= 1024
        invariant
            counts@ + layer_counts(layer_len as nat) == layer_counts(first_layer_len as nat),
        decreases layer_len,
    {
        let ghost before = counts@;
        let ghost tail = layer_counts((layer_len / 4) as nat);
        layer_len = layer_len / 4;
        counts.push(layer_len);
        proof {
            assert((before + seq![layer_len]) + tail =~= before + (seq![layer_len] + tail));
        }
    }
    proof {
        assert(counts@ + Seq::<usize>::empty() =~= counts@);
    }
    counts
}

} // verus!
