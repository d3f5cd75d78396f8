//! The kinds of failure that the engine reports.

use crate::logic::LogicConversionFailed;
use vstd::prelude::*;
use vstd::std_specs::convert::FromSpecImpl;

verus! {

/// Why an operation of the engine was refused.
#[derive(Debug, Clone, Copy, PartialEq, Eq, Structural)]
pub enum Error {
    /// An index into a logic slice, a forest range or the timestep table is out of range.
    OutOfBounds,
    /// The signal id was never declared.
    UnknownSignal,
    /// The signal id is already taken.
    AlreadyDeclared,
    /// A signal of width zero was declared.
    WidthZero,
    /// A value does not have the width of the signal it is meant for.
    WidthMismatch,
    /// The ingest clock was asked to move backward.
    TimestepRegression,
    /// More distinct timesteps than a 32-bit index can name.
    TimestepIndexOverflow,
    /// A packed bit pattern that the logic variant does not define, at the given unit offset.
    InvalidEncoding { offset: usize },
    /// A unit that has no counterpart in the narrower logic.
    ConversionLossy,
    /// Neither the heap nor a file mapping could supply the memory.
    AllocFailure,
}

impl From<LogicConversionFailed> for Error {
    /// A unit that cannot be narrowed is a lossy conversion.
    fn from(failed: LogicConversionFailed) -> (r: Error) {
        Error::ConversionLossy
    }
}

impl FromSpecImpl<LogicConversionFailed> for Error {
    open spec fn obeys_from_spec() -> bool {
        true
    }

    open spec fn from_spec(failed: LogicConversionFailed) -> Error {
        Error::ConversionLossy
    }
}

} // verus!
