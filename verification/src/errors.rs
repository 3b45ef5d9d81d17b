//! Typed error taxonomy of the framework.

use crate::scalar::Scalar;
use vstd::prelude::*;
use vstd::string::StringExecFns;

verus! {

/// Which end of the known range an out-of-range query fell beyond.
#[derive(Clone, Copy, PartialEq, Eq, Structural, Debug)]
pub enum ExtrapolationSide {
    Start,
    End,
}

/// Everything that can go wrong while building or querying a model.
#[derive(Clone, PartialEq, Eq, Debug)]
pub enum RSCMError {
    /// An interpolation query fell outside the known range while
    /// extrapolation was disabled.
    ExtrapolationNotAllowed { target: Scalar, side: ExtrapolationSide, bound: Scalar },
    /// Two declarations of one variable carry different units.
    UnitMismatch { name: String, expected: String, found: String },
    /// A required external input has neither a series nor an initial value.
    MissingExogenousData { name: String },
    /// Two timeseries were registered under one name.
    DuplicateTimeseries { name: String },
    /// The component graph holds a cycle that is not a self-loop.
    CycleDetected,
    /// A component returned an error from its solve step.
    ComponentSolveFailed { message: String },
}

pub type RSCMResult<T> = Result<T, RSCMError>;

impl RSCMError {
    /// A diagnostic rendering of the error.
    pub fn to_string(&self) -> String {
        match self {
            RSCMError::ExtrapolationNotAllowed { target: _, side, bound: _ } => {
                let prefix = String::from_str("Extrapolation is not allowed beyond the ");
                match side {
                    ExtrapolationSide::Start => prefix.concat("start of the time axis"),
                    ExtrapolationSide::End => prefix.concat("end of the time axis"),
                }
            },
            RSCMError::UnitMismatch { name, expected, found } => {
                let text = String::from_str("Units of ").concat(name.as_str());
                let text = text.concat(": expected ").concat(expected.as_str());
                text.concat(", found ").concat(found.as_str())
            },
            RSCMError::MissingExogenousData { name } => {
                String::from_str("No exogenous data or initial value for ").concat(name.as_str())
            },
            RSCMError::DuplicateTimeseries { name } => {
                String::from_str("A timeseries named ").concat(name.as_str()).concat(
                    " already exists",
                )
            },
            RSCMError::CycleDetected => {
                String::from_str("The component graph contains a cycle")
            },
            RSCMError::ComponentSolveFailed { message } => {
                String::from_str("Solving a component failed: ").concat(message.as_str())
            },
        }
    }
}

} // verus!
