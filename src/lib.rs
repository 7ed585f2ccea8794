use vstd::prelude::*;

pub mod decimal;
pub mod model;
pub mod obslog;
pub mod rounding;
pub mod schedule;
pub mod setup;

verus! {

/// What can end a filter run early.
#[derive(Debug, Clone, Copy, PartialEq, Eq, Structural)]
pub enum KfError {
    /// The observation log could not be read, or the output could not be created.
    IoError,
    /// A token of the observation log is not a real number.
    ParseError,
    /// The model matrices, the state or an observation disagree in their dimensions.
    DimensionMismatch,
    /// An observation's timestamp is too far from the tick at which it is applied.
    ObservationTimingMismatch,
    /// The innovation covariance of an update cannot be inverted.
    SingularInnovationCovariance,
    /// An update is due but every observation has been used.
    OutOfObservations,
    /// The tick length is not a positive numeral that can be compared exactly.
    InvalidTickLength,
}

} // verus!
