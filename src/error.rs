use vstd::prelude::*;

verus! {

/// What makes a run's configuration unusable.
#[derive(Clone, Copy, Debug, PartialEq, Eq, Structural)]
pub enum ConfigFault {
    /// The step size is not strictly positive.
    NonPositiveStep,
    /// The time range ends before it starts.
    ReversedTimeRange,
    /// The initial state is not one row of six compartments per group.
    InitialStateShape,
    /// The coefficient table is not seven rows of one value per group.
    CoefficientShape,
    /// The contact matrix is not square over the groups.
    ContactShape,
    /// A population count, rate or contact weight is negative.
    NegativeValue,
    /// A schedule entry does not hold the number of values its key calls for.
    ScheduleEntryShape,
}

/// A schedule entry that must be present once a vaccination schedule is given.
#[derive(Clone, Copy, Debug, PartialEq, Eq, Structural)]
pub enum ScheduleEntry {
    /// The rate and window of the group with this index.
    Group(usize),
    /// The global vaccine efficacy.
    Efficacy,
}

/// Why a run was refused or aborted.
#[derive(Clone, Copy, Debug, PartialEq, Eq, Structural)]
pub enum SeirdError {
    InvalidConfiguration(ConfigFault),
    MissingScheduleEntry(ScheduleEntry),
    /// A derivative or a state value stopped being finite.
    NumericOverflow,
}

} // verus!
