use vstd::prelude::*;
use crate::compartment::{COEFFICIENTS, COMPARTMENTS};
use crate::error::{ConfigFault, SeirdError};

verus! {

/// How a run treats vaccination; chosen once, before the time loop.
#[derive(Clone, Copy, Debug, PartialEq, Eq, Structural)]
pub enum Mode {
    /// No schedule: the vaccination flow is 0 throughout, basic right-hand side.
    NoVaccination,
    /// Scheduled vaccination drawn from the susceptible pool only.
    Basic,
    /// Scheduled vaccination drawn from the susceptible and exposed pools in proportion.
    SplitExposed,
}

/// The two right-hand-side policies.
#[derive(Clone, Copy, Debug, PartialEq, Eq, Structural)]
pub enum Variant {
    /// Vaccination depletes S only, and is dropped once S is at most 1.
    Basic,
    /// Vaccination depletes S and E in proportion to their sizes.
    SplitExposed,
}

pub open spec fn spec_select_mode(schedule_present: bool, split_exposed: bool) -> Mode {
    if !schedule_present {
        Mode::NoVaccination
    } else if split_exposed {
        Mode::SplitExposed
    } else {
        Mode::Basic
    }
}

/// The mode of a run, from whether a schedule was given and whether the split-exposed
/// policy was asked for; the policy flag counts only when a schedule is present.
pub fn select_mode(schedule_present: bool, split_exposed: bool) -> (r: Mode)
    ensures
        r == spec_select_mode(schedule_present, split_exposed),
{
    if !schedule_present {
        Mode::NoVaccination
    } else if split_exposed {
        Mode::SplitExposed
    } else {
        Mode::Basic
    }
}

impl Mode {
    pub open spec fn spec_variant(self) -> Variant {
        match self {
            Mode::SplitExposed => Variant::SplitExposed,
            _ => Variant::Basic,
        }
    }

    pub open spec fn spec_vaccinates(self) -> bool {
        !(self is NoVaccination)
    }

    /// The right-hand-side policy that this mode integrates with.
    pub fn variant(self) -> (r: Variant)
        ensures
            r == self.spec_variant(),
    {
        match self {
            Mode::SplitExposed => Variant::SplitExposed,
            _ => Variant::Basic,
        }
    }

    /// Whether the vaccination flow is read from the schedule; otherwise it is 0.
    pub fn vaccinates(self) -> (r: bool)
        ensures
            r == self.spec_vaccinates(),
    {
        match self {
            Mode::NoVaccination => false,
            _ => true,
        }
    }
}

/// Checks the shapes of the input tables, given as (rows, columns): the initial state is
/// one row of six compartments per group, the coefficients seven rows of one value per
/// group, the contact matrix one row and one column per group. Returns the number of
/// groups, which the initial state's rows declare.
pub fn validate_shapes(
    initial: (usize, usize),
    coefficients: (usize, usize),
    contacts: (usize, usize),
) -> (r: Result<usize, SeirdError>)
    ensures
        r == if initial.1 != COMPARTMENTS {
            Err(SeirdError::InvalidConfiguration(ConfigFault::InitialStateShape))
        } else if coefficients.0 != COEFFICIENTS || coefficients.1 != initial.0 {
            Err(SeirdError::InvalidConfiguration(ConfigFault::CoefficientShape))
        } else if contacts.0 != initial.0 || contacts.1 != initial.0 {
            Err(SeirdError::InvalidConfiguration(ConfigFault::ContactShape))
        } else {
            Ok(initial.0)
        },
{
    let groups = initial.0;
    if initial.1 != COMPARTMENTS {
        Err(SeirdError::InvalidConfiguration(ConfigFault::InitialStateShape))
    } else if coefficients.0 != COEFFICIENTS || coefficients.1 != groups {
        Err(SeirdError::InvalidConfiguration(ConfigFault::CoefficientShape))
    } else if contacts.0 != groups || contacts.1 != groups {
        Err(SeirdError::InvalidConfiguration(ConfigFault::ContactShape))
    } else {
        Ok(groups)
    }
}

} // verus!
