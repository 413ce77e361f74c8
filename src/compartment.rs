use vstd::prelude::*;

verus! {

/// Number of compartments tracked per group: S, E, Is, Ia, R, D.
pub const COMPARTMENTS: usize = 6;

/// Number of per-group model coefficients.
pub const COEFFICIENTS: usize = 7;

/// The six compartments of the model, in their fixed storage order.
#[derive(Clone, Copy, Debug, PartialEq, Eq, Structural)]
pub enum Compartment {
    Susceptible,
    Exposed,
    SymptomaticInfectious,
    AsymptomaticInfectious,
    Recovered,
    Deceased,
}

impl Compartment {
    /// Position of the compartment in a state vector.
    pub open spec fn spec_index(self) -> nat {
        match self {
            Compartment::Susceptible => 0,
            Compartment::Exposed => 1,
            Compartment::SymptomaticInfectious => 2,
            Compartment::AsymptomaticInfectious => 3,
            Compartment::Recovered => 4,
            Compartment::Deceased => 5,
        }
    }

    pub fn index(self) -> (r: usize)
        ensures
            r == self.spec_index(),
            r < COMPARTMENTS,
    {
        match self {
            Compartment::Susceptible => 0,
            Compartment::Exposed => 1,
            Compartment::SymptomaticInfectious => 2,
            Compartment::AsymptomaticInfectious => 3,
            Compartment::Recovered => 4,
            Compartment::Deceased => 5,
        }
    }
}

} // verus!
