//! Verified building blocks of a multi-group SEIR(+D) outbreak simulation: the layout
//! of the trajectory buffer, the order in which a run updates (step, group) pairs, the
//! choice of vaccination mode, the checks on input shapes and the lookup of a
//! vaccination schedule's entries by key.
use vstd::prelude::*;

pub mod compartment;
pub mod config;
pub mod driver;
pub mod error;
pub mod schedule;
pub mod trajectory;

verus! {

} // verus!
