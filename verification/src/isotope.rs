use vstd::prelude::*;

verus! {

/// Helium isotope (selects the adiabatic-correction multiplier and reduced mass).
#[derive(Clone, Copy, Debug, PartialEq, Eq, Structural)]
pub enum He {
    He4,
    He3,
}

} // verus!
