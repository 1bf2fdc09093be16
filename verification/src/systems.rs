//! The particle systems that demos integrate over time. Each system is a
//! stateless rule for the time derivative of a particle state; the rules
//! and the Runge-Kutta integrator that applies them are floating-point,
//! so the application layer implements them for these marker types.

use vstd::prelude::*;

verus! {

/// System that represents particles moving in circles around the origin.
#[derive(Clone, Copy, Debug, PartialEq, Eq, Structural)]
pub struct SimpleCircleSystem;

/// System that represents solid gravitating bodies in space.
#[derive(Clone, Copy, Debug, PartialEq, Eq, Structural)]
pub struct SolidGravitySystem;

} // verus!
