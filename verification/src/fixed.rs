//! Exact decimal fixed-point scalars.
//!
//! A value is stored as `raw` units of one millionth, so `2.5` is
//! `Fx { raw: 2_500_000 }`. Missing or non-finite measurements are carried
//! as `Option<Fx>::None` throughout the crate.

use vstd::prelude::*;

verus! {

/// Number of raw units per whole unit.
pub const FX_DEN: i64 = 1000000;

/// A decimal fixed-point number: `raw` millionths.
#[derive(Clone, Copy, Debug, PartialEq, Eq, Structural)]
pub struct Fx {
    pub raw: i64,
}

} // verus!
