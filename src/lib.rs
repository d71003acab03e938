//! Simulation of EPR absorption spectra and their Monte Carlo fit.
//!
//! - `param`, `radical`: the parameter model, in fixed point (`SCALE` units).
//! - `ladder`: the stick spectrum of a radical's hyperfine splitting.
//! - `fit`: the fitting session and its accept/reject rule.
//! - `ascii`: the column layout of experimental spectra.
use vstd::prelude::*;

pub mod error;
pub mod param;
pub mod radical;
pub mod ladder;
pub mod fit;
pub mod ascii;

verus! {

} // verus!
