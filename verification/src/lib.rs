//! A communication-range calculator for networks of antenna-like
//! devices, after a game's simplified radio-propagation rules.
//!
//! Each endpoint of a link aggregates devices with a power rating and
//! a combinability exponent; the engine combines them into one
//! effective power, derives the maximum communication distance as the
//! geometric mean of the two sides' powers, and evaluates a table of
//! named distance bands with the signal strength at each band's
//! edges.  All fractional quantities are carried in exact fixed-point
//! arithmetic scaled by `FRAC_ONE`.

use vstd::prelude::*;

pub mod bands;
pub mod catalog;
pub mod device;
pub mod endpoint;
pub mod numeric;
pub mod range;
pub mod runner;
pub mod specifier;

verus! {

/// Why a catalog load, an endpoint build or a run was refused.
#[derive(Debug)]
pub enum EngineError {
    /// Two definitions in one load batch claim the same lookup key.
    CatalogConflict { key: String },
    /// A caller-supplied key resolves to no definition.
    UnknownDevice { key: String },
    /// A device contribution was given a count of zero.
    InvalidCount,
    /// A raw specifier token is not of the shape `[count:]name`.
    InvalidSpecifier,
}

/// One part in a billion: the fixed-point unit in which fractions
/// (power ratios, band boundaries, signal strengths) are carried.
pub const FRAC_ONE: u64 = 1_000_000_000;

/// The exponent unit: combinability exponents are carried in units of
/// `1/EXP_ONE`, so `EXP_ONE` itself stands for an exponent of one.
pub const EXP_ONE: u16 = 1024;

/// Largest device power rating the engine accepts.
pub const MAX_POWER: u64 = 1_099_511_627_776;

/// Largest total number of device contributions one endpoint accepts.
pub const MAX_TOTAL_COUNT: u64 = 65_536;

} // verus!
