//! zdump-rs — a bounded, independent Rust TZif **witness**.
//!
//! Reads TZif and renders what it *means* (offset / is_dst / abbreviation) at explicit instants,
//! as deterministic JSON witness rows.
//!
//! - read TZif v1/v2/v3/v4 (bounds-checked; malformed input is an error, never a panic)
//! - evaluate offset/is_dst/abbreviation at explicit UTC instants, projecting from the POSIX
//!   footer beyond the last explicit transition
//! - emit deterministic JSON witness rows
//! - flag instants that fall beyond the explicit transition table
use vstd::prelude::*;

pub mod civil;
pub mod leap;
pub mod posix;
pub mod text;
pub mod tzif;
pub mod witness;

pub use tzif::{parse, Observation, Tzif};
pub use witness::WitnessRow;

verus! {

/// The fixed, declared probe-instant set: pre-epoch, the 32-bit `time_t` floor and ceiling, a few
/// civil years around the present, and far-future (footer-governed) points. Shared by the command
/// line and the tests so they cannot drift.
pub const PROBE_DEFAULT: [&'static str; 9] = [
    "1901-12-13T20:45:52Z",
    "1933-01-01T00:00:00Z",
    "1970-01-01T00:00:00Z",
    "2000-06-01T00:00:00Z",
    "2026-01-01T00:00:00Z",
    "2026-07-01T00:00:00Z",
    "2038-01-19T03:14:07Z",
    "2100-01-01T00:00:00Z",
    "2200-07-01T12:00:00Z",
];

} // verus!
