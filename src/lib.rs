//! Broadcast-ephemeris handling for GNSS satellites: GPS time conversion,
//! parsing of RINEX navigation records, and the integer side of orbit
//! propagation (time grid, ephemeris selection, half-week rollover).

pub mod gnss;
pub mod lexical;
pub mod satellite;
