//! Selection of administrative-boundary relations from OpenStreetMap data,
//! the closure of everything they depend on, and the two views made of it: a
//! tally of boundary types and the list of boundary records.

pub mod closure;
pub mod filter;
pub mod osm;
pub mod records;
pub mod stats;
