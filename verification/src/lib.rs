//! Procedural galaxy core: locations, a location-keyed index of star systems,
//! a best-first route search under a jump range, a trainable name model and
//! the assembly of generated systems.
//!
//! Real-valued quantities never appear here as machine floats. A coordinate is
//! held as its IEEE-754 binary64 encoding, and a cost or distance as the
//! encoding of a non-negative value, which orders as an unsigned integer
//! exactly as the value it encodes does.

pub mod astronomicals;
pub mod binary64;
pub mod generators;
pub mod graph;
pub mod location;
pub mod location_map;
pub mod order;
pub mod random;
pub mod route;
pub mod route_laws;
