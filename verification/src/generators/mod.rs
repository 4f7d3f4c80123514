//! Generators of content.

pub mod laws;
pub mod names;
