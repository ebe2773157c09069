//! Rank-1 constraint systems for a zkVM step circuit, and Pedersen-style
//! generator handling for vector commitments.
//!
//! - `field`: arithmetic in the prime field that witnesses and coefficients live in.
//! - `lc`: linear combinations of wires and their values.
//! - `builder`: rows and auxiliary wires from high-level relations.
//! - `uniform`: one step's circuit over many steps, and the satisfaction check.
//! - `jolt`: the input wires and relations of a CPU step.
//! - `pedersen`: generator seeds, prefixes and commitment length checks.
//! - `laws`: properties of the emitted relations.

pub mod field;
pub mod lc;
pub mod builder;
pub mod uniform;
pub mod jolt;
pub mod pedersen;
pub mod laws;
