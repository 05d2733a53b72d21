//! Growth of a planar road network on an integer lattice.
//!
//! Coordinates, widths and lengths are whole numbers of lattice steps,
//! [`config::UNIT`] steps to one unit of the map; fractions such as
//! populations and probabilities are counted in steps of `1 / UNIT`.
//! Everything the engine decides is decided in exact integer arithmetic.
//!
//! The growth is played in rounds ([`generate::GlobalConfig::generate_main`]).
//! Each round takes the candidate road that is due first, fits it to the
//! roads that exist ([`generate::GlobalConfig::local_constraints`]), links
//! it to them and lets it bring forth its successors. What lies outside
//! the lattice comes in from the caller with each round, as a
//! [`generate::Survey`]: where successors would end, what the noise field
//! holds there, and how the dice fall.
pub mod collision;
pub mod config;
pub mod generate;
pub mod links;
pub mod math;
pub mod quad_tree;
pub mod reach;
pub mod segment;
pub mod utility;
