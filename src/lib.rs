//! Coupled field/circuit co-simulation core: the lattice geometry, the wiring
//! topology, the node map between lattice points and circuit nodes, the
//! finite-difference field grid and the per-tick coupling between them.
//!
//! The numeric scalar of fields and voltages is a type parameter; its
//! arithmetic is handed in by the caller as closures, so every index, stencil
//! and bookkeeping step here is verified independently of the number format.

pub mod lattice;
pub mod wiring;
pub mod node_map;
pub mod sim;
pub mod coupling;
pub mod controls;
pub mod view;

