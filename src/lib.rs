//! Construction of the classical QUBO equivalent of a transverse-field Ising
//! model on a triangular lattice stacked into Trotter layers, and exact
//! analysis of the three-sublattice order parameter of returned solutions.
//!
//! Real-valued model parameters (coupling strengths, the transverse field)
//! are carried as decimal fixed-point integers with ten fractional digits:
//! the integer `v` stands for `v / 10^10`.
pub mod config;
pub mod lattice;
pub mod polynomial;
pub mod hamiltonian;
pub mod analysis;
pub mod guidance;
