//! Quantum groups and Hopf algebras: the exact, combinatorial core.
//!
//! Integral structure constants of the algebras and coalgebras the library constructs (the
//! matrix algebra `M_n`, the group Hopf algebra `k[Z_n]`, sl(2), and the PBW-truncated
//! enveloping algebra), the axioms they satisfy, and the spin bookkeeping of U_q(sl(2))
//! representation theory.
pub mod structure;
pub mod monomial;
pub mod hopf_algebra;
pub mod coalgebra;
pub mod antipode;
pub mod pbw;
pub mod universal_enveloping;
pub mod r_matrix;
pub mod ribbon;
pub mod representation;
