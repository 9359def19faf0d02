//! A STARK prover and verifier for one fixed statement: knowledge of
//! a secret `s` such that the recurrence `a(0) = 1`, `a(1) = s`,
//! `a(n+2) = a(n+1)^2 + a(n)^2` over the prime field modulo
//! 3221225473 reaches `a(1022) = 2338775057`.
//!
//! The prover commits the trace's low-degree extension, divides out
//! the boundary and transition constraints, folds the composition
//! polynomial through ten FRI layers, and decommits one query point;
//! the verifier replays the Fiat-Shamir transcript and checks the
//! algebraic identities and every Merkle authentication path.

use vstd::prelude::*;

pub mod channel;
pub mod field;
pub mod merkle;
pub mod polynomial;
pub mod proofs;
pub mod prover;

pub use field::Gf;

verus! {

/// The protocol's field: residues modulo the prime 3221225473, which
/// is 3 * 2^30 + 1, so the multiplicative group contains subgroups of
/// every power-of-two size up to 2^30.
pub type F = field::Gf<3221225473>;

} // verus!
