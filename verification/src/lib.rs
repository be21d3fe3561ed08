//! FRI, the fast Reed-Solomon proof of proximity, over the scalar field of
//! BLS12-381.
//!
//! A prover commits to a codeword and to its foldings, each by a Merkle tree over
//! tuples of values, and opens the layers at query positions. A verifier derives each
//! layer's challenge from the commitments, checks every opened tuple against its
//! layer's commitment and against the value it folds to, and checks that the last
//! codeword, the remainder, has a low degree.
//!
//! The field arithmetic, the transforms between values and coefficients, and the
//! hash function are those of arkworks and of the sha2 crate. What the library
//! relies on of them is stated where they are called: in `field`, `domain`, `hash`
//! and `interpolation`.

pub mod channel;
pub mod completeness;
pub mod domain;
pub mod drp;
pub mod field;
pub mod fri_proof;
pub mod fri_prover;
pub mod fri_verifier;
pub mod hash;
pub mod interleave;
pub mod interpolation;
pub mod merkle;
pub mod options;
pub mod positions;
pub mod tampering;
pub mod verdict;
