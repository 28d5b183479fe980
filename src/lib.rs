//! Compiles "secret lies in a public range" and "secret belongs to a public set"
//! into rank-1 constraint systems with a satisfying witness, for the Spartan
//! proving backend.
#![allow(non_snake_case)]

pub mod field;
pub mod bit_helpers;
pub mod r1cs_helpers;
pub mod r1cs;
pub mod backend;
pub mod semantics;
pub mod range_proof;
pub mod set_membership;
