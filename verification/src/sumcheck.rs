//! The sum-check protocol, made non-interactive by the transcript.
pub mod general;
pub mod laws;
pub mod linear;
pub mod prover;
pub mod sparse_bool;
pub mod theory;
pub mod verify;
