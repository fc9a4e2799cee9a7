//! SHA-512 compression with a STARK-friendly execution trace.
//!
//! The library computes SHA-512 digests, produces the full execution witness of a block
//! compression, lays that witness out as an AIR trace over the BabyBear field, checks the AIR
//! constraints on such a trace, and encodes the public statements of block and message
//! proofs.

pub mod air;
pub mod constants;
pub mod field;
pub mod ops;
pub mod proof_api;
pub mod sha512;
pub mod spec;
pub mod trace;

pub use air::{Sha512MessageAirBundle, TraceMatrix};
pub use constants::{INITIAL_STATE, K};
pub use proof_api::private_seed::Sha512Seed32PrivateProof;
pub use proof_api::serialization::{
    deserialize_message_instance, deserialize_single_block_instance, serialize_message_instance,
    serialize_single_block_instance,
};
pub use proof_api::{
    Sha512LagLogupSettings, Sha512MessageInstance, Sha512ProofSettings, Sha512SingleBlockInstance,
};
pub use sha512::Sha512Circuit;
pub use trace::BlockTrace;
