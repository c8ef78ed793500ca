//! Proof orchestration and aggregation layer for a zkEVM prover.
//!
//! The crate manages the lifecycle of proving parameters, partitions a
//! deterministic randomness stream across proof stages, batches execution
//! traces into target-circuit proofs, folds inner proofs into one
//! aggregation-circuit proof, and fixes the serialized representation of
//! every artifact. The circuit arithmetization and the polynomial commitment
//! backend are consumed as opaque capabilities.

pub mod artifacts;
pub mod codec;
pub mod prover;
pub mod rng;
