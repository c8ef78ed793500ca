//! Data model of the proof artifacts.
//!
//! Every artifact is held as plain values: proof bytes, public-instance
//! field elements as 64-bit limbs, block counts. The cryptographic meaning
//! of the bytes lives in the proving backend; this layer fixes their shape
//! and the accounting invariants.

use vstd::prelude::*;

verus! {

/// A scalar field element of the proof system, as four little-endian
/// 64-bit limbs.
#[derive(Clone, Copy, PartialEq, Eq, Structural, Debug)]
pub struct Fr {
    pub l0: u64,
    pub l1: u64,
    pub l2: u64,
    pub l3: u64,
}

/// One circuit's public instances: a matrix with one row per instance
/// column, viewed as a sequence of sequences of field elements.
pub open spec fn mat_view(m: Seq<Vec<Fr>>) -> Seq<Seq<Fr>> {
    m.map(|i: int, r: Vec<Fr>| r@)
}

/// A rank-3 instance tensor (circuit, column, element), viewed as nested
/// sequences.
pub open spec fn tensor_view(t: Seq<Vec<Vec<Fr>>>) -> Seq<Seq<Seq<Fr>>> {
    t.map(|i: int, m: Vec<Vec<Fr>>| mat_view(m@))
}

/// An opaque cryptographic parameter set for one circuit size class.
/// Immutable once loaded; its internal structure belongs to the backend.
#[derive(Clone, PartialEq, Eq, Debug)]
pub struct Params {
    /// The circuit size class (log2 of the domain size).
    pub degree: u32,
    /// Backend-encoded parameter bytes.
    pub data: Vec<u8>,
}

/// An aggregation-circuit proving key, together with the canonical byte
/// encoding of its verification key.
#[derive(Clone, PartialEq, Eq, Debug)]
pub struct ProvingKey {
    /// The canonical byte encoding of the verification key, exactly the
    /// bytes the backend's verifier expects.
    pub vk: Vec<u8>,
    /// Backend-encoded proving-key bytes.
    pub data: Vec<u8>,
}

/// One block's execution trace, carried as the raw bytes of its JSON
/// record. The orchestration layer never looks inside; traces are inputs
/// to the circuit capabilities.
#[derive(Clone, PartialEq, Eq, Debug)]
pub struct ExecutionTrace {
    pub data: Vec<u8>,
}

/// A proof together with its public instance, reusable as input to an
/// aggregation circuit.
#[derive(Clone, PartialEq, Eq, Debug)]
pub struct Snark {
    pub proof_bytes: Vec<u8>,
    pub instances: Vec<Vec<Fr>>,
}

/// The result of proving one batch of traces with a target circuit.
#[derive(Clone, PartialEq, Eq, Debug)]
pub struct TargetCircuitProof {
    pub proof_bytes: Vec<u8>,
    /// The proof paired with its public instance, reusable as aggregation
    /// input.
    pub snark: Snark,
    /// How many blocks of the batch were actually proved.
    pub num_of_proved_blocks: usize,
    /// How many blocks the batch contained.
    pub total_num_of_blocks: usize,
}

impl TargetCircuitProof {
    /// A batch never proves more blocks than it contains.
    pub open spec fn wf(self) -> bool {
        self.num_of_proved_blocks <= self.total_num_of_blocks
    }
}

/// The terminal aggregated artifact: proof bytes, serialized public
/// instances, serialized verification key, and the proved-block total
/// over all constituent inner proofs.
#[derive(Clone, PartialEq, Eq, Debug)]
pub struct AggCircuitProof {
    pub proof_bytes: Vec<u8>,
    /// JSON encoding of the rank-3 public-instance tensor.
    pub instance: Vec<u8>,
    /// Canonical byte encoding of the verification key.
    pub vk: Vec<u8>,
    pub total_proved_block_count: usize,
}

/// Errors of the orchestration layer.
#[derive(Clone, Copy, PartialEq, Eq, Structural, Debug)]
pub enum ProverError {
    /// The aggregation proving key was not provisioned before an
    /// aggregation proof was requested.
    KeyNotConfigured,
    /// The proving backend could not produce a valid witness or proof for
    /// the given inputs.
    Proving,
    /// A filesystem failure at the I/O boundary.
    Io,
    /// A stored artifact could not be decoded.
    Deserialize,
    /// A debug facility was used without its directory being configured.
    NotConfigured,
}

/// Blocks proved across a sequence of inner proofs, summed in input order.
pub open spec fn sum_proved(s: Seq<TargetCircuitProof>) -> int
    decreases s.len(),
{
    if s.len() == 0 {
        0
    } else {
        sum_proved(s.drop_last()) + s.last().num_of_proved_blocks
    }
}

/// Blocks attempted across a sequence of inner proofs, summed in input
/// order.
pub open spec fn sum_total(s: Seq<TargetCircuitProof>) -> int
    decreases s.len(),
{
    if s.len() == 0 {
        0
    } else {
        sum_total(s.drop_last()) + s.last().total_num_of_blocks
    }
}

/// Batch accounting: over inner proofs that each prove no more blocks than
/// they contain, the proved total never exceeds the attempted total.
pub proof fn lemma_batch_accounting(s: Seq<TargetCircuitProof>)
    requires
        forall|i: int| 0 <= i < s.len() ==> #[trigger] s[i].wf(),
    ensures
        0 <= sum_proved(s) <= sum_total(s),
    decreases s.len(),
{
    if s.len() > 0 {
        assert(s.last().wf());
        lemma_batch_accounting(s.drop_last());
    }
}

} // verus!
