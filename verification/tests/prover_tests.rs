use std::cell::Cell;
use zkevm::artifacts::{
    ExecutionTrace, Fr, Params, ProverError, ProvingKey, Snark, TargetCircuitProof,
};
use zkevm::prover::{AggregationBackend, Prover, TargetCircuitBackend};
use zkevm::rng::RandStream;

fn params(degree: u32) -> Params {
    Params { degree, data: vec![degree as u8; 4] }
}

fn key() -> ProvingKey {
    ProvingKey { vk: vec![0xAA, 0xBB, 0xCC], data: vec![1, 2, 3, 4] }
}

fn trace(bytes: &[u8]) -> ExecutionTrace {
    ExecutionTrace { data: bytes.to_vec() }
}

fn inner_proof(proved: usize, total: usize) -> TargetCircuitProof {
    TargetCircuitProof {
        proof_bytes: vec![1, 2, 3],
        snark: Snark {
            proof_bytes: vec![4, 5, 6],
            instances: vec![vec![Fr { l0: proved as u64, l1: 0, l2: 0, l3: 0 }]],
        },
        num_of_proved_blocks: proved,
        total_num_of_blocks: total,
    }
}

fn prover(seed: [u8; 16]) -> Prover {
    Prover::from_params_and_rng(params(20), params(26), RandStream::from_seed(seed))
}

fn prover_with_key(seed: [u8; 16]) -> Prover {
    let mut p = prover(seed);
    p.set_agg_pk(key());
    p
}

/// A target-circuit capability that proves every trace with non-empty
/// bytes; `strict` decides whether a malformed (empty) trace fails the
/// whole batch or is skipped with the accounting reflecting the skip.
struct MockTarget {
    strict: bool,
}

impl TargetCircuitBackend for MockTarget {
    fn prove_target_batch(
        &self,
        _params: &Params,
        block_traces: &Vec<ExecutionTrace>,
        seed: &[u8; 16],
    ) -> Option<TargetCircuitProof> {
        let malformed = block_traces.iter().filter(|t| t.data.is_empty()).count();
        if self.strict && malformed > 0 {
            return None;
        }
        let proved = block_traces.len() - malformed;
        Some(TargetCircuitProof {
            proof_bytes: seed.to_vec(),
            snark: Snark {
                proof_bytes: seed.to_vec(),
                instances: vec![vec![Fr { l0: proved as u64, l1: 0, l2: 0, l3: 0 }]],
            },
            num_of_proved_blocks: proved,
            total_num_of_blocks: block_traces.len(),
        })
    }
}

/// A target-circuit capability that reports more proved than attempted
/// blocks: the orchestration must reject it.
struct BrokenTarget;

impl TargetCircuitBackend for BrokenTarget {
    fn prove_target_batch(
        &self,
        _params: &Params,
        _block_traces: &Vec<ExecutionTrace>,
        _seed: &[u8; 16],
    ) -> Option<TargetCircuitProof> {
        Some(inner_proof(5, 2))
    }
}

/// A deterministic aggregation capability: outputs are functions of the
/// inputs (snarks, seeds, key) alone, and every call is recorded.
struct MockAgg {
    called: Cell<bool>,
}

impl MockAgg {
    fn new() -> MockAgg {
        MockAgg { called: Cell::new(false) }
    }
}

impl AggregationBackend<u8> for MockAgg {
    fn build_aggregation_circuit(
        &self,
        _agg_params: &Params,
        snarks: &Vec<Snark>,
        seed: &[u8; 16],
    ) -> Option<(u8, Vec<Vec<Fr>>)> {
        self.called.set(true);
        let mut col = Vec::new();
        for s in snarks {
            col.push(Fr {
                l0: s.instances.len() as u64,
                l1: seed[0] as u64,
                l2: seed[15] as u64,
                l3: 0,
            });
        }
        Some((1, vec![col]))
    }

    fn prove_aggregation(
        &self,
        _agg_params: &Params,
        pk: &ProvingKey,
        _witness: u8,
        instances: &Vec<Vec<Fr>>,
        seed: &[u8; 16],
    ) -> Option<Vec<u8>> {
        self.called.set(true);
        let mut out = seed.to_vec();
        out.extend_from_slice(&pk.vk);
        out.push(instances.len() as u8);
        Some(out)
    }
}

/// An aggregation capability that always fails at the proof stage.
struct FailingAgg;

impl AggregationBackend<u8> for FailingAgg {
    fn build_aggregation_circuit(
        &self,
        _agg_params: &Params,
        _snarks: &Vec<Snark>,
        _seed: &[u8; 16],
    ) -> Option<(u8, Vec<Vec<Fr>>)> {
        Some((1, vec![vec![]]))
    }

    fn prove_aggregation(
        &self,
        _agg_params: &Params,
        _pk: &ProvingKey,
        _witness: u8,
        _instances: &Vec<Vec<Fr>>,
        _seed: &[u8; 16],
    ) -> Option<Vec<u8>> {
        None
    }
}

#[test]
fn aggregation_is_deterministic() {
    // two independent runs over the same seed and the same inner proofs
    // produce byte-identical proof, instance and verification-key outputs
    let seed = [42u8; 16];
    let inners = vec![inner_proof(1, 1), inner_proof(2, 3)];
    let a = prover_with_key(seed)
        .create_agg_circuit_proof_impl(&MockAgg::new(), &inners)
        .unwrap();
    let b = prover_with_key(seed)
        .create_agg_circuit_proof_impl(&MockAgg::new(), &inners)
        .unwrap();
    assert_eq!(a.proof_bytes, b.proof_bytes);
    assert_eq!(a.instance, b.instance);
    assert_eq!(a.vk, b.vk);
    assert_eq!(a.total_proved_block_count, b.total_proved_block_count);
}

#[test]
fn aggregation_without_key_fails_fast() {
    let seed = [3u8; 16];
    let mut p = prover(seed);
    let agg = MockAgg::new();
    let inners = vec![inner_proof(1, 1)];
    assert_eq!(
        p.create_agg_circuit_proof_impl(&agg, &inners),
        Err(ProverError::KeyNotConfigured)
    );
    // no backend work was attempted
    assert!(!agg.called.get());
    // and the randomness stream was not advanced: the prover still draws
    // the same sub-seeds as a twin that never saw the failed request
    let mut twin = prover(seed);
    assert_eq!(p.draw_sub_seeds(), twin.draw_sub_seeds());
}

#[test]
fn aggregation_of_one_single_block_proof() {
    // one inner proof of one proved block aggregates to a proved total of
    // exactly one
    let inners = vec![inner_proof(1, 1)];
    let a = prover_with_key([5u8; 16])
        .create_agg_circuit_proof_impl(&MockAgg::new(), &inners)
        .unwrap();
    assert_eq!(a.total_proved_block_count, 1);
}

#[test]
fn aggregation_sums_proved_counts_in_order() {
    let inners = vec![inner_proof(2, 3), inner_proof(0, 4), inner_proof(5, 5)];
    let a = prover_with_key([8u8; 16])
        .create_agg_circuit_proof_impl(&MockAgg::new(), &inners)
        .unwrap();
    assert_eq!(a.total_proved_block_count, 7);
    assert!(a.total_proved_block_count <= 12);
    assert_eq!(a.vk, key().vk);
}

#[test]
fn aggregation_surfaces_proving_failure() {
    let inners = vec![inner_proof(1, 1)];
    assert_eq!(
        prover_with_key([6u8; 16]).create_agg_circuit_proof_impl(&FailingAgg, &inners),
        Err(ProverError::Proving)
    );
}

#[test]
fn target_batch_strict_policy_rejects_malformed_trace() {
    // a directory of three traces, one malformed: the strict circuit
    // fails the whole batch with a proving error
    let traces = vec![trace(b"{}"), trace(b""), trace(b"{}")];
    let mut p = prover([1u8; 16]);
    assert_eq!(
        p.create_target_circuit_proof_batch(&MockTarget { strict: true }, &traces),
        Err(ProverError::Proving)
    );
}

#[test]
fn target_batch_tolerant_policy_counts_partial_batch() {
    // the tolerant circuit skips the malformed trace and the accounting
    // surfaces the partial batch
    let traces = vec![trace(b"{}"), trace(b""), trace(b"{}")];
    let mut p = prover([1u8; 16]);
    let proof = p
        .create_target_circuit_proof_batch(&MockTarget { strict: false }, &traces)
        .unwrap();
    assert_eq!(proof.num_of_proved_blocks, 2);
    assert_eq!(proof.total_num_of_blocks, 3);
}

#[test]
fn target_batch_rejects_broken_accounting() {
    let traces = vec![trace(b"{}")];
    let mut p = prover([2u8; 16]);
    assert_eq!(
        p.create_target_circuit_proof_batch(&BrokenTarget, &traces),
        Err(ProverError::Proving)
    );
}

#[test]
fn batch_composition_proves_then_aggregates() {
    let traces = vec![trace(b"{}"), trace(b"{}")];
    let mut p = prover_with_key([11u8; 16]);
    let a = p
        .create_agg_circuit_proof_batch(&MockTarget { strict: true }, &MockAgg::new(), &traces)
        .unwrap();
    // the single inner super-circuit proof proved both blocks
    assert_eq!(a.total_proved_block_count, 2);
    assert_eq!(a.vk, key().vk);
    // the instance bytes are the canonical JSON of a rank-3 tensor
    assert_eq!(a.instance.first(), Some(&b'['));
    assert!(zkevm::codec::deserialize_tensor(&a.instance).is_some());
}

#[test]
fn single_trace_aggregation() {
    let mut p = prover_with_key([13u8; 16]);
    let a = p
        .create_agg_circuit_proof(&MockTarget { strict: true }, &MockAgg::new(), &trace(b"{}"))
        .unwrap();
    assert_eq!(a.total_proved_block_count, 1);
}

#[test]
fn sub_seeds_differ_between_stages() {
    // the two sub-seeds of one aggregation run are distinct, and a second
    // run draws fresh ones: the stream advances monotonically
    let mut p = prover_with_key([21u8; 16]);
    let (s1, s2) = p.draw_sub_seeds();
    let (s3, s4) = p.draw_sub_seeds();
    assert_ne!(s1, s2);
    assert_ne!((s1, s2), (s3, s4));
}

#[test]
fn assembly_is_exact() {
    // the deterministic tail of aggregation: every field of the artifact
    // is a function of the inputs
    let inners = vec![inner_proof(1, 2), inner_proof(3, 3)];
    let instances = vec![vec![
        Fr { l0: 1, l1: 2, l2: 3, l3: 4 },
        Fr { l0: 0, l1: 0, l2: 0, l3: 0 },
    ]];
    let vk = vec![9u8, 8, 7];
    let a = zkevm::prover::assemble_agg_proof(&inners, instances, vec![0xDE, 0xAD], &vk);
    assert_eq!(a.proof_bytes, vec![0xDE, 0xAD]);
    assert_eq!(
        String::from_utf8(a.instance).unwrap(),
        "[[[[1,2,3,4],[0,0,0,0]]]]"
    );
    assert_eq!(a.vk, vk);
    assert_eq!(a.total_proved_block_count, 4);
}

#[test]
fn collected_snarks_are_the_inner_handles_in_order() {
    let inners = vec![inner_proof(1, 2), inner_proof(3, 4), inner_proof(0, 1)];
    let snarks = zkevm::prover::collect_snarks(&inners);
    assert_eq!(snarks.len(), inners.len());
    for (s, p) in snarks.iter().zip(inners.iter()) {
        assert_eq!(s, &p.snark);
    }
}

#[test]
fn validation_hands_on_well_formed_proofs_unchanged() {
    let p = inner_proof(2, 3);
    assert_eq!(zkevm::prover::validate_target(p.clone()), Ok(p));
    assert_eq!(
        zkevm::prover::validate_target(inner_proof(5, 2)),
        Err(ProverError::Proving)
    );
}
