//! The Prover: orchestration of target-circuit and aggregation proving.
//!
//! The Prover owns the two parameter sets, the run's randomness stream and
//! the optional aggregation proving key. Circuit arithmetization and the
//! commitment scheme are opaque capabilities handed in by the caller; the
//! Prover partitions randomness across stages, checks the proving-key
//! precondition, keeps the batch accounting, and assembles artifacts.

use vstd::prelude::*;
use crate::artifacts::{
    AggCircuitProof, ExecutionTrace, Fr, Params, ProverError, ProvingKey, Snark,
    TargetCircuitProof, mat_view, sum_proved, sum_total,
};
use crate::codec::{json_of_tensor, serialize_tensor};
use crate::rng::{RandStream, xs_block};

verus! {

/// A target-circuit capability: given a batch of traces, proving
/// parameters and a 16-byte randomness seed, it may yield a proof of the
/// batch. Implemented outside this crate by the circuit bindings; nothing
/// is assumed of its behaviour, so the orchestration validates whatever
/// comes back.
pub trait TargetCircuitBackend {
    /// Prove one batch of traces, or fail (malformed trace, circuit
    /// capacity exceeded).
    fn prove_target_batch(
        &self,
        params: &Params,
        block_traces: &Vec<ExecutionTrace>,
        seed: &[u8; 16],
    ) -> (r: Option<TargetCircuitProof>);
}

/// The aggregation capability: builds the aggregation witness from inner
/// snark handles under one randomness seed, and proves the built circuit
/// under another. `W` is the backend's witness representation, opaque
/// here.
pub trait AggregationBackend<W> {
    /// Combine the inner snarks into one aggregation witness and derive
    /// its public instances, using the first sub-stream's seed.
    fn build_aggregation_circuit(
        &self,
        agg_params: &Params,
        snarks: &Vec<Snark>,
        seed: &[u8; 16],
    ) -> (r: Option<(W, Vec<Vec<Fr>>)>);

    /// Produce the EVM-verifiable proof of the built circuit, bound to its
    /// public instances, using the second sub-stream's seed.
    fn prove_aggregation(
        &self,
        agg_params: &Params,
        pk: &ProvingKey,
        witness: W,
        instances: &Vec<Vec<Fr>>,
        seed: &[u8; 16],
    ) -> (r: Option<Vec<u8>>);
}

/// The proof orchestrator: owns parameters, the randomness stream and the
/// optional aggregation proving key for the lifetime of a run.
pub struct Prover {
    /// Parameters sized for the target circuits.
    pub params: Params,
    /// Parameters sized for the aggregation circuit.
    pub agg_params: Params,
    /// The run's exclusively owned randomness stream; every draw advances
    /// it irreversibly.
    pub rng: RandStream,
    /// The aggregation proving key; must be provisioned before an
    /// aggregation proof is requested.
    pub agg_pk: Option<ProvingKey>,
}

/// What the aggregation artifact holds, as a function of the inner proofs
/// and of the backend's responses: the raw proof bytes, the canonical JSON
/// of the instance tensor, the verification-key bytes, and the proved
/// total.
pub open spec fn agg_artifact_model(
    inners: Seq<TargetCircuitProof>,
    instances: Seq<Seq<Fr>>,
    agg_bytes: Seq<u8>,
    vk: Seq<u8>,
) -> (Seq<u8>, Seq<u8>, Seq<u8>, int) {
    (agg_bytes, json_of_tensor(seq![instances]), vk, sum_proved(inners))
}

/// One snark handle carries the same proof bytes and the same public
/// instances, element for element, as another. (Spec equality on `Vec`
/// values is identity, so a copied handle is compared by its views.)
pub open spec fn snark_matches(a: Snark, b: Snark) -> bool {
    &&& a.proof_bytes@ == b.proof_bytes@
    &&& mat_view(a.instances@) == mat_view(b.instances@)
}

/// The artifact fields an `AggCircuitProof` must carry for the model.
pub open spec fn matches_model(
    p: AggCircuitProof,
    model: (Seq<u8>, Seq<u8>, Seq<u8>, int),
) -> bool {
    &&& p.proof_bytes@ == model.0
    &&& p.instance@ == model.1
    &&& p.vk@ == model.2
    &&& p.total_proved_block_count as int == model.3
}

/// Assemble the aggregation artifact from the inner proofs and the
/// backend's responses: the proof bytes verbatim, the canonical JSON of
/// the instance tensor (one outer dimension wrapping this aggregation
/// circuit's instance matrix), the verification-key bytes verbatim, and
/// the proved-block total summed over the inner proofs in input order.
/// This is the deterministic tail of aggregation: the result is a pure
/// function of the arguments.
pub fn assemble_agg_proof(
    inner_circuit_results: &Vec<TargetCircuitProof>,
    instances: Vec<Vec<Fr>>,
    agg_bytes: Vec<u8>,
    vk: &Vec<u8>,
) -> (r: AggCircuitProof)
    requires
        forall|i: int|
            0 <= i < inner_circuit_results@.len() ==> (#[trigger] inner_circuit_results@[i]).wf(),
        sum_total(inner_circuit_results@) <= usize::MAX,
    ensures
        matches_model(
            r,
            agg_artifact_model(inner_circuit_results@, mat_view(instances@), agg_bytes@, vk@),
        ),
{
    let ghost instances_snapshot = instances@;
    let (total_proved_block_count, _total_block_count) = sum_counts(inner_circuit_results);
    let mut tensor: Vec<Vec<Vec<Fr>>> = Vec::new();
    tensor.push(instances);
    let instance_bytes = serialize_tensor(&tensor);
    proof {
        assert(crate::artifacts::tensor_view(tensor@) =~= seq![mat_view(instances_snapshot)]);
    }
    AggCircuitProof {
        proof_bytes: agg_bytes,
        instance: instance_bytes,
        vk: copy_vals(vk),
        total_proved_block_count,
    }
}

/// Sum the proved and attempted block counts of the inner proofs, in input
/// order.
fn sum_counts(inners: &Vec<TargetCircuitProof>) -> (r: (usize, usize))
    requires
        forall|i: int| 0 <= i < inners@.len() ==> (#[trigger] inners@[i]).wf(),
        sum_total(inners@) <= usize::MAX,
    ensures
        r.0 as int == sum_proved(inners@),
        r.1 as int == sum_total(inners@),
{
    let mut proved: usize = 0;
    let mut total: usize = 0;
    let mut i: usize = 0;
    while i < inners.len()
        invariant
            i <= inners@.len(),
            forall|j: int| 0 <= j < inners@.len() ==> (#[trigger] inners@[j]).wf(),
            sum_total(inners@) <= usize::MAX,
            proved as int == sum_proved(inners@.take(i as int)),
            total as int == sum_total(inners@.take(i as int)),
        decreases inners@.len() - i,
    {
        proof {
            lemma_sum_take_step(inners@, i as int);
            lemma_sum_take_le(inners@, i as int + 1);
            lemma_sum_prefix_accounting(inners@.take(i as int + 1));
        }
        proved = proved + inners[i].num_of_proved_blocks;
        total = total + inners[i].total_num_of_blocks;
        i = i + 1;
    }
    proof {
        assert(inners@.take(inners@.len() as int) =~= inners@);
    }
    (proved, total)
}

/// Validate a backend-produced batch proof: a well-formed proof is handed
/// on unchanged — the very value the backend returned, partial-batch
/// accounting included — and one claiming more proved than attempted
/// blocks is rejected as a proving failure.
pub fn validate_target(p: TargetCircuitProof) -> (r: Result<TargetCircuitProof, ProverError>)
    ensures
        p.wf() ==> r == Ok::<TargetCircuitProof, ProverError>(p),
        !p.wf() ==> r == Err::<TargetCircuitProof, ProverError>(ProverError::Proving),
{
    if p.num_of_proved_blocks <= p.total_num_of_blocks {
        Ok(p)
    } else {
        Err(ProverError::Proving)
    }
}

/// One step of the prefix sums.
proof fn lemma_sum_take_step(s: Seq<TargetCircuitProof>, i: int)
    requires
        0 <= i < s.len(),
    ensures
        sum_proved(s.take(i + 1)) == sum_proved(s.take(i)) + s[i].num_of_proved_blocks,
        sum_total(s.take(i + 1)) == sum_total(s.take(i)) + s[i].total_num_of_blocks,
{
    assert(s.take(i + 1).drop_last() =~= s.take(i));
    assert(s.take(i + 1).last() == s[i]);
}

/// Prefix sums never exceed the full sums.
proof fn lemma_sum_take_le(s: Seq<TargetCircuitProof>, i: int)
    requires
        0 <= i <= s.len(),
    ensures
        sum_proved(s.take(i)) <= sum_proved(s),
        sum_total(s.take(i)) <= sum_total(s),
    decreases s.len() - i,
{
    if i == s.len() {
        assert(s.take(i) =~= s);
    } else {
        lemma_sum_take_step(s, i);
        lemma_sum_take_le(s, i + 1);
    }
}

/// Accounting on a prefix: proved stays below attempted.
proof fn lemma_sum_prefix_accounting(s: Seq<TargetCircuitProof>)
    requires
        forall|i: int| 0 <= i < s.len() ==> (#[trigger] s[i]).wf(),
    ensures
        0 <= sum_proved(s) <= sum_total(s),
{
    crate::artifacts::lemma_batch_accounting(s);
}

/// Determinism of a run: the sub-seeds drawn at a given stream position
/// are a function of the run seed and that position alone, and the
/// assembled artifact is a function of the inner proofs, the backend's
/// instances and proof bytes, and the verification key alone. Two runs
/// over equal seeds, stream positions, inner proofs and backend responses
/// therefore produce byte-identical proof, instance and verification-key
/// outputs.
pub proof fn lemma_aggregation_deterministic(
    seed1: Seq<u8>,
    seed2: Seq<u8>,
    drawn1: int,
    drawn2: int,
    inners1: Seq<TargetCircuitProof>,
    inners2: Seq<TargetCircuitProof>,
    instances1: Seq<Seq<Fr>>,
    instances2: Seq<Seq<Fr>>,
    agg_bytes1: Seq<u8>,
    agg_bytes2: Seq<u8>,
    vk1: Seq<u8>,
    vk2: Seq<u8>,
)
    requires
        seed1 == seed2,
        drawn1 == drawn2,
        inners1 == inners2,
        instances1 == instances2,
        agg_bytes1 == agg_bytes2,
        vk1 == vk2,
    ensures
        xs_block(seed1, drawn1) == xs_block(seed2, drawn2),
        xs_block(seed1, drawn1 + 1) == xs_block(seed2, drawn2 + 1),
        agg_artifact_model(inners1, instances1, agg_bytes1, vk1) == agg_artifact_model(
            inners2,
            instances2,
            agg_bytes2,
            vk2,
        ),
{
}

impl Prover {
    /// Build a Prover from validated parameter sets and the run's
    /// randomness stream; the aggregation proving key starts unset.
    pub fn from_params_and_rng(params: Params, agg_params: Params, rng: RandStream) -> (r: Prover)
        ensures
            r.params == params,
            r.agg_params == agg_params,
            r.rng == rng,
            r.agg_pk is None,
    {
        Prover { params, agg_params, rng, agg_pk: None }
    }

    /// Provision the aggregation proving key. Read-only for the rest of
    /// the run once set.
    pub fn set_agg_pk(&mut self, pk: ProvingKey)
        ensures
            final(self).agg_pk == Some(pk),
            final(self).params == old(self).params,
            final(self).agg_params == old(self).agg_params,
            final(self).rng == old(self).rng,
    {
        self.agg_pk = Some(pk);
    }

    /// Draw the two independent 128-bit sub-seeds of one aggregation run
    /// from the parent stream. The draw happens before any use of either
    /// sub-stream and advances the parent irreversibly, so the two
    /// sub-streams are derived deterministically and never re-derived.
    pub fn draw_sub_seeds(&mut self) -> (r: ([u8; 16], [u8; 16]))
        ensures
            r.0@ == xs_block(old(self).rng.seed(), old(self).rng.drawn()),
            r.1@ == xs_block(old(self).rng.seed(), old(self).rng.drawn() + 1),
            final(self).rng.seed() == old(self).rng.seed(),
            final(self).rng.drawn() == old(self).rng.drawn() + 2,
            final(self).params == old(self).params,
            final(self).agg_params == old(self).agg_params,
            final(self).agg_pk == old(self).agg_pk,
    {
        let s1 = self.rng.fill16();
        let s2 = self.rng.fill16();
        (s1, s2)
    }

    /// Prove one batch of traces with the given target-circuit capability.
    ///
    /// Draws one sub-seed from the run's stream, delegates to the backend,
    /// and surfaces the backend's partial-batch accounting unchanged after
    /// validating it: a result claiming more proved than attempted blocks
    /// is rejected as a proving failure, so every returned proof satisfies
    /// the accounting invariant.
    pub fn create_target_circuit_proof_batch<B: TargetCircuitBackend>(
        &mut self,
        backend: &B,
        block_traces: &Vec<ExecutionTrace>,
    ) -> (r: Result<TargetCircuitProof, ProverError>)
        ensures
            final(self).rng.seed() == old(self).rng.seed(),
            final(self).rng.drawn() == old(self).rng.drawn() + 1,
            final(self).params == old(self).params,
            final(self).agg_params == old(self).agg_params,
            final(self).agg_pk == old(self).agg_pk,
            r matches Ok(p) ==> p.wf(),
            r matches Err(e) ==> e == ProverError::Proving,
    {
        let seed = self.rng.fill16();
        match backend.prove_target_batch(&self.params, block_traces, &seed) {
            Some(p) => validate_target(p),
            None => Err(ProverError::Proving),
        }
    }

    /// Input the inner circuit results, output the aggregated proof: the
    /// actual work of the outer-circuit prover.
    ///
    /// Requires the aggregation proving key to be provisioned: its absence
    /// is reported before any randomness is drawn or any backend work is
    /// attempted, leaving the Prover untouched. Otherwise two independent
    /// sub-seeds are drawn from the parent stream (construction randomness
    /// and proof randomness must never share a stream), the aggregation
    /// witness is built over the inner snark handles in input order, the
    /// proof is generated, and the artifact is assembled with the proved
    /// total summed over the inner proofs in input order.
    pub fn create_agg_circuit_proof_impl<W, B: AggregationBackend<W>>(
        &mut self,
        backend: &B,
        inner_circuit_results: &Vec<TargetCircuitProof>,
    ) -> (r: Result<AggCircuitProof, ProverError>)
        requires
            forall|i: int|
                0 <= i < inner_circuit_results@.len() ==> (#[trigger] inner_circuit_results@[i]).wf(),
            sum_total(inner_circuit_results@) <= usize::MAX,
        ensures
            old(self).agg_pk is None ==> {
                &&& r == Err::<AggCircuitProof, ProverError>(ProverError::KeyNotConfigured)
                &&& *final(self) == *old(self)
            },
            old(self).agg_pk is Some ==> {
                &&& final(self).rng.seed() == old(self).rng.seed()
                &&& final(self).rng.drawn() == old(self).rng.drawn() + 2
                &&& final(self).params == old(self).params
                &&& final(self).agg_params == old(self).agg_params
                &&& final(self).agg_pk == old(self).agg_pk
                &&& (r matches Err(e) ==> e == ProverError::Proving)
                &&& (r matches Ok(p) ==> exists|instances: Seq<Seq<Fr>>, agg_bytes: Seq<u8>|
                    matches_model(
                        p,
                        agg_artifact_model(
                            inner_circuit_results@,
                            instances,
                            agg_bytes,
                            old(self).agg_pk->Some_0.vk@,
                        ),
                    ))
            },
    {
        if self.agg_pk.is_none() {
            return Err(ProverError::KeyNotConfigured);
        }
        let (seed1, seed2) = self.draw_sub_seeds();

        // the aggregation circuit inputs are the inner circuits' snark
        // handles, in input order
        let snarks = collect_snarks(inner_circuit_results);

        let built = backend.build_aggregation_circuit(&self.agg_params, &snarks, &seed1);
        let (witness, instances) = match built {
            Some(b) => b,
            None => return Err(ProverError::Proving),
        };

        let agg_bytes = match &self.agg_pk {
            Some(pk) => backend.prove_aggregation(
                &self.agg_params,
                pk,
                witness,
                &instances,
                &seed2,
            ),
            None => return Err(ProverError::KeyNotConfigured),
        };
        let agg_bytes = match agg_bytes {
            Some(b) => b,
            None => return Err(ProverError::Proving),
        };

        let result = match &self.agg_pk {
            Some(pk) => assemble_agg_proof(inner_circuit_results, instances, agg_bytes, &pk.vk),
            None => return Err(ProverError::KeyNotConfigured),
        };
        Ok(result)
    }

    /// Input a list of block traces, generate a proof for the aggregation
    /// circuit, verifiable by the EVM: prove the whole batch with the
    /// "super" target-circuit capability, then aggregate that single inner
    /// proof.
    pub fn create_agg_circuit_proof_batch<W, TB: TargetCircuitBackend, AB: AggregationBackend<W>>(
        &mut self,
        super_circuit: &TB,
        backend: &AB,
        block_traces: &Vec<ExecutionTrace>,
    ) -> (r: Result<AggCircuitProof, ProverError>)
        ensures
            final(self).rng.seed() == old(self).rng.seed(),
            final(self).rng.drawn() == old(self).rng.drawn() + 1 || final(self).rng.drawn() == old(
                self,
            ).rng.drawn() + 3,
            final(self).params == old(self).params,
            final(self).agg_params == old(self).agg_params,
            final(self).agg_pk == old(self).agg_pk,
            old(self).agg_pk is None ==> (r matches Err(e) && (e == ProverError::KeyNotConfigured
                || e == ProverError::Proving)),
            r matches Err(e) ==> (e == ProverError::KeyNotConfigured || e == ProverError::Proving),
            r matches Ok(p) ==> {
                &&& old(self).agg_pk is Some
                &&& final(self).rng.drawn() == old(self).rng.drawn() + 3
                &&& p.vk@ == old(self).agg_pk->Some_0.vk@
                &&& exists|inner: TargetCircuitProof, instances: Seq<Seq<Fr>>, agg_bytes: Seq<u8>|
                    inner.wf() && matches_model(
                        p,
                        agg_artifact_model(
                            seq![inner],
                            instances,
                            agg_bytes,
                            old(self).agg_pk->Some_0.vk@,
                        ),
                    )
            },
    {
        let inner = match self.create_target_circuit_proof_batch(super_circuit, block_traces) {
            Ok(p) => p,
            Err(e) => return Err(e),
        };
        let ghost inner_snapshot = inner;
        let mut circuit_results: Vec<TargetCircuitProof> = Vec::new();
        circuit_results.push(inner);
        proof {
            assert(circuit_results@ =~= seq![inner_snapshot]);
            assert(circuit_results@.drop_last() =~= Seq::<TargetCircuitProof>::empty());
            assert(sum_total(Seq::<TargetCircuitProof>::empty()) == 0);
            assert(sum_total(circuit_results@) == sum_total(circuit_results@.drop_last())
                + circuit_results@.last().total_num_of_blocks);
            assert(sum_total(circuit_results@) == inner_snapshot.total_num_of_blocks as int);
            assert(forall|i: int|
                0 <= i < circuit_results@.len() ==> (#[trigger] circuit_results@[i]).wf());
        }
        let r = self.create_agg_circuit_proof_impl(backend, &circuit_results);
        r
    }

    /// Input a single block trace, generate a proof for the aggregation
    /// circuit over the one-trace batch.
    pub fn create_agg_circuit_proof<W, TB: TargetCircuitBackend, AB: AggregationBackend<W>>(
        &mut self,
        super_circuit: &TB,
        backend: &AB,
        block_trace: &ExecutionTrace,
    ) -> (r: Result<AggCircuitProof, ProverError>)
        ensures
            final(self).rng.seed() == old(self).rng.seed(),
            final(self).rng.drawn() == old(self).rng.drawn() + 1 || final(self).rng.drawn() == old(
                self,
            ).rng.drawn() + 3,
            final(self).params == old(self).params,
            final(self).agg_params == old(self).agg_params,
            final(self).agg_pk == old(self).agg_pk,
            old(self).agg_pk is None ==> (r matches Err(e) && (e == ProverError::KeyNotConfigured
                || e == ProverError::Proving)),
            r matches Err(e) ==> (e == ProverError::KeyNotConfigured || e == ProverError::Proving),
            r matches Ok(p) ==> {
                &&& old(self).agg_pk is Some
                &&& final(self).rng.drawn() == old(self).rng.drawn() + 3
                &&& p.vk@ == old(self).agg_pk->Some_0.vk@
                &&& exists|inner: TargetCircuitProof, instances: Seq<Seq<Fr>>, agg_bytes: Seq<u8>|
                    inner.wf() && matches_model(
                        p,
                        agg_artifact_model(
                            seq![inner],
                            instances,
                            agg_bytes,
                            old(self).agg_pk->Some_0.vk@,
                        ),
                    )
            },
    {
        let mut traces: Vec<ExecutionTrace> = Vec::new();
        traces.push(block_trace.clone());
        self.create_agg_circuit_proof_batch(super_circuit, backend, &traces)
    }
}

/// Copy a vector of plain values.
fn copy_vals<T: Copy>(v: &Vec<T>) -> (r: Vec<T>)
    ensures
        r@ == v@,
{
    let mut out: Vec<T> = Vec::new();
    let mut i: usize = 0;
    while i < v.len()
        invariant
            i <= v@.len(),
            out@ == v@.take(i as int),
        decreases v@.len() - i,
    {
        out.push(v[i]);
        proof {
            assert(v@.take(i as int + 1) =~= v@.take(i as int).push(v@[i as int]));
        }
        i = i + 1;
    }
    proof {
        assert(v@.take(v@.len() as int) =~= v@);
    }
    out
}

/// Copy one snark handle, byte for byte and element for element.
fn copy_snark(s: &Snark) -> (r: Snark)
    ensures
        snark_matches(r, *s),
{
    let mut instances: Vec<Vec<Fr>> = Vec::new();
    let mut i: usize = 0;
    while i < s.instances.len()
        invariant
            i <= s.instances@.len(),
            instances@.len() == i,
            forall|k: int| 0 <= k < i ==> (#[trigger] instances@[k])@ == s.instances@[k]@,
        decreases s.instances@.len() - i,
    {
        instances.push(copy_vals(&s.instances[i]));
        i = i + 1;
    }
    let r = Snark { proof_bytes: copy_vals(&s.proof_bytes), instances };
    proof {
        assert(mat_view(r.instances@) =~= mat_view(s.instances@));
    }
    r
}

/// Collect the inner proofs' reusable snark handles, in input order: one
/// handle for each inner proof, carrying that proof's snark exactly. The
/// aggregation witness is built from precisely this sequence.
pub fn collect_snarks(inner_circuit_results: &Vec<TargetCircuitProof>) -> (r: Vec<Snark>)
    ensures
        r@.len() == inner_circuit_results@.len(),
        forall|i: int|
            0 <= i < r@.len() ==> snark_matches(
                #[trigger] r@[i],
                inner_circuit_results@[i].snark,
            ),
{
    let mut snarks: Vec<Snark> = Vec::new();
    let mut i: usize = 0;
    while i < inner_circuit_results.len()
        invariant
            i <= inner_circuit_results@.len(),
            snarks@.len() == i,
            forall|k: int|
                0 <= k < i ==> snark_matches(
                    #[trigger] snarks@[k],
                    inner_circuit_results@[k].snark,
                ),
        decreases inner_circuit_results@.len() - i,
    {
        snarks.push(copy_snark(&inner_circuit_results[i].snark));
        i = i + 1;
    }
    snarks
}

} // verus!
