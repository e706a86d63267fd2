//! A request from its first look at the devices to its answer.
//!
//! The devices work between the steps: they load what they are given and compute
//! scores. Each step takes what became of that work and says what is to be done
//! next. A request that `begin` took up lets the tensors go that it had in use,
//! however a later step ends. Where `begin` itself fails, because a tensor on a
//! device disagrees with its descriptor, the tensors found before it stay in use.

use crate::engine::{
    all_tensors, candidate_keys, chunk_planned, chunk_run, chunk_view, chunk_views, contract_text,
    empty_chunks, first_index, gate_of, has_upload, hit_device, hit_plan, is_first, let_go_all,
    looked_up, no_tensors, on_devices, planned_use, stopped_at, takes, upload_counted, upload_ended, ChunkPlan,
    DeviceState, Engine, EngineView, HitPlan, HitPlanView, MissingTensor, RequestGate,
    ResidentTensor, ResidentView,
};
use crate::cache::CacheView;
use crate::protocol::{Descriptor, Request, ScoringProfile};
use crate::residency::lemma_takes;
use crate::scores::{answered, finish_scores, lemma_first_is_first, pair_views, record_scores, recorded, scored, spread};
use crate::tensors::{
    encode_for_profile, encoding_fault, gpu_cache_key, is_encoded, scalar_size, EngineError,
};
use std::sync::Arc;
use vstd::prelude::*;

verus! {

/// Why a run ends without an answer.
pub enum RunFault {
    /// A device failed; its own error is the answer.
    Device,
    Engine(EngineError),
}

/// A request whose tensors are being scored.
pub struct ScoreRun {
    /// The scores so far, candidate by candidate.
    pub scores: Vec<Option<u32>>,
    /// The candidates that repeat another, with the one that they repeat.
    pub duplicates: Vec<(usize, usize)>,
    /// The candidates whose tensors are still to be resolved.
    pub missing: Vec<usize>,
    /// The tensors that are still to be scored.
    pub pending: Vec<MissingTensor>,
    /// How many of the pending tensors are in use.
    pub taken: usize,
    /// The tensors in use, device by device.
    pub chunks: Vec<Vec<ResidentTensor>>,
}

/// Whether a candidate is among the tensors in use.
pub open spec fn in_chunks(chunks: Seq<Seq<ResidentView>>, candidate: int) -> bool {
    exists|d: int, k: int|
        0 <= d < chunks.len() && 0 <= k < chunks[d].len() && (#[trigger] chunks[d][k]).candidate_index
            == candidate
}

/// Whether a candidate is among the tensors that are still to be scored.
pub open spec fn is_waiting(pending: Seq<MissingTensor>, candidate: int) -> bool {
    exists|k: int| 0 <= k < pending.len() && (#[trigger] pending[k]).candidate_index == candidate
}

impl ScoreRun {
    /// The lists speak of `candidates` candidates and `devices` devices.
    pub open spec fn wf(&self, candidates: nat, devices: nat) -> bool {
        &&& self.scores@.len() == candidates
        &&& self.chunks@.len() == devices
        &&& self.taken <= self.pending@.len()
        &&& on_devices(self.chunks@, devices)
        &&& forall|d: int, k: int|
            0 <= d < self.chunks@.len() && 0 <= k < self.chunks@[d]@.len() ==> (
            #[trigger] self.chunks@[d]@[k]).candidate_index < candidates
        &&& forall|k: int|
            0 <= k < self.missing@.len() ==> (#[trigger] self.missing@[k]) < candidates
        &&& forall|k: int|
            0 <= k < self.pending@.len() ==> (#[trigger] self.pending@[k]).candidate_index < candidates
        &&& forall|k: int|
            0 <= k < self.duplicates@.len() ==> (#[trigger] self.duplicates@[k]).0 < candidates
                && self.duplicates@[k].1 < candidates
    }

    /// Whether nothing is left to be done for a candidate, or it is known what is.
    pub open spec fn accounts_for(&self, candidate: int) -> bool {
        ||| self.scores@[candidate] is Some
        ||| in_chunks(chunk_views(self.chunks@), candidate)
        ||| is_waiting(self.pending@, candidate)
        ||| exists|k: int|
            0 <= k < self.missing@.len() && (#[trigger] self.missing@[k]) == candidate
    }

    /// Whether the run accounts for every candidate that repeats no other, and for
    /// those that do through the one that they repeat.
    pub open spec fn covers(&self, keys: Seq<Seq<char>>) -> bool {
        &&& forall|i: int|
            0 <= i < keys.len() && #[trigger] first_index(keys, keys[i], i) is None
                ==> self.accounts_for(i)
        &&& forall|k: int|
            0 <= k < self.taken ==> in_chunks(
                chunk_views(self.chunks@),
                (#[trigger] self.pending@[k]).candidate_index as int,
            )
        &&& repeats_known(keys, pair_views(self.duplicates@))
    }
}

/// Whether every candidate that repeats another is known, each with one that
/// repeats none.
pub open spec fn repeats_known(keys: Seq<Seq<char>>, duplicates: Seq<(int, int)>) -> bool {
    &&& forall|i: int|
        0 <= i < keys.len() && #[trigger] first_index(keys, keys[i], i) is Some ==> is_repeat(
            duplicates,
            i,
        )
    &&& forall|k: int|
        0 <= k < duplicates.len() ==> 0 <= (#[trigger] duplicates[k]).1 < keys.len() && first_index(
            keys,
            keys[duplicates[k].1],
            duplicates[k].1,
        ) is None
}

/// Whether a candidate is noted as repeating another.
pub open spec fn is_repeat(duplicates: Seq<(int, int)>, candidate: int) -> bool {
    exists|k: int| 0 <= k < duplicates.len() && (#[trigger] duplicates[k]).0 == candidate
}

/// The device keys of a request's candidates.
pub open spec fn request_keys(request: Request) -> Seq<Seq<char>> {
    candidate_keys(request.candidates@, request.scoring_profile, contract_text(request))
}

/// What is to be done first.
pub enum Beginning {
    /// The quantizer has to be resolved.
    Resolve,
    /// There is nothing to score: the answer is empty.
    Empty,
    /// The resident tensors are to be scored.
    Score(ScoreRun),
}

/// The plan for all candidates of a request.
pub open spec fn whole_plan(caches: Seq<CacheView>, request: Request) -> Result<
    HitPlanView,
    EngineError,
> {
    hit_plan(
        caches,
        request.candidates@,
        request.scoring_profile,
        contract_text(request),
        request.candidates@.len() as int,
    )
}

/// Whether the caches are as looking the candidates up leaves them where an entry
/// does not fit.
pub open spec fn stopped<W: Fn(u64, u16, usize) -> u64>(
    weigh: W,
    before: Seq<CacheView>,
    after: Seq<CacheView>,
    next_device: int,
    request: Request,
) -> bool {
    exists|index: int| #[trigger]
        stopped_at(
            weigh,
            before,
            after,
            next_device,
            request.candidates@,
            request.scoring_profile,
            contract_text(request),
            index,
        )
}

/// A run that carries out a plan.
pub open spec fn carries_out(run: ScoreRun, plan: HitPlanView, candidates: nat) -> bool {
    &&& run.scores@ == Seq::new(candidates, |i: int| None::<u32>)
    &&& pair_views(run.duplicates@) == plan.duplicates
    &&& Seq::new(run.missing@.len(), |i: int| run.missing@[i] as int) == plan.missing
    &&& run.pending@.len() == 0
    &&& run.taken == 0
    &&& chunk_views(run.chunks@) == plan.hits
}

/// What a plan says of its candidates.
proof fn lemma_plan(
    caches: Seq<CacheView>,
    candidates: Seq<Descriptor>,
    profile: ScoringProfile,
    contract: Option<Seq<char>>,
    count: int,
)
    requires
        0 <= count <= candidates.len() <= usize::MAX,
        caches.len() <= usize::MAX,
        hit_plan(caches, candidates, profile, contract, count) is Ok,
    ensures
        ({
            let plan = hit_plan(caches, candidates, profile, contract, count)->Ok_0;
            let keys = candidate_keys(candidates, profile, contract);
            &&& plan.hits.len() == caches.len()
            &&& forall|d: int, k: int|
                0 <= d < plan.hits.len() && 0 <= k < plan.hits[d].len() ==> (
                #[trigger] plan.hits[d][k]).candidate_index < count && plan.hits[d][k].device
                    < caches.len()
            &&& forall|k: int|
                0 <= k < plan.missing.len() ==> 0 <= (#[trigger] plan.missing[k]) < count
            &&& forall|k: int|
                0 <= k < plan.duplicates.len() ==> 0 <= (#[trigger] plan.duplicates[k]).0 < count
                    && 0 <= plan.duplicates[k].1 < count
            &&& forall|i: int|
                0 <= i < count && #[trigger] first_index(keys, keys[i], i) is None ==> in_chunks(
                    plan.hits,
                    i,
                ) || plan.missing.contains(i)
            &&& forall|i: int|
                0 <= i < count && #[trigger] first_index(keys, keys[i], i) is Some ==> is_repeat(
                    plan.duplicates,
                    i,
                )
            &&& forall|k: int|
                0 <= k < plan.duplicates.len() ==> first_index(
                    keys,
                    keys[(#[trigger] plan.duplicates[k]).1],
                    plan.duplicates[k].1,
                ) is None
        }),
    decreases count,
{
    if count > 0 {
        lemma_plan(caches, candidates, profile, contract, count - 1);
        let before = hit_plan(caches, candidates, profile, contract, count - 1)->Ok_0;
        let plan = hit_plan(caches, candidates, profile, contract, count)->Ok_0;
        let keys = candidate_keys(candidates, profile, contract);
        let index = count - 1;
        crate::engine::lemma_first_index(keys, keys[index], index);
        crate::engine::lemma_hit_device(caches, caches, keys[index], 0);
        match first_index(keys, keys[index], index) {
            Some(_) => {
                lemma_first_is_first(keys, keys[index], index);
                assert(plan.duplicates[plan.duplicates.len() - 1].0 == index);
                assert forall|i: int| is_repeat(before.duplicates, i) implies is_repeat(
                    plan.duplicates,
                    i,
                ) by {
                    let k = choose|k: int|
                        0 <= k < before.duplicates.len() && (#[trigger] before.duplicates[k]).0 == i;
                    assert(plan.duplicates[k] == before.duplicates[k]);
                }
            },
            None => match hit_device(caches, keys[index], 0) {
                Some(device) => {
                    let last = before.hits[device].len() as int;
                    assert(plan.hits[device][last].candidate_index == index);
                    assert forall|i: int| in_chunks(before.hits, i) implies in_chunks(plan.hits, i) by {
                        let (d, k) = choose|d: int, k: int|
                            0 <= d < before.hits.len() && 0 <= k < before.hits[d].len() && (
                            #[trigger] before.hits[d][k]).candidate_index == i;
                        assert(plan.hits[d][k] == before.hits[d][k]);
                    }
                },
                None => {
                    assert(plan.missing[plan.missing.len() - 1] == index);
                    assert forall|i: int| before.missing.contains(i) implies plan.missing.contains(i) by {
                        let k = before.missing.index_of(i);
                        assert(plan.missing[k] == i);
                    }
                },
            },
        }
    }
}

impl Engine {
    /// Begins a request: its candidates are looked up, and those that are resident
    /// are in use from here on.
    pub fn begin<W: Fn(u64, u16, usize) -> u64>(&mut self, request: &Request, weigh: &W) -> (result:
        Result<Beginning, EngineError>)
        requires
            old(self).wf(),
            old(self).room(request.candidates@.len() as int),
            forall|i: int|
                0 <= i < request.candidates@.len() ==> (#[trigger] request.candidates@[i]).rows
                    * request.candidates@[i].dimension * scalar_size(request.candidates@[i].dtype)
                    <= usize::MAX,
            forall|inflation: u64, frequency: u16, bytes: usize|
                call_requires(*weigh, (inflation, frequency, bytes)),
        ensures
            final(self).wf(),
            final(self).same_but_caches(&*old(self)),
            final(self).next_device == old(self).next_device,
            ({
                let gate = gate_of(
                    request.scoring_profile,
                    request.quantization_contract is Some,
                    request.candidates@.len(),
                    old(self).quantization_registry is Some,
                );
                let before = old(self).state().caches;
                let after = final(self).state().caches;
                let next = old(self).next_device as int;
                match result {
                    Ok(Beginning::Resolve) => gate == Ok::<RequestGate, EngineError>(
                        RequestGate::Resolve,
                    ) && *final(self) == *old(self),
                    Ok(Beginning::Empty) => gate == Ok::<RequestGate, EngineError>(
                        RequestGate::Empty,
                    ) && *final(self) == *old(self),
                    Ok(Beginning::Score(run)) => {
                        &&& gate == Ok::<RequestGate, EngineError>(RequestGate::Score)
                        &&& whole_plan(before, *request) is Ok
                        &&& carries_out(
                            run,
                            whole_plan(before, *request)->Ok_0,
                            request.candidates@.len(),
                        )
                        &&& planned_use(before, after, next, whole_plan(before, *request)->Ok_0)
                        &&& looked_up(
                            *weigh,
                            before,
                            next,
                            request_keys(*request),
                            request.candidates@.len() as int,
                            after,
                        )
                        &&& run.wf(request.candidates@.len(), old(self).devices@.len())
                        &&& run.covers(request_keys(*request))
                    },
                    Err(error) => if gate is Err {
                        gate == Err::<RequestGate, EngineError>(error) && *final(self) == *old(self)
                    } else {
                        &&& gate == Ok::<RequestGate, EngineError>(RequestGate::Score)
                        &&& whole_plan(before, *request) == Err::<HitPlanView, EngineError>(error)
                        &&& stopped(*weigh, before, after, next, *request)
                    },
                }
            }),
    {
        match self.gate(request)? {
            RequestGate::Resolve => {
                return Ok(Beginning::Resolve);
            },
            RequestGate::Empty => {
                return Ok(Beginning::Empty);
            },
            RequestGate::Score => {},
        }
        let devices: usize = self.devices.len();
        let plan: HitPlan = match self.plan_hits(request, weigh) {
            Ok(plan) => plan,
            Err(error) => {
                assert(stopped(
                    *weigh,
                    old(self).state().caches,
                    self.state().caches,
                    old(self).next_device as int,
                    *request,
                ));
                return Err(error);
            },
        };
        let ghost view = plan@;
        let scores: Vec<Option<u32>> = vec![None; request.candidates.len()];
        let run = ScoreRun {
            scores,
            duplicates: plan.duplicates,
            missing: plan.missing,
            pending: Vec::new(),
            taken: 0,
            chunks: plan.hits,
        };
        proof {
            let caches = old(self).state().caches;
            let candidates = request.candidates@;
            assert(caches.len() == devices);
            lemma_plan(
                caches,
                candidates,
                request.scoring_profile,
                contract_text(*request),
                candidates.len() as int,
            );
            assert(run.scores@ =~= Seq::new(candidates.len(), |i: int| None::<u32>));
            assert(pair_views(run.duplicates@) =~= view.duplicates);
            assert(carries_out(run, view, candidates.len()));
            assert forall|d: int, k: int|
                0 <= d < run.chunks@.len() && 0 <= k < run.chunks@[d]@.len() implies (
            #[trigger] run.chunks@[d]@[k]).candidate_index < candidates.len()
                && run.chunks@[d]@[k].device < caches.len() by {
                assert(view.hits[d][k] == run.chunks@[d]@[k]@);
            }
            assert forall|k: int| 0 <= k < run.missing@.len() implies (#[trigger] run.missing@[k])
                < candidates.len() by {
                assert(view.missing[k] == run.missing@[k]);
            }
            assert forall|k: int| 0 <= k < run.duplicates@.len() implies (
            #[trigger] run.duplicates@[k]).0 < candidates.len() && run.duplicates@[k].1
                < candidates.len() by {
                assert(view.duplicates[k].0 == run.duplicates@[k].0);
            }
            let keys = request_keys(*request);
            assert forall|i: int|
                0 <= i < keys.len() && #[trigger] first_index(keys, keys[i], i) is None implies run.accounts_for(
                i,
            ) by {
                if view.missing.contains(i) {
                    let k = view.missing.index_of(i);
                    assert(run.missing@[k] == i);
                }
            }
        }
        Ok(Beginning::Score(run))
    }
}

/// Whether a tensor stands for a candidate, with the bytes that it takes up.
pub open spec fn stands_for(tensor: MissingTensor, request: Request, candidate: int, bytes: int) -> bool {
    let descriptor = request.candidates@[candidate];
    &&& tensor.candidate_index == candidate
    &&& tensor.key@ == request_keys(request)[candidate]
    &&& tensor.payload_bytes == bytes
    &&& tensor.rows == descriptor.rows
    &&& tensor.dimension == descriptor.dimension
    &&& tensor.dtype == descriptor.dtype
}

/// Why the tensor of a candidate cannot be encoded.
pub open spec fn candidate_fault(request: Request, candidate: int, payload: Seq<u8>) -> Option<
    EngineError,
> {
    encoding_fault(request.candidates@[candidate]@, payload.len() as int, request.scoring_profile)
}

impl ScoreRun {
    /// Encodes the tensors that were resolved. They are to be scored from here on.
    pub fn resolved<D: Fn(u32, u32) -> u32>(
        &mut self,
        request: &Request,
        payloads: &Vec<Arc<Vec<u8>>>,
        divide: &D,
    ) -> (result: Result<Vec<Arc<Vec<u8>>>, EngineError>)
        requires
            old(self).wf(request.candidates@.len(), old(self).chunks@.len()),
            old(self).pending@.len() == 0,
            payloads@.len() == old(self).missing@.len(),
            forall|left: u32, right: u32| call_requires(*divide, (left, right)),
        ensures
            match result {
                Ok(encoded) => {
                    &&& final(self).wf(request.candidates@.len(), old(self).chunks@.len())
                    &&& final(self).scores == old(self).scores
                    &&& final(self).duplicates == old(self).duplicates
                    &&& final(self).chunks == old(self).chunks
                    &&& final(self).taken == old(self).taken
                    &&& final(self).missing@.len() == 0
                    &&& final(self).pending@.len() == payloads@.len()
                    &&& encoded@.len() == payloads@.len()
                    &&& forall|k: int|
                        0 <= k < encoded@.len() ==> candidate_fault(
                            *request,
                            old(self).missing@[k] as int,
                            payloads@[k]@,
                        ) is None && is_encoded(
                            *divide,
                            request.candidates@[old(self).missing@[k] as int]@,
                            payloads@[k]@,
                            request.scoring_profile,
                            (#[trigger] encoded@[k])@,
                        ) && stands_for(
                            final(self).pending@[k],
                            *request,
                            old(self).missing@[k] as int,
                            encoded@[k]@.len() as int,
                        )
                    &&& old(self).covers(request_keys(*request)) ==> final(self).covers(
                        request_keys(*request),
                    )
                },
                Err(error) => *final(self) == *old(self) && exists|k: int|
                    0 <= k < payloads@.len() && candidate_fault(
                        *request,
                        old(self).missing@[k] as int,
                        (#[trigger] payloads@[k])@,
                    ) == Some(error) && forall|j: int|
                        0 <= j < k ==> candidate_fault(
                            *request,
                            old(self).missing@[j] as int,
                            (#[trigger] payloads@[j])@,
                        ) is None,
            },
    {
        let mut pending: Vec<MissingTensor> = Vec::new();
        let mut encoded: Vec<Arc<Vec<u8>>> = Vec::new();
        let mut k: usize = 0;
        while k < payloads.len()
            invariant
                k <= payloads@.len(),
                *self == *old(self),
                self.wf(request.candidates@.len(), self.chunks@.len()),
                payloads@.len() == self.missing@.len(),
                forall|left: u32, right: u32| call_requires(*divide, (left, right)),
                pending@.len() == k,
                encoded@.len() == k,
                forall|j: int|
                    0 <= j < k ==> candidate_fault(
                        *request,
                        self.missing@[j] as int,
                        (#[trigger] payloads@[j])@,
                    ) is None,
                forall|j: int|
                    0 <= j < k ==> is_encoded(
                        *divide,
                        request.candidates@[self.missing@[j] as int]@,
                        payloads@[j]@,
                        request.scoring_profile,
                        (#[trigger] encoded@[j])@,
                    ) && stands_for(
                        pending@[j],
                        *request,
                        self.missing@[j] as int,
                        encoded@[j]@.len() as int,
                    ),
            decreases payloads@.len() - k,
        {
            let candidate: usize = self.missing[k];
            assert(self.missing@[k as int] < request.candidates@.len());
            let descriptor: &Descriptor = &request.candidates[candidate];
            let bytes: Arc<Vec<u8>> = match encode_for_profile(
                descriptor,
                &payloads[k],
                request.scoring_profile,
                divide,
            ) {
                Ok(bytes) => bytes,
                Err(error) => {
                    assert(candidate_fault(*request, candidate as int, payloads@[k as int]@) == Some(
                        error,
                    ));
                    return Err(error);
                },
            };
            let key: String = gpu_cache_key(
                descriptor,
                request.scoring_profile,
                match &request.quantization_contract {
                    Some(contract) => Some(contract.as_str()),
                    None => None,
                },
            );
            pending.push(
                MissingTensor {
                    candidate_index: candidate,
                    key,
                    payload_bytes: bytes.len(),
                    rows: descriptor.rows,
                    dimension: descriptor.dimension,
                    dtype: descriptor.dtype,
                },
            );
            encoded.push(bytes);
            k += 1;
        }
        self.pending = pending;
        self.missing = Vec::new();
        proof {
            let keys = request_keys(*request);
            assert forall|k: int| 0 <= k < self.pending@.len() implies (
            #[trigger] self.pending@[k]).candidate_index < request.candidates@.len() by {
                assert(stands_for(
                    self.pending@[k],
                    *request,
                    old(self).missing@[k] as int,
                    encoded@[k]@.len() as int,
                ));
            }
            if old(self).covers(keys) {
                assert forall|i: int|
                    0 <= i < keys.len() && #[trigger] first_index(
                        keys,
                        keys[i],
                        i,
                    ) is None implies self.accounts_for(i) by {
                    assert(old(self).accounts_for(i));
                    if exists|k: int|
                        0 <= k < old(self).missing@.len() && (#[trigger] old(self).missing@[k]) == i {
                        let k = choose|k: int|
                            0 <= k < old(self).missing@.len() && (#[trigger] old(self).missing@[k])
                                == i;
                        assert(stands_for(
                            self.pending@[k],
                            *request,
                            i,
                            encoded@[k]@.len() as int,
                        ));
                    }
                }
            }
        }
        Ok(encoded)
    }
}

/// The tensors of a chunk are the first pending ones.
proof fn lemma_chunk<W: Fn(u64, u16, usize) -> u64>(
    weigh: W,
    start: EngineView,
    tenant: Seq<char>,
    pending: Seq<MissingTensor>,
    count: int,
    state: EngineView,
    chunks: Seq<Seq<ResidentView>>,
)
    requires
        chunk_run(weigh, start, tenant, pending, count, state, chunks),
        0 <= count <= pending.len(),
        0 <= start.next_device < start.caches.len() <= usize::MAX,
    ensures
        state.caches.len() == start.caches.len(),
        0 <= state.next_device < state.caches.len(),
        chunks.len() == start.caches.len(),
        forall|d: int, k: int|
            0 <= d < chunks.len() && 0 <= k < chunks[d].len() ==> (#[trigger] chunks[d][k]).device == d
                && is_waiting(pending, chunks[d][k].candidate_index as int),
        forall|k: int|
            0 <= k < count ==> in_chunks(chunks, (#[trigger] pending[k]).candidate_index as int),
    decreases count,
{
    if count > 0 {
        let (middle, tensor) = choose|middle: EngineView, tensor: ResidentView| #[trigger]
            takes(weigh, middle, tenant, pending[count - 1], is_first(count), state, Some(tensor)) && {
                let device = tensor.device as int;
                &&& device < chunks.len()
                &&& chunks[device].len() > 0
                &&& chunks[device].last() == tensor
                &&& chunk_run(
                    weigh,
                    start,
                    tenant,
                    pending,
                    count - 1,
                    middle,
                    chunks.update(device, chunks[device].drop_last()),
                )
            };
        let device = tensor.device as int;
        let earlier = chunks.update(device, chunks[device].drop_last());
        lemma_chunk(weigh, start, tenant, pending, count - 1, middle, earlier);
        lemma_takes(weigh, middle, tenant, pending[count - 1], is_first(count), state, Some(tensor));
        let last = chunks[device].len() - 1;
        assert(chunks[device][last] == tensor);
        assert forall|d: int, k: int| 0 <= d < chunks.len() && 0 <= k < chunks[d].len() implies (
        #[trigger] chunks[d][k]).device == d && is_waiting(
            pending,
            chunks[d][k].candidate_index as int,
        ) by {
            if d == device && k == last {
                assert(pending[count - 1].candidate_index == tensor.candidate_index);
            } else {
                assert(earlier[d][k] == chunks[d][k]);
            }
        }
        assert forall|k: int| 0 <= k < count implies in_chunks(
            chunks,
            (#[trigger] pending[k]).candidate_index as int,
        ) by {
            if k < count - 1 {
                let candidate = pending[k].candidate_index as int;
                assert(in_chunks(earlier, candidate));
                let (d, j) = choose|d: int, j: int|
                    0 <= d < earlier.len() && 0 <= j < earlier[d].len() && (
                    #[trigger] earlier[d][j]).candidate_index == candidate;
                assert(chunks[d][j] == earlier[d][j]);
            }
        }
    } else {
        assert forall|d: int, k: int| 0 <= d < chunks.len() && 0 <= k < chunks[d].len() implies (
        #[trigger] chunks[d][k]).device == d && is_waiting(
            pending,
            chunks[d][k].candidate_index as int,
        ) by {
            assert(no_tensors(start.caches.len())[d].len() == 0);
        }
    }
}

/// Whether a run has nothing in use.
pub open spec fn is_idle(run: ScoreRun) -> bool {
    run.taken == 0 && forall|d: int| 0 <= d < run.chunks@.len() ==> (#[trigger] run.chunks@[d])@.len() == 0
}

impl Engine {
    /// Takes the next chunk of a run into use. The result says whether there is one.
    pub fn next_chunk<W: Fn(u64, u16, usize) -> u64>(
        &mut self,
        run: &mut ScoreRun,
        request: &Request,
        weigh: &W,
    ) -> (result: Result<bool, EngineError>)
        requires
            old(self).wf(),
            old(run).wf(request.candidates@.len(), old(self).devices@.len()),
            is_idle(*old(run)),
            old(self).room(2 * old(run).pending@.len() as int),
            forall|inflation: u64, frequency: u16, bytes: usize|
                call_requires(*weigh, (inflation, frequency, bytes)),
        ensures
            final(self).wf(),
            final(self).same_but_caches(&*old(self)),
            final(run).wf(request.candidates@.len(), old(self).devices@.len()),
            final(run).scores == old(run).scores,
            final(run).duplicates == old(run).duplicates,
            final(run).missing == old(run).missing,
            final(run).pending == old(run).pending,
            match result {
                Ok(true) => {
                    &&& 1 <= final(run).taken
                    &&& chunk_planned(
                        *weigh,
                        old(self).state(),
                        request.tenant@,
                        old(run).pending@,
                        final(run).taken as int,
                        chunk_views(final(run).chunks@),
                        final(self).state(),
                    )
                },
                Ok(false) => old(run).pending@.len() == 0 && *final(self) == *old(self) && *final(run)
                    == *old(run),
                Err(error) => {
                    &&& error == EngineError::NotScheduled
                    &&& *final(run) == *old(run)
                    &&& takes(
                        *weigh,
                        old(self).state(),
                        request.tenant@,
                        old(run).pending@[0],
                        true,
                        final(self).state(),
                        None,
                    )
                },
            },
            result is Ok && old(run).covers(request_keys(*request)) ==> final(run).covers(
                request_keys(*request),
            ),
    {
        if run.pending.len() == 0 {
            return Ok(false);
        }
        let devices: usize = self.devices.len();
        let plan: ChunkPlan = match self.plan_chunk(request.tenant.as_str(), run.pending.as_slice(), weigh) {
            Ok(plan) => plan,
            Err(error) => {
                return Err(error);
            },
        };
        let ghost chunks = chunk_views(plan.chunks@);
        let ghost count = plan.consumed as int;
        proof {
            let state = choose|state: EngineView| #[trigger]
                chunk_run(
                    *weigh,
                    old(self).state(),
                    request.tenant@,
                    run.pending@,
                    count,
                    state,
                    chunks,
                ) && if count == run.pending@.len() {
                    self.state() == state
                } else {
                    takes(*weigh, state, request.tenant@, run.pending@[count], false, self.state(), None)
                };
            assert(old(self).state().caches.len() == devices);
            lemma_chunk(
                *weigh,
                old(self).state(),
                request.tenant@,
                run.pending@,
                count,
                state,
                chunks,
            );
        }
        run.chunks = plan.chunks;
        run.taken = plan.consumed;
        proof {
            assert(chunk_views(run.chunks@) == chunks);
            assert forall|d: int, k: int|
                0 <= d < run.chunks@.len() && 0 <= k < run.chunks@[d]@.len() implies (
            #[trigger] run.chunks@[d]@[k]).candidate_index < request.candidates@.len()
                && run.chunks@[d]@[k].device < devices by {
                assert(chunks[d][k] == run.chunks@[d]@[k]@);
                assert(is_waiting(run.pending@, chunks[d][k].candidate_index as int));
            }
            let keys = request_keys(*request);
            if old(run).covers(keys) {
                assert forall|i: int|
                    0 <= i < keys.len() && #[trigger] first_index(
                        keys,
                        keys[i],
                        i,
                    ) is None implies run.accounts_for(i) by {
                    assert(old(run).accounts_for(i));
                    if in_chunks(chunk_views(old(run).chunks@), i) {
                        let (d, k) = choose|d: int, k: int|
                            0 <= d < chunk_views(old(run).chunks@).len() && 0 <= k < chunk_views(
                                old(run).chunks@,
                            )[d].len() && (#[trigger] chunk_views(
                                old(run).chunks@,
                            )[d][k]).candidate_index == i;
                        assert(old(run).chunks@[d]@.len() == 0);
                    }
                    assert(run.missing == old(run).missing);
                    assert(run.pending == old(run).pending);
                    assert(run.scores == old(run).scores);
                }
            }
        }
        Ok(true)
    }
}

/// The caches once the uploads of chunks have ended.
pub open spec fn caches_loaded(
    caches: Seq<CacheView>,
    chunks: Seq<Seq<ResidentView>>,
    uploaded: Seq<bool>,
) -> Seq<CacheView> {
    Seq::new(caches.len(), |d: int| upload_ended(caches[d], chunks[d], uploaded[d]).0)
}

/// On which devices the tensors of chunks are loaded.
pub open spec fn devices_loaded(
    caches: Seq<CacheView>,
    chunks: Seq<Seq<ResidentView>>,
    uploaded: Seq<bool>,
) -> Seq<bool> {
    Seq::new(
        caches.len(),
        |d: int| uploaded[d] && upload_ended(caches[d], chunks[d], uploaded[d]).1 is None,
    )
}

/// Whether a message tells of the first device on which a tensor was not there
/// to be loaded.
pub open spec fn first_fault(
    caches: Seq<CacheView>,
    chunks: Seq<Seq<ResidentView>>,
    uploaded: Seq<bool>,
    message: Seq<char>,
) -> bool {
    exists|d: int|
        0 <= d < chunks.len() && upload_ended(#[trigger] caches[d], chunks[d], uploaded[d]).1 == Some(
            message,
        ) && forall|e: int|
            0 <= e < d ==> upload_ended(#[trigger] caches[e], chunks[e], uploaded[e]).1 is None
}

/// Whether all devices did what they were asked.
pub open spec fn all_true(done: Seq<bool>) -> bool {
    forall|d: int| 0 <= d < done.len() ==> #[trigger] done[d]
}

fn every(done: &Vec<bool>) -> (result: bool)
    ensures
        result == all_true(done@),
{
    let mut d: usize = 0;
    while d < done.len()
        invariant
            d <= done@.len(),
            forall|e: int| 0 <= e < d ==> #[trigger] done@[e],
        decreases done@.len() - d,
    {
        if !done[d] {
            return false;
        }
        d += 1;
    }
    true
}

impl Engine {
    /// Ends the uploads of a run's chunk. Where one failed, the tensors of the chunk
    /// are let go, those that were not loaded leave, and the run ends.
    pub fn end_uploads(
        &mut self,
        run: &ScoreRun,
        request: &Request,
        uploaded: &Vec<bool>,
        bytes: &Vec<u64>,
    ) -> (result: Result<(), RunFault>)
        requires
            old(self).wf(),
            run.wf(request.candidates@.len(), old(self).devices@.len()),
            uploaded@.len() == old(self).devices@.len(),
            bytes@.len() == old(self).devices@.len(),
            forall|d: int|
                0 <= d < old(self).devices@.len() ==> (#[trigger] old(self).devices@[d]).h2d_batches
                    < u64::MAX && old(self).devices@[d].h2d_bytes + bytes@[d] <= u64::MAX,
        ensures
            final(self).wf(),
            final(self).store == old(self).store,
            final(self).quantization_registry == old(self).quantization_registry,
            final(self).next_device == old(self).next_device,
            final(self).devices@.len() == old(self).devices@.len(),
            forall|d: int|
                0 <= d < final(self).devices@.len() ==> upload_noted(
                    old(self).devices@[d],
                    #[trigger] final(self).devices@[d],
                    chunk_views(run.chunks@)[d],
                    uploaded@[d],
                    bytes@[d],
                ),
            ({
                let caches = old(self).state().caches;
                let chunks = chunk_views(run.chunks@);
                let middle = caches_loaded(caches, chunks, uploaded@);
                let loaded = devices_loaded(caches, chunks, uploaded@);
                let (cleaned, fault) = let_go_all(middle, all_tensors(chunks), Some(loaded));
                if all_true(loaded) {
                    &&& result is Ok
                    &&& final(self).state().caches == middle
                } else {
                    &&& final(self).state().caches == cleaned
                    &&& match result {
                        Ok(()) => false,
                        Err(RunFault::Device) => fault is None && !all_true(uploaded@),
                        Err(RunFault::Engine(error)) => error is Cache && match fault {
                            Some(message) => error->Cache_0@ == message,
                            None => all_true(uploaded@) && first_fault(
                                caches,
                                chunks,
                                uploaded@,
                                error->Cache_0@,
                            ),
                        },
                    }
                }
            }),
    {
        let ghost caches = self.state().caches;
        let ghost chunks = chunk_views(run.chunks@);
        let (loaded, fault) = self.finish_uploads(&run.chunks, uploaded, bytes);
        proof {
            assert(self.state().caches =~= caches_loaded(caches, chunks, uploaded@));
            assert forall|d: int| 0 <= d < loaded@.len() implies #[trigger] loaded@[d] == devices_loaded(
                caches,
                chunks,
                uploaded@,
            )[d] by {
                assert(upload_counted(
                    old(self).devices@[d],
                    self.devices@[d],
                    chunks[d],
                    uploaded@[d],
                    bytes@[d],
                    loaded@[d],
                ));
            }
            assert(loaded@ =~= devices_loaded(caches, chunks, uploaded@));
        }
        if every(&loaded) {
            return Ok(());
        }
        match self.cleanup_after_upload_failure(&run.chunks, &loaded) {
            Ok(()) => {},
            Err(message) => {
                return Err(RunFault::Engine(EngineError::Cache(message)));
            },
        }
        if !every(uploaded) {
            return Err(RunFault::Device);
        }
        match fault {
            Some(message) => {
                assert(first_fault(caches, chunks, uploaded@, message@));
                Err(RunFault::Engine(EngineError::Cache(message)))
            },
            None => {
                proof {
                    assert forall|d: int| 0 <= d < loaded@.len() implies #[trigger] loaded@[d] by {
                        assert(upload_ended(caches[d], chunks[d], uploaded@[d]).1 is None);
                    }
                }
                Err(RunFault::Device)
            },
        }
    }
}

/// How the end of an upload is counted on a device.
pub open spec fn upload_noted(
    before: DeviceState,
    after: DeviceState,
    chunk: Seq<ResidentView>,
    uploaded: bool,
    bytes: u64,
) -> bool {
    let counted = uploaded && has_upload(chunk);
    &&& after.h2d_batches == before.h2d_batches + (if counted {
        1int
    } else {
        0
    })
    &&& after.h2d_bytes == before.h2d_bytes + (if counted {
        bytes as int
    } else {
        0
    })
}

/// The scores after the first `count` devices gave theirs.
pub open spec fn all_recorded(
    scores: Seq<Option<u32>>,
    chunks: Seq<Seq<ResidentView>>,
    computed: Seq<Vec<u32>>,
    count: int,
) -> Seq<Option<u32>>
    decreases count,
{
    if count <= 0 {
        scores
    } else {
        recorded(
            all_recorded(scores, chunks, computed, count - 1),
            chunks[count - 1],
            computed[count - 1]@,
            scored(chunks[count - 1].len(), computed[count - 1]@.len()),
        )
    }
}

/// Whether every device gave a score for each of its tensors.
pub open spec fn enough(chunks: Seq<Seq<ResidentView>>, computed: Seq<Vec<u32>>) -> bool {
    forall|d: int| 0 <= d < chunks.len() ==> chunks[d].len() <= (#[trigger] computed[d])@.len()
}

/// The tensors of a chunk have scores once they are noted, and no score is lost.
proof fn lemma_recorded(
    scores: Seq<Option<u32>>,
    chunk: Seq<ResidentView>,
    computed: Seq<u32>,
    count: int,
)
    requires
        0 <= count <= chunk.len(),
        forall|k: int| 0 <= k < chunk.len() ==> (#[trigger] chunk[k]).candidate_index < scores.len(),
    ensures
        recorded(scores, chunk, computed, count).len() == scores.len(),
        forall|i: int|
            0 <= i < scores.len() && scores[i] is Some ==> #[trigger] recorded(
                scores,
                chunk,
                computed,
                count,
            )[i] is Some,
        forall|k: int|
            0 <= k < count ==> recorded(scores, chunk, computed, count)[(
            #[trigger] chunk[k]).candidate_index as int] is Some,
    decreases count,
{
    if count > 0 {
        lemma_recorded(scores, chunk, computed, count - 1);
    }
}

proof fn lemma_all_recorded(
    scores: Seq<Option<u32>>,
    chunks: Seq<Seq<ResidentView>>,
    computed: Seq<Vec<u32>>,
    count: int,
)
    requires
        0 <= count <= chunks.len(),
        chunks.len() == computed.len(),
        enough(chunks, computed),
        forall|d: int, k: int|
            0 <= d < chunks.len() && 0 <= k < chunks[d].len() ==> (
            #[trigger] chunks[d][k]).candidate_index < scores.len(),
    ensures
        all_recorded(scores, chunks, computed, count).len() == scores.len(),
        forall|i: int|
            0 <= i < scores.len() && scores[i] is Some ==> #[trigger] all_recorded(
                scores,
                chunks,
                computed,
                count,
            )[i] is Some,
        forall|d: int, k: int|
            0 <= d < count && 0 <= k < chunks[d].len() ==> all_recorded(
                scores,
                chunks,
                computed,
                count,
            )[(#[trigger] chunks[d][k]).candidate_index as int] is Some,
    decreases count,
{
    if count > 0 {
        lemma_all_recorded(scores, chunks, computed, count - 1);
        let before = all_recorded(scores, chunks, computed, count - 1);
        let chunk = chunks[count - 1];
        assert(chunk.len() <= computed[count - 1]@.len());
        assert forall|k: int| 0 <= k < chunk.len() implies (#[trigger] chunk[k]).candidate_index
            < before.len() by {
            assert(chunks[count - 1][k].candidate_index < scores.len());
        }
        lemma_recorded(before, chunk, computed[count - 1]@, chunk.len() as int);
        assert forall|d: int, k: int| 0 <= d < count && 0 <= k < chunks[d].len() implies all_recorded(
            scores,
            chunks,
            computed,
            count,
        )[(#[trigger] chunks[d][k]).candidate_index as int] is Some by {
            if d < count - 1 {
                assert(before[chunks[d][k].candidate_index as int] is Some);
            } else {
                assert(chunk[k] == chunks[d][k]);
            }
        }
    }
}

impl Engine {
    /// Ends the scoring of the tensors in use. Their scores are noted, unless a
    /// device failed, and the tensors are let go in any case. The failure of a
    /// device is told before one of a cache.
    pub fn end_scoring(
        &mut self,
        run: &mut ScoreRun,
        request: &Request,
        computed: Option<Vec<Vec<u32>>>,
    ) -> (result: Result<(), RunFault>)
        requires
            old(self).wf(),
            old(run).wf(request.candidates@.len(), old(self).devices@.len()),
            computed is Some ==> computed->0@.len() == old(self).devices@.len(),
        ensures
            final(self).wf(),
            final(self).same_but_caches(&*old(self)),
            final(self).next_device == old(self).next_device,
            final(run).wf(request.candidates@.len(), old(self).devices@.len()),
            is_idle(*final(run)),
            final(run).missing == old(run).missing,
            final(run).duplicates == old(run).duplicates,
            final(run).pending@ == old(run).pending@.skip(old(run).taken as int),
            ({
                let chunks = chunk_views(old(run).chunks@);
                let (caches, fault) = let_go_all(
                    old(self).state().caches,
                    all_tensors(chunks),
                    None,
                );
                &&& final(self).state().caches == caches
                &&& final(run).scores@ == match computed {
                    Some(computed) => all_recorded(
                        old(run).scores@,
                        chunks,
                        computed@,
                        chunks.len() as int,
                    ),
                    None => old(run).scores@,
                }
                &&& match result {
                    Ok(()) => computed is Some && fault is None,
                    Err(RunFault::Device) => computed is None,
                    Err(RunFault::Engine(error)) => computed is Some && error is Cache && fault == Some(
                        error->Cache_0@,
                    ),
                }
                &&& result is Ok && enough(chunks, computed->0@) && old(run).covers(
                    request_keys(*request),
                ) ==> final(run).covers(request_keys(*request))
            }),
    {
        let ghost chunks = chunk_views(run.chunks@);
        let devices: usize = self.devices.len();
        let mut failed: bool = true;
        match &computed {
            Some(computed) => {
                failed = false;
                let mut d: usize = 0;
                while d < devices
                    invariant
                        d <= devices,
                        devices == old(self).devices@.len(),
                        computed@.len() == devices,
                        chunks == chunk_views(old(run).chunks@),
                        old(run).wf(request.candidates@.len(), devices as nat),
                        *run == (ScoreRun { scores: run.scores, ..*old(run) }),
                        run.scores@.len() == request.candidates@.len(),
                        run.scores@ == all_recorded(old(run).scores@, chunks, computed@, d as int),
                    decreases devices - d,
                {
                    assert forall|k: int| 0 <= k < run.chunks@[d as int]@.len() implies (
                    #[trigger] run.chunks@[d as int]@[k]).candidate_index < run.scores@.len() by {
                        assert(old(run).chunks@[d as int]@[k].candidate_index
                            < request.candidates@.len());
                    }
                    record_scores(&mut run.scores, &run.chunks[d], computed[d].as_slice());
                    d += 1;
                }
            },
            None => {},
        }
        let released: Result<(), &'static str> = self.release_chunks(&run.chunks);
        run.chunks = empty_chunks(devices);
        run.pending = run.pending.split_off(run.taken);
        run.taken = 0;
        proof {
            assert(run.pending@ =~= old(run).pending@.skip(old(run).taken as int));
            assert(chunk_views(run.chunks@).len() == devices);
            assert forall|d: int| 0 <= d < run.chunks@.len() implies (#[trigger] run.chunks@[d])@.len()
                == 0 by {
                assert(chunk_views(run.chunks@)[d] == chunk_view(run.chunks@[d]@));
            }
            assert forall|k: int| 0 <= k < run.pending@.len() implies (
            #[trigger] run.pending@[k]).candidate_index < request.candidates@.len() by {
                assert(run.pending@[k] == old(run).pending@[k + old(run).taken]);
            }
            let keys = request_keys(*request);
            if computed is Some && enough(chunks, computed->0@) && old(run).covers(keys) {
                assert forall|d: int, k: int|
                    0 <= d < chunks.len() && 0 <= k < chunks[d].len() implies (
                #[trigger] chunks[d][k]).candidate_index < old(run).scores@.len() by {
                    assert(chunks[d][k] == old(run).chunks@[d]@[k]@);
                }
                lemma_all_recorded(
                    old(run).scores@,
                    chunks,
                    computed->0@,
                    chunks.len() as int,
                );
                assert forall|i: int|
                    0 <= i < keys.len() && #[trigger] first_index(
                        keys,
                        keys[i],
                        i,
                    ) is None implies run.accounts_for(i) by {
                    assert(old(run).accounts_for(i));
                    if is_waiting(old(run).pending@, i) && !in_chunks(chunks, i) {
                        let k = choose|k: int|
                            0 <= k < old(run).pending@.len() && (
                            #[trigger] old(run).pending@[k]).candidate_index == i;
                        assert(k >= old(run).taken);
                        assert(run.pending@[k - old(run).taken] == old(run).pending@[k]);
                    }
                }
            }
        }
        if failed {
            return Err(RunFault::Device);
        }
        match released {
            Ok(()) => Ok(()),
            Err(message) => Err(RunFault::Engine(EngineError::Cache(message))),
        }
    }
}

/// Repeating scores loses none, and gives every candidate that repeats a scored
/// one its score.
proof fn lemma_spread_complete(
    scores: Seq<Option<u32>>,
    duplicates: Seq<(int, int)>,
    count: int,
)
    requires
        0 <= count <= duplicates.len(),
        forall|k: int|
            0 <= k < duplicates.len() ==> 0 <= (#[trigger] duplicates[k]).0 < scores.len() && 0
                <= duplicates[k].1 < scores.len() && scores[duplicates[k].1] is Some,
    ensures
        spread(scores, duplicates, count).len() == scores.len(),
        forall|i: int|
            0 <= i < scores.len() && scores[i] is Some ==> #[trigger] spread(
                scores,
                duplicates,
                count,
            )[i] is Some,
        forall|k: int|
            0 <= k < count ==> spread(scores, duplicates, count)[(#[trigger] duplicates[k]).0] is Some,
    decreases count,
{
    if count > 0 {
        lemma_spread_complete(scores, duplicates, count - 1);
        let before = spread(scores, duplicates, count - 1);
        assert(scores[duplicates[count - 1].1] is Some);
        assert(before[duplicates[count - 1].1] is Some);
    }
}

impl ScoreRun {
    /// Whether a run has nothing left to do.
    pub open spec fn is_done(&self) -> bool {
        is_idle(*self) && self.missing@.len() == 0 && self.pending@.len() == 0
    }

    /// The answer of a run: every candidate with its score. A run that accounts for
    /// every candidate, and has nothing left to do, has one.
    pub fn finish(self, request: &Request) -> (result: Result<Vec<(u32, u32)>, EngineError>)
        requires
            self.wf(request.candidates@.len(), self.chunks@.len()),
        ensures
            ({
                let all = spread(
                    self.scores@,
                    pair_views(self.duplicates@),
                    self.duplicates@.len() as int,
                );
                match result {
                    Ok(answer) => answer@.len() == request.candidates@.len() && forall|i: int|
                        0 <= i < answer@.len() ==> answered(
                            request.candidates@[i],
                            all[i],
                            #[trigger] answer@[i],
                        ),
                    Err(error) => error == EngineError::MissingResult && exists|i: int|
                        0 <= i < request.candidates@.len() && #[trigger] all[i] is None,
                }
            }),
            self.is_done() && self.covers(request_keys(*request)) ==> result is Ok,
    {
        proof {
            let keys = request_keys(*request);
            let pairs = pair_views(self.duplicates@);
            if self.is_done() && self.covers(keys) {
                assert forall|i: int|
                    0 <= i < keys.len() && #[trigger] first_index(
                        keys,
                        keys[i],
                        i,
                    ) is None implies self.scores@[i] is Some by {
                    assert(self.accounts_for(i));
                    if in_chunks(chunk_views(self.chunks@), i) {
                        let (d, k) = choose|d: int, k: int|
                            0 <= d < chunk_views(self.chunks@).len() && 0 <= k < chunk_views(
                                self.chunks@,
                            )[d].len() && (#[trigger] chunk_views(
                                self.chunks@,
                            )[d][k]).candidate_index == i;
                        assert(self.chunks@[d]@.len() == 0);
                    }
                }
                assert forall|k: int| 0 <= k < pairs.len() implies 0 <= (#[trigger] pairs[k]).0
                    < self.scores@.len() && 0 <= pairs[k].1 < self.scores@.len()
                    && self.scores@[pairs[k].1] is Some by {
                    assert(self.duplicates@[k].0 < request.candidates@.len());
                }
                lemma_spread_complete(self.scores@, pairs, pairs.len() as int);
                let all = spread(self.scores@, pairs, pairs.len() as int);
                assert forall|i: int| 0 <= i < keys.len() implies #[trigger] all[i] is Some by {
                    if first_index(keys, keys[i], i) is Some {
                        assert(is_repeat(pairs, i));
                    } else {
                        assert(self.scores@[i] is Some);
                    }
                }
            }
        }
        let mut scores: Vec<Option<u32>> = self.scores;
        finish_scores(request.candidates.as_slice(), &mut scores, &self.duplicates)
    }
}

} // verus!
