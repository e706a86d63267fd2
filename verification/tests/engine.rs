//! Where the tensors of a request are placed, and how its scores come together.

use std::sync::Arc;
use tilemaxsim::engine::{refuse_quantized, uploads_of, Engine, MissingTensor, RequestGate, ResidentTensor};
use tilemaxsim::protocol::{Descriptor, Request, ScoringProfile};
use tilemaxsim::quant::{QuantError, QuantizationRegistry};
use tilemaxsim::scores::{finish_scores, record_scores};
use tilemaxsim::scheduler::request_cost;
use tilemaxsim::shard::{open_contract, RawIndex};
use tilemaxsim::shard_store::ShardStore;
use tilemaxsim::table::Table;
use tilemaxsim::tensors::{gpu_cache_key, EngineError};

fn weigh(inflation: u64, frequency: u16, bytes: usize) -> u64 {
    (f64::from_bits(inflation) + f64::from(frequency) / bytes.max(1) as f64).to_bits()
}

fn store() -> ShardStore {
    let index = RawIndex {
        format: "vectorchord.tilemaxsim.shards".to_owned(),
        version: 1,
        alignment: 256,
        shards: Vec::new(),
        entries: Vec::new(),
    };
    let roots = vec![("model@1".to_owned(), "/shards".to_owned())];
    ShardStore::open(roots, vec![open_contract("/shards", &index, &[])], 1000, 100, false).unwrap()
}

fn engine(devices: &[usize]) -> Engine {
    Engine::new(devices, 256, store(), 100, 100, &Table::new(), None).unwrap()
}

fn descriptor(candidate_id: u32, digest: &str) -> Descriptor {
    Descriptor {
        candidate_id,
        contract: "model@1".to_owned(),
        digest: digest.to_owned(),
        rows: 2,
        dimension: 4,
        dtype: 2,
    }
}

fn request(profile: ScoringProfile, candidates: Vec<Descriptor>) -> Request {
    let count = candidates.len();
    Request {
        protocol_version: 3,
        request_id: 42,
        tenant: "tenant".to_owned(),
        model_contract: "model@1".to_owned(),
        priority: 0,
        timeout_ms: 1000,
        query_rows: 1,
        dimension: 4,
        dtype: 2,
        candidate_dtype: 2,
        scoring_profile: profile,
        quantization_contract: None,
        top_k: None,
        query: vec![0; 8],
        candidates: Arc::new(candidates),
        candidate_start: 0,
        candidate_end: count,
        manifest_digest: None,
        catalog_digest: None,
        catalog_selection_digest: None,
        catalog_public_ids: Vec::new(),
        catalog_registration: false,
        scoped_candidate_ordinals: Vec::new(),
    }
}

fn missing(candidate_index: usize, digest: &str, bytes: usize) -> MissingTensor {
    MissingTensor {
        candidate_index,
        key: gpu_cache_key(&descriptor(0, digest), ScoringProfile::ExactFp16, None),
        payload_bytes: bytes,
        rows: 2,
        dimension: 4,
        dtype: 2,
    }
}

#[test]
fn requests_cost_their_pairs_of_rows() {
    let mut wanted = request(
        ScoringProfile::ExactFp16,
        vec![
            Descriptor { rows: 3, ..descriptor(1, "a") },
            Descriptor { rows: 4, ..descriptor(2, "b") },
        ],
    );
    wanted.query_rows = 5;
    assert_eq!(request_cost(&wanted), 35);
    assert_eq!(request_cost(&request(ScoringProfile::ExactFp16, Vec::new())), 0);
    let wide = Descriptor { rows: u32::MAX, ..descriptor(1, "a") };
    let mut heavy = request(ScoringProfile::ExactFp16, vec![wide.clone(), wide]);
    heavy.query_rows = u32::MAX;
    assert_eq!(request_cost(&heavy), u64::MAX);
}

#[test]
fn requests_pass_the_gate_by_profile() {
    let engine = engine(&[1024]);
    let one = vec![descriptor(1, "a")];
    assert!(matches!(
        engine.gate(&request(ScoringProfile::ExactFp16, one.clone())),
        Ok(RequestGate::Score)
    ));
    assert!(matches!(
        engine.gate(&request(ScoringProfile::ExactFp16, Vec::new())),
        Ok(RequestGate::Empty)
    ));
    assert!(matches!(
        engine.gate(&request(ScoringProfile::Pq, one.clone())),
        Err(EngineError::NoContract)
    ));
    let mut quantized = request(ScoringProfile::Pq, one.clone());
    quantized.quantization_contract = Some("qtc1-x".to_owned());
    assert!(matches!(engine.gate(&quantized), Err(EngineError::NoRegistry)));
    let mut empty = request(ScoringProfile::Pq, Vec::new());
    empty.quantization_contract = Some("qtc1-x".to_owned());
    assert!(matches!(engine.gate(&empty), Err(EngineError::NoCandidates)));
    let registry = QuantizationRegistry::open("/registry".to_owned(), false).unwrap();
    let engine =
        Engine::new(&[1024], 256, store(), 100, 100, &Table::new(), Some(registry)).unwrap();
    assert!(matches!(engine.gate(&quantized), Ok(RequestGate::Resolve)));
    assert!(matches!(
        refuse_quantized(ScoringProfile::Pq, Ok(())),
        EngineError::ProfileDisabled(ScoringProfile::Pq)
    ));
    assert!(matches!(
        refuse_quantized(ScoringProfile::Pq, Err(QuantError::NotActive)),
        EngineError::Quantizer(QuantError::NotActive)
    ));
    assert!(matches!(
        Engine::new(&[], 256, store(), 100, 100, &Table::new(), None),
        Err(EngineError::NoDevice)
    ));
}

#[test]
fn missing_tensors_are_placed_uploaded_and_found_again() {
    let mut engine = engine(&[1024, 1024]);
    let candidates = vec![descriptor(1, "a"), descriptor(2, "b"), descriptor(3, "a")];
    let wanted = request(ScoringProfile::ExactFp16, candidates);
    let plan = engine.plan_hits(&wanted, &weigh).unwrap();
    assert!(plan.hits.iter().all(Vec::is_empty));
    assert_eq!(plan.missing, [0, 1]);
    assert_eq!(plan.duplicates, [(2, 0)]);

    let pending = [missing(0, "a", 16), missing(1, "b", 16)];
    let chunk = engine.plan_chunk("tenant", &pending, &weigh).unwrap();
    assert_eq!(chunk.consumed, 2);
    let placed: Vec<&ResidentTensor> = chunk.chunks.iter().flatten().collect();
    assert_eq!(placed.len(), 2);
    assert!(placed.iter().all(|tensor| tensor.newly_admitted));
    assert_ne!(placed[0].device, placed[1].device);
    assert_eq!(uploads_of(&chunk.chunks[0]).len(), 1);
    let (succeeded, fault) =
        engine.finish_uploads(&chunk.chunks, &vec![true, true], &vec![16, 16]);
    assert_eq!(succeeded, [true, true]);
    assert_eq!(fault, None);
    engine.release_chunks(&chunk.chunks).unwrap();

    let again = engine.plan_hits(&wanted, &weigh).unwrap();
    assert_eq!(again.hits.iter().flatten().count(), 2);
    assert!(again.missing.is_empty());
    engine.release_chunks(&again.hits).unwrap();

    let status = engine.status_snapshot(&[0, 1]);
    assert_eq!(status.devices.len(), 2);
    assert_eq!(status.devices[0].h2d_bytes, 16);
    assert_eq!(status.devices[1].h2d_batches, 1);
}

#[test]
fn failed_uploads_leave_nothing_behind() {
    let mut engine = engine(&[1024]);
    let pending = [missing(0, "a", 16), missing(1, "b", 300)];
    let chunk = engine.plan_chunk("tenant", &pending, &weigh).unwrap();
    let (succeeded, _) = engine.finish_uploads(&chunk.chunks, &vec![false], &vec![0]);
    assert_eq!(succeeded, [false]);
    engine.cleanup_after_upload_failure(&chunk.chunks, &succeeded).unwrap();
    assert_eq!(engine.devices[0].cache.allocated_bytes(), 0);
    assert_eq!(engine.devices[0].cache.entry_count(), 0);
}

#[test]
fn tensors_that_fit_nowhere_are_refused() {
    let mut engine = engine(&[1024]);
    let error = engine.plan_chunk("tenant", &[missing(0, "a", 2000)], &weigh).err().unwrap();
    assert_eq!(
        error.message(),
        "one tensor cannot be scheduled in any configured Rust GPU block cache"
    );
    let mut engine = self::engine(&[1024]);
    let pending = [missing(0, "a", 700), missing(1, "b", 700)];
    let chunk = engine.plan_chunk("tenant", &pending, &weigh).unwrap();
    assert_eq!(chunk.consumed, 1);
}

#[test]
fn resident_tensors_are_pinned() {
    let mut engine = engine(&[1024]);
    let placed = engine.prewarm(&[missing(0, "a", 16), missing(1, "b", 16)], &weigh).unwrap();
    assert_eq!(placed.len(), 2);
    engine.conclude_prewarm(&placed, &vec![true]).unwrap();
    assert_eq!(engine.devices[0].cache.pinned_entries(), 2);
    assert_eq!(engine.devices[0].cache.pinned_bytes(), 512);
    assert!(matches!(
        engine.prewarm(&[missing(0, "c", 900)], &weigh),
        Err(EngineError::ResidentOverflow)
    ));
    engine.count_upload(0, 32);
    assert_eq!(engine.status_snapshot(&[7]).devices[0].h2d_bytes, 32);
}

#[test]
fn scores_go_to_their_candidates_and_their_duplicates() {
    let mut engine = engine(&[1024]);
    let chunk = engine
        .plan_chunk("tenant", &[missing(0, "a", 16), missing(1, "b", 16)], &weigh)
        .unwrap();
    let candidates = [descriptor(10, "a"), descriptor(20, "b"), descriptor(30, "a")];
    let mut scores = vec![None, None, None];
    record_scores(&mut scores, &chunk.chunks[0], &[5, 6]);
    let results = finish_scores(&candidates, &mut scores, &vec![(2, 0)]).unwrap();
    assert_eq!(results, [(10, 5), (20, 6), (30, 5)]);
    let mut scores = vec![Some(1), None, None];
    assert!(matches!(
        finish_scores(&candidates, &mut scores, &vec![(2, 0)]),
        Err(EngineError::MissingResult)
    ));
}

#[test]
fn faults_leave_what_was_concluded_before() {
    let mut engine = engine(&[1024]);
    let placed = engine.prewarm(&[missing(0, "a", 16)], &weigh).ok().unwrap();
    assert!(placed[0].newly_admitted);
    assert_eq!(engine.conclude_prewarm(&placed, &vec![true]), Ok(()));
    let key = gpu_cache_key(&descriptor(0, "a"), ScoringProfile::ExactFp16, None);
    assert!(engine.devices[0].cache.contains(&key));
    assert_eq!(
        engine.conclude_prewarm(&placed, &vec![true]),
        Err("GPU cache entry was released twice")
    );
    assert!(engine.devices[0].cache.contains(&key));
    assert_eq!(engine.conclude_prewarm(&placed, &vec![false]), Ok(()));
    assert_eq!(
        engine.conclude_prewarm(&placed, &vec![true]),
        Err("GPU cache entry disappeared before upload completed")
    );
    assert_eq!(engine.devices[0].cache.entry_count(), 0);
}
