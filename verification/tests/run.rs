//! Requests from their first look at the devices to their answer.

use std::sync::Arc;
use tilemaxsim::engine::{uploads_of, Engine};
use tilemaxsim::protocol::{Descriptor, Request, ScoringProfile};
use tilemaxsim::run::{Beginning, RunFault, ScoreRun};
use tilemaxsim::shard::{open_contract, RawIndex, StoreError};
use tilemaxsim::shard_store::ShardStore;
use tilemaxsim::table::Table;
use tilemaxsim::tensors::{gpu_cache_key, EngineError};

fn weigh(inflation: u64, frequency: u16, bytes: usize) -> u64 {
    (f64::from_bits(inflation) + f64::from(frequency) / bytes.max(1) as f64).to_bits()
}

fn divide(left: u32, right: u32) -> u32 {
    (f32::from_bits(left) / f32::from_bits(right)).to_bits()
}

fn engine(devices: &[usize]) -> Engine {
    let index = RawIndex {
        format: "vectorchord.tilemaxsim.shards".to_owned(),
        version: 1,
        alignment: 256,
        shards: Vec::new(),
        entries: Vec::new(),
    };
    let roots = vec![("model@1".to_owned(), "/shards".to_owned())];
    let store =
        ShardStore::open(roots, vec![open_contract("/shards", &index, &[])], 1000, 100, false).unwrap();
    Engine::new(devices, 256, store, 100, 100, &Table::new(), None).unwrap()
}

fn request(profile: ScoringProfile, digests: &[&str]) -> Request {
    let candidates: Vec<Descriptor> = digests
        .iter()
        .enumerate()
        .map(|(index, digest)| Descriptor {
            candidate_id: 10 * (index as u32 + 1),
            contract: "model@1".to_owned(),
            digest: (*digest).to_owned(),
            rows: 2,
            dimension: 4,
            dtype: 2,
        })
        .collect();
    let count = candidates.len();
    Request {
        protocol_version: 3,
        request_id: 42,
        tenant: "tenant".to_owned(),
        model_contract: "model@1".to_owned(),
        priority: 0,
        timeout_ms: 1000,
        query_rows: 1,
        dimension: 4,
        dtype: 2,
        candidate_dtype: 2,
        scoring_profile: profile,
        quantization_contract: None,
        top_k: None,
        query: vec![0; 8],
        candidates: Arc::new(candidates),
        candidate_start: 0,
        candidate_end: count,
        manifest_digest: None,
        catalog_digest: None,
        catalog_selection_digest: None,
        catalog_public_ids: Vec::new(),
        catalog_registration: false,
        scoped_candidate_ordinals: Vec::new(),
    }
}

fn begin(engine: &mut Engine, wanted: &Request) -> ScoreRun {
    match engine.begin(wanted, &weigh) {
        Ok(Beginning::Score(run)) => run,
        _ => panic!("the request is not scored"),
    }
}

/// The score of a tensor is one hundred more than its candidate's place.
fn computed(run: &ScoreRun) -> Option<Vec<Vec<u32>>> {
    Some(
        run.chunks
            .iter()
            .map(|chunk| chunk.iter().map(|tensor| 100 + tensor.candidate_index as u32).collect())
            .collect(),
    )
}

fn payloads(run: &ScoreRun) -> Vec<Arc<Vec<u8>>> {
    run.missing.iter().map(|_| Arc::new(vec![0; 16])).collect()
}

#[test]
fn a_run_answers_every_candidate() {
    let mut engine = engine(&[512, 512]);
    let wanted = request(ScoringProfile::ExactFp16, &["a", "b", "a", "c", "d", "e", "f", "b"]);
    let mut run = begin(&mut engine, &wanted);
    assert_eq!(run.missing, [0, 1, 3, 4, 5, 6]);
    assert_eq!(run.duplicates, [(2, 0), (7, 1)]);
    let scores = computed(&run);
    assert!(engine.end_scoring(&mut run, &wanted, scores).is_ok());
    let bytes = payloads(&run);
    assert_eq!(run.resolved(&wanted, &bytes, &divide).ok().unwrap().len(), 6);
    let mut rounds = 0;
    let mut uploads = 0;
    while engine.next_chunk(&mut run, &wanted, &weigh).ok().unwrap() {
        rounds += 1;
        uploads += run.chunks.iter().map(|chunk| uploads_of(chunk).len()).sum::<usize>();
        assert!(engine.end_uploads(&run, &wanted, &vec![true, true], &vec![16, 16]).is_ok());
        let scores = computed(&run);
        assert!(engine.end_scoring(&mut run, &wanted, scores).is_ok());
    }
    assert!(rounds >= 2);
    assert_eq!(uploads, 6);
    assert_eq!(
        run.finish(&wanted).ok().unwrap(),
        [
            (10, 100),
            (20, 101),
            (30, 100),
            (40, 103),
            (50, 104),
            (60, 105),
            (70, 106),
            (80, 101)
        ]
    );
}

#[test]
fn resident_tensors_are_scored_without_an_upload() {
    let mut engine = engine(&[1024]);
    let wanted = request(ScoringProfile::Int8, &["a"]);
    let mut run = begin(&mut engine, &wanted);
    assert!(engine.end_scoring(&mut run, &wanted, Some(vec![Vec::new()])).is_ok());
    let encoded = run.resolved(&wanted, &vec![Arc::new(vec![0; 16])], &divide).ok().unwrap();
    assert_eq!(encoded[0].len(), 16);
    assert_eq!(run.pending[0].payload_bytes, 16);
    assert!(engine.next_chunk(&mut run, &wanted, &weigh).ok().unwrap());
    assert!(engine.end_uploads(&run, &wanted, &vec![true], &vec![16]).is_ok());
    assert!(engine.end_scoring(&mut run, &wanted, Some(vec![vec![7]])).is_ok());
    assert_eq!(run.finish(&wanted).ok().unwrap(), [(10, 7)]);

    let mut again = begin(&mut engine, &wanted);
    assert!(again.missing.is_empty());
    assert_eq!(again.chunks[0].len(), 1);
    assert!(engine.end_scoring(&mut again, &wanted, Some(vec![vec![8]])).is_ok());
    assert!(!engine.next_chunk(&mut again, &wanted, &weigh).ok().unwrap());
    assert_eq!(again.finish(&wanted).ok().unwrap(), [(10, 8)]);
    assert_eq!(engine.devices[0].h2d_batches, 1);
}

#[test]
fn failures_of_devices_let_the_tensors_go() {
    let mut engine = engine(&[1024]);
    let wanted = request(ScoringProfile::ExactFp16, &["a"]);
    let mut run = begin(&mut engine, &wanted);
    assert!(engine.end_scoring(&mut run, &wanted, Some(vec![Vec::new()])).is_ok());
    run.resolved(&wanted, &vec![Arc::new(vec![0; 16])], &divide).ok().unwrap();
    assert!(engine.next_chunk(&mut run, &wanted, &weigh).ok().unwrap());
    assert!(matches!(
        engine.end_uploads(&run, &wanted, &vec![false], &vec![16]),
        Err(RunFault::Device)
    ));
    assert_eq!(engine.devices[0].cache.entry_count(), 0);
    assert_eq!(engine.devices[0].h2d_bytes, 0);

    let mut run = begin(&mut engine, &wanted);
    assert!(engine.end_scoring(&mut run, &wanted, Some(vec![Vec::new()])).is_ok());
    run.resolved(&wanted, &vec![Arc::new(vec![0; 16])], &divide).ok().unwrap();
    assert!(engine.next_chunk(&mut run, &wanted, &weigh).ok().unwrap());
    assert!(engine.end_uploads(&run, &wanted, &vec![true], &vec![16]).is_ok());
    assert!(matches!(
        engine.end_scoring(&mut run, &wanted, None),
        Err(RunFault::Device)
    ));
    assert_eq!(run.scores, [None]);
    assert!(matches!(run.finish(&wanted), Err(EngineError::MissingResult)));
    assert_eq!(engine.devices[0].cache.entry_count(), 1);
}

#[test]
fn runs_end_early_where_nothing_can_be_scored() {
    let mut engine = engine(&[1024]);
    assert!(matches!(
        engine.begin(&request(ScoringProfile::ExactFp16, &[]), &weigh),
        Ok(Beginning::Empty)
    ));
    assert!(matches!(
        engine.begin(&request(ScoringProfile::RawFp8E4m3, &["a"]), &weigh),
        Err(EngineError::ProfileDisabled(ScoringProfile::RawFp8E4m3))
    ));
    let wanted = request(ScoringProfile::Fp8E4m3, &["a"]);
    let mut run = begin(&mut engine, &wanted);
    assert!(engine.end_scoring(&mut run, &wanted, Some(vec![Vec::new()])).is_ok());
    assert!(matches!(
        run.resolved(&wanted, &vec![Arc::new(vec![0; 3])], &divide),
        Err(EngineError::PayloadLength)
    ));
    let wanted = request(ScoringProfile::ExactFp16, &["a"]);
    let mut run = begin(&mut engine, &wanted);
    assert!(engine.end_scoring(&mut run, &wanted, Some(vec![Vec::new()])).is_ok());
    run.resolved(&wanted, &vec![Arc::new(vec![0; 4096])], &divide).ok().unwrap();
    assert!(matches!(
        engine.next_chunk(&mut run, &wanted, &weigh),
        Err(EngineError::NotScheduled)
    ));
}

#[test]
fn other_candidates_can_be_ranked_in_place_of_a_requests_own() {
    let mut wanted = request(ScoringProfile::ExactFp16, &["a", "b"]);
    let others = request(ScoringProfile::ExactFp16, &["c", "d", "e"]);
    wanted.replace_candidates(others.candidates.clone());
    assert_eq!(wanted.candidate_start, 0);
    assert_eq!(wanted.candidate_end, 3);
    assert_eq!(wanted.candidates[2].digest, "e");
}

#[test]
fn shards_are_reloaded_whole_or_not_at_all() {
    let mut engine = engine(&[1024]);
    let index = RawIndex {
        format: "vectorchord.tilemaxsim.shards".to_owned(),
        version: 1,
        alignment: 512,
        shards: Vec::new(),
        entries: Vec::new(),
    };
    assert!(engine.reload_shards(vec![open_contract("/shards", &index, &[])]).is_ok());
    let unreadable = StoreError::Unreadable("/shards/tilemaxsim-shards-v1.json".to_owned());
    assert_eq!(engine.reload_shards(vec![Err(unreadable.clone())]), Err(unreadable));
}

#[test]
fn candidates_are_counted_once_under_their_own_keys() {
    let frequency = |_: u64, frequency: u16, _: usize| u64::from(frequency);
    let mut engine = engine(&[1024]);
    let wanted = request(ScoringProfile::ExactFp16, &["a", "a", "b"]);
    let mut run = begin(&mut engine, &wanted);
    assert!(engine.end_scoring(&mut run, &wanted, Some(vec![Vec::new()])).is_ok());
    let bytes = payloads(&run);
    assert!(run.resolved(&wanted, &bytes, &divide).is_ok());
    assert!(engine.next_chunk(&mut run, &wanted, &weigh).ok().unwrap());
    assert!(engine.end_uploads(&run, &wanted, &vec![true], &vec![32]).is_ok());
    let scores = computed(&run);
    assert!(engine.end_scoring(&mut run, &wanted, scores).is_ok());
    let key = |digest: &str| {
        let wanted = request(ScoringProfile::ExactFp16, &[digest]);
        gpu_cache_key(&wanted.candidates[0], ScoringProfile::ExactFp16, None)
    };
    let cache = &mut engine.devices[0].cache;
    assert_eq!(cache.get(&key("a"), &frequency).unwrap().rank, 2);
    assert_eq!(cache.get(&key("b"), &frequency).unwrap().rank, 2);
    assert_eq!(cache.get(&key("a"), &frequency).unwrap().rank, 3);
    assert_eq!(cache.counters(), (3, 2, 0, 0));
    assert_eq!(cache.most_references(), 2);
}

#[test]
fn counters_have_room() {
    let mut engine = engine(&[1024]);
    assert!(engine.has_room(1000));
    assert!(!engine.has_room(usize::MAX));
    assert!(engine.store.has_room(1000));
    engine.devices[0].cache.hits = u64::MAX - 3;
    assert!(engine.has_room(2));
    assert!(!engine.has_room(3));
}
