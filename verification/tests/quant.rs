//! Quantizers, codes and the registry of contracts.

use sha2::{Digest, Sha256};
use tilemaxsim::protocol::ScoringProfile;
use tilemaxsim::digest::HexFault;
use tilemaxsim::quant::{
    check_artifact_root, check_quantizer_path, check_record_path, parse_codes, parse_quantizer,
    ContractBody, ContractRecord, Links, QuantError, QuantizationRegistry, RegistryState,
    HEADER_BYTES,
};
use tilemaxsim::table::Table;

const QUANTIZER_MAGIC: &[u8; 4] = b"VCTQ";
const CODES_MAGIC: &[u8; 4] = b"VCTC";
const DIRECT: Links = Links { record: false, artifact_root: false, quantizer: false };

fn frame(magic: &[u8; 4], payload: &[u8], checksum_offset: usize) -> Vec<u8> {
    let mut result = vec![0_u8; HEADER_BYTES];
    result[..4].copy_from_slice(magic);
    result[4..6].copy_from_slice(&1_u16.to_le_bytes());
    result[16..24].copy_from_slice(&(payload.len() as u64).to_le_bytes());
    result.extend_from_slice(payload);
    let mut hasher = Sha256::new();
    hasher.update(&result[..checksum_offset]);
    hasher.update(payload);
    result[checksum_offset..checksum_offset + 32].copy_from_slice(&hasher.finalize());
    result
}

fn reseal(value: &mut [u8], checksum_offset: usize) {
    let mut hasher = Sha256::new();
    hasher.update(&value[..checksum_offset]);
    hasher.update(&value[HEADER_BYTES..]);
    value[checksum_offset..checksum_offset + 32].copy_from_slice(&hasher.finalize());
}

fn codebook() -> Vec<u8> {
    [0.0_f32, 0.0, 1.0, 1.0]
        .into_iter()
        .flat_map(f32::to_le_bytes)
        .collect()
}

/// A quantizer of two dimensions: one stage, one subspace, two centroids.
fn quantizer(payload: &[u8], digest: &str) -> Vec<u8> {
    let mut value = frame(QUANTIZER_MAGIC, payload, 60);
    value[8..12].copy_from_slice(&2_u32.to_le_bytes());
    value[12..14].copy_from_slice(&1_u16.to_le_bytes());
    value[14..16].copy_from_slice(&1_u16.to_le_bytes());
    value[24..26].copy_from_slice(&2_u16.to_le_bytes());
    value[28..60].copy_from_slice(&hex::decode(digest).unwrap());
    reseal(&mut value, 60);
    value
}

fn codes(digest: &str, source: &str) -> Vec<u8> {
    let mut value = frame(CODES_MAGIC, &[0, 1], 92);
    value[8..12].copy_from_slice(&2_u32.to_le_bytes());
    value[12..16].copy_from_slice(&2_u32.to_le_bytes());
    value[24..26].copy_from_slice(&1_u16.to_le_bytes());
    value[26..28].copy_from_slice(&1_u16.to_le_bytes());
    value[28..60].copy_from_slice(&hex::decode(digest).unwrap());
    value[60..92].copy_from_slice(&hex::decode(source).unwrap());
    reseal(&mut value, 92);
    value
}

fn record(contract_id: &str, payload: &[u8]) -> ContractRecord {
    ContractRecord {
        version: 1,
        contract_id: contract_id.to_owned(),
        contract: ContractBody {
            model_contract: "model@1".to_owned(),
            encoding: "pq".to_owned(),
            dimension: 2,
            subspaces: 1,
            centroids: 2,
            residual_stages: 1,
            opq_iterations: 0,
            quantizer_checksum: hex::encode(Sha256::digest(payload)),
        },
        artifact_root: "/registry/artifact".to_owned(),
    }
}

fn state(generation: u64, active: Option<&str>) -> RegistryState {
    let mut scopes = Table::new();
    scopes.insert("model@1\u{1f}pq".to_owned(), active.map(str::to_owned));
    RegistryState { version: 2, generation, scopes }
}

#[test]
fn parses_and_authenticates_pq_codes() {
    let mut value = frame(CODES_MAGIC, &[1, 2, 3, 4], 92);
    value[8..12].copy_from_slice(&2_u32.to_le_bytes());
    value[12..16].copy_from_slice(&8_u32.to_le_bytes());
    value[24..26].copy_from_slice(&1_u16.to_le_bytes());
    value[26..28].copy_from_slice(&2_u16.to_le_bytes());
    reseal(&mut value, 92);
    assert_eq!(parse_codes(&value).unwrap().codes, [1, 2, 3, 4]);
    *value.last_mut().unwrap() ^= 1;
    assert!(parse_codes(&value).is_err());
}

#[test]
fn parses_quantizer_shape_and_rejects_non_finite_codebooks() {
    // dimension=2, one stage/subspace, two 2-D centroids.
    let payload = codebook();
    let mut value = frame(QUANTIZER_MAGIC, &payload, 60);
    value[8..12].copy_from_slice(&2_u32.to_le_bytes());
    value[12..14].copy_from_slice(&1_u16.to_le_bytes());
    value[14..16].copy_from_slice(&1_u16.to_le_bytes());
    value[24..26].copy_from_slice(&2_u16.to_le_bytes());
    reseal(&mut value, 60);
    let parsed = parse_quantizer(&value).unwrap();
    assert_eq!(
        (parsed.stages, parsed.subspaces, parsed.centroids),
        (1, 1, 2)
    );
    let mut payload = codebook();
    payload[..4].copy_from_slice(&f32::INFINITY.to_le_bytes());
    let broken = quantizer(&payload, &"a".repeat(64));
    assert_eq!(parse_quantizer(&broken).err(), Some(QuantError::QuantizerPayload));
}

#[test]
fn registry_activation_and_rollback_are_observed_atomically() {
    let digest = "a".repeat(64);
    let contract_id = format!("qtc1-{digest}");
    let payload = codebook();
    let artifact = quantizer(&payload, &digest);
    let record = record(&contract_id, &payload);
    let registry = QuantizationRegistry::open("/registry".to_owned(), false).unwrap();
    let active = registry
        .resolve_active(
            &state(1, Some(&contract_id)),
            DIRECT,
            &record,
            &artifact,
            &contract_id,
            "model@1",
            ScoringProfile::Pq,
        )
        .unwrap();
    assert_eq!(active.generation, 1);
    assert_eq!(active.active_contract_ids, [contract_id.clone()]);
    let source = "b".repeat(64);
    assert_eq!(
        registry.load_codes(&active, &source, false, &codes(&digest, &source)).unwrap().codes,
        [0, 1]
    );
    assert_eq!(
        registry
            .resolve_active(
                &state(2, None),
                DIRECT,
                &record,
                &artifact,
                &contract_id,
                "model@1",
                ScoringProfile::Pq,
            )
            .err(),
        Some(QuantError::NotActive)
    );
}

#[test]
fn registry_files_have_their_places() {
    assert_eq!(
        QuantizationRegistry::open("registry".to_owned(), false).err(),
        Some(QuantError::RegistryRoot)
    );
    assert!(QuantizationRegistry::open("/registry".to_owned(), true).is_err());
    let digest = "a".repeat(64);
    let contract_id = format!("qtc1-{digest}");
    let payload = codebook();
    let registry = QuantizationRegistry::open("/registry".to_owned(), false).unwrap();
    assert_eq!(registry.state_path(), "/registry/state.json");
    assert_eq!(registry.record_path("qtc1-x"), "/registry/contracts/qtc1-x.json");
    let active = registry
        .resolve_active(
            &state(1, Some(&contract_id)),
            DIRECT,
            &record(&contract_id, &payload),
            &quantizer(&payload, &digest),
            &contract_id,
            "model@1",
            ScoringProfile::Pq,
        )
        .unwrap();
    let source = format!("c{}", "b".repeat(63));
    assert_eq!(
        registry.codes_path(&active, &source).unwrap(),
        format!("/registry/artifact/codes/cb/{source}.vctc")
    );
    assert_eq!(registry.codes_path(&active, "xyz").err(), Some(QuantError::SourceDigest));
}

#[test]
fn artifacts_are_checked() {
    let digest = "a".repeat(64);
    let good = quantizer(&codebook(), &digest);
    assert_eq!(parse_quantizer(&good[..50]).err(), Some(QuantError::Header));
    let mut value = good.clone();
    value[0] = b'X';
    assert_eq!(parse_quantizer(&value).err(), Some(QuantError::Header));
    let mut value = good.clone();
    value[100] = 1;
    assert_eq!(parse_quantizer(&value).err(), Some(QuantError::ReservedBytes));
    let mut value = good.clone();
    value.push(0);
    assert_eq!(parse_quantizer(&value).err(), Some(QuantError::LengthMismatch));
    let mut value = good.clone();
    *value.last_mut().unwrap() ^= 1;
    assert_eq!(parse_quantizer(&value).err(), Some(QuantError::Checksum));
    let mut value = good.clone();
    value[24..26].copy_from_slice(&0_u16.to_le_bytes());
    reseal(&mut value, 60);
    assert_eq!(parse_quantizer(&value).err(), Some(QuantError::QuantizerShape));
    let mut value = good;
    value[24..26].copy_from_slice(&4_u16.to_le_bytes());
    reseal(&mut value, 60);
    assert_eq!(parse_quantizer(&value).err(), Some(QuantError::QuantizerPayload));
    let mut value = codes(&digest, &digest);
    value[24..26].copy_from_slice(&2_u16.to_le_bytes());
    reseal(&mut value, 92);
    assert_eq!(parse_codes(&value).err(), Some(QuantError::CodesShape));
}

#[test]
fn quantizers_are_held_to_their_contracts() {
    let digest = "a".repeat(64);
    let contract_id = format!("qtc1-{digest}");
    let payload = codebook();
    let artifact = quantizer(&payload, &digest);
    let registry = QuantizationRegistry::open("/registry".to_owned(), false).unwrap();
    let resolve = |state: &RegistryState, record: &ContractRecord, artifact: &[u8], profile| {
        registry
            .resolve_active(state, DIRECT, record, artifact, &contract_id, "model@1", profile)
            .err()
    };
    let good_state = state(1, Some(&contract_id));
    let good = record(&contract_id, &payload);
    assert_eq!(
        resolve(&good_state, &good, &artifact, ScoringProfile::Int8),
        Some(QuantError::ProfileNotQuantized)
    );
    let mut old = state(1, Some(&contract_id));
    old.version = 1;
    assert_eq!(resolve(&old, &good, &artifact, ScoringProfile::Pq), Some(QuantError::StateSchema));
    assert_eq!(registry.active_contract_ids(&old).err(), Some(QuantError::RegistrySchema));
    let mut other = record(&contract_id, &payload);
    other.contract.encoding = "none".to_owned();
    assert_eq!(
        resolve(&good_state, &other, &artifact, ScoringProfile::Pq),
        Some(QuantError::RecordMismatch)
    );
    assert_eq!(
        resolve(&good_state, &good, &artifact, ScoringProfile::OpqRpq),
        Some(QuantError::ProfileMismatch)
    );
    let stranger = quantizer(&payload, &"c".repeat(64));
    assert_eq!(
        resolve(&good_state, &good, &stranger, ScoringProfile::Pq),
        Some(QuantError::QuantizerIdentity)
    );
    let mut other = record(&contract_id, &payload);
    other.contract.quantizer_checksum = "d".repeat(64);
    assert_eq!(
        resolve(&good_state, &other, &artifact, ScoringProfile::Pq),
        Some(QuantError::QuantizerChecksum)
    );
    let active = registry
        .resolve_active(
            &good_state,
            DIRECT,
            &good,
            &artifact,
            &contract_id,
            "model@1",
            ScoringProfile::Pq,
        )
        .unwrap();
    let source = "b".repeat(64);
    assert_eq!(
        registry.load_codes(&active, "short", false, &codes(&digest, &source)).err(),
        Some(QuantError::SourceDigest)
    );
    assert_eq!(
        registry.load_codes(&active, &source, false, &codes(&digest, &"e".repeat(64))).err(),
        Some(QuantError::CodesMismatch)
    );
    assert_eq!(
        registry.load_codes(&active, &source, true, &codes(&digest, &source)).err(),
        Some(QuantError::CodesLink)
    );
    assert_eq!(QuantError::Checksum.message(), "quantization artifact checksum mismatch");
}

#[test]
fn contracts_that_are_not_hexadecimal_are_told_where() {
    let payload = codebook();
    let artifact = quantizer(&payload, &"a".repeat(64));
    let registry = QuantizationRegistry::open("/registry".to_owned(), false).unwrap();
    let resolve = |contract_id: &str| {
        registry
            .resolve_active(
                &state(1, Some(contract_id)),
                DIRECT,
                &record(contract_id, &payload),
                &artifact,
                contract_id,
                "model@1",
                ScoringProfile::Pq,
            )
            .err()
            .unwrap()
    };
    assert_eq!(resolve("other"), QuantError::ContractId);
    assert_eq!(resolve("qtc1-aBz"), QuantError::ContractHex(HexFault::OddLength));
    assert_eq!(
        resolve("qtc1-aBcz!0"),
        QuantError::ContractHex(HexFault::Character { c: 'z', index: 3 })
    );
    for digits in ["abc", "0g", "aB0\n", "\u{e9}", "'0"] {
        assert_eq!(
            resolve(&format!("qtc1-{digits}")).message(),
            hex::decode(digits).unwrap_err().to_string()
        );
    }
    assert_eq!(resolve("qtc1-0\n").message(), "Invalid character '\\n' at position 1");
    assert_eq!(resolve("qtc1-AA"), QuantError::QuantizerIdentity);
    assert_eq!(HexFault::Length.message(), "Invalid string length");
}

#[test]
fn symbolic_links_are_refused() {
    let digest = "a".repeat(64);
    let contract_id = format!("qtc1-{digest}");
    let payload = codebook();
    let artifact = quantizer(&payload, &digest);
    let registry = QuantizationRegistry::open("/registry".to_owned(), false).unwrap();
    let good_state = state(1, Some(&contract_id));
    let resolve = |links: Links, record: &ContractRecord| {
        registry
            .resolve_active(
                &good_state,
                links,
                record,
                &artifact,
                &contract_id,
                "model@1",
                ScoringProfile::Pq,
            )
            .err()
    };
    let good = record(&contract_id, &payload);
    assert_eq!(registry.quantizer_path(&good), "/registry/artifact/quantizer.vctq");
    assert_eq!(resolve(DIRECT, &good), None);
    assert_eq!(resolve(Links { record: true, ..DIRECT }, &good), Some(QuantError::RecordLink));
    assert_eq!(
        resolve(Links { artifact_root: true, ..DIRECT }, &good),
        Some(QuantError::ArtifactRoot)
    );
    assert_eq!(
        resolve(Links { quantizer: true, ..DIRECT }, &good),
        Some(QuantError::QuantizerLink)
    );
    let mut relative = record(&contract_id, &payload);
    relative.artifact_root = "registry/artifact".to_owned();
    assert_eq!(resolve(DIRECT, &relative), Some(QuantError::ArtifactRoot));
    assert_eq!(check_record_path(true), Err(QuantError::RecordLink));
    assert_eq!(check_artifact_root(&good, false), Ok(()));
    assert_eq!(check_quantizer_path(false), Ok(()));
}
