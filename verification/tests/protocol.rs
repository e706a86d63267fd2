//! Frames of every version, parsed and answered.

use tilemaxsim::protocol::{
    failure, parse, success, ScoringProfile, HEADER_BYTES, REQUEST_KIND,
    VERSION_CATALOG_LOGICAL_EXTERNAL, VERSION_CATALOG_SELECTION_REFERENCE,
    VERSION_COMPACT_LOGICAL_EXTERNAL, VERSION_LOGICAL_EXTERNAL, VERSION_MANIFEST_LOGICAL_EXTERNAL,
    VERSION_PERSISTENT_CATALOG_SELECTION_REFERENCE,
    VERSION_PERSISTENT_SCOPED_CATALOG_SELECTION_REFERENCE, VERSION_PROFILED_EXTERNAL,
    VERSION_QUANTIZED_EXTERNAL, VERSION_SCHEDULED_EXTERNAL,
    VERSION_SCOPED_CATALOG_SELECTION_REFERENCE, VERSION_TYPED_COMPACT_LOGICAL_EXTERNAL,
};
use tilemaxsim::reader::{ProtocolError, TextField};
use tilemaxsim::text::Utf8Fault;

fn scheduled_frame(priority: i32, timeout_ms: u32, tenant: &str) -> Vec<u8> {
    profiled_frame(VERSION_SCHEDULED_EXTERNAL, 0, priority, timeout_ms, tenant)
}

fn profiled_frame(
    version: u16,
    profile: u8,
    priority: i32,
    timeout_ms: u32,
    tenant: &str,
) -> Vec<u8> {
    let contract = "model@1";
    let digest = "a".repeat(64);
    let reference = format!("sha256://{digest}");
    let checksum = format!("sha256:{digest}");
    let mut body = Vec::new();
    body.extend_from_slice(&2_u32.to_le_bytes());
    body.extend_from_slice(&1_u32.to_le_bytes());
    body.extend_from_slice(&1_u32.to_le_bytes());
    body.push(2);
    body.push(1);
    if version == VERSION_PROFILED_EXTERNAL {
        body.push(profile);
        body.push(0);
    } else {
        body.extend_from_slice(&0_u16.to_le_bytes());
    }
    body.extend_from_slice(&(contract.len() as u32).to_le_bytes());
    body.extend_from_slice(&priority.to_le_bytes());
    body.extend_from_slice(&timeout_ms.to_le_bytes());
    body.extend_from_slice(&(tenant.len() as u32).to_le_bytes());
    body.extend_from_slice(contract.as_bytes());
    body.extend_from_slice(tenant.as_bytes());
    body.extend_from_slice(&0_u16.to_le_bytes());
    body.extend_from_slice(&0_u16.to_le_bytes());
    body.extend_from_slice(&7_u32.to_le_bytes());
    body.extend_from_slice(&1_u32.to_le_bytes());
    body.extend_from_slice(&(reference.len() as u32).to_le_bytes());
    body.extend_from_slice(&(checksum.len() as u32).to_le_bytes());
    body.extend_from_slice(reference.as_bytes());
    body.extend_from_slice(checksum.as_bytes());
    let mut frame = Vec::new();
    frame.extend_from_slice(b"VCTM");
    frame.extend_from_slice(&version.to_le_bytes());
    frame.extend_from_slice(&REQUEST_KIND.to_le_bytes());
    frame.extend_from_slice(&42_u64.to_le_bytes());
    frame.extend_from_slice(&(body.len() as u64).to_le_bytes());
    frame.extend_from_slice(&body);
    frame
}

fn quantized_frame(profile: u8, contract_id: &str) -> Vec<u8> {
    let mut frame = profiled_frame(VERSION_PROFILED_EXTERNAL, profile, 0, 4_000, "tenant-a");
    let body = frame.split_off(HEADER_BYTES);
    let model_len = u32::from_le_bytes(body[16..20].try_into().unwrap()) as usize;
    let mut upgraded = Vec::with_capacity(body.len() + 4 + contract_id.len());
    upgraded.extend_from_slice(&body[..20]);
    upgraded.extend_from_slice(&(contract_id.len() as u32).to_le_bytes());
    upgraded.extend_from_slice(&body[20..32]);
    upgraded.extend_from_slice(&body[32..32 + model_len]);
    upgraded.extend_from_slice(contract_id.as_bytes());
    upgraded.extend_from_slice(&body[32 + model_len..]);
    frame.truncate(0);
    frame.extend_from_slice(b"VCTM");
    frame.extend_from_slice(&VERSION_QUANTIZED_EXTERNAL.to_le_bytes());
    frame.extend_from_slice(&REQUEST_KIND.to_le_bytes());
    frame.extend_from_slice(&42_u64.to_le_bytes());
    frame.extend_from_slice(&(upgraded.len() as u64).to_le_bytes());
    frame.extend_from_slice(&upgraded);
    frame
}

#[test]
fn scheduled_protocol_carries_tenant_priority_and_deadline() {
    let request = parse(&scheduled_frame(17, 4_000, "tenant-a")).unwrap();
    assert_eq!(request.protocol_version, VERSION_SCHEDULED_EXTERNAL);
    assert_eq!(request.request_id, 42);
    assert_eq!(request.tenant, "tenant-a");
    assert_eq!(request.priority, 17);
    assert_eq!(request.timeout_ms, 4_000);
    assert_eq!(request.candidates[0].candidate_id, 7);
}

#[test]
fn scheduled_protocol_rejects_priority_outside_the_public_contract() {
    assert!(parse(&scheduled_frame(101, 4_000, "tenant-a")).is_err());
}

#[test]
fn profiled_protocol_carries_an_explicit_quantized_profile() {
    let request = parse(&profiled_frame(
        VERSION_PROFILED_EXTERNAL,
        2,
        17,
        4_000,
        "tenant-a",
    ))
    .unwrap();
    assert_eq!(request.scoring_profile, ScoringProfile::Int8);
    assert_eq!(request.tenant, "tenant-a");
}

#[test]
fn profiled_protocol_rejects_unknown_profiles() {
    assert!(
        parse(&profiled_frame(
            VERSION_PROFILED_EXTERNAL,
            99,
            0,
            4_000,
            "tenant-a",
        ))
        .is_err()
    );
}

#[test]
fn quantized_protocol_binds_the_immutable_contract() {
    let contract = format!("qtc1-{}", "a".repeat(64));
    let request = parse(&quantized_frame(4, &contract)).unwrap();
    assert_eq!(request.scoring_profile, ScoringProfile::Pq);
    assert_eq!(
        request.quantization_contract.as_deref(),
        Some(contract.as_str())
    );
}

#[test]
fn logical_protocol_accepts_external_work_above_legacy_tensor_limits() {
    let contract = "model@1";
    let digest = "a".repeat(64);
    let reference = format!("sha256://{digest}");
    let checksum = format!("sha256:{digest}");
    let mut body = Vec::new();
    body.extend_from_slice(&320_u32.to_le_bytes());
    body.extend_from_slice(&1_u32.to_le_bytes());
    body.extend_from_slice(&2_u32.to_le_bytes());
    body.push(2);
    body.push(1);
    body.push(1);
    body.push(0);
    body.extend_from_slice(&(contract.len() as u32).to_le_bytes());
    body.extend_from_slice(&0_u32.to_le_bytes());
    body.extend_from_slice(&0_i32.to_le_bytes());
    body.extend_from_slice(&4_000_u32.to_le_bytes());
    body.extend_from_slice(&6_u32.to_le_bytes());
    body.extend_from_slice(&1_u32.to_le_bytes());
    body.extend_from_slice(contract.as_bytes());
    body.extend_from_slice(b"tenant");
    body.extend_from_slice(&vec![0_u8; 640]);
    for candidate_id in 0..2_u32 {
        body.extend_from_slice(&candidate_id.to_le_bytes());
        body.extend_from_slice(&900_000_u32.to_le_bytes());
        body.extend_from_slice(&(reference.len() as u32).to_le_bytes());
        body.extend_from_slice(&(checksum.len() as u32).to_le_bytes());
        body.extend_from_slice(reference.as_bytes());
        body.extend_from_slice(checksum.as_bytes());
    }
    let mut frame = Vec::new();
    frame.extend_from_slice(b"VCTM");
    frame.extend_from_slice(&VERSION_LOGICAL_EXTERNAL.to_le_bytes());
    frame.extend_from_slice(&REQUEST_KIND.to_le_bytes());
    frame.extend_from_slice(&42_u64.to_le_bytes());
    frame.extend_from_slice(&(body.len() as u64).to_le_bytes());
    frame.extend_from_slice(&body);

    let request = parse(&frame).unwrap();
    assert_eq!(request.top_k, Some(1));
    assert_eq!(request.candidates.len(), 2);
}

#[test]
fn compact_logical_protocol_expands_fixed_width_digests() {
    let contract = "model@1";
    let mut body = Vec::new();
    body.extend_from_slice(&320_u32.to_le_bytes());
    body.extend_from_slice(&1_u32.to_le_bytes());
    body.extend_from_slice(&1_u32.to_le_bytes());
    body.extend_from_slice(&[2, 1, 1, 0]);
    body.extend_from_slice(&(contract.len() as u32).to_le_bytes());
    body.extend_from_slice(&0_u32.to_le_bytes());
    body.extend_from_slice(&0_i32.to_le_bytes());
    body.extend_from_slice(&4_000_u32.to_le_bytes());
    body.extend_from_slice(&6_u32.to_le_bytes());
    body.extend_from_slice(&1_u32.to_le_bytes());
    body.extend_from_slice(contract.as_bytes());
    body.extend_from_slice(b"tenant");
    body.extend_from_slice(&vec![0_u8; 640]);
    body.extend_from_slice(&7_u32.to_le_bytes());
    body.extend_from_slice(&32_u32.to_le_bytes());
    body.extend_from_slice(&[0xab; 32]);
    let mut frame = Vec::new();
    frame.extend_from_slice(b"VCTM");
    frame.extend_from_slice(&VERSION_COMPACT_LOGICAL_EXTERNAL.to_le_bytes());
    frame.extend_from_slice(&REQUEST_KIND.to_le_bytes());
    frame.extend_from_slice(&42_u64.to_le_bytes());
    frame.extend_from_slice(&(body.len() as u64).to_le_bytes());
    frame.extend_from_slice(&body);

    let request = parse(&frame).unwrap();
    assert_eq!(request.top_k, Some(1));
    assert_eq!(request.candidates[0].candidate_id, 7);
    assert_eq!(request.candidates[0].digest, "ab".repeat(32));
}

#[test]
fn typed_compact_protocol_separates_query_and_storage_dtype() {
    let contract = "model@1";
    let mut body = Vec::new();
    body.extend_from_slice(&320_u32.to_le_bytes());
    body.extend_from_slice(&1_u32.to_le_bytes());
    body.extend_from_slice(&1_u32.to_le_bytes());
    body.extend_from_slice(&[2, 1, 6, 3]); // FP16 query, raw E4M3 storage
    body.extend_from_slice(&(contract.len() as u32).to_le_bytes());
    body.extend_from_slice(&0_u32.to_le_bytes());
    body.extend_from_slice(&0_i32.to_le_bytes());
    body.extend_from_slice(&4_000_u32.to_le_bytes());
    body.extend_from_slice(&6_u32.to_le_bytes());
    body.extend_from_slice(&1_u32.to_le_bytes());
    body.extend_from_slice(contract.as_bytes());
    body.extend_from_slice(b"tenant");
    body.extend_from_slice(&vec![0_u8; 640]);
    body.extend_from_slice(&7_u32.to_le_bytes());
    body.extend_from_slice(&32_u32.to_le_bytes());
    body.extend_from_slice(&[0xab; 32]);
    let mut frame = Vec::new();
    frame.extend_from_slice(b"VCTM");
    frame.extend_from_slice(&VERSION_TYPED_COMPACT_LOGICAL_EXTERNAL.to_le_bytes());
    frame.extend_from_slice(&REQUEST_KIND.to_le_bytes());
    frame.extend_from_slice(&42_u64.to_le_bytes());
    frame.extend_from_slice(&(body.len() as u64).to_le_bytes());
    frame.extend_from_slice(&body);

    let request = parse(&frame).unwrap();
    assert_eq!(request.dtype, 2);
    assert_eq!(request.candidates[0].dtype, 3);
    assert_eq!(request.scoring_profile, ScoringProfile::RawFp8E4m3);
}

#[test]
fn manifest_protocol_carries_only_the_descriptor_digest() {
    let contract = "model@1";
    let mut body = Vec::new();
    body.extend_from_slice(&320_u32.to_le_bytes());
    body.extend_from_slice(&1_u32.to_le_bytes());
    body.extend_from_slice(&45_601_u32.to_le_bytes());
    body.extend_from_slice(&[2, 1, 6, 3]);
    body.extend_from_slice(&(contract.len() as u32).to_le_bytes());
    body.extend_from_slice(&0_u32.to_le_bytes());
    body.extend_from_slice(&0_i32.to_le_bytes());
    body.extend_from_slice(&4_000_u32.to_le_bytes());
    body.extend_from_slice(&6_u32.to_le_bytes());
    body.extend_from_slice(&50_u32.to_le_bytes());
    body.extend_from_slice(contract.as_bytes());
    body.extend_from_slice(b"tenant");
    body.extend_from_slice(&vec![0_u8; 640]);
    body.extend_from_slice(&[0xcd; 32]);
    let mut frame = Vec::new();
    frame.extend_from_slice(b"VCTM");
    frame.extend_from_slice(&VERSION_MANIFEST_LOGICAL_EXTERNAL.to_le_bytes());
    frame.extend_from_slice(&REQUEST_KIND.to_le_bytes());
    frame.extend_from_slice(&42_u64.to_le_bytes());
    frame.extend_from_slice(&(body.len() as u64).to_le_bytes());
    frame.extend_from_slice(&body);

    let request = parse(&frame).unwrap();
    assert_eq!(request.top_k, Some(50));
    assert_eq!(request.candidate_dtype, 3);
    assert!(request.candidates.is_empty());
    assert_eq!(request.manifest_digest, Some([0xcd; 32]));
}

#[test]
fn catalog_selection_decodes_delta_varint_public_ids() {
    let contract = "model@1";
    let mut body = Vec::new();
    body.extend_from_slice(&2_u32.to_le_bytes());
    body.extend_from_slice(&1_u32.to_le_bytes());
    body.extend_from_slice(&3_u32.to_le_bytes());
    body.extend_from_slice(&[2, 1, 1, 0]);
    body.extend_from_slice(&(contract.len() as u32).to_le_bytes());
    body.extend_from_slice(&0_u32.to_le_bytes());
    body.extend_from_slice(&0_i32.to_le_bytes());
    body.extend_from_slice(&4_000_u32.to_le_bytes());
    body.extend_from_slice(&6_u32.to_le_bytes());
    body.extend_from_slice(&2_u32.to_le_bytes());
    body.extend_from_slice(contract.as_bytes());
    body.extend_from_slice(b"tenant");
    body.extend_from_slice(&[0_u8; 4]);
    body.push(1);
    body.extend_from_slice(&[0xcd; 32]);
    body.extend_from_slice(&[7, 3, 0xac, 0x02]);
    let mut frame = Vec::new();
    frame.extend_from_slice(b"VCTM");
    frame.extend_from_slice(&VERSION_CATALOG_LOGICAL_EXTERNAL.to_le_bytes());
    frame.extend_from_slice(&REQUEST_KIND.to_le_bytes());
    frame.extend_from_slice(&42_u64.to_le_bytes());
    frame.extend_from_slice(&(body.len() as u64).to_le_bytes());
    frame.extend_from_slice(&body);

    let request = parse(&frame).unwrap();
    assert_eq!(request.catalog_digest, Some([0xcd; 32]));
    assert_eq!(request.catalog_public_ids, vec![7, 10, 310]);
    assert!(!request.catalog_registration);
    assert!(request.candidates.is_empty());
}

#[test]
fn catalog_selection_reference_carries_only_bounded_digests() {
    let contract = "model@1";
    let mut body = Vec::new();
    body.extend_from_slice(&2_u32.to_le_bytes());
    body.extend_from_slice(&1_u32.to_le_bytes());
    body.extend_from_slice(&45_601_u32.to_le_bytes());
    body.extend_from_slice(&[2, 1, 6, 3]);
    body.extend_from_slice(&(contract.len() as u32).to_le_bytes());
    body.extend_from_slice(&0_u32.to_le_bytes());
    body.extend_from_slice(&0_i32.to_le_bytes());
    body.extend_from_slice(&4_000_u32.to_le_bytes());
    body.extend_from_slice(&6_u32.to_le_bytes());
    body.extend_from_slice(&50_u32.to_le_bytes());
    body.extend_from_slice(contract.as_bytes());
    body.extend_from_slice(b"tenant");
    body.extend_from_slice(&[0_u8; 4]);
    body.push(3);
    body.extend_from_slice(&[0xcd; 32]);
    body.extend_from_slice(&[0xef; 32]);
    let mut frame = Vec::new();
    frame.extend_from_slice(b"VCTM");
    frame.extend_from_slice(&VERSION_CATALOG_SELECTION_REFERENCE.to_le_bytes());
    frame.extend_from_slice(&REQUEST_KIND.to_le_bytes());
    frame.extend_from_slice(&42_u64.to_le_bytes());
    frame.extend_from_slice(&(body.len() as u64).to_le_bytes());
    frame.extend_from_slice(&body);

    let request = parse(&frame).unwrap();
    assert_eq!(request.top_k, Some(50));
    assert_eq!(request.catalog_digest, Some([0xcd; 32]));
    assert_eq!(request.catalog_selection_digest, Some([0xef; 32]));
    assert!(request.catalog_public_ids.is_empty());
    assert!(request.candidates.is_empty());

    frame[4..6].copy_from_slice(&VERSION_PERSISTENT_CATALOG_SELECTION_REFERENCE.to_le_bytes());
    let persistent = parse(&frame).unwrap();
    assert_eq!(
        persistent.protocol_version,
        VERSION_PERSISTENT_CATALOG_SELECTION_REFERENCE
    );
    assert!(persistent.scoped_candidate_ordinals.is_empty());
}

#[test]
fn scoped_catalog_reference_decodes_a_bounded_ordinal_subset() {
    let contract = "model@1";
    let mut body = Vec::new();
    body.extend_from_slice(&2_u32.to_le_bytes());
    body.extend_from_slice(&1_u32.to_le_bytes());
    body.extend_from_slice(&45_601_u32.to_le_bytes());
    body.extend_from_slice(&[2, 1, 6, 3]);
    body.extend_from_slice(&(contract.len() as u32).to_le_bytes());
    body.extend_from_slice(&0_u32.to_le_bytes());
    body.extend_from_slice(&0_i32.to_le_bytes());
    body.extend_from_slice(&4_000_u32.to_le_bytes());
    body.extend_from_slice(&6_u32.to_le_bytes());
    body.extend_from_slice(&50_u32.to_le_bytes());
    body.extend_from_slice(contract.as_bytes());
    body.extend_from_slice(b"tenant");
    body.extend_from_slice(&[0_u8; 4]);
    body.push(4);
    body.extend_from_slice(&[0xcd; 32]);
    body.extend_from_slice(&[0xef; 32]);
    body.extend_from_slice(&3_u32.to_le_bytes());
    // Ordinals 0, 4, and 300 encoded as deltas over ordinal + 1.
    body.extend_from_slice(&[1, 4, 0xa8, 0x02]);
    let mut frame = Vec::new();
    frame.extend_from_slice(b"VCTM");
    frame.extend_from_slice(&VERSION_SCOPED_CATALOG_SELECTION_REFERENCE.to_le_bytes());
    frame.extend_from_slice(&REQUEST_KIND.to_le_bytes());
    frame.extend_from_slice(&42_u64.to_le_bytes());
    frame.extend_from_slice(&(body.len() as u64).to_le_bytes());
    frame.extend_from_slice(&body);

    let request = parse(&frame).unwrap();
    assert_eq!(request.top_k, Some(50));
    assert_eq!(request.catalog_digest, Some([0xcd; 32]));
    assert_eq!(request.catalog_selection_digest, Some([0xef; 32]));
    assert_eq!(request.scoped_candidate_ordinals, vec![0, 4, 300]);
    assert!(request.candidates.is_empty());

    frame[4..6]
        .copy_from_slice(&VERSION_PERSISTENT_SCOPED_CATALOG_SELECTION_REFERENCE.to_le_bytes());
    let persistent = parse(&frame).unwrap();
    assert_eq!(
        persistent.protocol_version,
        VERSION_PERSISTENT_SCOPED_CATALOG_SELECTION_REFERENCE
    );
    assert_eq!(persistent.scoped_candidate_ordinals, vec![0, 4, 300]);
}

#[test]
fn catalog_registration_carries_public_id_descriptor_pairs() {
    let contract = "model@1";
    let mut body = Vec::new();
    body.extend_from_slice(&2_u32.to_le_bytes());
    body.extend_from_slice(&1_u32.to_le_bytes());
    body.extend_from_slice(&2_u32.to_le_bytes());
    body.extend_from_slice(&[2, 1, 1, 0]);
    body.extend_from_slice(&(contract.len() as u32).to_le_bytes());
    body.extend_from_slice(&0_u32.to_le_bytes());
    body.extend_from_slice(&0_i32.to_le_bytes());
    body.extend_from_slice(&4_000_u32.to_le_bytes());
    body.extend_from_slice(&6_u32.to_le_bytes());
    body.extend_from_slice(&1_u32.to_le_bytes());
    body.extend_from_slice(contract.as_bytes());
    body.extend_from_slice(b"tenant");
    body.extend_from_slice(&[0_u8; 4]);
    body.push(2);
    body.extend_from_slice(&[0xef; 32]);
    for (public_id, rows, digest) in [(7_i64, 3_u32, 0xab), (10, 4, 0xbc)] {
        body.extend_from_slice(&public_id.to_le_bytes());
        body.extend_from_slice(&rows.to_le_bytes());
        body.extend_from_slice(&[digest; 32]);
    }
    let mut frame = Vec::new();
    frame.extend_from_slice(b"VCTM");
    frame.extend_from_slice(&VERSION_CATALOG_LOGICAL_EXTERNAL.to_le_bytes());
    frame.extend_from_slice(&REQUEST_KIND.to_le_bytes());
    frame.extend_from_slice(&42_u64.to_le_bytes());
    frame.extend_from_slice(&(body.len() as u64).to_le_bytes());
    frame.extend_from_slice(&body);

    let request = parse(&frame).unwrap();
    assert!(request.catalog_registration);
    assert_eq!(request.catalog_public_ids, vec![7, 10]);
    assert_eq!(request.candidates.len(), 2);
    assert_eq!(request.candidates[1].candidate_id, 1);
    assert_eq!(request.candidates[1].rows, 4);
}

#[test]
fn pq_profile_without_a_contract_fails_closed() {
    assert!(
        parse(&profiled_frame(
            VERSION_PROFILED_EXTERNAL,
            4,
            0,
            4_000,
            "tenant-a"
        ))
        .is_err()
    );
}

#[test]
fn response_uses_the_request_protocol_version() {
    let response = success(VERSION_SCHEDULED_EXTERNAL, 9, &[(1, 0.5_f32.to_bits())]);
    assert_eq!(
        u16::from_le_bytes(response[4..6].try_into().unwrap()),
        VERSION_SCHEDULED_EXTERNAL
    );
}

/// The parts of a request body, in the order of the wire.
struct Parts {
    version: u16,
    dimension: u32,
    query_rows: u32,
    count: u32,
    dtype: u8,
    scoring: u8,
    profile: u8,
    storage: u8,
    contract: Vec<u8>,
    quantization: Vec<u8>,
    priority: i32,
    timeout_ms: u32,
    tenant: Vec<u8>,
    top_k: u32,
    query: Vec<u8>,
    rest: Vec<u8>,
}

fn parts(version: u16) -> Parts {
    Parts {
        version,
        dimension: 2,
        query_rows: 1,
        count: 1,
        dtype: 2,
        scoring: 1,
        profile: 1,
        storage: 0,
        contract: b"model@1".to_vec(),
        quantization: Vec::new(),
        priority: 0,
        timeout_ms: 4_000,
        tenant: b"tenant".to_vec(),
        top_k: 1,
        query: vec![0; 4],
        rest: Vec::new(),
    }
}

fn encoded(parts: &Parts) -> Vec<u8> {
    let mut body = Vec::new();
    body.extend_from_slice(&parts.dimension.to_le_bytes());
    body.extend_from_slice(&parts.query_rows.to_le_bytes());
    body.extend_from_slice(&parts.count.to_le_bytes());
    body.push(parts.dtype);
    body.push(parts.scoring);
    if parts.version >= 4 {
        body.push(parts.profile);
        body.push(parts.storage);
    } else {
        body.extend_from_slice(&(parts.storage as u16).to_le_bytes());
    }
    body.extend_from_slice(&(parts.contract.len() as u32).to_le_bytes());
    if parts.version >= 5 {
        body.extend_from_slice(&(parts.quantization.len() as u32).to_le_bytes());
    }
    if parts.version >= 3 {
        body.extend_from_slice(&parts.priority.to_le_bytes());
        body.extend_from_slice(&parts.timeout_ms.to_le_bytes());
        body.extend_from_slice(&(parts.tenant.len() as u32).to_le_bytes());
    }
    if parts.version >= 6 {
        body.extend_from_slice(&parts.top_k.to_le_bytes());
    }
    body.extend_from_slice(&parts.contract);
    if parts.version >= 5 {
        body.extend_from_slice(&parts.quantization);
    }
    if parts.version >= 3 {
        body.extend_from_slice(&parts.tenant);
    }
    body.extend_from_slice(&parts.query);
    body.extend_from_slice(&parts.rest);
    framed(parts.version, &body)
}

fn framed(version: u16, body: &[u8]) -> Vec<u8> {
    let mut frame = Vec::new();
    frame.extend_from_slice(b"VCTM");
    frame.extend_from_slice(&version.to_le_bytes());
    frame.extend_from_slice(&REQUEST_KIND.to_le_bytes());
    frame.extend_from_slice(&42_u64.to_le_bytes());
    frame.extend_from_slice(&(body.len() as u64).to_le_bytes());
    frame.extend_from_slice(body);
    frame
}

/// A candidate that is named by a reference and a checksum.
fn referenced(candidate_id: u32, rows: u32, reference: &str, checksum: &str) -> Vec<u8> {
    let mut bytes = Vec::new();
    bytes.extend_from_slice(&candidate_id.to_le_bytes());
    bytes.extend_from_slice(&rows.to_le_bytes());
    bytes.extend_from_slice(&(reference.len() as u32).to_le_bytes());
    bytes.extend_from_slice(&(checksum.len() as u32).to_le_bytes());
    bytes.extend_from_slice(reference.as_bytes());
    bytes.extend_from_slice(checksum.as_bytes());
    bytes
}

fn sound(candidate_id: u32, rows: u32) -> Vec<u8> {
    let digest = "b".repeat(64);
    referenced(candidate_id, rows, &format!("sha256://{digest}"), &format!("sha256:{digest}"))
}

fn refusal(parts: &Parts) -> ProtocolError {
    parse(&encoded(parts)).unwrap_err()
}

#[test]
fn first_version_has_a_shared_tenant_and_no_schedule() {
    let request = parse(&encoded(&Parts { rest: sound(9, 3), ..parts(2) })).unwrap();
    assert_eq!(request.tenant, "__default__");
    assert_eq!(request.priority, 0);
    assert_eq!(request.timeout_ms, 0);
    assert_eq!(request.top_k, None);
    assert_eq!(request.candidates.len(), 1);
    assert_eq!(request.candidates[0].candidate_id, 9);
    assert_eq!(request.candidates[0].rows, 3);
    assert_eq!(request.candidates[0].digest, "b".repeat(64));
    assert_eq!(request.candidates[0].contract, "model@1");
    assert_eq!(request.candidate_slice().len(), 1);
}

#[test]
fn headers_are_checked_in_order() {
    assert_eq!(parse(&[0; 10]).unwrap_err(), ProtocolError::TruncatedHeader);
    let good = encoded(&Parts { rest: sound(9, 3), ..parts(2) });
    let mut frame = good.clone();
    frame[0] = b'X';
    assert_eq!(parse(&frame).unwrap_err(), ProtocolError::InvalidMagic);
    for version in [0_u16, 1, 15] {
        let mut frame = good.clone();
        frame[4..6].copy_from_slice(&version.to_le_bytes());
        assert_eq!(parse(&frame).unwrap_err(), ProtocolError::UnsupportedProtocol);
    }
    let mut frame = good.clone();
    frame[6] = 2;
    assert_eq!(parse(&frame).unwrap_err(), ProtocolError::UnsupportedProtocol);
    let mut frame = good.clone();
    frame[16] += 1;
    assert_eq!(parse(&frame).unwrap_err(), ProtocolError::BodyLengthMismatch);
    let short = framed(2, &good[HEADER_BYTES..good.len() - 1]);
    assert_eq!(parse(&short).unwrap_err(), ProtocolError::TruncatedRequest);
    let mut long = good[HEADER_BYTES..].to_vec();
    long.push(0);
    assert_eq!(parse(&framed(2, &long)).unwrap_err(), ProtocolError::TrailingBytes);
}

#[test]
fn fixed_fields_are_checked() {
    assert_eq!(refusal(&Parts { profile: 99, ..parts(4) }), ProtocolError::UnsupportedProfile);
    assert_eq!(refusal(&Parts { storage: 1, ..parts(3) }), ProtocolError::ReservedBits);
    assert_eq!(refusal(&Parts { storage: 1, ..parts(4) }), ProtocolError::ReservedBits);
    assert_eq!(refusal(&Parts { scoring: 2, ..parts(3) }), ProtocolError::UnsupportedScoring);
    assert_eq!(refusal(&Parts { count: 65_537, ..parts(3) }), ProtocolError::TooManyCandidates);
    assert_eq!(refusal(&Parts { priority: -101, ..parts(3) }), ProtocolError::PriorityOutOfRange);
    assert_eq!(refusal(&Parts { timeout_ms: 0, ..parts(3) }), ProtocolError::TimeoutOutOfRange);
    assert_eq!(
        refusal(&Parts { timeout_ms: 600_001, ..parts(3) }),
        ProtocolError::TimeoutOutOfRange
    );
    assert_eq!(refusal(&Parts { top_k: 0, ..parts(6) }), ProtocolError::TopKOutOfRange);
    assert_eq!(refusal(&Parts { top_k: 2, ..parts(6) }), ProtocolError::TopKOutOfRange);
}

#[test]
fn texts_are_checked() {
    assert_eq!(
        refusal(&Parts { contract: Vec::new(), ..parts(3) }),
        ProtocolError::TextLength(TextField::ModelContract)
    );
    assert_eq!(
        refusal(&Parts { tenant: vec![b'a'; 257], ..parts(3) }),
        ProtocolError::TextLength(TextField::SchedulerTenant)
    );
    for (bytes, at, length) in [
        (vec![0xff], 0, Some(1)),
        (b"ab\xe2\x82c".to_vec(), 2, Some(2)),
        (b"abc\xf0\x9f\x98".to_vec(), 3, None),
    ] {
        let words = std::str::from_utf8(&bytes).unwrap_err().to_string();
        let error = refusal(&Parts { contract: bytes, ..parts(3) });
        assert_eq!(error, ProtocolError::NotUtf8(Utf8Fault { at, length }));
        assert_eq!(error.message(), words);
    }
    assert_eq!(
        refusal(&Parts { contract: b"ab\xe2\x82c".to_vec(), ..parts(3) }).message(),
        "invalid utf-8 sequence of 2 bytes from index 2"
    );
    assert_eq!(
        refusal(&Parts { tenant: b"a\x01".to_vec(), ..parts(3) }),
        ProtocolError::ControlCharacters(TextField::SchedulerTenant)
    );
    assert_eq!(
        refusal(&Parts { profile: 4, quantization: b"qtc1-short".to_vec(), ..parts(5) }),
        ProtocolError::InvalidQuantizationContract
    );
    let contract = format!("qtc1-{}", "a".repeat(64)).into_bytes();
    assert_eq!(
        refusal(&Parts { profile: 1, quantization: contract, ..parts(5) }),
        ProtocolError::ProfileContractMismatch
    );
    assert_eq!(
        ProtocolError::ControlCharacters(TextField::SchedulerTenant).message(),
        "scheduler tenant contains control characters"
    );
    assert_eq!(
        ProtocolError::TextLength(TextField::ModelContract).message(),
        "invalid model contract length"
    );
}

#[test]
fn queries_are_checked() {
    assert_eq!(refusal(&Parts { dtype: 9, ..parts(3) }), ProtocolError::UnsupportedDtype);
    assert_eq!(refusal(&Parts { query_rows: 0, ..parts(3) }), ProtocolError::InvalidTensorShape);
    assert_eq!(
        refusal(&Parts { dimension: 60_001, ..parts(3) }),
        ProtocolError::InvalidTensorShape
    );
    assert_eq!(
        refusal(&Parts { query: vec![0, 0x7c, 0, 0], ..parts(3) }),
        ProtocolError::NonFiniteQuery
    );
    let nan = f32::NAN.to_le_bytes();
    assert_eq!(
        refusal(&Parts { dtype: 1, dimension: 1, query: nan.to_vec(), ..parts(3) }),
        ProtocolError::NonFiniteQuery
    );
}

#[test]
fn candidates_are_checked() {
    let mut twice = sound(1, 1);
    twice.extend(sound(1, 1));
    assert_eq!(
        refusal(&Parts { count: 2, rest: twice, ..parts(3) }),
        ProtocolError::DuplicateCandidate
    );
    let digest = "b".repeat(64);
    let other = "c".repeat(64);
    assert_eq!(
        refusal(&Parts {
            rest: referenced(1, 1, &format!("file://{digest}"), &format!("sha256:{digest}")),
            ..parts(3)
        }),
        ProtocolError::UnsupportedTensorReference
    );
    assert_eq!(
        refusal(&Parts {
            rest: referenced(1, 1, &format!("sha256://{digest}"), &format!("sha256:{other}")),
            ..parts(3)
        }),
        ProtocolError::InvalidTensorDescriptor
    );
    assert_eq!(
        refusal(&Parts { rest: sound(1, 0), ..parts(3) }),
        ProtocolError::InvalidTensorShape
    );
    assert_eq!(
        refusal(&Parts {
            dimension: 320,
            query: vec![0; 640],
            rest: sound(1, 1_000_000),
            ..parts(3)
        }),
        ProtocolError::TensorLimits
    );
}

#[test]
fn catalogs_are_checked() {
    let with = |version: u16, count: u32, rest: Vec<u8>| {
        refusal(&Parts { count, rest, ..parts(version) })
    };
    let mut rest = vec![9];
    rest.extend_from_slice(&[0; 32]);
    assert_eq!(with(10, 1, rest), ProtocolError::CatalogMode);
    let mut rest = vec![1];
    rest.extend_from_slice(&[0; 64]);
    assert_eq!(with(11, 1, rest), ProtocolError::SelectionReferenceMode);
    let selection = |ids: &[u8]| {
        let mut rest = vec![1];
        rest.extend_from_slice(&[0; 32]);
        rest.extend_from_slice(ids);
        rest
    };
    let mut huge = vec![0xff; 9];
    huge.push(2);
    assert_eq!(with(10, 1, selection(&huge)), ProtocolError::VarintOverflow);
    assert_eq!(with(10, 1, selection(&[0x87, 0])), ProtocolError::NonCanonicalVarint);
    assert_eq!(with(10, 2, selection(&[7, 0])), ProtocolError::PublicIdOrder);
    let mut large = vec![0xff; 9];
    large.push(1);
    assert_eq!(with(10, 1, selection(&large)), ProtocolError::PublicIdOverflow);
    let scoped = |count: u32, ordinals: &[u8]| {
        let mut rest = vec![4];
        rest.extend_from_slice(&[0; 64]);
        rest.extend_from_slice(&count.to_le_bytes());
        rest.extend_from_slice(ordinals);
        rest
    };
    assert_eq!(with(12, 3, scoped(0, &[])), ProtocolError::ScopedCount);
    assert_eq!(with(12, 3, scoped(4, &[1, 1, 1, 1])), ProtocolError::ScopedCount);
    assert_eq!(with(12, 3, scoped(2, &[1, 0])), ProtocolError::ScopedOrder);
    assert_eq!(with(12, 3, scoped(1, &[4])), ProtocolError::ScopedOutside);
    let mut registration = vec![2];
    registration.extend_from_slice(&[0; 32]);
    registration.extend_from_slice(&0_i64.to_le_bytes());
    registration.extend_from_slice(&1_u32.to_le_bytes());
    registration.extend_from_slice(&[7; 32]);
    assert_eq!(with(10, 1, registration), ProtocolError::RegisteredIdOrder);
}

#[test]
fn failures_carry_a_status_and_a_message() {
    let frame = failure(7, 9, 0, "no");
    assert_eq!(&frame[..4], b"VCTM");
    assert_eq!(frame[4..6], 7_u16.to_le_bytes());
    assert_eq!(frame[6..8], 2_u16.to_le_bytes());
    assert_eq!(frame[8..16], 9_u64.to_le_bytes());
    assert_eq!(frame[16..24], 10_u64.to_le_bytes());
    assert_eq!(frame[24..28], 1_u32.to_le_bytes());
    assert_eq!(frame[28..32], 2_u32.to_le_bytes());
    assert_eq!(&frame[32..], b"no");
    let long = failure(2, 9, 3, &"x".repeat(70_000));
    assert_eq!(long.len(), HEADER_BYTES + 8 + 65_536);
}

#[test]
fn profiles_have_tags_and_native_codes() {
    let expected = [
        (ScoringProfile::ExactFp16, 1, "exact-fp16-v1"),
        (ScoringProfile::Int8, 2, "int8-row-scale-v1"),
        (ScoringProfile::Fp8E4m3, 3, "fp8-e4m3-row-scale-v1"),
        (ScoringProfile::Pq, 4, "pq-adc-v1"),
        (ScoringProfile::OpqRpq, 5, "opq-rpq-adc-v1"),
    ];
    for (profile, code, tag) in expected {
        assert_eq!(profile.native_code(), code);
        assert_eq!(profile.cache_tag(), tag);
        assert_eq!(ScoringProfile::parse(code), Ok(profile));
    }
    assert_eq!(ScoringProfile::RawFp8E4m3.native_code(), 3);
    assert_eq!(ScoringProfile::RawFp8E4m3.cache_tag(), "fp8-e4m3-raw-v1");
    assert_eq!(ScoringProfile::parse(6), Ok(ScoringProfile::RawFp8E4m3));
    assert_eq!(ScoringProfile::parse(0), Err(ProtocolError::UnsupportedProfile));
}

#[test]
fn accepted_bodies_are_consumed_exactly() {
    let mut frames = vec![
        scheduled_frame(7, 250, "tenant-a"),
        quantized_frame(4, &format!("qtc1-{}", "a".repeat(64))),
    ];
    for version in [2, 3] {
        frames.push(encoded(&Parts { rest: sound(9, 3), ..parts(version) }));
    }
    for frame in frames {
        let version = u16::from_le_bytes([frame[4], frame[5]]);
        let body = &frame[HEADER_BYTES..];
        assert!(parse(&framed(version, body)).is_ok());
        let mut longer = body.to_vec();
        longer.push(0);
        assert_eq!(parse(&framed(version, &longer)).unwrap_err(), ProtocolError::TrailingBytes);
        for count in 0..body.len() {
            assert!(parse(&framed(version, &body[..count])).is_err());
        }
    }
}
