//! The frames that clients build, and what the daemon makes of them.

use tilemaxsim::client::{
    catalog_digest, decode_response, encode_catalog_registration, encode_catalog_selection,
    encode_catalog_selection_reference, selection_digest, CatalogDescriptor, CatalogRequest, Score,
    ScoringProfile, SdkError, TensorDtype, HEADER_BYTES, RESPONSE_KIND,
};
use tilemaxsim::protocol;

fn request<'a>(query: &'a [u8]) -> CatalogRequest<'a> {
    CatalogRequest {
        request_id: 41,
        model_contract: "colqwen@1",
        tenant: "tenant-7",
        priority: 5,
        timeout_ms: 2_000,
        query_rows: 2,
        dimension: 2,
        query_dtype: TensorDtype::Float16,
        candidate_dtype: TensorDtype::Fp8E4m3,
        scoring_profile: ScoringProfile::Fp8E4m3Raw,
        quantization_contract: None,
        top_k: 2,
        query,
        catalog_revision: "catalog-17",
    }
}

fn text(bytes: &[u8]) -> String {
    bytes.iter().map(|byte| format!("{byte:02x}")).collect()
}

fn reason(result: Result<Vec<u8>, SdkError>) -> String {
    result.unwrap_err().message()
}

#[test]
fn encodes_all_catalog_selection_forms() {
    let query = [0_u8; 8];
    let request = request(&query);
    let ids = [11, 20, 42];
    let explicit = encode_catalog_selection(&request, &ids).unwrap();
    assert_eq!(u16::from_le_bytes(explicit[4..6].try_into().unwrap()), 10);
    let global = encode_catalog_selection_reference(&request, &ids, None, true).unwrap();
    assert_eq!(u16::from_le_bytes(global[4..6].try_into().unwrap()), 14);
    let scoped =
        encode_catalog_selection_reference(&request, &ids, Some(&[20, 42]), true).unwrap();
    assert_eq!(u16::from_le_bytes(scoped[4..6].try_into().unwrap()), 13);
}

#[test]
fn rejects_invalid_shape_and_unsorted_ids() {
    let query = [0_u8; 8];
    assert!(matches!(
        encode_catalog_selection(&request(&query), &[20, 11]),
        Err(SdkError::InvalidRequest(_))
    ));
    let short = [0_u8; 6];
    assert!(matches!(
        encode_catalog_selection(&request(&short), &[11, 20]),
        Err(SdkError::InvalidRequest(_))
    ));
}

#[test]
fn decodes_partial_top_k_and_typed_misses() {
    let mut response = vec![0_u8; HEADER_BYTES];
    response[..4].copy_from_slice(b"VCTM");
    response[4..6].copy_from_slice(&14_u16.to_le_bytes());
    response[6..8].copy_from_slice(&RESPONSE_KIND.to_le_bytes());
    response[8..16].copy_from_slice(&41_u64.to_le_bytes());
    response.extend_from_slice(&0_u32.to_le_bytes());
    response.extend_from_slice(&1_u32.to_le_bytes());
    response.extend_from_slice(&7_u32.to_le_bytes());
    response.extend_from_slice(&0.9_f32.to_le_bytes());
    response[16..24].copy_from_slice(&16_u64.to_le_bytes());
    let decoded = decode_response(&response).unwrap();
    assert_eq!(
        decoded.scores,
        [Score {
            candidate_id: 7,
            similarity_bits: 0.9_f32.to_bits()
        }]
    );

    let message = b"descriptor catalog miss";
    let mut miss = vec![0_u8; HEADER_BYTES];
    miss[..4].copy_from_slice(b"VCTM");
    miss[4..6].copy_from_slice(&14_u16.to_le_bytes());
    miss[6..8].copy_from_slice(&RESPONSE_KIND.to_le_bytes());
    miss[8..16].copy_from_slice(&41_u64.to_le_bytes());
    miss.extend_from_slice(&4_u32.to_le_bytes());
    miss.extend_from_slice(&(message.len() as u32).to_le_bytes());
    miss.extend_from_slice(message);
    miss[16..24].copy_from_slice(&((8 + message.len()) as u64).to_le_bytes());
    assert_eq!(decode_response(&miss), Err(SdkError::CatalogMiss));
}

#[test]
fn protocol_library_frames_are_accepted_by_the_daemon_parser() {
    let query = [0_u8; 8];
    let request = request(&query);
    let ids = [11, 20, 42];
    let frame = encode_catalog_selection_reference(&request, &ids, Some(&[20, 42]), true).unwrap();
    let parsed = protocol::parse(&frame).unwrap();
    assert_eq!(
        parsed.protocol_version,
        protocol::VERSION_PERSISTENT_SCOPED_CATALOG_SELECTION_REFERENCE
    );
    assert_eq!(parsed.scoped_candidate_ordinals, [1, 2]);
}

#[test]
fn digests_are_those_of_sha_256() {
    assert_eq!(
        text(&catalog_digest("abc")),
        "ba7816bf8f01cfea414140de5dae2223b00361a396177a9cb410ff61f20015ad"
    );
    assert_ne!(selection_digest(&[1, 2]).unwrap(), selection_digest(&[1, 3]).unwrap());
    assert!(selection_digest(&[]).is_err());
}

#[test]
fn selections_reach_the_daemon() {
    let query = [0_u8; 8];
    let request = request(&query);
    let frame = encode_catalog_selection(&request, &[7, 10, 310]).unwrap();
    let parsed = protocol::parse(&frame).unwrap();
    assert_eq!(parsed.request_id, 41);
    assert_eq!(parsed.tenant, "tenant-7");
    assert_eq!(parsed.model_contract, "colqwen@1");
    assert_eq!(parsed.priority, 5);
    assert_eq!(parsed.timeout_ms, 2_000);
    assert_eq!(parsed.top_k, Some(2));
    assert_eq!(parsed.dtype, 2);
    assert_eq!(parsed.candidate_dtype, 3);
    assert_eq!(parsed.catalog_public_ids, [7, 10, 310]);
    assert_eq!(parsed.catalog_digest, Some(catalog_digest("catalog-17")));
    assert!(!parsed.catalog_registration);
}

#[test]
fn references_reach_the_daemon() {
    let query = [0_u8; 8];
    let request = request(&query);
    let ids = [7, 10, 310];
    for (persistent, version) in [(false, 11), (true, 14)] {
        let frame = encode_catalog_selection_reference(&request, &ids, None, persistent).unwrap();
        let parsed = protocol::parse(&frame).unwrap();
        assert_eq!(parsed.protocol_version, version);
        assert_eq!(parsed.catalog_selection_digest, Some(selection_digest(&ids).unwrap()));
        assert!(parsed.scoped_candidate_ordinals.is_empty());
    }
    for (persistent, version) in [(false, 12), (true, 13)] {
        let frame =
            encode_catalog_selection_reference(&request, &ids, Some(&[7, 310]), persistent).unwrap();
        let parsed = protocol::parse(&frame).unwrap();
        assert_eq!(parsed.protocol_version, version);
        assert_eq!(parsed.scoped_candidate_ordinals, [0, 2]);
    }
}

#[test]
fn registrations_reach_the_daemon() {
    let query = [0_u8; 8];
    let request = request(&query);
    let descriptors = [
        CatalogDescriptor { public_id: 7, rows: 3, digest: [0xab; 32] },
        CatalogDescriptor { public_id: 10, rows: 4, digest: [0xbc; 32] },
    ];
    let frame = encode_catalog_registration(&request, &descriptors).unwrap();
    let parsed = protocol::parse(&frame).unwrap();
    assert!(parsed.catalog_registration);
    assert_eq!(parsed.catalog_public_ids, [7, 10]);
    assert_eq!(parsed.candidates[1].rows, 4);
    assert_eq!(parsed.candidates[1].digest, "bc".repeat(32));
}

#[test]
fn requests_that_the_daemon_would_refuse_are_not_built() {
    let query = [0_u8; 8];
    let ids = [11, 20];
    let good = request(&query);
    assert_eq!(
        reason(encode_catalog_selection(&good, &[])),
        "catalog public IDs must be nonempty and bounded"
    );
    assert_eq!(
        reason(encode_catalog_selection(
            &CatalogRequest { model_contract: "", ..good.clone() },
            &ids
        )),
        "model contract is invalid"
    );
    assert_eq!(
        reason(encode_catalog_selection(&CatalogRequest { tenant: "a\n", ..good.clone() }, &ids)),
        "tenant is invalid"
    );
    assert_eq!(
        reason(encode_catalog_selection(&CatalogRequest { priority: 101, ..good.clone() }, &ids)),
        "scheduler priority or timeout is invalid"
    );
    assert_eq!(
        reason(encode_catalog_selection(&CatalogRequest { dimension: 0, ..good.clone() }, &ids)),
        "query tensor shape is invalid"
    );
    assert_eq!(
        reason(encode_catalog_selection(&CatalogRequest { query_rows: 3, ..good.clone() }, &ids)),
        "query payload disagrees with its shape and dtype"
    );
    assert_eq!(
        reason(encode_catalog_selection(&CatalogRequest { top_k: 3, ..good.clone() }, &ids)),
        "top_k must be between one and candidate count"
    );
    assert_eq!(
        reason(encode_catalog_selection(
            &CatalogRequest { scoring_profile: ScoringProfile::Pq, ..good.clone() },
            &ids
        )),
        "PQ profiles require exactly one quantization contract"
    );
    assert_eq!(
        reason(encode_catalog_selection(
            &CatalogRequest {
                scoring_profile: ScoringProfile::Pq,
                quantization_contract: Some("qtc1-short"),
                ..good.clone()
            },
            &ids
        )),
        "quantization contract is invalid"
    );
    assert_eq!(
        reason(encode_catalog_selection(
            &CatalogRequest { catalog_revision: "", ..good.clone() },
            &ids
        )),
        "catalog revision must not be empty"
    );
    assert!(encode_catalog_registration(&good, &[]).is_err());
    let empty = CatalogDescriptor { public_id: 7, rows: 0, digest: [0; 32] };
    assert!(encode_catalog_registration(&good, &[empty.clone(), empty]).is_err());
    assert!(encode_catalog_selection_reference(&good, &ids, Some(&[12]), true).is_err());
}

#[test]
fn answers_of_the_daemon_reach_the_client() {
    let scores = [(3, 0.25_f32.to_bits()), (9, 1.5_f32.to_bits())];
    let decoded = decode_response(&protocol::success(14, 41, &scores)).unwrap();
    assert_eq!(decoded.protocol_version, 14);
    assert_eq!(decoded.request_id, 41);
    assert_eq!(decoded.scores.len(), 2);
    assert_eq!(decoded.scores[1].candidate_id, 9);
    assert_eq!(decoded.scores[1].similarity_bits, 1.5_f32.to_bits());

    let error = decode_response(&protocol::failure(14, 41, 0, "busy")).unwrap_err();
    assert_eq!(error, SdkError::Remote { status: 1, message: "busy".to_owned() });
    assert_eq!(error.message(), "TileMaxSim status 1: busy");
    assert_eq!(
        decode_response(&protocol::failure(14, 41, 4, "descriptor manifest miss")),
        Err(SdkError::ManifestMiss)
    );
    assert_eq!(SdkError::ManifestMiss.message(), "descriptor manifest miss");
}

#[test]
fn responses_are_checked() {
    let bad = |frame: &[u8]| decode_response(frame).unwrap_err().message();
    assert_eq!(bad(&[0; 5]), "invalid TileMaxSim response header");
    let good = protocol::success(14, 41, &[(3, 0)]);
    let mut frame = good.clone();
    frame[6] = 1;
    assert_eq!(bad(&frame), "invalid TileMaxSim response length or kind");
    let mut frame = good[..HEADER_BYTES].to_vec();
    frame[16] = 0;
    assert_eq!(bad(&frame), "truncated TileMaxSim response");
    let mut frame = good.clone();
    frame[28] = 2;
    assert_eq!(bad(&frame), "TileMaxSim score count disagrees with response length");
    let frame = protocol::success(14, 41, &[(3, f32::NAN.to_bits())]);
    assert_eq!(bad(&frame), "TileMaxSim returned a non-finite score");
    let mut frame = protocol::failure(14, 41, 4, "busy");
    frame[28] = 200;
    assert_eq!(bad(&frame), "truncated TileMaxSim error response");
    let mut frame = protocol::failure(14, 41, 4, "busy");
    frame[32] = 0xff;
    assert_eq!(bad(&frame), "TileMaxSim error is not UTF-8");
}
