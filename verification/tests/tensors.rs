//! Tensors as the devices hold them.

use std::sync::Arc;
use tilemaxsim::codes::{e4m3fn_to_f32, f32_to_e4m3fn, f32_to_int8};
use tilemaxsim::protocol::{Descriptor, ScoringProfile};
use tilemaxsim::resident::{prewarm_batches, resident_tensors};
use tilemaxsim::tensors::{
    align_up, encode_for_profile, gpu_cache_key, half_to_f32, read_scalar, scaled_payload_bytes,
    unique_descriptors, EngineError,
};

fn descriptor(candidate_id: u32, digest: &str, rows: u32) -> Descriptor {
    Descriptor {
        candidate_id,
        contract: "colqwen35@test".to_owned(),
        digest: digest.to_owned(),
        rows,
        dimension: 320,
        dtype: 2,
    }
}

fn divide(left: u32, right: u32) -> u32 {
    (f32::from_bits(left) / f32::from_bits(right)).to_bits()
}

fn decoded(code: u8) -> f32 {
    f32::from_bits(e4m3fn_to_f32(code))
}

fn encoded(value: f32) -> u8 {
    f32_to_e4m3fn(value.to_bits())
}

#[test]
fn resident_prewarm_deduplicates_content_references() {
    let descriptors = vec![
        descriptor(1, "a", 100),
        descriptor(2, "a", 100),
        descriptor(3, "b", 120),
        // Shape is part of the cache identity and must not be collapsed.
        descriptor(4, "a", 101),
    ];

    let unique = unique_descriptors(&descriptors);
    assert_eq!(unique.len(), 3);
    assert_eq!(unique[0].candidate_id, 1);
    assert_eq!(unique[1].candidate_id, 3);
    assert_eq!(unique[2].candidate_id, 4);
}

#[test]
fn fp16_decoder_covers_normal_and_subnormal_values() {
    assert_eq!(f32::from_bits(half_to_f32(0x3c00)), 1.0);
    assert_eq!(f32::from_bits(half_to_f32(0xc000)), -2.0);
    assert_eq!(f32::from_bits(half_to_f32(0x0001)), 2.0_f32.powi(-24));
}

#[test]
fn int8_encoding_is_row_scaled_and_profile_namespaced() {
    let descriptor = descriptor(1, "a", 1);
    let mut payload = Vec::with_capacity(640);
    for column in 0..320 {
        let bits = if column == 0 { 0x3c00_u16 } else { 0_u16 };
        payload.extend_from_slice(&bits.to_le_bytes());
    }
    let encoded =
        encode_for_profile(&descriptor, &Arc::new(payload), ScoringProfile::Int8, &divide).unwrap();
    assert_eq!(encoded.len(), 320 + 4);
    assert_eq!(encoded[0] as i8, 127);
    assert_eq!(
        f32::from_le_bytes(encoded[320..324].try_into().unwrap()),
        1.0 / 127.0
    );
    assert_ne!(
        gpu_cache_key(&descriptor, ScoringProfile::ExactFp16, None),
        gpu_cache_key(&descriptor, ScoringProfile::Int8, None)
    );
}

#[test]
fn fp8_encoding_uses_e4m3fn_and_a_distinct_cache_namespace() {
    for value in [0.0_f32, 0.5, 1.0, 12.0, 448.0, -1.0] {
        let decoded = decoded(encoded(value));
        assert!((decoded - value).abs() <= value.abs().max(1.0) / 8.0);
    }
    let descriptor = descriptor(1, "a", 1);
    assert_ne!(
        gpu_cache_key(&descriptor, ScoringProfile::Fp8E4m3, None),
        gpu_cache_key(&descriptor, ScoringProfile::Int8, None)
    );
}

#[test]
fn every_code_stands_for_its_number() {
    for code in 0..=255_u8 {
        let sign = if code < 128 { 1.0 } else { -1.0 };
        let exponent = i32::from(code / 8 % 16);
        let fraction = f32::from(code % 8);
        if code % 128 == 127 {
            assert!(decoded(code).is_nan());
            continue;
        }
        let expected = if exponent == 0 {
            sign * fraction * 2.0_f32.powi(-9)
        } else {
            sign * (1.0 + fraction / 8.0) * 2.0_f32.powi(exponent - 7)
        };
        assert_eq!(decoded(code), expected);
        assert_eq!(encoded(expected), code);
    }
}

#[test]
fn middles_round_to_the_lower_code() {
    for code in 0..0x7e_u8 {
        let middle = (decoded(code) + decoded(code + 1)) / 2.0;
        assert_eq!(encoded(middle), code);
        assert_eq!(encoded(f32::from_bits(middle.to_bits() + 1)), code + 1);
        assert_eq!(encoded(-middle), code + 128);
    }
    assert_eq!(encoded(449.0), 0x7e);
    assert_eq!(encoded(f32::INFINITY), 0x7e);
    assert_eq!(encoded(f32::NEG_INFINITY), 0xfe);
    assert_eq!(encoded(f32::from_bits(0x7fc0_0000)), 0x7e);
    assert_eq!(encoded(f32::MIN_POSITIVE), 0);
    assert_eq!(encoded(-0.0), 128);
}

#[test]
fn signed_bytes_round_away_from_zero() {
    let mut value = -140.0_f32;
    while value <= 140.0 {
        let expected = value.round().clamp(-127.0, 127.0) as i8;
        assert_eq!(f32_to_int8(value.to_bits()) as i8, expected, "{value}");
        value += 0.125;
    }
    assert_eq!(f32_to_int8(0.49999997_f32.to_bits()), 0);
    assert_eq!(f32_to_int8(f32::NAN.to_bits()), 0);
    assert_eq!(f32_to_int8(f32::NEG_INFINITY.to_bits()) as i8, -127);
    assert_eq!(f32_to_int8(f32::MIN_POSITIVE.to_bits()), 0);
}

#[test]
fn halves_widen_like_single_precision() {
    for bits in [0_u16, 0x8000, 0x0001, 0x03ff, 0x0400, 0x3555, 0x7bff, 0xfbff] {
        let sign = if bits < 0x8000 { 1.0 } else { -1.0 };
        let exponent = i32::from(bits / 1024 % 32);
        let fraction = f32::from(bits % 1024);
        let expected = if exponent == 0 {
            sign * fraction * 2.0_f32.powi(-24)
        } else {
            sign * (1.0 + fraction / 1024.0) * 2.0_f32.powi(exponent - 15)
        };
        assert_eq!(f32::from_bits(half_to_f32(bits)), expected);
    }
    assert_eq!(f32::from_bits(half_to_f32(0x7c00)), f32::INFINITY);
    assert!(f32::from_bits(half_to_f32(0x7e00)).is_nan());
    assert_eq!(read_scalar(&[0, 0x3c], 0, 2).unwrap(), 1.0_f32.to_bits());
    assert!(matches!(read_scalar(&[0, 0], 0, 7), Err(EngineError::SourceDtype)));
}

#[test]
fn rows_are_scaled_by_their_largest_number() {
    let tensor = Descriptor { dimension: 3, dtype: 1, ..descriptor(1, "a", 2) };
    let payload: Vec<u8> =
        [4.48_f32, -2.24, 0.0, 0.0, 0.0, 0.0].iter().flat_map(|number| number.to_le_bytes()).collect();
    let payload = Arc::new(payload);
    let encoded = encode_for_profile(&tensor, &payload, ScoringProfile::Fp8E4m3, &divide).unwrap();
    assert_eq!(encoded.len(), 8 + 8);
    assert_eq!(decoded(encoded[0]), 448.0);
    assert_eq!(decoded(encoded[1]), -224.0);
    assert_eq!(encoded[6..8], [0, 0]);
    assert_eq!(f32::from_le_bytes(encoded[8..12].try_into().unwrap()), 4.48 / 448.0);
    assert_eq!(f32::from_le_bytes(encoded[12..16].try_into().unwrap()), 1.0);
    let exact = encode_for_profile(&tensor, &payload, ScoringProfile::ExactFp16, &divide).unwrap();
    assert!(Arc::ptr_eq(&exact, &payload));
    assert!(matches!(
        encode_for_profile(&tensor, &payload, ScoringProfile::Pq, &divide),
        Err(EngineError::EncodingProfile)
    ));
    let short = Arc::new(vec![0_u8; 5]);
    assert!(matches!(
        encode_for_profile(&tensor, &short, ScoringProfile::Int8, &divide),
        Err(EngineError::PayloadLength)
    ));
}

#[test]
fn sizes_and_keys_are_exact() {
    assert_eq!(align_up(5, 4).unwrap(), 8);
    assert_eq!(align_up(8, 4).unwrap(), 8);
    assert!(matches!(align_up(usize::MAX, 4), Err(EngineError::AlignmentOverflow)));
    assert_eq!(scaled_payload_bytes(2, 3).unwrap(), 16);
    assert_eq!(
        gpu_cache_key(&descriptor(1, "a", 9), ScoringProfile::Pq, Some("qtc1-x")),
        "pq-adc-v1:qtc1-x:colqwen35@test:a:9:320:2"
    );
    assert_eq!(
        gpu_cache_key(&descriptor(1, "a", 9), ScoringProfile::Int8, None),
        "int8-row-scale-v1:-:colqwen35@test:a:9:320:2"
    );
}

#[test]
fn prewarming_goes_in_batches() {
    let descriptors: Vec<Descriptor> =
        (0..5).map(|id| descriptor(id, &format!("{id}"), 10)).collect();
    let batches = prewarm_batches(&descriptors, 2).unwrap();
    assert_eq!(batches.len(), 3);
    assert_eq!(batches[2].len(), 1);
    assert_eq!(batches[2][0].candidate_id, 4);
    assert!(matches!(prewarm_batches(&descriptors, 0), Err(EngineError::BatchSize)));
    let missing = resident_tensors(&batches[0], &[100, 200]);
    assert_eq!(missing.len(), 2);
    assert_eq!(missing[1].payload_bytes, 200);
}
