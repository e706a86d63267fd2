//! How the kernels of a device are measured against each other.

use tilemaxsim::calibration::{
    bucket_layout, calibration_queries, candidate_counts, chunk_choices, decide_control_staging,
    decide_double_buffer, decide_variant, duration_ns, equal_places, finish_bucket, halves,
    identity_payload, largest_rows, material_win, median, observe_chunk, observe_tile,
    observe_warp_rows, paired_medians, paired_order, pq_codebooks, pq_codes, pq_contract,
    pq_queries, row_patterns, selected_tile, sparse_numbers, speedup_milli, tensor_sizes,
    tile_choices, total_rows, warp_row_choices, SearchStep, TensorSearch, VariantDecision,
};

#[test]
fn probes_are_unit_vectors() {
    let payload = identity_payload(3, 2, 2);
    let numbers: Vec<u16> =
        payload.chunks(2).map(|pair| u16::from_le_bytes(pair.try_into().unwrap())).collect();
    assert_eq!(numbers, [0x3c00, 0, 0, 0x3c00, 0x3c00, 0]);
    let (queries, offsets) = calibration_queries(64, 4, 2);
    assert_eq!(queries.len(), 64 * 4 * 2);
    assert_eq!(offsets, [0, 32, 64]);
    assert_eq!(queries[..8], [0, 0x3c, 0, 0, 0, 0, 0, 0]);
    assert_eq!(queries[8..16], [0, 0, 0, 0x3c, 0, 0, 0, 0]);
    let sparse = sparse_numbers(4, 3, 0.5_f32.to_bits());
    assert_eq!(sparse[..4], 0.5_f32.to_le_bytes());
    assert_eq!(sparse[4..12], [0; 8]);
    assert_eq!(sparse[12..], 0.5_f32.to_le_bytes());
    assert_eq!(pq_codes(2, 3), [0, 1, 2, 3, 4, 5]);
    assert_eq!(equal_places(3, 10), [0, 10, 20]);
}

#[test]
fn variants_are_measured_in_turn() {
    assert_eq!(median(&vec![5, 1, 9]), 5);
    assert_eq!(paired_order(2), [false, true, false, true, true, false]);
    let elapsed = [100, 100, 7, 1, 3, 5, 9, 2];
    assert_eq!(paired_medians(&elapsed, 3), (7, 2));
}

#[test]
fn only_material_wins_count() {
    assert!(material_win(100, 94, 95));
    assert!(!material_win(100, 95, 95));
    assert_eq!(speedup_milli(300, 200), 1500);
    assert_eq!(speedup_milli(7, 0), 7000);
    assert_eq!(speedup_milli(u128::MAX, 1), u32::MAX);
    assert_eq!(
        decide_variant(Some((100, 90)), true, 95),
        VariantDecision { use_variant: true, speedup_milli: Some(1111), failed: false }
    );
    assert_eq!(
        decide_variant(Some((100, 90)), false, 95),
        VariantDecision { use_variant: false, speedup_milli: None, failed: true }
    );
    assert_eq!(duration_ns(u128::MAX), u64::MAX);
    assert_eq!(duration_ns(7), 7);
}

#[test]
fn each_variant_has_its_margin() {
    assert!(decide_control_staging(Some((100, 97)), true).use_variant);
    assert!(!decide_control_staging(Some((100, 98)), true).use_variant);
    assert!(decide_double_buffer(Some((100, 94)), true).use_variant);
    assert!(!decide_double_buffer(Some((100, 95)), true).use_variant);
    assert!(decide_control_staging(None, true).failed);
    assert!(decide_double_buffer(Some((100, 1)), false).failed);
}

#[test]
fn measurements_cover_fixed_sizes() {
    assert_eq!(candidate_counts(), [64, 512, 4096]);
    assert_eq!(tile_choices(), [1, 4, 8]);
    assert_eq!(warp_row_choices(), [2, 4, 8]);
    assert_eq!(halves(256), [0, 128, 256]);
    assert_eq!(pq_contract(), "__startup_pq_adc_calibration__");
}

#[test]
fn product_quantization_is_measured_on_sparse_numbers() {
    let codebooks = pq_codebooks();
    assert_eq!(codebooks.len(), 320 * 256 * 4);
    assert_eq!(codebooks[..4], 0.125_f32.to_le_bytes());
    assert_eq!(codebooks[4 * 97..4 * 98], 0.125_f32.to_le_bytes());
    assert_eq!(codebooks[4..4 * 97], [0; 4 * 96]);
    let (queries, offsets) = pq_queries();
    let query: Vec<u8> = (0..32 * 320)
        .flat_map(|index| (if index % 89 == 0 { 0.5_f32 } else { 0.0 }).to_le_bytes())
        .collect();
    assert_eq!(queries, query.repeat(8));
    assert_eq!(offsets, [0, 32, 64, 96, 128, 160, 192, 224, 256]);
}

#[test]
fn search_stops_at_the_first_win() {
    let mut search = TensorSearch::start();
    assert_eq!(search.observe(64, None, true), SearchStep::Failed);
    assert_eq!(search.observe(64, Some((10, 20)), false), SearchStep::Failed);
    assert!(!search.successful);
    assert_eq!(search.observe(256, Some((100, 200)), true), SearchStep::Next);
    assert_eq!(search.threshold, u32::MAX);
    assert_eq!(search.observe(512, Some((100, 90)), true), SearchStep::Found);
    assert_eq!(search.threshold, 512);
    assert_eq!((search.tile_time_ns, search.tensor_time_ns), (100, 90));
    assert_eq!(tensor_sizes(), [64, 256, 512, 1024, 2048]);
}

#[test]
fn chunks_and_tiles_are_preferred_by_time() {
    assert_eq!(chunk_choices(64), [64]);
    assert_eq!(chunk_choices(512), [64, 256, 512]);
    assert_eq!(chunk_choices(4096), [64, 256, 1024, 4096]);
    assert_eq!(chunk_choices(10), [10]);
    assert_eq!(observe_chunk(None, 64, Some(100), true), (Some((64, 100)), false));
    let first = Some((64, 100));
    assert_eq!(observe_chunk(first, 256, Some(99), true), (first, false));
    assert_eq!(observe_chunk(first, 256, Some(97), true), (Some((256, 97)), false));
    assert_eq!(observe_chunk(first, 256, Some(97), false), (first, true));
    assert_eq!(observe_chunk(first, 256, None, true), (first, false));
    let (best, _) = observe_tile(Some((50, 1)), 4, Some(40), true);
    assert_eq!(observe_tile(None, 1, Some(50), true), (Some((50, 1)), false));
    assert_eq!(observe_tile(best, 8, Some(40), true), (Some((40, 4)), false));
    assert_eq!(observe_tile(best, 8, Some(10), false), (best, true));
    assert_eq!(observe_tile(best, 8, None, true), (best, true));
    assert_eq!(selected_tile(best, 1), 4);
    assert_eq!(selected_tile(None, 1), 1);
    assert_eq!(observe_warp_rows(2, 4, Some((100, 90)), true), (4, SearchStep::Next));
    assert_eq!(observe_warp_rows(2, 4, Some((100, 99)), true), (2, SearchStep::Found));
    assert_eq!(observe_warp_rows(2, 4, None, true), (2, SearchStep::Failed));
}

#[test]
fn buckets_are_laid_out_and_finished() {
    let layout = bucket_layout(4, 3, &[1, 2], 1000).unwrap();
    assert_eq!(layout.rows, [1, 2, 1]);
    assert_eq!(layout.offsets, [0, 8, 24]);
    assert!(bucket_layout(4, 3, &[1, 2], 31).is_none());
    assert!(bucket_layout(4, 3, &[1, 2], 32).is_some());
    assert_eq!(largest_rows(&[3, 9, 2]), 9);
    assert_eq!(largest_rows(&[]), 0);
    assert_eq!(total_rows(&[u32::MAX, 1]), 1 << 32);
    let patterns = row_patterns();
    assert_eq!(patterns.len(), 3);
    assert_eq!(patterns[0], [32]);
    assert_eq!(patterns[1], [8, 16, 24, 32, 40, 48, 56, 64]);
    assert_eq!(patterns[2].len(), 32);
    let mut search = TensorSearch::start();
    assert!(finish_bucket(&search, 3, &[1, 2], &layout.rows, 64).is_none());
    search.observe(256, Some((100, 90)), true);
    let bucket = finish_bucket(&search, 3, &[1, 2], &layout.rows, 64).unwrap();
    assert_eq!(bucket.candidate_count, 3);
    assert_eq!(bucket.reference_document_rows, 1);
    assert_eq!(bucket.reference_row_groups, 2);
    assert_eq!(bucket.threshold_query_rows, 256);
    assert_eq!(bucket.tensor_chunk_candidates, 64);
}
