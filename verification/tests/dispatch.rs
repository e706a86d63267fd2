//! Which kernel scores a batch.

use tilemaxsim::dispatch::{
    choose_kernel, choose_tensor, device_thresholds, DispatchInput, DispatchThresholds, KernelKind,
    TensorCalibrationBucket, TensorDispatchInput,
};


fn input(rows: u64) -> DispatchInput {
    DispatchInput {
        query_rows: rows,
        storage_bytes_per_scalar: 2,
        shared_candidate_ratio_milli: 1000,
        tensor_available: true,
        tile_available: true,
    }
}

#[test]
fn dispatches_across_all_shadow_paths() {
    let thresholds = DispatchThresholds {
        cuda_ridge: 64,
        tensor_ridge: 256,
        ..DispatchThresholds::default()
    };
    assert_eq!(choose_kernel(input(32), thresholds), KernelKind::Warp);
    assert_eq!(choose_kernel(input(96), thresholds), KernelKind::Tile);
    assert_eq!(choose_kernel(input(512), thresholds), KernelKind::Tensor);
}

#[test]
fn poor_candidate_overlap_prevents_false_reuse_claims() {
    let mut request = input(512);
    request.shared_candidate_ratio_milli = 100;
    assert_eq!(
        choose_kernel(request, DispatchThresholds::default()),
        KernelKind::Warp
    );
}

#[test]
fn unavailable_kernel_falls_back_deterministically() {
    let mut request = input(1024);
    request.tensor_available = false;
    assert_eq!(
        choose_kernel(request, DispatchThresholds::default()),
        KernelKind::Tile
    );
    request.tile_available = false;
    assert_eq!(
        choose_kernel(request, DispatchThresholds::default()),
        KernelKind::Warp
    );
}

#[test]
fn architecture_table_is_a_conservative_fallback() {
    assert_eq!(
        device_thresholds("NVIDIA H200", 9, 0).unwrap().tensor_ridge,
        206
    );
    assert_eq!(
        device_thresholds("NVIDIA A100", 8, 0).unwrap().tensor_ridge,
        156
    );
    assert_eq!(
        device_thresholds("NVIDIA L40S", 8, 9).unwrap().tensor_ridge,
        424
    );
    assert_eq!(
        device_thresholds("unknown", 8, 9).unwrap().tensor_ridge,
        512
    );
    assert_eq!(
        device_thresholds("NVIDIA GB10", 12, 1)
            .unwrap()
            .tensor_ridge,
        512
    );
    assert!(device_thresholds("legacy", 7, 5).is_none());
}

fn bucket(candidates: u32, groups: u32, threshold: u32) -> TensorCalibrationBucket {
    TensorCalibrationBucket {
        candidate_count: candidates,
        reference_document_rows: 32,
        reference_row_groups: groups,
        reference_max_document_rows: 32,
        reference_row_imbalance_milli: 1000,
        threshold_query_rows: threshold,
        tile_time_ns: 200,
        tensor_time_ns: 100,
        tensor_chunk_candidates: candidates,
    }
}

#[test]
fn tensor_dispatch_uses_candidate_work_and_query_rows() {
    let buckets = [bucket(64, 1, 256), bucket(512, 1, 64)];
    let small = choose_tensor(
        TensorDispatchInput {
            candidate_count: 64,
            total_query_rows: 64,
            total_document_rows: 64 * 32,
            document_row_groups: 1,
            max_document_rows: 32,
            dimension: 320,
        },
        &buckets,
    )
    .unwrap();
    assert!(!small.use_tensor);
    let large = choose_tensor(
        TensorDispatchInput {
            candidate_count: 512,
            total_query_rows: 64,
            total_document_rows: 512 * 32,
            document_row_groups: 1,
            max_document_rows: 32,
            dimension: 320,
        },
        &buckets,
    )
    .unwrap();
    assert!(large.use_tensor);
    assert!(large.estimated_dot_products > small.estimated_dot_products);
}

#[test]
fn tensor_dispatch_selects_a_calibrated_grouping_profile() {
    let buckets = [bucket(512, 1, 64), bucket(512, 8, 256)];
    let decision = choose_tensor(
        TensorDispatchInput {
            candidate_count: 512,
            total_query_rows: 128,
            total_document_rows: 512 * 32,
            document_row_groups: 6,
            max_document_rows: 32,
            dimension: 320,
        },
        &buckets,
    )
    .unwrap();
    assert_eq!(decision.selected_row_groups, 8);
    assert!(!decision.use_tensor);
}

#[test]
fn longer_documents_can_cross_over_without_faking_candidate_count() {
    let buckets = [bucket(64, 1, 256), bucket(512, 1, 64)];
    let decision = choose_tensor(
        TensorDispatchInput {
            candidate_count: 256,
            total_query_rows: 64,
            total_document_rows: 256 * 64,
            document_row_groups: 1,
            max_document_rows: 64,
            dimension: 320,
        },
        &buckets,
    )
    .unwrap();
    assert_eq!(decision.selected_candidate_bucket, 64);
    assert!(decision.use_tensor);
    assert!(decision.estimated_dot_products >= decision.crossover_dot_products);
}

#[test]
fn sparse_long_tail_keeps_the_fragmented_shape_profile() {
    let uniform = bucket(512, 1, 64);
    let mut long_tail = bucket(512, 8, 512);
    long_tail.reference_max_document_rows = 4096;
    long_tail.reference_row_imbalance_milli = 455_000;
    let buckets = [uniform, long_tail];
    let decision = choose_tensor(
        TensorDispatchInput {
            candidate_count: 512,
            total_query_rows: 128,
            total_document_rows: 511 + 4096,
            document_row_groups: 2,
            max_document_rows: 4096,
            dimension: 320,
        },
        &buckets,
    )
    .unwrap();
    assert_eq!(decision.selected_row_groups, 8);
    assert!(!decision.use_tensor);
}

#[test]
fn small_numbers_count_twice() {
    let thresholds = DispatchThresholds { cuda_ridge: 64, tensor_ridge: 256, ..DispatchThresholds::default() };
    let mut request = input(40);
    assert_eq!(choose_kernel(request, thresholds), KernelKind::Warp);
    request.storage_bytes_per_scalar = 1;
    assert_eq!(choose_kernel(request, thresholds), KernelKind::Tile);
    request.query_rows = u64::MAX;
    assert_eq!(choose_kernel(request, thresholds), KernelKind::Tensor);
}

#[test]
fn nothing_is_decided_without_work_or_buckets() {
    let work = TensorDispatchInput {
        candidate_count: 64,
        total_query_rows: 64,
        total_document_rows: 64 * 32,
        document_row_groups: 1,
        max_document_rows: 32,
        dimension: 320,
    };
    assert!(choose_tensor(work, &[]).is_none());
    let buckets = [bucket(64, 1, 64)];
    assert!(choose_tensor(TensorDispatchInput { dimension: 0, ..work }, &buckets).is_none());
    let decision = choose_tensor(work, &buckets).unwrap();
    assert!(decision.use_tensor);
    assert_eq!(decision.estimated_dot_products, 64 * 64 * 32 * 320);
    assert_eq!(decision.crossover_dot_products, 64 * 64 * 32 * 320);
    assert!(!choose_tensor(work, &[bucket(64, 1, u32::MAX)]).unwrap().use_tensor);
}

#[test]
fn one_of_equal_buckets_decides() {
    let wanted = |candidates: usize| TensorDispatchInput {
        candidate_count: candidates,
        total_query_rows: 64,
        total_document_rows: 64 * 32,
        document_row_groups: 1,
        max_document_rows: 32,
        dimension: 320,
    };
    let mut buckets = [bucket(64, 1, 1), bucket(64, 1, 2), bucket(64, 1, 3)];
    for (index, bucket) in buckets.iter_mut().enumerate() {
        bucket.reference_document_rows = 10 + index as u32;
    }
    // The last of the largest that are not above, the first of those above.
    assert_eq!(choose_tensor(wanted(64), &buckets).unwrap().selected_document_rows, 12);
    assert_eq!(choose_tensor(wanted(32), &buckets).unwrap().selected_document_rows, 10);
}
