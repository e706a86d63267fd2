//! The backends: which are let in, what they refuse, and what they score.

use tilemaxsim::backend::{
    backend_api_version, conformance_probe, judge_conformance, validate_identity,
    validate_provider, BackendApiVersion, BackendKind, BackendProvider, ConformanceError,
    BACKEND_API_MAJOR, BACKEND_API_MINOR,
};
use tilemaxsim::cpu::{CpuBackend, CpuError};
use tilemaxsim::dispatch::TensorCalibrationBucket;
use tilemaxsim::gpu::{validate_cuda_runtime, BatchDispatch, CudaReport, Gpu, GpuError};
use tilemaxsim::gpu_scores::{
    check_batch as check_gpu_batch, check_documents, finish_batch as finish_gpu_batch,
    finish_pq_batch, finish_pq_scores, finish_scores, BatchPlan,
};
use tilemaxsim::metal::{
    check_output, check_score, describe_metal, finish_batch, metal_status, plan_batch, MetalError,
};
use tilemaxsim::scoring::{batch_scores_close, finite_scores, split_scores};
use tilemaxsim::vulkan::{
    check_arena_limit, check_batch, check_uploads, describe_adapter, pad_payload, pick_adapter,
    plan_score, read_numbers, shape_bytes, short_hex, tensor_arena, AdapterKind, VulkanError,
    VulkanLimits,
};

struct InvalidProvider {
    name: &'static str,
    version: BackendApiVersion,
}

impl BackendProvider for InvalidProvider {
    fn name(&self) -> &'static str {
        self.name
    }

    fn api_version(&self) -> BackendApiVersion {
        self.version
    }
}

#[test]
fn rejects_incompatible_major_before_device_creation() {
    let provider = InvalidProvider {
        name: "example",
        version: BackendApiVersion { major: 2, minor: 0 },
    };
    assert!(validate_provider(&provider).is_err());
}

#[test]
fn accepts_newer_minor_within_the_same_major() {
    let provider = InvalidProvider {
        name: "example",
        version: BackendApiVersion {
            major: BACKEND_API_MAJOR,
            minor: BACKEND_API_MINOR + 1,
        },
    };
    validate_provider(&provider).unwrap();
}

#[test]
fn rejects_names_that_cannot_be_safe_structured_labels() {
    let provider = InvalidProvider {
        name: "bad provider\n",
        version: backend_api_version(),
    };
    assert!(validate_provider(&provider).is_err());
}

struct CurrentProvider;

impl BackendProvider for CurrentProvider {
    fn name(&self) -> &'static str {
        "current"
    }
}

#[test]
fn providers_keep_the_version_of_the_daemon_unless_they_say_otherwise() {
    assert_eq!(CurrentProvider.api_version(), backend_api_version());
    assert_eq!(CurrentProvider.api_version(), BackendApiVersion { major: 1, minor: 1 });
    validate_provider(&CurrentProvider).unwrap();
}

#[test]
fn refused_providers_are_told_why() {
    let version = BackendApiVersion { major: 2, minor: 7 };
    assert_eq!(
        validate_identity("example", version).unwrap_err().message(),
        "accelerator provider example uses backend API 2.7, but this daemon requires 1.x"
    );
    assert_eq!(
        validate_identity("", backend_api_version()).unwrap_err().message(),
        "accelerator provider name must be a non-empty token of at most 128 bytes"
    );
    assert!(validate_identity(&"x".repeat(128), backend_api_version()).is_ok());
    assert!(validate_identity(&"x".repeat(129), backend_api_version()).is_err());
}

fn number(bytes: &[u8], at: usize) -> f32 {
    f32::from_le_bytes(bytes[at..at + 4].try_into().unwrap())
}

/// The product of two rows of single-precision numbers.
fn product(left: &[u8], left_at: usize, right: &[u8], right_at: usize, dimension: usize) -> u32 {
    let mut sum = 0.0_f32;
    for column in 0..dimension {
        sum += number(left, left_at + 4 * column) * number(right, right_at + 4 * column);
    }
    sum.to_bits()
}

fn larger(left: u32, right: u32) -> u32 {
    f32::from_bits(left).max(f32::from_bits(right)).to_bits()
}

fn plus(left: u32, right: u32) -> u32 {
    (f32::from_bits(left) + f32::from_bits(right)).to_bits()
}

fn bytes(numbers: &[f32]) -> Vec<u8> {
    numbers.iter().flat_map(|number| number.to_le_bytes()).collect()
}

fn cpu() -> CpuBackend {
    CpuBackend::create(0, 4096, 1024, 8, "x86_64", "cpu-scalar").unwrap()
}

fn cpu_score(cpu: &CpuBackend, query: &[u8], profile: u8, offsets: &[u64], rows: &[u32]) -> Result<Vec<f32>, CpuError> {
    let arena = &cpu.arena;
    let dot = |left: usize, right: usize| product(query, left, arena, right, 2);
    cpu.score(query, (query.len() / 8) as u32, 2, 1, profile, offsets, rows, &dot, &larger, &plus)
        .map(|scores| scores.into_iter().map(f32::from_bits).collect())
}

#[test]
fn exact_reference_scores_maxsim() {
    let mut cpu = cpu();
    let payload = bytes(&[1.0, 0.0, 0.0, 1.0]);
    cpu.upload_batch(&[(0, &payload)]).unwrap();
    let query = bytes(&[1.0, 0.0, 0.5, 0.5]);
    assert_eq!(cpu_score(&cpu, &query, 1, &[0], &[2]).unwrap(), vec![1.5]);
    assert!(cpu.info.capabilities.supports_profile(1));
    assert!(!cpu.info.capabilities.supports_profile(2));
    assert!(!cpu.info.capabilities.supports_profile(5));
}

#[test]
fn cpu_passes_vendor_neutral_conformance_probe() {
    let mut cpu = cpu();
    let probe = conformance_probe(&cpu.info).unwrap();
    cpu.upload_batch(&[(0, &probe.document)]).unwrap();
    let score = cpu_score(&cpu, &probe.query, 1, &[0], &[2]).unwrap()[0];
    let close = |left: u32, right: u32| {
        (f32::from_bits(left) - f32::from_bits(right)).abs() <= 1.0e-5
    };
    let report = judge_conformance(&cpu.info, score.to_bits(), &close).unwrap();
    assert_eq!(report.backend, BackendKind::Cpu);
    assert_eq!(report.exact_fp32_score, report.expected_score);
    let drifted = 1.25_f32.to_bits();
    assert_eq!(
        judge_conformance(&cpu.info, drifted, &close).err(),
        Some(ConformanceError::Mismatch { received: drifted })
    );
    assert!(judge_conformance(&cpu.info, f32::NAN.to_bits(), &|_: u32, _: u32| true).is_err());
    cpu.info.capabilities.exact_fp32 = false;
    assert_eq!(conformance_probe(&cpu.info).err(), Some(ConformanceError::Unsupported));
}

#[test]
fn cpu_refuses_what_does_not_fit() {
    assert_eq!(CpuBackend::create(1, 4096, 1024, 8, "a", "b").err(), Some(CpuError::Ordinal));
    assert_eq!(CpuBackend::create(0, 4096, 4096, 8, "a", "b").err(), Some(CpuError::Arena));
    let mut cpu = cpu();
    assert_eq!(cpu.tensor_bytes, 3072);
    assert_eq!(cpu.ensure_quantizer(), Err(CpuError::Quantized));
    assert!(cpu.adaptive_status().calibration_complete);
    assert_eq!(cpu.upload_batch(&[(4095, &[1, 2])]), Err(CpuError::UploadBounds));
    assert_eq!(cpu.upload_batch(&[(u64::MAX, &[1])]), Err(CpuError::UploadRange));
    let query = bytes(&[1.0, 0.0]);
    assert_eq!(cpu_score(&cpu, &query, 2, &[0], &[2]), Err(CpuError::Profile));
    assert_eq!(cpu_score(&cpu, &query, 1, &[], &[]), Err(CpuError::Metadata));
    assert_eq!(cpu_score(&cpu, &query, 1, &[4095], &[2]), Err(CpuError::DocumentBounds));
    let none = |_: usize, _: usize| 0_u32;
    assert_eq!(
        cpu.score(&query, 1, 2, 9, 1, &[0], &[1], &none, &larger, &plus),
        Err(CpuError::QueryDtype)
    );
    assert_eq!(
        cpu.score(&query, 2, 2, 1, 1, &[0], &[1], &none, &larger, &plus),
        Err(CpuError::QueryShape)
    );
    assert_eq!(
        cpu.score_batch(&query, &[0, 1], 2, 1, 4, &[0], &[1], &none, &larger, &plus),
        Err(CpuError::QuantizedBatch)
    );
    assert_eq!(CpuError::Quantized.message(), "CPU backend does not support PQ-family profiles");
}

#[test]
fn cpu_batches_score_like_single_requests() {
    let mut cpu = cpu();
    cpu.upload_batch(&[(0, &bytes(&[1.0, 0.0, 0.0, 1.0])), (64, &bytes(&[2.0, 2.0]))]).unwrap();
    let queries = bytes(&[1.0, 0.0, 0.5, 0.5, 3.0, 4.0]);
    let arena = &cpu.arena;
    let dot = |left: usize, right: usize| product(&queries, left, arena, right, 2);
    let scores = cpu
        .score_batch(&queries, &[0, 2, 3], 2, 1, 1, &[0, 64], &[2, 1], &dot, &larger, &plus)
        .unwrap();
    let scores: Vec<Vec<f32>> =
        scores.into_iter().map(|row| row.into_iter().map(f32::from_bits).collect()).collect();
    assert_eq!(scores, [vec![1.5, 4.0], vec![4.0, 14.0]]);
}

fn close(left: u32, right: u32) -> bool {
    let left = f32::from_bits(left);
    let right = f32::from_bits(right);
    (left - right).abs() <= 2.0e-3 * (1.0 + left.abs().max(right.abs()))
}

fn bits(numbers: &[f32]) -> Vec<u32> {
    numbers.iter().map(|number| number.to_bits()).collect()
}

#[test]
fn adaptive_comparison_rejects_material_score_drift() {
    assert!(batch_scores_close(&vec![bits(&[1.0, 2.0])], &vec![bits(&[1.001, 2.001])], &close));
    assert!(!batch_scores_close(&vec![bits(&[1.0])], &vec![bits(&[1.1])], &close));
    assert!(!batch_scores_close(&vec![bits(&[1.0])], &vec![bits(&[1.0, 1.0])], &close));
    assert!(!batch_scores_close(&vec![bits(&[1.0])], &vec![], &close));
}

#[test]
fn scores_are_split_into_rows() {
    assert_eq!(split_scores(&[1, 2, 3, 4, 5, 6], 2), [vec![1, 2], vec![3, 4], vec![5, 6]]);
    assert_eq!(split_scores(&[1, 2, 3], 2), [vec![1, 2]]);
    assert!(finite_scores(&bits(&[0.0, -1.5, f32::MAX])));
    assert!(!finite_scores(&bits(&[0.0, f32::NEG_INFINITY])));
    assert!(!finite_scores(&bits(&[f32::NAN])));
}

#[test]
fn runtime_gate_matches_published_cuda_artifacts() {
    assert!(validate_cuda_runtime(0, 0, 8, 12_060).is_ok());
    assert!(validate_cuda_runtime(0, 0, 9, 12_060).is_ok());
    assert!(validate_cuda_runtime(0, 0, 12, 13_030).is_ok());
    assert!(validate_cuda_runtime(1, 0, 9, 13_030).is_err());
    assert!(validate_cuda_runtime(0, 1, 9, 13_030).is_err());
    assert!(validate_cuda_runtime(0, 0, 7, 12_060).is_err());
    assert!(validate_cuda_runtime(0, 0, 10, 12_060).is_err());
    assert!(validate_cuda_runtime(0, 0, 12, 12_060).is_err());
}

fn report() -> CudaReport {
    CudaReport {
        device: 3,
        tensor_bytes: 1 << 20,
        name: Some("NVIDIA H200".to_owned()),
        capability_status: 0,
        major: 9,
        minor: 0,
        info_status: 0,
        driver_version: 12_080,
        runtime_version: 12_060,
        library_version: 120_600,
        total_memory_bytes: 1 << 30,
        multiprocessors: 132,
        warp_size: 32,
        memory_bus_width_bits: 6144,
        memory_clock_khz: 0,
        shared_memory_per_block_bytes: 49_152,
        compute_stream_priority: -5,
        persisting_l2_bytes: 0,
        matrix_engine_workspace_bytes: 4096,
    }
}

#[test]
fn devices_are_described() {
    let gpu = Gpu::create(report()).unwrap();
    assert_eq!(gpu.device, 3);
    assert_eq!(gpu.tensor_bytes(), 1 << 20);
    assert_eq!(gpu.tensor_threshold_rows, 206);
    assert_eq!(gpu.info.architecture, "sm_90");
    assert_eq!(gpu.info.tuning_profile, "cuda-hopper");
    assert_eq!(gpu.info.document_tile_query_rows, Some(64));
    assert_eq!(gpu.info.memory_clock_khz, None);
    assert_eq!(gpu.info.persisting_l2_bytes, None);
    assert_eq!(gpu.info.matrix_engine_workspace_bytes, Some(4096));
    assert_eq!(gpu.info.compute_queue_priority, Some(-5));
    assert!(gpu.info.capabilities.matrix_engine);
    assert!(!gpu.info.capabilities.persisting_l2);
    assert!(!gpu.adaptive_status(7).calibration_complete);
    assert_eq!(gpu.adaptive_status(7).tensor_chunk_candidates, 7);

    assert_eq!(Gpu::create(CudaReport { name: None, ..report() }).err(), Some(GpuError::Identity));
    let error = Gpu::create(CudaReport { major: 12, ..report() }).err().unwrap();
    assert_eq!(
        error.message(),
        "Blackwell-class CUDA devices require the CUDA 13 tilemaxsimd image; the loaded runtime reports 12060"
    );
    assert_eq!(
        GpuError::Runtime(-1).message(),
        "Blackwell-class CUDA devices require the CUDA 13 tilemaxsimd image; the loaded runtime reports -1"
    );
    let ada = Gpu::create(CudaReport { major: 8, minor: 9, ..report() }).unwrap();
    assert_eq!(ada.info.tuning_profile, "cuda-ada");
    assert_eq!(ada.info.document_tile_query_rows, Some(32));
}

#[test]
fn batches_are_dispatched_by_calibration() {
    let mut gpu = Gpu::create(report()).unwrap();
    let rows = [32_u32; 64];
    let none = BatchDispatch { use_tensor: false, chunk: None };
    assert_eq!(gpu.dispatch_batch(&[0, 100, 205], 320, 2, 1, 64, &rows), none);
    assert_eq!(
        gpu.dispatch_batch(&[0, 100, 206], 320, 2, 1, 64, &rows),
        BatchDispatch { use_tensor: true, chunk: Some(64) }
    );
    assert_eq!(gpu.dispatch_batch(&[0, 100, 206], 320, 1, 1, 64, &rows), none);
    assert_eq!(gpu.dispatch_batch(&[0, 100, 206], 320, 2, 2, 64, &rows), none);
    assert_eq!(gpu.dispatch_batch(&[], 320, 2, 1, 64, &rows), none);

    let bucket = TensorCalibrationBucket {
        candidate_count: 64,
        reference_document_rows: 32,
        reference_row_groups: 1,
        reference_max_document_rows: 32,
        reference_row_imbalance_milli: 1000,
        threshold_query_rows: 64,
        tile_time_ns: 2,
        tensor_time_ns: 1,
        tensor_chunk_candidates: 0,
    };
    gpu.finish_buckets(vec![bucket, TensorCalibrationBucket { threshold_query_rows: 512, candidate_count: 4096, ..bucket }]);
    assert_eq!(gpu.tensor_threshold_rows, 64);
    assert!(gpu.calibration_complete);
    assert_eq!(
        gpu.dispatch_batch(&[0, 32, 64], 320, 2, 1, 64, &rows),
        BatchDispatch { use_tensor: true, chunk: Some(1) }
    );
    gpu.tensor_succeeded();
    gpu.tensor_failed();
    gpu.count_tile_batch();
    assert_eq!(gpu.dispatch_batch(&[0, 32, 64], 320, 2, 1, 64, &rows), none);
    let status = gpu.adaptive_status(1);
    assert_eq!(status.batch_matrix_calls, 1);
    assert_eq!(status.batch_vector_calls, 1);
    assert_eq!(status.calibration_failures, 1);
    assert_eq!(status.tensor_threshold_rows, u32::MAX);
    assert!(!gpu.needs_calibration());
    let before = gpu.tensor_calibration_buckets.len();
    gpu.finish_buckets(Vec::new());
    assert!(!gpu.calibration_complete);
    assert_eq!(gpu.tensor_calibration_buckets.len(), before);
}

#[test]
fn tuning_is_recorded() {
    let mut gpu = Gpu::create(report()).unwrap();
    assert!(gpu.double_buffer_fits(320));
    assert!(!gpu.double_buffer_fits(20_000));
    let decision = tilemaxsim::calibration::decide_variant(Some((1000, 900)), true, 98);
    assert!(gpu.finish_control_staging(decision));
    assert_eq!(gpu.info.control_staging_speedup_milli, Some(1111));
    let decision = tilemaxsim::calibration::decide_variant(None, true, 95);
    assert!(!gpu.finish_double_buffer(decision));
    assert_eq!(gpu.info.double_buffer_speedup_milli, None);
    assert_eq!(gpu.calibration_failures, 1);
    gpu.finish_tuning(4, 8, true, false);
    assert_eq!(gpu.info.document_tile_query_rows, Some(32));
    assert_eq!(gpu.info.pq_warp_task_max_document_rows, Some(8));
    gpu.finish_tuning(u32::MAX, 8, true, false);
    assert_eq!(gpu.info.document_tile_query_rows, None);
    gpu.count_run();
    gpu.count_failure();
    assert_eq!((gpu.calibration_runs, gpu.calibration_failures), (1, 2));
}

#[test]
fn inactive_quantizers_are_handed_out() {
    let mut gpu = Gpu::create(report()).unwrap();
    assert!(gpu.needs_quantizer("a"));
    gpu.ensure_quantizer("a", 1);
    gpu.ensure_quantizer("a", 9);
    gpu.ensure_quantizer("b", 2);
    assert_eq!(gpu.quantizer("a"), Some(1));
    let removed = gpu.retain_quantizers(&["b".to_owned()]);
    assert_eq!(removed, [("a".to_owned(), 1)]);
    assert_eq!(gpu.quantizer("a"), None);
    assert_eq!(gpu.quantizer("b"), Some(2));
}

#[test]
fn gpu_requests_are_checked() {
    assert_eq!(check_documents(2, 2), Ok(()));
    assert_eq!(check_documents(0, 0), Err(GpuError::Metadata));
    assert_eq!(finish_scores(bits(&[1.0])), Ok(bits(&[1.0])));
    assert_eq!(finish_scores(bits(&[f32::NAN])), Err(GpuError::NonFinite));
    assert_eq!(finish_pq_scores(bits(&[f32::NAN])), Err(GpuError::PqNonFinite));
    assert_eq!(finish_gpu_batch(&[1, 2, 3, 4], 2), Ok(vec![vec![1, 2], vec![3, 4]]));
    assert_eq!(finish_gpu_batch(&bits(&[f32::NAN]), 1), Err(GpuError::BatchNonFinite));
    assert_eq!(finish_pq_batch(&bits(&[f32::NAN]), 1), Err(GpuError::PqBatchNonFinite));
    assert_eq!(check_gpu_batch(true, 1, &[0, 1, 2], 5), Err(GpuError::TensorDtype));
    assert_eq!(check_gpu_batch(false, 1, &[0, 1], 5), Err(GpuError::BatchOffsets));
    assert_eq!(check_gpu_batch(false, 1, &[1, 1, 2], 5), Err(GpuError::BatchOffsets));
    let plan = BatchPlan { requests: 2, query_rows: 7, outputs: 10 };
    assert_eq!(check_gpu_batch(true, 2, &[0, 3, 7], 5), Ok(plan));

    let mut gpu = Gpu::create(report()).unwrap();
    assert_eq!(gpu.check_pq("a", 1, 1), Err(GpuError::NoQuantizer));
    gpu.ensure_quantizer("a", 4);
    assert_eq!(gpu.check_pq("a", 1, 2), Err(GpuError::PqMetadata));
    assert_eq!(gpu.check_pq("a", 1, 1), Ok(4));
    let batch = |gpu: &Gpu, queries: usize, dtype: u8, offsets: &[u32], documents: usize, rows: usize| {
        gpu.check_pq_batch("a", queries, offsets, 2, dtype, documents, rows)
    };
    assert_eq!(batch(&gpu, 56, 1, &[0, 1], 5, 5), Err(GpuError::PqBatchOffsets));
    assert_eq!(batch(&gpu, 56, 3, &[0, 3, 7], 5, 5), Err(GpuError::PqBatchDtype));
    assert_eq!(batch(&gpu, 55, 1, &[0, 3, 7], 5, 5), Err(GpuError::PqBatchShape));
    assert_eq!(batch(&gpu, 56, 1, &[0, 3, 7], 5, 4), Err(GpuError::PqBatchMetadata));
    assert_eq!(batch(&gpu, 56, 1, &[0, 3, 7], 5, 5), Ok((4, plan)));
    assert_eq!(batch(&gpu, 28, 2, &[0, 3, 7], 5, 5), Ok((4, plan)));
    assert_eq!(
        gpu.check_pq_batch("b", 0, &[], 2, 1, 0, 0),
        Err(GpuError::NoQuantizer)
    );
}

#[test]
fn validates_shapes_without_a_device() {
    assert!(shape_bytes(0, 320, 2).is_err());
    assert!(shape_bytes(1, 0, 2).is_err());
    assert!(shape_bytes(1, 320, 3).is_err());
    assert!(shape_bytes(u32::MAX, u32::MAX, 1).is_err());
    assert_eq!(shape_bytes(3, 5, 2).unwrap(), 30);
}

fn limits() -> VulkanLimits {
    VulkanLimits {
        max_buffer_size: 1 << 20,
        max_storage_buffer_binding_size: 1 << 20,
        max_compute_workgroups_per_dimension: 100,
    }
}

#[test]
fn vulkan_devices_are_picked_and_described() {
    assert_eq!(tensor_arena(-1, 10, 5), Err(VulkanError::Ordinal));
    assert_eq!(tensor_arena(0, 10, 10), Err(VulkanError::Arena));
    assert_eq!(tensor_arena(0, 11, 5), Err(VulkanError::Alignment));
    assert_eq!(tensor_arena(0, 12, 4), Ok(8));
    let kinds = [AdapterKind::Other, AdapterKind::Integrated, AdapterKind::Discrete];
    assert_eq!(pick_adapter(&kinds, 0, false), Ok(1));
    assert_eq!(pick_adapter(&kinds, 1, false), Ok(2));
    assert_eq!(pick_adapter(&kinds, 2, false), Err(VulkanError::NoAdapter(2)));
    assert_eq!(pick_adapter(&kinds, 2, true), Ok(2));
    assert!(VulkanError::NoAdapter(2).message().starts_with("no hardware Vulkan adapter at ordinal 2;"));
    assert_eq!(check_arena_limit(1 << 20, &limits()), Ok(()));
    assert_eq!(
        check_arena_limit((1 << 20) + 4, &limits()),
        Err(VulkanError::ArenaLimit(1 << 20))
    );
    assert_eq!(short_hex(0), "0000");
    assert_eq!(short_hex(0x1_0000), "10000");
    assert_eq!(short_hex(0x10de), "10de");
    assert_eq!(short_hex(0xffff_ffff), "ffffffff");
    let info = describe_adapter(1, "GPU", 0x10de, 0x2684, "nvidia", "550", false);
    assert_eq!(info.backend, BackendKind::Vulkan);
    assert_eq!(info.ordinal, 1);
    assert_eq!(info.name, "GPU");
    assert!(info.architecture.contains("10de"));
}

#[test]
fn vulkan_uploads_and_requests_are_checked() {
    assert_eq!(check_uploads(&[(2, &[0])], 64), Err(VulkanError::UploadAlignment));
    assert_eq!(check_uploads(&[(0, &[0; 61])], 60), Err(VulkanError::UploadBounds));
    assert_eq!(check_uploads(&[(0, &[0; 61])], 64), Ok(()));
    assert_eq!(pad_payload(&[1, 2, 3, 4, 5]), [1, 2, 3, 4, 5, 0, 0, 0]);
    assert_eq!(read_numbers(&[1, 0, 0, 0, 2, 1, 0, 0, 9]), [1, 258]);
    let query = [0_u8; 16];
    let plan = |profile: u8, offsets: &[u64], rows: &[u32], workspace: usize| {
        plan_score(&query, 2, 4, 2, profile, offsets, rows, 64, workspace, &limits())
    };
    let good = plan(1, &[0, 8], &[1, 2], 4096).unwrap();
    assert_eq!(good.query, query);
    assert_eq!(good.metadata, [0, 0, 0, 0, 1, 0, 0, 0, 8, 0, 0, 0, 2, 0, 0, 0]);
    assert_eq!(good.output_bytes, 16);
    assert_eq!(plan(2, &[0], &[1], 4096).err(), Some(VulkanError::Profile));
    assert_eq!(plan(1, &[], &[], 4096).err(), Some(VulkanError::Metadata));
    assert_eq!(plan(1, &[0], &[1], 10).err(), Some(VulkanError::Workspace));
    assert_eq!(plan(1, &[60], &[1], 4096).err(), Some(VulkanError::DocumentRange));
    assert_eq!(plan(1, &[1], &[1], 4096).err(), Some(VulkanError::DocumentRange));
    assert_eq!(plan(1, &[0; 101], &[1; 101], 4096).err(), Some(VulkanError::Dispatch));
    assert_eq!(
        plan_score(&query, 3, 4, 2, 1, &[0], &[1], 64, 4096, &limits()).err(),
        Some(VulkanError::QueryShape)
    );
    assert_eq!(check_batch(&query, &[0, 1, 2], 4, 2), Ok(8));
    assert_eq!(check_batch(&query, &[0, 2, 1], 4, 2), Err(VulkanError::BatchOffsets));
    assert_eq!(check_batch(&query, &[0, 1, 3], 4, 2), Err(VulkanError::BatchShape));
}

#[test]
fn metal_requests_are_checked() {
    let info = describe_metal(0, "M3", 0);
    assert_eq!(info.total_memory_bytes, None);
    assert_eq!(info.architecture, "apple-gpu");
    assert_eq!(describe_metal(0, "M3", 9).total_memory_bytes, Some(9));
    assert!(!metal_status().calibration_complete);
    assert_eq!(check_score(2, &[0], &[1]), Err(MetalError::Profile));
    assert_eq!(check_score(1, &[0], &[]), Err(MetalError::Metadata));
    assert_eq!(check_score(1, &[0], &[1]), Ok(()));
    assert_eq!(check_output(&bits(&[f32::NAN])), Err(MetalError::NonFinite));
    assert_eq!(plan_batch(&[0, 1, 2], 4, &[0], &[1]), Err(MetalError::QuantizedBatch));
    assert_eq!(plan_batch(&[0, 1], 1, &[0], &[1]), Err(MetalError::BatchOffsets));
    assert_eq!(plan_batch(&[0, 1, 2], 1, &[], &[]), Err(MetalError::BatchMetadata));
    assert_eq!(plan_batch(&[0, 1, 2], 1, &[0, 8], &[1, 1]), Ok(4));
    assert_eq!(finish_batch(&[1, 2, 3, 4], 2), Ok(vec![vec![1, 2], vec![3, 4]]));
    assert_eq!(finish_batch(&bits(&[f32::NAN]), 1), Err(MetalError::BatchNonFinite));
}

#[test]
fn vulkan_scores_are_sums_of_products() {
    let products = bits(&[1.0, 2.0, 3.5, -4.0]);
    assert_eq!(tilemaxsim::vulkan::finish_scores(&products, 2, &plus), Ok(bits(&[3.0, -0.5])));
    assert_eq!(tilemaxsim::vulkan::finish_scores(&products, 4, &plus), Ok(bits(&[2.5])));
    assert_eq!(
        tilemaxsim::vulkan::finish_scores(&bits(&[1.0, f32::NEG_INFINITY]), 2, &plus),
        Err(VulkanError::NonFinite)
    );
}
