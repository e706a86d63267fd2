//! The CUDA backend, but for the device itself: which devices are let in, what
//! calibration makes of them, and which kernel scores a batch.

use crate::backend::{AdaptiveStatus, BackendCapabilities, BackendKind, DeviceInfo, DeviceInfoView};
use crate::bytes::{to_unsigned32, unsigned32};
use crate::calibration::{
    capped32, largest_rows, most_rows, sum_rows, total_rows, VariantDecision,
};
use crate::dispatch::{
    choose_tensor, cuda_ridge_of, decision_of, device_thresholds, has_work, is_selected,
    tensor_ridge_of, TensorCalibrationBucket, TensorDispatchDecision, TensorDispatchInput,
};
use crate::quant::listed;
use crate::table::Table;
use crate::text::{append_decimal, decimal_text, same_text};
use std::collections::HashSet;
use vstd::prelude::*;
use vstd::string::StringExecFns;

verus! {

/// Why the backend refuses.
#[derive(Clone, Copy, Debug, PartialEq, Eq, Structural)]
pub enum GpuError {
    NullArena,
    Identity,
    Capability,
    DeviceInfo,
    TooOld,
    Runtime(i32),
    Metadata,
    NonFinite,
    NoQuantizer,
    PqMetadata,
    PqNonFinite,
    PqBatchOffsets,
    PqBatchDtype,
    PqBatchOverflow,
    PqBatchShape,
    PqBatchMetadata,
    PqBatchNonFinite,
    TensorDtype,
    BatchOffsets,
    BatchSize,
    BatchNonFinite,
}

/// A number with its sign.
pub open spec fn signed_text(value: i32) -> Seq<char> {
    if value < 0 {
        "-"@ + decimal_text((-value) as nat)
    } else {
        decimal_text(value as nat)
    }
}

fn append_signed(text: &mut String, value: i32)
    ensures
        final(text)@ == old(text)@ + signed_text(value),
{
    if value < 0 {
        text.append("-");
        append_decimal(text, (0 - value as i64) as u64);
    } else {
        append_decimal(text, value as u64);
    }
    assert(text@ =~= old(text)@ + signed_text(value));
}

impl GpuError {
    pub open spec fn message_text(self) -> Seq<char> {
        match self {
            GpuError::NullArena => "CUDA returned a null arena"@,
            GpuError::Identity => "unable to determine CUDA device identity"@,
            GpuError::Capability => "unable to determine CUDA compute capability"@,
            GpuError::DeviceInfo =>
                "unable to determine CUDA driver, runtime, or device capabilities"@,
            GpuError::TooOld =>
                "CUDA backend requires compute capability 8.0 or newer; use the CPU backend on this device"@,
            GpuError::Runtime(version) =>
                "Blackwell-class CUDA devices require the CUDA 13 tilemaxsimd image; the loaded runtime reports "@
                + signed_text(version),
            GpuError::Metadata => "invalid native document metadata"@,
            GpuError::NonFinite => "native TileMaxSim returned a non-finite score"@,
            GpuError::NoQuantizer => "PQ quantizer is not resident on this GPU"@,
            GpuError::PqMetadata => "invalid PQ document metadata"@,
            GpuError::PqNonFinite => "native PQ TileMaxSim returned a non-finite score"@,
            GpuError::PqBatchOffsets => "invalid PQ batch query offsets"@,
            GpuError::PqBatchDtype => "unsupported PQ batch query dtype"@,
            GpuError::PqBatchOverflow => "PQ batch query shape overflows address space"@,
            GpuError::PqBatchShape => "PQ batch query byte length disagrees with its shape"@,
            GpuError::PqBatchMetadata => "invalid PQ batch document metadata"@,
            GpuError::PqBatchNonFinite => "native PQ batch TileMaxSim returned a non-finite score"@,
            GpuError::TensorDtype => "Tensor Core TileMaxSim currently requires FP16 queries"@,
            GpuError::BatchOffsets => "a native multi-query batch requires at least two queries"@,
            GpuError::BatchSize => "too many batched queries"@,
            GpuError::BatchNonFinite =>
                "native multi-query TileMaxSim returned a non-finite score"@,
        }
    }

    /// The error in words.
    pub fn message(self) -> (text: String)
        ensures
            text@ == self.message_text(),
    {
        match self {
            GpuError::NullArena => "CUDA returned a null arena".to_owned(),
            GpuError::Identity => "unable to determine CUDA device identity".to_owned(),
            GpuError::Capability => "unable to determine CUDA compute capability".to_owned(),
            GpuError::DeviceInfo =>
                "unable to determine CUDA driver, runtime, or device capabilities".to_owned(),
            GpuError::TooOld =>
                "CUDA backend requires compute capability 8.0 or newer; use the CPU backend on this device".to_owned(),
            GpuError::Runtime(version) => {
                let mut text: String =
                    "Blackwell-class CUDA devices require the CUDA 13 tilemaxsimd image; the loaded runtime reports ".to_owned();
                append_signed(&mut text, version);
                text
            },
            GpuError::Metadata => "invalid native document metadata".to_owned(),
            GpuError::NonFinite => "native TileMaxSim returned a non-finite score".to_owned(),
            GpuError::NoQuantizer => "PQ quantizer is not resident on this GPU".to_owned(),
            GpuError::PqMetadata => "invalid PQ document metadata".to_owned(),
            GpuError::PqNonFinite => "native PQ TileMaxSim returned a non-finite score".to_owned(),
            GpuError::PqBatchOffsets => "invalid PQ batch query offsets".to_owned(),
            GpuError::PqBatchDtype => "unsupported PQ batch query dtype".to_owned(),
            GpuError::PqBatchOverflow => "PQ batch query shape overflows address space".to_owned(),
            GpuError::PqBatchShape =>
                "PQ batch query byte length disagrees with its shape".to_owned(),
            GpuError::PqBatchMetadata => "invalid PQ batch document metadata".to_owned(),
            GpuError::PqBatchNonFinite =>
                "native PQ batch TileMaxSim returned a non-finite score".to_owned(),
            GpuError::TensorDtype =>
                "Tensor Core TileMaxSim currently requires FP16 queries".to_owned(),
            GpuError::BatchOffsets =>
                "a native multi-query batch requires at least two queries".to_owned(),
            GpuError::BatchSize => "too many batched queries".to_owned(),
            GpuError::BatchNonFinite =>
                "native multi-query TileMaxSim returned a non-finite score".to_owned(),
        }
    }
}

/// What a CUDA device reports of itself.
pub struct CudaReport {
    pub device: i32,
    pub tensor_bytes: usize,
    pub name: Option<String>,
    pub capability_status: i32,
    pub major: i32,
    pub minor: i32,
    pub info_status: i32,
    pub driver_version: i32,
    pub runtime_version: i32,
    pub library_version: i32,
    pub total_memory_bytes: u64,
    pub multiprocessors: i32,
    pub warp_size: i32,
    pub memory_bus_width_bits: i32,
    pub memory_clock_khz: i32,
    pub shared_memory_per_block_bytes: u64,
    pub compute_stream_priority: i32,
    pub persisting_l2_bytes: u64,
    pub matrix_engine_workspace_bytes: u64,
}

/// Why a device is not let in.
pub open spec fn runtime_fault(
    capability_status: i32,
    info_status: i32,
    major: i32,
    runtime_version: i32,
) -> Option<GpuError> {
    if capability_status != 0 {
        Some(GpuError::Capability)
    } else if info_status != 0 {
        Some(GpuError::DeviceInfo)
    } else if major < 8 {
        Some(GpuError::TooOld)
    } else if major >= 10 && runtime_version < 13_000 {
        Some(GpuError::Runtime(runtime_version))
    } else {
        None
    }
}

/// Tests whether the published kernels run on a device.
pub fn validate_cuda_runtime(
    capability_status: i32,
    info_status: i32,
    major: i32,
    runtime_version: i32,
) -> (result: Result<(), GpuError>)
    ensures
        match result {
            Ok(()) => runtime_fault(capability_status, info_status, major, runtime_version) is None,
            Err(error) => runtime_fault(capability_status, info_status, major, runtime_version)
                == Some(error),
        },
{
    if capability_status != 0 {
        return Err(GpuError::Capability);
    }
    if info_status != 0 {
        return Err(GpuError::DeviceInfo);
    }
    if major < 8 {
        return Err(GpuError::TooOld);
    }
    if major >= 10 && runtime_version < 13_000 {
        return Err(GpuError::Runtime(runtime_version));
    }
    Ok(())
}

/// The query rows from which the matrix engine is tried.
pub open spec fn threshold_of(name: Seq<char>, major: i32, minor: i32) -> u32 {
    match (tensor_ridge_of(name, major, minor), cuda_ridge_of(major, minor)) {
        (Some(ridge), Some(_)) => capped32(ridge as int),
        _ => u32::MAX,
    }
}

fn tensor_threshold(name: &str, major: i32, minor: i32) -> (rows: u32)
    ensures
        rows == threshold_of(name@, major, minor),
{
    match device_thresholds(name, major, minor) {
        Some(thresholds) => {
            if thresholds.tensor_ridge > 0xffff_ffff {
                0xffff_ffff
            } else {
                thresholds.tensor_ridge as u32
            }
        },
        None => 0xffff_ffff,
    }
}

/// The name of the tuning for an architecture.
pub open spec fn tuning_of(major: i32, minor: i32) -> Seq<char> {
    if major == 8 && minor == 9 {
        "cuda-ada"@
    } else if major == 9 {
        "cuda-hopper"@
    } else if major == 10 || major == 12 {
        "cuda-blackwell"@
    } else if major == 8 {
        "cuda-ampere"@
    } else {
        "cuda-generic"@
    }
}

fn tuning_profile(major: i32, minor: i32) -> (name: &'static str)
    ensures
        name@ == tuning_of(major, minor),
{
    if major == 8 && minor == 9 {
        "cuda-ada"
    } else if major == 9 {
        "cuda-hopper"
    } else if major == 10 || major == 12 {
        "cuda-blackwell"
    } else if major == 8 {
        "cuda-ampere"
    } else {
        "cuda-generic"
    }
}

/// A number of bytes, where there are any.
pub open spec fn nonzero(bytes: u64) -> Option<u64> {
    if bytes != 0 {
        Some(bytes)
    } else {
        None
    }
}

/// What is known of a device that was let in, before its calibration.
pub open spec fn cuda_info(report: CudaReport) -> DeviceInfoView {
    let name = report.name->0@;
    let threshold = threshold_of(name, report.major, report.minor);
    DeviceInfoView {
        backend: BackendKind::Cuda,
        ordinal: report.device,
        name,
        architecture: "sm_"@ + signed_text(report.major) + signed_text(report.minor),
        driver_version: Some(unsigned32(report.driver_version)),
        runtime_version: Some(unsigned32(report.runtime_version)),
        library_version: Some(unsigned32(report.library_version)),
        total_memory_bytes: Some(report.total_memory_bytes),
        compute_units: Some(unsigned32(report.multiprocessors)),
        warp_size: Some(unsigned32(report.warp_size)),
        memory_bus_width_bits: Some(unsigned32(report.memory_bus_width_bits)),
        memory_clock_khz: if report.memory_clock_khz > 0 {
            Some(report.memory_clock_khz as u32)
        } else {
            None
        },
        shared_memory_per_block_bytes: Some(report.shared_memory_per_block_bytes),
        persisting_l2_bytes: nonzero(report.persisting_l2_bytes),
        matrix_engine_workspace_bytes: nonzero(report.matrix_engine_workspace_bytes),
        pinned_control_staging: Some(true),
        control_staging_speedup_milli: None,
        double_buffered_tile: Some(false),
        double_buffer_speedup_milli: None,
        document_tile_query_rows: if report.major >= 9 {
            Some(64)
        } else {
            Some(32)
        },
        pq_warp_task_max_document_rows: Some(0),
        compute_queue_priority: Some(report.compute_stream_priority),
        tuning_profile: tuning_of(report.major, report.minor),
        capabilities: BackendCapabilities {
            kind: BackendKind::Cuda,
            exact_fp16: true,
            exact_fp32: true,
            int8: true,
            fp8_e4m3: true,
            pq: true,
            opq_rpq: true,
            fused_multiquery: true,
            matrix_engine: threshold != u32::MAX,
            asynchronous_copy: true,
            unified_memory: false,
            persisting_l2: report.persisting_l2_bytes != 0,
        },
    }
}

fn some_bytes(bytes: u64) -> (result: Option<u64>)
    ensures
        result == nonzero(bytes),
{
    if bytes != 0 {
        Some(bytes)
    } else {
        None
    }
}

/// Which kernel scores a batch, and how many candidates the matrix engine takes
/// at a time.
#[derive(Clone, Copy, Debug, PartialEq, Eq, Structural)]
pub struct BatchDispatch {
    pub use_tensor: bool,
    pub chunk: Option<usize>,
}

/// The bucket of a device that was not calibrated.
pub open spec fn fallback_bucket(threshold: u32) -> TensorCalibrationBucket {
    TensorCalibrationBucket {
        candidate_count: 64,
        reference_document_rows: 32,
        reference_row_groups: 1,
        reference_max_document_rows: 0,
        reference_row_imbalance_milli: 0,
        threshold_query_rows: threshold,
        tile_time_ns: 0,
        tensor_time_ns: 0,
        tensor_chunk_candidates: 64,
    }
}

/// The rows of all queries of a batch.
pub open spec fn all_query_rows(offsets: Seq<u32>) -> u32 {
    if offsets.len() == 0 {
        0
    } else {
        offsets.last()
    }
}

/// The shape of a batch.
pub open spec fn batch_shape(query_rows: u32, dimension: u32, documents: usize, rows: Seq<u32>) -> TensorDispatchInput {
    TensorDispatchInput {
        candidate_count: documents,
        total_query_rows: query_rows,
        total_document_rows: if sum_rows(rows, rows.len() as int) > u64::MAX {
            u64::MAX
        } else {
            sum_rows(rows, rows.len() as int) as u64
        },
        document_row_groups: capped32(rows.to_set().len() as int),
        max_document_rows: most_rows(rows, rows.len() as int),
        dimension,
    }
}

/// Whether a bucket is the one that a decision was made by.
pub open spec fn decides(bucket: TensorCalibrationBucket, decision: TensorDispatchDecision) -> bool {
    &&& bucket.candidate_count == decision.selected_candidate_bucket
    &&& bucket.reference_document_rows == decision.selected_document_rows
    &&& bucket.reference_row_groups == decision.selected_row_groups
}

/// The number of candidates that the matrix engine takes at a time: that of the
/// first bucket that the decision was made by.
pub open spec fn chunk_of(
    buckets: Seq<TensorCalibrationBucket>,
    decision: TensorDispatchDecision,
    from: int,
) -> Option<usize>
    decreases buckets.len() - from,
{
    if from >= buckets.len() {
        None
    } else if decides(buckets[from], decision) {
        Some(
            if buckets[from].tensor_chunk_candidates == 0 {
                1
            } else {
                buckets[from].tensor_chunk_candidates as usize
            },
        )
    } else {
        chunk_of(buckets, decision, from + 1)
    }
}

/// Whether a batch is dispatched by a bucket that decides for it.
pub open spec fn dispatched(
    input: TensorDispatchInput,
    buckets: Seq<TensorCalibrationBucket>,
    index: int,
    dispatch: BatchDispatch,
) -> bool {
    let decision = decision_of(input, buckets[index]);
    &&& is_selected(input, buckets, index)
    &&& dispatch.use_tensor == decision.use_tensor
    &&& dispatch.chunk == if decision.use_tensor {
        chunk_of(buckets, decision, 0)
    } else {
        None
    }
}

fn chunk_candidates(
    buckets: &[TensorCalibrationBucket],
    decision: TensorDispatchDecision,
) -> (chunk: Option<usize>)
    ensures
        chunk == chunk_of(buckets@, decision, 0),
{
    let mut i: usize = 0;
    while i < buckets.len()
        invariant
            i <= buckets@.len(),
            chunk_of(buckets@, decision, 0) == chunk_of(buckets@, decision, i as int),
        decreases buckets@.len() - i,
    {
        let bucket: TensorCalibrationBucket = buckets[i];
        if bucket.candidate_count == decision.selected_candidate_bucket
            && bucket.reference_document_rows == decision.selected_document_rows
            && bucket.reference_row_groups == decision.selected_row_groups {
            assert(decides(buckets@[i as int], decision));
            return Some(
                if bucket.tensor_chunk_candidates == 0 {
                    1
                } else {
                    bucket.tensor_chunk_candidates as usize
                },
            );
        }
        i += 1;
    }
    None
}

/// How many different numbers a list has.
fn distinct_rows(rows: &[u32]) -> (count: u32)
    ensures
        count == capped32(rows@.to_set().len() as int),
{
    broadcast use vstd::std_specs::hash::group_hash_axioms;

    let mut seen: HashSet<u32> = HashSet::new();
    let mut i: usize = 0;
    assert(rows@.take(0).to_set() =~= Set::<u32>::empty());
    while i < rows.len()
        invariant
            i <= rows@.len(),
            seen@ == rows@.take(i as int).to_set(),
        decreases rows@.len() - i,
    {
        let ghost before = rows@.take(i as int);
        seen.insert(rows[i]);
        proof {
            let longer = rows@.take(i + 1);
            assert(longer =~= before.push(rows@[i as int]));
            assert forall|row: u32| longer.to_set().contains(row) <==> before.to_set().insert(
                rows@[i as int],
            ).contains(row) by {
                if before.contains(row) {
                    let at = choose|at: int| 0 <= at < before.len() && before[at] == row;
                    assert(longer[at] == row);
                }
                if row == rows@[i as int] {
                    assert(longer[i as int] == row);
                }
                if longer.contains(row) && row != rows@[i as int] {
                    let at = choose|at: int| 0 <= at < longer.len() && longer[at] == row;
                    assert(before[at] == row);
                }
            }
            assert(longer.to_set() =~= before.to_set().insert(rows@[i as int]));
        }
        i += 1;
    }
    assert(rows@.take(i as int) =~= rows@);
    let count: usize = seen.len();
    if count as u64 > 0xffff_ffff {
        0xffff_ffff
    } else {
        count as u32
    }
}

/// Whether a contract is among those handed out.
pub open spec fn handed_out(removed: Seq<(String, usize)>, contract: Seq<char>) -> bool {
    exists|i: int| 0 <= i < removed.len() && (#[trigger] removed[i]).0@ == contract
}

fn is_listed(names: &[String], name: &str) -> (result: bool)
    ensures
        result == listed(names@, name@),
{
    let mut i: usize = 0;
    while i < names.len()
        invariant
            i <= names@.len(),
            forall|j: int| 0 <= j < i ==> (#[trigger] names@[j])@ != name@,
        decreases names@.len() - i,
    {
        if same_text(names[i].as_str(), name) {
            assert(names@[i as int]@ == name@);
            return true;
        }
        i += 1;
    }
    false
}

/// A CUDA device as the backend knows it.
pub struct Gpu {
    pub device: i32,
    pub tensor_bytes: usize,
    pub quantizers: Table<usize>,
    pub tensor_threshold_rows: u32,
    pub tensor_calibration_buckets: Vec<TensorCalibrationBucket>,
    pub tensor_runtime_disabled: bool,
    pub calibration_complete: bool,
    pub batch_warp_calls: u64,
    pub batch_tensor_calls: u64,
    pub calibration_runs: u64,
    pub calibration_failures: u64,
    pub info: DeviceInfo,
}

impl Gpu {
    /// A device that was let in. It is not calibrated yet.
    pub fn create(report: CudaReport) -> (result: Result<Self, GpuError>)
        ensures
            ({
                let fault = if report.name is None {
                    Some(GpuError::Identity)
                } else {
                    runtime_fault(
                        report.capability_status,
                        report.info_status,
                        report.major,
                        report.runtime_version,
                    )
                };
                match result {
                    Err(error) => fault == Some(error),
                    Ok(gpu) => {
                        &&& fault is None
                        &&& gpu.device == report.device
                        &&& gpu.tensor_bytes == report.tensor_bytes
                        &&& gpu.quantizers.wf()
                        &&& gpu.quantizers@ == Map::<Seq<char>, usize>::empty()
                        &&& gpu.tensor_threshold_rows == threshold_of(
                            report.name->0@,
                            report.major,
                            report.minor,
                        )
                        &&& gpu.tensor_calibration_buckets@.len() == 0
                        &&& !gpu.tensor_runtime_disabled
                        &&& !gpu.calibration_complete
                        &&& gpu.batch_warp_calls == 0
                        &&& gpu.batch_tensor_calls == 0
                        &&& gpu.calibration_runs == 0
                        &&& gpu.calibration_failures == 0
                        &&& gpu.info@ == cuda_info(report)
                    },
                }
            }),
    {
        let name: String = match report.name {
            Some(name) => name,
            None => {
                return Err(GpuError::Identity);
            },
        };
        if let Err(error) = validate_cuda_runtime(
            report.capability_status,
            report.info_status,
            report.major,
            report.runtime_version,
        ) {
            return Err(error);
        }
        let tensor_threshold_rows: u32 = tensor_threshold(
            name.as_str(),
            report.major,
            report.minor,
        );
        let mut architecture: String = "sm_".to_owned();
        append_signed(&mut architecture, report.major);
        append_signed(&mut architecture, report.minor);
        let info = DeviceInfo {
            backend: BackendKind::Cuda,
            ordinal: report.device,
            name,
            architecture,
            driver_version: Some(to_unsigned32(report.driver_version)),
            runtime_version: Some(to_unsigned32(report.runtime_version)),
            library_version: Some(to_unsigned32(report.library_version)),
            total_memory_bytes: Some(report.total_memory_bytes),
            compute_units: Some(to_unsigned32(report.multiprocessors)),
            warp_size: Some(to_unsigned32(report.warp_size)),
            memory_bus_width_bits: Some(to_unsigned32(report.memory_bus_width_bits)),
            memory_clock_khz: if report.memory_clock_khz > 0 {
                Some(report.memory_clock_khz as u32)
            } else {
                None
            },
            shared_memory_per_block_bytes: Some(report.shared_memory_per_block_bytes),
            persisting_l2_bytes: some_bytes(report.persisting_l2_bytes),
            matrix_engine_workspace_bytes: some_bytes(report.matrix_engine_workspace_bytes),
            pinned_control_staging: Some(true),
            control_staging_speedup_milli: None,
            double_buffered_tile: Some(false),
            double_buffer_speedup_milli: None,
            document_tile_query_rows: if report.major >= 9 {
                Some(64)
            } else {
                Some(32)
            },
            pq_warp_task_max_document_rows: Some(0),
            compute_queue_priority: Some(report.compute_stream_priority),
            tuning_profile: tuning_profile(report.major, report.minor).to_owned(),
            capabilities: BackendCapabilities {
                kind: BackendKind::Cuda,
                exact_fp16: true,
                exact_fp32: true,
                int8: true,
                fp8_e4m3: true,
                pq: true,
                opq_rpq: true,
                fused_multiquery: true,
                matrix_engine: tensor_threshold_rows != 0xffff_ffff,
                asynchronous_copy: true,
                unified_memory: false,
                persisting_l2: report.persisting_l2_bytes != 0,
            },
        };
        Ok(
            Gpu {
                device: report.device,
                tensor_bytes: report.tensor_bytes,
                quantizers: Table::new(),
                tensor_threshold_rows,
                tensor_calibration_buckets: Vec::new(),
                tensor_runtime_disabled: false,
                calibration_complete: false,
                batch_warp_calls: 0,
                batch_tensor_calls: 0,
                calibration_runs: 0,
                calibration_failures: 0,
                info,
            },
        )
    }

    /// How the device adapts, where `chunk_candidates` is what is set on it.
    pub fn adaptive_status(&self, chunk_candidates: usize) -> (status: AdaptiveStatus)
        ensures
            status.tensor_threshold_rows == self.tensor_threshold_rows,
            status.calibration_complete == self.calibration_complete,
            status.batch_vector_calls == self.batch_warp_calls,
            status.batch_matrix_calls == self.batch_tensor_calls,
            status.calibration_runs == self.calibration_runs,
            status.calibration_failures == self.calibration_failures,
            status.tensor_calibration_buckets@ == self.tensor_calibration_buckets@,
            status.tensor_chunk_candidates == capped32(chunk_candidates as int),
    {
        let mut buckets: Vec<TensorCalibrationBucket> = Vec::new();
        let mut i: usize = 0;
        while i < self.tensor_calibration_buckets.len()
            invariant
                i <= self.tensor_calibration_buckets@.len(),
                buckets@ =~= self.tensor_calibration_buckets@.take(i as int),
            decreases self.tensor_calibration_buckets@.len() - i,
        {
            buckets.push(self.tensor_calibration_buckets[i]);
            i += 1;
        }
        assert(buckets@ =~= self.tensor_calibration_buckets@);
        AdaptiveStatus {
            tensor_threshold_rows: self.tensor_threshold_rows,
            calibration_complete: self.calibration_complete,
            batch_vector_calls: self.batch_warp_calls,
            batch_matrix_calls: self.batch_tensor_calls,
            calibration_runs: self.calibration_runs,
            calibration_failures: self.calibration_failures,
            tensor_calibration_buckets: buckets,
            tensor_chunk_candidates: if chunk_candidates as u64 > 0xffff_ffff {
                0xffff_ffff
            } else {
                chunk_candidates as u32
            },
        }
    }

    /// Which kernel scores a batch. The matrix engine is only used for
    /// half-precision numbers, and only where its calibration says that it wins.
    pub fn dispatch_batch(
        &self,
        query_offsets: &[u32],
        dimension: u32,
        dtype: u8,
        scoring_profile: u8,
        documents: usize,
        document_rows: &[u32],
    ) -> (dispatch: BatchDispatch)
        ensures
            ({
                let input = batch_shape(
                    all_query_rows(query_offsets@),
                    dimension,
                    documents,
                    document_rows@,
                );
                if !self.may_use_tensor(dtype, scoring_profile) || !has_work(input) {
                    dispatch == (BatchDispatch { use_tensor: false, chunk: None })
                } else {
                    exists|index: int| #[trigger]
                        dispatched(input, self.buckets(), index, dispatch)
                }
            }),
    {
        let no_tensor = BatchDispatch { use_tensor: false, chunk: None };
        if scoring_profile != 1 || dtype != 2 || !self.info.capabilities.matrix_engine
            || self.tensor_runtime_disabled {
            return no_tensor;
        }
        let total_query_rows: u32 = if query_offsets.len() == 0 {
            0
        } else {
            query_offsets[query_offsets.len() - 1]
        };
        let input = TensorDispatchInput {
            candidate_count: documents,
            total_query_rows,
            total_document_rows: total_rows(document_rows),
            document_row_groups: distinct_rows(document_rows),
            max_document_rows: largest_rows(document_rows),
            dimension,
        };
        assert(total_query_rows == all_query_rows(query_offsets@));
        assert(input == batch_shape(total_query_rows, dimension, documents, document_rows@));
        let fallback = TensorCalibrationBucket {
            candidate_count: 64,
            reference_document_rows: 32,
            reference_row_groups: 1,
            reference_max_document_rows: 0,
            reference_row_imbalance_milli: 0,
            threshold_query_rows: self.tensor_threshold_rows,
            tile_time_ns: 0,
            tensor_time_ns: 0,
            tensor_chunk_candidates: 64,
        };
        let single: [TensorCalibrationBucket; 1] = [fallback];
        let buckets: &[TensorCalibrationBucket] = if self.tensor_calibration_buckets.len() == 0 {
            single.as_slice()
        } else {
            self.tensor_calibration_buckets.as_slice()
        };
        assert(buckets@ =~= self.buckets());
        let decision: TensorDispatchDecision = match choose_tensor(input, buckets) {
            Some(decision) => decision,
            None => {
                return no_tensor;
            },
        };
        let ghost index = choose|index: int| #[trigger]
            is_selected(input, buckets@, index) && decision == decision_of(input, buckets@[index]);
        if !decision.use_tensor {
            assert(dispatched(input, self.buckets(), index, no_tensor));
            return no_tensor;
        }
        let dispatch = BatchDispatch {
            use_tensor: true,
            chunk: chunk_candidates(buckets, decision),
        };
        assert(dispatched(input, self.buckets(), index, dispatch));
        dispatch
    }

    /// The bytes that tensors can take on the device.
    pub fn tensor_bytes(&self) -> (bytes: usize)
        ensures
            bytes == self.tensor_bytes,
    {
        self.tensor_bytes
    }

    /// The quantizer of a contract, where it is on the device.
    pub fn quantizer(&self, contract_id: &str) -> (handle: Option<usize>)
        requires
            self.quantizers.wf(),
        ensures
            handle == if self.quantizers@.contains_key(contract_id@) {
                Some(self.quantizers@[contract_id@])
            } else {
                None
            },
    {
        match self.quantizers.get(contract_id) {
            Some(handle) => Some(*handle),
            None => None,
        }
    }

    /// Whether a quantizer is still to be made on the device.
    pub fn needs_quantizer(&self, contract_id: &str) -> (result: bool)
        requires
            self.quantizers.wf(),
        ensures
            result == !self.quantizers@.contains_key(contract_id@),
    {
        self.quantizers.find(contract_id).is_none()
    }

    /// Keeps a quantizer that was made on the device. A contract that has one
    /// already keeps that one.
    pub fn ensure_quantizer(&mut self, contract_id: &str, handle: usize)
        requires
            old(self).quantizers.wf(),
        ensures
            final(self).quantizers.wf(),
            final(self).quantizers@ == if old(self).quantizers@.contains_key(contract_id@) {
                old(self).quantizers@
            } else {
                old(self).quantizers@.insert(contract_id@, handle)
            },
            *final(self) == (Gpu { quantizers: final(self).quantizers, ..*old(self) }),
    {
        if self.needs_quantizer(contract_id) {
            self.quantizers.insert(contract_id.to_owned(), handle);
        }
    }

    /// Lets go of the quantizers whose contracts are not active, and hands them
    /// out.
    pub fn retain_quantizers(&mut self, active: &[String]) -> (removed: Vec<(String, usize)>)
        requires
            old(self).quantizers.wf(),
        ensures
            final(self).quantizers.wf(),
            forall|contract: Seq<char>| #[trigger]
                final(self).quantizers@.contains_key(contract) <==> (
                old(self).quantizers@.contains_key(contract) && listed(active@, contract)),
            forall|contract: Seq<char>| #[trigger]
                final(self).quantizers@.contains_key(contract) ==> final(self).quantizers@[contract]
                    == old(self).quantizers@[contract],
            forall|contract: Seq<char>| #[trigger]
                handed_out(removed@, contract) <==> (old(self).quantizers@.contains_key(contract)
                    && !listed(active@, contract)),
            forall|i: int|
                0 <= i < removed@.len() ==> (#[trigger] removed@[i]).1
                    == old(self).quantizers@[removed@[i].0@],
            forall|i: int, j: int|
                0 <= i < j < removed@.len() ==> (#[trigger] removed@[i]).0@ != (
                #[trigger] removed@[j]).0@,
            *final(self) == (Gpu { quantizers: final(self).quantizers, ..*old(self) }),
    {
        let ghost before = self.quantizers;
        let mut kept: Table<usize> = Table::new();
        let mut removed: Vec<(String, usize)> = Vec::new();
        let mut slot: usize = 0;
        proof {
            before.lemma_slots();
        }
        while slot < self.quantizers.len()
            invariant
                before == self.quantizers,
                before.wf(),
                *self == *old(self),
                kept.wf(),
                slot <= before.slots().len(),
                before.names().len() == before.slots().len(),
                forall|i: int|
                    0 <= i < before.slots().len() ==> before@.contains_key(
                        #[trigger] before.names()[i],
                    ) && before@[before.names()[i]] == before.slots()[i] && before.slot_of(
                        before.names()[i],
                    ) == i,
                forall|contract: Seq<char>| #[trigger]
                    kept@.contains_key(contract) <==> (before@.contains_key(contract)
                        && before.slot_of(contract) < slot && listed(active@, contract)),
                forall|contract: Seq<char>| #[trigger]
                    kept@.contains_key(contract) ==> kept@[contract] == before@[contract],
                forall|contract: Seq<char>| #[trigger]
                    handed_out(removed@, contract) <==> (before@.contains_key(contract)
                        && before.slot_of(contract) < slot && !listed(active@, contract)),
                forall|i: int|
                    0 <= i < removed@.len() ==> (#[trigger] removed@[i]).1
                        == before@[removed@[i].0@],
                forall|i: int, j: int|
                    0 <= i < j < removed@.len() ==> (#[trigger] removed@[i]).0@ != (
                    #[trigger] removed@[j]).0@,
                forall|key: Seq<char>| #[trigger]
                    before@.contains_key(key) ==> 0 <= before.slot_of(key) < before.slots().len()
                        && before.names()[before.slot_of(key)] == key,
            decreases before.slots().len() - slot,
        {
            let name: String = self.quantizers.key(slot).clone();
            let handle: usize = *self.quantizers.value(slot);
            let ghost key = name@;
            assert(key == before.names()[slot as int]);
            if is_listed(active, name.as_str()) {
                kept.insert(name, handle);
                proof {
                    assert forall|contract: Seq<char>| #[trigger]
                        handed_out(removed@, contract) <==> (before@.contains_key(contract)
                            && before.slot_of(contract) < slot + 1 && !listed(active@, contract)) by {
                        if before@.contains_key(contract) && before.slot_of(contract) == slot {
                            assert(contract == key);
                        }
                    }
                }
            } else {
                let ghost earlier = removed@;
                proof {
                    assert forall|i: int| 0 <= i < earlier.len() implies (#[trigger] earlier[i]).0@
                        != key by {
                        assert(handed_out(earlier, earlier[i].0@));
                    }
                }
                removed.push((name, handle));
                proof {
                    assert forall|contract: Seq<char>| #[trigger]
                        handed_out(removed@, contract) <==> (before@.contains_key(contract)
                            && before.slot_of(contract) < slot + 1 && !listed(active@, contract)) by {
                        if handed_out(earlier, contract) {
                            let i = choose|i: int|
                                0 <= i < earlier.len() && (#[trigger] earlier[i]).0@ == contract;
                            assert(removed@[i].0@ == contract);
                        }
                        if contract == key {
                            assert(removed@[earlier.len() as int].0@ == contract);
                        }
                        if handed_out(removed@, contract) && contract != key {
                            let i = choose|i: int|
                                0 <= i < removed@.len() && (#[trigger] removed@[i]).0@ == contract;
                            assert(earlier[i].0@ == contract);
                        }
                        if before@.contains_key(contract) && before.slot_of(contract) == slot {
                            assert(contract == key);
                        }
                    }
                }
            }
            slot += 1;
        }
        self.quantizers = kept;
        removed
    }

    /// Counts a batch that the matrix engine scored.
    pub fn tensor_succeeded(&mut self)
        requires
            old(self).batch_tensor_calls < u64::MAX,
        ensures
            *final(self) == (Gpu {
                batch_tensor_calls: (old(self).batch_tensor_calls + 1) as u64,
                ..*old(self)
            }),
    {
        self.batch_tensor_calls = self.batch_tensor_calls + 1;
    }

    /// Turns the matrix engine off after it failed on a batch.
    pub fn tensor_failed(&mut self)
        requires
            old(self).calibration_failures < u64::MAX,
        ensures
            *final(self) == old(self).without_tensor(),
    {
        self.calibration_failures = self.calibration_failures + 1;
        self.tensor_runtime_disabled = true;
        self.tensor_threshold_rows = 0xffff_ffff;
    }

    /// Counts a batch that the tile kernel is to score.
    pub fn count_tile_batch(&mut self)
        requires
            old(self).batch_warp_calls < u64::MAX,
        ensures
            *final(self) == (Gpu {
                batch_warp_calls: (old(self).batch_warp_calls + 1) as u64,
                ..*old(self)
            }),
    {
        self.batch_warp_calls = self.batch_warp_calls + 1;
    }

    /// Counts a calibration run.
    pub fn count_run(&mut self)
        requires
            old(self).calibration_runs < u64::MAX,
        ensures
            *final(self) == (Gpu {
                calibration_runs: (old(self).calibration_runs + 1) as u64,
                ..*old(self)
            }),
    {
        self.calibration_runs = self.calibration_runs + 1;
    }

    /// Counts a calibration that failed.
    pub fn count_failure(&mut self)
        requires
            old(self).calibration_failures < u64::MAX,
        ensures
            *final(self) == (Gpu {
                calibration_failures: (old(self).calibration_failures + 1) as u64,
                ..*old(self)
            }),
    {
        self.calibration_failures = self.calibration_failures + 1;
    }

    /// Whether there is a matrix engine to calibrate.
    pub fn needs_calibration(&self) -> (result: bool)
        ensures
            result == (self.tensor_threshold_rows != u32::MAX),
    {
        self.tensor_threshold_rows != 0xffff_ffff
    }

    /// Whether two rows of half-precision numbers fit in the shared memory of a
    /// block, so that a double-buffered tile can be tried.
    pub fn double_buffer_fits(&self, dimension: u32) -> (result: bool)
        ensures
            result == (dimension * 2 <= match self.info.shared_memory_per_block_bytes {
                Some(bytes) => bytes / 2,
                None => 0,
            }),
    {
        let half: u64 = match self.info.shared_memory_per_block_bytes {
            Some(bytes) => bytes / 2,
            None => 0,
        };
        dimension as u64 * 2 <= half
    }

    /// Takes what the calibration of the pinned control staging decided, and says
    /// whether it is used.
    pub fn finish_control_staging(&mut self, decision: VariantDecision) -> (use_pinned: bool)
        requires
            old(self).calibration_failures < u64::MAX,
        ensures
            use_pinned == decision.use_variant,
            *final(self) == (Gpu {
                calibration_failures: (old(self).calibration_failures + if decision.failed {
                    1int
                } else {
                    0int
                }) as u64,
                info: DeviceInfo {
                    control_staging_speedup_milli: decision.speedup_milli,
                    ..old(self).info
                },
                ..*old(self)
            }),
    {
        if decision.failed {
            self.calibration_failures = self.calibration_failures + 1;
        }
        self.info.control_staging_speedup_milli = decision.speedup_milli;
        decision.use_variant
    }

    /// Takes what the calibration of the double-buffered tile decided, and says
    /// whether it is used.
    pub fn finish_double_buffer(&mut self, decision: VariantDecision) -> (use_double: bool)
        requires
            old(self).calibration_failures < u64::MAX,
        ensures
            use_double == decision.use_variant,
            *final(self) == (Gpu {
                calibration_failures: (old(self).calibration_failures + if decision.failed {
                    1int
                } else {
                    0int
                }) as u64,
                info: DeviceInfo {
                    double_buffer_speedup_milli: decision.speedup_milli,
                    ..old(self).info
                },
                ..*old(self)
            }),
    {
        if decision.failed {
            self.calibration_failures = self.calibration_failures + 1;
        }
        self.info.double_buffer_speedup_milli = decision.speedup_milli;
        decision.use_variant
    }

    /// Takes the buckets that were measured. The threshold becomes the lowest of
    /// theirs; with no bucket the device stays as it is, and is not calibrated.
    pub fn finish_buckets(&mut self, buckets: Vec<TensorCalibrationBucket>)
        ensures
            buckets@.len() == 0 ==> *final(self) == (Gpu {
                calibration_complete: false,
                ..*old(self)
            }),
            buckets@.len() > 0 ==> {
                &&& *final(self) == (Gpu {
                    calibration_complete: true,
                    tensor_calibration_buckets: buckets,
                    tensor_threshold_rows: final(self).tensor_threshold_rows,
                    ..*old(self)
                })
                &&& exists|i: int|
                    0 <= i < buckets@.len() && (#[trigger] buckets@[i]).threshold_query_rows
                        == final(self).tensor_threshold_rows
                &&& forall|i: int|
                    0 <= i < buckets@.len() ==> final(self).tensor_threshold_rows <= (
                    #[trigger] buckets@[i]).threshold_query_rows
            },
    {
        if buckets.len() == 0 {
            self.calibration_complete = false;
            return;
        }
        let mut lowest: u32 = buckets[0].threshold_query_rows;
        let mut i: usize = 1;
        while i < buckets.len()
            invariant
                1 <= i <= buckets@.len(),
                exists|j: int|
                    0 <= j < i && (#[trigger] buckets@[j]).threshold_query_rows == lowest,
                forall|j: int| 0 <= j < i ==> lowest <= (#[trigger] buckets@[j]).threshold_query_rows,
            decreases buckets@.len() - i,
        {
            if buckets[i].threshold_query_rows < lowest {
                lowest = buckets[i].threshold_query_rows;
            }
            i += 1;
        }
        self.tensor_threshold_rows = lowest;
        self.tensor_calibration_buckets = buckets;
        self.calibration_complete = true;
    }

    /// Takes the tuning that the calibrations left on the device: a block has
    /// eight warps.
    pub fn finish_tuning(
        &mut self,
        queries_per_warp: u32,
        pq_warp_rows: u32,
        pinned: bool,
        double_buffered: bool,
    )
        ensures
            *final(self) == (Gpu {
                info: DeviceInfo {
                    document_tile_query_rows: if queries_per_warp * 8 <= u32::MAX {
                        Some((queries_per_warp * 8) as u32)
                    } else {
                        None
                    },
                    pq_warp_task_max_document_rows: Some(pq_warp_rows),
                    pinned_control_staging: Some(pinned),
                    double_buffered_tile: Some(double_buffered),
                    ..old(self).info
                },
                ..*old(self)
            }),
    {
        self.info.document_tile_query_rows = queries_per_warp.checked_mul(8);
        self.info.pq_warp_task_max_document_rows = Some(pq_warp_rows);
        self.info.pinned_control_staging = Some(pinned);
        self.info.double_buffered_tile = Some(double_buffered);
    }

    /// The device after the matrix engine failed.
    pub open spec fn without_tensor(self) -> Gpu {
        Gpu {
            calibration_failures: (self.calibration_failures + 1) as u64,
            tensor_runtime_disabled: true,
            tensor_threshold_rows: u32::MAX,
            ..self
        }
    }

    /// Whether the matrix engine is there for batches of a kind: of
    /// half-precision numbers that are scored exactly.
    pub open spec fn may_use_tensor(&self, dtype: u8, scoring_profile: u8) -> bool {
        &&& scoring_profile == 1
        &&& dtype == 2
        &&& self.info.capabilities.matrix_engine
        &&& !self.tensor_runtime_disabled
    }

    /// The buckets that decide: those of the calibration, or the one of a device
    /// that was not calibrated.
    pub open spec fn buckets(&self) -> Seq<TensorCalibrationBucket> {
        if self.tensor_calibration_buckets@.len() == 0 {
            seq![fallback_bucket(self.tensor_threshold_rows)]
        } else {
            self.tensor_calibration_buckets@
        }
    }
}

/// After the matrix engine failed on a batch, no batch is scored by it.
pub proof fn failure_turns_tensor_off(before: Gpu, dtype: u8, scoring_profile: u8)
    ensures
        !before.without_tensor().may_use_tensor(dtype, scoring_profile),
{
}

/// A device whose calibration found no size at which the matrix engine wins
/// never uses it.
pub proof fn no_win_means_no_tensor(
    gpu: Gpu,
    input: TensorDispatchInput,
    index: int,
    dispatch: BatchDispatch,
)
    requires
        forall|i: int|
            0 <= i < gpu.buckets().len() ==> (#[trigger] gpu.buckets()[i]).threshold_query_rows
                == u32::MAX,
        dispatched(input, gpu.buckets(), index, dispatch),
    ensures
        !dispatch.use_tensor,
        dispatch.chunk is None,
{
    assert(gpu.buckets()[index].threshold_query_rows == u32::MAX);
}

/// The chunk of a decision is that of the first bucket with its candidates, rows and row
/// groups, at least one.
pub proof fn chunks_are_of_the_deciding_bucket(
    buckets: Seq<TensorCalibrationBucket>,
    decision: TensorDispatchDecision,
    index: int,
)
    requires
        0 <= index < buckets.len(),
        buckets[index].candidate_count == decision.selected_candidate_bucket,
        buckets[index].reference_document_rows == decision.selected_document_rows,
        buckets[index].reference_row_groups == decision.selected_row_groups,
        forall|j: int|
            0 <= j < index ==> !((#[trigger] buckets[j]).candidate_count
                == decision.selected_candidate_bucket && buckets[j].reference_document_rows
                == decision.selected_document_rows && buckets[j].reference_row_groups
                == decision.selected_row_groups),
    ensures
        chunk_of(buckets, decision, 0) is Some,
        chunk_of(buckets, decision, 0)->0 as int == vstd::math::max(
            buckets[index].tensor_chunk_candidates as int,
            1,
        ),
{
    lemma_chunk_from(buckets, decision, index, 0);
}

proof fn lemma_chunk_from(
    buckets: Seq<TensorCalibrationBucket>,
    decision: TensorDispatchDecision,
    index: int,
    from: int,
)
    requires
        0 <= from <= index < buckets.len(),
        decides(buckets[index], decision),
        forall|j: int| 0 <= j < index ==> !decides(#[trigger] buckets[j], decision),
    ensures
        chunk_of(buckets, decision, from) == chunk_of(buckets, decision, index),
    decreases index - from,
{
    if from < index {
        lemma_chunk_from(buckets, decision, index, from + 1);
    }
}

/// The shape of a batch counts the rows of all documents, the most rows of one, and how
/// many different numbers of rows there are.
pub proof fn batches_are_shaped_by_every_document(
    query_rows: u32,
    dimension: u32,
    documents: usize,
    rows: Seq<u32>,
    i: int,
)
    requires
        0 <= i < rows.len(),
    ensures
        ({
            let shape = batch_shape(query_rows, dimension, documents, rows);
            &&& shape.candidate_count == documents
            &&& shape.total_query_rows == query_rows
            &&& shape.dimension == dimension
            &&& shape.total_document_rows as int == vstd::math::min(
                rows.fold_left(0int, |sum: int, one: u32| sum + one),
                0xffff_ffff_ffff_ffff,
            )
            &&& shape.max_document_rows >= rows[i]
            &&& shape.max_document_rows == 0 || rows.contains(shape.max_document_rows)
            &&& shape.document_row_groups as int == vstd::math::min(
                rows.to_set().len() as int,
                0xffff_ffff,
            )
        }),
{
    let count = rows.len() as int;
    crate::calibration::every_document_is_summed(rows, count);
    crate::calibration::no_document_has_more_rows(rows, count);
    crate::calibration::lemma_sum_rows(rows, 0, count);
    assert(rows.take(count) =~= rows);
}

/// The matrix engine is for exact scores of half-precision numbers, on a device that has
/// one and on which it has not failed.
pub proof fn tensor_is_for_exact_halves(gpu: Gpu, dtype: u8, scoring_profile: u8)
    ensures
        gpu.may_use_tensor(dtype, scoring_profile) <==> scoring_profile == 1 && dtype == 2
            && gpu.info.capabilities.matrix_engine && !gpu.tensor_runtime_disabled,
{
}

/// The query rows of a batch end at its last place.
pub proof fn batches_end_at_their_last_place(offsets: Seq<u32>)
    ensures
        offsets.len() > 0 ==> all_query_rows(offsets) == offsets[offsets.len() - 1],
        offsets.len() == 0 ==> all_query_rows(offsets) == 0,
{
}

} // verus!
