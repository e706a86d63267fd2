//! What a backend can do, and which backends are let in.

use crate::bytes::{le32, put_u32};
use crate::dispatch::TensorCalibrationBucket;
use crate::protocol::finite32;
use crate::text::{append_decimal, decimal_text};
use vstd::prelude::*;
use vstd::string::StringExecFns;
use vstd::utf8::encode_utf8;

verus! {

/// The kind of hardware behind a backend.
#[derive(Clone, Copy, Debug, PartialEq, Eq, Structural)]
pub enum BackendKind {
    Cpu,
    Cuda,
    Metal,
    Vulkan,
    Ascend,
    Metax,
}

/// What a backend can do.
#[derive(Clone, Copy, Debug, PartialEq, Eq, Structural)]
pub struct BackendCapabilities {
    pub kind: BackendKind,
    pub exact_fp16: bool,
    pub exact_fp32: bool,
    pub int8: bool,
    pub fp8_e4m3: bool,
    pub pq: bool,
    pub opq_rpq: bool,
    pub fused_multiquery: bool,
    pub matrix_engine: bool,
    pub asynchronous_copy: bool,
    pub unified_memory: bool,
    pub persisting_l2: bool,
}

impl BackendCapabilities {
    /// Whether tensors of a profile, given by its native code, can be scored.
    pub open spec fn supports(self, native_profile: u8) -> bool {
        if native_profile == 1 {
            self.exact_fp16
        } else if native_profile == 2 {
            self.int8
        } else if native_profile == 3 {
            self.fp8_e4m3
        } else if native_profile == 4 {
            self.pq
        } else if native_profile == 5 {
            self.opq_rpq
        } else {
            false
        }
    }

    /// Whether tensors of a profile, given by its native code, can be scored.
    /// A profile that is not supported is never replaced by another one.
    pub fn supports_profile(&self, native_profile: u8) -> (result: bool)
        ensures
            result == self.supports(native_profile),
    {
        match native_profile {
            1 => self.exact_fp16,
            2 => self.int8,
            3 => self.fp8_e4m3,
            4 => self.pq,
            5 => self.opq_rpq,
            _ => false,
        }
    }
}

/// The capabilities of a backend that scores exact profiles only.
pub open spec fn exact_only(kind: BackendKind, fused_multiquery: bool, unified_memory: bool) -> BackendCapabilities {
    BackendCapabilities {
        kind,
        exact_fp16: true,
        exact_fp32: true,
        int8: false,
        fp8_e4m3: false,
        pq: false,
        opq_rpq: false,
        fused_multiquery,
        matrix_engine: false,
        asynchronous_copy: false,
        unified_memory,
        persisting_l2: false,
    }
}

/// The capabilities of a backend that scores exact profiles only.
pub fn exact_capabilities(kind: BackendKind, fused_multiquery: bool, unified_memory: bool) -> (capabilities:
    BackendCapabilities)
    ensures
        capabilities == exact_only(kind, fused_multiquery, unified_memory),
{
    BackendCapabilities {
        kind,
        exact_fp16: true,
        exact_fp32: true,
        int8: false,
        fp8_e4m3: false,
        pq: false,
        opq_rpq: false,
        fused_multiquery,
        matrix_engine: false,
        asynchronous_copy: false,
        unified_memory,
        persisting_l2: false,
    }
}

/// What is known of a device.
#[derive(Clone, Debug)]
pub struct DeviceInfo {
    pub backend: BackendKind,
    pub ordinal: i32,
    pub name: String,
    pub architecture: String,
    pub driver_version: Option<u32>,
    pub runtime_version: Option<u32>,
    pub library_version: Option<u32>,
    pub total_memory_bytes: Option<u64>,
    pub compute_units: Option<u32>,
    pub warp_size: Option<u32>,
    pub memory_bus_width_bits: Option<u32>,
    pub memory_clock_khz: Option<u32>,
    pub shared_memory_per_block_bytes: Option<u64>,
    pub persisting_l2_bytes: Option<u64>,
    pub matrix_engine_workspace_bytes: Option<u64>,
    pub pinned_control_staging: Option<bool>,
    pub control_staging_speedup_milli: Option<u32>,
    pub double_buffered_tile: Option<bool>,
    pub double_buffer_speedup_milli: Option<u32>,
    /// Query rows served by one document-tile load in the native fused path.
    pub document_tile_query_rows: Option<u32>,
    pub pq_warp_task_max_document_rows: Option<u32>,
    pub compute_queue_priority: Option<i32>,
    pub tuning_profile: String,
    pub capabilities: BackendCapabilities,
}

/// What is known of a device, with its texts as sequences of characters.
pub struct DeviceInfoView {
    pub backend: BackendKind,
    pub ordinal: i32,
    pub name: Seq<char>,
    pub architecture: Seq<char>,
    pub driver_version: Option<u32>,
    pub runtime_version: Option<u32>,
    pub library_version: Option<u32>,
    pub total_memory_bytes: Option<u64>,
    pub compute_units: Option<u32>,
    pub warp_size: Option<u32>,
    pub memory_bus_width_bits: Option<u32>,
    pub memory_clock_khz: Option<u32>,
    pub shared_memory_per_block_bytes: Option<u64>,
    pub persisting_l2_bytes: Option<u64>,
    pub matrix_engine_workspace_bytes: Option<u64>,
    pub pinned_control_staging: Option<bool>,
    pub control_staging_speedup_milli: Option<u32>,
    pub double_buffered_tile: Option<bool>,
    pub double_buffer_speedup_milli: Option<u32>,
    pub document_tile_query_rows: Option<u32>,
    pub pq_warp_task_max_document_rows: Option<u32>,
    pub compute_queue_priority: Option<i32>,
    pub tuning_profile: Seq<char>,
    pub capabilities: BackendCapabilities,
}

impl View for DeviceInfo {
    type V = DeviceInfoView;

    open spec fn view(&self) -> DeviceInfoView {
        DeviceInfoView {
            backend: self.backend,
            ordinal: self.ordinal,
            name: self.name@,
            architecture: self.architecture@,
            driver_version: self.driver_version,
            runtime_version: self.runtime_version,
            library_version: self.library_version,
            total_memory_bytes: self.total_memory_bytes,
            compute_units: self.compute_units,
            warp_size: self.warp_size,
            memory_bus_width_bits: self.memory_bus_width_bits,
            memory_clock_khz: self.memory_clock_khz,
            shared_memory_per_block_bytes: self.shared_memory_per_block_bytes,
            persisting_l2_bytes: self.persisting_l2_bytes,
            matrix_engine_workspace_bytes: self.matrix_engine_workspace_bytes,
            pinned_control_staging: self.pinned_control_staging,
            control_staging_speedup_milli: self.control_staging_speedup_milli,
            double_buffered_tile: self.double_buffered_tile,
            double_buffer_speedup_milli: self.double_buffer_speedup_milli,
            document_tile_query_rows: self.document_tile_query_rows,
            pq_warp_task_max_document_rows: self.pq_warp_task_max_document_rows,
            compute_queue_priority: self.compute_queue_priority,
            tuning_profile: self.tuning_profile@,
            capabilities: self.capabilities,
        }
    }
}

/// A device of which nothing is known but what is given.
pub open spec fn plain_device(
    ordinal: i32,
    name: Seq<char>,
    architecture: Seq<char>,
    tuning_profile: Seq<char>,
    capabilities: BackendCapabilities,
) -> DeviceInfoView {
    DeviceInfoView {
        backend: capabilities.kind,
        ordinal,
        name,
        architecture,
        driver_version: None,
        runtime_version: None,
        library_version: None,
        total_memory_bytes: None,
        compute_units: None,
        warp_size: None,
        memory_bus_width_bits: None,
        memory_clock_khz: None,
        shared_memory_per_block_bytes: None,
        persisting_l2_bytes: None,
        matrix_engine_workspace_bytes: None,
        pinned_control_staging: None,
        control_staging_speedup_milli: None,
        double_buffered_tile: None,
        double_buffer_speedup_milli: None,
        document_tile_query_rows: None,
        pq_warp_task_max_document_rows: None,
        compute_queue_priority: None,
        tuning_profile,
        capabilities,
    }
}

/// A device of which nothing is known but what is given.
pub fn describe_device(
    ordinal: i32,
    name: String,
    architecture: String,
    tuning_profile: String,
    capabilities: BackendCapabilities,
) -> (info: DeviceInfo)
    ensures
        info@ == plain_device(ordinal, name@, architecture@, tuning_profile@, capabilities),
{
    DeviceInfo {
        backend: capabilities.kind,
        ordinal,
        name,
        architecture,
        driver_version: None,
        runtime_version: None,
        library_version: None,
        total_memory_bytes: None,
        compute_units: None,
        warp_size: None,
        memory_bus_width_bits: None,
        memory_clock_khz: None,
        shared_memory_per_block_bytes: None,
        persisting_l2_bytes: None,
        matrix_engine_workspace_bytes: None,
        pinned_control_staging: None,
        control_staging_speedup_milli: None,
        double_buffered_tile: None,
        double_buffer_speedup_milli: None,
        document_tile_query_rows: None,
        pq_warp_task_max_document_rows: None,
        compute_queue_priority: None,
        tuning_profile,
        capabilities,
    }
}

/// How a backend adapts to the work.
#[derive(Clone, Debug)]
pub struct AdaptiveStatus {
    pub tensor_threshold_rows: u32,
    pub calibration_complete: bool,
    pub batch_vector_calls: u64,
    pub batch_matrix_calls: u64,
    pub calibration_runs: u64,
    pub calibration_failures: u64,
    pub tensor_calibration_buckets: Vec<TensorCalibrationBucket>,
    pub tensor_chunk_candidates: u32,
}

/// Whether a status is that of a backend that has nothing to adapt.
pub open spec fn is_fixed(
    status: AdaptiveStatus,
    tensor_threshold_rows: u32,
    calibration_complete: bool,
) -> bool {
    &&& status.tensor_threshold_rows == tensor_threshold_rows
    &&& status.calibration_complete == calibration_complete
    &&& status.batch_vector_calls == 0
    &&& status.batch_matrix_calls == 0
    &&& status.calibration_runs == 0
    &&& status.calibration_failures == 0
    &&& status.tensor_calibration_buckets@.len() == 0
    &&& status.tensor_chunk_candidates == 0
}

/// The status of a backend that has nothing to adapt.
pub fn fixed_status(tensor_threshold_rows: u32, calibration_complete: bool) -> (status: AdaptiveStatus)
    ensures
        is_fixed(status, tensor_threshold_rows, calibration_complete),
{
    AdaptiveStatus {
        tensor_threshold_rows,
        calibration_complete,
        batch_vector_calls: 0,
        batch_matrix_calls: 0,
        calibration_runs: 0,
        calibration_failures: 0,
        tensor_calibration_buckets: Vec::new(),
        tensor_chunk_candidates: 0,
    }
}

/// The version of the contract between the daemon and separately built backends.
#[derive(Clone, Copy, Debug, PartialEq, Eq, Structural)]
pub struct BackendApiVersion {
    pub major: u16,
    pub minor: u16,
}

/// The major version of the contract that this daemon keeps.
pub const BACKEND_API_MAJOR: u16 = 1;

/// The minor version of the contract that this daemon keeps.
pub const BACKEND_API_MINOR: u16 = 1;

/// The version of the contract that this daemon keeps.
pub fn backend_api_version() -> (version: BackendApiVersion)
    ensures
        version.major == BACKEND_API_MAJOR,
        version.minor == BACKEND_API_MINOR,
{
    BackendApiVersion { major: BACKEND_API_MAJOR, minor: BACKEND_API_MINOR }
}

/// A separately built backend.
pub trait BackendProvider {
    fn name(&self) -> &'static str;

    /// The version of the contract that the backend keeps: that of this daemon, unless
    /// the backend says otherwise.
    fn api_version(&self) -> (version: BackendApiVersion)
        default_ensures
            version.major == BACKEND_API_MAJOR,
            version.minor == BACKEND_API_MINOR,
    {
        backend_api_version()
    }
}

/// Why a backend is not let in.
#[derive(Clone, Debug)]
pub enum ProviderError {
    Name,
    ApiVersion { name: String, version: BackendApiVersion },
}

/// Whether a byte cannot stand in a label: it is a control character or white
/// space.
pub open spec fn unsafe_in_label(byte: u8) -> bool {
    byte <= 32 || byte == 127
}

/// Whether a name can stand in a structured label.
pub open spec fn is_label(name: Seq<char>) -> bool {
    let bytes = encode_utf8(name);
    &&& 0 < bytes.len() <= 128
    &&& forall|i: int| 0 <= i < bytes.len() ==> !unsafe_in_label(#[trigger] bytes[i])
}

impl ProviderError {
    pub open spec fn message_text(self) -> Seq<char> {
        match self {
            ProviderError::Name =>
                "accelerator provider name must be a non-empty token of at most 128 bytes"@,
            ProviderError::ApiVersion { name, version } => "accelerator provider "@ + name@
                + " uses backend API "@ + decimal_text(version.major as nat) + "."@ + decimal_text(
                version.minor as nat,
            ) + ", but this daemon requires "@ + decimal_text(BACKEND_API_MAJOR as nat) + ".x"@,
        }
    }

    /// The error in words.
    pub fn message(&self) -> (text: String)
        ensures
            text@ == self.message_text(),
    {
        match self {
            ProviderError::Name =>
                "accelerator provider name must be a non-empty token of at most 128 bytes".to_owned(),
            ProviderError::ApiVersion { name, version } => {
                let mut text: String = "accelerator provider ".to_owned();
                text.append(name.as_str());
                text.append(" uses backend API ");
                append_decimal(&mut text, version.major as u64);
                text.append(".");
                append_decimal(&mut text, version.minor as u64);
                text.append(", but this daemon requires ");
                append_decimal(&mut text, BACKEND_API_MAJOR as u64);
                text.append(".x");
                text
            },
        }
    }
}

/// Tests the name and the version that a backend gives of itself, before any
/// device is created. A newer minor version is let in.
pub fn validate_identity(name: &str, version: BackendApiVersion) -> (result: Result<(), ProviderError>)
    ensures
        judges(name@, version, result),
{
    let bytes: &[u8] = name.as_bytes();
    if bytes.len() == 0 || bytes.len() > 128 {
        return Err(ProviderError::Name);
    }
    let mut i: usize = 0;
    while i < bytes.len()
        invariant
            i <= bytes@.len(),
            bytes@ == encode_utf8(name@),
            forall|j: int| 0 <= j < i ==> !unsafe_in_label(#[trigger] bytes@[j]),
        decreases bytes@.len() - i,
    {
        if bytes[i] <= 32 || bytes[i] == 127 {
            assert(unsafe_in_label(bytes@[i as int]));
            return Err(ProviderError::Name);
        }
        i += 1;
    }
    if version.major != BACKEND_API_MAJOR {
        return Err(ProviderError::ApiVersion { name: name.to_owned(), version });
    }
    Ok(())
}

/// Whether a result is what a name and a version lead to.
pub open spec fn judges(
    name: Seq<char>,
    version: BackendApiVersion,
    result: Result<(), ProviderError>,
) -> bool {
    match result {
        Ok(()) => is_label(name) && version.major == BACKEND_API_MAJOR,
        Err(ProviderError::Name) => !is_label(name),
        Err(ProviderError::ApiVersion { name: culprit, version: found }) => is_label(name)
            && version.major != BACKEND_API_MAJOR && culprit@ == name && found == version,
    }
}

/// Tests a backend before any device is created, by the name and the version
/// that it gives.
pub fn validate_provider<P: BackendProvider>(provider: &P) -> (result: Result<(), ProviderError>)
    requires
        call_requires(P::name, (provider,)),
        call_requires(P::api_version, (provider,)),
    ensures
        exists|name: &'static str, version: BackendApiVersion|
            #![trigger call_ensures(P::name, (provider,), name), call_ensures(P::api_version, (provider,), version)]
            call_ensures(P::name, (provider,), name) && call_ensures(
                P::api_version,
                (provider,),
                version,
            ) && judges(name@, version, result),
{
    let name: &'static str = provider.name();
    let version: BackendApiVersion = provider.api_version();
    validate_identity(name, version)
}

/// What the acceptance probe of a backend uploads and asks: a document of two
/// rows and a query of two rows, of two single-precision numbers each.
pub struct ConformanceProbe {
    pub document: Vec<u8>,
    pub query: Vec<u8>,
}

/// The bits of one.
pub const ONE_BITS: u32 = 0x3f80_0000;

/// The bits of a half.
pub const HALF_BITS: u32 = 0x3f00_0000;

/// The bits of one and a half: the score of the acceptance probe.
pub const PROBE_SCORE_BITS: u32 = 0x3fc0_0000;

/// What an accepted backend reports.
#[derive(Clone, Debug)]
pub struct ConformanceReport {
    pub backend: BackendKind,
    pub architecture: String,
    pub exact_fp32_score: u32,
    pub expected_score: u32,
}

/// Why a backend is not accepted.
#[derive(Clone, Copy, Debug, PartialEq, Eq, Structural)]
pub enum ConformanceError {
    /// It does not score single-precision numbers exactly.
    Unsupported,
    /// The score of the probe was another one.
    Mismatch { received: u32 },
}

/// The acceptance probe, where the backend claims what it needs: the rows of the
/// document are the unit vectors.
pub fn conformance_probe(info: &DeviceInfo) -> (result: Result<ConformanceProbe, ConformanceError>)
    ensures
        match result {
            Ok(probe) => {
                &&& info.capabilities.exact_fp32
                &&& probe.document@ == le32(ONE_BITS) + le32(0) + le32(0) + le32(ONE_BITS)
                &&& probe.query@ == le32(ONE_BITS) + le32(0) + le32(HALF_BITS) + le32(HALF_BITS)
            },
            Err(error) => !info.capabilities.exact_fp32 && error == ConformanceError::Unsupported,
        },
{
    if !info.capabilities.exact_fp32 {
        return Err(ConformanceError::Unsupported);
    }
    let mut document: Vec<u8> = Vec::new();
    put_u32(&mut document, ONE_BITS);
    put_u32(&mut document, 0);
    put_u32(&mut document, 0);
    put_u32(&mut document, ONE_BITS);
    let mut query: Vec<u8> = Vec::new();
    put_u32(&mut query, ONE_BITS);
    put_u32(&mut query, 0);
    put_u32(&mut query, HALF_BITS);
    put_u32(&mut query, HALF_BITS);
    assert(document@ =~= le32(ONE_BITS) + le32(0) + le32(0) + le32(ONE_BITS));
    assert(query@ =~= le32(ONE_BITS) + le32(0) + le32(HALF_BITS) + le32(HALF_BITS));
    Ok(ConformanceProbe { document, query })
}

/// Judges the score that a backend gave the probe: it is to be a number, and
/// close to what is expected.
pub fn judge_conformance<C: Fn(u32, u32) -> bool>(info: &DeviceInfo, score: u32, close: &C) -> (result:
    Result<ConformanceReport, ConformanceError>)
    requires
        call_requires(*close, (score, PROBE_SCORE_BITS)),
    ensures
        match result {
            Ok(report) => {
                &&& finite32(score)
                &&& call_ensures(*close, (score, PROBE_SCORE_BITS), true)
                &&& report.backend == info.backend
                &&& report.architecture@ == info.architecture@
                &&& report.exact_fp32_score == score
                &&& report.expected_score == PROBE_SCORE_BITS
            },
            Err(error) => {
                &&& error == (ConformanceError::Mismatch { received: score })
                &&& !finite32(score) || call_ensures(*close, (score, PROBE_SCORE_BITS), false)
            },
        },
{
    let finite: bool = (score / 0x80_0000) % 256 != 255;
    if !finite || !close(score, PROBE_SCORE_BITS) {
        return Err(ConformanceError::Mismatch { received: score });
    }
    Ok(
        ConformanceReport {
            backend: info.backend,
            architecture: info.architecture.clone(),
            exact_fp32_score: score,
            expected_score: PROBE_SCORE_BITS,
        },
    )
}

} // verus!
