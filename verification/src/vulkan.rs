//! What the Vulkan backend asks of its device: the arena, the uploads, and the
//! buffers of a request.

use crate::backend::{
    describe_device, exact_capabilities, exact_only, fixed_status, is_fixed, plain_device,
    AdaptiveStatus, BackendKind, DeviceInfo, DeviceInfoView,
};
use crate::bytes::{le32, of32, put_u32, u32_at};
use crate::cpu::gives;
use crate::digest::{hex_encode, hex_text};
use crate::protocol::finite32;
use crate::scoring::{all_finite, finite_scores, split_scores};
use crate::text::{append_decimal, decimal_text};
use vstd::prelude::*;
use vstd::string::{StrSliceExecFns, StringExecFns};

verus! {

/// Why the backend refuses.
#[derive(Clone, Copy, Debug, PartialEq, Eq, Structural)]
pub enum VulkanError {
    Ordinal,
    Arena,
    Alignment,
    NoAdapter(i32),
    ArenaLimit(u32),
    Dtype,
    Dimensions,
    ShapeOverflow,
    Quantized,
    UploadAlignment,
    UploadSize,
    UploadBounds,
    Profile,
    Metadata,
    QueryShape,
    Dispatch,
    OutputSize,
    QuerySize,
    WorkspaceSize,
    Workspace,
    BufferLimit,
    DocumentRange,
    NonFinite,
    BatchOffsets,
    BatchShape,
}

impl VulkanError {
    pub open spec fn message_text(self) -> Seq<char> {
        match self {
            VulkanError::Ordinal => "Vulkan device ordinal must be nonnegative"@,
            VulkanError::Arena => "invalid Vulkan arena configuration"@,
            VulkanError::Alignment => "Vulkan tensor arena must be aligned to four bytes"@,
            VulkanError::NoAdapter(ordinal) => "no hardware Vulkan adapter at ordinal "@
                + decimal_text(ordinal as nat)
                + "; install a Vulkan compute ICD. WSL2 requires Dozen/D3D12; /dev/dxg alone is insufficient. Software adapters are not a GPU fallback"@,
            VulkanError::ArenaLimit(limit) =>
                "Vulkan tensor arena exceeds adapter storage-buffer limit "@ + decimal_text(
                    limit as nat,
                ) + " bytes; reduce --device-memory-gb"@,
            VulkanError::Dtype => "unsupported Vulkan tensor dtype"@,
            VulkanError::Dimensions => "Vulkan tensor dimensions must be positive"@,
            VulkanError::ShapeOverflow => "Vulkan tensor shape overflow"@,
            VulkanError::Quantized => "Vulkan backend does not support PQ-family profiles"@,
            VulkanError::UploadAlignment => "Vulkan uploads require four-byte aligned offsets"@,
            VulkanError::UploadSize => "upload size overflow"@,
            VulkanError::UploadBounds => "Vulkan upload exceeds tensor arena"@,
            VulkanError::Profile => "Vulkan backend supports only exact FP16/FP32 scoring"@,
            VulkanError::Metadata => "invalid Vulkan document metadata"@,
            VulkanError::QueryShape => "Vulkan query shape disagrees with payload"@,
            VulkanError::Dispatch => "Vulkan dispatch exceeds device limits"@,
            VulkanError::OutputSize => "Vulkan output size overflow"@,
            VulkanError::QuerySize => "query size overflow"@,
            VulkanError::WorkspaceSize => "Vulkan workspace size overflow"@,
            VulkanError::Workspace => "Vulkan request exceeds configured workspace budget"@,
            VulkanError::BufferLimit => "Vulkan request buffer exceeds device limits"@,
            VulkanError::DocumentRange =>
                "Vulkan document range exceeds tensor arena or is misaligned"@,
            VulkanError::NonFinite => "Vulkan MaxSim returned a non-finite score"@,
            VulkanError::BatchOffsets => "invalid Vulkan batch query offsets"@,
            VulkanError::BatchShape => "Vulkan batch shape disagrees with payload"@,
        }
    }

    /// The error in words.
    pub fn message(self) -> (text: String)
        requires
            self matches VulkanError::NoAdapter(ordinal) ==> ordinal >= 0,
        ensures
            text@ == self.message_text(),
    {
        match self {
            VulkanError::Ordinal => "Vulkan device ordinal must be nonnegative".to_owned(),
            VulkanError::Arena => "invalid Vulkan arena configuration".to_owned(),
            VulkanError::Alignment => "Vulkan tensor arena must be aligned to four bytes".to_owned(),
            VulkanError::NoAdapter(ordinal) => {
                let mut text: String = "no hardware Vulkan adapter at ordinal ".to_owned();
                append_decimal(&mut text, ordinal as u64);
                text.append(
                    "; install a Vulkan compute ICD. WSL2 requires Dozen/D3D12; /dev/dxg alone is insufficient. Software adapters are not a GPU fallback",
                );
                text
            },
            VulkanError::ArenaLimit(limit) => {
                let mut text: String =
                    "Vulkan tensor arena exceeds adapter storage-buffer limit ".to_owned();
                append_decimal(&mut text, limit as u64);
                text.append(" bytes; reduce --device-memory-gb");
                text
            },
            VulkanError::Dtype => "unsupported Vulkan tensor dtype".to_owned(),
            VulkanError::Dimensions => "Vulkan tensor dimensions must be positive".to_owned(),
            VulkanError::ShapeOverflow => "Vulkan tensor shape overflow".to_owned(),
            VulkanError::Quantized =>
                "Vulkan backend does not support PQ-family profiles".to_owned(),
            VulkanError::UploadAlignment =>
                "Vulkan uploads require four-byte aligned offsets".to_owned(),
            VulkanError::UploadSize => "upload size overflow".to_owned(),
            VulkanError::UploadBounds => "Vulkan upload exceeds tensor arena".to_owned(),
            VulkanError::Profile =>
                "Vulkan backend supports only exact FP16/FP32 scoring".to_owned(),
            VulkanError::Metadata => "invalid Vulkan document metadata".to_owned(),
            VulkanError::QueryShape => "Vulkan query shape disagrees with payload".to_owned(),
            VulkanError::Dispatch => "Vulkan dispatch exceeds device limits".to_owned(),
            VulkanError::OutputSize => "Vulkan output size overflow".to_owned(),
            VulkanError::QuerySize => "query size overflow".to_owned(),
            VulkanError::WorkspaceSize => "Vulkan workspace size overflow".to_owned(),
            VulkanError::Workspace =>
                "Vulkan request exceeds configured workspace budget".to_owned(),
            VulkanError::BufferLimit => "Vulkan request buffer exceeds device limits".to_owned(),
            VulkanError::DocumentRange =>
                "Vulkan document range exceeds tensor arena or is misaligned".to_owned(),
            VulkanError::NonFinite => "Vulkan MaxSim returned a non-finite score".to_owned(),
            VulkanError::BatchOffsets => "invalid Vulkan batch query offsets".to_owned(),
            VulkanError::BatchShape => "Vulkan batch shape disagrees with payload".to_owned(),
        }
    }
}

/// What a device allows.
#[derive(Clone, Copy, Debug, PartialEq, Eq, Structural)]
pub struct VulkanLimits {
    pub max_buffer_size: u64,
    pub max_storage_buffer_binding_size: u32,
    pub max_compute_workgroups_per_dimension: u32,
}

/// What an adapter is.
#[derive(Clone, Copy, Debug, PartialEq, Eq, Structural)]
pub enum AdapterKind {
    Discrete,
    Integrated,
    Other,
}

/// The size of the tensor arena, or why it cannot be had.
pub open spec fn arena_of(ordinal: i32, total_bytes: usize, workspace_bytes: usize) -> Result<
    usize,
    VulkanError,
> {
    if ordinal < 0 {
        Err(VulkanError::Ordinal)
    } else if workspace_bytes == 0 || workspace_bytes >= total_bytes {
        Err(VulkanError::Arena)
    } else if (total_bytes - workspace_bytes) % 4 != 0 {
        Err(VulkanError::Alignment)
    } else {
        Ok((total_bytes - workspace_bytes) as usize)
    }
}

/// The size of the tensor arena.
pub fn tensor_arena(ordinal: i32, total_bytes: usize, workspace_bytes: usize) -> (result: Result<
    usize,
    VulkanError,
>)
    ensures
        result == arena_of(ordinal, total_bytes, workspace_bytes),
{
    if ordinal < 0 {
        return Err(VulkanError::Ordinal);
    }
    if workspace_bytes == 0 || workspace_bytes >= total_bytes {
        return Err(VulkanError::Arena);
    }
    let tensor_bytes: usize = total_bytes - workspace_bytes;
    if tensor_bytes % 4 != 0 {
        return Err(VulkanError::Alignment);
    }
    Ok(tensor_bytes)
}

/// Whether an adapter may serve.
pub open spec fn may_serve(kind: AdapterKind, allow_software: bool) -> bool {
    allow_software || kind != AdapterKind::Other
}

/// How many of the first `count` adapters may serve.
pub open spec fn serving(kinds: Seq<AdapterKind>, allow_software: bool, count: int) -> nat
    decreases count,
{
    if count <= 0 {
        0
    } else {
        serving(kinds, allow_software, count - 1) + if may_serve(kinds[count - 1], allow_software) {
            1nat
        } else {
            0nat
        }
    }
}

/// Picks the adapter with an ordinal among those that may serve.
pub fn pick_adapter(kinds: &[AdapterKind], ordinal: i32, allow_software: bool) -> (result: Result<
    usize,
    VulkanError,
>)
    requires
        ordinal >= 0,
    ensures
        match result {
            Ok(index) => index < kinds@.len() && may_serve(kinds@[index as int], allow_software)
                && serving(kinds@, allow_software, index as int) == ordinal,
            Err(error) => error == VulkanError::NoAdapter(ordinal) && serving(
                kinds@,
                allow_software,
                kinds@.len() as int,
            ) <= ordinal,
        },
{
    let mut seen: i32 = 0;
    let mut i: usize = 0;
    while i < kinds.len()
        invariant
            i <= kinds@.len(),
            0 <= seen <= ordinal,
            seen == serving(kinds@, allow_software, i as int),
        decreases kinds@.len() - i,
    {
        if allow_software || kinds[i] != AdapterKind::Other {
            if seen == ordinal {
                return Ok(i);
            }
            seen += 1;
        }
        i += 1;
    }
    Err(VulkanError::NoAdapter(ordinal))
}

/// Tests whether a device has room for the tensor arena.
pub fn check_arena_limit(tensor_bytes: usize, limits: &VulkanLimits) -> (result: Result<
    (),
    VulkanError,
>)
    ensures
        result == if tensor_bytes <= limits.max_buffer_size && tensor_bytes
            <= limits.max_storage_buffer_binding_size {
            Ok::<(), VulkanError>(())
        } else {
            Err(VulkanError::ArenaLimit(limits.max_storage_buffer_binding_size))
        },
{
    if tensor_bytes as u64 <= limits.max_buffer_size && tensor_bytes as u64
        <= limits.max_storage_buffer_binding_size as u64 {
        Ok(())
    } else {
        Err(VulkanError::ArenaLimit(limits.max_storage_buffer_binding_size))
    }
}

/// A number as four bytes, the highest first.
pub open spec fn be32(value: u32) -> Seq<u8> {
    seq![
        (value / 0x100_0000) as u8,
        (value / 0x1_0000 % 256) as u8,
        (value / 0x100 % 256) as u8,
        (value % 256) as u8,
    ]
}

/// A text without its leading zeros, of which at most `count` go.
pub open spec fn stripped(text: Seq<char>, count: nat) -> Seq<char>
    decreases count,
{
    if count == 0 || text.len() == 0 || text[0] != '0' {
        text
    } else {
        stripped(text.skip(1), (count - 1) as nat)
    }
}

/// A number in hexadecimal, with at least four digits.
pub open spec fn hex_word(value: u32) -> Seq<char> {
    stripped(hex_text(be32(value)), 4)
}

/// A number in hexadecimal, with at least four digits.
pub fn short_hex(value: u32) -> (text: String)
    ensures
        text@ == hex_word(value),
{
    let bytes: [u8; 4] = [
        (value / 0x100_0000) as u8,
        (value / 0x1_0000 % 256) as u8,
        (value / 0x100 % 256) as u8,
        (value % 256) as u8,
    ];
    assert(bytes@ =~= be32(value));
    let whole: String = hex_encode(bytes.as_slice());
    let count: usize = whole.as_str().unicode_len();
    let mut skip: usize = 0;
    assert(whole@.skip(0) =~= whole@);
    while skip < 4 && whole.as_str().get_char(skip) == '0'
        invariant
            skip <= 4,
            count == 8,
            whole@.len() == 8,
            stripped(whole@, 4) == stripped(whole@.skip(skip as int), (4 - skip) as nat),
        decreases 4 - skip,
    {
        assert(whole@.skip(skip as int).skip(1) =~= whole@.skip(skip + 1));
        skip += 1;
    }
    let text: String = whole.as_str().substring_char(skip, count).to_owned();
    assert(text@ =~= whole@.skip(skip as int));
    text
}

/// What is known of the device behind an adapter.
pub fn describe_adapter(
    ordinal: i32,
    name: &str,
    vendor: u32,
    device: u32,
    driver: &str,
    driver_info: &str,
    integrated: bool,
) -> (info: DeviceInfo)
    ensures
        info@ == (DeviceInfoView {
            document_tile_query_rows: Some(1),
            ..plain_device(
                ordinal,
                name@,
                "vulkan-vendor-"@ + hex_word(vendor) + "-device-"@ + hex_word(device),
                "experimental-vulkan-exact/"@ + driver@ + " / "@ + driver_info@,
                exact_only(BackendKind::Vulkan, false, integrated),
            )
        }),
{
    let mut architecture: String = "vulkan-vendor-".to_owned();
    architecture.append(short_hex(vendor).as_str());
    architecture.append("-device-");
    architecture.append(short_hex(device).as_str());
    let mut tuning: String = "experimental-vulkan-exact/".to_owned();
    tuning.append(driver);
    tuning.append(" / ");
    tuning.append(driver_info);
    let mut info: DeviceInfo = describe_device(
        ordinal,
        name.to_owned(),
        architecture,
        tuning,
        exact_capabilities(BackendKind::Vulkan, false, integrated),
    );
    info.document_tile_query_rows = Some(1);
    info
}

/// The bytes of a number.
pub open spec fn number_size(dtype: u8) -> int {
    if dtype == 1 {
        4
    } else {
        2
    }
}

/// The bytes of a tensor, or why it cannot be scored.
pub open spec fn shape_of(rows: u32, dimension: u32, dtype: u8) -> Result<usize, VulkanError> {
    let bytes = rows * dimension * number_size(dtype);
    if dtype != 1 && dtype != 2 {
        Err(VulkanError::Dtype)
    } else if rows == 0 || dimension == 0 {
        Err(VulkanError::Dimensions)
    } else if bytes > usize::MAX {
        Err(VulkanError::ShapeOverflow)
    } else {
        Ok(bytes as usize)
    }
}

/// The status of a Vulkan backend.
pub fn vulkan_status() -> (status: AdaptiveStatus)
    ensures
        is_fixed(status, u32::MAX, true),
{
    fixed_status(u32::MAX, true)
}

/// The bytes of a tensor.
pub fn shape_bytes(rows: u32, dimension: u32, dtype: u8) -> (result: Result<usize, VulkanError>)
    ensures
        result == shape_of(rows, dimension, dtype),
{
    let scalar: usize = match dtype {
        1 => 4,
        2 => 2,
        _ => {
            return Err(VulkanError::Dtype);
        },
    };
    if rows == 0 || dimension == 0 {
        return Err(VulkanError::Dimensions);
    }
    assert(rows * dimension * scalar >= rows * dimension) by (nonlinear_arith)
        requires
            scalar >= 1,
    ;
    match (rows as usize).checked_mul(dimension as usize) {
        Some(numbers) => match numbers.checked_mul(scalar) {
            Some(bytes) => Ok(bytes),
            None => Err(VulkanError::ShapeOverflow),
        },
        None => Err(VulkanError::ShapeOverflow),
    }
}

/// A length rounded up to a multiple of four.
pub open spec fn padded_length(length: int) -> int {
    (length + 3) / 4 * 4
}

/// Why a tensor cannot be uploaded.
pub open spec fn upload_fault(offset: u64, length: nat, tensor_bytes: usize) -> Option<VulkanError> {
    if offset % 4 != 0 {
        Some(VulkanError::UploadAlignment)
    } else if length + 3 > usize::MAX {
        Some(VulkanError::UploadSize)
    } else if offset + padded_length(length as int) > tensor_bytes {
        Some(VulkanError::UploadBounds)
    } else {
        None
    }
}

/// Tests all uploads before any of them changes the arena.
pub fn check_uploads(items: &[(u64, &[u8])], tensor_bytes: usize) -> (result: Result<(), VulkanError>)
    ensures
        match result {
            Ok(()) => forall|i: int|
                0 <= i < items@.len() ==> upload_fault(
                    (#[trigger] items@[i]).0,
                    items@[i].1@.len(),
                    tensor_bytes,
                ) is None,
            Err(error) => exists|i: int|
                0 <= i < items@.len() && upload_fault(
                    (#[trigger] items@[i]).0,
                    items@[i].1@.len(),
                    tensor_bytes,
                ) == Some(error) && forall|j: int|
                    0 <= j < i ==> upload_fault(
                        (#[trigger] items@[j]).0,
                        items@[j].1@.len(),
                        tensor_bytes,
                    ) is None,
        },
{
    let mut i: usize = 0;
    while i < items.len()
        invariant
            i <= items@.len(),
            forall|j: int|
                0 <= j < i ==> upload_fault(
                    (#[trigger] items@[j]).0,
                    items@[j].1@.len(),
                    tensor_bytes,
                ) is None,
        decreases items@.len() - i,
    {
        let offset: u64 = items[i].0;
        let length: usize = items[i].1.len();
        let ghost fault = upload_fault(items@[i as int].0, items@[i as int].1@.len(), tensor_bytes);
        if offset % 4 != 0 {
            assert(fault == Some(VulkanError::UploadAlignment));
            return Err(VulkanError::UploadAlignment);
        }
        let padded: usize = match length.checked_add(3) {
            Some(sum) => sum / 4 * 4,
            None => {
                assert(fault == Some(VulkanError::UploadSize));
                return Err(VulkanError::UploadSize);
            },
        };
        let within: bool = match offset.checked_add(padded as u64) {
            Some(end) => end <= tensor_bytes as u64,
            None => false,
        };
        if !within {
            assert(fault == Some(VulkanError::UploadBounds));
            return Err(VulkanError::UploadBounds);
        }
        i += 1;
    }
    Ok(())
}

/// A tensor with zeros behind it, up to a multiple of four bytes.
pub open spec fn padded(bytes: Seq<u8>) -> Seq<u8> {
    bytes + Seq::new((padded_length(bytes.len() as int) - bytes.len()) as nat, |i: int| 0u8)
}

/// A tensor with zeros behind it, up to a multiple of four bytes.
pub fn pad_payload(payload: &[u8]) -> (result: Vec<u8>)
    requires
        payload@.len() + 3 <= usize::MAX,
    ensures
        result@ == padded(payload@),
{
    let mut result: Vec<u8> = vstd::slice::slice_to_vec(payload);
    result.resize((payload.len() + 3) / 4 * 4, 0);
    assert(result@ =~= padded(payload@));
    result
}

/// The buffers of a request.
pub struct VulkanPlan {
    pub query: Vec<u8>,
    pub metadata: Vec<u8>,
    pub params: Vec<u8>,
    pub output_bytes: usize,
}

/// What the sizes of a request come to, or why it is refused.
pub open spec fn sizes_of(
    query: nat,
    query_rows: u32,
    dimension: u32,
    dtype: u8,
    profile: u8,
    offsets: nat,
    rows: nat,
    workspace_bytes: usize,
    limits: VulkanLimits,
) -> Result<usize, VulkanError> {
    let output = offsets * query_rows * 4;
    let query_padded = padded_length(query as int);
    let needed = 2 * output + query_padded + 8 * offsets + 16;
    if profile != 1 {
        Err(VulkanError::Profile)
    } else if offsets == 0 || offsets != rows {
        Err(VulkanError::Metadata)
    } else if shape_of(query_rows, dimension, dtype) is Err {
        Err(shape_of(query_rows, dimension, dtype)->Err_0)
    } else if query != shape_of(query_rows, dimension, dtype)->Ok_0 {
        Err(VulkanError::QueryShape)
    } else if offsets > limits.max_compute_workgroups_per_dimension || query_rows
        > limits.max_compute_workgroups_per_dimension {
        Err(VulkanError::Dispatch)
    } else if output > usize::MAX {
        Err(VulkanError::OutputSize)
    } else if query + 3 > usize::MAX {
        Err(VulkanError::QuerySize)
    } else if needed > usize::MAX {
        Err(VulkanError::WorkspaceSize)
    } else if needed > workspace_bytes {
        Err(VulkanError::Workspace)
    } else if !fits_buffer(query_padded, limits) || !fits_buffer(8 * offsets as int, limits)
        || !fits_buffer(output as int, limits) {
        Err(VulkanError::BufferLimit)
    } else {
        Ok(output as usize)
    }
}

/// Whether a buffer is within what a device allows.
pub open spec fn fits_buffer(size: int, limits: VulkanLimits) -> bool {
    size <= limits.max_storage_buffer_binding_size && size <= limits.max_buffer_size
}

/// Whether a document lies in the arena and is aligned to its numbers.
pub open spec fn document_fault(
    offset: u64,
    rows: u32,
    dimension: u32,
    dtype: u8,
    tensor_bytes: usize,
) -> Option<VulkanError> {
    match shape_of(rows, dimension, dtype) {
        Err(error) => Some(error),
        Ok(bytes) => if offset as int % number_size(dtype) != 0 || offset > u32::MAX || offset + bytes
            > tensor_bytes {
            Some(VulkanError::DocumentRange)
        } else {
            None
        },
    }
}

/// The table of documents that the kernel reads: where each begins, and how many
/// rows it has.
pub open spec fn document_table(offsets: Seq<u64>, rows: Seq<u32>, count: int) -> Seq<u8>
    decreases count,
{
    if count <= 0 {
        Seq::empty()
    } else {
        document_table(offsets, rows, count - 1) + le32(offsets[count - 1] as u32) + le32(
            rows[count - 1],
        )
    }
}

/// Tests the sizes of a request.
fn check_sizes(
    query: &[u8],
    query_rows: u32,
    dimension: u32,
    dtype: u8,
    profile: u8,
    offsets: &[u64],
    rows: &[u32],
    workspace_bytes: usize,
    limits: &VulkanLimits,
) -> (result: Result<usize, VulkanError>)
    requires
        offsets@.len() * 8 + 16 <= usize::MAX,
    ensures
        result == sizes_of(
            query@.len(),
            query_rows,
            dimension,
            dtype,
            profile,
            offsets@.len(),
            rows@.len(),
            workspace_bytes,
            *limits,
        ),
{
    if profile != 1 {
        return Err(VulkanError::Profile);
    }
    if offsets.len() == 0 || offsets.len() != rows.len() {
        return Err(VulkanError::Metadata);
    }
    let query_bytes: usize = shape_bytes(query_rows, dimension, dtype)?;
    if query.len() != query_bytes {
        return Err(VulkanError::QueryShape);
    }
    if offsets.len() as u64 > limits.max_compute_workgroups_per_dimension as u64 || query_rows
        > limits.max_compute_workgroups_per_dimension {
        return Err(VulkanError::Dispatch);
    }
    assert(offsets@.len() * query_rows <= offsets@.len() * query_rows * 4) by (nonlinear_arith);
    let output_bytes: usize = match offsets.len().checked_mul(query_rows as usize) {
        Some(numbers) => match numbers.checked_mul(4) {
            Some(bytes) => bytes,
            None => {
                return Err(VulkanError::OutputSize);
            },
        },
        None => {
            return Err(VulkanError::OutputSize);
        },
    };
    let metadata_bytes: usize = offsets.len() * 8;
    let padded_query_bytes: usize = match query_bytes.checked_add(3) {
        Some(sum) => sum / 4 * 4,
        None => {
            return Err(VulkanError::QuerySize);
        },
    };
    let doubled: usize = match output_bytes.checked_mul(2) {
        Some(bytes) => bytes,
        None => {
            return Err(VulkanError::WorkspaceSize);
        },
    };
    let buffers: usize = match doubled.checked_add(padded_query_bytes) {
        Some(bytes) => bytes,
        None => {
            return Err(VulkanError::WorkspaceSize);
        },
    };
    let needed: usize = match buffers.checked_add(metadata_bytes + 16) {
        Some(bytes) => bytes,
        None => {
            return Err(VulkanError::WorkspaceSize);
        },
    };
    if needed > workspace_bytes {
        return Err(VulkanError::Workspace);
    }
    let most: u64 = if (limits.max_storage_buffer_binding_size as u64) < limits.max_buffer_size {
        limits.max_storage_buffer_binding_size as u64
    } else {
        limits.max_buffer_size
    };
    if padded_query_bytes as u64 > most || metadata_bytes as u64 > most || output_bytes as u64 > most {
        return Err(VulkanError::BufferLimit);
    }
    Ok(output_bytes)
}

/// The buffers of a request, or why it is refused.
pub fn plan_score(
    query: &[u8],
    query_rows: u32,
    dimension: u32,
    dtype: u8,
    profile: u8,
    offsets: &[u64],
    rows: &[u32],
    tensor_bytes: usize,
    workspace_bytes: usize,
    limits: &VulkanLimits,
) -> (result: Result<VulkanPlan, VulkanError>)
    requires
        offsets@.len() * 8 + 16 <= usize::MAX,
    ensures
        ({
            let sizes = sizes_of(
                query@.len(),
                query_rows,
                dimension,
                dtype,
                profile,
                offsets@.len(),
                rows@.len(),
                workspace_bytes,
                *limits,
            );
            match result {
                Ok(plan) => {
                    &&& sizes == Ok::<usize, VulkanError>(plan.output_bytes)
                    &&& forall|i: int|
                        0 <= i < offsets@.len() ==> document_fault(
                            #[trigger] offsets@[i],
                            rows@[i],
                            dimension,
                            dtype,
                            tensor_bytes,
                        ) is None
                    &&& plan.query@ == padded(query@)
                    &&& plan.metadata@ == document_table(offsets@, rows@, offsets@.len() as int)
                    &&& plan.params@ == le32(query_rows) + le32(dimension) + le32(dtype as u32)
                        + le32(offsets@.len() as u32)
                },
                Err(error) => if sizes is Err {
                    sizes == Err::<usize, VulkanError>(error)
                } else {
                    exists|i: int|
                        0 <= i < offsets@.len() && document_fault(
                            #[trigger] offsets@[i],
                            rows@[i],
                            dimension,
                            dtype,
                            tensor_bytes,
                        ) == Some(error) && forall|j: int|
                            0 <= j < i ==> document_fault(
                                #[trigger] offsets@[j],
                                rows@[j],
                                dimension,
                                dtype,
                                tensor_bytes,
                            ) is None
                },
            }
        }),
{
    let output_bytes: usize = check_sizes(
        query,
        query_rows,
        dimension,
        dtype,
        profile,
        offsets,
        rows,
        workspace_bytes,
        limits,
    )?;
    let mut metadata: Vec<u8> = Vec::new();
    let mut i: usize = 0;
    let scalar: u64 = if dtype == 1 {
        4
    } else {
        2
    };
    let count: usize = offsets.len();
    while i < count
        invariant
            i <= count,
            count == offsets@.len(),
            offsets@.len() == rows@.len(),
            scalar == number_size(dtype),
            sizes_of(
                query@.len(),
                query_rows,
                dimension,
                dtype,
                profile,
                offsets@.len(),
                rows@.len(),
                workspace_bytes,
                *limits,
            ) is Ok,
            forall|j: int|
                0 <= j < i ==> document_fault(
                    #[trigger] offsets@[j],
                    rows@[j],
                    dimension,
                    dtype,
                    tensor_bytes,
                ) is None,
            metadata@ == document_table(offsets@, rows@, i as int),
        decreases count - i,
    {
        let offset: u64 = offsets[i];
        let ghost fault = document_fault(
            offsets@[i as int],
            rows@[i as int],
            dimension,
            dtype,
            tensor_bytes,
        );
        let bytes: usize = match shape_bytes(rows[i], dimension, dtype) {
            Ok(bytes) => bytes,
            Err(error) => {
                assert(fault == Some(error));
                return Err(error);
            },
        };
        let within: bool = match offset.checked_add(bytes as u64) {
            Some(end) => end <= tensor_bytes as u64,
            None => false,
        };
        if offset % scalar != 0 || offset > 0xffff_ffff || !within {
            assert(fault == Some(VulkanError::DocumentRange));
            return Err(VulkanError::DocumentRange);
        }
        put_u32(&mut metadata, offset as u32);
        put_u32(&mut metadata, rows[i]);
        i += 1;
    }
    let mut params: Vec<u8> = Vec::new();
    put_u32(&mut params, query_rows);
    put_u32(&mut params, dimension);
    put_u32(&mut params, dtype as u32);
    put_u32(&mut params, count as u32);
    assert(params@ =~= le32(query_rows) + le32(dimension) + le32(dtype as u32) + le32(
        offsets@.len() as u32,
    ));
    let query: Vec<u8> = pad_payload(query);
    Ok(VulkanPlan { query, metadata, params, output_bytes })
}

/// The numbers of a buffer, as their bits.
pub fn read_numbers(bytes: &[u8]) -> (numbers: Vec<u32>)
    ensures
        numbers@.len() == bytes@.len() / 4,
        forall|i: int|
            0 <= i < numbers@.len() ==> #[trigger] numbers@[i] == of32(
                bytes@.subrange(4 * i, 4 * i + 4),
            ),
{
    let mut numbers: Vec<u32> = Vec::new();
    let count: usize = bytes.len() / 4;
    let mut i: usize = 0;
    while i < count
        invariant
            i <= count,
            count == bytes@.len() / 4,
            numbers@.len() == i,
            forall|j: int|
                0 <= j < i ==> #[trigger] numbers@[j] == of32(bytes@.subrange(4 * j, 4 * j + 4)),
        decreases count - i,
    {
        assert(bytes.len() == bytes@.len());
        numbers.push(u32_at(bytes, 4 * i));
        i += 1;
    }
    numbers
}

/// Whether `value` may be the sum of the first `count` numbers. The sum of one
/// number is the number itself.
pub open spec fn is_sum<A: Fn(u32, u32) -> u32>(
    plus: A,
    numbers: Seq<u32>,
    count: int,
    value: u32,
) -> bool
    decreases count,
{
    if count <= 1 {
        value == numbers[0]
    } else {
        exists|before: u32| #[trigger]
            gives(plus, before, numbers[count - 1], value) && is_sum(plus, numbers, count - 1, before)
    }
}

fn sum_of<A: Fn(u32, u32) -> u32>(plus: &A, numbers: &Vec<u32>) -> (sum: u32)
    requires
        numbers@.len() > 0,
        forall|left: u32, right: u32| call_requires(*plus, (left, right)),
    ensures
        is_sum(*plus, numbers@, numbers@.len() as int, sum),
{
    let mut sum: u32 = numbers[0];
    let mut i: usize = 1;
    while i < numbers.len()
        invariant
            1 <= i <= numbers@.len(),
            forall|left: u32, right: u32| call_requires(*plus, (left, right)),
            is_sum(*plus, numbers@, i as int, sum),
        decreases numbers@.len() - i,
    {
        let ghost before = sum;
        sum = plus(sum, numbers[i]);
        proof {
            let count = i + 1;
            assert(gives(*plus, before, numbers@[count - 1], sum));
            assert(is_sum(*plus, numbers@, count, sum));
        }
        i += 1;
    }
    sum
}

/// Whether `score` may be that of candidate `c`: the sum of its largest products,
/// one for each query row.
pub open spec fn is_candidate_score<A: Fn(u32, u32) -> u32>(
    plus: A,
    products: Seq<u32>,
    query_rows: u32,
    c: int,
    score: u32,
) -> bool {
    is_sum(
        plus,
        products.subrange(c * query_rows, (c + 1) * query_rows),
        query_rows as int,
        score,
    )
}

/// The scores of a request, from the products that the device left: for each
/// candidate the largest product of every query row.
pub fn finish_scores<A: Fn(u32, u32) -> u32>(products: &[u32], query_rows: u32, plus: &A) -> (result: Result<
    Vec<u32>,
    VulkanError,
>)
    requires
        query_rows > 0,
        forall|left: u32, right: u32| call_requires(*plus, (left, right)),
    ensures
        match result {
            Ok(scores) => {
                &&& scores@.len() == products@.len() / query_rows as nat
                &&& all_finite(scores@)
                &&& forall|c: int|
                    0 <= c < scores@.len() ==> is_candidate_score(
                        *plus,
                        products@,
                        query_rows,
                        c,
                        #[trigger] scores@[c],
                    )
            },
            Err(error) => error == VulkanError::NonFinite && exists|c: int, score: u32|
                0 <= c < products@.len() / query_rows as nat && !finite32(score)
                    && #[trigger] is_candidate_score(*plus, products@, query_rows, c, score),
        },
{
    let rows: Vec<Vec<u32>> = split_scores(products, query_rows as usize);
    let mut scores: Vec<u32> = Vec::new();
    let mut c: usize = 0;
    while c < rows.len()
        invariant
            c <= rows@.len(),
            scores@.len() == c,
            query_rows > 0,
            rows@.len() == products@.len() / query_rows as nat,
            forall|r: int|
                0 <= r < rows@.len() ==> (#[trigger] rows@[r])@ == products@.subrange(
                    r * query_rows,
                    (r + 1) * query_rows,
                ),
            forall|left: u32, right: u32| call_requires(*plus, (left, right)),
            forall|i: int|
                0 <= i < c ==> is_candidate_score(
                    *plus,
                    products@,
                    query_rows,
                    i,
                    #[trigger] scores@[i],
                ),
        decreases rows@.len() - c,
    {
        proof {
            let at = c as int;
            let wide = query_rows as int;
            let total = products@.len() as int;
            assert(rows@[at]@ == products@.subrange(at * wide, (at + 1) * wide));
            assert((at + 1) * wide == at * wide + wide) by (nonlinear_arith);
            assert(0 <= at * wide && (at + 1) * wide <= total) by (nonlinear_arith)
                requires
                    0 <= at < total / wide,
                    wide > 0,
            ;
        }
        let score: u32 = sum_of(plus, &rows[c]);
        assert(is_candidate_score(*plus, products@, query_rows, c as int, score));
        scores.push(score);
        c += 1;
    }
    if !finite_scores(scores.as_slice()) {
        proof {
            let c = choose|c: int| 0 <= c < scores@.len() && !finite32(#[trigger] scores@[c]);
            assert(is_candidate_score(*plus, products@, query_rows, c, scores@[c]));
        }
        return Err(VulkanError::NonFinite);
    }
    Ok(scores)
}

/// Whether the places of queries in a batch begin at zero and rise.
pub open spec fn places_rise(places: Seq<u32>) -> bool {
    &&& places.len() >= 2
    &&& places[0] == 0
    &&& forall|i: int, j: int|
        0 <= i < j < places.len() ==> (#[trigger] places[i]) < (#[trigger] places[j])
}

/// Tests the shape of a batch. The result is the bytes of a row.
pub fn check_batch(queries: &[u8], query_offsets: &[u32], dimension: u32, dtype: u8) -> (result: Result<
    usize,
    VulkanError,
>)
    ensures
        if !places_rise(query_offsets@) {
            result == Err::<usize, VulkanError>(VulkanError::BatchOffsets)
        } else if shape_of(1, dimension, dtype) is Err {
            result == shape_of(1, dimension, dtype)
        } else {
            match shape_of(query_offsets@.last(), dimension, dtype) {
                Err(error) => result == Err::<usize, VulkanError>(error),
                Ok(bytes) => result == if bytes == queries@.len() {
                    shape_of(1, dimension, dtype)
                } else {
                    Err(VulkanError::BatchShape)
                },
            }
        },
{
    let count: usize = query_offsets.len();
    if count < 2 || query_offsets[0] != 0 {
        return Err(VulkanError::BatchOffsets);
    }
    let mut i: usize = 1;
    while i < count
        invariant
            1 <= i <= count,
            count == query_offsets@.len(),
            count >= 2,
            query_offsets@[0] == 0,
            forall|a: int, b: int|
                0 <= a < b < i ==> (#[trigger] query_offsets@[a]) < (#[trigger] query_offsets@[b]),
        decreases count - i,
    {
        if query_offsets[i - 1] >= query_offsets[i] {
            assert(!(query_offsets@[i - 1] < query_offsets@[i as int]));
            return Err(VulkanError::BatchOffsets);
        }
        assert forall|a: int, b: int| 0 <= a < b < i + 1 implies (#[trigger] query_offsets@[a]) < (
        #[trigger] query_offsets@[b]) by {
            if b == i && a < i - 1 {
                assert(query_offsets@[a] < query_offsets@[i - 1]);
            }
        }
        i += 1;
    }
    let row_bytes: usize = shape_bytes(1, dimension, dtype)?;
    let bytes: usize = shape_bytes(query_offsets[count - 1], dimension, dtype)?;
    if bytes != queries.len() {
        return Err(VulkanError::BatchShape);
    }
    Ok(row_bytes)
}

/// A sum takes every number, in order, beginning with the first.
pub proof fn sums_take_every_number<A: Fn(u32, u32) -> u32>(
    plus: A,
    sum: spec_fn(u32, u32) -> u32,
    numbers: Seq<u32>,
    count: int,
    value: u32,
)
    requires
        forall|left: u32, right: u32, value: u32| #[trigger]
            call_ensures(plus, (left, right), value) ==> value == sum(left, right),
        1 <= count <= numbers.len(),
        is_sum(plus, numbers, count, value),
    ensures
        value == numbers.subrange(1, count).fold_left(numbers[0], sum),
    decreases count,
{
    let rest = numbers.subrange(1, count);
    if count > 1 {
        let before = choose|before: u32| #[trigger]
            gives(plus, before, numbers[count - 1], value) && is_sum(
                plus,
                numbers,
                count - 1,
                before,
            );
        assert(call_ensures(plus, (before, numbers[count - 1]), value));
        sums_take_every_number(plus, sum, numbers, count - 1, before);
        assert(rest.drop_last() =~= numbers.subrange(1, count - 1));
        assert(rest.last() == numbers[count - 1]);
    } else {
        assert(rest =~= Seq::<u32>::empty());
    }
}

/// The score of a candidate is the sum of its own products, one for each query row: those
/// that begin at its number times the query rows.
pub proof fn candidates_sum_their_own_products<A: Fn(u32, u32) -> u32>(
    plus: A,
    sum: spec_fn(u32, u32) -> u32,
    products: Seq<u32>,
    query_rows: u32,
    c: int,
    score: u32,
)
    requires
        forall|left: u32, right: u32, value: u32| #[trigger]
            call_ensures(plus, (left, right), value) ==> value == sum(left, right),
        query_rows > 0,
        0 <= c,
        (c + 1) * query_rows <= products.len(),
        is_candidate_score(plus, products, query_rows, c, score),
    ensures
        score == products.subrange(c * query_rows + 1, (c + 1) * query_rows).fold_left(
            products[c * query_rows],
            sum,
        ),
{
    let from = c * query_rows;
    let rows = query_rows as int;
    assert((c + 1) * rows == from + rows) by (nonlinear_arith)
        requires
            from == c * rows,
    ;
    assert(from >= 0) by (nonlinear_arith)
        requires
            from == c * rows,
            c >= 0,
            rows >= 0,
    ;
    let own = products.subrange(from, from + rows);
    sums_take_every_number(plus, sum, own, rows, score);
    assert(own.subrange(1, rows) =~= products.subrange(from + 1, from + rows));
}

/// An adapter is counted where it is no software adapter, or those are allowed.
pub proof fn ordinals_count_serving_adapters(
    kinds: Seq<AdapterKind>,
    allow_software: bool,
    count: int,
)
    requires
        0 <= count <= kinds.len(),
    ensures
        serving(kinds, allow_software, count) == kinds.take(count).filter(
            |kind: AdapterKind| allow_software || kind != AdapterKind::Other,
        ).len(),
    decreases count,
{
    reveal(Seq::filter);
    if count > 0 {
        ordinals_count_serving_adapters(kinds, allow_software, count - 1);
        assert(kinds.take(count).drop_last() =~= kinds.take(count - 1));
    }
}

/// The table of documents has eight bytes for each: its offset and its rows.
pub proof fn tables_list_every_document(offsets: Seq<u64>, rows: Seq<u32>, count: int, i: int)
    requires
        0 <= i < count <= offsets.len(),
        count <= rows.len(),
        offsets[i] <= u32::MAX,
    ensures
        document_table(offsets, rows, count).len() == 8 * count,
        of32(document_table(offsets, rows, count).subrange(8 * i, 8 * i + 4)) == offsets[i],
        of32(document_table(offsets, rows, count).subrange(8 * i + 4, 8 * i + 8)) == rows[i],
    decreases count,
{
    lemma_table_length(offsets, rows, count);
    lemma_table_length(offsets, rows, count - 1);
    let before = document_table(offsets, rows, count - 1);
    let table = document_table(offsets, rows, count);
    if i < count - 1 {
        tables_list_every_document(offsets, rows, count - 1, i);
        assert(table.subrange(8 * i, 8 * i + 4) =~= before.subrange(8 * i, 8 * i + 4));
        assert(table.subrange(8 * i + 4, 8 * i + 8) =~= before.subrange(8 * i + 4, 8 * i + 8));
    } else {
        assert(table.subrange(8 * i, 8 * i + 4) =~= le32(offsets[i] as u32));
        assert(table.subrange(8 * i + 4, 8 * i + 8) =~= le32(rows[i]));
        crate::bytes::lemma_of32_le32(offsets[i] as u32);
        crate::bytes::lemma_of32_le32(rows[i]);
    }
}

proof fn lemma_table_length(offsets: Seq<u64>, rows: Seq<u32>, count: int)
    requires
        0 <= count,
    ensures
        document_table(offsets, rows, count).len() == 8 * count,
    decreases count,
{
    if count > 0 {
        lemma_table_length(offsets, rows, count - 1);
    }
}

} // verus!
