//! What the Metal backend asks of its device.

use crate::backend::{
    describe_device, exact_capabilities, exact_only, fixed_status, is_fixed, plain_device,
    AdaptiveStatus, BackendKind, DeviceInfo, DeviceInfoView,
};
use crate::scoring::{all_finite, finite_scores, split_scores};
use vstd::prelude::*;

verus! {

/// Why the backend refuses.
#[derive(Clone, Copy, Debug, PartialEq, Eq, Structural)]
pub enum MetalError {
    NullArena,
    DeviceInfo,
    Quantized,
    Profile,
    Metadata,
    NonFinite,
    QuantizedBatch,
    BatchOffsets,
    BatchMetadata,
    BatchSize,
    BatchNonFinite,
}

impl MetalError {
    pub open spec fn message_text(self) -> Seq<char> {
        match self {
            MetalError::NullArena => "Metal returned a null arena"@,
            MetalError::DeviceInfo => "Metal device information is unavailable"@,
            MetalError::Quantized => "Metal backend does not support PQ-family profiles"@,
            MetalError::Profile => "Metal backend supports only exact FP16/FP32 scoring"@,
            MetalError::Metadata => "invalid Metal document metadata"@,
            MetalError::NonFinite => "Metal TileMaxSim returned a non-finite score"@,
            MetalError::QuantizedBatch =>
                "Metal backend does not support quantized batch scoring"@,
            MetalError::BatchOffsets => "invalid Metal batch query offsets"@,
            MetalError::BatchMetadata => "invalid Metal batch document metadata"@,
            MetalError::BatchSize => "Metal batch output shape overflows address space"@,
            MetalError::BatchNonFinite => "Metal batch TileMaxSim returned a non-finite score"@,
        }
    }

    /// The error in words.
    pub fn message(self) -> (text: &'static str)
        ensures
            text@ == self.message_text(),
    {
        match self {
            MetalError::NullArena => "Metal returned a null arena",
            MetalError::DeviceInfo => "Metal device information is unavailable",
            MetalError::Quantized => "Metal backend does not support PQ-family profiles",
            MetalError::Profile => "Metal backend supports only exact FP16/FP32 scoring",
            MetalError::Metadata => "invalid Metal document metadata",
            MetalError::NonFinite => "Metal TileMaxSim returned a non-finite score",
            MetalError::QuantizedBatch => "Metal backend does not support quantized batch scoring",
            MetalError::BatchOffsets => "invalid Metal batch query offsets",
            MetalError::BatchMetadata => "invalid Metal batch document metadata",
            MetalError::BatchSize => "Metal batch output shape overflows address space",
            MetalError::BatchNonFinite => "Metal batch TileMaxSim returned a non-finite score",
        }
    }
}

/// What is known of a Metal device.
pub fn describe_metal(ordinal: i32, name: &str, recommended_working_set_bytes: u64) -> (info: DeviceInfo)
    ensures
        info@ == (DeviceInfoView {
            total_memory_bytes: if recommended_working_set_bytes != 0 {
                Some(recommended_working_set_bytes)
            } else {
                None
            },
            warp_size: Some(32),
            document_tile_query_rows: Some(8),
            ..plain_device(
                ordinal,
                name@,
                "apple-gpu"@,
                "metal-apple-unified"@,
                exact_only(BackendKind::Metal, true, true),
            )
        }),
{
    let mut info: DeviceInfo = describe_device(
        ordinal,
        name.to_owned(),
        "apple-gpu".to_owned(),
        "metal-apple-unified".to_owned(),
        exact_capabilities(BackendKind::Metal, true, true),
    );
    if recommended_working_set_bytes != 0 {
        info.total_memory_bytes = Some(recommended_working_set_bytes);
    }
    info.warp_size = Some(32);
    info.document_tile_query_rows = Some(8);
    info
}

/// The status of a Metal backend.
pub fn metal_status() -> (status: AdaptiveStatus)
    ensures
        is_fixed(status, 0, false),
{
    fixed_status(0, false)
}

/// Tests a request before it is handed to the device.
pub fn check_score(scoring_profile: u8, document_offsets: &[u64], document_rows: &[u32]) -> (result: Result<
    (),
    MetalError,
>)
    ensures
        result == if scoring_profile != 1 {
            Err::<(), MetalError>(MetalError::Profile)
        } else if document_offsets@.len() != document_rows@.len() || document_offsets@.len() == 0 {
            Err(MetalError::Metadata)
        } else {
            Ok(())
        },
{
    if scoring_profile != 1 {
        return Err(MetalError::Profile);
    }
    if document_offsets.len() != document_rows.len() || document_offsets.len() == 0 {
        return Err(MetalError::Metadata);
    }
    Ok(())
}

/// Tests the scores that the device gave.
pub fn check_output(output: &[u32]) -> (result: Result<(), MetalError>)
    ensures
        result == if all_finite(output@) {
            Ok::<(), MetalError>(())
        } else {
            Err(MetalError::NonFinite)
        },
{
    if finite_scores(output) {
        Ok(())
    } else {
        Err(MetalError::NonFinite)
    }
}

/// The number of scores of a batch, or why the batch is refused.
pub open spec fn batch_size(
    query_offsets: Seq<u32>,
    scoring_profile: u8,
    offsets: nat,
    rows: nat,
) -> Result<usize, MetalError> {
    let scores = (query_offsets.len() - 1) * offsets;
    if scoring_profile != 1 {
        Err(MetalError::QuantizedBatch)
    } else if query_offsets.len() < 3 || query_offsets[0] != 0 {
        Err(MetalError::BatchOffsets)
    } else if offsets != rows || offsets == 0 {
        Err(MetalError::BatchMetadata)
    } else if scores > usize::MAX {
        Err(MetalError::BatchSize)
    } else {
        Ok(scores as usize)
    }
}

/// The number of scores of a batch.
pub fn plan_batch(
    query_offsets: &[u32],
    scoring_profile: u8,
    document_offsets: &[u64],
    document_rows: &[u32],
) -> (result: Result<usize, MetalError>)
    ensures
        result == batch_size(
            query_offsets@,
            scoring_profile,
            document_offsets@.len(),
            document_rows@.len(),
        ),
{
    if scoring_profile != 1 {
        return Err(MetalError::QuantizedBatch);
    }
    if query_offsets.len() < 3 || query_offsets[0] != 0 {
        return Err(MetalError::BatchOffsets);
    }
    if document_offsets.len() != document_rows.len() || document_offsets.len() == 0 {
        return Err(MetalError::BatchMetadata);
    }
    match (query_offsets.len() - 1).checked_mul(document_offsets.len()) {
        Some(count) => Ok(count),
        None => Err(MetalError::BatchSize),
    }
}

/// The scores of a batch, query by query.
pub fn finish_batch(flat: &[u32], documents: usize) -> (result: Result<Vec<Vec<u32>>, MetalError>)
    requires
        documents > 0,
    ensures
        match result {
            Ok(rows) => {
                &&& all_finite(flat@)
                &&& rows@.len() == flat@.len() / documents as nat
                &&& forall|r: int|
                    0 <= r < rows@.len() ==> (#[trigger] rows@[r])@ == flat@.subrange(
                        r * documents,
                        (r + 1) * documents,
                    )
            },
            Err(error) => !all_finite(flat@) && error == MetalError::BatchNonFinite,
        },
{
    if !finite_scores(flat) {
        return Err(MetalError::BatchNonFinite);
    }
    Ok(split_scores(flat, documents))
}

} // verus!
