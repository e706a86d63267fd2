//! What the CUDA backend asks of a batch before it is scored, and what it makes
//! of the scores.

use crate::gpu::{Gpu, GpuError};
use crate::scoring::{all_finite, finite_scores, split_scores};
use vstd::prelude::*;

verus! {

/// A batch that can be scored: the number of its requests, the rows of all their
/// queries, and the number of scores.
#[derive(Clone, Copy, Debug, PartialEq, Eq, Structural)]
pub struct BatchPlan {
    pub requests: usize,
    pub query_rows: u32,
    pub outputs: usize,
}

/// Whether a list of documents has a row count for each place, and is not empty.
pub open spec fn documents_fit(offsets: nat, rows: nat) -> bool {
    offsets == rows && offsets != 0
}

/// The rows of a list of scores.
pub open spec fn rows_of(rows: Seq<Vec<u32>>, flat: Seq<u32>, width: nat) -> bool {
    &&& rows.len() == flat.len() / width
    &&& forall|r: int|
        0 <= r < rows.len() ==> (#[trigger] rows[r])@ == flat.subrange(r * width, (r + 1) * width)
}

/// Tests the documents of a request.
pub fn check_documents(offsets: usize, rows: usize) -> (result: Result<(), GpuError>)
    ensures
        result == if documents_fit(offsets as nat, rows as nat) {
            Ok::<(), GpuError>(())
        } else {
            Err(GpuError::Metadata)
        },
{
    if offsets != rows || offsets == 0 {
        return Err(GpuError::Metadata);
    }
    Ok(())
}

/// The scores of a request, where they are finite.
pub fn finish_scores(scores: Vec<u32>) -> (result: Result<Vec<u32>, GpuError>)
    ensures
        match result {
            Ok(output) => all_finite(scores@) && output@ == scores@,
            Err(error) => !all_finite(scores@) && error == GpuError::NonFinite,
        },
{
    if !finite_scores(&scores) {
        return Err(GpuError::NonFinite);
    }
    Ok(scores)
}

/// The scores of a quantized request, where they are finite.
pub fn finish_pq_scores(scores: Vec<u32>) -> (result: Result<Vec<u32>, GpuError>)
    ensures
        match result {
            Ok(output) => all_finite(scores@) && output@ == scores@,
            Err(error) => !all_finite(scores@) && error == GpuError::PqNonFinite,
        },
{
    if !finite_scores(&scores) {
        return Err(GpuError::PqNonFinite);
    }
    Ok(scores)
}

/// The scores of a batch, request by request, where they are finite.
pub fn finish_batch(flat: &[u32], documents: usize) -> (result: Result<Vec<Vec<u32>>, GpuError>)
    requires
        documents > 0,
        flat@.len() % documents as nat == 0,
    ensures
        match result {
            Ok(rows) => all_finite(flat@) && rows_of(rows@, flat@, documents as nat),
            Err(error) => !all_finite(flat@) && error == GpuError::BatchNonFinite,
        },
{
    if !finite_scores(flat) {
        return Err(GpuError::BatchNonFinite);
    }
    Ok(split_scores(flat, documents))
}

/// The scores of a quantized batch, request by request, where they are finite.
pub fn finish_pq_batch(flat: &[u32], documents: usize) -> (result: Result<
    Vec<Vec<u32>>,
    GpuError,
>)
    requires
        documents > 0,
    ensures
        match result {
            Ok(rows) => all_finite(flat@) && rows_of(rows@, flat@, documents as nat),
            Err(error) => !all_finite(flat@) && error == GpuError::PqBatchNonFinite,
        },
{
    if !finite_scores(flat) {
        return Err(GpuError::PqBatchNonFinite);
    }
    Ok(split_scores(flat, documents))
}

/// Why a batch is not scored.
pub open spec fn batch_fault(tensor: bool, dtype: u8, query_offsets: Seq<u32>) -> Option<GpuError> {
    if tensor && dtype != 2 {
        Some(GpuError::TensorDtype)
    } else if query_offsets.len() < 3 || query_offsets[0] != 0 {
        Some(GpuError::BatchOffsets)
    } else if query_offsets.len() - 1 > u32::MAX {
        Some(GpuError::BatchSize)
    } else {
        None
    }
}

/// Tests a batch, for the matrix engine or for the tile kernel.
pub fn check_batch(tensor: bool, dtype: u8, query_offsets: &[u32], documents: usize) -> (result:
    Result<BatchPlan, GpuError>)
    requires
        (query_offsets@.len() - 1) * documents <= usize::MAX,
    ensures
        match result {
            Ok(plan) => batch_fault(tensor, dtype, query_offsets@) is None && plan == (BatchPlan {
                requests: (query_offsets@.len() - 1) as usize,
                query_rows: query_offsets@.last(),
                outputs: ((query_offsets@.len() - 1) * documents) as usize,
            }),
            Err(error) => batch_fault(tensor, dtype, query_offsets@) == Some(error),
        },
{
    if tensor && dtype != 2 {
        return Err(GpuError::TensorDtype);
    }
    if query_offsets.len() < 3 || query_offsets[0] != 0 {
        return Err(GpuError::BatchOffsets);
    }
    let requests: usize = query_offsets.len() - 1;
    let query_rows: u32 = query_offsets[requests];
    if requests as u64 > 0xffff_ffff {
        return Err(GpuError::BatchSize);
    }
    Ok(BatchPlan { requests, query_rows, outputs: requests * documents })
}

/// The bytes of a number of a kind.
pub open spec fn scalar_size(dtype: u8) -> nat {
    if dtype == 1 {
        4
    } else {
        2
    }
}

/// Why a quantized batch is not scored, once its quantizer is on the device.
pub open spec fn pq_batch_fault(
    queries: nat,
    query_offsets: Seq<u32>,
    dimension: u32,
    dtype: u8,
    offsets: nat,
    rows: nat,
) -> Option<GpuError> {
    let bytes = query_offsets.last() * dimension * scalar_size(dtype);
    if query_offsets.len() < 3 || query_offsets[0] != 0 {
        Some(GpuError::PqBatchOffsets)
    } else if dtype != 1 && dtype != 2 {
        Some(GpuError::PqBatchDtype)
    } else if bytes > usize::MAX {
        Some(GpuError::PqBatchOverflow)
    } else if bytes != queries {
        Some(GpuError::PqBatchShape)
    } else if !documents_fit(offsets, rows) {
        Some(GpuError::PqBatchMetadata)
    } else {
        None
    }
}

impl Gpu {
    /// Tests a quantized request, and gives the quantizer that scores it.
    pub fn check_pq(&self, contract_id: &str, offsets: usize, rows: usize) -> (result: Result<
        usize,
        GpuError,
    >)
        requires
            self.quantizers.wf(),
        ensures
            result == if !self.quantizers@.contains_key(contract_id@) {
                Err::<usize, GpuError>(GpuError::NoQuantizer)
            } else if !documents_fit(offsets as nat, rows as nat) {
                Err(GpuError::PqMetadata)
            } else {
                Ok(self.quantizers@[contract_id@])
            },
    {
        let handle: usize = match self.quantizer(contract_id) {
            Some(handle) => handle,
            None => {
                return Err(GpuError::NoQuantizer);
            },
        };
        if offsets != rows || offsets == 0 {
            return Err(GpuError::PqMetadata);
        }
        Ok(handle)
    }

    /// Tests a quantized batch, and gives the quantizer that scores it.
    pub fn check_pq_batch(
        &self,
        contract_id: &str,
        queries: usize,
        query_offsets: &[u32],
        dimension: u32,
        dtype: u8,
        offsets: usize,
        rows: usize,
    ) -> (result: Result<(usize, BatchPlan), GpuError>)
        requires
            self.quantizers.wf(),
            (query_offsets@.len() - 1) * offsets <= usize::MAX,
        ensures
            ({
                let fault = if !self.quantizers@.contains_key(contract_id@) {
                    Some(GpuError::NoQuantizer)
                } else {
                    pq_batch_fault(
                        queries as nat,
                        query_offsets@,
                        dimension,
                        dtype,
                        offsets as nat,
                        rows as nat,
                    )
                };
                match result {
                    Ok((handle, plan)) => {
                        &&& fault is None
                        &&& handle == self.quantizers@[contract_id@]
                        &&& plan == (BatchPlan {
                            requests: (query_offsets@.len() - 1) as usize,
                            query_rows: query_offsets@.last(),
                            outputs: ((query_offsets@.len() - 1) * offsets) as usize,
                        })
                    },
                    Err(error) => fault == Some(error),
                }
            }),
    {
        let handle: usize = match self.quantizer(contract_id) {
            Some(handle) => handle,
            None => {
                return Err(GpuError::NoQuantizer);
            },
        };
        if query_offsets.len() < 3 || query_offsets[0] != 0 {
            return Err(GpuError::PqBatchOffsets);
        }
        let requests: usize = query_offsets.len() - 1;
        let query_rows: u32 = query_offsets[requests];
        if dtype != 1 && dtype != 2 {
            return Err(GpuError::PqBatchDtype);
        }
        let scalar_bytes: u128 = if dtype == 1 {
            4
        } else {
            2
        };
        assert(query_rows * dimension <= 0xffff_ffff * 0xffff_ffff) by (nonlinear_arith)
            requires
                query_rows <= 0xffff_ffff,
                dimension <= 0xffff_ffff,
        ;
        let expected: u128 = query_rows as u128 * dimension as u128 * scalar_bytes;
        assert(query_rows * dimension * scalar_bytes == expected);
        if expected > usize::MAX as u128 {
            return Err(GpuError::PqBatchOverflow);
        }
        if expected != queries as u128 {
            return Err(GpuError::PqBatchShape);
        }
        if offsets != rows || offsets == 0 {
            return Err(GpuError::PqBatchMetadata);
        }
        Ok((handle, BatchPlan { requests, query_rows, outputs: requests * offsets }))
    }
}

} // verus!
