//! The reference backend: tensors in host memory, scored one after the other.
//!
//! The products, maxima and sums of floating-point numbers come as functions
//! from the caller, on the bits of single-precision numbers.

use crate::backend::{
    describe_device, exact_capabilities, exact_only, fixed_status, is_fixed, plain_device, AdaptiveStatus,
    BackendKind, DeviceInfo, DeviceInfoView,
};
use vstd::prelude::*;

verus! {

/// Why the backend refuses.
#[derive(Clone, Copy, Debug, PartialEq, Eq, Structural)]
pub enum CpuError {
    Ordinal,
    Arena,
    Quantized,
    UploadOffset,
    UploadRange,
    UploadBounds,
    Profile,
    Metadata,
    QueryDtype,
    QueryShape,
    DocumentOffset,
    DocumentBounds,
    QuantizedBatch,
}

impl CpuError {
    pub open spec fn message_text(self) -> Seq<char> {
        match self {
            CpuError::Ordinal => "the CPU backend exposes exactly one device with ordinal 0"@,
            CpuError::Arena => "invalid CPU arena configuration"@,
            CpuError::Quantized => "CPU backend does not support PQ-family profiles"@,
            CpuError::UploadOffset => "CPU arena offset overflow"@,
            CpuError::UploadRange => "CPU arena range overflow"@,
            CpuError::UploadBounds => "CPU arena upload exceeds allocation"@,
            CpuError::Profile => "CPU reference backend supports exact_fp16 only"@,
            CpuError::Metadata => "invalid CPU document metadata"@,
            CpuError::QueryDtype => "unsupported CPU query dtype"@,
            CpuError::QueryShape => "CPU query shape disagrees with payload"@,
            CpuError::DocumentOffset => "CPU document offset overflow"@,
            CpuError::DocumentBounds => "CPU document exceeds arena"@,
            CpuError::QuantizedBatch => "CPU backend does not support quantized batch scoring"@,
        }
    }

    /// The error in words.
    pub fn message(self) -> (text: &'static str)
        ensures
            text@ == self.message_text(),
    {
        match self {
            CpuError::Ordinal => "the CPU backend exposes exactly one device with ordinal 0",
            CpuError::Arena => "invalid CPU arena configuration",
            CpuError::Quantized => "CPU backend does not support PQ-family profiles",
            CpuError::UploadOffset => "CPU arena offset overflow",
            CpuError::UploadRange => "CPU arena range overflow",
            CpuError::UploadBounds => "CPU arena upload exceeds allocation",
            CpuError::Profile => "CPU reference backend supports exact_fp16 only",
            CpuError::Metadata => "invalid CPU document metadata",
            CpuError::QueryDtype => "unsupported CPU query dtype",
            CpuError::QueryShape => "CPU query shape disagrees with payload",
            CpuError::DocumentOffset => "CPU document offset overflow",
            CpuError::DocumentBounds => "CPU document exceeds arena",
            CpuError::QuantizedBatch => "CPU backend does not support quantized batch scoring",
        }
    }
}

/// The bits of negative infinity.
pub const NEGATIVE_INFINITY: u32 = 0xff80_0000;

/// The bytes of a number.
pub open spec fn number_bytes(dtype: u8) -> int {
    if dtype == 1 {
        4
    } else {
        2
    }
}

/// Whether a function of two numbers may give `value`.
pub open spec fn gives<F: Fn(u32, u32) -> u32>(function: F, left: u32, right: u32, value: u32) -> bool {
    call_ensures(function, (left, right), value)
}

/// Whether `value` may be the largest product of the query row at `query_at` and
/// one of the first `rows` document rows, which are `stride` bytes each and begin
/// at `start`.
pub open spec fn best_product<D: Fn(usize, usize) -> u32, M: Fn(u32, u32) -> u32>(
    dot: D,
    larger: M,
    query_at: int,
    start: int,
    stride: int,
    rows: int,
    value: u32,
) -> bool
    decreases rows,
{
    if rows <= 0 {
        value == NEGATIVE_INFINITY
    } else {
        exists|before: u32, product: u32| #[trigger]
            gives(larger, before, product, value) && call_ensures(
                dot,
                (query_at as usize, (start + (rows - 1) * stride) as usize),
                product,
            ) && best_product(dot, larger, query_at, start, stride, rows - 1, before)
    }
}

/// Whether `value` may be the sum, over the first `query_rows` query rows, of the
/// largest product with a document row. The query begins at `base`.
pub open spec fn maxsim<D: Fn(usize, usize) -> u32, M: Fn(u32, u32) -> u32, A: Fn(u32, u32) -> u32>(
    dot: D,
    larger: M,
    plus: A,
    base: int,
    query_rows: int,
    start: int,
    stride: int,
    rows: int,
    value: u32,
) -> bool
    decreases query_rows,
{
    if query_rows <= 0 {
        value == 0
    } else {
        exists|before: u32, best: u32| #[trigger]
            gives(plus, before, best, value) && best_product(
                dot,
                larger,
                base + (query_rows - 1) * stride,
                start,
                stride,
                rows,
                best,
            ) && maxsim(dot, larger, plus, base, query_rows - 1, start, stride, rows, before)
    }
}

/// The largest product of a query row and the rows of a document.
fn best_row<D: Fn(usize, usize) -> u32, M: Fn(u32, u32) -> u32>(
    dot: &D,
    larger: &M,
    query_at: usize,
    start: usize,
    stride: usize,
    rows: usize,
) -> (best: u32)
    requires
        start + rows * stride <= usize::MAX,
        forall|left: usize, right: usize| call_requires(*dot, (left, right)),
        forall|left: u32, right: u32| call_requires(*larger, (left, right)),
    ensures
        best_product(
            *dot,
            *larger,
            query_at as int,
            start as int,
            stride as int,
            rows as int,
            best,
        ),
{
    let ghost wide = stride as int;
    let mut best: u32 = NEGATIVE_INFINITY;
    let mut row: usize = 0;
    let mut at: usize = start;
    assert(0 * wide == 0) by (nonlinear_arith);
    while row < rows
        invariant
            row <= rows,
            wide == stride,
            at == start + row * wide,
            start + rows * wide <= usize::MAX,
            forall|left: usize, right: usize| call_requires(*dot, (left, right)),
            forall|left: u32, right: u32| call_requires(*larger, (left, right)),
            best_product(*dot, *larger, query_at as int, start as int, wide, row as int, best),
        decreases rows - row,
    {
        assert((row + 1) * wide <= rows * wide) by (nonlinear_arith)
            requires
                row + 1 <= rows,
                wide >= 0,
        ;
        assert((row + 1) * wide == row * wide + wide) by (nonlinear_arith);
        let ghost before = best;
        let product: u32 = dot(query_at, at);
        best = larger(best, product);
        proof {
            let count = row as int + 1;
            assert(gives(*larger, before, product, best));
            assert(start + (count - 1) * wide == at);
            assert(best_product(
                *dot,
                *larger,
                query_at as int,
                start as int,
                wide,
                count,
                best,
            ));
        }
        row += 1;
        at += stride;
    }
    best
}

/// The sum of the largest products of the rows of a query.
fn sum_rows<D: Fn(usize, usize) -> u32, M: Fn(u32, u32) -> u32, A: Fn(u32, u32) -> u32>(
    dot: &D,
    larger: &M,
    plus: &A,
    base: usize,
    query_rows: usize,
    start: usize,
    stride: usize,
    rows: usize,
) -> (score: u32)
    requires
        base + query_rows * stride <= usize::MAX,
        start + rows * stride <= usize::MAX,
        forall|left: usize, right: usize| call_requires(*dot, (left, right)),
        forall|left: u32, right: u32| call_requires(*larger, (left, right)),
        forall|left: u32, right: u32| call_requires(*plus, (left, right)),
    ensures
        maxsim(
            *dot,
            *larger,
            *plus,
            base as int,
            query_rows as int,
            start as int,
            stride as int,
            rows as int,
            score,
        ),
{
    let ghost wide = stride as int;
    let mut score: u32 = 0;
    let mut row: usize = 0;
    let mut at: usize = base;
    assert(0 * wide == 0) by (nonlinear_arith);
    while row < query_rows
        invariant
            row <= query_rows,
            wide == stride,
            at == base + row * wide,
            base + query_rows * wide <= usize::MAX,
            start + rows * stride <= usize::MAX,
            forall|left: usize, right: usize| call_requires(*dot, (left, right)),
            forall|left: u32, right: u32| call_requires(*larger, (left, right)),
            forall|left: u32, right: u32| call_requires(*plus, (left, right)),
            maxsim(
                *dot,
                *larger,
                *plus,
                base as int,
                row as int,
                start as int,
                wide,
                rows as int,
                score,
            ),
        decreases query_rows - row,
    {
        assert((row + 1) * wide <= query_rows * wide) by (nonlinear_arith)
            requires
                row + 1 <= query_rows,
                wide >= 0,
        ;
        assert((row + 1) * wide == row * wide + wide) by (nonlinear_arith);
        let ghost before = score;
        let best: u32 = best_row(dot, larger, at, start, stride, rows);
        score = plus(score, best);
        proof {
            let count = row as int + 1;
            assert(gives(*plus, before, best, score));
            assert(base + (count - 1) * wide == at);
            assert(maxsim(
                *dot,
                *larger,
                *plus,
                base as int,
                count,
                start as int,
                wide,
                rows as int,
                score,
            ));
        }
        row += 1;
        at += stride;
    }
    score
}

/// Why a document cannot be scored.
pub open spec fn document_fault(arena: nat, offset: u64, rows: u32, dimension: u32, dtype: u8) -> Option<
    CpuError,
> {
    if offset > usize::MAX {
        Some(CpuError::DocumentOffset)
    } else if offset + rows * dimension * number_bytes(dtype) > arena {
        Some(CpuError::DocumentBounds)
    } else {
        None
    }
}

/// The score of one document in an arena of `arena` bytes: for each query row the
/// largest product with a document row, and the sum of these.
pub fn exact_maxsim<D: Fn(usize, usize) -> u32, M: Fn(u32, u32) -> u32, A: Fn(u32, u32) -> u32>(
    base: usize,
    query_rows: u32,
    dimension: u32,
    dtype: u8,
    arena: usize,
    offset: u64,
    document_rows: u32,
    dot: &D,
    larger: &M,
    plus: &A,
) -> (result: Result<u32, CpuError>)
    requires
        dimension * number_bytes(dtype) <= usize::MAX,
        base + query_rows * dimension * number_bytes(dtype) <= usize::MAX,
        forall|left: usize, right: usize| call_requires(*dot, (left, right)),
        forall|left: u32, right: u32| call_requires(*larger, (left, right)),
        forall|left: u32, right: u32| call_requires(*plus, (left, right)),
    ensures
        match result {
            Err(error) => document_fault(arena as nat, offset, document_rows, dimension, dtype)
                == Some(error),
            Ok(score) => document_fault(arena as nat, offset, document_rows, dimension, dtype) is None
                && maxsim(
                *dot,
                *larger,
                *plus,
                base as int,
                query_rows as int,
                offset as int,
                dimension * number_bytes(dtype),
                document_rows as int,
                score,
            ),
        },
{
    let scalar_bytes: usize = if dtype == 1 {
        4
    } else {
        2
    };
    let start: usize = match usize::try_from(offset) {
        Ok(start) => start,
        Err(_) => {
            return Err(CpuError::DocumentOffset);
        },
    };
    let ghost wide = dimension * number_bytes(dtype);
    let ghost rows = document_rows as int;
    assert(rows * dimension * number_bytes(dtype) == rows * wide) by (nonlinear_arith)
        requires
            wide == dimension * number_bytes(dtype),
    ;
    assert(query_rows * dimension * number_bytes(dtype) == query_rows * wide) by (nonlinear_arith)
        requires
            wide == dimension * number_bytes(dtype),
    ;
    let stride: usize = dimension as usize * scalar_bytes;
    let bytes: usize = match (document_rows as usize).checked_mul(stride) {
        Some(bytes) => bytes,
        None => {
            return Err(CpuError::DocumentBounds);
        },
    };
    match start.checked_add(bytes) {
        Some(end) => {
            if end > arena {
                return Err(CpuError::DocumentBounds);
            }
        },
        None => {
            return Err(CpuError::DocumentBounds);
        },
    }
    Ok(
        sum_rows(
            dot,
            larger,
            plus,
            base,
            query_rows as usize,
            start,
            stride,
            document_rows as usize,
        ),
    )
}

/// Why a request cannot be scored, before its documents are looked at.
pub open spec fn request_fault(
    query: nat,
    query_rows: u32,
    dimension: u32,
    dtype: u8,
    scoring_profile: u8,
    offsets: nat,
    rows: nat,
) -> Option<CpuError> {
    if scoring_profile != 1 {
        Some(CpuError::Profile)
    } else if offsets != rows || offsets == 0 {
        Some(CpuError::Metadata)
    } else if dtype != 1 && dtype != 2 {
        Some(CpuError::QueryDtype)
    } else if query != query_rows * dimension * number_bytes(dtype) {
        Some(CpuError::QueryShape)
    } else {
        None
    }
}

/// The arena after the first `count` uploads, and the first fault, at which the
/// rest are left out.
pub open spec fn uploaded(arena: Seq<u8>, items: Seq<(u64, &[u8])>, count: int) -> (Seq<u8>, Option<
    CpuError,
>)
    decreases count,
{
    if count <= 0 {
        (arena, None)
    } else {
        let (before, fault) = uploaded(arena, items, count - 1);
        let offset = items[count - 1].0 as int;
        let payload = items[count - 1].1@;
        if fault is Some {
            (before, fault)
        } else if offset > usize::MAX {
            (before, Some(CpuError::UploadOffset))
        } else if offset + payload.len() > usize::MAX {
            (before, Some(CpuError::UploadRange))
        } else if offset + payload.len() > before.len() {
            (before, Some(CpuError::UploadBounds))
        } else {
            (
                before.subrange(0, offset) + payload + before.subrange(
                    offset + payload.len(),
                    before.len() as int,
                ),
                None,
            )
        }
    }
}

proof fn lemma_upload_stops(arena: Seq<u8>, items: Seq<(u64, &[u8])>, count: int, all: int)
    requires
        0 <= count <= all,
    ensures
        uploaded(arena, items, count).1 is Some ==> uploaded(arena, items, all) == uploaded(
            arena,
            items,
            count,
        ),
    decreases all,
{
    if count < all {
        lemma_upload_stops(arena, items, count, all - 1);
    }
}

/// Copies bytes into an arena.
fn write_bytes(arena: &mut Vec<u8>, start: usize, payload: &[u8])
    requires
        start + payload@.len() <= old(arena)@.len(),
    ensures
        final(arena)@ == old(arena)@.subrange(0, start as int) + payload@ + old(arena)@.subrange(
            start + payload@.len(),
            old(arena)@.len() as int,
        ),
{
    let size: usize = arena.len();
    let mut i: usize = 0;
    while i < payload.len()
        invariant
            i <= payload@.len(),
            start + payload@.len() <= size,
            size == old(arena)@.len(),
            arena@.len() == size,
            arena@ =~= old(arena)@.subrange(0, start as int) + payload@.subrange(0, i as int) + old(
                arena,
            )@.subrange(start + i, old(arena)@.len() as int),
        decreases payload@.len() - i,
    {
        arena.set(start + i, payload[i]);
        i += 1;
    }
    assert(payload@.subrange(0, i as int) =~= payload@);
}

/// The reference backend.
pub struct CpuBackend {
    pub arena: Vec<u8>,
    pub tensor_bytes: usize,
    pub info: DeviceInfo,
}

impl CpuBackend {
    /// A backend with an arena of `total_bytes`, of which `workspace_bytes` are
    /// not for tensors. The rest describes the machine.
    pub fn create(
        ordinal: i32,
        total_bytes: usize,
        workspace_bytes: usize,
        parallelism: u32,
        architecture: &str,
        tuning_profile: &str,
    ) -> (result: Result<Self, CpuError>)
        ensures
            match result {
                Err(error) => if ordinal != 0 {
                    error == CpuError::Ordinal
                } else {
                    (workspace_bytes == 0 || workspace_bytes >= total_bytes) && error
                        == CpuError::Arena
                },
                Ok(backend) => {
                    &&& ordinal == 0
                    &&& 0 < workspace_bytes < total_bytes
                    &&& backend.arena@ == Seq::new(total_bytes as nat, |i: int| 0u8)
                    &&& backend.tensor_bytes == total_bytes - workspace_bytes
                    &&& backend.info@ == (DeviceInfoView {
                        compute_units: Some(parallelism),
                        ..plain_device(
                            0,
                            architecture@,
                            architecture@,
                            tuning_profile@,
                            exact_only(BackendKind::Cpu, false, true),
                        )
                    })
                },
            },
    {
        if ordinal != 0 {
            return Err(CpuError::Ordinal);
        }
        if workspace_bytes == 0 || workspace_bytes >= total_bytes {
            return Err(CpuError::Arena);
        }
        let mut info: DeviceInfo = describe_device(
            ordinal,
            architecture.to_owned(),
            architecture.to_owned(),
            tuning_profile.to_owned(),
            exact_capabilities(BackendKind::Cpu, false, true),
        );
        info.compute_units = Some(parallelism);
        let arena: Vec<u8> = vec![0u8; total_bytes];
        assert(arena@ =~= Seq::new(total_bytes as nat, |i: int| 0u8));
        Ok(CpuBackend { arena, tensor_bytes: total_bytes - workspace_bytes, info })
    }

    /// The status of a backend that has nothing to adapt.
    pub fn adaptive_status(&self) -> (status: AdaptiveStatus)
        ensures
            is_fixed(status, u32::MAX, true),
    {
        fixed_status(u32::MAX, true)
    }

    /// Quantizers are refused.
    pub fn ensure_quantizer(&self) -> (result: Result<(), CpuError>)
        ensures
            result == Err::<(), CpuError>(CpuError::Quantized),
    {
        Err(CpuError::Quantized)
    }

    /// Copies tensors into the arena. Stops at the first fault.
    pub fn upload_batch(&mut self, items: &[(u64, &[u8])]) -> (result: Result<(), CpuError>)
        ensures
            final(self).tensor_bytes == old(self).tensor_bytes,
            final(self).info == old(self).info,
            final(self).arena@.len() == old(self).arena@.len(),
            final(self).arena@ == uploaded(old(self).arena@, items@, items@.len() as int).0,
            match result {
                Ok(()) => uploaded(old(self).arena@, items@, items@.len() as int).1 is None,
                Err(error) => uploaded(old(self).arena@, items@, items@.len() as int).1 == Some(
                    error,
                ),
            },
    {
        let mut i: usize = 0;
        while i < items.len()
            invariant
                i <= items@.len(),
                self.tensor_bytes == old(self).tensor_bytes,
                self.info == old(self).info,
                self.arena@.len() == old(self).arena@.len(),
                uploaded(old(self).arena@, items@, i as int) == (self.arena@, None::<CpuError>),
            decreases items@.len() - i,
        {
            proof {
                lemma_upload_stops(
                    old(self).arena@,
                    items@,
                    i as int + 1,
                    items@.len() as int,
                );
            }
            let payload: &[u8] = items[i].1;
            let start: usize = match usize::try_from(items[i].0) {
                Ok(start) => start,
                Err(_) => {
                    return Err(CpuError::UploadOffset);
                },
            };
            let end: usize = match start.checked_add(payload.len()) {
                Some(end) => end,
                None => {
                    return Err(CpuError::UploadRange);
                },
            };
            if end > self.arena.len() {
                return Err(CpuError::UploadBounds);
            }
            let ghost before = self.arena@;
            write_bytes(&mut self.arena, start, payload);
            assert(self.arena@ == uploaded(old(self).arena@, items@, i as int + 1).0);
            i += 1;
        }
        Ok(())
    }

    /// The scores of documents for the query that begins at `base`.
    fn score_documents<D: Fn(usize, usize) -> u32, M: Fn(u32, u32) -> u32, A: Fn(u32, u32) -> u32>(
        &self,
        base: usize,
        query_rows: u32,
        dimension: u32,
        dtype: u8,
        document_offsets: &[u64],
        document_rows: &[u32],
        dot: &D,
        larger: &M,
        plus: &A,
    ) -> (result: Result<Vec<u32>, CpuError>)
        requires
            document_offsets@.len() == document_rows@.len(),
            dimension * number_bytes(dtype) <= usize::MAX,
            base + query_rows * dimension * number_bytes(dtype) <= usize::MAX,
            forall|left: usize, right: usize| call_requires(*dot, (left, right)),
            forall|left: u32, right: u32| call_requires(*larger, (left, right)),
            forall|left: u32, right: u32| call_requires(*plus, (left, right)),
        ensures
            scored(
                *dot,
                *larger,
                *plus,
                self.arena@.len(),
                base as int,
                query_rows,
                dimension,
                dtype,
                document_offsets@,
                document_rows@,
                result,
            ),
    {
        let mut scores: Vec<u32> = Vec::new();
        let mut i: usize = 0;
        while i < document_offsets.len()
            invariant
                i <= document_offsets@.len(),
                document_offsets@.len() == document_rows@.len(),
                dimension * number_bytes(dtype) <= usize::MAX,
                base + query_rows * dimension * number_bytes(dtype) <= usize::MAX,
                forall|left: usize, right: usize| call_requires(*dot, (left, right)),
                forall|left: u32, right: u32| call_requires(*larger, (left, right)),
                forall|left: u32, right: u32| call_requires(*plus, (left, right)),
                scores@.len() == i,
                forall|j: int|
                    0 <= j < i ==> document_scored(
                        *dot,
                        *larger,
                        *plus,
                        self.arena@.len(),
                        base as int,
                        query_rows,
                        dimension,
                        dtype,
                        document_offsets@[j],
                        document_rows@[j],
                        #[trigger] scores@[j],
                    ),
                forall|j: int|
                    0 <= j < i ==> document_fault(
                        self.arena@.len(),
                        #[trigger] document_offsets@[j],
                        document_rows@[j],
                        dimension,
                        dtype,
                    ) is None,
            decreases document_offsets@.len() - i,
        {
            let score: Result<u32, CpuError> = exact_maxsim(
                base,
                query_rows,
                dimension,
                dtype,
                self.arena.len(),
                document_offsets[i],
                document_rows[i],
                dot,
                larger,
                plus,
            );
            match score {
                Ok(score) => {
                    scores.push(score);
                },
                Err(error) => {
                    assert(document_fault(
                        self.arena@.len(),
                        document_offsets@[i as int],
                        document_rows@[i as int],
                        dimension,
                        dtype,
                    ) == Some(error));
                    return Err(error);
                },
            }
            i += 1;
        }
        Ok(scores)
    }

    /// Scores documents against a query. `dot` gives the product of the query
    /// row and the document row at two places, each counted in bytes.
    pub fn score<D: Fn(usize, usize) -> u32, M: Fn(u32, u32) -> u32, A: Fn(u32, u32) -> u32>(
        &self,
        query: &[u8],
        query_rows: u32,
        dimension: u32,
        dtype: u8,
        scoring_profile: u8,
        document_offsets: &[u64],
        document_rows: &[u32],
        dot: &D,
        larger: &M,
        plus: &A,
    ) -> (result: Result<Vec<u32>, CpuError>)
        requires
            dimension * 4 <= usize::MAX,
            query_rows * dimension * 4 <= usize::MAX,
            forall|left: usize, right: usize| call_requires(*dot, (left, right)),
            forall|left: u32, right: u32| call_requires(*larger, (left, right)),
            forall|left: u32, right: u32| call_requires(*plus, (left, right)),
        ensures
            match request_fault(
                query@.len(),
                query_rows,
                dimension,
                dtype,
                scoring_profile,
                document_offsets@.len(),
                document_rows@.len(),
            ) {
                Some(error) => result == Err::<Vec<u32>, CpuError>(error),
                None => scored(
                    *dot,
                    *larger,
                    *plus,
                    self.arena@.len(),
                    0,
                    query_rows,
                    dimension,
                    dtype,
                    document_offsets@,
                    document_rows@,
                    result,
                ),
            },
    {
        if scoring_profile != 1 {
            return Err(CpuError::Profile);
        }
        if document_offsets.len() != document_rows.len() || document_offsets.len() == 0 {
            return Err(CpuError::Metadata);
        }
        let scalar_bytes: usize = match dtype {
            1 => 4,
            2 => 2,
            _ => {
                return Err(CpuError::QueryDtype);
            },
        };
        let ghost numbers = query_rows * dimension;
        assert(numbers <= numbers * 4 && numbers * scalar_bytes <= numbers * 4) by (nonlinear_arith)
            requires
                numbers >= 0,
                scalar_bytes <= 4,
        ;
        assert(query_rows * dimension * 4 == numbers * 4);
        assert(dimension * scalar_bytes <= dimension * 4) by (nonlinear_arith)
            requires
                scalar_bytes <= 4,
        ;
        let expected: usize = query_rows as usize * dimension as usize * scalar_bytes;
        if query.len() != expected {
            return Err(CpuError::QueryShape);
        }
        self.score_documents(
            0,
            query_rows,
            dimension,
            dtype,
            document_offsets,
            document_rows,
            dot,
            larger,
            plus,
        )
    }
}

/// Whether a document is within the arena, and has a score.
pub open spec fn document_scored<
    D: Fn(usize, usize) -> u32,
    M: Fn(u32, u32) -> u32,
    A: Fn(u32, u32) -> u32,
>(
    dot: D,
    larger: M,
    plus: A,
    arena: nat,
    base: int,
    query_rows: u32,
    dimension: u32,
    dtype: u8,
    offset: u64,
    rows: u32,
    score: u32,
) -> bool {
    document_fault(arena, offset, rows, dimension, dtype) is None && maxsim(
        dot,
        larger,
        plus,
        base,
        query_rows as int,
        offset as int,
        dimension * number_bytes(dtype),
        rows as int,
        score,
    )
}

/// Whether a result is the scores of documents, or the fault of the first one
/// that has one.
pub open spec fn scored<D: Fn(usize, usize) -> u32, M: Fn(u32, u32) -> u32, A: Fn(u32, u32) -> u32>(
    dot: D,
    larger: M,
    plus: A,
    arena: nat,
    base: int,
    query_rows: u32,
    dimension: u32,
    dtype: u8,
    offsets: Seq<u64>,
    rows: Seq<u32>,
    result: Result<Vec<u32>, CpuError>,
) -> bool {
    match result {
        Ok(scores) => scores@.len() == offsets.len() && forall|i: int|
            0 <= i < offsets.len() ==> document_scored(
                dot,
                larger,
                plus,
                arena,
                base,
                query_rows,
                dimension,
                dtype,
                offsets[i],
                rows[i],
                #[trigger] scores@[i],
            ),
        Err(error) => exists|i: int|
            0 <= i < offsets.len() && document_fault(
                arena,
                #[trigger] offsets[i],
                rows[i],
                dimension,
                dtype,
            ) == Some(error) && forall|j: int|
                0 <= j < i ==> document_fault(
                    arena,
                    #[trigger] offsets[j],
                    rows[j],
                    dimension,
                    dtype,
                ) is None,
    }
}

/// Whether the places of queries in a batch are in order, and within the batch.
pub open spec fn places_in_order(places: Seq<u32>, stride: int, batch: nat) -> bool {
    forall|i: int, j: int|
        0 <= i <= j < places.len() ==> (#[trigger] places[i]) <= (#[trigger] places[j]) && places[j]
            * stride <= batch
}

/// Whether a result is that of scoring the `index`-th query of a batch.
pub open spec fn query_scored<D: Fn(usize, usize) -> u32, M: Fn(u32, u32) -> u32, A: Fn(u32, u32) -> u32>(
    dot: D,
    larger: M,
    plus: A,
    arena: nat,
    dimension: u32,
    dtype: u8,
    places: Seq<u32>,
    offsets: Seq<u64>,
    rows: Seq<u32>,
    index: int,
    result: Result<Vec<u32>, CpuError>,
) -> bool {
    if offsets.len() != rows.len() || offsets.len() == 0 {
        result == Err::<Vec<u32>, CpuError>(CpuError::Metadata)
    } else {
        scored(
            dot,
            larger,
            plus,
            arena,
            places[index] * (dimension * number_bytes(dtype)),
            (places[index + 1] - places[index]) as u32,
            dimension,
            dtype,
            offsets,
            rows,
            result,
        )
    }
}

impl CpuBackend {
    /// Scores documents against the queries of a batch, of which `query_offsets`
    /// gives the places, counted in rows. Stops at the first fault.
    pub fn score_batch<D: Fn(usize, usize) -> u32, M: Fn(u32, u32) -> u32, A: Fn(u32, u32) -> u32>(
        &self,
        queries: &[u8],
        query_offsets: &[u32],
        dimension: u32,
        dtype: u8,
        scoring_profile: u8,
        document_offsets: &[u64],
        document_rows: &[u32],
        dot: &D,
        larger: &M,
        plus: &A,
    ) -> (result: Result<Vec<Vec<u32>>, CpuError>)
        requires
            dimension * 4 <= usize::MAX,
            places_in_order(
                query_offsets@,
                dimension * number_bytes(dtype),
                queries@.len(),
            ),
            forall|left: usize, right: usize| call_requires(*dot, (left, right)),
            forall|left: u32, right: u32| call_requires(*larger, (left, right)),
            forall|left: u32, right: u32| call_requires(*plus, (left, right)),
        ensures
            if scoring_profile != 1 {
                result == Err::<Vec<Vec<u32>>, CpuError>(CpuError::QuantizedBatch)
            } else if dtype != 1 && dtype != 2 {
                result == Err::<Vec<Vec<u32>>, CpuError>(CpuError::QueryDtype)
            } else {
                match result {
                    Ok(scores) => scores@.len() == (if query_offsets@.len() == 0 {
                        0
                    } else {
                        query_offsets@.len() - 1
                    }) && forall|q: int|
                        0 <= q < scores@.len() ==> query_scored(
                            *dot,
                            *larger,
                            *plus,
                            self.arena@.len(),
                            dimension,
                            dtype,
                            query_offsets@,
                            document_offsets@,
                            document_rows@,
                            q,
                            Ok(#[trigger] scores@[q]),
                        ),
                    Err(error) => exists|q: int|
                        0 <= q < query_offsets@.len() - 1 && #[trigger] query_scored(
                            *dot,
                            *larger,
                            *plus,
                            self.arena@.len(),
                            dimension,
                            dtype,
                            query_offsets@,
                            document_offsets@,
                            document_rows@,
                            q,
                            Err(error),
                        ),
                }
            },
    {
        if scoring_profile != 1 {
            return Err(CpuError::QuantizedBatch);
        }
        let scalar_bytes: usize = match dtype {
            1 => 4,
            2 => 2,
            _ => {
                return Err(CpuError::QueryDtype);
            },
        };
        let ghost wide = dimension * number_bytes(dtype);
        assert(dimension * scalar_bytes <= dimension * 4) by (nonlinear_arith)
            requires
                scalar_bytes <= 4,
        ;
        let stride: usize = dimension as usize * scalar_bytes;
        let mut scores: Vec<Vec<u32>> = Vec::new();
        let mut q: usize = 0;
        let count: usize = query_offsets.len();
        while q + 1 < count
            invariant
                q < count || q == 0,
                count == query_offsets@.len(),
                scoring_profile == 1,
                scores@.len() == q,
                dtype == 1 || dtype == 2,
                wide == dimension * number_bytes(dtype),
                stride == wide,
                places_in_order(query_offsets@, wide, queries@.len()),
                forall|left: usize, right: usize| call_requires(*dot, (left, right)),
                forall|left: u32, right: u32| call_requires(*larger, (left, right)),
                forall|left: u32, right: u32| call_requires(*plus, (left, right)),
                forall|p: int|
                    0 <= p < q ==> query_scored(
                        *dot,
                        *larger,
                        *plus,
                        self.arena@.len(),
                        dimension,
                        dtype,
                        query_offsets@,
                        document_offsets@,
                        document_rows@,
                        p,
                        Ok(#[trigger] scores@[p]),
                    ),
            decreases query_offsets@.len() - q,
        {
            let first: u32 = query_offsets[q];
            let next: u32 = query_offsets[q + 1];
            let ghost length = queries@.len() as int;
            proof {
                assert(query_offsets@[q as int] <= query_offsets@[q + 1]);
                assert(next * wide <= length);
                assert(first * wide <= next * wide) by (nonlinear_arith)
                    requires
                        first <= next,
                        wide >= 0,
                ;
                assert(first * wide + (next - first) * wide == next * wide) by (nonlinear_arith);
                assert((next - first) * dimension * number_bytes(dtype) == (next - first) * wide)
                    by (nonlinear_arith)
                    requires
                        wide == dimension * number_bytes(dtype),
                ;
                assert(queries.len() == queries@.len());
            }
            let base: usize = first as usize * stride;
            let one: Result<Vec<u32>, CpuError> = if document_offsets.len() != document_rows.len()
                || document_offsets.len() == 0 {
                Err(CpuError::Metadata)
            } else {
                self.score_documents(
                    base,
                    next - first,
                    dimension,
                    dtype,
                    document_offsets,
                    document_rows,
                    dot,
                    larger,
                    plus,
                )
            };
            match one {
                Ok(row) => {
                    proof {
                        assert(query_scored(
                            *dot,
                            *larger,
                            *plus,
                            self.arena@.len(),
                            dimension,
                            dtype,
                            query_offsets@,
                            document_offsets@,
                            document_rows@,
                            q as int,
                            Ok(row),
                        ));
                    }
                    scores.push(row);
                },
                Err(error) => {
                    proof {
                        assert(query_scored(
                            *dot,
                            *larger,
                            *plus,
                            self.arena@.len(),
                            dimension,
                            dtype,
                            query_offsets@,
                            document_offsets@,
                            document_rows@,
                            q as int,
                            Err(error),
                        ));
                    }
                    return Err(error);
                },
            }
            q += 1;
        }
        Ok(scores)
    }
}

/// Whether a value is the largest of the products of a query row at `query_at` with
/// `rows` document rows, where no product is above it: it is one of the products, or
/// negative infinity, and `no_less` than each of them.
pub open spec fn tops(
    value: u32,
    product: spec_fn(usize, usize) -> u32,
    no_less: spec_fn(u32, u32) -> bool,
    query_at: int,
    start: int,
    stride: int,
    rows: int,
) -> bool {
    &&& forall|d: int|
        0 <= d < rows ==> no_less(
            value,
            #[trigger] product(query_at as usize, (start + d * stride) as usize),
        )
    &&& value == 0xff80_0000u32 || exists|d: int|
        0 <= d < rows && value == #[trigger] product(
            query_at as usize,
            (start + d * stride) as usize,
        )
}

/// Whether a function of two numbers gives the larger one.
pub open spec fn is_larger<M: Fn(u32, u32) -> u32>(
    larger: M,
    no_less: spec_fn(u32, u32) -> bool,
) -> bool {
    &&& forall|a: u32| #[trigger] no_less(a, a)
    &&& forall|a: u32, b: u32, c: u32| #[trigger]
        no_less(a, b) && #[trigger] no_less(b, c) ==> no_less(a, c)
    &&& forall|left: u32, right: u32, value: u32| #[trigger]
        call_ensures(larger, (left, right), value) ==> no_less(value, left) && no_less(value, right)
            && (value == left || value == right)
}

/// Every row of a document takes part: the value for a query row is no less than the
/// product with any row of the document, and it is one of these products, or negative
/// infinity where none is above that.
pub proof fn every_row_takes_part<D: Fn(usize, usize) -> u32, M: Fn(u32, u32) -> u32>(
    dot: D,
    larger: M,
    product: spec_fn(usize, usize) -> u32,
    no_less: spec_fn(u32, u32) -> bool,
    query_at: int,
    start: int,
    stride: int,
    rows: int,
    value: u32,
)
    requires
        forall|left: usize, right: usize, value: u32| #[trigger]
            call_ensures(dot, (left, right), value) ==> value == product(left, right),
        is_larger(larger, no_less),
        best_product(dot, larger, query_at, start, stride, rows, value),
    ensures
        forall|d: int|
            0 <= d < rows ==> no_less(
                value,
                #[trigger] product(query_at as usize, (start + d * stride) as usize),
            ),
        value == 0xff80_0000u32 || exists|d: int|
            0 <= d < rows && value == #[trigger] product(
                query_at as usize,
                (start + d * stride) as usize,
            ),
    decreases rows,
{
    if rows > 0 {
        let (before, last) = choose|before: u32, last: u32| #[trigger]
            gives(larger, before, last, value) && call_ensures(
                dot,
                (query_at as usize, (start + (rows - 1) * stride) as usize),
                last,
            ) && best_product(dot, larger, query_at, start, stride, rows - 1, before);
        assert(call_ensures(larger, (before, last), value));
        every_row_takes_part(
            dot,
            larger,
            product,
            no_less,
            query_at,
            start,
            stride,
            rows - 1,
            before,
        );
        assert(last == product(query_at as usize, (start + (rows - 1) * stride) as usize));
        assert forall|d: int| 0 <= d < rows implies no_less(
            value,
            #[trigger] product(query_at as usize, (start + d * stride) as usize),
        ) by {
            if d < rows - 1 {
                assert(no_less(
                    before,
                    product(query_at as usize, (start + d * stride) as usize),
                ));
                assert(no_less(value, before));
            }
        }
    }
}

/// The score of a document is the sum, over every query row in turn, of its largest
/// product with a row of the document.
pub proof fn every_query_row_is_summed<
    D: Fn(usize, usize) -> u32,
    M: Fn(u32, u32) -> u32,
    A: Fn(u32, u32) -> u32,
>(
    dot: D,
    larger: M,
    plus: A,
    product: spec_fn(usize, usize) -> u32,
    no_less: spec_fn(u32, u32) -> bool,
    sum: spec_fn(u32, u32) -> u32,
    base: int,
    query_rows: int,
    start: int,
    stride: int,
    rows: int,
    value: u32,
) -> (best: Seq<u32>)
    requires
        forall|left: usize, right: usize, value: u32| #[trigger]
            call_ensures(dot, (left, right), value) ==> value == product(left, right),
        is_larger(larger, no_less),
        forall|left: u32, right: u32, value: u32| #[trigger]
            call_ensures(plus, (left, right), value) ==> value == sum(left, right),
        query_rows >= 0,
        maxsim(dot, larger, plus, base, query_rows, start, stride, rows, value),
    ensures
        best.len() == query_rows,
        forall|q: int|
            0 <= q < query_rows ==> tops(
                #[trigger] best[q],
                product,
                no_less,
                base + q * stride,
                start,
                stride,
                rows,
            ),
        value == best.fold_left(0u32, sum),
    decreases query_rows,
{
    if query_rows <= 0 {
        let best = Seq::<u32>::empty();
        assert(best.fold_left(0u32, sum) == 0u32);
        best
    } else {
        let (before, last) = choose|before: u32, last: u32| #[trigger]
            gives(plus, before, last, value) && best_product(
                dot,
                larger,
                base + (query_rows - 1) * stride,
                start,
                stride,
                rows,
                last,
            ) && maxsim(dot, larger, plus, base, query_rows - 1, start, stride, rows, before);
        assert(call_ensures(plus, (before, last), value));
        let head = every_query_row_is_summed(
            dot,
            larger,
            plus,
            product,
            no_less,
            sum,
            base,
            query_rows - 1,
            start,
            stride,
            rows,
            before,
        );
        every_row_takes_part(
            dot,
            larger,
            product,
            no_less,
            base + (query_rows - 1) * stride,
            start,
            stride,
            rows,
            last,
        );
        let best = head.push(last);
        assert(best.drop_last() =~= head);
        assert(best.fold_left(0u32, sum) == sum(head.fold_left(0u32, sum), last));
        best
    }
}

/// Whether a score is the sum, over the rows of a query from byte `base` on, of the
/// largest products with the rows of a document from byte `start` on.
pub open spec fn is_maxsim(
    product: spec_fn(usize, usize) -> u32,
    no_less: spec_fn(u32, u32) -> bool,
    sum: spec_fn(u32, u32) -> u32,
    base: int,
    query_rows: int,
    start: int,
    stride: int,
    rows: int,
    score: u32,
) -> bool {
    exists|best: Seq<u32>| #[trigger]
        best.len() == query_rows && score == best.fold_left(0u32, sum) && forall|q: int|
            0 <= q < query_rows ==> tops(
                #[trigger] best[q],
                product,
                no_less,
                base + q * stride,
                start,
                stride,
                rows,
            )
}

/// A backend that scores documents gives one score for each of them, in order: its
/// maximal similarity to the query. Each of them lies within the arena.
pub proof fn scores_are_maximal_similarities<
    D: Fn(usize, usize) -> u32,
    M: Fn(u32, u32) -> u32,
    A: Fn(u32, u32) -> u32,
>(
    dot: D,
    larger: M,
    plus: A,
    product: spec_fn(usize, usize) -> u32,
    no_less: spec_fn(u32, u32) -> bool,
    sum: spec_fn(u32, u32) -> u32,
    arena: nat,
    base: int,
    query_rows: u32,
    dimension: u32,
    dtype: u8,
    offsets: Seq<u64>,
    rows: Seq<u32>,
    scores: Vec<u32>,
    i: int,
)
    requires
        forall|left: usize, right: usize, value: u32| #[trigger]
            call_ensures(dot, (left, right), value) ==> value == product(left, right),
        is_larger(larger, no_less),
        forall|left: u32, right: u32, value: u32| #[trigger]
            call_ensures(plus, (left, right), value) ==> value == sum(left, right),
        dtype == 1 || dtype == 2,
        scored(
            dot,
            larger,
            plus,
            arena,
            base,
            query_rows,
            dimension,
            dtype,
            offsets,
            rows,
            Ok(scores),
        ),
        0 <= i < offsets.len(),
    ensures
        scores@.len() == offsets.len(),
        offsets[i] + rows[i] * dimension * (if dtype == 1 {
            4int
        } else {
            2
        }) <= arena,
        is_maxsim(
            product,
            no_less,
            sum,
            base,
            query_rows as int,
            offsets[i] as int,
            dimension * (if dtype == 1 {
                4int
            } else {
                2
            }),
            rows[i] as int,
            scores@[i],
        ),
{
    let width = if dtype == 1 {
        4int
    } else {
        2
    };
    assert(document_scored(
        dot,
        larger,
        plus,
        arena,
        base,
        query_rows,
        dimension,
        dtype,
        offsets[i],
        rows[i],
        scores@[i],
    ));
    let best = every_query_row_is_summed(
        dot,
        larger,
        plus,
        product,
        no_less,
        sum,
        base,
        query_rows as int,
        offsets[i] as int,
        dimension * width,
        rows[i] as int,
        scores@[i],
    );
    assert(best.len() == query_rows);
}

/// The queries of a batch are scored each from its own place to that of the next.
pub proof fn batched_queries_are_scored_at_their_places<
    D: Fn(usize, usize) -> u32,
    M: Fn(u32, u32) -> u32,
    A: Fn(u32, u32) -> u32,
>(
    dot: D,
    larger: M,
    plus: A,
    product: spec_fn(usize, usize) -> u32,
    no_less: spec_fn(u32, u32) -> bool,
    sum: spec_fn(u32, u32) -> u32,
    arena: nat,
    dimension: u32,
    dtype: u8,
    places: Seq<u32>,
    offsets: Seq<u64>,
    rows: Seq<u32>,
    index: int,
    scores: Vec<u32>,
    i: int,
)
    requires
        forall|left: usize, right: usize, value: u32| #[trigger]
            call_ensures(dot, (left, right), value) ==> value == product(left, right),
        is_larger(larger, no_less),
        forall|left: u32, right: u32, value: u32| #[trigger]
            call_ensures(plus, (left, right), value) ==> value == sum(left, right),
        dtype == 1 || dtype == 2,
        0 <= index < places.len() - 1,
        places[index] <= places[index + 1],
        query_scored(
            dot,
            larger,
            plus,
            arena,
            dimension,
            dtype,
            places,
            offsets,
            rows,
            index,
            Ok(scores),
        ),
        0 <= i < offsets.len(),
    ensures
        offsets.len() == rows.len(),
        scores@.len() == offsets.len(),
        is_maxsim(
            product,
            no_less,
            sum,
            places[index] * (dimension * (if dtype == 1 {
                4int
            } else {
                2
            })),
            places[index + 1] - places[index],
            offsets[i] as int,
            dimension * (if dtype == 1 {
                4int
            } else {
                2
            }),
            rows[i] as int,
            scores@[i],
        ),
{
    scores_are_maximal_similarities(
        dot,
        larger,
        plus,
        product,
        no_less,
        sum,
        arena,
        places[index] * (dimension * number_bytes(dtype)),
        (places[index + 1] - places[index]) as u32,
        dimension,
        dtype,
        offsets,
        rows,
        scores,
        i,
    );
}

/// A document is refused exactly where it reaches beyond the arena.
pub proof fn documents_within_the_arena_are_scored(
    arena: nat,
    offset: u64,
    rows: u32,
    dimension: u32,
    dtype: u8,
)
    requires
        dtype == 1 || dtype == 2,
        arena <= usize::MAX,
    ensures
        document_fault(arena, offset, rows, dimension, dtype) is None <==> offset + rows * dimension
            * (if dtype == 1 {
            4int
        } else {
            2
        }) <= arena,
{
    assert(rows * dimension >= 0) by (nonlinear_arith);
}

/// A request is scored exactly where it asks for exact scores of some documents with
/// a query of single or half precision that has the bytes of its shape.
pub proof fn sound_requests_are_scored(
    query: nat,
    query_rows: u32,
    dimension: u32,
    dtype: u8,
    scoring_profile: u8,
    offsets: nat,
    rows: nat,
)
    ensures
        request_fault(query, query_rows, dimension, dtype, scoring_profile, offsets, rows) is None
            <==> scoring_profile == 1 && offsets == rows && offsets > 0 && (dtype == 1 && query
            == query_rows * dimension * 4 || dtype == 2 && query == query_rows * dimension * 2),
{
}

/// Whether an upload is written over a byte.
pub open spec fn writes_over(item: (u64, &[u8]), at: int) -> bool {
    item.0 <= at < item.0 + item.1@.len()
}

/// A byte of an upload is read back from the arena where no later upload is written
/// over it.
pub proof fn uploads_are_read_back(
    arena: Seq<u8>,
    items: Seq<(u64, &[u8])>,
    count: int,
    i: int,
    at: int,
)
    requires
        0 <= i < count <= items.len(),
        uploaded(arena, items, count).1 is None,
        items[i].0 <= at < items[i].0 + items[i].1@.len(),
        forall|k: int| i < k < count ==> !writes_over(#[trigger] items[k], at),
    ensures
        at < uploaded(arena, items, count).0.len(),
        uploaded(arena, items, count).0[at] == items[i].1@[at - items[i].0],
    decreases count,
{
    let before = uploaded(arena, items, count - 1).0;
    let last = items[count - 1];
    if i < count - 1 {
        uploads_are_read_back(arena, items, count - 1, i, at);
        assert(!writes_over(items[count - 1], at));
        if at < last.0 {
            assert(before.subrange(0, last.0 as int)[at] == before[at]);
        }
    }
}

/// A byte of the arena stays where no upload is written over it.
pub proof fn uploads_leave_the_rest(arena: Seq<u8>, items: Seq<(u64, &[u8])>, count: int, at: int)
    requires
        0 <= count <= items.len(),
        0 <= at < arena.len(),
        forall|k: int| 0 <= k < count ==> !writes_over(#[trigger] items[k], at),
    ensures
        uploaded(arena, items, count).0.len() == arena.len(),
        uploaded(arena, items, count).0[at] == arena[at],
    decreases count,
{
    if count > 0 {
        uploads_leave_the_rest(arena, items, count - 1, at);
        assert(!writes_over(items[count - 1], at));
    }
}

/// A batch of uploads fails exactly where one of them does not fit in the arena.
pub proof fn uploads_fail_only_beyond_the_arena(
    arena: Seq<u8>,
    items: Seq<(u64, &[u8])>,
    count: int,
)
    requires
        0 <= count <= items.len(),
        arena.len() <= usize::MAX,
    ensures
        uploaded(arena, items, count).0.len() == arena.len(),
        uploaded(arena, items, count).1 is Some <==> exists|i: int|
            0 <= i < count && (#[trigger] items[i]).0 + items[i].1@.len() > arena.len(),
    decreases count,
{
    if count > 0 {
        uploads_fail_only_beyond_the_arena(arena, items, count - 1);
        assert(items[count - 1] == items[count - 1]);
    }
}

} // verus!
