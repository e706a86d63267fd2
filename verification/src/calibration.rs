//! How a backend finds out which of its kernels to use: what it measures, and
//! what it makes of the measurements. Times are in nanoseconds.

use crate::bytes::{le32, put_bytes, put_u32};
use crate::dispatch::TensorCalibrationBucket;
use vstd::prelude::*;

verus! {

/// A byte of a tensor of half-precision numbers that has a one in each row, where
/// the column is the row's number modulo `modulus`, and zeros elsewhere.
pub open spec fn identity_byte(dimension: int, modulus: int, index: int) -> u8 {
    let number = index / 2;
    if index % 2 == 1 && number % dimension == (number / dimension) % modulus {
        0x3c
    } else {
        0
    }
}

/// A tensor with a one in each row, and zeros elsewhere.
pub fn identity_payload(rows: u32, dimension: u32, modulus: u32) -> (payload: Vec<u8>)
    requires
        dimension > 0,
        modulus > 0,
        rows * dimension * 2 <= usize::MAX,
    ensures
        payload@ == Seq::new(
            (rows * dimension * 2) as nat,
            |i: int| identity_byte(dimension as int, modulus as int, i),
        ),
{
    let count: usize = rows as usize * dimension as usize;
    let width: usize = dimension as usize;
    let mut payload: Vec<u8> = Vec::new();
    let mut number: usize = 0;
    while number < count
        invariant
            number <= count,
            count * 2 <= usize::MAX,
            width == dimension,
            width > 0,
            modulus > 0,
            payload@.len() == 2 * number,
            forall|i: int|
                0 <= i < payload@.len() ==> #[trigger] payload@[i] == identity_byte(
                    width as int,
                    modulus as int,
                    i,
                ),
        decreases count - number,
    {
        let ghost before = payload@;
        let high: u8 = if number % width == (number / width) % (modulus as usize) {
            0x3c
        } else {
            0
        };
        payload.push(0);
        payload.push(high);
        proof {
            let low_at = 2 * number as int;
            assert(low_at / 2 == number && low_at % 2 == 0);
            assert((low_at + 1) / 2 == number && (low_at + 1) % 2 == 1);
            assert forall|i: int| 0 <= i < payload@.len() implies #[trigger] payload@[i]
                == identity_byte(width as int, modulus as int, i) by {
                if i < before.len() {
                    assert(payload@[i] == before[i]);
                }
            }
        }
        number += 1;
    }
    assert(payload@ =~= Seq::new(
        (rows * dimension * 2) as nat,
        |i: int| identity_byte(dimension as int, modulus as int, i),
    ));
    payload
}

/// The dimension of the tensors in the calibrations.
pub const CALIBRATION_DIMENSION: u32 = 320;

/// The rows of a document in the calibrations.
pub const CALIBRATION_ROWS: u32 = 32;

/// The documents that the variants of the tile kernel are measured on.
pub const CALIBRATION_DOCUMENTS: usize = 64;

/// The query rows that the staging of control data is measured with, and how often.
pub const STAGING_QUERY_ROWS: u32 = 32;

pub const STAGING_REPETITIONS: usize = 7;

/// The query rows that the tile kernel is measured with, and how often.
pub const TILE_QUERY_ROWS: u32 = 256;

pub const TILE_REPETITIONS: u128 = 3;

/// How often the double buffer of the tile kernel is measured.
pub const DOUBLE_BUFFER_REPETITIONS: usize = 7;

/// The query rows that the chunk size of a bucket is measured with.
pub const CHUNK_QUERY_ROWS: u32 = 512;

/// How often each measurement of a bucket is made.
pub const BUCKET_REPETITIONS: usize = 3;

/// The shape of the quantizer that the product quantization kernels are measured
/// with, the requests and the documents, and how often.
pub const PQ_SUBSPACES: u16 = 20;

pub const PQ_CENTROIDS: u16 = 256;

pub const PQ_REQUESTS: u32 = 8;

pub const PQ_DOCUMENTS: usize = 512;

pub const PQ_REPETITIONS: usize = 5;

/// The rows of a query in the calibration batches.
pub const REQUEST_ROWS: u32 = 32;

/// The places of two queries of the same length that have so many rows together.
pub fn halves(rows: u32) -> (offsets: Vec<u32>)
    ensures
        offsets@ == seq![0u32, (rows / 2) as u32, rows],
{
    let offsets: Vec<u32> = vec![0, rows / 2, rows];
    assert(offsets@ =~= seq![0u32, (rows / 2) as u32, rows]);
    offsets
}

/// The numbers of candidates that buckets are measured for.
pub fn candidate_counts() -> (counts: Vec<usize>)
    ensures
        counts@ == seq![64usize, 512, 4096],
{
    let counts: Vec<usize> = vec![64, 512, 4096];
    assert(counts@ =~= seq![64usize, 512, 4096]);
    counts
}

/// The numbers of queries per warp that the tile kernel is measured with.
pub fn tile_choices() -> (choices: Vec<u32>)
    ensures
        choices@ == seq![1u32, 4, 8],
{
    let choices: Vec<u32> = vec![1, 4, 8];
    assert(choices@ =~= seq![1u32, 4, 8]);
    choices
}

/// The document rows up to which a warp may take documents whole.
pub fn warp_row_choices() -> (choices: Vec<u32>)
    ensures
        choices@ == seq![2u32, 4, 8],
{
    let choices: Vec<u32> = vec![2, 4, 8];
    assert(choices@ =~= seq![2u32, 4, 8]);
    choices
}

/// A batch of queries for a calibration, and the places of the queries in it.
pub fn calibration_queries(total_rows: u32, dimension: u32, document_rows: u32) -> (batch: (
    Vec<u8>,
    Vec<u32>,
))
    requires
        dimension > 0,
        document_rows > 0,
        total_rows * dimension * 2 <= usize::MAX,
    ensures
        batch.0@ == Seq::new(
            (total_rows * dimension * 2) as nat,
            |i: int| identity_byte(dimension as int, document_rows as int, i),
        ),
        batch.1@.len() == total_rows / REQUEST_ROWS + 1,
        forall|i: int| 0 <= i < batch.1@.len() ==> #[trigger] batch.1@[i] == i * REQUEST_ROWS,
{
    let queries: Vec<u8> = identity_payload(total_rows, dimension, document_rows);
    (queries, request_places(total_rows / REQUEST_ROWS))
}

/// The places of so many queries one behind the other.
fn request_places(requests: u32) -> (offsets: Vec<u32>)
    requires
        requests * REQUEST_ROWS <= u32::MAX,
    ensures
        offsets@.len() == requests + 1,
        forall|i: int| 0 <= i < offsets@.len() ==> #[trigger] offsets@[i] == i * REQUEST_ROWS,
{
    let mut offsets: Vec<u32> = Vec::new();
    let mut request: u32 = 0;
    while request <= requests
        invariant
            request <= requests + 1,
            requests * REQUEST_ROWS <= u32::MAX,
            offsets@.len() == request,
            forall|i: int| 0 <= i < offsets@.len() ==> #[trigger] offsets@[i] == i * REQUEST_ROWS,
        decreases requests + 1 - request,
    {
        offsets.push(request * REQUEST_ROWS);
        request += 1;
    }
    offsets
}

/// A list of single-precision numbers that are zero but for every `step`-th.
pub open spec fn sparse_bytes(count: int, step: int, bits: u32) -> Seq<u8>
    decreases count,
{
    if count <= 0 {
        Seq::empty()
    } else {
        sparse_bytes(count - 1, step, bits) + le32(
            if (count - 1) % step == 0 {
                bits
            } else {
                0
            },
        )
    }
}

/// A list of single-precision numbers that are zero but for every `step`-th.
pub fn sparse_numbers(count: usize, step: usize, bits: u32) -> (payload: Vec<u8>)
    requires
        step > 0,
    ensures
        payload@ == sparse_bytes(count as int, step as int, bits),
{
    let mut payload: Vec<u8> = Vec::new();
    let mut i: usize = 0;
    while i < count
        invariant
            i <= count,
            step > 0,
            payload@ == sparse_bytes(i as int, step as int, bits),
        decreases count - i,
    {
        let value: u32 = if i % step == 0 {
            bits
        } else {
            0
        };
        put_u32(&mut payload, value);
        i += 1;
    }
    payload
}

/// The bits of one eighth, as a single-precision number.
pub const EIGHTH_BITS: u32 = 0x3e00_0000;

/// The bits of one half, as a single-precision number.
pub const HALF_BITS: u32 = 0x3f00_0000;

/// The name that the quantizer of a calibration goes by.
pub fn pq_contract() -> (name: &'static str)
    ensures
        name@ == "__startup_pq_adc_calibration__"@,
{
    "__startup_pq_adc_calibration__"
}

/// The codebooks of the quantizer of a calibration.
pub fn pq_codebooks() -> (payload: Vec<u8>)
    ensures
        payload@ == sparse_bytes(CALIBRATION_DIMENSION * PQ_CENTROIDS, 97, EIGHTH_BITS),
{
    sparse_numbers(CALIBRATION_DIMENSION as usize * PQ_CENTROIDS as usize, 97, EIGHTH_BITS)
}

/// Bytes so many times one behind the other.
pub open spec fn repeated(bytes: Seq<u8>, times: int) -> Seq<u8>
    decreases times,
{
    if times <= 0 {
        Seq::empty()
    } else {
        repeated(bytes, times - 1) + bytes
    }
}

/// The queries that product quantization kernels are measured with, and their places.
pub fn pq_queries() -> (batch: (Vec<u8>, Vec<u32>))
    ensures
        batch.0@ == repeated(
            sparse_bytes(REQUEST_ROWS * CALIBRATION_DIMENSION, 89, HALF_BITS),
            PQ_REQUESTS as int,
        ),
        batch.1@.len() == PQ_REQUESTS + 1,
        forall|i: int| 0 <= i < batch.1@.len() ==> #[trigger] batch.1@[i] == i * REQUEST_ROWS,
{
    let query: Vec<u8> = sparse_numbers(
        REQUEST_ROWS as usize * CALIBRATION_DIMENSION as usize,
        89,
        HALF_BITS,
    );
    let mut queries: Vec<u8> = Vec::new();
    let mut request: u32 = 0;
    while request < PQ_REQUESTS
        invariant
            request <= PQ_REQUESTS,
            queries@ == repeated(query@, request as int),
        decreases PQ_REQUESTS - request,
    {
        put_bytes(&mut queries, query.as_slice());
        request += 1;
    }
    (queries, request_places(PQ_REQUESTS))
}

/// Whether numbers ascend.
pub open spec fn ascending(values: Seq<u128>) -> bool {
    forall|i: int, j: int| 0 <= i < j < values.len() ==> (#[trigger] values[i]) <= (#[trigger] values[j])
}

/// Whether a number is the median of samples: the middle one once they are
/// sorted, the upper one of the two in the middle where their number is even.
pub open spec fn is_median(samples: Seq<u128>, value: u128) -> bool {
    exists|sorted: Seq<u128>|
        ascending(sorted) && #[trigger] sorted.to_multiset() == samples.to_multiset() && value
            == sorted[samples.len() as int / 2]
}

/// The median of samples.
pub fn median(samples: &Vec<u128>) -> (value: u128)
    requires
        samples@.len() > 0,
    ensures
        is_median(samples@, value),
{
    let mut sorted: Vec<u128> = Vec::new();
    let mut i: usize = 0;
    assert(sorted@ =~= samples@.take(0));
    while i < samples.len()
        invariant
            i <= samples@.len(),
            sorted@.len() == i,
            ascending(sorted@),
            sorted@.to_multiset() == samples@.take(i as int).to_multiset(),
        decreases samples@.len() - i,
    {
        let sample: u128 = samples[i];
        let ghost before = sorted@;
        let mut at: usize = i;
        while at > 0 && sorted[at - 1] > sample
            invariant
                at <= i,
                sorted@ == before,
                before.len() == i,
                ascending(before),
                forall|j: int| at <= j < i ==> #[trigger] before[j] > sample,
            decreases at,
        {
            at -= 1;
        }
        sorted.insert(at, sample);
        proof {
            assert(sorted@ =~= before.insert(at as int, sample));
            before.to_multiset_ensures();
            assert(samples@.take(i + 1) =~= samples@.take(i as int).push(sample));
            samples@.take(i as int).to_multiset_ensures();
            lemma_insert_multiset(before, at as int, sample);
            assert forall|a: int, b: int| 0 <= a < b < sorted@.len() implies (#[trigger] sorted@[a])
                <= (#[trigger] sorted@[b]) by {
                let from_a = if a < at {
                    a
                } else {
                    a - 1
                };
                let from_b = if b < at {
                    b
                } else {
                    b - 1
                };
                if a == at {
                    assert(sorted@[b] == before[from_b]);
                } else if b == at {
                    assert(sorted@[a] == before[from_a]);
                    if at > 0 {
                        assert(before[at - 1] <= sample);
                        if from_a < at - 1 {
                            assert(before[from_a] <= before[at - 1]);
                        }
                    }
                } else {
                    assert(sorted@[a] == before[from_a]);
                    assert(sorted@[b] == before[from_b]);
                }
            }
        }
        i += 1;
    }
    proof {
        assert(samples@.take(i as int) =~= samples@);
        assert(sorted@.to_multiset() == samples@.to_multiset());
    }
    sorted[samples.len() / 2]
}

proof fn lemma_insert_multiset(values: Seq<u128>, at: int, value: u128)
    requires
        0 <= at <= values.len(),
    ensures
        values.insert(at, value).to_multiset() == values.to_multiset().insert(value),
{
    let front = values.take(at);
    let back = values.skip(at);
    assert(values =~= front + back);
    assert(values.insert(at, value) =~= front.push(value) + back);
    vstd::seq_lib::lemma_multiset_commutative(front, back);
    vstd::seq_lib::lemma_multiset_commutative(front.push(value), back);
    front.to_multiset_ensures();
    assert(values.insert(at, value).to_multiset() =~= values.to_multiset().insert(value));
}

/// Which of two variants each run of a paired measurement takes: one run of each
/// to warm up, and after that pairs whose order alternates, so that a device that
/// speeds up meanwhile favours neither.
pub open spec fn paired_runs(repetitions: nat) -> Seq<bool> {
    Seq::new(
        2 + 2 * repetitions,
        |i: int|
            if i < 2 {
                i == 1
            } else {
                (i / 2 - 1) % 2 != i % 2
            },
    )
}

/// Which of two variants each run of a paired measurement takes.
pub fn paired_order(repetitions: usize) -> (order: Vec<bool>)
    requires
        2 + 2 * repetitions <= usize::MAX,
    ensures
        order@ == paired_runs(repetitions as nat),
{
    let mut order: Vec<bool> = Vec::new();
    order.push(false);
    order.push(true);
    let mut repetition: usize = 0;
    while repetition < repetitions
        invariant
            repetition <= repetitions,
            order@ =~= paired_runs(repetition as nat),
        decreases repetitions - repetition,
    {
        let even: bool = repetition % 2 == 0;
        order.push(!even);
        order.push(even);
        proof {
            let at = 2 + 2 * repetition as int;
            assert(at / 2 - 1 == repetition && at % 2 == 0);
            assert((at + 1) / 2 - 1 == repetition && (at + 1) % 2 == 1);
        }
        repetition += 1;
    }
    order
}

/// The times of one variant in a paired measurement, without the warm-up.
pub open spec fn variant_samples(elapsed: Seq<u128>, variant: bool, repetitions: nat) -> Seq<u128> {
    Seq::new(
        repetitions,
        |r: int|
            elapsed[2 + 2 * r + (if variant == (r % 2 == 0) {
                1int
            } else {
                0
            })],
    )
}

/// Of each pair, the samples of a variant are those of its runs.
pub proof fn paired_samples_are_of_their_variant(repetitions: nat, variant: bool, r: int)
    requires
        0 <= r < repetitions,
    ensures
        paired_runs(repetitions)[2 + 2 * r + (if variant == (r % 2 == 0) {
            1int
        } else {
            0
        })] == variant,
{
    let at = 2 + 2 * r;
    assert(at / 2 - 1 == r && at % 2 == 0);
    assert((at + 1) / 2 - 1 == r && (at + 1) % 2 == 1);
}

/// The medians of a paired measurement: that of the first variant, and that of
/// the second.
pub fn paired_medians(elapsed: &[u128], repetitions: usize) -> (medians: (u128, u128))
    requires
        repetitions > 0,
        elapsed@.len() == 2 + 2 * repetitions,
    ensures
        is_median(variant_samples(elapsed@, false, repetitions as nat), medians.0),
        is_median(variant_samples(elapsed@, true, repetitions as nat), medians.1),
{
    let mut first: Vec<u128> = Vec::new();
    let mut second: Vec<u128> = Vec::new();
    let mut r: usize = 0;
    while r < repetitions
        invariant
            r <= repetitions,
            elapsed@.len() == 2 + 2 * repetitions,
            first@ =~= variant_samples(elapsed@, false, r as nat),
            second@ =~= variant_samples(elapsed@, true, r as nat),
        decreases repetitions - r,
    {
        assert(elapsed.len() == elapsed@.len());
        let at: usize = 2 + 2 * r;
        if r % 2 == 0 {
            first.push(elapsed[at]);
            second.push(elapsed[at + 1]);
        } else {
            second.push(elapsed[at]);
            first.push(elapsed[at + 1]);
        }
        r += 1;
    }
    (median(&first), median(&second))
}

/// A product, or the largest number.
pub open spec fn capped_product(left: u128, right: u128) -> int {
    if left * right > u128::MAX {
        u128::MAX as int
    } else {
        left * right
    }
}

fn saturating_product(left: u128, right: u128) -> (product: u128)
    ensures
        product == capped_product(left, right),
{
    match left.checked_mul(right) {
        Some(product) => product,
        None => 0xffff_ffff_ffff_ffff_ffff_ffff_ffff_ffff,
    }
}

/// Whether a time is below so many percent of another one.
pub open spec fn is_win(base: u128, other: u128, percent: u128) -> bool {
    capped_product(other, 100) < capped_product(base, percent)
}

/// Tests whether a time is below so many percent of another one, so that noise
/// does not pass for a gain.
pub fn material_win(base: u128, other: u128, percent: u128) -> (result: bool)
    ensures
        result == is_win(base, other, percent),
{
    saturating_product(other, 100) < saturating_product(base, percent)
}

/// How many times as fast another variant is, in thousandths.
pub open spec fn speedup(base: u128, other: u128) -> u32 {
    let ratio = capped_product(base, 1000) / (if other == 0 {
        1int
    } else {
        other as int
    });
    if ratio > u32::MAX {
        u32::MAX
    } else {
        ratio as u32
    }
}

/// How many times as fast another variant is, in thousandths.
pub fn speedup_milli(base: u128, other: u128) -> (milli: u32)
    ensures
        milli == speedup(base, other),
{
    let divisor: u128 = if other == 0 {
        1
    } else {
        other
    };
    let ratio: u128 = saturating_product(base, 1000) / divisor;
    if ratio > 0xffff_ffff {
        0xffff_ffff
    } else {
        ratio as u32
    }
}

/// What a paired measurement decides.
#[derive(Clone, Copy, Debug, PartialEq, Eq, Structural)]
pub struct VariantDecision {
    pub use_variant: bool,
    pub speedup_milli: Option<u32>,
    pub failed: bool,
}

/// What a paired measurement decides: the variant is used where it computes the
/// same scores and wins by the margin that `percent` gives.
pub open spec fn decided(medians: Option<(u128, u128)>, close: bool, percent: u128) -> VariantDecision {
    match medians {
        Some((base, other)) => if close {
            VariantDecision {
                use_variant: is_win(base, other, percent),
                speedup_milli: Some(speedup(base, other)),
                failed: false,
            }
        } else {
            VariantDecision { use_variant: false, speedup_milli: None, failed: true }
        },
        None => VariantDecision { use_variant: false, speedup_milli: None, failed: true },
    }
}

/// What a paired measurement decides. There are no medians where a run failed.
pub fn decide_variant(medians: Option<(u128, u128)>, close: bool, percent: u128) -> (decision:
    VariantDecision)
    ensures
        decision == decided(medians, close, percent),
{
    match medians {
        Some((base, other)) => {
            if close {
                VariantDecision {
                    use_variant: material_win(base, other, percent),
                    speedup_milli: Some(speedup_milli(base, other)),
                    failed: false,
                }
            } else {
                VariantDecision { use_variant: false, speedup_milli: None, failed: true }
            }
        },
        None => VariantDecision { use_variant: false, speedup_milli: None, failed: true },
    }
}

/// Whether control data is staged in pinned memory: where that wins by two percent.
pub fn decide_control_staging(medians: Option<(u128, u128)>, close: bool) -> (decision:
    VariantDecision)
    ensures
        decision == decided(medians, close, 98),
{
    decide_variant(medians, close, 98)
}

/// Whether the tile kernel has a double buffer: where that wins by five percent.
pub fn decide_double_buffer(medians: Option<(u128, u128)>, close: bool) -> (decision:
    VariantDecision)
    ensures
        decision == decided(medians, close, 95),
{
    decide_variant(medians, close, 95)
}

/// A time that fits in 64 bits, or the longest such time.
pub open spec fn capped_time(nanoseconds: u128) -> u64 {
    if nanoseconds > u64::MAX {
        u64::MAX
    } else {
        nanoseconds as u64
    }
}

/// A time that fits in 64 bits, or the longest such time.
pub fn duration_ns(nanoseconds: u128) -> (result: u64)
    ensures
        result == capped_time(nanoseconds),
{
    if nanoseconds > 0xffff_ffff_ffff_ffff {
        0xffff_ffff_ffff_ffff
    } else {
        nanoseconds as u64
    }
}

/// The search for the query rows from which the matrix engine wins.
#[derive(Clone, Copy, Debug, PartialEq, Eq, Structural)]
pub struct TensorSearch {
    pub threshold: u32,
    pub tile_time_ns: u64,
    pub tensor_time_ns: u64,
    pub successful: bool,
}

/// What one measurement of a search came to.
#[derive(Clone, Copy, Debug, PartialEq, Eq, Structural)]
pub enum SearchStep {
    /// The next size is to be measured.
    Next,
    /// The measurement failed; the next size is to be measured.
    Failed,
    /// The search is over.
    Found,
}

impl TensorSearch {
    pub open spec fn started() -> TensorSearch {
        TensorSearch { threshold: u32::MAX, tile_time_ns: 0, tensor_time_ns: 0, successful: false }
    }

    /// The search after a measurement, and what it came to.
    pub open spec fn observed(self, rows: u32, measured: Option<(u128, u128)>, close: bool) -> (
        TensorSearch,
        SearchStep,
    ) {
        match measured {
            Some((tile, tensor)) => if !close {
                (self, SearchStep::Failed)
            } else {
                let timed = TensorSearch {
                    tile_time_ns: capped_time(tile),
                    tensor_time_ns: capped_time(tensor),
                    successful: true,
                    ..self
                };
                if is_win(tile, tensor, 95) {
                    (TensorSearch { threshold: rows, ..timed }, SearchStep::Found)
                } else {
                    (timed, SearchStep::Next)
                }
            },
            None => (self, SearchStep::Failed),
        }
    }

    /// A search that has measured nothing.
    pub fn start() -> (search: Self)
        ensures
            search == TensorSearch::started(),
    {
        TensorSearch {
            threshold: 0xffff_ffff,
            tile_time_ns: 0,
            tensor_time_ns: 0,
            successful: false,
        }
    }

    /// Takes a measurement with so many query rows: the times of the tile kernel
    /// and of the matrix engine, where both ran, and whether their scores agree.
    pub fn observe(&mut self, rows: u32, measured: Option<(u128, u128)>, close: bool) -> (step:
        SearchStep)
        ensures
            (*final(self), step) == old(self).observed(rows, measured, close),
    {
        match measured {
            Some((tile, tensor)) => {
                if !close {
                    return SearchStep::Failed;
                }
                self.successful = true;
                self.tile_time_ns = duration_ns(tile);
                self.tensor_time_ns = duration_ns(tensor);
                if material_win(tile, tensor, 95) {
                    self.threshold = rows;
                    SearchStep::Found
                } else {
                    SearchStep::Next
                }
            },
            None => SearchStep::Failed,
        }
    }
}

/// The query rows that a search measures, in order.
pub fn tensor_sizes() -> (sizes: Vec<u32>)
    ensures
        sizes@ == seq![64u32, 256, 512, 1024, 2048],
{
    let sizes: Vec<u32> = vec![64, 256, 512, 1024, 2048];
    assert(sizes@ =~= seq![64u32, 256, 512, 1024, 2048]);
    sizes
}

/// A search ends on a size only where the matrix engine computed the same scores
/// and won by five percent, and the threshold is then that size.
pub proof fn threshold_is_a_win(
    search: TensorSearch,
    rows: u32,
    measured: Option<(u128, u128)>,
    close: bool,
)
    ensures
        ({
            let (after, step) = search.observed(rows, measured, close);
            &&& step == SearchStep::Found <==> close && (measured matches Some((tile, tensor)) && is_win(
                tile,
                tensor,
                95,
            ))
            &&& step == SearchStep::Found ==> after.threshold == rows && after.successful
            &&& step != SearchStep::Found ==> after.threshold == search.threshold
        }),
{
}

/// The numbers of candidates for which chunk sizes are tried.
pub open spec fn is_chunk_choice(choice: usize, candidates: usize) -> bool {
    choice <= candidates && (choice == 64 || choice == 256 || choice == 1024 || choice == 4096
        || choice == candidates)
}

/// Whether numbers rise.
pub open spec fn rising(values: Seq<usize>) -> bool {
    forall|i: int, j: int| 0 <= i < j < values.len() ==> (#[trigger] values[i]) < (#[trigger] values[j])
}

/// The chunk sizes to try, each once, the smallest first.
pub fn chunk_choices(candidates: usize) -> (choices: Vec<usize>)
    ensures
        rising(choices@),
        forall|choice: usize| #[trigger]
            choices@.contains(choice) <==> is_chunk_choice(choice, candidates),
{
    let mut choices: Vec<usize> = Vec::new();
    let sizes: [usize; 4] = [64, 256, 1024, 4096];
    let mut i: usize = 0;
    while i < 4 && sizes[i] < candidates
        invariant
            i <= 4,
            sizes@ =~= seq![64usize, 256, 1024, 4096],
            choices@ =~= sizes@.take(i as int),
            forall|j: int| 0 <= j < i ==> #[trigger] sizes@[j] < candidates,
        decreases 4 - i,
    {
        choices.push(sizes[i]);
        i += 1;
    }
    let ghost before = choices@;
    choices.push(candidates);
    proof {
        assert forall|choice: usize| #[trigger] choices@.contains(choice) <==> is_chunk_choice(
            choice,
            candidates,
        ) by {
            if choices@.contains(choice) {
                let at = choose|at: int| 0 <= at < choices@.len() && choices@[at] == choice;
                if at < before.len() {
                    assert(before[at] == sizes@[at]);
                }
            }
            if is_chunk_choice(choice, candidates) {
                if choice == candidates {
                    assert(choices@[before.len() as int] == candidates);
                } else {
                    let at = if choice == 64 {
                        0int
                    } else if choice == 256 {
                        1
                    } else if choice == 1024 {
                        2
                    } else {
                        3
                    };
                    assert(sizes@[at] == choice);
                    assert(at < i);
                    assert(choices@[at] == before[at]);
                    assert(before[at] == sizes@[at]);
                }
            }
        }
    }
    choices
}

/// The best chunk size so far, and its time.
pub open spec fn better_chunk(best: Option<(usize, u128)>, chunk: usize, elapsed: u128) -> Option<
    (usize, u128),
> {
    match best {
        Some((_, current)) => if is_win(current, elapsed, 98) {
            Some((chunk, elapsed))
        } else {
            best
        },
        None => Some((chunk, elapsed)),
    }
}

/// One step of the search for a chunk size: the best so far, and whether the step
/// counts as a failure. A size that could not be measured is passed over. Another
/// counts only where the scores are those of the first size that was measured, and
/// it has to win by two percent.
pub fn observe_chunk(best: Option<(usize, u128)>, chunk: usize, measured: Option<u128>, close: bool) -> (result: (
    Option<(usize, u128)>,
    bool,
))
    ensures
        result == match measured {
            Some(elapsed) => if close {
                (better_chunk(best, chunk, elapsed), false)
            } else {
                (best, true)
            },
            None => (best, false),
        },
{
    match measured {
        Some(elapsed) => {
            if !close {
                return (best, true);
            }
            match best {
                Some((_, current)) => {
                    if material_win(current, elapsed, 98) {
                        (Some((chunk, elapsed)), false)
                    } else {
                        (best, false)
                    }
                },
                None => (Some((chunk, elapsed)), false),
            }
        },
        None => (best, false),
    }
}

/// The fastest number of queries per warp so far, and its time. Of two that are
/// equally fast the first stays.
pub open spec fn faster_tile(best: Option<(u128, u32)>, elapsed: u128, queries: u32) -> Option<
    (u128, u32),
> {
    match best {
        Some((fastest, _)) => if elapsed < fastest {
            Some((elapsed, queries))
        } else {
            best
        },
        None => Some((elapsed, queries)),
    }
}

/// One step of the search for a number of queries per warp: the fastest so far, and
/// whether the step counts as a failure. It does where a run failed, and where the
/// scores are not those of the first number that was measured.
pub fn observe_tile(best: Option<(u128, u32)>, queries: u32, measured: Option<u128>, close: bool) -> (result: (
    Option<(u128, u32)>,
    bool,
))
    ensures
        result == match measured {
            Some(elapsed) => if close {
                (faster_tile(best, elapsed, queries), false)
            } else {
                (best, true)
            },
            None => (best, true),
        },
{
    match measured {
        Some(elapsed) => {
            if !close {
                return (best, true);
            }
            match best {
                Some((fastest, _)) => {
                    if elapsed < fastest {
                        (Some((elapsed, queries)), false)
                    } else {
                        (best, false)
                    }
                },
                None => (Some((elapsed, queries)), false),
            }
        },
        None => (best, true),
    }
}

/// The number of queries per warp to set: the fastest, or the one that was set
/// before where none was measured.
pub fn selected_tile(best: Option<(u128, u32)>, original: u32) -> (queries: u32)
    ensures
        queries == match best {
            Some((_, queries)) => queries,
            None => original,
        },
{
    match best {
        Some((_, queries)) => queries,
        None => original,
    }
}

/// One step of the search for the document rows up to which a warp takes a whole
/// document: the rows selected so far, and what the step came to. The search goes
/// on as long as the variant computes the same scores and wins by five percent.
pub fn observe_warp_rows(selected: u32, rows: u32, measured: Option<(u128, u128)>, close: bool) -> (result: (
    u32,
    SearchStep,
))
    ensures
        result == match measured {
            Some((cooperative, warp)) => if !close {
                (selected, SearchStep::Failed)
            } else if is_win(cooperative, warp, 95) {
                (rows, SearchStep::Next)
            } else {
                (selected, SearchStep::Found)
            },
            None => (selected, SearchStep::Failed),
        },
{
    match measured {
        Some((cooperative, warp)) => {
            if !close {
                (selected, SearchStep::Failed)
            } else if material_win(cooperative, warp, 95) {
                (rows, SearchStep::Next)
            } else {
                (selected, SearchStep::Found)
            }
        },
        None => (selected, SearchStep::Failed),
    }
}

/// The rows of candidate `index` of a bucket: the pattern's rows in turn.
pub open spec fn pattern_rows(pattern: Seq<u32>, index: int) -> u32 {
    pattern[index % pattern.len() as int]
}

/// The rows of the first `count` candidates of a bucket.
pub open spec fn rows_before(pattern: Seq<u32>, count: int) -> int
    decreases count,
{
    if count <= 0 {
        0
    } else {
        rows_before(pattern, count - 1) + pattern_rows(pattern, count - 1)
    }
}

/// More candidates have no fewer rows.
proof fn lemma_rows_before(pattern: Seq<u32>, count: int, all: int)
    requires
        0 <= count <= all,
        pattern.len() > 0,
    ensures
        0 <= rows_before(pattern, count) <= rows_before(pattern, all),
    decreases all,
{
    if count < all {
        lemma_rows_before(pattern, count, all - 1);
    } else if count > 0 {
        lemma_rows_before(pattern, count - 1, count - 1);
    }
}

/// Where the candidates of a bucket lie, and how many rows each has.
pub struct BucketLayout {
    pub offsets: Vec<u64>,
    pub rows: Vec<u32>,
}

/// Lays the candidates of a bucket out one behind the other, as half-precision
/// numbers, where they fit in the arena.
pub fn bucket_layout(dimension: u32, candidates: usize, pattern: &[u32], tensor_bytes: usize) -> (layout:
    Option<BucketLayout>)
    requires
        pattern@.len() > 0,
    ensures
        match layout {
            Some(layout) => {
                &&& rows_before(pattern@, candidates as int) * (2 * dimension) <= tensor_bytes
                &&& layout.offsets@.len() == candidates
                &&& layout.rows@.len() == candidates
                &&& forall|i: int|
                    0 <= i < candidates ==> #[trigger] layout.offsets@[i] == rows_before(pattern@, i)
                        * (2 * dimension)
                &&& forall|i: int|
                    0 <= i < candidates ==> #[trigger] layout.rows@[i] == pattern_rows(pattern@, i)
            },
            None => rows_before(pattern@, candidates as int) * (2 * dimension) > tensor_bytes,
        },
{
    let mut offsets: Vec<u64> = Vec::new();
    let mut rows: Vec<u32> = Vec::new();
    let mut cursor: u64 = 0;
    let ghost wide = 2 * dimension;
    let mut i: usize = 0;
    while i < candidates
        invariant
            i <= candidates,
            pattern@.len() > 0,
            wide == 2 * dimension,
            cursor == rows_before(pattern@, i as int) * wide,
            cursor <= tensor_bytes,
            offsets@.len() == i,
            rows@.len() == i,
            forall|j: int|
                0 <= j < i ==> #[trigger] offsets@[j] == rows_before(pattern@, j) * wide,
            forall|j: int| 0 <= j < i ==> #[trigger] rows@[j] == pattern_rows(pattern@, j),
        decreases candidates - i,
    {
        let count: u32 = pattern[i % pattern.len()];
        offsets.push(cursor);
        rows.push(count);
        let ghost before = rows_before(pattern@, i as int);
        let ghost after = rows_before(pattern@, i as int + 1);
        proof {
            assert(after == before + count);
            assert(after * wide == before * wide + count * wide) by (nonlinear_arith)
                requires
                    after == before + count,
            ;
            assert(count * wide <= 0xffff_ffff * 0x1_ffff_fffe) by (nonlinear_arith)
                requires
                    0 <= count <= 0xffff_ffff,
                    0 <= wide <= 0x1_ffff_fffe,
            ;
            lemma_rows_before(pattern@, i as int + 1, candidates as int);
            let all = rows_before(pattern@, candidates as int);
            assert(after * wide <= all * wide) by (nonlinear_arith)
                requires
                    after <= all,
                    wide >= 0,
            ;
        }
        let bytes: u128 = count as u128 * (2 * dimension as u128);
        let next: u128 = cursor as u128 + bytes;
        assert(next == after * wide) by (nonlinear_arith)
            requires
                next == before * wide + count * wide,
                after * wide == before * wide + count * wide,
        ;
        if next > tensor_bytes as u128 {
            return None;
        }
        cursor = next as u64;
        i += 1;
    }
    Some(BucketLayout { offsets, rows })
}

/// The most rows of a list.
pub open spec fn most_rows(rows: Seq<u32>, count: int) -> u32
    decreases count,
{
    if count <= 0 {
        0
    } else if rows[count - 1] > most_rows(rows, count - 1) {
        rows[count - 1]
    } else {
        most_rows(rows, count - 1)
    }
}

/// The most rows of a list.
pub fn largest_rows(rows: &[u32]) -> (most: u32)
    ensures
        most == most_rows(rows@, rows@.len() as int),
{
    let mut most: u32 = 0;
    let mut i: usize = 0;
    while i < rows.len()
        invariant
            i <= rows@.len(),
            most == most_rows(rows@, i as int),
        decreases rows@.len() - i,
    {
        if rows[i] > most {
            most = rows[i];
        }
        i += 1;
    }
    most
}

/// The sum of the first `count` rows.
pub open spec fn sum_rows(rows: Seq<u32>, count: int) -> int
    decreases count,
{
    if count <= 0 {
        0
    } else {
        sum_rows(rows, count - 1) + rows[count - 1]
    }
}

/// More rows sum up to no less.
pub proof fn lemma_sum_rows(rows: Seq<u32>, count: int, all: int)
    requires
        0 <= count <= all,
    ensures
        0 <= sum_rows(rows, count) <= sum_rows(rows, all),
    decreases all,
{
    if count < all {
        lemma_sum_rows(rows, count, all - 1);
    } else if count > 0 {
        lemma_sum_rows(rows, count - 1, count - 1);
    }
}

/// The sum of rows, or the largest number.
pub fn total_rows(rows: &[u32]) -> (total: u64)
    ensures
        total == if sum_rows(rows@, rows@.len() as int) > u64::MAX {
            u64::MAX as int
        } else {
            sum_rows(rows@, rows@.len() as int)
        },
{
    let mut total: u64 = 0;
    let mut i: usize = 0;
    while i < rows.len()
        invariant
            i <= rows@.len(),
            total == if sum_rows(rows@, i as int) > u64::MAX {
                u64::MAX as int
            } else {
                sum_rows(rows@, i as int)
            },
        decreases rows@.len() - i,
    {
        proof {
            lemma_sum_rows(rows@, i as int, i as int + 1);
        }
        total = total.saturating_add(rows[i] as u64);
        i += 1;
    }
    total
}

/// A number that fits in 32 bits, or the largest such number.
pub open spec fn capped32(value: int) -> u32 {
    if value > u32::MAX {
        u32::MAX
    } else {
        value as u32
    }
}

fn cap32(value: u128) -> (result: u32)
    ensures
        result == capped32(value as int),
{
    if value > 0xffff_ffff {
        0xffff_ffff
    } else {
        value as u32
    }
}

/// What a search made of a bucket, where any of its measurements counted.
pub open spec fn bucket_of(
    search: TensorSearch,
    candidates: usize,
    pattern: nat,
    rows: Seq<u32>,
    chunk: usize,
) -> Option<TensorCalibrationBucket> {
    let total = sum_rows(rows, rows.len() as int);
    let most = most_rows(rows, rows.len() as int);
    if search.successful {
        Some(
            TensorCalibrationBucket {
                candidate_count: capped32(candidates as int),
                reference_document_rows: capped32(total / candidates as int),
                reference_row_groups: capped32(pattern as int),
                reference_max_document_rows: most,
                reference_row_imbalance_milli: if total == 0 {
                    0
                } else {
                    capped32(most * candidates * 1000 / total)
                },
                threshold_query_rows: search.threshold,
                tile_time_ns: search.tile_time_ns,
                tensor_time_ns: search.tensor_time_ns,
                tensor_chunk_candidates: capped32(chunk as int),
            },
        )
    } else {
        None
    }
}

/// What a search made of a bucket.
pub fn finish_bucket(
    search: &TensorSearch,
    candidates: usize,
    pattern: &[u32],
    rows: &[u32],
    chunk: usize,
) -> (bucket: Option<TensorCalibrationBucket>)
    requires
        candidates > 0,
        sum_rows(rows@, rows@.len() as int) <= u64::MAX,
    ensures
        bucket == bucket_of(*search, candidates, pattern@.len(), rows@, chunk),
{
    if !search.successful {
        return None;
    }
    proof {
        lemma_sum_rows(rows@, 0, rows@.len() as int);
    }
    let total: u64 = total_rows(rows);
    let most: u32 = largest_rows(rows);
    assert(most * candidates * 1000 <= u128::MAX) by (nonlinear_arith)
        requires
            0 <= most <= 0xffff_ffff,
            0 <= candidates <= 0xffff_ffff_ffff_ffff,
    ;
    assert(most * candidates <= most * candidates * 1000) by (nonlinear_arith)
        requires
            0 <= most,
            0 <= candidates,
    ;
    let imbalance: u32 = if total == 0 {
        0
    } else {
        cap32(most as u128 * candidates as u128 * 1000 / total as u128)
    };
    Some(
        TensorCalibrationBucket {
            candidate_count: cap32(candidates as u128),
            reference_document_rows: cap32(total as u128 / candidates as u128),
            reference_row_groups: cap32(pattern.len() as u128),
            reference_max_document_rows: most,
            reference_row_imbalance_milli: imbalance,
            threshold_query_rows: search.threshold,
            tile_time_ns: search.tile_time_ns,
            tensor_time_ns: search.tensor_time_ns,
            tensor_chunk_candidates: cap32(chunk as u128),
        },
    )
}

/// The row patterns that are measured: one row count for all candidates, eight
/// that differ widely, and thirty-two that differ by one.
pub fn row_patterns() -> (patterns: Vec<Vec<u32>>)
    ensures
        patterns@.len() == 3,
        patterns@[0]@ == seq![32u32],
        patterns@[1]@ == Seq::new(8, |i: int| (8 * (i + 1)) as u32),
        patterns@[2]@ == Seq::new(32, |i: int| (i + 1) as u32),
{
    let mut moderate: Vec<u32> = Vec::new();
    let mut i: u32 = 0;
    while i < 8
        invariant
            i <= 8,
            moderate@ =~= Seq::new(i as nat, |i: int| (8 * (i + 1)) as u32),
        decreases 8 - i,
    {
        moderate.push(8 * (i + 1));
        i += 1;
    }
    let mut fragmented: Vec<u32> = Vec::new();
    let mut i: u32 = 0;
    while i < 32
        invariant
            i <= 32,
            fragmented@ =~= Seq::new(i as nat, |i: int| (i + 1) as u32),
        decreases 32 - i,
    {
        fragmented.push(i + 1);
        i += 1;
    }
    let mut uniform: Vec<u32> = Vec::new();
    uniform.push(32);
    assert(uniform@ =~= seq![32u32]);
    let mut patterns: Vec<Vec<u32>> = Vec::new();
    patterns.push(uniform);
    patterns.push(moderate);
    patterns.push(fragmented);
    patterns
}

/// The codes of a document of a quantized calibration.
pub fn pq_codes(rows: u32, subspaces: u16) -> (codes: Vec<u8>)
    requires
        rows * subspaces <= usize::MAX,
    ensures
        codes@ == Seq::new((rows * subspaces) as nat, |i: int| (i % 256) as u8),
{
    let count: usize = rows as usize * subspaces as usize;
    let mut codes: Vec<u8> = Vec::new();
    let mut i: usize = 0;
    while i < count
        invariant
            i <= count,
            codes@ =~= Seq::new(i as nat, |i: int| (i % 256) as u8),
        decreases count - i,
    {
        codes.push((i % 256) as u8);
        i += 1;
    }
    codes
}

/// The places of `count` tensors of the same length, one behind the other.
pub fn equal_places(count: usize, length: usize) -> (places: Vec<u64>)
    requires
        count * length <= u64::MAX,
    ensures
        places@ == Seq::new(count as nat, |i: int| (i * length) as u64),
{
    let mut places: Vec<u64> = Vec::new();
    let mut at: u64 = 0;
    let mut i: usize = 0;
    let ghost wide = length as int;
    assert(0 * wide == 0) by (nonlinear_arith);
    while i < count
        invariant
            i <= count,
            wide == length,
            count * wide <= u64::MAX,
            i < count ==> at == i * wide,
            places@ =~= Seq::new(i as nat, |i: int| (i * length) as u64),
        decreases count - i,
    {
        places.push(at);
        assert((i + 1) * wide <= count * wide) by (nonlinear_arith)
            requires
                i + 1 <= count,
                wide >= 0,
        ;
        assert((i + 1) * wide == i * wide + wide) by (nonlinear_arith);
        at = at + length as u64;
        i += 1;
    }
    places
}

/// No document has more rows than the most, and one has as many, or none has any.
pub proof fn no_document_has_more_rows(rows: Seq<u32>, count: int)
    requires
        0 <= count <= rows.len(),
    ensures
        forall|i: int| 0 <= i < count ==> #[trigger] rows[i] <= most_rows(rows, count),
        most_rows(rows, count) == 0 || exists|i: int|
            0 <= i < count && #[trigger] rows[i] == most_rows(rows, count),
    decreases count,
{
    if count > 0 {
        no_document_has_more_rows(rows, count - 1);
        let before = most_rows(rows, count - 1);
        if most_rows(rows, count) == before && before != 0 {
            let i = choose|i: int| 0 <= i < count - 1 && #[trigger] rows[i] == before;
            assert(rows[i] == most_rows(rows, count));
        } else {
            assert(rows[count - 1] == rows[count - 1]);
        }
    }
}

/// The rows of all documents are summed, each once.
pub proof fn every_document_is_summed(rows: Seq<u32>, count: int)
    requires
        0 <= count <= rows.len(),
    ensures
        sum_rows(rows, count) == rows.take(count).fold_left(0int, |sum: int, one: u32| sum + one),
    decreases count,
{
    if count > 0 {
        every_document_is_summed(rows, count - 1);
        assert(rows.take(count).drop_last() =~= rows.take(count - 1));
    }
}

/// A bucket is made of a search that measured anything, with the mean rows of its
/// candidates, their most rows against that mean in thousandths, and the threshold and the
/// times that the search ended with.
pub proof fn buckets_tell_what_was_measured(
    search: TensorSearch,
    candidates: usize,
    pattern: nat,
    rows: Seq<u32>,
    chunk: usize,
)
    requires
        candidates > 0,
        rows.len() > 0,
    ensures
        ({
            let total = rows.fold_left(0int, |sum: int, one: u32| sum + one);
            match bucket_of(search, candidates, pattern, rows, chunk) {
                None => !search.successful,
                Some(bucket) => {
                    &&& search.successful
                    &&& bucket.threshold_query_rows == search.threshold
                    &&& bucket.tile_time_ns == search.tile_time_ns
                    &&& bucket.tensor_time_ns == search.tensor_time_ns
                    &&& bucket.candidate_count as int == vstd::math::min(
                        candidates as int,
                        0xffff_ffff,
                    )
                    &&& bucket.reference_document_rows as int == vstd::math::min(
                        total / candidates as int,
                        0xffff_ffff,
                    )
                    &&& bucket.tensor_chunk_candidates as int == vstd::math::min(
                        chunk as int,
                        0xffff_ffff,
                    )
                    &&& bucket.reference_row_groups as int == vstd::math::min(
                        pattern as int,
                        0xffff_ffff,
                    )
                    &&& forall|i: int|
                        0 <= i < rows.len() ==> #[trigger] rows[i]
                            <= bucket.reference_max_document_rows
                    &&& total > 0 ==> bucket.reference_row_imbalance_milli as int
                        == vstd::math::min(
                        bucket.reference_max_document_rows * candidates * 1000 / total,
                        0xffff_ffff,
                    )
                },
            }
        }),
{
    let count = rows.len() as int;
    every_document_is_summed(rows, count);
    assert(rows.take(count) =~= rows);
    no_document_has_more_rows(rows, count);
    lemma_sum_rows(rows, 0, count);
    let total = sum_rows(rows, count);
    let most = most_rows(rows, count);
    assert(total / candidates as int >= 0) by (nonlinear_arith)
        requires
            total >= 0,
            candidates > 0,
    ;
    if total > 0 {
        assert(most * candidates * 1000 / total >= 0) by (nonlinear_arith)
            requires
                most >= 0,
                candidates > 0,
                total > 0,
        ;
    }
}

/// A variant is taken exactly where it computes the same scores and its time is below the
/// given percentage of the other's; a measurement without times, or with other scores,
/// counts as failed.
pub proof fn variants_win_by_the_margin(
    base: u128,
    other: u128,
    close: bool,
    percent: u128,
)
    requires
        base * percent <= u128::MAX,
        other * 100 <= u128::MAX,
    ensures
        decided(Some((base, other)), close, percent).use_variant <==> close && other * 100 < base
            * percent,
        decided(Some((base, other)), close, percent).failed <==> !close,
        decided(None, close, percent).failed,
        !decided(None, close, percent).use_variant,
{
}

/// The rows of the candidates of a bucket are those of its pattern in turn, over and over.
pub proof fn patterns_repeat(pattern: Seq<u32>, index: int)
    requires
        pattern.len() > 0,
        0 <= index,
    ensures
        rows_before(pattern, 0) == 0,
        rows_before(pattern, index + 1) - rows_before(pattern, index) == pattern[index
            % pattern.len() as int],
{
}

} // verus!
