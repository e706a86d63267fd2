//! Which kernel scores a batch.

use crate::text::{contains_text, holds_text};
use vstd::prelude::*;

verus! {

#[derive(Clone, Copy, Debug, PartialEq, Eq, Structural)]
pub enum KernelKind {
    Warp,
    Tile,
    Tensor,
}

#[derive(Clone, Copy, Debug)]
pub struct DispatchInput {
    pub query_rows: u64,
    pub storage_bytes_per_scalar: u8,
    pub shared_candidate_ratio_milli: u16,
    pub tensor_available: bool,
    pub tile_available: bool,
}

#[derive(Clone, Copy, Debug, PartialEq, Eq, Structural)]
pub struct DispatchThresholds {
    pub cuda_ridge: u64,
    pub tensor_ridge: u64,
    pub minimum_shared_ratio_milli: u16,
}

/// Conservative thresholds for hardware that nothing is known of.
pub open spec fn default_thresholds() -> DispatchThresholds {
    DispatchThresholds { cuda_ridge: 128, tensor_ridge: 512, minimum_shared_ratio_milli: 500 }
}

impl Default for DispatchThresholds {
    fn default() -> (thresholds: Self)
        ensures
            thresholds == default_thresholds(),
    {
        DispatchThresholds { cuda_ridge: 128, tensor_ridge: 512, minimum_shared_ratio_milli: 500 }
    }
}

/// A measured shape, and the query rows from which the matrix engine wins on it.
#[derive(Clone, Copy, Debug, PartialEq, Eq, Structural)]
pub struct TensorCalibrationBucket {
    pub candidate_count: u32,
    pub reference_document_rows: u32,
    pub reference_row_groups: u32,
    pub reference_max_document_rows: u32,
    pub reference_row_imbalance_milli: u32,
    pub threshold_query_rows: u32,
    pub tile_time_ns: u64,
    pub tensor_time_ns: u64,
    pub tensor_chunk_candidates: u32,
}

impl Default for TensorCalibrationBucket {
    fn default() -> (bucket: Self)
        ensures
            bucket == (TensorCalibrationBucket {
                candidate_count: 0,
                reference_document_rows: 0,
                reference_row_groups: 0,
                reference_max_document_rows: 0,
                reference_row_imbalance_milli: 0,
                threshold_query_rows: 0,
                tile_time_ns: 0,
                tensor_time_ns: 0,
                tensor_chunk_candidates: 0,
            }),
    {
        TensorCalibrationBucket {
            candidate_count: 0,
            reference_document_rows: 0,
            reference_row_groups: 0,
            reference_max_document_rows: 0,
            reference_row_imbalance_milli: 0,
            threshold_query_rows: 0,
            tile_time_ns: 0,
            tensor_time_ns: 0,
            tensor_chunk_candidates: 0,
        }
    }
}

#[derive(Clone, Copy, Debug)]
pub struct TensorDispatchInput {
    pub candidate_count: usize,
    pub total_query_rows: u32,
    pub total_document_rows: u64,
    pub document_row_groups: u32,
    pub max_document_rows: u32,
    pub dimension: u32,
}

#[derive(Clone, Copy, Debug, PartialEq, Eq, Structural)]
pub struct TensorDispatchDecision {
    pub use_tensor: bool,
    pub selected_candidate_bucket: u32,
    pub selected_document_rows: u32,
    pub selected_row_groups: u32,
    pub selected_max_document_rows: u32,
    pub selected_row_imbalance_milli: u32,
    pub adjusted_threshold_rows: u64,
    pub effective_query_rows: u64,
    pub estimated_dot_products: u128,
    pub crossover_dot_products: u128,
}

/// A number, at least one.
pub open spec fn at_least_one(value: u32) -> int {
    if value == 0 {
        1
    } else {
        value as int
    }
}

/// How far two numbers are apart as a ratio, in thousandths; zero counts as one.
pub open spec fn ratio_distance(left: u32, right: u32) -> int {
    if at_least_one(left) <= at_least_one(right) {
        at_least_one(right) * 1000 / at_least_one(left) - 1000
    } else {
        at_least_one(left) * 1000 / at_least_one(right) - 1000
    }
}

fn ratio_distance_milli(left: u32, right: u32) -> (distance: u64)
    ensures
        distance == ratio_distance(left, right),
        distance <= 0x3e8_0000_0000,
{
    let left: u64 = if left == 0 {
        1
    } else {
        left as u64
    };
    let right: u64 = if right == 0 {
        1
    } else {
        right as u64
    };
    let low: u64 = if left <= right {
        left
    } else {
        right
    };
    let high: u64 = if left <= right {
        right
    } else {
        left
    };
    proof {
        assert(high * 1000 / low as int >= 1000) by (nonlinear_arith)
            requires
                1 <= low <= high,
        ;
        assert(high * 1000 / low as int <= high * 1000) by (nonlinear_arith)
            requires
                1 <= low,
                high >= 0,
        ;
    }
    high * 1000 / low - 1000
}

/// The rows of the longest document against the mean, in thousandths.
pub open spec fn imbalance(input: TensorDispatchInput) -> u32 {
    let value = input.max_document_rows * input.candidate_count * 1000
        / input.total_document_rows as int;
    if value > u32::MAX {
        u32::MAX
    } else {
        value as u32
    }
}

/// How far the shape of an input is from the shape of a bucket.
pub open spec fn shape_distance(input: TensorDispatchInput, bucket: TensorCalibrationBucket) -> int {
    ratio_distance(bucket.reference_row_groups, at_least_one(input.document_row_groups) as u32)
        + ratio_distance(bucket.reference_max_document_rows, input.max_document_rows)
        + ratio_distance(bucket.reference_row_imbalance_milli, imbalance(input))
}

/// Whether bucket `index` has the nearest shape, and is the first of those.
pub open spec fn is_nearest(
    input: TensorDispatchInput,
    buckets: Seq<TensorCalibrationBucket>,
    index: int,
) -> bool {
    &&& 0 <= index < buckets.len()
    &&& forall|j: int|
        0 <= j < buckets.len() ==> shape_distance(input, buckets[index]) <= shape_distance(
            input,
            #[trigger] buckets[j],
        )
    &&& forall|j: int|
        0 <= j < index ==> shape_distance(input, buckets[index]) < shape_distance(
            input,
            #[trigger] buckets[j],
        )
}

/// Whether two buckets were measured on the same shape.
pub open spec fn same_shape(left: TensorCalibrationBucket, right: TensorCalibrationBucket) -> bool {
    &&& left.reference_row_groups == right.reference_row_groups
    &&& left.reference_max_document_rows == right.reference_max_document_rows
    &&& left.reference_row_imbalance_milli == right.reference_row_imbalance_milli
}

/// Whether a bucket is nearer to a number of candidates than another one: the
/// largest that is not above the number, or the smallest where all are above.
pub open spec fn closer(count: usize, left: TensorCalibrationBucket, right: TensorCalibrationBucket) -> bool {
    if left.candidate_count <= count {
        right.candidate_count > count || left.candidate_count > right.candidate_count
    } else {
        right.candidate_count > count && left.candidate_count < right.candidate_count
    }
}

/// Whether bucket `index` decides for an input: it has the nearest shape, and no
/// bucket of that shape has a closer number of candidates. Of buckets with one
/// number of candidates the last decides, and the first where all are above.
pub open spec fn is_selected(
    input: TensorDispatchInput,
    buckets: Seq<TensorCalibrationBucket>,
    index: int,
) -> bool {
    &&& 0 <= index < buckets.len()
    &&& exists|nearest: int| #[trigger]
        is_nearest(input, buckets, nearest) && same_shape(buckets[index], buckets[nearest])
    &&& forall|j: int|
        0 <= j < buckets.len() && same_shape(#[trigger] buckets[j], buckets[index]) ==> !closer(
            input.candidate_count,
            buckets[j],
            buckets[index],
        )
    &&& forall|j: int|
        0 <= j < buckets.len() && same_shape(#[trigger] buckets[j], buckets[index])
            && buckets[j].candidate_count == buckets[index].candidate_count
            ==> if buckets[index].candidate_count <= input.candidate_count {
            j <= index
        } else {
            index <= j
        }
}

/// One bucket decides for an input.
pub proof fn one_bucket_decides(
    input: TensorDispatchInput,
    buckets: Seq<TensorCalibrationBucket>,
    left: int,
    right: int,
)
    requires
        is_selected(input, buckets, left),
        is_selected(input, buckets, right),
    ensures
        left == right,
{
    let first = choose|nearest: int| #[trigger]
        is_nearest(input, buckets, nearest) && same_shape(buckets[left], buckets[nearest]);
    let second = choose|nearest: int| #[trigger]
        is_nearest(input, buckets, nearest) && same_shape(buckets[right], buckets[nearest]);
    assert(shape_distance(input, buckets[first]) == shape_distance(input, buckets[second]));
    assert(first == second);
    assert(same_shape(buckets[left], buckets[right]));
    assert(!closer(input.candidate_count, buckets[left], buckets[right]));
    assert(!closer(input.candidate_count, buckets[right], buckets[left]));
}

/// The dot products of an input.
pub open spec fn dot_products(input: TensorDispatchInput) -> int {
    input.total_query_rows * input.total_document_rows * input.dimension
}

/// The dot products from which the matrix engine wins, in vectors of the
/// reference dimension 320.
pub open spec fn crossover(bucket: TensorCalibrationBucket) -> int {
    bucket.threshold_query_rows * bucket.candidate_count * bucket.reference_document_rows * 320
}

/// The query rows at which an input reaches the crossover, rounded up.
pub open spec fn adjusted_rows(input: TensorDispatchInput, bucket: TensorCalibrationBucket) -> u64 {
    let values = input.total_document_rows * input.dimension;
    let rows = (crossover(bucket) + values - 1) / values;
    if rows > u64::MAX {
        u64::MAX
    } else {
        rows as u64
    }
}

/// The decision of a bucket for an input.
pub open spec fn decision_of(input: TensorDispatchInput, bucket: TensorCalibrationBucket) -> TensorDispatchDecision {
    TensorDispatchDecision {
        use_tensor: bucket.threshold_query_rows != u32::MAX && dot_products(input) >= crossover(
            bucket,
        ),
        selected_candidate_bucket: bucket.candidate_count,
        selected_document_rows: bucket.reference_document_rows,
        selected_row_groups: bucket.reference_row_groups,
        selected_max_document_rows: bucket.reference_max_document_rows,
        selected_row_imbalance_milli: bucket.reference_row_imbalance_milli,
        adjusted_threshold_rows: adjusted_rows(input, bucket),
        effective_query_rows: ((input.total_query_rows * input.dimension + 319) / 320) as u64,
        estimated_dot_products: dot_products(input) as u128,
        crossover_dot_products: crossover(bucket) as u128,
    }
}

/// Whether there is anything to decide.
pub open spec fn has_work(input: TensorDispatchInput) -> bool {
    &&& input.candidate_count != 0
    &&& input.total_query_rows != 0
    &&& input.total_document_rows != 0
    &&& input.max_document_rows != 0
    &&& input.dimension != 0
}

fn row_imbalance(input: &TensorDispatchInput) -> (value: u32)
    requires
        input.total_document_rows != 0,
    ensures
        value == imbalance(*input),
{
    let rows: u128 = input.max_document_rows as u128;
    let count: u128 = input.candidate_count as u128;
    proof {
        assert(rows * count * 1000 <= 0xffff_ffff * 0xffff_ffff_ffff_ffff * 1000) by (nonlinear_arith)
            requires
                0 <= rows <= 0xffff_ffff,
                0 <= count <= 0xffff_ffff_ffff_ffff,
        ;
        assert(rows * count <= rows * count * 1000) by (nonlinear_arith)
            requires
                rows >= 0,
                count >= 0,
        ;
    }
    let value: u128 = rows * count * 1000 / (input.total_document_rows as u128);
    if value > u32::MAX as u128 {
        u32::MAX
    } else {
        value as u32
    }
}

fn distance_to(input: &TensorDispatchInput, imbalance_milli: u32, bucket: &TensorCalibrationBucket) -> (distance:
    u64)
    requires
        imbalance_milli == imbalance(*input),
    ensures
        distance == shape_distance(*input, *bucket),
{
    let groups: u32 = if input.document_row_groups == 0 {
        1
    } else {
        input.document_row_groups
    };
    ratio_distance_milli(bucket.reference_row_groups, groups) + ratio_distance_milli(
        bucket.reference_max_document_rows,
        input.max_document_rows,
    ) + ratio_distance_milli(bucket.reference_row_imbalance_milli, imbalance_milli)
}

/// Finds the bucket of the nearest shape.
fn nearest_bucket(input: &TensorDispatchInput, buckets: &[TensorCalibrationBucket]) -> (index: usize)
    requires
        input.total_document_rows != 0,
        buckets@.len() > 0,
    ensures
        is_nearest(*input, buckets@, index as int),
{
    let imbalance_milli: u32 = row_imbalance(input);
    let mut nearest: usize = 0;
    let mut least: u64 = distance_to(input, imbalance_milli, &buckets[0]);
    let mut i: usize = 1;
    while i < buckets.len()
        invariant
            1 <= i <= buckets@.len(),
            nearest < i,
            imbalance_milli == imbalance(*input),
            least == shape_distance(*input, buckets@[nearest as int]),
            forall|j: int|
                0 <= j < i ==> least <= shape_distance(*input, #[trigger] buckets@[j]),
            forall|j: int|
                0 <= j < nearest ==> least < shape_distance(*input, #[trigger] buckets@[j]),
        decreases buckets@.len() - i,
    {
        let distance: u64 = distance_to(input, imbalance_milli, &buckets[i]);
        if distance < least {
            nearest = i;
            least = distance;
        }
        i += 1;
    }
    nearest
}

fn is_closer(count: usize, left: &TensorCalibrationBucket, right: &TensorCalibrationBucket) -> (result: bool)
    ensures
        result == closer(count, *left, *right),
{
    let count: u64 = count as u64;
    if left.candidate_count as u64 <= count {
        right.candidate_count as u64 > count || left.candidate_count > right.candidate_count
    } else {
        right.candidate_count as u64 > count && left.candidate_count < right.candidate_count
    }
}

/// Finds the bucket that decides.
fn select_bucket(input: &TensorDispatchInput, buckets: &[TensorCalibrationBucket]) -> (index: usize)
    requires
        input.total_document_rows != 0,
        buckets@.len() > 0,
    ensures
        is_selected(*input, buckets@, index as int),
{
    let nearest: usize = nearest_bucket(input, buckets);
    let profile: TensorCalibrationBucket = buckets[nearest];
    let mut selected: usize = nearest;
    let mut i: usize = 0;
    assert forall|j: int| 0 <= j < nearest implies !same_shape(#[trigger] buckets@[j], profile) by {
        assert(shape_distance(*input, profile) < shape_distance(*input, buckets@[j]));
    }
    while i < buckets.len()
        invariant
            i <= buckets@.len(),
            selected < buckets@.len(),
            nearest < buckets@.len(),
            profile == buckets@[nearest as int],
            same_shape(buckets@[selected as int], profile),
            nearest <= selected,
            selected == nearest || selected < i,
            forall|j: int| 0 <= j < nearest ==> !same_shape(#[trigger] buckets@[j], profile),
            forall|j: int|
                0 <= j < i && same_shape(#[trigger] buckets@[j], profile)
                    && buckets@[j].candidate_count == buckets@[selected as int].candidate_count
                    ==> if buckets@[selected as int].candidate_count <= input.candidate_count {
                    j <= selected
                } else {
                    selected <= j
                },
            forall|j: int|
                0 <= j < i && same_shape(#[trigger] buckets@[j], profile) ==> !closer(
                    input.candidate_count,
                    buckets@[j],
                    buckets@[selected as int],
                ),
        decreases buckets@.len() - i,
    {
        let bucket: &TensorCalibrationBucket = &buckets[i];
        if bucket.reference_row_groups == profile.reference_row_groups
            && bucket.reference_max_document_rows == profile.reference_max_document_rows
            && bucket.reference_row_imbalance_milli == profile.reference_row_imbalance_milli
            && (is_closer(input.candidate_count, bucket, &buckets[selected]) || (i > selected
            && bucket.candidate_count == buckets[selected].candidate_count && (
        bucket.candidate_count as u64) <= input.candidate_count as u64)) {
            selected = i;
        }
        i += 1;
    }
    assert(is_nearest(*input, buckets@, nearest as int));
    selected
}

fn decide(input: &TensorDispatchInput, bucket: &TensorCalibrationBucket) -> (decision:
    TensorDispatchDecision)
    requires
        input.total_document_rows != 0,
        input.dimension != 0,
    ensures
        decision == decision_of(*input, *bucket),
        dot_products(*input) <= u128::MAX,
        crossover(*bucket) <= u128::MAX,
{
    let query_rows: u128 = input.total_query_rows as u128;
    let document_rows: u128 = input.total_document_rows as u128;
    let dimension: u128 = input.dimension as u128;
    let threshold: u128 = bucket.threshold_query_rows as u128;
    let candidates: u128 = bucket.candidate_count as u128;
    let rows: u128 = bucket.reference_document_rows as u128;
    proof {
        assert(query_rows * document_rows <= 0xffff_ffff * 0xffff_ffff_ffff_ffff) by (nonlinear_arith)
            requires
                0 <= query_rows <= 0xffff_ffff,
                0 <= document_rows <= 0xffff_ffff_ffff_ffff,
        ;
        assert(query_rows * document_rows * dimension <= 0xffff_ffff * 0xffff_ffff_ffff_ffff
            * 0xffff_ffff) by (nonlinear_arith)
            requires
                0 <= query_rows * document_rows <= 0xffff_ffff * 0xffff_ffff_ffff_ffff,
                0 <= dimension <= 0xffff_ffff,
        ;
        assert(threshold * candidates <= 0xffff_ffff * 0xffff_ffff) by (nonlinear_arith)
            requires
                0 <= threshold <= 0xffff_ffff,
                0 <= candidates <= 0xffff_ffff,
        ;
        assert(threshold * candidates * rows <= 0xffff_ffff * 0xffff_ffff * 0xffff_ffff)
            by (nonlinear_arith)
            requires
                0 <= threshold * candidates <= 0xffff_ffff * 0xffff_ffff,
                0 <= rows <= 0xffff_ffff,
        ;
        assert(1 <= document_rows * dimension <= 0xffff_ffff_ffff_ffff * 0xffff_ffff) by (nonlinear_arith)
            requires
                1 <= document_rows <= 0xffff_ffff_ffff_ffff,
                1 <= dimension <= 0xffff_ffff,
        ;
        assert(0 <= input.total_query_rows * input.dimension <= 0xffff_ffff * 0xffff_ffff)
            by (nonlinear_arith)
            requires
                0 <= input.total_query_rows <= 0xffff_ffff,
                0 <= input.dimension <= 0xffff_ffff,
        ;
    }
    let estimated: u128 = query_rows * document_rows * dimension;
    let crossing: u128 = threshold * candidates * rows * 320;
    let values: u128 = document_rows * dimension;
    let scaled: u128 = (crossing + values - 1) / values;
    let adjusted: u64 = if scaled > u64::MAX as u128 {
        u64::MAX
    } else {
        scaled as u64
    };
    let effective: u64 = ((input.total_query_rows as u64) * (input.dimension as u64) + 319) / 320;
    TensorDispatchDecision {
        use_tensor: bucket.threshold_query_rows != u32::MAX && estimated >= crossing,
        selected_candidate_bucket: bucket.candidate_count,
        selected_document_rows: bucket.reference_document_rows,
        selected_row_groups: bucket.reference_row_groups,
        selected_max_document_rows: bucket.reference_max_document_rows,
        selected_row_imbalance_milli: bucket.reference_row_imbalance_milli,
        adjusted_threshold_rows: adjusted,
        effective_query_rows: effective,
        estimated_dot_products: estimated,
        crossover_dot_products: crossing,
    }
}

/// Decides between the tile kernel and the matrix engine from what was
/// measured.
pub fn choose_tensor(input: TensorDispatchInput, buckets: &[TensorCalibrationBucket]) -> (result:
    Option<TensorDispatchDecision>)
    ensures
        result is Some <==> has_work(input) && buckets@.len() > 0,
        result is Some ==> exists|index: int| #[trigger]
            is_selected(input, buckets@, index) && result->0 == decision_of(input, buckets@[index]),
{
    if input.candidate_count == 0 || input.total_query_rows == 0 || input.total_document_rows == 0
        || input.max_document_rows == 0 || input.dimension == 0 || buckets.len() == 0 {
        return None;
    }
    let index: usize = select_bucket(&input, buckets);
    let decision: TensorDispatchDecision = decide(&input, &buckets[index]);
    assert(is_selected(input, buckets@, index as int));
    Some(decision)
}

/// More work never turns the matrix engine down: where one input takes it, an
/// input that the same bucket decides takes it too if it has as many dot
/// products.
pub proof fn more_work_keeps_tensor(
    less: TensorDispatchInput,
    more: TensorDispatchInput,
    bucket: TensorCalibrationBucket,
)
    requires
        dot_products(less) <= dot_products(more),
        decision_of(less, bucket).use_tensor,
    ensures
        decision_of(more, bucket).use_tensor,
{
}

/// A bucket on which the matrix engine never won turns it down for every input.
pub proof fn disabled_bucket_never_uses_tensor(
    input: TensorDispatchInput,
    bucket: TensorCalibrationBucket,
)
    requires
        bucket.threshold_query_rows == u32::MAX,
    ensures
        !decision_of(input, bucket).use_tensor,
{
}

/// The ridge of the matrix engine: by the name of the device, or else by its
/// compute capability.
pub open spec fn tensor_ridge_of(name: Seq<char>, major: i32, minor: i32) -> Option<u64> {
    if holds_text(name, "RTX 4090"@) {
        Some(328)
    } else if holds_text(name, "H200"@) {
        Some(206)
    } else if holds_text(name, "A100"@) {
        Some(156)
    } else if holds_text(name, "L40S"@) {
        Some(424)
    } else if holds_text(name, "GB10"@) || holds_text(name, "DGX Spark"@) {
        Some(512)
    } else if major == 9 || major == 10 {
        Some(384)
    } else if major == 12 {
        Some(512)
    } else if major == 8 {
        if minor == 0 {
            Some(256)
        } else {
            Some(512)
        }
    } else {
        None
    }
}

/// The ridge of the vector units, by the compute capability of the device.
pub open spec fn cuda_ridge_of(major: i32, minor: i32) -> Option<u64> {
    if major == 9 {
        Some(14)
    } else if major == 8 {
        if minor == 0 {
            Some(10)
        } else {
            Some(82)
        }
    } else if major == 10 {
        Some(16)
    } else if major == 12 {
        Some(64)
    } else {
        None
    }
}

/// The thresholds of a device that is known; none for unknown hardware, which
/// must never be taken to have a matrix engine.
pub fn device_thresholds(name: &str, major: i32, minor: i32) -> (result: Option<DispatchThresholds>)
    ensures
        result == match (tensor_ridge_of(name@, major, minor), cuda_ridge_of(major, minor)) {
            (Some(tensor_ridge), Some(cuda_ridge)) => Some(
                DispatchThresholds { cuda_ridge, tensor_ridge, minimum_shared_ratio_milli: 500 },
            ),
            _ => None,
        },
{
    let tensor_ridge: u64 = if contains_text(name, "RTX 4090") {
        328
    } else if contains_text(name, "H200") {
        206
    } else if contains_text(name, "A100") {
        156
    } else if contains_text(name, "L40S") {
        424
    } else if contains_text(name, "GB10") || contains_text(name, "DGX Spark") {
        512
    } else if major == 9 || major == 10 {
        384
    } else if major == 12 {
        512
    } else if major == 8 {
        if minor == 0 {
            256
        } else {
            512
        }
    } else {
        return None;
    };
    let cuda_ridge: u64 = if major == 9 {
        14
    } else if major == 8 {
        if minor == 0 {
            10
        } else {
            82
        }
    } else if major == 10 {
        16
    } else if major == 12 {
        64
    } else {
        return None;
    };
    Some(DispatchThresholds { cuda_ridge, tensor_ridge, minimum_shared_ratio_milli: 500 })
}

/// How often a loaded row is used: once for each query row, twice where a scalar
/// takes one byte.
pub open spec fn reuse(input: DispatchInput) -> int {
    let rows = if input.storage_bytes_per_scalar <= 1 {
        input.query_rows * 2
    } else {
        input.query_rows as int
    };
    if rows > u64::MAX {
        u64::MAX as int
    } else {
        rows
    }
}

/// The kernel for an input.
pub open spec fn kernel_of(input: DispatchInput, thresholds: DispatchThresholds) -> KernelKind {
    if input.shared_candidate_ratio_milli < thresholds.minimum_shared_ratio_milli || reuse(input)
        < thresholds.cuda_ridge {
        KernelKind::Warp
    } else if input.tensor_available && reuse(input) >= thresholds.tensor_ridge {
        KernelKind::Tensor
    } else if input.tile_available {
        KernelKind::Tile
    } else {
        KernelKind::Warp
    }
}

/// Picks the kernel for an input.
pub fn choose_kernel(input: DispatchInput, thresholds: DispatchThresholds) -> (kernel: KernelKind)
    ensures
        kernel == kernel_of(input, thresholds),
{
    let effective_reuse: u64 = if input.storage_bytes_per_scalar <= 1 {
        input.query_rows.saturating_add(input.query_rows)
    } else {
        input.query_rows
    };
    if input.shared_candidate_ratio_milli < thresholds.minimum_shared_ratio_milli || effective_reuse
        < thresholds.cuda_ridge {
        KernelKind::Warp
    } else if !input.tensor_available || effective_reuse < thresholds.tensor_ridge {
        if input.tile_available {
            KernelKind::Tile
        } else {
            KernelKind::Warp
        }
    } else {
        KernelKind::Tensor
    }
}

/// A kernel that is not available is never picked.
pub proof fn unavailable_kernels_are_not_picked(input: DispatchInput, thresholds: DispatchThresholds)
    ensures
        kernel_of(input, thresholds) == KernelKind::Tensor ==> input.tensor_available,
        kernel_of(input, thresholds) == KernelKind::Tile ==> input.tile_available,
{
}

/// The matrix engine is used exactly where the numbers that the input multiplies, query
/// rows by document rows by dimension, reach those of the bucket at its threshold in
/// dimension 320, and never where the bucket has no threshold.
pub proof fn tensor_is_used_from_the_crossover_on(
    input: TensorDispatchInput,
    bucket: TensorCalibrationBucket,
)
    ensures
        decision_of(input, bucket).use_tensor <==> bucket.threshold_query_rows != 0xffff_ffff
            && input.total_query_rows * input.total_document_rows * input.dimension
            >= bucket.threshold_query_rows * bucket.candidate_count * bucket.reference_document_rows
            * 320,
        decision_of(input, bucket).estimated_dot_products == input.total_query_rows
            * input.total_document_rows * input.dimension,
        decision_of(input, bucket).crossover_dot_products == bucket.threshold_query_rows
            * bucket.candidate_count * bucket.reference_document_rows * 320,
{
    let q = input.total_query_rows as int;
    let r = input.total_document_rows as int;
    let d = input.dimension as int;
    assert(0 <= q * r * d <= 0xffff_ffff * 0xffff_ffff_ffff_ffff * 0xffff_ffff) by (nonlinear_arith)
        requires
            0 <= q <= 0xffff_ffff,
            0 <= r <= 0xffff_ffff_ffff_ffff,
            0 <= d <= 0xffff_ffff,
    {
        assert(0 <= q * r <= 0xffff_ffff * 0xffff_ffff_ffff_ffff);
        assert(0 <= (q * r) * d <= (0xffff_ffff * 0xffff_ffff_ffff_ffff) * 0xffff_ffff);
    }
    let t = bucket.threshold_query_rows as int;
    let c = bucket.candidate_count as int;
    let w = bucket.reference_document_rows as int;
    assert(0 <= t * c * w <= 0xffff_ffff * 0xffff_ffff * 0xffff_ffff) by (nonlinear_arith)
        requires
            0 <= t <= 0xffff_ffff,
            0 <= c <= 0xffff_ffff,
            0 <= w <= 0xffff_ffff,
    {
        assert(0 <= t * c <= 0xffff_ffff * 0xffff_ffff);
        assert(0 <= (t * c) * w <= (0xffff_ffff * 0xffff_ffff) * 0xffff_ffff);
    }
}

/// The adjusted threshold is the least number of query rows with which the input
/// reaches the crossover, or the largest number there is.
pub proof fn adjusted_threshold_is_the_least(
    input: TensorDispatchInput,
    bucket: TensorCalibrationBucket,
    rows: int,
)
    requires
        input.total_document_rows > 0,
        input.dimension > 0,
        decision_of(input, bucket).adjusted_threshold_rows < u64::MAX,
    ensures
        rows >= decision_of(input, bucket).adjusted_threshold_rows <==> rows
            * input.total_document_rows * input.dimension >= bucket.threshold_query_rows
            * bucket.candidate_count * bucket.reference_document_rows * 320,
        bucket.threshold_query_rows != 0xffff_ffff ==> (decision_of(input, bucket).use_tensor
            <==> input.total_query_rows >= decision_of(input, bucket).adjusted_threshold_rows),
{
    lemma_rounded_up(input, bucket, rows);
    lemma_rounded_up(input, bucket, input.total_query_rows as int);
    tensor_is_used_from_the_crossover_on(input, bucket);
}

proof fn lemma_rounded_up(input: TensorDispatchInput, bucket: TensorCalibrationBucket, rows: int)
    requires
        input.total_document_rows > 0,
        input.dimension > 0,
        decision_of(input, bucket).adjusted_threshold_rows < u64::MAX,
    ensures
        rows >= decision_of(input, bucket).adjusted_threshold_rows <==> rows
            * input.total_document_rows * input.dimension >= bucket.threshold_query_rows
            * bucket.candidate_count * bucket.reference_document_rows * 320,
{
    let documents = input.total_document_rows as int;
    let dimension = input.dimension as int;
    let values = documents * dimension;
    let goal = bucket.threshold_query_rows * bucket.candidate_count * bucket.reference_document_rows
        * 320;
    assert(values > 0) by (nonlinear_arith)
        requires
            documents > 0,
            dimension > 0,
            values == documents * dimension,
    ;
    tensor_is_used_from_the_crossover_on(input, bucket);
    assert(goal >= 0);
    let least = (goal + values - 1) / values;
    vstd::arithmetic::div_mod::lemma_fundamental_div_mod(goal + values - 1, values);
    vstd::arithmetic::div_mod::lemma_mod_bound(goal + values - 1, values);
    assert(rows * documents * dimension == rows * values) by (nonlinear_arith)
        requires
            values == documents * dimension,
    ;
    assert(least >= 0) by (nonlinear_arith)
        requires
            goal + values - 1 >= 0,
            values > 0,
            least == (goal + values - 1) / values,
    ;
    if rows >= least {
        assert(rows * values >= values * least) by (nonlinear_arith)
            requires
                rows >= least,
                values > 0,
        ;
    } else {
        assert(rows * values <= values * least - values) by (nonlinear_arith)
            requires
                rows <= least - 1,
                values > 0,
        ;
    }
    assert(decision_of(input, bucket).adjusted_threshold_rows == least);
}

/// The effective query rows are those of dimension 320 with as many numbers, rounded
/// up, and the decision names the bucket that it rests on.
pub proof fn decisions_name_their_bucket(input: TensorDispatchInput, bucket: TensorCalibrationBucket)
    ensures
        ({
            let decision = decision_of(input, bucket);
            &&& decision.effective_query_rows * 320 - 320 < input.total_query_rows * input.dimension
                <= decision.effective_query_rows * 320
            &&& decision.selected_candidate_bucket == bucket.candidate_count
            &&& decision.selected_document_rows == bucket.reference_document_rows
            &&& decision.selected_row_groups == bucket.reference_row_groups
            &&& decision.selected_max_document_rows == bucket.reference_max_document_rows
            &&& decision.selected_row_imbalance_milli == bucket.reference_row_imbalance_milli
        }),
{
    assert(0 <= input.total_query_rows * input.dimension <= 0xffff_ffff * 0xffff_ffff)
        by (nonlinear_arith)
        requires
            0 <= input.total_query_rows <= 0xffff_ffff,
            0 <= input.dimension <= 0xffff_ffff,
    ;
}

/// By how many thousandths the larger of two positive numbers exceeds the smaller.
pub open spec fn excess(left: int, right: int) -> int {
    if left < right {
        1000 * right / left - 1000
    } else {
        1000 * left / right - 1000
    }
}

/// How far a shape with so many row groups, such a longest document and such an
/// imbalance is from what a bucket was measured on.
pub open spec fn shape_excess(
    bucket: TensorCalibrationBucket,
    groups: int,
    longest: int,
    imbalance_milli: int,
) -> int {
    excess(vstd::math::max(bucket.reference_row_groups as int, 1), vstd::math::max(groups, 1))
        + excess(
        vstd::math::max(bucket.reference_max_document_rows as int, 1),
        vstd::math::max(longest, 1),
    ) + excess(
        vstd::math::max(bucket.reference_row_imbalance_milli as int, 1),
        vstd::math::max(imbalance_milli, 1),
    )
}

/// The bucket that decides has the shape that is nearest to the input in row groups,
/// longest document and imbalance together, where the imbalance is the rows of the
/// longest document against the mean, in thousandths.
pub proof fn nearest_shape_decides(
    input: TensorDispatchInput,
    buckets: Seq<TensorCalibrationBucket>,
    index: int,
    other: int,
    imbalance_milli: int,
)
    requires
        input.total_document_rows > 0,
        is_selected(input, buckets, index),
        0 <= other < buckets.len(),
        imbalance_milli == vstd::math::min(
            input.max_document_rows * input.candidate_count * 1000
                / input.total_document_rows as int,
            0xffff_ffff,
        ),
    ensures
        shape_excess(
            buckets[index],
            input.document_row_groups as int,
            input.max_document_rows as int,
            imbalance_milli,
        ) <= shape_excess(
            buckets[other],
            input.document_row_groups as int,
            input.max_document_rows as int,
            imbalance_milli,
        ),
{
    let nearest = choose|nearest: int| #[trigger]
        is_nearest(input, buckets, nearest) && same_shape(buckets[index], buckets[nearest]);
    let total = input.total_document_rows as int;
    let rows = input.max_document_rows * input.candidate_count;
    assert(rows * 1000 / total >= 0) by (nonlinear_arith)
        requires
            rows >= 0,
            total > 0,
    ;
    assert(rows >= 0) by (nonlinear_arith)
        requires
            rows == input.max_document_rows * input.candidate_count,
    ;
    assert(imbalance(input) == imbalance_milli);
    assert(shape_distance(input, buckets[nearest]) <= shape_distance(input, buckets[other]));
    assert(shape_distance(input, buckets[index]) == shape_distance(input, buckets[nearest]));
    lemma_excess(input, buckets[index]);
    lemma_excess(input, buckets[other]);
}

proof fn lemma_excess(input: TensorDispatchInput, bucket: TensorCalibrationBucket)
    ensures
        shape_distance(input, bucket) == shape_excess(
            bucket,
            input.document_row_groups as int,
            input.max_document_rows as int,
            imbalance(input) as int,
        ),
{
    lemma_ratio(
        bucket.reference_row_groups,
        (if input.document_row_groups == 0 {
            1
        } else {
            input.document_row_groups
        }),
    );
    lemma_ratio(bucket.reference_max_document_rows, input.max_document_rows);
    lemma_ratio(bucket.reference_row_imbalance_milli, imbalance(input));
}

proof fn lemma_ratio(left: u32, right: u32)
    ensures
        ratio_distance(left, right) == excess(
            vstd::math::max(left as int, 1),
            vstd::math::max(right as int, 1),
        ),
{
    let a = vstd::math::max(left as int, 1);
    if at_least_one(left) == at_least_one(right) {
        assert(a * 1000 / a == 1000) by (nonlinear_arith)
            requires
                a >= 1,
        ;
        assert(1000 * a / a == 1000) by (nonlinear_arith)
            requires
                a >= 1,
        ;
    }
}

/// Where a bucket was measured on the very shape of the input, the bucket that decides
/// differs from it in no part of the shape by a thousandth or more.
pub proof fn exact_shapes_decide(
    input: TensorDispatchInput,
    buckets: Seq<TensorCalibrationBucket>,
    index: int,
    exact: int,
)
    requires
        input.total_document_rows > 0,
        input.document_row_groups > 0,
        input.max_document_rows > 0,
        is_selected(input, buckets, index),
        0 <= exact < buckets.len(),
        buckets[exact].reference_row_groups == input.document_row_groups,
        buckets[exact].reference_max_document_rows == input.max_document_rows,
        buckets[exact].reference_row_imbalance_milli > 0,
        buckets[exact].reference_row_imbalance_milli == input.max_document_rows
            * input.candidate_count * 1000 / input.total_document_rows as int,
    ensures
        excess(
            vstd::math::max(buckets[index].reference_row_groups as int, 1),
            input.document_row_groups as int,
        ) == 0,
        excess(
            vstd::math::max(buckets[index].reference_max_document_rows as int, 1),
            input.max_document_rows as int,
        ) == 0,
        excess(
            vstd::math::max(buckets[index].reference_row_imbalance_milli as int, 1),
            buckets[exact].reference_row_imbalance_milli as int,
        ) == 0,
{
    let imbalance_milli = buckets[exact].reference_row_imbalance_milli as int;
    nearest_shape_decides(input, buckets, index, exact, imbalance_milli);
    lemma_no_excess(input.document_row_groups as int);
    lemma_no_excess(input.max_document_rows as int);
    lemma_no_excess(imbalance_milli);
    lemma_excess_bound(
        vstd::math::max(buckets[index].reference_row_groups as int, 1),
        input.document_row_groups as int,
    );
    lemma_excess_bound(
        vstd::math::max(buckets[index].reference_max_document_rows as int, 1),
        input.max_document_rows as int,
    );
    lemma_excess_bound(
        vstd::math::max(buckets[index].reference_row_imbalance_milli as int, 1),
        imbalance_milli,
    );
}

proof fn lemma_no_excess(value: int)
    requires
        value >= 1,
    ensures
        excess(value, value) == 0,
{
    assert(1000 * value / value == 1000) by (nonlinear_arith)
        requires
            value >= 1,
    ;
}

proof fn lemma_excess_bound(left: int, right: int)
    requires
        left >= 1,
        right >= 1,
    ensures
        excess(left, right) >= 0,
{
    let (low, high) = if left < right {
        (left, right)
    } else {
        (right, left)
    };
    assert(1000 * high / low >= 1000) by (nonlinear_arith)
        requires
            1 <= low <= high,
    ;
}

/// Of the buckets of its shape, the one that decides has the largest number of
/// candidates that is not above that of the input, or the smallest where all are above.
pub proof fn nearest_count_decides(
    input: TensorDispatchInput,
    buckets: Seq<TensorCalibrationBucket>,
    index: int,
    other: int,
)
    requires
        is_selected(input, buckets, index),
        0 <= other < buckets.len(),
        buckets[other].reference_row_groups == buckets[index].reference_row_groups,
        buckets[other].reference_max_document_rows == buckets[index].reference_max_document_rows,
        buckets[other].reference_row_imbalance_milli == buckets[index].reference_row_imbalance_milli,
    ensures
        buckets[other].candidate_count <= input.candidate_count ==> buckets[other].candidate_count
            <= buckets[index].candidate_count <= input.candidate_count,
        buckets[index].candidate_count > input.candidate_count ==> buckets[index].candidate_count
            <= buckets[other].candidate_count,
{
    assert(same_shape(buckets[other], buckets[index]));
    assert(!closer(input.candidate_count, buckets[other], buckets[index]));
}

/// There is something to decide exactly where there are candidates, and query and
/// document rows of some dimension.
pub proof fn all_work_is_decided(input: TensorDispatchInput)
    ensures
        has_work(input) <==> input.candidate_count > 0 && input.total_query_rows > 0
            && input.total_document_rows > 0 && input.max_document_rows > 0 && input.dimension > 0,
{
}

/// A batch whose queries share too few candidates, or that uses each loaded row too
/// seldom, is for the warp kernel; the matrix engine takes those that reach its ridge,
/// and the tile kernel the others. A scalar of one byte counts each query row twice.
pub proof fn kernels_are_picked_by_reuse(input: DispatchInput, thresholds: DispatchThresholds)
    ensures
        ({
            let shared = input.shared_candidate_ratio_milli >= thresholds.minimum_shared_ratio_milli;
            let uses = vstd::math::min(
                input.query_rows * (if input.storage_bytes_per_scalar <= 1 {
                    2int
                } else {
                    1
                }),
                0xffff_ffff_ffff_ffff,
            );
            &&& kernel_of(input, thresholds) == KernelKind::Tensor <==> shared
                && input.tensor_available && uses >= thresholds.cuda_ridge && uses
                >= thresholds.tensor_ridge
            &&& kernel_of(input, thresholds) == KernelKind::Tile <==> shared && input.tile_available
                && uses >= thresholds.cuda_ridge && !(input.tensor_available && uses
                >= thresholds.tensor_ridge)
        }),
{
}

/// More query rows, or more shared candidates, never move a batch away from the matrix
/// engine, nor back to the warp kernel.
pub proof fn more_reuse_keeps_the_kernel(
    less: DispatchInput,
    more: DispatchInput,
    thresholds: DispatchThresholds,
)
    requires
        less.query_rows <= more.query_rows,
        less.shared_candidate_ratio_milli <= more.shared_candidate_ratio_milli,
        less.storage_bytes_per_scalar == more.storage_bytes_per_scalar,
        less.tensor_available == more.tensor_available,
        less.tile_available == more.tile_available,
    ensures
        kernel_of(less, thresholds) == KernelKind::Tensor ==> kernel_of(more, thresholds)
            == KernelKind::Tensor,
        kernel_of(less, thresholds) == KernelKind::Tile ==> kernel_of(more, thresholds)
            != KernelKind::Warp,
{
}

/// Only compute capabilities 8, 9, 10 and 12 have thresholds, and a device that is
/// known by its name has that name's ridge.
pub proof fn known_devices_have_their_ridges(name: Seq<char>, major: i32, minor: i32)
    ensures
        cuda_ridge_of(major, minor) is Some <==> major == 8 || major == 9 || major == 10 || major
            == 12,
        major == 8 && minor == 0 ==> cuda_ridge_of(major, minor) == Some(10u64),
        major == 8 && minor != 0 ==> cuda_ridge_of(major, minor) == Some(82u64),
        major == 9 ==> cuda_ridge_of(major, minor) == Some(14u64),
        major == 10 ==> cuda_ridge_of(major, minor) == Some(16u64),
        major == 12 ==> cuda_ridge_of(major, minor) == Some(64u64),
        holds_text(name, "RTX 4090"@) ==> tensor_ridge_of(name, major, minor) == Some(328u64),
        holds_text(name, "H200"@) && !holds_text(name, "RTX 4090"@) ==> tensor_ridge_of(
            name,
            major,
            minor,
        ) == Some(206u64),
        holds_text(name, "A100"@) && !holds_text(name, "RTX 4090"@) && !holds_text(name, "H200"@)
            ==> tensor_ridge_of(name, major, minor) == Some(156u64),
        holds_text(name, "L40S"@) && !holds_text(name, "RTX 4090"@) && !holds_text(name, "H200"@)
            && !holds_text(name, "A100"@) ==> tensor_ridge_of(name, major, minor) == Some(424u64),
        !holds_text(name, "RTX 4090"@) && !holds_text(name, "H200"@) && !holds_text(name, "A100"@)
            && !holds_text(name, "L40S"@) && (holds_text(name, "GB10"@) || holds_text(
            name,
            "DGX Spark"@,
        ) || major == 12 || major == 8 && minor != 0) ==> tensor_ridge_of(name, major, minor)
            == Some(512u64),
        !holds_text(name, "RTX 4090"@) && !holds_text(name, "H200"@) && !holds_text(name, "A100"@)
            && !holds_text(name, "L40S"@) && !holds_text(name, "GB10"@) && !holds_text(
            name,
            "DGX Spark"@,
        ) ==> {
            &&& major == 9 || major == 10 ==> tensor_ridge_of(name, major, minor) == Some(384u64)
            &&& major == 8 && minor == 0 ==> tensor_ridge_of(name, major, minor) == Some(256u64)
            &&& tensor_ridge_of(name, major, minor) is Some <==> 8 <= major <= 10 || major == 12
        },
{
}

} // verus!
