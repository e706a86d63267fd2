//! Tensors as the devices hold them: their keys, their sizes, and their row-scaled
//! encodings.
//!
//! Floating-point numbers are carried as the bits of their IEEE 754 form. The
//! division of such numbers comes as a function from the caller.

use crate::bytes::{le32, of16, of32, u16_at, u32_at};
use crate::cache::{CacheEntry, EntryView};
use crate::codes::{is_code, scalar_code, units};
use crate::host_cache::share_payload;
use crate::protocol::{descriptor_views, Descriptor, DescriptorView, ScoringProfile};
use crate::quant::QuantError;
use crate::shard::{cache_key, colon_free, key_text, keys_tell_tensors_apart};
use crate::table::Table;
use std::sync::Arc;
use vstd::arithmetic::power2::{lemma2_to64, lemma_pow2_adds, lemma_pow2_unfold, pow2};
use vstd::prelude::*;
use vstd::string::StringExecFns;

verus! {

/// Why a request cannot be served.
#[derive(Clone, Copy, Debug)]
pub enum EngineError {
    NoDevice,
    BatchSize,
    ResidentOverflow,
    NoContract,
    NoCandidates,
    NoRegistry,
    ProfileDisabled(ScoringProfile),
    NotScheduled,
    MissingResult,
    EntryMismatch,
    CacheProfile,
    EncodingProfile,
    EncodingOverflow,
    PayloadLength,
    ScaledOverflow,
    AlignmentOverflow,
    SourceDtype,
    Cache(&'static str),
    Quantizer(QuantError),
}

/// The name of a profile in messages.
pub open spec fn profile_text(profile: ScoringProfile) -> Seq<char> {
    match profile {
        ScoringProfile::ExactFp16 => "ExactFp16"@,
        ScoringProfile::Int8 => "Int8"@,
        ScoringProfile::Fp8E4m3 => "Fp8E4m3"@,
        ScoringProfile::RawFp8E4m3 => "RawFp8E4m3"@,
        ScoringProfile::Pq => "Pq"@,
        ScoringProfile::OpqRpq => "OpqRpq"@,
    }
}

/// The name of a profile in messages.
pub fn profile_name(profile: ScoringProfile) -> (name: &'static str)
    ensures
        name@ == profile_text(profile),
{
    match profile {
        ScoringProfile::ExactFp16 => "ExactFp16",
        ScoringProfile::Int8 => "Int8",
        ScoringProfile::Fp8E4m3 => "Fp8E4m3",
        ScoringProfile::RawFp8E4m3 => "RawFp8E4m3",
        ScoringProfile::Pq => "Pq",
        ScoringProfile::OpqRpq => "OpqRpq",
    }
}

impl EngineError {
    pub open spec fn message_text(self) -> Seq<char> {
        match self {
            EngineError::NoDevice => "at least one GPU is required"@,
            EngineError::BatchSize => "resident prewarm batch size must be positive"@,
            EngineError::ResidentOverflow =>
                "resident manifest exceeds the configured Rust GPU block caches"@,
            EngineError::NoContract => "PQ-family request has no quantization contract"@,
            EngineError::NoCandidates => "PQ-family request has no candidates"@,
            EngineError::NoRegistry => "PQ-family scoring requires --quantization-registry-root"@,
            EngineError::ProfileDisabled(profile) => "requested TileMaxSim scoring profile "@
                + profile_text(profile) + " is not enabled by the native daemon"@,
            EngineError::NotScheduled =>
                "one tensor cannot be scheduled in any configured Rust GPU block cache"@,
            EngineError::MissingResult => "missing native TileMaxSim result"@,
            EngineError::EntryMismatch =>
                "GPU cache metadata disagrees with the tensor descriptor"@,
            EngineError::CacheProfile => "unsupported GPU cache scoring profile"@,
            EngineError::EncodingProfile => "unsupported TileMaxSim encoding profile"@,
            EngineError::EncodingOverflow => "tensor encoding size overflow"@,
            EngineError::PayloadLength => "tensor payload length disagrees with its descriptor"@,
            EngineError::ScaledOverflow => "INT8 tensor size overflow"@,
            EngineError::AlignmentOverflow => "tensor alignment overflow"@,
            EngineError::SourceDtype => "unsupported source tensor dtype"@,
            EngineError::Cache(message) => message@,
            EngineError::Quantizer(error) => error.message_text(),
        }
    }

    /// The error in words.
    pub fn message(self) -> (text: String)
        ensures
            text@ == self.message_text(),
    {
        match self {
            EngineError::NoDevice => "at least one GPU is required".to_owned(),
            EngineError::BatchSize => "resident prewarm batch size must be positive".to_owned(),
            EngineError::ResidentOverflow =>
                "resident manifest exceeds the configured Rust GPU block caches".to_owned(),
            EngineError::NoContract => "PQ-family request has no quantization contract".to_owned(),
            EngineError::NoCandidates => "PQ-family request has no candidates".to_owned(),
            EngineError::NoRegistry =>
                "PQ-family scoring requires --quantization-registry-root".to_owned(),
            EngineError::ProfileDisabled(profile) => {
                let mut text: String = "requested TileMaxSim scoring profile ".to_owned();
                text.append(profile_name(profile));
                text.append(" is not enabled by the native daemon");
                text
            },
            EngineError::NotScheduled =>
                "one tensor cannot be scheduled in any configured Rust GPU block cache".to_owned(),
            EngineError::MissingResult => "missing native TileMaxSim result".to_owned(),
            EngineError::EntryMismatch =>
                "GPU cache metadata disagrees with the tensor descriptor".to_owned(),
            EngineError::CacheProfile => "unsupported GPU cache scoring profile".to_owned(),
            EngineError::EncodingProfile => "unsupported TileMaxSim encoding profile".to_owned(),
            EngineError::EncodingOverflow => "tensor encoding size overflow".to_owned(),
            EngineError::PayloadLength =>
                "tensor payload length disagrees with its descriptor".to_owned(),
            EngineError::ScaledOverflow => "INT8 tensor size overflow".to_owned(),
            EngineError::AlignmentOverflow => "tensor alignment overflow".to_owned(),
            EngineError::SourceDtype => "unsupported source tensor dtype".to_owned(),
            EngineError::Cache(message) => message.to_owned(),
            EngineError::Quantizer(error) => error.message(),
        }
    }
}

/// The key of a tensor on a device: how it is scored, with which quantizer, and
/// the tensor's own key.
pub open spec fn gpu_key(
    profile: ScoringProfile,
    contract: Option<Seq<char>>,
    descriptor: DescriptorView,
) -> Seq<char> {
    profile.tag_text() + ":"@ + (match contract {
        Some(contract) => contract,
        None => "-"@,
    }) + ":"@ + key_text(descriptor)
}

/// The key of a tensor on a device.
pub fn gpu_cache_key(
    descriptor: &Descriptor,
    profile: ScoringProfile,
    quantization_contract: Option<&str>,
) -> (key: String)
    ensures
        key@ == gpu_key(
            profile,
            match quantization_contract {
                Some(contract) => Some(contract@),
                None => None,
            },
            descriptor@,
        ),
{
    let mut key: String = profile.cache_tag().to_owned();
    key.append(":");
    key.append(
        match quantization_contract {
            Some(contract) => contract,
            None => "-",
        },
    );
    key.append(":");
    key.append(cache_key(descriptor).as_str());
    key
}

/// A text is split at its first colon in one way.
proof fn lemma_first_colon(head: Seq<char>, rest: Seq<char>, other: Seq<char>, tail: Seq<char>)
    requires
        head + ":"@ + rest == other + ":"@ + tail,
        colon_free(head),
        colon_free(other),
    ensures
        head == other,
        rest == tail,
{
    reveal_strlit(":");
    let whole = head + ":"@ + rest;
    let again = other + ":"@ + tail;
    assert(":"@.len() == 1);
    assert(whole.len() == head.len() + 1 + rest.len());
    assert(again.len() == other.len() + 1 + tail.len());
    assert(whole[head.len() as int] == ':');
    assert(again[other.len() as int] == ':');
    if head.len() < other.len() {
        assert(again[head.len() as int] == other[head.len() as int]);
    } else if other.len() < head.len() {
        assert(whole[other.len() as int] == head[other.len() as int]);
    }
    assert(head =~= whole.subrange(0, head.len() as int));
    assert(other =~= again.subrange(0, other.len() as int));
    assert(rest =~= whole.subrange(head.len() as int + 1, whole.len() as int));
    assert(tail =~= again.subrange(other.len() as int + 1, again.len() as int));
}

/// The tags of profiles have no colon, and different profiles have different
/// tags.
proof fn lemma_tags(left: ScoringProfile, right: ScoringProfile)
    ensures
        colon_free(left.tag_text()),
        left.tag_text() == right.tag_text() ==> left == right,
{
    reveal_strlit("exact-fp16-v1");
    reveal_strlit("int8-row-scale-v1");
    reveal_strlit("fp8-e4m3-row-scale-v1");
    reveal_strlit("fp8-e4m3-raw-v1");
    reveal_strlit("pq-adc-v1");
    reveal_strlit("opq-rpq-adc-v1");
    let a = left.tag_text();
    let b = right.tag_text();
    if left != right {
        assert(a.len() != b.len() || a[0] != b[0] || a[1] != b[1]);
    }
}

/// Whether a quantization contract can stand in a key: it has no colon, and is
/// not the mark for no contract.
pub open spec fn names_contract(contract: Option<Seq<char>>) -> bool {
    match contract {
        Some(contract) => colon_free(contract) && contract != "-"@,
        None => true,
    }
}

/// Tensors of different profiles or of different quantizers do not share a key on
/// a device, nor do tensors of different contracts, digests or shapes.
pub proof fn profiles_do_not_share_keys(
    profile: ScoringProfile,
    contract: Option<Seq<char>>,
    descriptor: DescriptorView,
    other_profile: ScoringProfile,
    other_contract: Option<Seq<char>>,
    other: DescriptorView,
)
    requires
        names_contract(contract),
        names_contract(other_contract),
        colon_free(descriptor.digest),
        colon_free(other.digest),
        gpu_key(profile, contract, descriptor) == gpu_key(other_profile, other_contract, other),
    ensures
        profile == other_profile,
        contract == other_contract,
        descriptor == (DescriptorView { candidate_id: descriptor.candidate_id, ..other }),
{
    lemma_tags(profile, other_profile);
    lemma_tags(other_profile, profile);
    reveal_strlit("-");
    let name = match contract {
        Some(contract) => contract,
        None => "-"@,
    };
    let other_name = match other_contract {
        Some(contract) => contract,
        None => "-"@,
    };
    let rest = name + ":"@ + key_text(descriptor);
    let other_rest = other_name + ":"@ + key_text(other);
    assert(gpu_key(profile, contract, descriptor) =~= profile.tag_text() + ":"@ + rest);
    assert(gpu_key(other_profile, other_contract, other) =~= other_profile.tag_text() + ":"@
        + other_rest);
    lemma_first_colon(profile.tag_text(), rest, other_profile.tag_text(), other_rest);
    lemma_first_colon(name, key_text(descriptor), other_name, key_text(other));
    keys_tell_tensors_apart(descriptor, other);
}

/// A size rounded up.
pub open spec fn aligned(value: int, alignment: int) -> int {
    (value + alignment - 1) / alignment * alignment
}

/// Rounds a size up to a multiple of `alignment`.
pub fn align_up(value: usize, alignment: usize) -> (result: Result<usize, EngineError>)
    requires
        alignment > 0,
    ensures
        match result {
            Ok(size) => value + alignment - 1 <= usize::MAX && size == aligned(
                value as int,
                alignment as int,
            ) && value <= size < value + alignment && size as int % alignment as int == 0,
            Err(error) => value + alignment - 1 > usize::MAX && error == EngineError::AlignmentOverflow,
        },
{
    let sum: usize = match value.checked_add(alignment - 1) {
        Some(sum) => sum,
        None => {
            return Err(EngineError::AlignmentOverflow);
        },
    };
    proof {
        vstd::arithmetic::div_mod::lemma_fundamental_div_mod(sum as int, alignment as int);
        vstd::arithmetic::mul::lemma_mul_is_commutative(
            alignment as int,
            sum as int / alignment as int,
        );
        vstd::arithmetic::div_mod::lemma_mod_multiples_basic(
            sum as int / alignment as int,
            alignment as int,
        );
    }
    Ok(sum / alignment * alignment)
}

/// The size of a row-scaled tensor: one byte for each number, rounded up to a
/// multiple of four, and four bytes for each row.
pub open spec fn scaled_size(rows: u32, dimension: u32) -> Result<int, EngineError> {
    let codes = rows * dimension;
    if codes > usize::MAX {
        Err(EngineError::ScaledOverflow)
    } else if codes + 3 > usize::MAX {
        Err(EngineError::AlignmentOverflow)
    } else if aligned(codes, 4) + rows * 4 > usize::MAX {
        Err(EngineError::ScaledOverflow)
    } else {
        Ok(aligned(codes, 4) + rows * 4)
    }
}

/// The size of a row-scaled tensor.
pub fn scaled_payload_bytes(rows: u32, dimension: u32) -> (result: Result<usize, EngineError>)
    ensures
        match result {
            Ok(size) => scaled_size(rows, dimension) == Ok::<int, EngineError>(size as int),
            Err(error) => scaled_size(rows, dimension) == Err::<int, EngineError>(error),
        },
{
    let codes: usize = match (rows as usize).checked_mul(dimension as usize) {
        Some(codes) => codes,
        None => {
            return Err(EngineError::ScaledOverflow);
        },
    };
    let place: usize = align_up(codes, 4)?;
    let scales: usize = match (rows as usize).checked_mul(4) {
        Some(scales) => scales,
        None => {
            return Err(EngineError::ScaledOverflow);
        },
    };
    match place.checked_add(scales) {
        Some(size) => Ok(size),
        None => Err(EngineError::ScaledOverflow),
    }
}

/// The bytes of one number of a source tensor.
pub open spec fn scalar_size(dtype: u8) -> int {
    if dtype == 1 {
        4
    } else {
        2
    }
}

/// The bytes that a tensor takes up on a device.
pub open spec fn device_size(descriptor: DescriptorView, profile: ScoringProfile) -> Result<
    int,
    EngineError,
> {
    match profile {
        ScoringProfile::ExactFp16 => Ok(
            descriptor.rows * descriptor.dimension * scalar_size(descriptor.dtype),
        ),
        ScoringProfile::Int8 => scaled_size(descriptor.rows, descriptor.dimension),
        ScoringProfile::Fp8E4m3 => scaled_size(descriptor.rows, descriptor.dimension),
        _ => Err(EngineError::CacheProfile),
    }
}

/// Why an entry does not fit a descriptor.
pub open spec fn entry_fault(
    descriptor: DescriptorView,
    entry: EntryView,
    profile: ScoringProfile,
) -> Option<EngineError> {
    match device_size(descriptor, profile) {
        Err(error) => Some(error),
        Ok(size) => if entry.rows != descriptor.rows || entry.dimension != descriptor.dimension
            || entry.dtype != descriptor.dtype || entry.payload_bytes != size
            || entry.allocated_bytes < size {
            Some(EngineError::EntryMismatch)
        } else {
            None
        },
    }
}

/// Tests whether an entry fits a descriptor.
pub fn validate_entry(descriptor: &Descriptor, entry: &CacheEntry, profile: ScoringProfile) -> (result:
    Result<(), EngineError>)
    requires
        descriptor.rows * descriptor.dimension * scalar_size(descriptor.dtype) <= usize::MAX,
    ensures
        match result {
            Ok(()) => entry_fault(descriptor@, entry@, profile) is None,
            Err(error) => entry_fault(descriptor@, entry@, profile) == Some(error),
        },
{
    let scalar_bytes: usize = if descriptor.dtype == 1 {
        4
    } else {
        2
    };
    assert(descriptor.rows * descriptor.dimension <= descriptor.rows * descriptor.dimension
        * scalar_bytes) by (nonlinear_arith)
        requires
            scalar_bytes >= 1,
    ;
    let exact_bytes: usize = descriptor.rows as usize * descriptor.dimension as usize
        * scalar_bytes;
    let expected_bytes: usize = match profile {
        ScoringProfile::ExactFp16 => exact_bytes,
        ScoringProfile::Int8 => scaled_payload_bytes(descriptor.rows, descriptor.dimension)?,
        ScoringProfile::Fp8E4m3 => scaled_payload_bytes(descriptor.rows, descriptor.dimension)?,
        _ => {
            return Err(EngineError::CacheProfile);
        },
    };
    if entry.rows != descriptor.rows || entry.dimension != descriptor.dimension || entry.dtype
        != descriptor.dtype || entry.payload_bytes != expected_bytes || entry.allocated_bytes
        < expected_bytes {
        return Err(EngineError::EntryMismatch);
    }
    Ok(())
}

/// The keys of descriptors.
pub open spec fn descriptor_keys(descriptors: Seq<Descriptor>) -> Seq<Seq<char>> {
    Seq::new(descriptors.len(), |i: int| key_text(descriptors[i]@))
}

/// The descriptors of a list without those whose key occurred before.
pub open spec fn without_repeats(descriptors: Seq<Descriptor>) -> Seq<DescriptorView>
    decreases descriptors.len(),
{
    if descriptors.len() == 0 {
        Seq::empty()
    } else {
        let before = descriptors.drop_last();
        let last = descriptors.last()@;
        if descriptor_keys(before).contains(key_text(last)) {
            without_repeats(before)
        } else {
            without_repeats(before).push(last)
        }
    }
}

/// The first descriptor of each key.
pub fn unique_descriptors(descriptors: &[Descriptor]) -> (unique: Vec<Descriptor>)
    ensures
        descriptor_views(unique@) == without_repeats(descriptors@),
{
    let mut seen: Table<bool> = Table::new();
    let mut unique: Vec<Descriptor> = Vec::new();
    let mut i: usize = 0;
    assert(descriptor_views(unique@) =~= without_repeats(descriptors@.subrange(0, 0)));
    while i < descriptors.len()
        invariant
            i <= descriptors@.len(),
            seen.wf(),
            forall|key: Seq<char>| #[trigger]
                seen@.contains_key(key) <==> descriptor_keys(
                    descriptors@.subrange(0, i as int),
                ).contains(key),
            descriptor_views(unique@) == without_repeats(descriptors@.subrange(0, i as int)),
        decreases descriptors@.len() - i,
    {
        let key: String = cache_key(&descriptors[i]);
        let ghost prefix = descriptors@.subrange(0, i as int);
        let ghost longer = descriptors@.subrange(0, i as int + 1);
        let ghost table = seen@;
        let ghost list = unique@;
        proof {
            assert(longer.drop_last() =~= prefix);
            assert(longer.last() == descriptors@[i as int]);
            assert(seen@.contains_key(key@) == descriptor_keys(prefix).contains(key@));
        }
        if seen.get(key.as_str()).is_none() {
            let copy: Descriptor = descriptors[i].duplicate();
            unique.push(copy);
            assert(descriptor_views(unique@) =~= descriptor_views(list).push(copy@));
        }
        let ghost text = key@;
        seen.insert(key, true);
        proof {
            let keys = descriptor_keys(prefix);
            let more = descriptor_keys(longer);
            assert(more =~= keys.push(text));
            assert forall|other: Seq<char>| #[trigger] seen@.contains_key(other) <==> more.contains(
                other,
            ) by {
                if keys.contains(other) {
                    let at = choose|at: int| 0 <= at < keys.len() && keys[at] == other;
                    assert(more[at] == other);
                    assert(table.contains_key(other));
                }
                if other == text {
                    assert(more[i as int] == text);
                }
                if more.contains(other) && other != text {
                    let at = choose|at: int| 0 <= at < more.len() && more[at] == other;
                    assert(keys[at] == other);
                    assert(keys.contains(other));
                }
                assert(table.contains_key(other) ==> keys.contains(other));
            }
        }
        i += 1;
    }
    assert(descriptors@.subrange(0, i as int) =~= descriptors@);
    unique
}

/// The fraction of a subnormal half, doubled until its leading bit stands where
/// a normal half has its hidden bit, and how often it was doubled.
pub open spec fn normalized(fraction: int, shift: int) -> (int, int)
    decreases 2048 - fraction,
{
    if fraction <= 0 || fraction >= 1024 {
        (fraction, shift)
    } else {
        normalized(2 * fraction, shift + 1)
    }
}

/// The single-precision form of a half-precision number.
pub open spec fn widened(bits: u16) -> int {
    let sign = bits as int / 32768 * 0x8000_0000;
    let exponent = bits as int / 1024 % 32;
    let fraction = bits as int % 1024;
    if exponent == 0 {
        if fraction == 0 {
            sign
        } else {
            let (whole, shift) = normalized(fraction, 0);
            sign + (113 - shift) * 0x80_0000 + (whole - 1024) * 8192
        }
    } else if exponent == 31 {
        sign + 255 * 0x80_0000 + fraction * 8192
    } else {
        sign + (exponent + 112) * 0x80_0000 + fraction * 8192
    }
}

/// A fraction reaches the hidden bit within `steps` doublings where so many
/// are enough.
proof fn lemma_normalized(fraction: int, shift: int, steps: nat)
    requires
        0 < fraction < 2048,
        fraction * pow2(steps) >= 1024,
    ensures
        1024 <= normalized(fraction, shift).0 < 2048,
        shift <= normalized(fraction, shift).1 <= shift + steps,
    decreases steps,
{
    if fraction < 1024 {
        if steps == 0 {
            lemma2_to64();
        } else {
            lemma_pow2_unfold(steps);
            let half = pow2((steps - 1) as nat);
            assert((2 * fraction) * half == fraction * (2 * half)) by (nonlinear_arith);
            lemma_normalized(2 * fraction, shift + 1, (steps - 1) as nat);
        }
    }
}

/// The single-precision form of a half-precision number.
pub fn half_to_f32(bits: u16) -> (result: u32)
    ensures
        result == widened(bits),
{
    let sign: u32 = (bits as u32) / 32768 * 0x8000_0000;
    let exponent: u32 = (bits as u32) / 1024 % 32;
    let fraction: u32 = (bits as u32) % 1024;
    if exponent == 0 {
        if fraction == 0 {
            return sign;
        }
        proof {
            lemma2_to64();
            lemma_normalized(fraction as int, 0, 10);
        }
        let mut whole: u32 = fraction;
        let mut shift: u32 = 0;
        while whole < 1024
            invariant
                0 < whole < 2048,
                0 < fraction < 1024,
                shift <= 10,
                normalized(whole as int, shift as int) == normalized(fraction as int, 0),
                1024 <= normalized(fraction as int, 0).0 < 2048,
                normalized(fraction as int, 0).1 <= 10,
            decreases 2048 - whole,
        {
            proof {
                lemma2_to64();
                lemma_normalized(2 * whole as int, shift as int + 1, 10);
            }
            whole = 2 * whole;
            shift = shift + 1;
        }
        return sign + (113 - shift) * 0x80_0000 + (whole - 1024) * 8192;
    }
    if exponent == 31 {
        return sign + 255 * 0x80_0000 + fraction * 8192;
    }
    sign + (exponent + 112) * 0x80_0000 + fraction * 8192
}

/// The bits of a number of a source tensor, in single precision.
pub open spec fn scalar_bits(payload: Seq<u8>, index: int, dtype: u8) -> int {
    if dtype == 1 {
        of32(payload.subrange(index * 4, index * 4 + 4)) as int
    } else {
        widened(of16(payload.subrange(index * 2, index * 2 + 2)))
    }
}

/// Reads a number of a source tensor.
pub fn read_scalar(payload: &[u8], index: usize, dtype: u8) -> (result: Result<u32, EngineError>)
    requires
        (index + 1) * scalar_size(dtype) <= payload@.len(),
    ensures
        match result {
            Ok(bits) => (dtype == 1 || dtype == 2) && bits == scalar_bits(
                payload@,
                index as int,
                dtype,
            ),
            Err(error) => dtype != 1 && dtype != 2 && error == EngineError::SourceDtype,
        },
{
    assert(payload.len() == payload@.len());
    if dtype == 1 {
        Ok(u32_at(payload, index * 4))
    } else if dtype == 2 {
        Ok(half_to_f32(u16_at(payload, index * 2)))
    } else {
        Err(EngineError::SourceDtype)
    }
}

/// The number without its sign.
pub open spec fn magnitude(bits: int) -> int {
    bits % 0x8000_0000
}

/// The largest magnitude among the first `columns` numbers of a row. What is not
/// a number does not count.
pub open spec fn row_maximum(
    payload: Seq<u8>,
    dimension: int,
    dtype: u8,
    row: int,
    columns: int,
) -> int
    decreases columns,
{
    if columns <= 0 {
        0
    } else {
        let before = row_maximum(payload, dimension, dtype, row, columns - 1);
        let size = magnitude(scalar_bits(payload, row * dimension + columns - 1, dtype));
        if size > 0x7f80_0000 || size <= before {
            before
        } else {
            size
        }
    }
}

/// The largest code of a profile, as the bits of a number.
pub open spec fn code_bound(profile: ScoringProfile) -> u32 {
    if profile == ScoringProfile::Int8 {
        0x42fe_0000
    } else {
        0x43e0_0000
    }
}

/// Whether a row is encoded with a scale: the scale is the row's largest
/// magnitude over the largest code, or one, and every code is the rounded
/// quotient of the number and the scale.
pub open spec fn row_encoded<D: Fn(u32, u32) -> u32>(
    divide: D,
    profile: ScoringProfile,
    payload: Seq<u8>,
    descriptor: DescriptorView,
    encoded: Seq<u8>,
    row: int,
    scale: u32,
) -> bool {
    let dimension = descriptor.dimension as int;
    let place = aligned(descriptor.rows * dimension, 4) + 4 * row;
    let maximum = row_maximum(payload, dimension, descriptor.dtype, row, dimension);
    &&& encoded.subrange(place, place + 4) == le32(scale)
    &&& if maximum == 0 {
        scale == 0x3f80_0000
    } else {
        call_ensures(divide, (maximum as u32, code_bound(profile)), scale)
    }
    &&& forall|column: int|
        0 <= column < dimension ==> code_encoded(
            divide,
            profile,
            scalar_bits(payload, row * dimension + column, descriptor.dtype),
            scale,
            #[trigger] encoded[row * dimension + column],
        )
}

/// Whether a row is encoded with some scale.
pub open spec fn row_scaled<D: Fn(u32, u32) -> u32>(
    divide: D,
    profile: ScoringProfile,
    payload: Seq<u8>,
    descriptor: DescriptorView,
    encoded: Seq<u8>,
    row: int,
) -> bool {
    exists|scale: u32| row_encoded(divide, profile, payload, descriptor, encoded, row, scale)
}

/// Whether a code is the rounded quotient of a number and a scale.
pub open spec fn code_encoded<D: Fn(u32, u32) -> u32>(
    divide: D,
    profile: ScoringProfile,
    bits: int,
    scale: u32,
    byte: u8,
) -> bool {
    exists|quotient: u32| #[trigger]
        call_ensures(divide, (bits as u32, scale), quotient) && is_code(profile, quotient, byte)
}

/// Why a tensor cannot be encoded.
pub open spec fn encoding_fault(
    descriptor: DescriptorView,
    length: int,
    profile: ScoringProfile,
) -> Option<EngineError> {
    let numbers = descriptor.rows * descriptor.dimension;
    if profile == ScoringProfile::ExactFp16 {
        None
    } else if profile != ScoringProfile::Int8 && profile != ScoringProfile::Fp8E4m3 {
        Some(EngineError::EncodingProfile)
    } else if numbers * scalar_size(descriptor.dtype) > usize::MAX {
        Some(EngineError::EncodingOverflow)
    } else if length != numbers * scalar_size(descriptor.dtype) {
        Some(EngineError::PayloadLength)
    } else if scaled_size(descriptor.rows, descriptor.dimension) is Err {
        Some(scaled_size(descriptor.rows, descriptor.dimension)->Err_0)
    } else if numbers > 0 && descriptor.dtype != 1 && descriptor.dtype != 2 {
        Some(EngineError::SourceDtype)
    } else {
        None
    }
}

/// Encodes one row: the codes of its numbers, and its scale.
fn encode_row<D: Fn(u32, u32) -> u32>(
    descriptor: &Descriptor,
    payload: &[u8],
    profile: ScoringProfile,
    divide: &D,
    encoded: &mut Vec<u8>,
    row: usize,
    scale_offset: usize,
) -> (scale: Ghost<u32>)
    requires
        descriptor.dtype == 1 || descriptor.dtype == 2 || descriptor.dimension == 0,
        row < descriptor.rows,
        payload@.len() == descriptor.rows * descriptor.dimension * scalar_size(descriptor.dtype),
        descriptor.rows * descriptor.dimension <= scale_offset,
        scale_offset == aligned(descriptor.rows * descriptor.dimension, 4),
        old(encoded)@.len() == scale_offset + descriptor.rows * 4,
        forall|left: u32, right: u32| call_requires(*divide, (left, right)),
    ensures
        final(encoded)@.len() == old(encoded)@.len(),
        row_encoded(
            *divide,
            profile,
            payload@,
            descriptor@,
            final(encoded)@,
            row as int,
            scale@,
        ),
        forall|i: int|
            0 <= i < old(encoded)@.len() && !(row * descriptor.dimension <= i < (row + 1)
                * descriptor.dimension) && !(scale_offset + 4 * row <= i < scale_offset + 4 * row
                + 4) ==> final(encoded)@[i] == old(encoded)@[i],
{
    let dimension: usize = descriptor.dimension as usize;
    let ghost rows = descriptor.rows as int;
    let ghost width = descriptor.dimension as int;
    let ghost size = scalar_size(descriptor.dtype);
    assert((row + 1) * width <= rows * width) by (nonlinear_arith)
        requires
            row + 1 <= rows,
            width >= 0,
    ;
    assert((row + 1) * width == row * width + width) by (nonlinear_arith);
    let total: usize = encoded.len();
    let start: usize = row * dimension;
    let mut maximum: u32 = 0;
    let mut column: usize = 0;
    while column < dimension
        invariant
            column <= dimension,
            dimension == width,
            width == descriptor.dimension,
            rows == descriptor.rows,
            size == scalar_size(descriptor.dtype),
            start == row * width,
            start + width <= rows * width <= usize::MAX,
            descriptor.dtype == 1 || descriptor.dtype == 2 || width == 0,
            payload@.len() == rows * width * size,
            maximum == row_maximum(payload@, width, descriptor.dtype, row as int, column as int),
        decreases dimension - column,
    {
        let ghost at = start + column;
        assert((at + 1) * size <= rows * width * size) by (nonlinear_arith)
            requires
                at + 1 <= rows * width,
                size >= 0,
        ;
        let bits: u32 = match read_scalar(payload, start + column, descriptor.dtype) {
            Ok(bits) => bits,
            Err(_) => 0,
        };
        let magnitude: u32 = bits % 0x8000_0000;
        if magnitude <= 0x7f80_0000 && magnitude > maximum {
            maximum = magnitude;
        }
        column += 1;
    }
    let bound: u32 = match profile {
        ScoringProfile::Int8 => 0x42fe_0000,
        _ => 0x43e0_0000,
    };
    let scale: u32 = if maximum == 0 {
        0x3f80_0000
    } else {
        divide(maximum, bound)
    };
    let mut column: usize = 0;
    while column < dimension
        invariant
            column <= dimension,
            dimension == width,
            width == descriptor.dimension,
            rows == descriptor.rows,
            size == scalar_size(descriptor.dtype),
            start == row * width,
            start + width <= rows * width <= scale_offset,
            total == scale_offset + rows * 4,
            total == old(encoded)@.len(),
            encoded@.len() == total,
            descriptor.dtype == 1 || descriptor.dtype == 2 || width == 0,
            payload@.len() == rows * width * size,
            forall|left: u32, right: u32| call_requires(*divide, (left, right)),
                forall|i: int|
                0 <= i < total && !(start <= i < start + column) ==> encoded@[i] == old(
                    encoded,
                )@[i],
            forall|i: int|
                start <= i < start + column ==> code_encoded(
                    *divide,
                    profile,
                    scalar_bits(payload@, i, descriptor.dtype),
                    scale,
                    #[trigger] encoded@[i],
                ),
        decreases dimension - column,
    {
        let ghost at = start + column;
        assert((at + 1) * size <= rows * width * size) by (nonlinear_arith)
            requires
                at + 1 <= rows * width,
                size >= 0,
        ;
        let value: u32 = match read_scalar(payload, start + column, descriptor.dtype) {
            Ok(bits) => bits,
            Err(_) => 0,
        };
        let quotient: u32 = divide(value, scale);
        let byte: u8 = scalar_code(profile, quotient);
        assert(code_encoded(
            *divide,
            profile,
            scalar_bits(payload@, at as int, descriptor.dtype),
            scale,
            byte,
        ));
        encoded.set(start + column, byte);
        column += 1;
    }
    let ghost codes = encoded@;
    let place: usize = scale_offset + 4 * row;
    encoded.set(place, (scale % 256) as u8);
    encoded.set(place + 1, (scale / 256 % 256) as u8);
    encoded.set(place + 2, (scale / 65536 % 256) as u8);
    encoded.set(place + 3, (scale / 16777216) as u8);
    proof {
        assert(encoded@.subrange(place as int, place + 4) =~= le32(scale));
        assert forall|column: int| 0 <= column < width implies code_encoded(
            *divide,
            profile,
            scalar_bits(payload@, row * width + column, descriptor.dtype),
            scale,
            #[trigger] encoded@[row * width + column],
        ) by {
            let i = row * width + column;
            assert(encoded@[i] == codes[i]);
        }
    }
    Ghost(scale)
}

/// Whether bytes are a tensor as a profile has it: the source itself, or a byte
/// for each number, with the scales of the rows behind.
pub open spec fn is_encoded<D: Fn(u32, u32) -> u32>(
    divide: D,
    descriptor: DescriptorView,
    payload: Seq<u8>,
    profile: ScoringProfile,
    encoded: Seq<u8>,
) -> bool {
    let codes = descriptor.rows * descriptor.dimension;
    if profile == ScoringProfile::ExactFp16 {
        encoded == payload
    } else {
        &&& scaled_size(descriptor.rows, descriptor.dimension) == Ok::<int, EngineError>(
            encoded.len() as int,
        )
        &&& forall|i: int| codes <= i < aligned(codes, 4) ==> #[trigger] encoded[i] == 0
        &&& forall|row: int|
            0 <= row < descriptor.rows ==> #[trigger] row_scaled(
                divide,
                profile,
                payload,
                descriptor,
                encoded,
                row,
            )
    }
}

/// Encodes a tensor for a profile. The exact profile keeps the source; the
/// row-scaled profiles give each row a scale and each number a byte.
pub fn encode_for_profile<D: Fn(u32, u32) -> u32>(
    descriptor: &Descriptor,
    payload: &Arc<Vec<u8>>,
    profile: ScoringProfile,
    divide: &D,
) -> (result: Result<Arc<Vec<u8>>, EngineError>)
    requires
        forall|left: u32, right: u32| call_requires(*divide, (left, right)),
    ensures
        match result {
            Err(error) => encoding_fault(descriptor@, payload@.len() as int, profile) == Some(error),
            Ok(encoded) => encoding_fault(descriptor@, payload@.len() as int, profile) is None
                && is_encoded(*divide, descriptor@, payload@, profile, encoded@),
        },
{
    match profile {
        ScoringProfile::ExactFp16 => {
            return Ok(share_payload(payload));
        },
        ScoringProfile::Int8 => {},
        ScoringProfile::Fp8E4m3 => {},
        _ => {
            return Err(EngineError::EncodingProfile);
        },
    }
    let rows: usize = descriptor.rows as usize;
    let dimension: usize = descriptor.dimension as usize;
    let scalar_bytes: usize = if descriptor.dtype == 1 {
        4
    } else {
        2
    };
    let ghost numbers = descriptor.rows * descriptor.dimension;
    assert(numbers * scalar_bytes >= numbers) by (nonlinear_arith)
        requires
            scalar_bytes >= 1,
            numbers >= 0,
    ;
    let code_bytes: usize = match rows.checked_mul(dimension) {
        Some(count) => count,
        None => {
            return Err(EngineError::EncodingOverflow);
        },
    };
    let expected: usize = match code_bytes.checked_mul(scalar_bytes) {
        Some(bytes) => bytes,
        None => {
            return Err(EngineError::EncodingOverflow);
        },
    };
    if payload.len() != expected {
        return Err(EngineError::PayloadLength);
    }
    let size: usize = scaled_payload_bytes(descriptor.rows, descriptor.dimension)?;
    let scale_offset: usize = align_up(code_bytes, 4)?;
    if code_bytes > 0 && descriptor.dtype != 1 && descriptor.dtype != 2 {
        return Err(EngineError::SourceDtype);
    }
    let mut encoded: Vec<u8> = vec![0u8; size];
    let mut row: usize = 0;
    while row < rows
        invariant
            row <= rows,
            rows == descriptor.rows,
            dimension == descriptor.dimension,
            numbers == rows * dimension,
            numbers <= scale_offset,
            scale_offset == aligned(numbers, 4),
            encoded@.len() == scale_offset + rows * 4,
            payload@.len() == descriptor.rows * descriptor.dimension * scalar_size(descriptor.dtype),
            numbers > 0 ==> descriptor.dtype == 1 || descriptor.dtype == 2,
            forall|left: u32, right: u32| call_requires(*divide, (left, right)),
                forall|i: int| numbers <= i < scale_offset ==> #[trigger] encoded@[i] == 0,
            forall|done: int|
                0 <= done < row ==> #[trigger] row_scaled(
                    *divide,
                    profile,
                    payload@,
                    descriptor@,
                    encoded@,
                    done,
                ),
        decreases rows - row,
    {
        let ghost before = encoded@;
        proof {
            if dimension > 0 {
                assert(numbers > 0) by (nonlinear_arith)
                    requires
                        numbers == rows * dimension,
                        rows > 0,
                        dimension > 0,
                ;
            }
        }
        let scale: Ghost<u32> = encode_row(
            descriptor,
            payload.as_slice(),
            profile,
            divide,
            &mut encoded,
            row,
            scale_offset,
        );
        proof {
            let width = dimension as int;
            assert((row + 1) * width <= numbers) by (nonlinear_arith)
                requires
                    row + 1 <= rows,
                    width >= 0,
                    numbers == rows * width,
            ;
            assert((row + 1) * width == row * width + width) by (nonlinear_arith);
            assert forall|done: int| 0 <= done < row + 1 implies #[trigger] row_scaled(
                *divide,
                profile,
                payload@,
                descriptor@,
                encoded@,
                done,
            ) by {
                if done == row {
                    assert(row_encoded(
                        *divide,
                        profile,
                        payload@,
                        descriptor@,
                        encoded@,
                        done,
                        scale@,
                    ));
                } else {
                    assert(row_scaled(
                        *divide,
                        profile,
                        payload@,
                        descriptor@,
                        before,
                        done,
                    ));
                    let earlier = choose|scale: u32|
                        row_encoded(
                            *divide,
                            profile,
                            payload@,
                            descriptor@,
                            before,
                            done,
                            scale,
                        );
                    let place = scale_offset + 4 * done;
                    assert((done + 1) * width <= row * width) by (nonlinear_arith)
                        requires
                            done + 1 <= row,
                            width >= 0,
                    ;
                    assert((done + 1) * width == done * width + width) by (nonlinear_arith);
                    assert(done * width >= 0) by (nonlinear_arith)
                        requires
                            done >= 0,
                            width >= 0,
                    ;
                    assert(encoded@.subrange(place, place + 4) =~= before.subrange(place, place + 4));
                    assert forall|column: int| 0 <= column < width implies code_encoded(
                        *divide,
                        profile,
                        scalar_bits(payload@, done * width + column, descriptor.dtype),
                        earlier,
                        #[trigger] encoded@[done * width + column],
                    ) by {
                        assert(encoded@[done * width + column] == before[done * width + column]);
                    }
                    assert(row_encoded(
                        *divide,
                        profile,
                        payload@,
                        descriptor@,
                        encoded@,
                        done,
                        earlier,
                    ));
                }
            }
        }
        row += 1;
    }
    Ok(Arc::new(encoded))
}

/// The scale of a row comes from its largest magnitude, whatever the signs are: no number
/// of the row is larger, and the magnitude is that of some number of the row, or zero. It
/// is divided by 127 for INT8 and by 448 for FP8; a row of zeros has the scale one. The
/// scale stands behind the codes.
#[verifier::spinoff_prover]
pub proof fn rows_are_scaled_by_their_largest_magnitude<D: Fn(u32, u32) -> u32>(
    divide: D,
    profile: ScoringProfile,
    payload: Seq<u8>,
    descriptor: DescriptorView,
    encoded: Seq<u8>,
    row: int,
    scale: u32,
) -> (maximum: u32)
    requires
        profile == ScoringProfile::Int8 || profile == ScoringProfile::Fp8E4m3,
        0 <= row < descriptor.rows,
        row_encoded(divide, profile, payload, descriptor, encoded, row, scale),
    ensures
        forall|column: int|
            0 <= column < descriptor.dimension ==> {
                let size = #[trigger] scalar_bits(
                    payload,
                    row * descriptor.dimension + column,
                    descriptor.dtype,
                ) % 0x8000_0000;
                size <= 0x7f80_0000 ==> size <= maximum
            },
        maximum == 0 || exists|column: int|
            0 <= column < descriptor.dimension && maximum == #[trigger] scalar_bits(
                payload,
                row * descriptor.dimension + column,
                descriptor.dtype,
            ) % 0x8000_0000,
        maximum == 0 ==> scale == 0x3f80_0000,
        maximum > 0 && profile == ScoringProfile::Int8 ==> call_ensures(
            divide,
            (maximum, 0x42fe_0000u32),
            scale,
        ),
        maximum > 0 && profile == ScoringProfile::Fp8E4m3 ==> call_ensures(
            divide,
            (maximum, 0x43e0_0000u32),
            scale,
        ),
        ({
            let place = (descriptor.rows * descriptor.dimension + 3) / 4 * 4 + 4 * row;
            of32(encoded.subrange(place, place + 4)) == scale
        }),
{
    let dimension = descriptor.dimension as int;
    let maximum = row_maximum(payload, dimension, descriptor.dtype, row, dimension);
    lemma_row_maximum(payload, dimension, descriptor.dtype, row, dimension);
    crate::bytes::lemma_of32_le32(scale);
    let place = aligned(descriptor.rows * dimension, 4) + 4 * row;
    assert(encoded.subrange(place, place + 4) == le32(scale));
    maximum as u32
}

/// Each code of a row is the nearest to its own number over the scale of the row.
pub proof fn codes_are_of_their_own_numbers<D: Fn(u32, u32) -> u32>(
    divide: D,
    profile: ScoringProfile,
    payload: Seq<u8>,
    descriptor: DescriptorView,
    encoded: Seq<u8>,
    row: int,
    column: int,
    scale: u32,
) -> (quotient: u32)
    requires
        0 <= row < descriptor.rows,
        0 <= column < descriptor.dimension,
        row_encoded(divide, profile, payload, descriptor, encoded, row, scale),
    ensures
        call_ensures(
            divide,
            (
                scalar_bits(
                    payload,
                    row * descriptor.dimension + column,
                    descriptor.dtype,
                ) as u32,
                scale,
            ),
            quotient,
        ),
        is_code(profile, quotient, encoded[row * descriptor.dimension + column]),
{
    let at = row * descriptor.dimension + column;
    let bits = scalar_bits(payload, at, descriptor.dtype);
    assert(code_encoded(divide, profile, bits, scale, encoded[at]));
    choose|quotient: u32| #[trigger]
        call_ensures(divide, (bits as u32, scale), quotient) && is_code(
            profile,
            quotient,
            encoded[at],
        )
}

proof fn lemma_row_maximum(
    payload: Seq<u8>,
    dimension: int,
    dtype: u8,
    row: int,
    columns: int,
)
    requires
        0 <= columns <= dimension,
    ensures
        0 <= row_maximum(payload, dimension, dtype, row, columns) <= 0x7f80_0000,
        forall|column: int|
            0 <= column < columns ==> {
                let size = #[trigger] scalar_bits(payload, row * dimension + column, dtype)
                    % 0x8000_0000;
                size <= 0x7f80_0000 ==> size <= row_maximum(payload, dimension, dtype, row, columns)
            },
        row_maximum(payload, dimension, dtype, row, columns) == 0 || exists|column: int|
            0 <= column < columns && row_maximum(payload, dimension, dtype, row, columns)
                == #[trigger] scalar_bits(payload, row * dimension + column, dtype) % 0x8000_0000,
    decreases columns,
{
    if columns > 0 {
        lemma_row_maximum(payload, dimension, dtype, row, columns - 1);
        let last = scalar_bits(payload, row * dimension + (columns - 1), dtype);
        assert(row * dimension + columns - 1 == row * dimension + (columns - 1));
        let before = row_maximum(payload, dimension, dtype, row, columns - 1);
        let after = row_maximum(payload, dimension, dtype, row, columns);
        if after == before {
            if before != 0 {
                let column = choose|column: int|
                    0 <= column < columns - 1 && before == #[trigger] scalar_bits(
                        payload,
                        row * dimension + column,
                        dtype,
                    ) % 0x8000_0000;
                assert(after == scalar_bits(payload, row * dimension + column, dtype) % 0x8000_0000);
            }
        } else {
            assert(after == last % 0x8000_0000);
        }
    }
}

/// Every row of a scaled tensor is encoded, in as many bytes as its numbers and scales
/// take, with zeros in between; the exact profile keeps the payload.
pub proof fn every_row_is_encoded<D: Fn(u32, u32) -> u32>(
    divide: D,
    descriptor: DescriptorView,
    payload: Seq<u8>,
    profile: ScoringProfile,
    encoded: Seq<u8>,
    row: int,
) -> (scale: u32)
    requires
        is_encoded(divide, descriptor, payload, profile, encoded),
        0 <= row < descriptor.rows,
    ensures
        profile == ScoringProfile::ExactFp16 ==> encoded == payload,
        profile != ScoringProfile::ExactFp16 ==> {
            let numbers = descriptor.rows * descriptor.dimension;
            &&& encoded.len() == (numbers + 3) / 4 * 4 + 4 * descriptor.rows
            &&& forall|i: int| numbers <= i < (numbers + 3) / 4 * 4 ==> #[trigger] encoded[i] == 0
            &&& row_encoded(divide, profile, payload, descriptor, encoded, row, scale)
        },
{
    if profile == ScoringProfile::ExactFp16 {
        0
    } else {
        assert(row_scaled(divide, profile, payload, descriptor, encoded, row));
        choose|scale: u32| row_encoded(divide, profile, payload, descriptor, encoded, row, scale)
    }
}

/// A number of a source tensor is read from its own bytes, the least significant first.
pub proof fn numbers_are_read_from_their_bytes(payload: Seq<u8>, index: int)
    requires
        0 <= index,
        4 * index + 4 <= payload.len(),
    ensures
        scalar_bits(payload, index, 1) == payload[4 * index] + 0x100 * payload[4 * index + 1]
            + 0x1_0000 * payload[4 * index + 2] + 0x100_0000 * payload[4 * index + 3],
        scalar_bits(payload, index, 2) == widened(
            (payload[2 * index] + 0x100 * payload[2 * index + 1]) as u16,
        ),
{
    let four = payload.subrange(index * 4, index * 4 + 4);
    assert(four[0] == payload[4 * index] && four[1] == payload[4 * index + 1] && four[2]
        == payload[4 * index + 2] && four[3] == payload[4 * index + 3]);
    let two = payload.subrange(index * 2, index * 2 + 2);
    assert(two[0] == payload[2 * index] && two[1] == payload[2 * index + 1]);
}

/// Widening a half-precision number keeps its sign and its exact magnitude, in units of
/// the smallest single-precision number. Infinities stay infinite, and what is no number
/// stays none.
pub proof fn widening_is_exact(bits: u16)
    ensures
        ({
            let exponent = bits as int / 1024 % 32;
            let fraction = bits as int % 1024;
            let wide = widened(bits);
            &&& 0 <= wide <= 0xffff_ffff
            &&& wide >= 0x8000_0000 <==> bits >= 0x8000
            &&& exponent == 31 && fraction == 0 ==> wide % 0x8000_0000 == 0x7f80_0000
            &&& exponent == 31 && fraction > 0 ==> wide % 0x8000_0000 > 0x7f80_0000
            &&& exponent == 0 ==> units((wide % 0x8000_0000) as u32) == fraction * pow2(125)
            &&& 0 < exponent < 31 ==> units((wide % 0x8000_0000) as u32) == (1024 + fraction) * pow2(
                (exponent + 124) as nat,
            )
        }),
{
    let exponent = bits as int / 1024 % 32;
    let fraction = bits as int % 1024;
    let size = widened(bits) % 0x8000_0000;
    if exponent == 0 {
        if fraction == 0 {
            assert(0 * pow2(125) == 0);
        } else {
            lemma2_to64();
            lemma_normalized(fraction, 0, 10);
            lemma_normalized_value(fraction, 0);
            let (whole, shift) = normalized(fraction, 0);
            assert(size == (113 - shift) * 0x80_0000 + (whole - 1024) * 8192);
            assert(size / 0x80_0000 == 113 - shift);
            assert(size % 0x80_0000 == (whole - 1024) * 8192);
            let unit = pow2((112 - shift) as nat);
            lemma_pow2_adds(13, (112 - shift) as nat);
            lemma_pow2_adds(shift as nat, (125 - shift) as nat);
            let low = pow2((125 - shift) as nat);
            let up = pow2(shift as nat);
            assert((whole * 8192) * unit == whole * (8192 * unit)) by (nonlinear_arith);
            assert((fraction * up) * low == fraction * (up * low)) by (nonlinear_arith);
        }
    } else if exponent < 31 {
        assert(size == (exponent + 112) * 0x80_0000 + fraction * 8192);
        assert(size / 0x80_0000 == exponent + 112);
        assert(size % 0x80_0000 == fraction * 8192);
        lemma2_to64();
        lemma_pow2_adds(13, (exponent + 111) as nat);
        let unit = pow2((exponent + 111) as nat);
        assert(((1024 + fraction) * 8192) * unit == (1024 + fraction) * (8192 * unit))
            by (nonlinear_arith);
    }
}

/// Doubling keeps count.
proof fn lemma_normalized_value(fraction: int, shift: int)
    requires
        0 < fraction < 2048,
        0 <= shift,
    ensures
        normalized(fraction, shift).1 >= shift,
        normalized(fraction, shift).0 == fraction * pow2(
            (normalized(fraction, shift).1 - shift) as nat,
        ),
    decreases 2048 - fraction,
{
    if fraction >= 1024 {
        lemma2_to64();
        assert(normalized(fraction, shift) == (fraction, shift));
        assert(pow2(0) == 1);
        assert(fraction * pow2(0) == fraction);
    } else {
        lemma_normalized_value(2 * fraction, shift + 1);
        assert(normalized(fraction, shift) == normalized(2 * fraction, shift + 1));
        let steps = normalized(2 * fraction, shift + 1).1 - shift;
        lemma_pow2_unfold(steps as nat);
        let half = pow2((steps - 1) as nat);
        assert((2 * fraction) * half == fraction * (2 * half)) by (nonlinear_arith);
    }
}

/// A device holds a tensor with the bytes of its numbers in the exact profile, and with a
/// byte for each number and four for each row in the scaled ones.
pub proof fn sizes_follow_the_profile(descriptor: DescriptorView, profile: ScoringProfile, size: int)
    requires
        device_size(descriptor, profile) == Ok::<int, EngineError>(size),
        descriptor.dtype == 1 || descriptor.dtype == 2,
    ensures
        ({
            let numbers = descriptor.rows * descriptor.dimension;
            &&& profile == ScoringProfile::ExactFp16 && descriptor.dtype == 1 ==> size == 4 * numbers
            &&& profile == ScoringProfile::ExactFp16 && descriptor.dtype == 2 ==> size == 2 * numbers
            &&& profile != ScoringProfile::ExactFp16 ==> numbers + 4 * descriptor.rows <= size
                < numbers + 4 + 4 * descriptor.rows && (size - 4 * descriptor.rows) % 4 == 0 && (
            profile == ScoringProfile::Int8 || profile == ScoringProfile::Fp8E4m3)
        }),
{
}

/// Every key of a list of descriptors stays when repeats leave.
pub proof fn every_key_stays(descriptors: Seq<Descriptor>, i: int) -> (j: int)
    requires
        0 <= i < descriptors.len(),
    ensures
        0 <= j < without_repeats(descriptors).len(),
        key_text(without_repeats(descriptors)[j]) == key_text(descriptors[i]@),
    decreases descriptors.len(),
{
    let head = descriptors.drop_last();
    let keys = descriptor_keys(head);
    let last = descriptors.last()@;
    if i < head.len() {
        every_key_stays(head, i)
    } else if keys.contains(key_text(last)) {
        let k = choose|k: int| 0 <= k < keys.len() && keys[k] == key_text(last);
        every_key_stays(head, k)
    } else {
        without_repeats(head).len() as int
    }
}

/// What stays of descriptors when repeats leave is of the list, and the first of its key.
pub proof fn the_first_of_a_key_stays(descriptors: Seq<Descriptor>, j: int) -> (i: int)
    requires
        0 <= j < without_repeats(descriptors).len(),
    ensures
        0 <= i < descriptors.len(),
        descriptors[i]@ == without_repeats(descriptors)[j],
        forall|k: int|
            0 <= k < i ==> key_text((#[trigger] descriptors[k])@) != key_text(descriptors[i]@),
    decreases descriptors.len(),
{
    let head = descriptors.drop_last();
    if j < without_repeats(head).len() {
        let i = the_first_of_a_key_stays(head, j);
        assert forall|k: int| 0 <= k < i implies key_text((#[trigger] descriptors[k])@) != key_text(
            descriptors[i]@,
        ) by {
            assert(descriptors[k] == head[k]);
        }
        i
    } else {
        let i = descriptors.len() - 1;
        assert forall|k: int| 0 <= k < i implies key_text((#[trigger] descriptors[k])@) != key_text(
            descriptors[i]@,
        ) by {
            assert(descriptor_keys(head)[k] == key_text(descriptors[k]@));
        }
        i
    }
}

/// No two descriptors that stay when repeats leave have one key.
pub proof fn no_key_stays_twice(descriptors: Seq<Descriptor>, i: int, j: int)
    requires
        0 <= i < j < without_repeats(descriptors).len(),
    ensures
        key_text(without_repeats(descriptors)[i]) != key_text(without_repeats(descriptors)[j]),
    decreases descriptors.len(),
{
    let head = descriptors.drop_last();
    if j < without_repeats(head).len() {
        no_key_stays_twice(head, i, j);
    } else {
        let k = the_first_of_a_key_stays(head, i);
        assert(descriptor_keys(head)[k] == key_text(without_repeats(head)[i]));
    }
}

} // verus!
