//! The daemon's side of the wire contract: request frames and response frames.
//!
//! A frame is a header of [`HEADER_BYTES`] bytes and a body. [`parse_frame`]
//! says which request a frame stands for, or why it is refused; [`parse`]
//! computes it.

use crate::bytes::{le16, le32, le64, of16, of32, of64, put_bytes, put_u16, put_u32, put_u64, u16_at, u32_at, u64_at};
use crate::digest::{hex_encode, hex_text, is_digest_text, lower_hex};
use crate::reader::{
    read_bytes, read_i32, read_i64, read_text, read_u16, read_u32, read_u8, read_varint, ProtocolError,
    Reader, TextField,
};
use crate::text::{ascii_chars, contract_id, is_contract_id, lemma_ascii_is_utf8, utf8_text};
use std::collections::HashSet;
use std::sync::Arc;
use vstd::prelude::*;
use vstd::slice::{slice_subrange, slice_to_vec};
use vstd::utf8::{decode_utf8, encode_utf8};

verus! {

broadcast use vstd::std_specs::hash::group_hash_axioms;

pub const HEADER_BYTES: usize = 24;

pub const VERSION_EXTERNAL: u16 = 2;

pub const VERSION_SCHEDULED_EXTERNAL: u16 = 3;

pub const VERSION_PROFILED_EXTERNAL: u16 = 4;

pub const VERSION_QUANTIZED_EXTERNAL: u16 = 5;

/// One logical rerank request. Candidate tensor payloads remain external, so
/// the wire limit applies to descriptor metadata rather than to the sum of the
/// referenced payloads.
pub const VERSION_LOGICAL_EXTERNAL: u16 = 6;

/// Logical top-k with fixed-width content-addressed descriptors.
pub const VERSION_COMPACT_LOGICAL_EXTERNAL: u16 = 7;

/// Compact logical request with a request-wide storage dtype. Query and
/// document tensors may differ.
pub const VERSION_TYPED_COMPACT_LOGICAL_EXTERNAL: u16 = 8;

/// Descriptor-manifest reference: the query tensor and a SHA-256 digest of the
/// canonical compact descriptor list.
pub const VERSION_MANIFEST_LOGICAL_EXTERNAL: u16 = 9;

pub const VERSION_CATALOG_LOGICAL_EXTERNAL: u16 = 10;

pub const VERSION_CATALOG_SELECTION_REFERENCE: u16 = 11;

pub const VERSION_SCOPED_CATALOG_SELECTION_REFERENCE: u16 = 12;

pub const VERSION_PERSISTENT_SCOPED_CATALOG_SELECTION_REFERENCE: u16 = 13;

pub const VERSION_PERSISTENT_CATALOG_SELECTION_REFERENCE: u16 = 14;

pub const REQUEST_KIND: u16 = 1;

pub const RESPONSE_KIND: u16 = 2;

/// The bytes that begin every frame: `VCTM`.
pub open spec fn magic() -> Seq<u8> {
    seq![86u8, 67u8, 84u8, 77u8]
}

/// A candidate tensor.
#[derive(Clone, Debug)]
pub struct Descriptor {
    pub candidate_id: u32,
    pub contract: String,
    pub digest: String,
    pub rows: u32,
    pub dimension: u32,
    pub dtype: u8,
}

/// A candidate tensor, with its texts as sequences of characters.
pub struct DescriptorView {
    pub candidate_id: u32,
    pub contract: Seq<char>,
    pub digest: Seq<char>,
    pub rows: u32,
    pub dimension: u32,
    pub dtype: u8,
}

impl View for Descriptor {
    type V = DescriptorView;

    open spec fn view(&self) -> DescriptorView {
        DescriptorView {
            candidate_id: self.candidate_id,
            contract: self.contract@,
            digest: self.digest@,
            rows: self.rows,
            dimension: self.dimension,
            dtype: self.dtype,
        }
    }
}

impl Descriptor {
    /// A copy of the descriptor.
    pub fn duplicate(&self) -> (copy: Descriptor)
        ensures
            copy@ == self@,
    {
        Descriptor {
            candidate_id: self.candidate_id,
            contract: self.contract.clone(),
            digest: self.digest.clone(),
            rows: self.rows,
            dimension: self.dimension,
            dtype: self.dtype,
        }
    }
}

/// The descriptors of a list.
pub open spec fn descriptor_views(list: Seq<Descriptor>) -> Seq<DescriptorView> {
    Seq::new(list.len(), |i: int| list[i]@)
}

/// How candidate tensors are stored and scored.
#[derive(Clone, Copy, Debug, PartialEq, Eq, Structural)]
pub enum ScoringProfile {
    ExactFp16,
    Int8,
    Fp8E4m3,
    RawFp8E4m3,
    Pq,
    OpqRpq,
}

/// The profile with the given code on the wire.
pub open spec fn profile_of(value: u8) -> Result<ScoringProfile, ProtocolError> {
    if value == 1 {
        Ok(ScoringProfile::ExactFp16)
    } else if value == 2 {
        Ok(ScoringProfile::Int8)
    } else if value == 3 {
        Ok(ScoringProfile::Fp8E4m3)
    } else if value == 4 {
        Ok(ScoringProfile::Pq)
    } else if value == 5 {
        Ok(ScoringProfile::OpqRpq)
    } else if value == 6 {
        Ok(ScoringProfile::RawFp8E4m3)
    } else {
        Err(ProtocolError::UnsupportedProfile)
    }
}

impl ScoringProfile {
    /// Whether the profile needs a trained quantizer.
    pub open spec fn is_quantized(self) -> bool {
        self is Pq || self is OpqRpq
    }

    pub fn parse(value: u8) -> (result: Result<ScoringProfile, ProtocolError>)
        ensures
            result == profile_of(value),
    {
        match value {
            1 => Ok(ScoringProfile::ExactFp16),
            2 => Ok(ScoringProfile::Int8),
            3 => Ok(ScoringProfile::Fp8E4m3),
            4 => Ok(ScoringProfile::Pq),
            5 => Ok(ScoringProfile::OpqRpq),
            6 => Ok(ScoringProfile::RawFp8E4m3),
            _ => Err(ProtocolError::UnsupportedProfile),
        }
    }

    pub open spec fn tag_text(self) -> Seq<char> {
        match self {
            ScoringProfile::ExactFp16 => "exact-fp16-v1"@,
            ScoringProfile::Int8 => "int8-row-scale-v1"@,
            ScoringProfile::Fp8E4m3 => "fp8-e4m3-row-scale-v1"@,
            ScoringProfile::RawFp8E4m3 => "fp8-e4m3-raw-v1"@,
            ScoringProfile::Pq => "pq-adc-v1"@,
            ScoringProfile::OpqRpq => "opq-rpq-adc-v1"@,
        }
    }

    /// The part of a cache key that tells profiles apart.
    pub fn cache_tag(self) -> (tag: &'static str)
        ensures
            tag@ == self.tag_text(),
    {
        match self {
            ScoringProfile::ExactFp16 => "exact-fp16-v1",
            ScoringProfile::Int8 => "int8-row-scale-v1",
            ScoringProfile::Fp8E4m3 => "fp8-e4m3-row-scale-v1",
            ScoringProfile::RawFp8E4m3 => "fp8-e4m3-raw-v1",
            ScoringProfile::Pq => "pq-adc-v1",
            ScoringProfile::OpqRpq => "opq-rpq-adc-v1",
        }
    }

    pub open spec fn native(self) -> u8 {
        match self {
            ScoringProfile::ExactFp16 => 1,
            ScoringProfile::Int8 => 2,
            ScoringProfile::Fp8E4m3 => 3,
            ScoringProfile::RawFp8E4m3 => 3,
            ScoringProfile::Pq => 4,
            ScoringProfile::OpqRpq => 5,
        }
    }

    /// The code that the native kernels know. Raw E4M3 stores an identity
    /// scale for each row, so it shares the layout and the code of row-scaled
    /// E4M3.
    pub fn native_code(self) -> (code: u8)
        ensures
            code == self.native(),
    {
        match self {
            ScoringProfile::ExactFp16 => 1,
            ScoringProfile::Int8 => 2,
            ScoringProfile::Fp8E4m3 => 3,
            ScoringProfile::RawFp8E4m3 => 3,
            ScoringProfile::Pq => 4,
            ScoringProfile::OpqRpq => 5,
        }
    }
}

/// A parsed request.
#[derive(Clone, Debug)]
pub struct Request {
    pub protocol_version: u16,
    pub request_id: u64,
    /// Logical scheduling domain. It is never used for authorization or tensor
    /// lookup; the caller must already have applied hard access filters.
    pub tenant: String,
    pub model_contract: String,
    /// Higher values run first within the scheduler's fairness policy.
    pub priority: i32,
    /// The client's end-to-end budget. Zero only in unscheduled requests.
    pub timeout_ms: u32,
    pub query_rows: u32,
    pub dimension: u32,
    pub dtype: u8,
    pub candidate_dtype: u8,
    pub scoring_profile: ScoringProfile,
    pub quantization_contract: Option<String>,
    pub top_k: Option<usize>,
    pub query: Vec<u8>,
    pub candidates: Arc<Vec<Descriptor>>,
    pub candidate_start: usize,
    pub candidate_end: usize,
    pub manifest_digest: Option<[u8; 32]>,
    pub catalog_digest: Option<[u8; 32]>,
    pub catalog_selection_digest: Option<[u8; 32]>,
    pub catalog_public_ids: Vec<i64>,
    pub catalog_registration: bool,
    /// Sorted ordinals within the resolved catalog selection. Empty means that
    /// the request has only the ordinary global result window.
    pub scoped_candidate_ordinals: Vec<u32>,
}

/// A request, with its texts and lists as sequences.
pub struct RequestView {
    pub protocol_version: u16,
    pub request_id: u64,
    pub tenant: Seq<char>,
    pub model_contract: Seq<char>,
    pub priority: i32,
    pub timeout_ms: u32,
    pub query_rows: u32,
    pub dimension: u32,
    pub dtype: u8,
    pub candidate_dtype: u8,
    pub scoring_profile: ScoringProfile,
    pub quantization_contract: Option<Seq<char>>,
    pub top_k: Option<nat>,
    pub query: Seq<u8>,
    pub candidates: Seq<DescriptorView>,
    pub candidate_start: nat,
    pub candidate_end: nat,
    pub manifest_digest: Option<Seq<u8>>,
    pub catalog_digest: Option<Seq<u8>>,
    pub catalog_selection_digest: Option<Seq<u8>>,
    pub catalog_public_ids: Seq<i64>,
    pub catalog_registration: bool,
    pub scoped_candidate_ordinals: Seq<u32>,
}

pub open spec fn text_view(text: Option<String>) -> Option<Seq<char>> {
    match text {
        Some(text) => Some(text@),
        None => None,
    }
}

pub open spec fn digest_view(digest: Option<[u8; 32]>) -> Option<Seq<u8>> {
    match digest {
        Some(digest) => Some(digest@),
        None => None,
    }
}

pub open spec fn count_view(count: Option<usize>) -> Option<nat> {
    match count {
        Some(count) => Some(count as nat),
        None => None,
    }
}

impl View for Request {
    type V = RequestView;

    open spec fn view(&self) -> RequestView {
        RequestView {
            protocol_version: self.protocol_version,
            request_id: self.request_id,
            tenant: self.tenant@,
            model_contract: self.model_contract@,
            priority: self.priority,
            timeout_ms: self.timeout_ms,
            query_rows: self.query_rows,
            dimension: self.dimension,
            dtype: self.dtype,
            candidate_dtype: self.candidate_dtype,
            scoring_profile: self.scoring_profile,
            quantization_contract: text_view(self.quantization_contract),
            top_k: count_view(self.top_k),
            query: self.query@,
            candidates: descriptor_views(self.candidates@),
            candidate_start: self.candidate_start as nat,
            candidate_end: self.candidate_end as nat,
            manifest_digest: digest_view(self.manifest_digest),
            catalog_digest: digest_view(self.catalog_digest),
            catalog_selection_digest: digest_view(self.catalog_selection_digest),
            catalog_public_ids: self.catalog_public_ids@,
            catalog_registration: self.catalog_registration,
            scoped_candidate_ordinals: self.scoped_candidate_ordinals@,
        }
    }
}

impl Request {
    /// The candidates that the request ranks.
    pub fn candidate_slice(&self) -> (slice: &[Descriptor])
        requires
            self.candidate_start <= self.candidate_end <= self.candidates@.len(),
        ensures
            slice@ == self.candidates@.subrange(
                self.candidate_start as int,
                self.candidate_end as int,
            ),
    {
        slice_subrange(self.candidates.as_slice(), self.candidate_start, self.candidate_end)
    }

    /// Ranks all of `candidates` in place of the candidates so far.
    pub fn replace_candidates(&mut self, candidates: Arc<Vec<Descriptor>>)
        ensures
            final(self)@ == (RequestView {
                candidates: descriptor_views(candidates@),
                candidate_start: 0,
                candidate_end: candidates@.len(),
                ..old(self)@
            }),
            final(self).candidates == candidates,
    {
        self.candidate_start = 0;
        self.candidate_end = candidates.len();
        self.candidates = candidates;
    }
}

/// The bytes of one scalar.
pub open spec fn scalar_bytes(dtype: u8) -> Option<nat> {
    if dtype == 1 {
        Some(4)
    } else if dtype == 2 {
        Some(2)
    } else if dtype == 3 {
        Some(1)
    } else {
        None
    }
}

/// The bytes of a tensor, where its shape and scalar type are allowed.
pub open spec fn tensor_size(rows: u32, dimension: u32, dtype: u8) -> Result<nat, ProtocolError> {
    match scalar_bytes(dtype) {
        None => Err(ProtocolError::UnsupportedDtype),
        Some(scalar) => if rows == 0 || dimension == 0 || dimension > 60_000 {
            Err(ProtocolError::InvalidTensorShape)
        } else if rows * dimension * scalar > usize::MAX {
            Err(ProtocolError::TensorTooLarge)
        } else {
            Ok((rows * dimension * scalar) as nat)
        },
    }
}

/// The bytes of a tensor, where its shape and scalar type are allowed.
pub fn tensor_bytes(rows: u32, dimension: u32, dtype: u8) -> (result: Result<usize, ProtocolError>)
    ensures
        match tensor_size(rows, dimension, dtype) {
            Ok(size) => result is Ok && result->Ok_0 == size,
            Err(error) => result == Err::<usize, ProtocolError>(error),
        },
{
    let scalar: usize = match dtype {
        1 => 4,
        2 => 2,
        3 => 1,
        _ => return Err(ProtocolError::UnsupportedDtype),
    };
    if rows == 0 || dimension == 0 || dimension > 60_000 {
        return Err(ProtocolError::InvalidTensorShape);
    }
    let rows: usize = rows as usize;
    let dimension: usize = dimension as usize;
    proof {
        assert(rows * dimension <= rows * dimension * scalar) by (nonlinear_arith)
            requires
                rows >= 0,
                dimension >= 0,
                scalar >= 1,
        ;
    }
    match rows.checked_mul(dimension) {
        None => Err(ProtocolError::TensorTooLarge),
        Some(scalars) => match scalars.checked_mul(scalar) {
            None => Err(ProtocolError::TensorTooLarge),
            Some(size) => Ok(size),
        },
    }
}

/// Whether the bits of a 32-bit float stand for a finite number.
pub open spec fn finite32(bits: u32) -> bool {
    bits / 0x80_0000 % 256 != 255
}

/// Whether the bits of a 16-bit float stand for a finite number.
pub open spec fn finite16(bits: u16) -> bool {
    bits / 0x400 % 32 != 31
}

/// Whether the bits of an E4M3 float stand for a number.
pub open spec fn finite8(bits: u8) -> bool {
    bits % 128 != 127
}

/// Whether every scalar of a payload is finite.
pub open spec fn finite_payload(payload: Seq<u8>, dtype: u8) -> bool {
    if dtype == 1 {
        forall|i: int|
            0 <= i < payload.len() / 4 ==> finite32(
                of32(#[trigger] payload.subrange(4 * i, 4 * i + 4)),
            )
    } else if dtype == 2 {
        forall|i: int|
            0 <= i < payload.len() / 2 ==> finite16(
                of16(#[trigger] payload.subrange(2 * i, 2 * i + 2)),
            )
    } else {
        forall|i: int| 0 <= i < payload.len() ==> finite8(#[trigger] payload[i])
    }
}

/// Refuses a payload with a scalar that is not finite.
pub fn validate_finite(payload: &[u8], dtype: u8) -> (result: Result<(), ProtocolError>)
    ensures
        result == if finite_payload(payload@, dtype) {
            Ok::<(), ProtocolError>(())
        } else {
            Err(ProtocolError::NonFiniteQuery)
        },
{
    if dtype == 1 {
        let count: usize = payload.len() / 4;
        let mut i: usize = 0;
        while i < count
            invariant
                i <= count == payload@.len() / 4,
                payload.len() == payload@.len(),
                dtype == 1,
                forall|j: int|
                    0 <= j < i ==> finite32(of32(#[trigger] payload@.subrange(4 * j, 4 * j + 4))),
            decreases count - i,
        {
            if u32_at(payload, 4 * i) / 0x80_0000 % 256 == 255 {
                assert(!finite32(of32(payload@.subrange(4 * (i as int), 4 * i + 4))));
                return Err(ProtocolError::NonFiniteQuery);
            }
            i += 1;
        }
    } else if dtype == 2 {
        let count: usize = payload.len() / 2;
        let mut i: usize = 0;
        while i < count
            invariant
                i <= count == payload@.len() / 2,
                payload.len() == payload@.len(),
                dtype == 2,
                forall|j: int|
                    0 <= j < i ==> finite16(of16(#[trigger] payload@.subrange(2 * j, 2 * j + 2))),
            decreases count - i,
        {
            if u16_at(payload, 2 * i) / 0x400 % 32 == 31 {
                assert(!finite16(of16(payload@.subrange(2 * (i as int), 2 * i + 2))));
                return Err(ProtocolError::NonFiniteQuery);
            }
            i += 1;
        }
    } else {
        let mut i: usize = 0;
        while i < payload.len()
            invariant
                i <= payload.len(),
                dtype != 1,
                dtype != 2,
                forall|j: int| 0 <= j < i ==> finite8(#[trigger] payload@[j]),
            decreases payload.len() - i,
        {
            if payload[i] % 128 == 127 {
                return Err(ProtocolError::NonFiniteQuery);
            }
            i += 1;
        }
    }
    Ok(())
}

/// The header of a request frame, and its body.
pub struct Header {
    pub version: u16,
    pub request_id: u64,
    pub body: Seq<u8>,
}

/// The header of a request frame, or why the frame is none.
pub open spec fn read_header(frame: Seq<u8>) -> Result<Header, ProtocolError> {
    if frame.len() < HEADER_BYTES {
        Err(ProtocolError::TruncatedHeader)
    } else if frame.subrange(0, 4) != magic() {
        Err(ProtocolError::InvalidMagic)
    } else {
        let version = of16(frame.subrange(4, 6));
        let kind = of16(frame.subrange(6, 8));
        if !(2 <= version <= 14) || kind != REQUEST_KIND {
            Err(ProtocolError::UnsupportedProtocol)
        } else if of64(frame.subrange(16, 24)) != frame.len() - HEADER_BYTES {
            Err(ProtocolError::BodyLengthMismatch)
        } else {
            Ok(
                Header {
                    version,
                    request_id: of64(frame.subrange(8, 16)),
                    body: frame.skip(HEADER_BYTES as int),
                },
            )
        }
    }
}

/// The fixed-width fields that begin a request body.
pub struct Fixed {
    pub dimension: u32,
    pub query_rows: u32,
    pub candidate_count: u32,
    pub dtype: u8,
    pub profile: ScoringProfile,
    pub storage_dtype: u8,
    pub contract_bytes: u32,
    pub quantization_bytes: u32,
    pub priority: i32,
    pub timeout_ms: u32,
    pub tenant_bytes: u32,
    pub top_k: Option<u32>,
}

impl Fixed {
    /// The scalar type of the stored candidates: that of the query, unless the
    /// request names another.
    pub open spec fn candidate_dtype(self) -> u8 {
        if self.storage_dtype == 0 {
            self.dtype
        } else {
            self.storage_dtype
        }
    }
}

/// The profile and the storage dtype, or the two reserved bytes in their place.
pub open spec fn read_profile(version: u16, rest: Seq<u8>) -> Result<
    (ScoringProfile, u8, Seq<u8>),
    ProtocolError,
> {
    if version < VERSION_PROFILED_EXTERNAL {
        match read_u16(rest) {
            Err(error) => Err(error),
            Ok((reserved, rest)) => if reserved != 0 {
                Err(ProtocolError::ReservedBits)
            } else {
                Ok((ScoringProfile::ExactFp16, 0, rest))
            },
        }
    } else {
        match read_u8(rest) {
            Err(error) => Err(error),
            Ok((code, rest)) => match profile_of(code) {
                Err(error) => Err(error),
                Ok(profile) => match read_u8(rest) {
                    Err(error) => Err(error),
                    Ok((storage, rest)) => if version < VERSION_TYPED_COMPACT_LOGICAL_EXTERNAL
                        && storage != 0 {
                        Err(ProtocolError::ReservedBits)
                    } else {
                        Ok((profile, storage, rest))
                    },
                },
            },
        }
    }
}

/// The length of the quantization contract, in the versions that have one.
pub open spec fn read_quantization_bytes(version: u16, rest: Seq<u8>) -> Result<
    (u32, Seq<u8>),
    ProtocolError,
> {
    if version < VERSION_QUANTIZED_EXTERNAL {
        Ok((0, rest))
    } else {
        read_u32(rest)
    }
}

/// Priority, timeout and length of the tenant, in the versions that have them.
pub open spec fn read_schedule(version: u16, rest: Seq<u8>) -> Result<
    (i32, u32, u32, Seq<u8>),
    ProtocolError,
> {
    if version < VERSION_SCHEDULED_EXTERNAL {
        Ok((0, 0, 0, rest))
    } else {
        match read_i32(rest) {
            Err(error) => Err(error),
            Ok((priority, rest)) => match read_u32(rest) {
                Err(error) => Err(error),
                Ok((timeout_ms, rest)) => match read_u32(rest) {
                    Err(error) => Err(error),
                    Ok((tenant_bytes, rest)) => if !(-100 <= priority <= 100) {
                        Err(ProtocolError::PriorityOutOfRange)
                    } else if !(1 <= timeout_ms <= 600_000) {
                        Err(ProtocolError::TimeoutOutOfRange)
                    } else {
                        Ok((priority, timeout_ms, tenant_bytes, rest))
                    },
                },
            },
        }
    }
}

/// The size of the result window, in the versions that have one.
pub open spec fn read_top_k(version: u16, candidate_count: u32, rest: Seq<u8>) -> Result<
    (Option<u32>, Seq<u8>),
    ProtocolError,
> {
    if version < VERSION_LOGICAL_EXTERNAL {
        Ok((None, rest))
    } else {
        match read_u32(rest) {
            Err(error) => Err(error),
            Ok((top_k, rest)) => if top_k == 0 || top_k > candidate_count {
                Err(ProtocolError::TopKOutOfRange)
            } else {
                Ok((Some(top_k), rest))
            },
        }
    }
}

/// The fields after the profile.
pub open spec fn read_tail(version: u16, fixed: Fixed, scoring: u8, rest: Seq<u8>) -> Result<
    (Fixed, Seq<u8>),
    ProtocolError,
> {
    match read_u32(rest) {
        Err(error) => Err(error),
        Ok((contract_bytes, rest)) => match read_quantization_bytes(version, rest) {
            Err(error) => Err(error),
            Ok((quantization_bytes, rest)) => if scoring != 1 {
                Err(ProtocolError::UnsupportedScoring)
            } else if fixed.candidate_count > 65_536 {
                Err(ProtocolError::TooManyCandidates)
            } else {
                match read_schedule(version, rest) {
                    Err(error) => Err(error),
                    Ok((priority, timeout_ms, tenant_bytes, rest)) => match read_top_k(
                        version,
                        fixed.candidate_count,
                        rest,
                    ) {
                        Err(error) => Err(error),
                        Ok((top_k, rest)) => Ok(
                            (
                                Fixed {
                                    contract_bytes,
                                    quantization_bytes,
                                    priority,
                                    timeout_ms,
                                    tenant_bytes,
                                    top_k,
                                    ..fixed
                                },
                                rest,
                            ),
                        ),
                    },
                }
            },
        },
    }
}

/// The fixed-width fields that begin a request body.
pub open spec fn read_fixed(version: u16, rest: Seq<u8>) -> Result<(Fixed, Seq<u8>), ProtocolError> {
    match read_u32(rest) {
        Err(error) => Err(error),
        Ok((dimension, rest)) => match read_u32(rest) {
            Err(error) => Err(error),
            Ok((query_rows, rest)) => match read_u32(rest) {
                Err(error) => Err(error),
                Ok((candidate_count, rest)) => match read_u8(rest) {
                    Err(error) => Err(error),
                    Ok((dtype, rest)) => match read_u8(rest) {
                        Err(error) => Err(error),
                        Ok((scoring, rest)) => match read_profile(version, rest) {
                            Err(error) => Err(error),
                            Ok((profile, storage_dtype, rest)) => read_tail(
                                version,
                                Fixed {
                                    dimension,
                                    query_rows,
                                    candidate_count,
                                    dtype,
                                    profile,
                                    storage_dtype,
                                    contract_bytes: 0,
                                    quantization_bytes: 0,
                                    priority: 0,
                                    timeout_ms: 0,
                                    tenant_bytes: 0,
                                    top_k: None,
                                },
                                scoring,
                                rest,
                            ),
                        },
                    },
                },
            },
        },
    }
}

/// The texts of a request.
pub struct Names {
    pub contract: Seq<char>,
    pub quantization: Option<Seq<char>>,
    pub tenant: Seq<char>,
}

/// The quantization contract, where the request has one.
pub open spec fn read_quantization(fixed: Fixed, rest: Seq<u8>) -> Result<
    (Option<Seq<char>>, Seq<u8>),
    ProtocolError,
> {
    if fixed.quantization_bytes == 0 {
        Ok((None, rest))
    } else {
        match read_text(
            rest,
            fixed.quantization_bytes as nat,
            128,
            TextField::QuantizationContract,
        ) {
            Err(error) => Err(error),
            Ok((part, rest)) => if !is_contract_id(part) {
                Err(ProtocolError::InvalidQuantizationContract)
            } else {
                Ok((Some(decode_utf8(part)), rest))
            },
        }
    }
}

/// The tenant; unscheduled requests share one.
pub open spec fn read_tenant(version: u16, fixed: Fixed, rest: Seq<u8>) -> Result<
    (Seq<char>, Seq<u8>),
    ProtocolError,
> {
    if version < VERSION_SCHEDULED_EXTERNAL {
        Ok(("__default__"@, rest))
    } else {
        match read_text(rest, fixed.tenant_bytes as nat, 256, TextField::SchedulerTenant) {
            Err(error) => Err(error),
            Ok((part, rest)) => Ok((decode_utf8(part), rest)),
        }
    }
}

/// The texts of a request. A quantization contract goes with the profiles that
/// need a trained quantizer, and with no other.
pub open spec fn read_names(version: u16, fixed: Fixed, rest: Seq<u8>) -> Result<
    (Names, Seq<u8>),
    ProtocolError,
> {
    match read_text(rest, fixed.contract_bytes as nat, 512, TextField::ModelContract) {
        Err(error) => Err(error),
        Ok((contract, rest)) => match read_quantization(fixed, rest) {
            Err(error) => Err(error),
            Ok((quantization, rest)) => if fixed.profile.is_quantized() != quantization is Some {
                Err(ProtocolError::ProfileContractMismatch)
            } else {
                match read_tenant(version, fixed, rest) {
                    Err(error) => Err(error),
                    Ok((tenant, rest)) => Ok(
                        (Names { contract: decode_utf8(contract), quantization, tenant }, rest),
                    ),
                }
            },
        },
    }
}

/// The query tensor, all of whose scalars are finite.
pub open spec fn read_query(fixed: Fixed, rest: Seq<u8>) -> Result<
    (Seq<u8>, Seq<u8>),
    ProtocolError,
> {
    match tensor_size(fixed.query_rows, fixed.dimension, fixed.dtype) {
        Err(error) => Err(error),
        Ok(size) => match read_bytes(rest, size) {
            Err(error) => Err(error),
            Ok((query, rest)) => if !finite_payload(query, fixed.dtype) {
                Err(ProtocolError::NonFiniteQuery)
            } else {
                Ok((query, rest))
            },
        },
    }
}

/// What a request says of manifests and catalogs.
pub struct Catalog {
    pub manifest: Option<Seq<u8>>,
    pub catalog: Option<Seq<u8>>,
    pub selection: Option<Seq<u8>>,
    pub registration: bool,
    pub public_ids: Seq<i64>,
    pub ordinals: Seq<u32>,
}

/// `count` public IDs in all, of which `ids` are read: each stands as its
/// distance from the one before, or from zero.
pub open spec fn read_public_ids(count: nat, ids: Seq<i64>, rest: Seq<u8>) -> Result<
    (Seq<i64>, Seq<u8>),
    ProtocolError,
>
    decreases count - ids.len(),
{
    if ids.len() >= count {
        Ok((ids, rest))
    } else {
        match read_varint(rest) {
            Err(error) => Err(error),
            Ok((delta, rest)) => {
                let current = if ids.len() == 0 {
                    delta as int
                } else {
                    ids.last() + delta
                };
                if delta == 0 {
                    Err(ProtocolError::PublicIdOrder)
                } else if current > i64::MAX {
                    Err(ProtocolError::PublicIdOverflow)
                } else {
                    read_public_ids(count, ids.push(current as i64), rest)
                }
            },
        }
    }
}

/// `count` ordinals in all, of which `ordinals` are read: each stands, raised
/// by one, as its distance from the one before, or from zero.
pub open spec fn read_ordinals(
    count: nat,
    candidate_count: u32,
    ordinals: Seq<u32>,
    rest: Seq<u8>,
) -> Result<(Seq<u32>, Seq<u8>), ProtocolError>
    decreases count - ordinals.len(),
{
    if ordinals.len() >= count {
        Ok((ordinals, rest))
    } else {
        match read_varint(rest) {
            Err(error) => Err(error),
            Ok((delta, rest)) => {
                let current = if ordinals.len() == 0 {
                    delta as int
                } else {
                    ordinals.last() + 1 + delta
                };
                if delta == 0 {
                    Err(ProtocolError::ScopedOrder)
                } else if current > u64::MAX {
                    Err(ProtocolError::ScopedOverflow)
                } else if current - 1 >= candidate_count {
                    Err(ProtocolError::ScopedOutside)
                } else {
                    read_ordinals(
                        count,
                        candidate_count,
                        ordinals.push((current - 1) as u32),
                        rest,
                    )
                }
            },
        }
    }
}

/// A catalog frame: a selection of public IDs, or the start of a registration.
pub open spec fn read_catalog_frame(count: u32, rest: Seq<u8>) -> Result<
    (Catalog, Seq<u8>),
    ProtocolError,
> {
    match read_u8(rest) {
        Err(error) => Err(error),
        Ok((mode, rest)) => if mode != 1 && mode != 2 {
            Err(ProtocolError::CatalogMode)
        } else {
            match read_bytes(rest, 32) {
                Err(error) => Err(error),
                Ok((digest, rest)) => {
                    let count = if mode == 1 {
                        count as nat
                    } else {
                        0
                    };
                    match read_public_ids(count, seq![], rest) {
                        Err(error) => Err(error),
                        Ok((public_ids, rest)) => Ok(
                            (
                                Catalog {
                                    manifest: None,
                                    catalog: Some(digest),
                                    selection: None,
                                    registration: mode == 2,
                                    public_ids,
                                    ordinals: seq![],
                                },
                                rest,
                            ),
                        ),
                    }
                },
            }
        },
    }
}

/// Whether a version carries ordinals within the selection.
pub open spec fn is_scoped(version: u16) -> bool {
    version == VERSION_SCOPED_CATALOG_SELECTION_REFERENCE || version
        == VERSION_PERSISTENT_SCOPED_CATALOG_SELECTION_REFERENCE
}

/// The ordinals within the selection, in the versions that have them.
pub open spec fn read_scope(version: u16, candidate_count: u32, rest: Seq<u8>) -> Result<
    (Seq<u32>, Seq<u8>),
    ProtocolError,
> {
    if !is_scoped(version) {
        Ok((seq![], rest))
    } else {
        match read_u32(rest) {
            Err(error) => Err(error),
            Ok((count, rest)) => if count == 0 || count > candidate_count {
                Err(ProtocolError::ScopedCount)
            } else {
                read_ordinals(count as nat, candidate_count, seq![], rest)
            },
        }
    }
}

/// A reference to a selection by its digest.
pub open spec fn read_selection_reference(version: u16, count: u32, rest: Seq<u8>) -> Result<
    (Catalog, Seq<u8>),
    ProtocolError,
> {
    match read_u8(rest) {
        Err(error) => Err(error),
        Ok((mode, rest)) => if mode != if is_scoped(version) {
            4u8
        } else {
            3u8
        } {
            Err(ProtocolError::SelectionReferenceMode)
        } else {
            match read_bytes(rest, 32) {
                Err(error) => Err(error),
                Ok((catalog, rest)) => match read_bytes(rest, 32) {
                    Err(error) => Err(error),
                    Ok((selection, rest)) => match read_scope(version, count, rest) {
                        Err(error) => Err(error),
                        Ok((ordinals, rest)) => Ok(
                            (
                                Catalog {
                                    manifest: None,
                                    catalog: Some(catalog),
                                    selection: Some(selection),
                                    registration: false,
                                    public_ids: seq![],
                                    ordinals,
                                },
                                rest,
                            ),
                        ),
                    },
                },
            }
        },
    }
}

/// A reference to a manifest by its digest.
pub open spec fn read_manifest(rest: Seq<u8>) -> Result<(Catalog, Seq<u8>), ProtocolError> {
    match read_bytes(rest, 32) {
        Err(error) => Err(error),
        Ok((digest, rest)) => Ok(
            (
                Catalog {
                    manifest: Some(digest),
                    catalog: None,
                    selection: None,
                    registration: false,
                    public_ids: seq![],
                    ordinals: seq![],
                },
                rest,
            ),
        ),
    }
}

/// What a request says of manifests and catalogs.
pub open spec fn read_catalog(version: u16, count: u32, rest: Seq<u8>) -> Result<
    (Catalog, Seq<u8>),
    ProtocolError,
> {
    if version < VERSION_MANIFEST_LOGICAL_EXTERNAL {
        Ok(
            (
                Catalog {
                    manifest: None,
                    catalog: None,
                    selection: None,
                    registration: false,
                    public_ids: seq![],
                    ordinals: seq![],
                },
                rest,
            ),
        )
    } else if version == VERSION_MANIFEST_LOGICAL_EXTERNAL {
        read_manifest(rest)
    } else if version == VERSION_CATALOG_LOGICAL_EXTERNAL {
        read_catalog_frame(count, rest)
    } else {
        read_selection_reference(version, count, rest)
    }
}

/// What all candidates of a request share.
pub struct Shared {
    pub version: u16,
    pub registration: bool,
    pub contract: Seq<char>,
    pub dimension: u32,
    pub dtype: u8,
    pub candidate_dtype: u8,
}

/// What has been read of the candidates.
pub struct Progress {
    pub candidates: Seq<DescriptorView>,
    pub public_ids: Seq<i64>,
    pub tokens: nat,
    pub bytes: nat,
}

impl Progress {
    /// Whether one of the candidates read has the given ID.
    pub open spec fn has(self, id: u32) -> bool {
        exists|i: int|
            0 <= i < self.candidates.len() && (#[trigger] self.candidates[i]).candidate_id == id
    }

    /// One more candidate, of `rows` tokens and `size` bytes.
    pub open spec fn with(self, candidate: DescriptorView, size: nat) -> Progress {
        Progress {
            candidates: self.candidates.push(candidate),
            tokens: self.tokens + candidate.rows as nat,
            bytes: self.bytes + size,
            ..self
        }
    }
}

/// A candidate whose digest stands as raw bytes.
pub open spec fn read_compact(
    shared: Shared,
    progress: Progress,
    candidate_id: u32,
    rows: u32,
    rest: Seq<u8>,
) -> Result<(Progress, Seq<u8>), ProtocolError> {
    match read_bytes(rest, 32) {
        Err(error) => Err(error),
        Ok((digest, rest)) => if progress.tokens + rows > usize::MAX {
            Err(ProtocolError::TokenOverflow)
        } else {
            match tensor_size(rows, shared.dimension, shared.candidate_dtype) {
                Err(error) => Err(error),
                Ok(size) => if progress.bytes + size > usize::MAX {
                    Err(ProtocolError::ByteOverflow)
                } else {
                    Ok(
                        (
                            progress.with(
                                DescriptorView {
                                    candidate_id,
                                    contract: shared.contract,
                                    digest: hex_text(digest),
                                    rows,
                                    dimension: shared.dimension,
                                    dtype: shared.candidate_dtype,
                                },
                                size,
                            ),
                            rest,
                        ),
                    )
                },
            }
        },
    }
}

/// A registered candidate: a public ID above all before it, and a tensor.
pub open spec fn read_registered(shared: Shared, progress: Progress, rest: Seq<u8>) -> Result<
    (Progress, Seq<u8>),
    ProtocolError,
> {
    match read_i64(rest) {
        Err(error) => Err(error),
        Ok((public_id, rest)) => if public_id <= 0 || (progress.public_ids.len() > 0
            && progress.public_ids.last() >= public_id) {
            Err(ProtocolError::RegisteredIdOrder)
        } else {
            match read_u32(rest) {
                Err(error) => Err(error),
                Ok((rows, rest)) => read_compact(
                    shared,
                    Progress { public_ids: progress.public_ids.push(public_id), ..progress },
                    progress.candidates.len() as u32,
                    rows,
                    rest,
                ),
            }
        },
    }
}

/// The bytes that begin every tensor reference: `sha256://`.
pub open spec fn reference_prefix() -> Seq<u8> {
    seq![115u8, 104u8, 97u8, 50u8, 53u8, 54u8, 58u8, 47u8, 47u8]
}

/// The bytes that begin every tensor checksum: `sha256:`.
pub open spec fn checksum_prefix() -> Seq<u8> {
    seq![115u8, 104u8, 97u8, 50u8, 53u8, 54u8, 58u8]
}

/// The digest that a tensor reference names and the checksum repeats.
pub open spec fn referenced_digest(reference: Seq<u8>, checksum: Seq<u8>) -> Result<
    Seq<char>,
    ProtocolError,
> {
    if !reference_prefix().is_prefix_of(reference) {
        Err(ProtocolError::UnsupportedTensorReference)
    } else {
        let digest = reference.skip(9);
        if !is_digest_text(digest) || checksum != checksum_prefix() + digest {
            Err(ProtocolError::InvalidTensorDescriptor)
        } else {
            Ok(ascii_chars(digest))
        }
    }
}

/// A candidate by reference and checksum, before its tensor is counted.
pub open spec fn read_reference(rest: Seq<u8>, reference_bytes: u32, checksum_bytes: u32) -> Result<
    (Seq<char>, Seq<u8>),
    ProtocolError,
> {
    match read_text(rest, reference_bytes as nat, 4096, TextField::TensorReference) {
        Err(error) => Err(error),
        Ok((reference, rest)) => match read_text(
            rest,
            checksum_bytes as nat,
            512,
            TextField::TensorChecksum,
        ) {
            Err(error) => Err(error),
            Ok((checksum, rest)) => match referenced_digest(reference, checksum) {
                Err(error) => Err(error),
                Ok(digest) => Ok((digest, rest)),
            },
        },
    }
}

/// The candidate counted: the sizes stay within a machine word, and outside
/// logical requests within the limits on one request.
pub open spec fn count_referenced(
    shared: Shared,
    progress: Progress,
    candidate_id: u32,
    rows: u32,
    digest: Seq<char>,
) -> Result<Progress, ProtocolError> {
    match tensor_size(rows, shared.dimension, shared.dtype) {
        Err(error) => Err(error),
        Ok(size) => if progress.tokens + rows > usize::MAX {
            Err(ProtocolError::TokenOverflow)
        } else if progress.bytes + size > usize::MAX {
            Err(ProtocolError::ByteOverflow)
        } else if shared.version < VERSION_LOGICAL_EXTERNAL && (progress.tokens + rows > 1_000_000
            || progress.bytes + size > 1_073_741_824) {
            Err(ProtocolError::TensorLimits)
        } else {
            Ok(
                progress.with(
                    DescriptorView {
                        candidate_id,
                        contract: shared.contract,
                        digest,
                        rows,
                        dimension: shared.dimension,
                        dtype: shared.dtype,
                    },
                    size,
                ),
            )
        },
    }
}

/// A candidate by reference and checksum.
pub open spec fn read_referenced(
    shared: Shared,
    progress: Progress,
    candidate_id: u32,
    rows: u32,
    rest: Seq<u8>,
) -> Result<(Progress, Seq<u8>), ProtocolError> {
    match read_u32(rest) {
        Err(error) => Err(error),
        Ok((reference_bytes, rest)) => match read_u32(rest) {
            Err(error) => Err(error),
            Ok((checksum_bytes, rest)) => if progress.has(candidate_id) {
                Err(ProtocolError::DuplicateCandidate)
            } else {
                match read_reference(rest, reference_bytes, checksum_bytes) {
                    Err(error) => Err(error),
                    Ok((digest, rest)) => match count_referenced(
                        shared,
                        progress,
                        candidate_id,
                        rows,
                        digest,
                    ) {
                        Err(error) => Err(error),
                        Ok(progress) => Ok((progress, rest)),
                    },
                }
            },
        },
    }
}

/// The next candidate.
pub open spec fn read_candidate(shared: Shared, progress: Progress, rest: Seq<u8>) -> Result<
    (Progress, Seq<u8>),
    ProtocolError,
> {
    if shared.registration {
        read_registered(shared, progress, rest)
    } else {
        match read_u32(rest) {
            Err(error) => Err(error),
            Ok((candidate_id, rest)) => match read_u32(rest) {
                Err(error) => Err(error),
                Ok((rows, rest)) => if shared.version < VERSION_COMPACT_LOGICAL_EXTERNAL {
                    read_referenced(shared, progress, candidate_id, rows, rest)
                } else if progress.has(candidate_id) {
                    Err(ProtocolError::DuplicateCandidate)
                } else {
                    read_compact(shared, progress, candidate_id, rows, rest)
                },
            },
        }
    }
}

/// The candidates that are not read yet, `left` of them.
pub open spec fn read_candidates(shared: Shared, left: nat, progress: Progress, rest: Seq<u8>) -> Result<
    (Progress, Seq<u8>),
    ProtocolError,
>
    decreases left,
{
    if left == 0 {
        Ok((progress, rest))
    } else {
        match read_candidate(shared, progress, rest) {
            Err(error) => Err(error),
            Ok((progress, rest)) => read_candidates(shared, (left - 1) as nat, progress, rest),
        }
    }
}

/// What all candidates of a request share.
pub open spec fn shared_of(version: u16, fixed: Fixed, names: Names, catalog: Catalog) -> Shared {
    Shared {
        version,
        registration: catalog.registration,
        contract: names.contract,
        dimension: fixed.dimension,
        dtype: fixed.dtype,
        candidate_dtype: fixed.candidate_dtype(),
    }
}

/// How many candidates the body lists. A request that names a manifest or a
/// catalog selection lists none.
pub open spec fn listed_count(fixed: Fixed, catalog: Catalog) -> nat {
    if catalog.manifest is Some || (catalog.catalog is Some && !catalog.registration) {
        0
    } else {
        fixed.candidate_count as nat
    }
}

/// Nothing of the candidates has been read; the query has been counted.
pub open spec fn progress_of(fixed: Fixed, query: Seq<u8>, catalog: Catalog) -> Progress {
    Progress {
        candidates: seq![],
        public_ids: catalog.public_ids,
        tokens: fixed.query_rows as nat,
        bytes: query.len(),
    }
}

/// The request that the parts of a frame make up.
pub open spec fn request_of(
    header: Header,
    fixed: Fixed,
    names: Names,
    query: Seq<u8>,
    catalog: Catalog,
    progress: Progress,
) -> RequestView {
    RequestView {
        protocol_version: header.version,
        request_id: header.request_id,
        tenant: names.tenant,
        model_contract: names.contract,
        priority: fixed.priority,
        timeout_ms: fixed.timeout_ms,
        query_rows: fixed.query_rows,
        dimension: fixed.dimension,
        dtype: fixed.dtype,
        candidate_dtype: fixed.candidate_dtype(),
        scoring_profile: fixed.profile,
        quantization_contract: names.quantization,
        top_k: match fixed.top_k {
            Some(top_k) => Some(top_k as nat),
            None => None,
        },
        query,
        candidates: progress.candidates,
        candidate_start: 0,
        candidate_end: progress.candidates.len(),
        manifest_digest: catalog.manifest,
        catalog_digest: catalog.catalog,
        catalog_selection_digest: catalog.selection,
        catalog_public_ids: progress.public_ids,
        catalog_registration: catalog.registration,
        scoped_candidate_ordinals: catalog.ordinals,
    }
}

/// The request in a body, part by part.
pub open spec fn parse_body(header: Header) -> Result<RequestView, ProtocolError> {
    match read_fixed(header.version, header.body) {
        Err(error) => Err(error),
        Ok((fixed, rest)) => match read_names(header.version, fixed, rest) {
            Err(error) => Err(error),
            Ok((names, rest)) => match read_query(fixed, rest) {
                Err(error) => Err(error),
                Ok((query, rest)) => match read_catalog(
                    header.version,
                    fixed.candidate_count,
                    rest,
                ) {
                    Err(error) => Err(error),
                    Ok((catalog, rest)) => match read_candidates(
                        shared_of(header.version, fixed, names, catalog),
                        listed_count(fixed, catalog),
                        progress_of(fixed, query, catalog),
                        rest,
                    ) {
                        Err(error) => Err(error),
                        Ok((progress, rest)) => if rest.len() != 0 {
                            Err(ProtocolError::TrailingBytes)
                        } else {
                            Ok(request_of(header, fixed, names, query, catalog, progress))
                        },
                    },
                },
            },
        },
    }
}

/// The request that a frame stands for, or why it is refused.
pub open spec fn parse_frame(frame: Seq<u8>) -> Result<RequestView, ProtocolError> {
    match read_header(frame) {
        Err(error) => Err(error),
        Ok(header) => parse_body(header),
    }
}

/// Reads a header and leaves its body to the reader.
fn parse_header(frame: &[u8]) -> (result: Result<(u16, u64), ProtocolError>)
    ensures
        match read_header(frame@) {
            Ok(header) => result == Ok::<(u16, u64), ProtocolError>(
                (header.version, header.request_id),
            ),
            Err(error) => result == Err::<(u16, u64), ProtocolError>(error),
        },
{
    if frame.len() < HEADER_BYTES {
        return Err(ProtocolError::TruncatedHeader);
    }
    let marked: bool = frame[0] == 86 && frame[1] == 67 && frame[2] == 84 && frame[3] == 77;
    assert(marked == (frame@.subrange(0, 4) == magic())) by {
        let head = frame@.subrange(0, 4);
        if marked {
            assert(head =~= magic());
        } else if head == magic() {
            assert(head[0] == 86 && head[1] == 67 && head[2] == 84 && head[3] == 77);
        }
    }
    if !marked {
        return Err(ProtocolError::InvalidMagic);
    }
    let version: u16 = u16_at(frame, 4);
    let kind: u16 = u16_at(frame, 6);
    let request_id: u64 = u64_at(frame, 8);
    let body_bytes: u64 = u64_at(frame, 16);
    if version < VERSION_EXTERNAL || version > VERSION_PERSISTENT_CATALOG_SELECTION_REFERENCE || kind
        != REQUEST_KIND {
        return Err(ProtocolError::UnsupportedProtocol);
    }
    if body_bytes != (frame.len() - HEADER_BYTES) as u64 {
        return Err(ProtocolError::BodyLengthMismatch);
    }
    Ok((version, request_id))
}

fn parse_profile(reader: &mut Reader<'_>, version: u16) -> (result: Result<
    (ScoringProfile, u8),
    ProtocolError,
>)
    ensures
        match read_profile(version, old(reader).rest()) {
            Ok((profile, storage, rest)) => result == Ok::<(ScoringProfile, u8), ProtocolError>(
                (profile, storage),
            ) && final(reader).rest() == rest,
            Err(error) => result == Err::<(ScoringProfile, u8), ProtocolError>(error),
        },
{
    if version < VERSION_PROFILED_EXTERNAL {
        if reader.u16()? != 0 {
            return Err(ProtocolError::ReservedBits);
        }
        return Ok((ScoringProfile::ExactFp16, 0));
    }
    let profile: ScoringProfile = ScoringProfile::parse(reader.u8()?)?;
    let storage: u8 = reader.u8()?;
    if version < VERSION_TYPED_COMPACT_LOGICAL_EXTERNAL && storage != 0 {
        return Err(ProtocolError::ReservedBits);
    }
    Ok((profile, storage))
}

fn parse_schedule(reader: &mut Reader<'_>, version: u16) -> (result: Result<
    (i32, u32, u32),
    ProtocolError,
>)
    ensures
        match read_schedule(version, old(reader).rest()) {
            Ok((priority, timeout_ms, tenant_bytes, rest)) => result == Ok::<
                (i32, u32, u32),
                ProtocolError,
            >((priority, timeout_ms, tenant_bytes)) && final(reader).rest() == rest,
            Err(error) => result == Err::<(i32, u32, u32), ProtocolError>(error),
        },
{
    if version < VERSION_SCHEDULED_EXTERNAL {
        return Ok((0, 0, 0));
    }
    let priority: i32 = reader.i32()?;
    let timeout_ms: u32 = reader.u32()?;
    let tenant_bytes: u32 = reader.u32()?;
    if priority < -100 || priority > 100 {
        return Err(ProtocolError::PriorityOutOfRange);
    }
    if timeout_ms < 1 || timeout_ms > 600_000 {
        return Err(ProtocolError::TimeoutOutOfRange);
    }
    Ok((priority, timeout_ms, tenant_bytes))
}

fn parse_top_k(reader: &mut Reader<'_>, version: u16, candidate_count: u32) -> (result: Result<
    Option<u32>,
    ProtocolError,
>)
    ensures
        match read_top_k(version, candidate_count, old(reader).rest()) {
            Ok((top_k, rest)) => result == Ok::<Option<u32>, ProtocolError>(top_k)
                && final(reader).rest() == rest,
            Err(error) => result == Err::<Option<u32>, ProtocolError>(error),
        },
{
    if version < VERSION_LOGICAL_EXTERNAL {
        return Ok(None);
    }
    let top_k: u32 = reader.u32()?;
    if top_k == 0 || top_k > candidate_count {
        return Err(ProtocolError::TopKOutOfRange);
    }
    Ok(Some(top_k))
}

fn parse_fixed(reader: &mut Reader<'_>, version: u16) -> (result: Result<Fixed, ProtocolError>)
    ensures
        match read_fixed(version, old(reader).rest()) {
            Ok((fixed, rest)) => result == Ok::<Fixed, ProtocolError>(fixed) && final(reader).rest()
                == rest,
            Err(error) => result == Err::<Fixed, ProtocolError>(error),
        },
{
    let dimension: u32 = reader.u32()?;
    let query_rows: u32 = reader.u32()?;
    let candidate_count: u32 = reader.u32()?;
    let dtype: u8 = reader.u8()?;
    let scoring: u8 = reader.u8()?;
    let (profile, storage_dtype) = parse_profile(reader, version)?;
    let contract_bytes: u32 = reader.u32()?;
    let quantization_bytes: u32 = if version < VERSION_QUANTIZED_EXTERNAL {
        0
    } else {
        reader.u32()?
    };
    if scoring != 1 {
        return Err(ProtocolError::UnsupportedScoring);
    }
    if candidate_count > 65_536 {
        return Err(ProtocolError::TooManyCandidates);
    }
    let (priority, timeout_ms, tenant_bytes) = parse_schedule(reader, version)?;
    let top_k: Option<u32> = parse_top_k(reader, version, candidate_count)?;
    Ok(
        Fixed {
            dimension,
            query_rows,
            candidate_count,
            dtype,
            profile,
            storage_dtype,
            contract_bytes,
            quantization_bytes,
            priority,
            timeout_ms,
            tenant_bytes,
            top_k,
        },
    )
}

/// The texts of a request.
struct Labels {
    contract: String,
    quantization: Option<String>,
    tenant: String,
}

impl View for Labels {
    type V = Names;

    closed spec fn view(&self) -> Names {
        Names {
            contract: self.contract@,
            quantization: text_view(self.quantization),
            tenant: self.tenant@,
        }
    }
}

fn parse_quantization(reader: &mut Reader<'_>, fixed: &Fixed) -> (result: Result<
    Option<String>,
    ProtocolError,
>)
    ensures
        match read_quantization(*fixed, old(reader).rest()) {
            Ok((quantization, rest)) => result is Ok && text_view(result->Ok_0) == quantization
                && final(reader).rest() == rest,
            Err(error) => result == Err::<Option<String>, ProtocolError>(error),
        },
{
    if fixed.quantization_bytes == 0 {
        return Ok(None);
    }
    let (part, text) = reader.text(
        fixed.quantization_bytes as usize,
        128,
        TextField::QuantizationContract,
    )?;
    if !contract_id(part) {
        return Err(ProtocolError::InvalidQuantizationContract);
    }
    Ok(Some(text.to_owned()))
}

fn parse_names(reader: &mut Reader<'_>, version: u16, fixed: &Fixed) -> (result: Result<
    Labels,
    ProtocolError,
>)
    ensures
        match read_names(version, *fixed, old(reader).rest()) {
            Ok((names, rest)) => result is Ok && result->Ok_0@ == names && final(reader).rest()
                == rest,
            Err(error) => result == Err::<Labels, ProtocolError>(error),
        },
{
    let (_, contract) = reader.text(
        fixed.contract_bytes as usize,
        512,
        TextField::ModelContract,
    )?;
    let quantization: Option<String> = parse_quantization(reader, fixed)?;
    let quantized: bool = match fixed.profile {
        ScoringProfile::Pq => true,
        ScoringProfile::OpqRpq => true,
        _ => false,
    };
    if quantized != quantization.is_some() {
        return Err(ProtocolError::ProfileContractMismatch);
    }
    let tenant: &str = if version < VERSION_SCHEDULED_EXTERNAL {
        "__default__"
    } else {
        reader.text(fixed.tenant_bytes as usize, 256, TextField::SchedulerTenant)?.1
    };
    Ok(Labels { contract: contract.to_owned(), quantization, tenant: tenant.to_owned() })
}

fn parse_query(reader: &mut Reader<'_>, fixed: &Fixed) -> (result: Result<Vec<u8>, ProtocolError>)
    ensures
        match read_query(*fixed, old(reader).rest()) {
            Ok((query, rest)) => result is Ok && result->Ok_0@ == query && final(reader).rest()
                == rest,
            Err(error) => result == Err::<Vec<u8>, ProtocolError>(error),
        },
{
    let size: usize = tensor_bytes(fixed.query_rows, fixed.dimension, fixed.dtype)?;
    let query = reader.take(size)?;
    validate_finite(query, fixed.dtype)?;
    Ok(slice_to_vec(query))
}

/// Thirty-two bytes as an array.
fn digest_array(bytes: &[u8]) -> (digest: [u8; 32])
    requires
        bytes@.len() == 32,
    ensures
        digest@ == bytes@,
{
    let mut digest: [u8; 32] = [0; 32];
    let mut i: usize = 0;
    while i < 32
        invariant
            i <= 32,
            bytes@.len() == 32,
            forall|j: int| 0 <= j < i ==> digest@[j] == bytes@[j],
        decreases 32 - i,
    {
        digest[i] = bytes[i];
        i += 1;
    }
    assert(digest@ =~= bytes@);
    digest
}

fn parse_digest(reader: &mut Reader<'_>) -> (result: Result<[u8; 32], ProtocolError>)
    ensures
        match read_bytes(old(reader).rest(), 32) {
            Ok((digest, rest)) => result is Ok && result->Ok_0@ == digest && final(reader).rest()
                == rest,
            Err(error) => result == Err::<[u8; 32], ProtocolError>(error),
        },
{
    let part = reader.take(32)?;
    Ok(digest_array(part))
}

/// What a request says of manifests and catalogs.
struct CatalogPart {
    manifest: Option<[u8; 32]>,
    catalog: Option<[u8; 32]>,
    selection: Option<[u8; 32]>,
    registration: bool,
    public_ids: Vec<i64>,
    ordinals: Vec<u32>,
}

impl View for CatalogPart {
    type V = Catalog;

    closed spec fn view(&self) -> Catalog {
        Catalog {
            manifest: digest_view(self.manifest),
            catalog: digest_view(self.catalog),
            selection: digest_view(self.selection),
            registration: self.registration,
            public_ids: self.public_ids@,
            ordinals: self.ordinals@,
        }
    }
}

fn parse_public_ids(reader: &mut Reader<'_>, count: usize) -> (result: Result<Vec<i64>, ProtocolError>)
    ensures
        match read_public_ids(count as nat, seq![], old(reader).rest()) {
            Ok((ids, rest)) => result is Ok && result->Ok_0@ == ids && final(reader).rest() == rest,
            Err(error) => result == Err::<Vec<i64>, ProtocolError>(error),
        },
{
    let mut ids: Vec<i64> = Vec::new();
    let mut previous: u64 = 0;
    assert(ids@ =~= seq![]);
    while ids.len() < count
        invariant
            ids.len() <= count,
            previous <= i64::MAX,
            previous == if ids@.len() == 0 {
                0
            } else {
                ids@.last() as int
            },
            read_public_ids(count as nat, seq![], old(reader).rest()) == read_public_ids(
                count as nat,
                ids@,
                reader.rest(),
            ),
        decreases count - ids.len(),
    {
        let delta: u64 = reader.varint_u64()?;
        if delta == 0 {
            return Err(ProtocolError::PublicIdOrder);
        }
        let current: u64 = match previous.checked_add(delta) {
            Some(current) => current,
            None => return Err(ProtocolError::PublicIdOverflow),
        };
        if current > i64::MAX as u64 {
            return Err(ProtocolError::PublicIdOverflow);
        }
        ids.push(current as i64);
        previous = current;
    }
    Ok(ids)
}

fn parse_ordinals(reader: &mut Reader<'_>, count: usize, candidate_count: u32) -> (result: Result<
    Vec<u32>,
    ProtocolError,
>)
    ensures
        match read_ordinals(count as nat, candidate_count, seq![], old(reader).rest()) {
            Ok((ordinals, rest)) => result is Ok && result->Ok_0@ == ordinals
                && final(reader).rest() == rest,
            Err(error) => result == Err::<Vec<u32>, ProtocolError>(error),
        },
{
    let mut ordinals: Vec<u32> = Vec::new();
    let mut previous_plus_one: u64 = 0;
    assert(ordinals@ =~= seq![]);
    while ordinals.len() < count
        invariant
            ordinals.len() <= count,
            previous_plus_one == if ordinals@.len() == 0 {
                0
            } else {
                ordinals@.last() + 1
            },
            read_ordinals(count as nat, candidate_count, seq![], old(reader).rest())
                == read_ordinals(count as nat, candidate_count, ordinals@, reader.rest()),
        decreases count - ordinals.len(),
    {
        let delta: u64 = reader.varint_u64()?;
        if delta == 0 {
            return Err(ProtocolError::ScopedOrder);
        }
        let current_plus_one: u64 = match previous_plus_one.checked_add(delta) {
            Some(current) => current,
            None => return Err(ProtocolError::ScopedOverflow),
        };
        let ordinal: u64 = current_plus_one - 1;
        if ordinal >= candidate_count as u64 {
            return Err(ProtocolError::ScopedOutside);
        }
        ordinals.push(ordinal as u32);
        previous_plus_one = current_plus_one;
    }
    Ok(ordinals)
}

fn parse_catalog_frame(reader: &mut Reader<'_>, count: u32) -> (result: Result<
    CatalogPart,
    ProtocolError,
>)
    ensures
        match read_catalog_frame(count, old(reader).rest()) {
            Ok((catalog, rest)) => result is Ok && result->Ok_0@ == catalog && final(reader).rest()
                == rest,
            Err(error) => result == Err::<CatalogPart, ProtocolError>(error),
        },
{
    let mode: u8 = reader.u8()?;
    if mode != 1 && mode != 2 {
        return Err(ProtocolError::CatalogMode);
    }
    let digest: [u8; 32] = parse_digest(reader)?;
    let public_ids: Vec<i64> = parse_public_ids(
        reader,
        if mode == 1 {
            count as usize
        } else {
            0
        },
    )?;
    let ordinals: Vec<u32> = Vec::new();
    assert(ordinals@ =~= seq![]);
    Ok(
        CatalogPart {
            manifest: None,
            catalog: Some(digest),
            selection: None,
            registration: mode == 2,
            public_ids,
            ordinals,
        },
    )
}

fn parse_scope(reader: &mut Reader<'_>, version: u16, candidate_count: u32) -> (result: Result<
    Vec<u32>,
    ProtocolError,
>)
    ensures
        match read_scope(version, candidate_count, old(reader).rest()) {
            Ok((ordinals, rest)) => result is Ok && result->Ok_0@ == ordinals
                && final(reader).rest() == rest,
            Err(error) => result == Err::<Vec<u32>, ProtocolError>(error),
        },
{
    if version != VERSION_SCOPED_CATALOG_SELECTION_REFERENCE && version
        != VERSION_PERSISTENT_SCOPED_CATALOG_SELECTION_REFERENCE {
        let ordinals: Vec<u32> = Vec::new();
        assert(ordinals@ =~= seq![]);
        return Ok(ordinals);
    }
    let count: u32 = reader.u32()?;
    if count == 0 || count > candidate_count {
        return Err(ProtocolError::ScopedCount);
    }
    parse_ordinals(reader, count as usize, candidate_count)
}

fn parse_selection_reference(reader: &mut Reader<'_>, version: u16, count: u32) -> (result: Result<
    CatalogPart,
    ProtocolError,
>)
    ensures
        match read_selection_reference(version, count, old(reader).rest()) {
            Ok((catalog, rest)) => result is Ok && result->Ok_0@ == catalog && final(reader).rest()
                == rest,
            Err(error) => result == Err::<CatalogPart, ProtocolError>(error),
        },
{
    let scoped: bool = version == VERSION_SCOPED_CATALOG_SELECTION_REFERENCE || version
        == VERSION_PERSISTENT_SCOPED_CATALOG_SELECTION_REFERENCE;
    let expected: u8 = if scoped {
        4
    } else {
        3
    };
    if reader.u8()? != expected {
        return Err(ProtocolError::SelectionReferenceMode);
    }
    let catalog: [u8; 32] = parse_digest(reader)?;
    let selection: [u8; 32] = parse_digest(reader)?;
    let ordinals: Vec<u32> = parse_scope(reader, version, count)?;
    let public_ids: Vec<i64> = Vec::new();
    assert(public_ids@ =~= seq![]);
    Ok(
        CatalogPart {
            manifest: None,
            catalog: Some(catalog),
            selection: Some(selection),
            registration: false,
            public_ids,
            ordinals,
        },
    )
}

fn parse_catalog(reader: &mut Reader<'_>, version: u16, count: u32) -> (result: Result<
    CatalogPart,
    ProtocolError,
>)
    ensures
        match read_catalog(version, count, old(reader).rest()) {
            Ok((catalog, rest)) => result is Ok && result->Ok_0@ == catalog && final(reader).rest()
                == rest,
            Err(error) => result == Err::<CatalogPart, ProtocolError>(error),
        },
{
    if version == VERSION_CATALOG_LOGICAL_EXTERNAL {
        return parse_catalog_frame(reader, count);
    }
    if version > VERSION_CATALOG_LOGICAL_EXTERNAL {
        return parse_selection_reference(reader, version, count);
    }
    let manifest: Option<[u8; 32]> = if version == VERSION_MANIFEST_LOGICAL_EXTERNAL {
        Some(parse_digest(reader)?)
    } else {
        None
    };
    let public_ids: Vec<i64> = Vec::new();
    let ordinals: Vec<u32> = Vec::new();
    assert(public_ids@ =~= seq![]);
    assert(ordinals@ =~= seq![]);
    Ok(
        CatalogPart {
            manifest,
            catalog: None,
            selection: None,
            registration: false,
            public_ids,
            ordinals,
        },
    )
}

/// What all candidates of a request share.
struct Common<'a> {
    version: u16,
    registration: bool,
    contract: &'a str,
    dimension: u32,
    dtype: u8,
    candidate_dtype: u8,
}

impl<'a> View for Common<'a> {
    type V = Shared;

    closed spec fn view(&self) -> Shared {
        Shared {
            version: self.version,
            registration: self.registration,
            contract: self.contract@,
            dimension: self.dimension,
            dtype: self.dtype,
            candidate_dtype: self.candidate_dtype,
        }
    }
}

/// What has been read of the candidates.
struct Listing {
    candidates: Vec<Descriptor>,
    public_ids: Vec<i64>,
    tokens: usize,
    bytes: usize,
    seen: HashSet<u32>,
}

impl View for Listing {
    type V = Progress;

    closed spec fn view(&self) -> Progress {
        Progress {
            candidates: descriptor_views(self.candidates@),
            public_ids: self.public_ids@,
            tokens: self.tokens as nat,
            bytes: self.bytes as nat,
        }
    }
}

impl Listing {
    /// The set of IDs is that of the candidates read.
    spec fn wf(&self) -> bool {
        forall|id: u32| #[trigger] self.seen@.contains(id) <==> self@.has(id)
    }

    fn count(&mut self, candidate: Descriptor, size: usize)
        requires
            old(self).wf(),
            old(self).tokens + candidate.rows <= usize::MAX,
            old(self).bytes + size <= usize::MAX,
        ensures
            final(self)@ == old(self)@.with(candidate@, size as nat),
            final(self).wf(),
    {
        let ghost before = *self;
        self.tokens = self.tokens + candidate.rows as usize;
        self.bytes = self.bytes + size;
        self.seen.insert(candidate.candidate_id);
        let ghost id = candidate.candidate_id;
        self.candidates.push(candidate);
        proof {
            let list = before@.candidates;
            assert(self@.candidates =~= list.push(candidate@));
            assert forall|other: u32| #[trigger] self.seen@.contains(other) <==> self@.has(other) by {
                if before@.has(other) {
                    let i = choose|i: int| 0 <= i < list.len() && (#[trigger] list[i]).candidate_id == other;
                    assert(self@.candidates[i].candidate_id == other);
                }
                if other == id {
                    assert(self@.candidates[list.len() as int].candidate_id == other);
                }
                if self@.has(other) {
                    let i = choose|i: int|
                        0 <= i < self@.candidates.len() && (#[trigger] self@.candidates[i]).candidate_id
                            == other;
                    if i < list.len() {
                        assert(list[i].candidate_id == other);
                    }
                }
                assert(before.seen@.contains(other) <==> before@.has(other));
            }
        }
    }
}

fn parse_compact(
    reader: &mut Reader<'_>,
    common: &Common<'_>,
    listing: &mut Listing,
    candidate_id: u32,
    rows: u32,
) -> (result: Result<(), ProtocolError>)
    requires
        old(listing).wf(),
    ensures
        match read_compact(common@, old(listing)@, candidate_id, rows, old(reader).rest()) {
            Ok((progress, rest)) => {
                &&& result is Ok
                &&& final(listing)@ == progress
                &&& final(listing).wf()
                &&& final(reader).rest() == rest
            },
            Err(error) => result == Err::<(), ProtocolError>(error),
        },
{
    let digest: String = hex_encode(reader.take(32)?);
    if listing.tokens.checked_add(rows as usize).is_none() {
        return Err(ProtocolError::TokenOverflow);
    }
    let size: usize = tensor_bytes(rows, common.dimension, common.candidate_dtype)?;
    if listing.bytes.checked_add(size).is_none() {
        return Err(ProtocolError::ByteOverflow);
    }
    listing.count(
        Descriptor {
            candidate_id,
            contract: common.contract.to_owned(),
            digest,
            rows,
            dimension: common.dimension,
            dtype: common.candidate_dtype,
        },
        size,
    );
    Ok(())
}

fn parse_registered(reader: &mut Reader<'_>, common: &Common<'_>, listing: &mut Listing) -> (result:
    Result<(), ProtocolError>)
    requires
        old(listing).wf(),
        old(listing)@.candidates.len() <= 65_536,
    ensures
        match read_registered(common@, old(listing)@, old(reader).rest()) {
            Ok((progress, rest)) => {
                &&& result is Ok
                &&& final(listing)@ == progress
                &&& final(listing).wf()
                &&& final(reader).rest() == rest
            },
            Err(error) => result == Err::<(), ProtocolError>(error),
        },
{
    let public_id: i64 = reader.i64()?;
    let count: usize = listing.public_ids.len();
    if public_id <= 0 || (count > 0 && listing.public_ids[count - 1] >= public_id) {
        return Err(ProtocolError::RegisteredIdOrder);
    }
    listing.public_ids.push(public_id);
    let rows: u32 = reader.u32()?;
    let candidate_id: u32 = listing.candidates.len() as u32;
    assert(listing.wf()) by {
        assert(listing@.candidates =~= old(listing)@.candidates);
        assert forall|id: u32| #[trigger] listing.seen@.contains(id) <==> listing@.has(id) by {
            assert(listing@.has(id) == old(listing)@.has(id));
            assert(old(listing).seen@.contains(id) <==> old(listing)@.has(id));
        }
    }
    parse_compact(reader, common, listing, candidate_id, rows)
}

/// Whether `bytes` begin with `sha256:`.
fn starts_with_checksum(bytes: &[u8]) -> (result: bool)
    ensures
        result == checksum_prefix().is_prefix_of(bytes@),
{
    if bytes.len() < 7 {
        return false;
    }
    let result: bool = bytes[0] == 115 && bytes[1] == 104 && bytes[2] == 97 && bytes[3] == 50
        && bytes[4] == 53 && bytes[5] == 54 && bytes[6] == 58;
    proof {
        let head = bytes@.subrange(0, 7);
        if result {
            assert(head =~= checksum_prefix());
        } else if head =~= checksum_prefix() {
            assert(head[0] == 115 && head[1] == 104 && head[2] == 97 && head[3] == 50 && head[4] == 53
                && head[5] == 54 && head[6] == 58);
        }
    }
    result
}

/// Whether two byte strings are equal.
pub fn same_bytes(left: &[u8], right: &[u8]) -> (result: bool)
    ensures
        result == (left@ == right@),
{
    if left.len() != right.len() {
        return false;
    }
    let mut i: usize = 0;
    while i < left.len()
        invariant
            i <= left.len() == right.len(),
            forall|j: int| 0 <= j < i ==> left@[j] == right@[j],
        decreases left.len() - i,
    {
        if left[i] != right[i] {
            return false;
        }
        i += 1;
    }
    assert(left@ =~= right@);
    true
}

fn parse_reference(
    reader: &mut Reader<'_>,
    reference_bytes: u32,
    checksum_bytes: u32,
) -> (result: Result<String, ProtocolError>)
    ensures
        match read_reference(old(reader).rest(), reference_bytes, checksum_bytes) {
            Ok((digest, rest)) => result is Ok && result->Ok_0@ == digest && final(reader).rest()
                == rest,
            Err(error) => result == Err::<String, ProtocolError>(error),
        },
{
    let (reference, _) = reader.text(
        reference_bytes as usize,
        4096,
        TextField::TensorReference,
    )?;
    let (checksum, _) = reader.text(checksum_bytes as usize, 512, TextField::TensorChecksum)?;
    let prefixed: bool = starts_with_checksum(reference) && reference.len() >= 9 && reference[7] == 47
        && reference[8] == 47;
    proof {
        if prefixed {
            assert(reference@.subrange(0, 7) =~= checksum_prefix());
            assert forall|i: int| 0 <= i < 9 implies reference@[i] == reference_prefix()[i] by {
                if i < 7 {
                    assert(reference@.subrange(0, 7)[i] == checksum_prefix()[i]);
                }
            }
            assert(reference@.subrange(0, 9) =~= reference_prefix());
        } else if reference_prefix().is_prefix_of(reference@) {
            assert(reference@.subrange(0, 9) =~= reference_prefix());
            assert forall|i: int| 0 <= i < 9 implies reference@[i] == reference_prefix()[i] by {
                assert(reference@.subrange(0, 9)[i] == reference_prefix()[i]);
            }
            assert(reference@[7] == 47 && reference@[8] == 47);
            assert(reference@.subrange(0, 7) =~= checksum_prefix());
        }
    }
    if !prefixed {
        return Err(ProtocolError::UnsupportedTensorReference);
    }
    let digest: &[u8] = slice_subrange(reference, 9, reference.len());
    assert(digest@ =~= reference@.skip(9));
    if digest.len() != 64 || !lower_hex(digest) || !starts_with_checksum(checksum) || !same_bytes(
        slice_subrange(checksum, 7, checksum.len()),
        digest,
    ) {
        proof {
            let whole = checksum_prefix() + digest@;
            if checksum@ == whole {
                assert(whole.subrange(0, 7) =~= checksum_prefix());
                assert(whole.subrange(7, whole.len() as int) =~= digest@);
            }
        }
        return Err(ProtocolError::InvalidTensorDescriptor);
    }
    proof {
        assert(checksum@.subrange(0, 7) =~= checksum_prefix());
        assert(checksum@ =~= checksum@.subrange(0, 7) + checksum@.subrange(
            7,
            checksum@.len() as int,
        ));
        assert forall|i: int| 0 <= i < digest@.len() implies #[trigger] digest@[i] < 128 by {
            assert(crate::digest::is_lower_hex(digest@[i]));
        }
        lemma_ascii_is_utf8(digest@);
    }
    match utf8_text(digest) {
        Ok(text) => Ok(text.to_owned()),
        Err(fault) => Err(ProtocolError::NotUtf8(fault)),
    }
}

fn count_candidate(
    common: &Common<'_>,
    listing: &mut Listing,
    candidate_id: u32,
    rows: u32,
    digest: String,
) -> (result: Result<(), ProtocolError>)
    requires
        old(listing).wf(),
    ensures
        match count_referenced(common@, old(listing)@, candidate_id, rows, digest@) {
            Ok(progress) => {
                &&& result is Ok
                &&& final(listing)@ == progress
                &&& final(listing).wf()
            },
            Err(error) => result == Err::<(), ProtocolError>(error),
        },
{
    let size: usize = tensor_bytes(rows, common.dimension, common.dtype)?;
    let tokens: usize = match listing.tokens.checked_add(rows as usize) {
        Some(tokens) => tokens,
        None => return Err(ProtocolError::TokenOverflow),
    };
    let bytes: usize = match listing.bytes.checked_add(size) {
        Some(bytes) => bytes,
        None => return Err(ProtocolError::ByteOverflow),
    };
    if common.version < VERSION_LOGICAL_EXTERNAL && (tokens > 1_000_000 || bytes > 1_073_741_824) {
        return Err(ProtocolError::TensorLimits);
    }
    listing.count(
        Descriptor {
            candidate_id,
            contract: common.contract.to_owned(),
            digest,
            rows,
            dimension: common.dimension,
            dtype: common.dtype,
        },
        size,
    );
    Ok(())
}

fn parse_candidate(reader: &mut Reader<'_>, common: &Common<'_>, listing: &mut Listing) -> (result:
    Result<(), ProtocolError>)
    requires
        old(listing).wf(),
        old(listing)@.candidates.len() <= 65_536,
    ensures
        match read_candidate(common@, old(listing)@, old(reader).rest()) {
            Ok((progress, rest)) => {
                &&& result is Ok
                &&& final(listing)@ == progress
                &&& final(listing).wf()
                &&& final(reader).rest() == rest
            },
            Err(error) => result == Err::<(), ProtocolError>(error),
        },
{
    if common.registration {
        return parse_registered(reader, common, listing);
    }
    let candidate_id: u32 = reader.u32()?;
    let rows: u32 = reader.u32()?;
    if common.version >= VERSION_COMPACT_LOGICAL_EXTERNAL {
        if listing.seen.contains(&candidate_id) {
            return Err(ProtocolError::DuplicateCandidate);
        }
        return parse_compact(reader, common, listing, candidate_id, rows);
    }
    let reference_bytes: u32 = reader.u32()?;
    let checksum_bytes: u32 = reader.u32()?;
    if listing.seen.contains(&candidate_id) {
        return Err(ProtocolError::DuplicateCandidate);
    }
    let digest: String = parse_reference(reader, reference_bytes, checksum_bytes)?;
    count_candidate(common, listing, candidate_id, rows, digest)
}

/// One more candidate is read with each step.
proof fn lemma_candidate_grows(shared: Shared, progress: Progress, rest: Seq<u8>)
    ensures
        match read_candidate(shared, progress, rest) {
            Ok((next, _)) => next.candidates.len() == progress.candidates.len() + 1,
            Err(_) => true,
        },
{
}

fn parse_candidates(
    reader: &mut Reader<'_>,
    common: &Common<'_>,
    listing: &mut Listing,
    count: u32,
) -> (result: Result<(), ProtocolError>)
    requires
        old(listing).wf(),
        old(listing)@.candidates.len() == 0,
        count <= 65_536,
    ensures
        match read_candidates(common@, count as nat, old(listing)@, old(reader).rest()) {
            Ok((progress, rest)) => {
                &&& result is Ok
                &&& final(listing)@ == progress
                &&& final(reader).rest() == rest
            },
            Err(error) => result == Err::<(), ProtocolError>(error),
        },
{
    let mut left: u32 = count;
    while left > 0
        invariant
            left <= count <= 65_536,
            listing.wf(),
            listing@.candidates.len() == count - left,
            read_candidates(common@, count as nat, old(listing)@, old(reader).rest())
                == read_candidates(common@, left as nat, listing@, reader.rest()),
        decreases left,
    {
        proof {
            lemma_candidate_grows(common@, listing@, reader.rest());
        }
        parse_candidate(reader, common, listing)?;
        left -= 1;
    }
    Ok(())
}

/// Parses a request frame.
#[verifier::rlimit(40)]
#[verifier::spinoff_prover]
pub fn parse(frame: &[u8]) -> (result: Result<Request, ProtocolError>)
    ensures
        match parse_frame(frame@) {
            Ok(request) => result is Ok && result->Ok_0@ == request,
            Err(error) => result == Err::<Request, ProtocolError>(error),
        },
{
    let (version, request_id) = parse_header(frame)?;
    let body: &[u8] = slice_subrange(frame, HEADER_BYTES, frame.len());
    assert(body@ =~= frame@.skip(HEADER_BYTES as int));
    let mut reader = Reader::new(body);
    let fixed: Fixed = parse_fixed(&mut reader, version)?;
    let labels: Labels = parse_names(&mut reader, version, &fixed)?;
    let query: Vec<u8> = parse_query(&mut reader, &fixed)?;
    let catalog: CatalogPart = parse_catalog(&mut reader, version, fixed.candidate_count)?;
    let candidate_dtype: u8 = if fixed.storage_dtype == 0 {
        fixed.dtype
    } else {
        fixed.storage_dtype
    };
    let count: u32 = if catalog.manifest.is_some() || (catalog.catalog.is_some()
        && !catalog.registration) {
        0
    } else {
        fixed.candidate_count
    };
    let ghost catalog_view = catalog@;
    let mut listing = Listing {
        candidates: Vec::new(),
        public_ids: catalog.public_ids,
        tokens: fixed.query_rows as usize,
        bytes: query.len(),
        seen: HashSet::new(),
    };
    assert(listing@.candidates =~= seq![]);
    let common = Common {
        version,
        registration: catalog.registration,
        contract: labels.contract.as_str(),
        dimension: fixed.dimension,
        dtype: fixed.dtype,
        candidate_dtype,
    };
    assert(listing@ == progress_of(fixed, query@, catalog_view));
    assert(common@ == shared_of(version, fixed, labels@, catalog_view));
    parse_candidates(&mut reader, &common, &mut listing, count)?;
    reader.finish()?;
    let candidates: Arc<Vec<Descriptor>> = Arc::new(listing.candidates);
    let candidate_end: usize = candidates.len();
    Ok(
        Request {
            protocol_version: version,
            request_id,
            tenant: labels.tenant,
            model_contract: labels.contract,
            priority: fixed.priority,
            timeout_ms: fixed.timeout_ms,
            query_rows: fixed.query_rows,
            dimension: fixed.dimension,
            dtype: fixed.dtype,
            candidate_dtype,
            scoring_profile: fixed.profile,
            quantization_contract: labels.quantization,
            top_k: match fixed.top_k {
                Some(top_k) => Some(top_k as usize),
                None => None,
            },
            query,
            candidates,
            candidate_start: 0,
            candidate_end,
            manifest_digest: catalog.manifest,
            catalog_digest: catalog.catalog,
            catalog_selection_digest: catalog.selection,
            catalog_public_ids: listing.public_ids,
            catalog_registration: catalog.registration,
            scoped_candidate_ordinals: catalog.ordinals,
        },
    )
}

/// The header of a response frame with a body of `body_bytes` bytes.
pub open spec fn response_header(version: u16, request_id: u64, body_bytes: u64) -> Seq<u8> {
    magic() + le16(version) + le16(RESPONSE_KIND) + le64(request_id) + le64(body_bytes)
}

/// Scores on the wire: the candidate's ID, then the bits of its score.
pub open spec fn score_bytes(results: Seq<(u32, u32)>) -> Seq<u8>
    decreases results.len(),
{
    if results.len() == 0 {
        seq![]
    } else {
        score_bytes(results.drop_last()) + le32(results.last().0) + le32(results.last().1)
    }
}

/// The frame that answers a request with scores.
pub open spec fn success_frame(version: u16, request_id: u64, results: Seq<(u32, u32)>) -> Seq<u8> {
    response_header(version, request_id, (8 + 8 * results.len()) as u64) + le32(0) + le32(
        results.len() as u32,
    ) + score_bytes(results)
}

fn put_header(frame: &mut Vec<u8>, version: u16, request_id: u64, body_bytes: u64)
    ensures
        final(frame)@ == old(frame)@ + response_header(version, request_id, body_bytes),
{
    frame.push(86);
    frame.push(67);
    frame.push(84);
    frame.push(77);
    assert(frame@ =~= old(frame)@ + magic());
    put_u16(frame, version);
    put_u16(frame, RESPONSE_KIND);
    put_u64(frame, request_id);
    put_u64(frame, body_bytes);
    assert(frame@ =~= old(frame)@ + response_header(version, request_id, body_bytes));
}

/// Answers a request with scores. A result is a candidate's ID and the bits of
/// its 32-bit float score.
pub fn success(version: u16, request_id: u64, results: &[(u32, u32)]) -> (frame: Vec<u8>)
    requires
        results@.len() <= u32::MAX,
        8 * results@.len() + 32 <= usize::MAX,
    ensures
        frame@ == success_frame(version, request_id, results@),
{
    let body_bytes: usize = 8 + results.len() * 8;
    let mut frame: Vec<u8> = Vec::with_capacity(HEADER_BYTES + body_bytes);
    put_header(&mut frame, version, request_id, body_bytes as u64);
    put_u32(&mut frame, 0);
    put_u32(&mut frame, results.len() as u32);
    let ghost head = frame@;
    let mut i: usize = 0;
    assert(results@.take(0) =~= seq![]);
    assert(frame@ =~= head + score_bytes(results@.take(0)));
    while i < results.len()
        invariant
            i <= results.len(),
            frame@ == head + score_bytes(results@.take(i as int)),
        decreases results.len() - i,
    {
        put_u32(&mut frame, results[i].0);
        put_u32(&mut frame, results[i].1);
        i += 1;
        proof {
            let part = results@.take(i as int);
            assert(part.drop_last() =~= results@.take(i - 1));
            assert(frame@ =~= head + score_bytes(part));
        }
    }
    assert(results@.take(i as int) =~= results@);
    assert(frame@ =~= success_frame(version, request_id, results@));
    frame
}

/// The first 64 KiB of a message.
pub open spec fn clipped(message: Seq<u8>) -> Seq<u8> {
    if message.len() > 65_536 {
        message.take(65_536)
    } else {
        message
    }
}

/// The frame that answers a request with a failure. Its status is not zero.
pub open spec fn failure_frame(
    version: u16,
    request_id: u64,
    status: u32,
    message: Seq<u8>,
) -> Seq<u8> {
    let message = clipped(message);
    response_header(version, request_id, (8 + message.len()) as u64) + le32(
        if status == 0 {
            1
        } else {
            status
        },
    ) + le32(message.len() as u32) + message
}

/// Answers a request with a failure.
pub fn failure(version: u16, request_id: u64, status: u32, message: &str) -> (frame: Vec<u8>)
    ensures
        frame@ == failure_frame(version, request_id, status, encode_utf8(message@)),
{
    let whole: &[u8] = message.as_bytes();
    let message: &[u8] = if whole.len() > 65_536 {
        slice_subrange(whole, 0, 65_536)
    } else {
        whole
    };
    assert(message@ =~= clipped(whole@));
    let body_bytes: usize = 8 + message.len();
    let mut frame: Vec<u8> = Vec::with_capacity(HEADER_BYTES + body_bytes);
    put_header(&mut frame, version, request_id, body_bytes as u64);
    put_u32(&mut frame, if status == 0 {
        1
    } else {
        status
    });
    put_u32(&mut frame, message.len() as u32);
    put_bytes(&mut frame, message);
    frame
}

/// Scores stand on the wire one behind the other: the candidate, then its score.
pub proof fn scores_stand_in_order(results: Seq<(u32, u32)>, i: int)
    requires
        0 <= i < results.len(),
    ensures
        score_bytes(results).len() == 8 * results.len(),
        of32(score_bytes(results).subrange(8 * i, 8 * i + 4)) == results[i].0,
        of32(score_bytes(results).subrange(8 * i + 4, 8 * i + 8)) == results[i].1,
    decreases results.len(),
{
    let head = results.drop_last();
    lemma_score_bytes(results);
    lemma_score_bytes(head);
    let bytes = score_bytes(results);
    let before = score_bytes(head);
    if i < head.len() {
        scores_stand_in_order(head, i);
        assert(bytes.subrange(8 * i, 8 * i + 4) =~= before.subrange(8 * i, 8 * i + 4));
        assert(bytes.subrange(8 * i + 4, 8 * i + 8) =~= before.subrange(8 * i + 4, 8 * i + 8));
    } else {
        assert(bytes.subrange(8 * i, 8 * i + 4) =~= le32(results[i].0));
        assert(bytes.subrange(8 * i + 4, 8 * i + 8) =~= le32(results[i].1));
        crate::bytes::lemma_of32_le32(results[i].0);
        crate::bytes::lemma_of32_le32(results[i].1);
    }
}

proof fn lemma_score_bytes(results: Seq<(u32, u32)>)
    ensures
        score_bytes(results).len() == 8 * results.len(),
    decreases results.len(),
{
    if results.len() > 0 {
        lemma_score_bytes(results.drop_last());
    }
}

/// Numbers are finite where their magnitude is below that of infinity.
pub proof fn finite_numbers_are_below_infinity(single: u32, half: u16, byte: u8)
    ensures
        finite32(single) <==> single % 0x8000_0000 < 0x7f80_0000,
        finite16(half) <==> half % 0x8000 < 0x7c00,
        finite8(byte) <==> byte % 0x80 < 0x7f,
{
}

/// A tensor has a size exactly where it has rows and a dimension up to 60000 of a known
/// kind of numbers, and that size is theirs.
pub proof fn sizes_are_of_the_shape(rows: u32, dimension: u32, dtype: u8)
    ensures
        ({
            let bytes = rows * dimension * (if dtype == 1 {
                4int
            } else if dtype == 2 {
                2
            } else {
                1
            });
            &&& tensor_size(rows, dimension, dtype) is Ok <==> 1 <= dtype <= 3 && rows > 0 && 0
                < dimension <= 60000 && bytes <= usize::MAX
            &&& tensor_size(rows, dimension, dtype) is Ok ==> tensor_size(rows, dimension, dtype)->Ok_0
                == bytes
        }),
{
    assert(rows * dimension >= 0) by (nonlinear_arith);
}

/// A message is cut after 64 KiB, and not before.
pub proof fn long_messages_are_cut(message: Seq<u8>)
    ensures
        clipped(message).len() == vstd::math::min(message.len() as int, 65536),
        clipped(message) == message.take(clipped(message).len() as int),
{
    assert(message.take(message.len() as int) =~= message);
}

/// A request that is read has a query with the bytes of its shape, and all its numbers are
/// finite.
pub proof fn queries_that_are_read_are_finite(frame: Seq<u8>, i: int)
    requires
        parse_frame(frame) is Ok,
    ensures
        ({
            let request = parse_frame(frame)->Ok_0;
            let numbers = request.query_rows * request.dimension;
            let query = request.query;
            &&& request.query_rows > 0
            &&& 0 < request.dimension <= 60000
            &&& 1 <= request.dtype <= 3
            &&& request.dtype == 1 ==> query.len() == 4 * numbers && (0 <= i < numbers ==> of32(
                query.subrange(4 * i, 4 * i + 4),
            ) % 0x8000_0000 < 0x7f80_0000)
            &&& request.dtype == 2 ==> query.len() == 2 * numbers && (0 <= i < numbers ==> of16(
                query.subrange(2 * i, 2 * i + 2),
            ) % 0x8000 < 0x7c00)
            &&& request.dtype == 3 ==> query.len() == numbers && (0 <= i < numbers ==> query[i] % 0x80
                < 0x7f)
        }),
{
    let request = parse_frame(frame)->Ok_0;
    let query = request.query;
    sizes_are_of_the_shape(request.query_rows, request.dimension, request.dtype);
    assert(finite_payload(query, request.dtype));
    assert(query.len() == tensor_size(
        request.query_rows,
        request.dimension,
        request.dtype,
    )->Ok_0);
    if request.dtype == 1 && 0 <= i < request.query_rows * request.dimension {
        assert(finite32(of32(query.subrange(4 * i, 4 * i + 4))));
        finite_numbers_are_below_infinity(of32(query.subrange(4 * i, 4 * i + 4)), 0, 0);
    }
    if request.dtype == 2 && 0 <= i < request.query_rows * request.dimension {
        assert(finite16(of16(query.subrange(2 * i, 2 * i + 2))));
        finite_numbers_are_below_infinity(0, of16(query.subrange(2 * i, 2 * i + 2)), 0);
    }
    if request.dtype == 3 && 0 <= i < request.query_rows * request.dimension {
        assert(finite8(query[i]));
    }
}

/// Whether candidates have different IDs, and each has rows.
pub open spec fn candidates_differ(candidates: Seq<DescriptorView>) -> bool {
    &&& forall|i: int| 0 <= i < candidates.len() ==> (#[trigger] candidates[i]).rows > 0
    &&& forall|i: int, j: int|
        0 <= i < j < candidates.len() ==> (#[trigger] candidates[i]).candidate_id != (
        #[trigger] candidates[j]).candidate_id
}

/// The candidates that a request lists one by one have different IDs, rows, and the
/// dimension and the contract of the request, and there are as many as it says.
pub proof fn listed_candidates_differ(
    shared: Shared,
    left: nat,
    progress: Progress,
    rest: Seq<u8>,
)
    requires
        !shared.registration,
        candidates_differ(progress.candidates),
        read_candidates(shared, left, progress, rest) is Ok,
    ensures
        ({
            let after = (read_candidates(shared, left, progress, rest)->Ok_0).0;
            &&& candidates_differ(after.candidates)
            &&& after.candidates.len() == progress.candidates.len() + left
            &&& forall|i: int|
                progress.candidates.len() <= i < after.candidates.len() ==> (
                #[trigger] after.candidates[i]).dimension == shared.dimension
                    && after.candidates[i].contract == shared.contract
            &&& forall|i: int|
                0 <= i < progress.candidates.len() ==> #[trigger] after.candidates[i]
                    == progress.candidates[i]
        }),
    decreases left,
{
    if left > 0 {
        let (next, rest) = read_candidate(shared, progress, rest)->Ok_0;
        let added = next.candidates.last();
        assert(next.candidates == progress.candidates.push(added));
        assert(added.rows > 0);
        assert(!progress.has(added.candidate_id));
        assert forall|i: int, j: int| 0 <= i < j < next.candidates.len() implies (
        #[trigger] next.candidates[i]).candidate_id != (
        #[trigger] next.candidates[j]).candidate_id by {
            assert(next.candidates[i] == progress.candidates[i]);
        }
        listed_candidates_differ(shared, (left - 1) as nat, next, rest);
        let after = (read_candidates(shared, (left - 1) as nat, next, rest)->Ok_0).0;
        assert(after.candidates[progress.candidates.len() as int] == added);
    }
}

} // verus!
