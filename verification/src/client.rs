//! Client-side builders for the wire contract.
//!
//! Applications normally use the SQL API. This module exists for components
//! that speak to the daemon: it keeps frame layout, catalog digests, response
//! validation and error classification out of callers.

use crate::bytes::{
    le16, le32, le64, of16, of32, of64, put_bytes, put_u16, put_u32, put_u64, to_unsigned32, to_unsigned64,
    u16_at, u32_at, u64_at, unsigned32, unsigned64,
};
use crate::digest::{sha256, sha256_digest};
use crate::protocol::{finite32, magic};
use crate::text::{
    append_decimal, contains_control, contract_id, decimal_text, has_control, is_contract_id, utf8_text,
};
use vstd::prelude::*;
use vstd::slice::slice_subrange;
use vstd::string::StringExecFns;
use vstd::utf8::{decode_utf8, encode_utf8, valid_utf8};

verus! {

pub const HEADER_BYTES: usize = 24;

pub const VERSION_CATALOG_LOGICAL_EXTERNAL: u16 = 10;

pub const VERSION_CATALOG_SELECTION_REFERENCE: u16 = 11;

pub const VERSION_SCOPED_CATALOG_SELECTION_REFERENCE: u16 = 12;

pub const VERSION_PERSISTENT_SCOPED_CATALOG_SELECTION_REFERENCE: u16 = 13;

pub const VERSION_PERSISTENT_CATALOG_SELECTION_REFERENCE: u16 = 14;

pub const REQUEST_KIND: u16 = 1;

pub const RESPONSE_KIND: u16 = 2;

pub const MAX_CANDIDATES: usize = 65_536;

pub const MAX_MODEL_CONTRACT_BYTES: usize = 512;

pub const MAX_TENANT_BYTES: usize = 256;

pub const MAX_RESPONSE_BYTES: usize = 67_108_864;

pub const MAX_REMOTE_ERROR_BYTES: usize = 65_536;

/// The scalar type of a tensor.
#[derive(Clone, Copy, Debug, PartialEq, Eq, Structural)]
pub enum TensorDtype {
    Float32,
    Float16,
    Fp8E4m3,
}

impl TensorDtype {
    pub open spec fn code_of(self) -> u8 {
        match self {
            TensorDtype::Float32 => 1,
            TensorDtype::Float16 => 2,
            TensorDtype::Fp8E4m3 => 3,
        }
    }

    pub open spec fn scalar_size(self) -> nat {
        match self {
            TensorDtype::Float32 => 4,
            TensorDtype::Float16 => 2,
            TensorDtype::Fp8E4m3 => 1,
        }
    }

    /// The code of the type on the wire.
    pub fn code(self) -> (code: u8)
        ensures
            code == self.code_of(),
    {
        match self {
            TensorDtype::Float32 => 1,
            TensorDtype::Float16 => 2,
            TensorDtype::Fp8E4m3 => 3,
        }
    }

    /// The bytes of one scalar.
    pub fn scalar_bytes(self) -> (size: usize)
        ensures
            size == self.scalar_size(),
    {
        match self {
            TensorDtype::Float32 => 4,
            TensorDtype::Float16 => 2,
            TensorDtype::Fp8E4m3 => 1,
        }
    }
}

/// How candidate tensors are stored and scored.
#[derive(Clone, Copy, Debug, PartialEq, Eq, Structural)]
pub enum ScoringProfile {
    ExactFp16,
    Int8RowScaled,
    Fp8E4m3RowScaled,
    Pq,
    OpqRpq,
    Fp8E4m3Raw,
}

impl ScoringProfile {
    pub open spec fn code_of(self) -> u8 {
        match self {
            ScoringProfile::ExactFp16 => 1,
            ScoringProfile::Int8RowScaled => 2,
            ScoringProfile::Fp8E4m3RowScaled => 3,
            ScoringProfile::Pq => 4,
            ScoringProfile::OpqRpq => 5,
            ScoringProfile::Fp8E4m3Raw => 6,
        }
    }

    /// The code of the profile on the wire.
    pub fn code(self) -> (code: u8)
        ensures
            code == self.code_of(),
    {
        match self {
            ScoringProfile::ExactFp16 => 1,
            ScoringProfile::Int8RowScaled => 2,
            ScoringProfile::Fp8E4m3RowScaled => 3,
            ScoringProfile::Pq => 4,
            ScoringProfile::OpqRpq => 5,
            ScoringProfile::Fp8E4m3Raw => 6,
        }
    }

    /// Whether the profile needs a trained quantizer.
    pub open spec fn is_quantized(self) -> bool {
        self is Pq || self is OpqRpq
    }
}

/// A tensor of a catalog.
#[derive(Clone, Copy, Debug, PartialEq, Eq)]
pub struct CatalogDescriptor {
    pub public_id: i64,
    pub rows: u32,
    /// Raw SHA-256 digest bytes of the immutable tensor object.
    pub digest: [u8; 32],
}

/// What a catalog request asks for, whatever candidates it names.
#[derive(Clone, Debug)]
pub struct CatalogRequest<'a> {
    pub request_id: u64,
    pub model_contract: &'a str,
    pub tenant: &'a str,
    pub priority: i32,
    pub timeout_ms: u32,
    pub query_rows: u32,
    pub dimension: u32,
    pub query_dtype: TensorDtype,
    pub candidate_dtype: TensorDtype,
    pub scoring_profile: ScoringProfile,
    pub quantization_contract: Option<&'a str>,
    pub top_k: usize,
    pub query: &'a [u8],
    /// Stable catalog revision. The wire carries its SHA-256 digest.
    pub catalog_revision: &'a str,
}

/// A catalog request, with its texts as the bytes that go over the wire.
pub struct CatalogRequestView {
    pub request_id: u64,
    pub model_contract: Seq<char>,
    pub tenant: Seq<char>,
    pub priority: i32,
    pub timeout_ms: u32,
    pub query_rows: u32,
    pub dimension: u32,
    pub query_dtype: TensorDtype,
    pub candidate_dtype: TensorDtype,
    pub scoring_profile: ScoringProfile,
    pub quantization_contract: Option<Seq<char>>,
    pub top_k: nat,
    pub query: Seq<u8>,
    pub catalog_revision: Seq<char>,
}

impl<'a> View for CatalogRequest<'a> {
    type V = CatalogRequestView;

    open spec fn view(&self) -> CatalogRequestView {
        CatalogRequestView {
            request_id: self.request_id,
            model_contract: self.model_contract@,
            tenant: self.tenant@,
            priority: self.priority,
            timeout_ms: self.timeout_ms,
            query_rows: self.query_rows,
            dimension: self.dimension,
            query_dtype: self.query_dtype,
            candidate_dtype: self.candidate_dtype,
            scoring_profile: self.scoring_profile,
            quantization_contract: match self.quantization_contract {
                Some(contract) => Some(contract@),
                None => None,
            },
            top_k: self.top_k as nat,
            query: self.query@,
            catalog_revision: self.catalog_revision@,
        }
    }
}

impl CatalogRequestView {
    /// The bytes of the quantization contract, none where there is no contract.
    pub open spec fn quantization_bytes(self) -> Seq<u8> {
        match self.quantization_contract {
            Some(contract) => encode_utf8(contract),
            None => seq![],
        }
    }

    /// The storage dtype on the wire: zero where it is the dtype of the query.
    pub open spec fn storage_code(self) -> u8 {
        if self.query_dtype == self.candidate_dtype {
            0
        } else {
            self.candidate_dtype.code_of()
        }
    }
}

/// A score. The similarity is the bits of a 32-bit float.
#[derive(Clone, Copy, Debug, PartialEq, Eq, Structural)]
pub struct Score {
    pub candidate_id: u32,
    pub similarity_bits: u32,
}

#[derive(Clone, Debug, PartialEq, Eq)]
pub struct ScoreResponse {
    pub protocol_version: u16,
    pub request_id: u64,
    pub scores: Vec<Score>,
}

pub struct ScoreResponseView {
    pub protocol_version: u16,
    pub request_id: u64,
    pub scores: Seq<Score>,
}

impl View for ScoreResponse {
    type V = ScoreResponseView;

    open spec fn view(&self) -> ScoreResponseView {
        ScoreResponseView {
            protocol_version: self.protocol_version,
            request_id: self.request_id,
            scores: self.scores@,
        }
    }
}

/// Why a request cannot be built or a response holds no scores.
#[derive(Clone, Debug, PartialEq, Eq)]
pub enum SdkError {
    InvalidRequest(&'static str),
    InvalidResponse(&'static str),
    CatalogMiss,
    ManifestMiss,
    Remote { status: u32, message: String },
}

/// An error, with its texts as sequences of characters.
pub enum SdkErrorView {
    InvalidRequest(Seq<char>),
    InvalidResponse(Seq<char>),
    CatalogMiss,
    ManifestMiss,
    Remote { status: u32, message: Seq<char> },
}

impl View for SdkError {
    type V = SdkErrorView;

    open spec fn view(&self) -> SdkErrorView {
        match *self {
            SdkError::InvalidRequest(message) => SdkErrorView::InvalidRequest(message@),
            SdkError::InvalidResponse(message) => SdkErrorView::InvalidResponse(message@),
            SdkError::CatalogMiss => SdkErrorView::CatalogMiss,
            SdkError::ManifestMiss => SdkErrorView::ManifestMiss,
            SdkError::Remote { status, message } => SdkErrorView::Remote {
                status,
                message: message@,
            },
        }
    }
}

/// An error in words.
pub open spec fn error_text(error: SdkErrorView) -> Seq<char> {
    match error {
        SdkErrorView::InvalidRequest(message) => message,
        SdkErrorView::InvalidResponse(message) => message,
        SdkErrorView::CatalogMiss => "descriptor catalog miss"@,
        SdkErrorView::ManifestMiss => "descriptor manifest miss"@,
        SdkErrorView::Remote { status, message } => "TileMaxSim status "@ + decimal_text(
            status as nat,
        ) + ": "@ + message,
    }
}

impl SdkError {
    /// The error in words.
    pub fn message(&self) -> (text: String)
        ensures
            text@ == error_text(self@),
    {
        match self {
            SdkError::InvalidRequest(message) => (*message).to_owned(),
            SdkError::InvalidResponse(message) => (*message).to_owned(),
            SdkError::CatalogMiss => "descriptor catalog miss".to_owned(),
            SdkError::ManifestMiss => "descriptor manifest miss".to_owned(),
            SdkError::Remote { status, message } => {
                let mut text: String = "TileMaxSim status ".to_owned();
                append_decimal(&mut text, *status as u64);
                text.append(": ");
                text.append(message.as_str());
                text
            },
        }
    }
}

/// The digest of a catalog revision.
pub fn catalog_digest(revision: &str) -> (digest: [u8; 32])
    ensures
        digest@ == sha256(encode_utf8(revision@)),
{
    sha256_digest(revision.as_bytes())
}

/// Whether the IDs are positive and strictly increasing.
pub open spec fn increasing_ids(ids: Seq<i64>) -> bool {
    &&& forall|i: int| 0 <= i < ids.len() ==> #[trigger] ids[i] > 0
    &&& forall|i: int, j: int| 0 <= i < j < ids.len() ==> #[trigger] ids[i] < #[trigger] ids[j]
}

/// What is wrong with a list of public IDs.
pub open spec fn ids_fault(ids: Seq<i64>) -> Option<Seq<char>> {
    if ids.len() == 0 || ids.len() > MAX_CANDIDATES {
        Some("catalog public IDs must be nonempty and bounded"@)
    } else if !increasing_ids(ids) {
        Some("catalog public IDs must be positive and strictly increasing"@)
    } else {
        None
    }
}

/// Refuses a list of public IDs that is empty, too long or not increasing.
pub fn validate_public_ids(public_ids: &[i64]) -> (result: Result<(), SdkError>)
    ensures
        match ids_fault(public_ids@) {
            None => result is Ok,
            Some(message) => result is Err && result->Err_0@ == SdkErrorView::InvalidRequest(
                message,
            ),
        },
{
    if public_ids.is_empty() || public_ids.len() > MAX_CANDIDATES {
        return Err(SdkError::InvalidRequest("catalog public IDs must be nonempty and bounded"));
    }
    let mut previous: i64 = 0;
    let mut i: usize = 0;
    while i < public_ids.len()
        invariant
            i <= public_ids.len(),
            0 < public_ids@.len() <= MAX_CANDIDATES,
            previous == if i == 0 {
                0
            } else {
                public_ids@[i - 1]
            },
            increasing_ids(public_ids@.take(i as int)),
        decreases public_ids.len() - i,
    {
        let current: i64 = public_ids[i];
        if current <= previous {
            proof {
                if i > 0 {
                    assert(public_ids@[i - 1] >= public_ids@[i as int]);
                }
            }
            return Err(
                SdkError::InvalidRequest(
                    "catalog public IDs must be positive and strictly increasing",
                ),
            );
        }
        proof {
            let before = public_ids@.take(i as int);
            let after = public_ids@.take(i + 1);
            assert forall|a: int, b: int| 0 <= a < b < after.len() implies #[trigger] after[a]
                < #[trigger] after[b] by {
                if b < i {
                    assert(before[a] < before[b]);
                } else if a < i - 1 {
                    assert(before[a] < before[i - 1]);
                }
            }
            assert forall|a: int| 0 <= a < after.len() implies #[trigger] after[a] > 0 by {
                if a < i {
                    assert(before[a] > 0);
                } else if i > 0 {
                    assert(before[i - 1] > 0);
                }
            }
        }
        previous = current;
        i += 1;
    }
    assert(public_ids@.take(i as int) =~= public_ids@);
    Ok(())
}

/// The bytes of public IDs, eight for each.
pub open spec fn id_bytes(ids: Seq<i64>) -> Seq<u8>
    decreases ids.len(),
{
    if ids.len() == 0 {
        seq![]
    } else {
        id_bytes(ids.drop_last()) + le64(unsigned64(ids.last()))
    }
}

/// The digest of a selection of public IDs.
pub fn selection_digest(public_ids: &[i64]) -> (result: Result<[u8; 32], SdkError>)
    ensures
        match ids_fault(public_ids@) {
            None => result is Ok && result->Ok_0@ == sha256(id_bytes(public_ids@)),
            Some(message) => result is Err && result->Err_0@ == SdkErrorView::InvalidRequest(
                message,
            ),
        },
{
    validate_public_ids(public_ids)?;
    let mut data: Vec<u8> = Vec::new();
    let mut i: usize = 0;
    assert(data@ =~= id_bytes(public_ids@.take(0)));
    while i < public_ids.len()
        invariant
            i <= public_ids.len(),
            data@ == id_bytes(public_ids@.take(i as int)),
        decreases public_ids.len() - i,
    {
        put_u64(&mut data, to_unsigned64(public_ids[i]));
        i += 1;
        assert(public_ids@.take(i as int).drop_last() =~= public_ids@.take(i - 1));
    }
    assert(public_ids@.take(i as int) =~= public_ids@);
    Ok(sha256_digest(&data))
}

/// Whether a text is neither empty nor longer than `maximum` bytes and holds no
/// control code.
pub open spec fn text_allowed(text: Seq<char>, maximum: nat) -> bool {
    &&& text.len() > 0
    &&& encode_utf8(text).len() <= maximum
    &&& !has_control(text)
}

/// Refuses, with the given message, a text that is not allowed.
pub fn validate_text(value: &str, maximum: usize, message: &'static str) -> (result: Result<
    (),
    SdkError,
>)
    ensures
        result is Ok <==> text_allowed(value@, maximum as nat),
        result is Err ==> result->Err_0@ == SdkErrorView::InvalidRequest(message@),
{
    if value.is_empty() || value.as_bytes().len() > maximum || contains_control(value) {
        Err(SdkError::InvalidRequest(message))
    } else {
        Ok(())
    }
}

/// What is wrong with a request for `count` candidates.
pub open spec fn request_fault(request: CatalogRequestView, count: nat) -> Option<Seq<char>> {
    let size = request.query_rows * request.dimension * request.query_dtype.scalar_size();
    if count == 0 || count > MAX_CANDIDATES {
        Some("candidate set must be nonempty and bounded"@)
    } else if !text_allowed(request.model_contract, MAX_MODEL_CONTRACT_BYTES as nat) {
        Some("model contract is invalid"@)
    } else if !text_allowed(request.tenant, MAX_TENANT_BYTES as nat) {
        Some("tenant is invalid"@)
    } else if !(-100 <= request.priority <= 100) || !(1 <= request.timeout_ms <= 600_000) {
        Some("scheduler priority or timeout is invalid"@)
    } else if request.query_rows == 0 || request.dimension == 0 || request.dimension > 60_000 {
        Some("query tensor shape is invalid"@)
    } else if size > usize::MAX {
        Some("query tensor size overflow"@)
    } else if request.query.len() != size {
        Some("query payload disagrees with its shape and dtype"@)
    } else if request.top_k == 0 || request.top_k > count || request.top_k > u32::MAX {
        Some("top_k must be between one and candidate count"@)
    } else if request.scoring_profile.is_quantized() != request.quantization_contract is Some {
        Some("PQ profiles require exactly one quantization contract"@)
    } else if request.quantization_contract is Some && !is_contract_id(
        request.quantization_bytes(),
    ) {
        Some("quantization contract is invalid"@)
    } else if request.catalog_revision.len() == 0 {
        Some("catalog revision must not be empty"@)
    } else {
        None
    }
}

/// Refuses a request that the daemon would refuse.
pub fn validate_request(request: &CatalogRequest<'_>, candidate_count: usize) -> (result: Result<
    (),
    SdkError,
>)
    ensures
        match request_fault(request@, candidate_count as nat) {
            None => result is Ok,
            Some(message) => result is Err && result->Err_0@ == SdkErrorView::InvalidRequest(
                message,
            ),
        },
{
    if candidate_count == 0 || candidate_count > MAX_CANDIDATES {
        return Err(SdkError::InvalidRequest("candidate set must be nonempty and bounded"));
    }
    validate_text(request.model_contract, MAX_MODEL_CONTRACT_BYTES, "model contract is invalid")?;
    validate_text(request.tenant, MAX_TENANT_BYTES, "tenant is invalid")?;
    if request.priority < -100 || request.priority > 100 || request.timeout_ms < 1
        || request.timeout_ms > 600_000 {
        return Err(SdkError::InvalidRequest("scheduler priority or timeout is invalid"));
    }
    if request.query_rows == 0 || request.dimension == 0 || request.dimension > 60_000 {
        return Err(SdkError::InvalidRequest("query tensor shape is invalid"));
    }
    let rows: usize = request.query_rows as usize;
    let dimension: usize = request.dimension as usize;
    let scalar: usize = request.query_dtype.scalar_bytes();
    proof {
        assert(rows * dimension <= rows * dimension * scalar) by (nonlinear_arith)
            requires
                rows >= 0,
                dimension >= 0,
                scalar >= 1,
        ;
    }
    let scalars: usize = match rows.checked_mul(dimension) {
        Some(scalars) => scalars,
        None => return Err(SdkError::InvalidRequest("query tensor size overflow")),
    };
    let expected: usize = match scalars.checked_mul(scalar) {
        Some(expected) => expected,
        None => return Err(SdkError::InvalidRequest("query tensor size overflow")),
    };
    if request.query.len() != expected {
        return Err(SdkError::InvalidRequest("query payload disagrees with its shape and dtype"));
    }
    if request.top_k == 0 || request.top_k > candidate_count || request.top_k as u64 > u32::MAX as u64 {
        return Err(SdkError::InvalidRequest("top_k must be between one and candidate count"));
    }
    let pq: bool = match request.scoring_profile {
        ScoringProfile::Pq => true,
        ScoringProfile::OpqRpq => true,
        _ => false,
    };
    if pq != request.quantization_contract.is_some() {
        return Err(
            SdkError::InvalidRequest("PQ profiles require exactly one quantization contract"),
        );
    }
    if let Some(contract) = request.quantization_contract {
        if !contract_id(contract.as_bytes()) {
            return Err(SdkError::InvalidRequest("quantization contract is invalid"));
        }
    }
    if request.catalog_revision.is_empty() {
        return Err(SdkError::InvalidRequest("catalog revision must not be empty"));
    }
    Ok(())
}

/// A request frame: the header, then the body.
pub open spec fn request_frame(version: u16, request_id: u64, body: Seq<u8>) -> Seq<u8> {
    magic() + le16(version) + le16(REQUEST_KIND) + le64(request_id) + le64(body.len() as u64) + body
}

/// The fixed-width fields that begin the body of a catalog request.
pub open spec fn fixed_bytes(request: CatalogRequestView, count: nat) -> Seq<u8> {
    le32(request.dimension) + le32(request.query_rows) + le32(count as u32) + seq![
        request.query_dtype.code_of(),
        1u8,
        request.scoring_profile.code_of(),
        request.storage_code(),
    ] + le32(encode_utf8(request.model_contract).len() as u32) + le32(
        request.quantization_bytes().len() as u32,
    ) + le32(unsigned32(request.priority)) + le32(request.timeout_ms) + le32(
        encode_utf8(request.tenant).len() as u32,
    ) + le32(request.top_k as u32)
}

/// What the bodies of all catalog requests begin with.
pub open spec fn prefix_bytes(request: CatalogRequestView, count: nat) -> Seq<u8> {
    fixed_bytes(request, count) + encode_utf8(request.model_contract)
        + request.quantization_bytes() + encode_utf8(request.tenant) + request.query
}

/// Whether the sizes of a request fit in a machine word together.
pub open spec fn prefix_fits(request: CatalogRequestView) -> bool {
    HEADER_BYTES + request.query.len() + encode_utf8(request.model_contract).len() + encode_utf8(
        request.tenant,
    ).len() + request.quantization_bytes().len() + 128 <= usize::MAX
}

/// Writes what the bodies of all catalog requests begin with.
pub fn common_prefix(request: &CatalogRequest<'_>, candidate_count: usize) -> (result: Result<
    Vec<u8>,
    SdkError,
>)
    requires
        request_fault(request@, candidate_count as nat) is None,
    ensures
        prefix_fits(request@) ==> result is Ok && result->Ok_0@ == prefix_bytes(
            request@,
            candidate_count as nat,
        ),
        !prefix_fits(request@) ==> result is Err && result->Err_0@ == SdkErrorView::InvalidRequest(
            "request size overflow"@,
        ),
{
    let model: &[u8] = request.model_contract.as_bytes();
    let tenant: &[u8] = request.tenant.as_bytes();
    let none: [u8; 0] = [];
    let quantization: &[u8] = match request.quantization_contract {
        Some(contract) => contract.as_bytes(),
        None => {
            assert(none@ =~= seq![]);
            none.as_slice()
        },
    };
    assert(quantization@ == request@.quantization_bytes());
    let texts: usize = HEADER_BYTES + model.len() + tenant.len() + 128;
    let labels: Option<usize> = texts.checked_add(quantization.len());
    let capacity: Option<usize> = match labels {
        Some(labels) => labels.checked_add(request.query.len()),
        None => None,
    };
    let capacity: usize = match capacity {
        Some(capacity) => capacity,
        None => return Err(SdkError::InvalidRequest("request size overflow")),
    };
    let mut body: Vec<u8> = Vec::with_capacity(capacity);
    put_u32(&mut body, request.dimension);
    put_u32(&mut body, request.query_rows);
    put_u32(&mut body, candidate_count as u32);
    body.push(request.query_dtype.code());
    body.push(1);
    body.push(request.scoring_profile.code());
    let storage: u8 = if request.query_dtype == request.candidate_dtype {
        0
    } else {
        request.candidate_dtype.code()
    };
    body.push(storage);
    put_u32(&mut body, model.len() as u32);
    put_u32(&mut body, quantization.len() as u32);
    put_u32(&mut body, to_unsigned32(request.priority));
    put_u32(&mut body, request.timeout_ms);
    put_u32(&mut body, tenant.len() as u32);
    put_u32(&mut body, request.top_k as u32);
    assert(body@ =~= fixed_bytes(request@, candidate_count as nat));
    put_bytes(&mut body, model);
    put_bytes(&mut body, quantization);
    put_bytes(&mut body, tenant);
    put_bytes(&mut body, request.query);
    Ok(body)
}

/// Puts the header in front of a body.
pub fn finish_frame(body: &[u8], version: u16, request_id: u64) -> (frame: Vec<u8>)
    ensures
        frame@ == request_frame(version, request_id, body@),
{
    let mut frame: Vec<u8> = Vec::new();
    frame.push(86);
    frame.push(67);
    frame.push(84);
    frame.push(77);
    assert(frame@ =~= magic());
    put_u16(&mut frame, version);
    put_u16(&mut frame, REQUEST_KIND);
    put_u64(&mut frame, request_id);
    put_u64(&mut frame, body.len() as u64);
    put_bytes(&mut frame, body);
    frame
}

/// A number as a variable-length integer: seven bits in each byte, the low ones
/// first, and the top bit set on every byte but the last.
pub open spec fn varint_bytes(value: nat) -> Seq<u8>
    decreases value,
{
    if value < 0x80 {
        seq![value as u8]
    } else {
        seq![(value % 0x80 + 0x80) as u8] + varint_bytes(value / 0x80)
    }
}

/// The distance of a value from the one before it, or from zero.
pub open spec fn delta_at(values: Seq<u64>, index: int) -> nat {
    if index == 0 {
        values[0] as nat
    } else {
        (values[index] - values[index - 1]) as nat
    }
}

/// The values from `index` on, each as its distance from the one before it.
pub open spec fn delta_bytes(values: Seq<u64>, index: int) -> Seq<u8>
    decreases values.len() - index,
{
    if index < 0 || index >= values.len() {
        seq![]
    } else {
        varint_bytes(delta_at(values, index)) + delta_bytes(values, index + 1)
    }
}

/// Whether the values are positive and strictly increasing.
pub open spec fn increasing_values(values: Seq<u64>) -> bool {
    &&& forall|i: int| 0 <= i < values.len() ==> #[trigger] values[i] > 0
    &&& forall|i: int, j: int|
        0 <= i < j < values.len() ==> #[trigger] values[i] < #[trigger] values[j]
}

/// Appends a number as a variable-length integer.
fn put_varint(out: &mut Vec<u8>, value: u64)
    ensures
        final(out)@ == old(out)@ + varint_bytes(value as nat),
{
    let mut left: u64 = value;
    while left >= 0x80
        invariant
            out@ + varint_bytes(left as nat) == old(out)@ + varint_bytes(value as nat),
        decreases left,
    {
        let ghost before = out@;
        let byte: u8 = (left % 0x80) as u8 + 0x80;
        out.push(byte);
        proof {
            assert(varint_bytes(left as nat) == seq![byte] + varint_bytes((left / 0x80) as nat));
            assert(out@ + varint_bytes((left / 0x80) as nat) =~= before + varint_bytes(left as nat));
        }
        left = left / 0x80;
    }
    let ghost before = out@;
    out.push(left as u8);
    assert(out@ =~= before + varint_bytes(left as nat));
}

/// Appends values, each as its distance from the one before it.
pub fn encode_delta_values(frame: &mut Vec<u8>, values: &[u64]) -> (result: Result<(), SdkError>)
    ensures
        increasing_values(values@) ==> result is Ok && final(frame)@ == old(frame)@ + delta_bytes(
            values@,
            0,
        ),
        !increasing_values(values@) ==> result is Err && result->Err_0@
            == SdkErrorView::InvalidRequest(
            "delta values must be positive and strictly increasing"@,
        ),
{
    let mut previous: u64 = 0;
    let mut i: usize = 0;
    while i < values.len()
        invariant
            i <= values.len(),
            previous == if i == 0 {
                0
            } else {
                values@[i - 1]
            },
            increasing_values(values@.take(i as int)),
            frame@ + delta_bytes(values@, i as int) == old(frame)@ + delta_bytes(values@, 0),
        decreases values.len() - i,
    {
        let current: u64 = values[i];
        if current <= previous {
            proof {
                if i > 0 {
                    assert(values@[i - 1] >= values@[i as int]);
                }
            }
            return Err(
                SdkError::InvalidRequest("delta values must be positive and strictly increasing"),
            );
        }
        let ghost before = frame@;
        put_varint(frame, current - previous);
        proof {
            assert(frame@ + delta_bytes(values@, i + 1) =~= before + delta_bytes(values@, i as int));
            let before = values@.take(i as int);
            let after = values@.take(i + 1);
            assert forall|a: int, b: int| 0 <= a < b < after.len() implies #[trigger] after[a]
                < #[trigger] after[b] by {
                if b < i {
                    assert(before[a] < before[b]);
                } else if a < i - 1 {
                    assert(before[a] < before[i - 1]);
                }
            }
            assert forall|a: int| 0 <= a < after.len() implies #[trigger] after[a] > 0 by {
                if a < i {
                    assert(before[a] > 0);
                }
            }
        }
        previous = current;
        i += 1;
    }
    assert(frame@ =~= frame@ + delta_bytes(values@, i as int));
    assert(values@.take(i as int) =~= values@);
    Ok(())
}

/// The public IDs of descriptors.
pub open spec fn ids_of(descriptors: Seq<CatalogDescriptor>) -> Seq<i64> {
    Seq::new(descriptors.len(), |i: int| descriptors[i].public_id)
}

/// The descriptors from `index` on: public ID, rows and digest of each.
pub open spec fn descriptor_bytes(descriptors: Seq<CatalogDescriptor>, index: int) -> Seq<u8>
    decreases descriptors.len() - index,
{
    if index < 0 || index >= descriptors.len() {
        seq![]
    } else {
        le64(unsigned64(descriptors[index].public_id)) + le32(descriptors[index].rows)
            + descriptors[index].digest@ + descriptor_bytes(descriptors, index + 1)
    }
}

/// The body that registers descriptors under a catalog digest.
pub open spec fn registration_body(
    request: CatalogRequestView,
    catalog: Seq<u8>,
    descriptors: Seq<CatalogDescriptor>,
) -> Seq<u8> {
    prefix_bytes(request, descriptors.len()) + seq![2u8] + catalog + descriptor_bytes(
        descriptors,
        0,
    )
}

/// What is wrong with a registration.
pub open spec fn registration_fault(
    request: CatalogRequestView,
    descriptors: Seq<CatalogDescriptor>,
) -> Option<Seq<char>> {
    if descriptors.len() == 0 || descriptors.len() > MAX_CANDIDATES {
        Some("catalog descriptors must be nonempty and bounded"@)
    } else if ids_fault(ids_of(descriptors)) is Some {
        ids_fault(ids_of(descriptors))
    } else if request_fault(request, descriptors.len()) is Some {
        request_fault(request, descriptors.len())
    } else if !prefix_fits(request) {
        Some("request size overflow"@)
    } else if exists|i: int| 0 <= i < descriptors.len() && (#[trigger] descriptors[i]).rows == 0 {
        Some("catalog descriptor rows must be positive"@)
    } else {
        None
    }
}

/// Encodes a catalog registration. Registration is additive for one immutable
/// catalog revision and is the fallback after a typed catalog miss.
pub fn encode_catalog_registration(
    request: &CatalogRequest<'_>,
    descriptors: &[CatalogDescriptor],
) -> (result: Result<Vec<u8>, SdkError>)
    ensures
        match registration_fault(request@, descriptors@) {
            None => result is Ok && result->Ok_0@ == request_frame(
                VERSION_CATALOG_LOGICAL_EXTERNAL,
                request.request_id,
                registration_body(
                    request@,
                    sha256(encode_utf8(request@.catalog_revision)),
                    descriptors@,
                ),
            ),
            Some(message) => result is Err && result->Err_0@ == SdkErrorView::InvalidRequest(
                message,
            ),
        },
{
    if descriptors.is_empty() || descriptors.len() > MAX_CANDIDATES {
        return Err(SdkError::InvalidRequest("catalog descriptors must be nonempty and bounded"));
    }
    let mut public_ids: Vec<i64> = Vec::new();
    let mut i: usize = 0;
    while i < descriptors.len()
        invariant
            i <= descriptors.len(),
            public_ids@ == ids_of(descriptors@).take(i as int),
        decreases descriptors.len() - i,
    {
        public_ids.push(descriptors[i].public_id);
        i += 1;
        assert(public_ids@ =~= ids_of(descriptors@).take(i as int));
    }
    assert(public_ids@ =~= ids_of(descriptors@));
    validate_public_ids(&public_ids)?;
    validate_request(request, descriptors.len())?;
    let mut body: Vec<u8> = common_prefix(request, descriptors.len())?;
    body.push(2);
    put_bytes(&mut body, &catalog_digest(request.catalog_revision));
    let ghost head = body@;
    let mut i: usize = 0;
    while i < descriptors.len()
        invariant
            i <= descriptors.len(),
            0 < descriptors@.len() <= MAX_CANDIDATES,
            ids_fault(ids_of(descriptors@)) is None,
            request_fault(request@, descriptors@.len()) is None,
            prefix_fits(request@),
            forall|j: int| 0 <= j < i ==> (#[trigger] descriptors@[j]).rows > 0,
            body@ + descriptor_bytes(descriptors@, i as int) == head + descriptor_bytes(
                descriptors@,
                0,
            ),
        decreases descriptors.len() - i,
    {
        let descriptor: &CatalogDescriptor = &descriptors[i];
        if descriptor.rows == 0 {
            assert(descriptors@[i as int].rows == 0);
            return Err(SdkError::InvalidRequest("catalog descriptor rows must be positive"));
        }
        let ghost before = body@;
        put_u64(&mut body, to_unsigned64(descriptor.public_id));
        put_u32(&mut body, descriptor.rows);
        put_bytes(&mut body, &descriptor.digest);
        proof {
            assert(body@ + descriptor_bytes(descriptors@, i + 1) =~= before + descriptor_bytes(
                descriptors@,
                i as int,
            ));
        }
        i += 1;
    }
    assert(body@ =~= body@ + descriptor_bytes(descriptors@, i as int));
    assert(body@ =~= registration_body(
        request@,
        sha256(encode_utf8(request@.catalog_revision)),
        descriptors@,
    ));
    Ok(finish_frame(&body, VERSION_CATALOG_LOGICAL_EXTERNAL, request.request_id))
}

/// Public IDs as unsigned numbers.
pub open spec fn id_values(ids: Seq<i64>) -> Seq<u64> {
    Seq::new(ids.len(), |i: int| ids[i] as u64)
}

/// The body that selects public IDs of a catalog.
pub open spec fn selection_body(request: CatalogRequestView, catalog: Seq<u8>, ids: Seq<i64>) -> Seq<u8> {
    prefix_bytes(request, ids.len()) + seq![1u8] + catalog + delta_bytes(id_values(ids), 0)
}

/// What is wrong with a selection.
pub open spec fn selection_fault(request: CatalogRequestView, ids: Seq<i64>) -> Option<Seq<char>> {
    if ids_fault(ids) is Some {
        ids_fault(ids)
    } else if request_fault(request, ids.len()) is Some {
        request_fault(request, ids.len())
    } else if !prefix_fits(request) {
        Some("request size overflow"@)
    } else {
        None
    }
}

/// Encodes an explicit selection. Use this to populate the daemon's bounded
/// selection cache after a reference miss.
pub fn encode_catalog_selection(request: &CatalogRequest<'_>, public_ids: &[i64]) -> (result: Result<
    Vec<u8>,
    SdkError,
>)
    ensures
        match selection_fault(request@, public_ids@) {
            None => result is Ok && result->Ok_0@ == request_frame(
                VERSION_CATALOG_LOGICAL_EXTERNAL,
                request.request_id,
                selection_body(
                    request@,
                    sha256(encode_utf8(request@.catalog_revision)),
                    public_ids@,
                ),
            ),
            Some(message) => result is Err && result->Err_0@ == SdkErrorView::InvalidRequest(
                message,
            ),
        },
{
    validate_public_ids(public_ids)?;
    validate_request(request, public_ids.len())?;
    let mut body: Vec<u8> = common_prefix(request, public_ids.len())?;
    body.push(1);
    put_bytes(&mut body, &catalog_digest(request.catalog_revision));
    let mut values: Vec<u64> = Vec::new();
    let mut i: usize = 0;
    while i < public_ids.len()
        invariant
            i <= public_ids.len(),
            increasing_ids(public_ids@),
            values@ == id_values(public_ids@).take(i as int),
        decreases public_ids.len() - i,
    {
        values.push(public_ids[i] as u64);
        i += 1;
        assert(values@ =~= id_values(public_ids@).take(i as int));
    }
    assert(values@ =~= id_values(public_ids@));
    encode_delta_values(&mut body, &values)?;
    assert(body@ =~= selection_body(
        request@,
        sha256(encode_utf8(request@.catalog_revision)),
        public_ids@,
    ));
    Ok(finish_frame(&body, VERSION_CATALOG_LOGICAL_EXTERNAL, request.request_id))
}

/// The ordinals of `scoped` within `ids`.
pub open spec fn ordinals_in(ids: Seq<i64>, scoped: Seq<i64>) -> Seq<u32> {
    Seq::new(scoped.len(), |i: int| ids.index_of(scoped[i]) as u32)
}

/// Whether every ID of `scoped` is one of `ids`.
pub open spec fn subset_of(ids: Seq<i64>, scoped: Seq<i64>) -> bool {
    forall|i: int| 0 <= i < scoped.len() ==> ids.contains(#[trigger] scoped[i])
}

/// What is wrong with a scope.
pub open spec fn scope_fault(ids: Seq<i64>, scoped: Seq<i64>) -> Option<Seq<char>> {
    if ids_fault(scoped) is Some {
        ids_fault(scoped)
    } else if !subset_of(ids, scoped) {
        Some("scoped public IDs must be a subset of candidates"@)
    } else {
        None
    }
}

/// Finds an ID among increasing IDs.
fn find_id(ids: &[i64], id: i64) -> (result: Option<usize>)
    requires
        increasing_ids(ids@),
    ensures
        match result {
            Some(index) => index < ids@.len() && ids@[index as int] == id,
            None => !ids@.contains(id),
        },
{
    let mut low: usize = 0;
    let mut high: usize = ids.len();
    while low < high
        invariant
            low <= high <= ids@.len(),
            ids.len() == ids@.len(),
            increasing_ids(ids@),
            forall|i: int| 0 <= i < low ==> #[trigger] ids@[i] < id,
            forall|i: int| high <= i < ids@.len() ==> #[trigger] ids@[i] > id,
        decreases high - low,
    {
        let middle: usize = low + (high - low) / 2;
        let value: i64 = ids[middle];
        if value == id {
            return Some(middle);
        }
        if value < id {
            low = middle + 1;
        } else {
            high = middle;
        }
    }
    None
}

/// The ordinals of a scope within the candidates.
pub fn scoped_ordinals(public_ids: &[i64], scoped: &[i64]) -> (result: Result<Vec<u32>, SdkError>)
    requires
        ids_fault(public_ids@) is None,
    ensures
        match scope_fault(public_ids@, scoped@) {
            None => result is Ok && result->Ok_0@ == ordinals_in(public_ids@, scoped@),
            Some(message) => result is Err && result->Err_0@ == SdkErrorView::InvalidRequest(
                message,
            ),
        },
{
    validate_public_ids(scoped)?;
    let mut ordinals: Vec<u32> = Vec::new();
    let mut i: usize = 0;
    while i < scoped.len()
        invariant
            i <= scoped.len(),
            ids_fault(public_ids@) is None,
            ids_fault(scoped@) is None,
            ordinals@ == ordinals_in(public_ids@, scoped@).take(i as int),
            forall|j: int| 0 <= j < i ==> public_ids@.contains(#[trigger] scoped@[j]),
        decreases scoped.len() - i,
    {
        match find_id(public_ids, scoped[i]) {
            None => {
                assert(!public_ids@.contains(scoped@[i as int]));
                return Err(
                    SdkError::InvalidRequest("scoped public IDs must be a subset of candidates"),
                );
            },
            Some(ordinal) => {
                proof {
                    let id = scoped@[i as int];
                    assert(public_ids@[ordinal as int] == id);
                    assert(public_ids@.contains(id));
                    let index = public_ids@.index_of(id);
                    assert(public_ids@[index] == id);
                    assert(index == ordinal);
                }
                ordinals.push(ordinal as u32);
            },
        }
        i += 1;
        assert(ordinals@ =~= ordinals_in(public_ids@, scoped@).take(i as int));
    }
    assert(ordinals@ =~= ordinals_in(public_ids@, scoped@));
    Ok(ordinals)
}

/// Ordinals raised by one.
pub open spec fn raised(ordinals: Seq<u32>) -> Seq<u64> {
    Seq::new(ordinals.len(), |i: int| (ordinals[i] + 1) as u64)
}

/// A scope on the wire: its size, then its ordinals.
pub open spec fn scope_bytes(scope: Option<Seq<u32>>) -> Seq<u8> {
    match scope {
        None => seq![],
        Some(ordinals) => le32(ordinals.len() as u32) + delta_bytes(raised(ordinals), 0),
    }
}

/// The body that names a selection by its digest, and a scope within it.
pub open spec fn reference_body(
    request: CatalogRequestView,
    count: nat,
    catalog: Seq<u8>,
    selection: Seq<u8>,
    scope: Option<Seq<u32>>,
) -> Seq<u8> {
    prefix_bytes(request, count) + seq![
        if scope is Some {
            4u8
        } else {
            3u8
        },
    ] + catalog + selection + scope_bytes(scope)
}

/// The version of a reference.
pub open spec fn reference_version(scoped: bool, persistent: bool) -> u16 {
    if scoped {
        if persistent {
            VERSION_PERSISTENT_SCOPED_CATALOG_SELECTION_REFERENCE
        } else {
            VERSION_SCOPED_CATALOG_SELECTION_REFERENCE
        }
    } else {
        if persistent {
            VERSION_PERSISTENT_CATALOG_SELECTION_REFERENCE
        } else {
            VERSION_CATALOG_SELECTION_REFERENCE
        }
    }
}

pub open spec fn ids_view(ids: Option<&[i64]>) -> Option<Seq<i64>> {
    match ids {
        Some(ids) => Some(ids@),
        None => None,
    }
}

/// The scope of a reference.
pub open spec fn scope_of(ids: Seq<i64>, scoped: Option<Seq<i64>>) -> Option<Seq<u32>> {
    match scoped {
        Some(scoped) => Some(ordinals_in(ids, scoped)),
        None => None,
    }
}

/// What is wrong with a reference.
pub open spec fn reference_fault(
    request: CatalogRequestView,
    ids: Seq<i64>,
    scoped: Option<Seq<i64>>,
) -> Option<Seq<char>> {
    if ids_fault(ids) is Some {
        ids_fault(ids)
    } else if request_fault(request, ids.len()) is Some {
        request_fault(request, ids.len())
    } else if scoped is Some && scope_fault(ids, scoped->0) is Some {
        scope_fault(ids, scoped->0)
    } else if !prefix_fits(request) {
        Some("request size overflow"@)
    } else {
        None
    }
}

/// The ordinals of increasing IDs within increasing IDs increase.
pub proof fn lemma_ordinals_increase(ids: Seq<i64>, scoped: Seq<i64>)
    requires
        ids_fault(ids) is None,
        scope_fault(ids, scoped) is None,
    ensures
        increasing_values(raised(ordinals_in(ids, scoped))),
        forall|i: int|
            0 <= i < scoped.len() ==> #[trigger] ordinals_in(ids, scoped)[i] < ids.len(),
{
    let values = raised(ordinals_in(ids, scoped));
    assert forall|i: int| 0 <= i < scoped.len() implies #[trigger] ordinals_in(ids, scoped)[i] < ids.len()
        && ids[ordinals_in(ids, scoped)[i] as int] == scoped[i] by {
        assert(ids.contains(scoped[i]));
    }
    assert forall|i: int, j: int| 0 <= i < j < values.len() implies #[trigger] values[i]
        < #[trigger] values[j] by {
        let a = ordinals_in(ids, scoped)[i] as int;
        let b = ordinals_in(ids, scoped)[j] as int;
        assert(scoped[i] < scoped[j]);
        if b < a {
            assert(ids[b] < ids[a]);
        }
    }
}

/// Encodes the compact catalog-selection reference used on the hot path.
/// `scoped_public_ids`, when present, must be a nonempty subset of the sorted
/// candidate set. `persistent` selects the versions that let callers reuse a
/// socket.
pub fn encode_catalog_selection_reference(
    request: &CatalogRequest<'_>,
    public_ids: &[i64],
    scoped_public_ids: Option<&[i64]>,
    persistent: bool,
) -> (result: Result<Vec<u8>, SdkError>)
    ensures
        match reference_fault(request@, public_ids@, ids_view(scoped_public_ids)) {
            None => result is Ok && result->Ok_0@ == request_frame(
                reference_version(scoped_public_ids is Some, persistent),
                request.request_id,
                reference_body(
                    request@,
                    public_ids@.len(),
                    sha256(encode_utf8(request@.catalog_revision)),
                    sha256(id_bytes(public_ids@)),
                    scope_of(public_ids@, ids_view(scoped_public_ids)),
                ),
            ),
            Some(message) => result is Err && result->Err_0@ == SdkErrorView::InvalidRequest(
                message,
            ),
        },
{
    validate_public_ids(public_ids)?;
    validate_request(request, public_ids.len())?;
    let scoped: Option<Vec<u32>> = match scoped_public_ids {
        Some(values) => Some(scoped_ordinals(public_ids, values)?),
        None => None,
    };
    let version: u16 = if scoped.is_some() {
        if persistent {
            VERSION_PERSISTENT_SCOPED_CATALOG_SELECTION_REFERENCE
        } else {
            VERSION_SCOPED_CATALOG_SELECTION_REFERENCE
        }
    } else if persistent {
        VERSION_PERSISTENT_CATALOG_SELECTION_REFERENCE
    } else {
        VERSION_CATALOG_SELECTION_REFERENCE
    };
    let mut body: Vec<u8> = common_prefix(request, public_ids.len())?;
    body.push(if scoped.is_some() {
        4
    } else {
        3
    });
    put_bytes(&mut body, &catalog_digest(request.catalog_revision));
    put_bytes(&mut body, &selection_digest(public_ids)?);
    let ghost scope = scope_of(public_ids@, ids_view(scoped_public_ids));
    if let Some(ordinals) = scoped {
        put_u32(&mut body, ordinals.len() as u32);
        let mut values: Vec<u64> = Vec::new();
        let mut i: usize = 0;
        while i < ordinals.len()
            invariant
                i <= ordinals.len(),
                values@ == raised(ordinals@).take(i as int),
            decreases ordinals.len() - i,
        {
            values.push(ordinals[i] as u64 + 1);
            i += 1;
            assert(values@ =~= raised(ordinals@).take(i as int));
        }
        assert(values@ =~= raised(ordinals@));
        proof {
            lemma_ordinals_increase(public_ids@, ids_view(scoped_public_ids)->0);
        }
        encode_delta_values(&mut body, &values)?;
    }
    assert(body@ =~= reference_body(
        request@,
        public_ids@.len(),
        sha256(encode_utf8(request@.catalog_revision)),
        sha256(id_bytes(public_ids@)),
        scope,
    ));
    Ok(finish_frame(&body, version, request.request_id))
}

/// The error that a status and a message stand for.
pub open spec fn remote_error(status: u32, message: Seq<char>) -> SdkErrorView {
    if message == "descriptor catalog miss"@ {
        SdkErrorView::CatalogMiss
    } else if message == "descriptor manifest miss"@ {
        SdkErrorView::ManifestMiss
    } else {
        SdkErrorView::Remote { status, message }
    }
}

/// The score at `index` in the score section of a response.
pub open spec fn score_at(section: Seq<u8>, index: int) -> Score {
    Score {
        candidate_id: of32(section.subrange(8 * index, 8 * index + 4)),
        similarity_bits: of32(section.subrange(8 * index + 4, 8 * index + 8)),
    }
}

/// The first `count` scores of a response.
pub open spec fn scores_of(section: Seq<u8>, count: nat) -> Seq<Score> {
    Seq::new(count, |i: int| score_at(section, i))
}

/// What a well-framed response says: scores, or an error.
pub open spec fn decode_body(version: u16, request_id: u64, body: Seq<u8>) -> Result<
    ScoreResponseView,
    SdkErrorView,
> {
    let status = of32(body.subrange(0, 4));
    let count = of32(body.subrange(4, 8)) as nat;
    let section = body.skip(8);
    if status != 0 {
        if count > MAX_REMOTE_ERROR_BYTES || count > section.len() {
            Err(SdkErrorView::InvalidResponse("truncated TileMaxSim error response"@))
        } else if !valid_utf8(section.take(count as int)) {
            Err(SdkErrorView::InvalidResponse("TileMaxSim error is not UTF-8"@))
        } else {
            Err(remote_error(status, decode_utf8(section.take(count as int))))
        }
    } else if 8 + 8 * count > usize::MAX {
        Err(SdkErrorView::InvalidResponse("score count overflow"@))
    } else if section.len() != 8 * count {
        Err(
            SdkErrorView::InvalidResponse(
                "TileMaxSim score count disagrees with response length"@,
            ),
        )
    } else if exists|i: int|
        0 <= i < count && !finite32((#[trigger] score_at(section, i)).similarity_bits) {
        Err(SdkErrorView::InvalidResponse("TileMaxSim returned a non-finite score"@))
    } else {
        Ok(
            ScoreResponseView {
                protocol_version: version,
                request_id,
                scores: scores_of(section, count),
            },
        )
    }
}

/// What a response frame says.
pub open spec fn decode_frame(frame: Seq<u8>) -> Result<ScoreResponseView, SdkErrorView> {
    if frame.len() < HEADER_BYTES || frame.subrange(0, 4) != magic() {
        Err(SdkErrorView::InvalidResponse("invalid TileMaxSim response header"@))
    } else {
        let kind = of16(frame.subrange(6, 8));
        let length = of64(frame.subrange(16, 24));
        if length > usize::MAX {
            Err(SdkErrorView::InvalidResponse("TileMaxSim response is too large"@))
        } else if kind != RESPONSE_KIND || length > MAX_RESPONSE_BYTES || length != frame.len()
            - HEADER_BYTES {
            Err(SdkErrorView::InvalidResponse("invalid TileMaxSim response length or kind"@))
        } else if length < 8 {
            Err(SdkErrorView::InvalidResponse("truncated TileMaxSim response"@))
        } else {
            decode_body(
                of16(frame.subrange(4, 6)),
                of64(frame.subrange(8, 16)),
                frame.skip(HEADER_BYTES as int),
            )
        }
    }
}

/// Tells the typed misses from other failures.
fn classify(status: u32, message: &str) -> (error: SdkError)
    ensures
        error@ == remote_error(status, message@),
{
    let catalog: String = "descriptor catalog miss".to_owned();
    let manifest: String = "descriptor manifest miss".to_owned();
    let message: String = message.to_owned();
    if message == catalog {
        SdkError::CatalogMiss
    } else if message == manifest {
        SdkError::ManifestMiss
    } else {
        SdkError::Remote { status, message }
    }
}

fn decode_failure(status: u32, count: usize, section: &[u8]) -> (error: SdkError)
    ensures
        error@ == if count > MAX_REMOTE_ERROR_BYTES || count > section@.len() {
            SdkErrorView::InvalidResponse("truncated TileMaxSim error response"@)
        } else if !valid_utf8(section@.take(count as int)) {
            SdkErrorView::InvalidResponse("TileMaxSim error is not UTF-8"@)
        } else {
            remote_error(status, decode_utf8(section@.take(count as int)))
        },
{
    if count > MAX_REMOTE_ERROR_BYTES || count > section.len() {
        return SdkError::InvalidResponse("truncated TileMaxSim error response");
    }
    let part: &[u8] = slice_subrange(section, 0, count);
    assert(part@ =~= section@.take(count as int));
    match utf8_text(part) {
        Err(_) => SdkError::InvalidResponse("TileMaxSim error is not UTF-8"),
        Ok(message) => classify(status, message),
    }
}

fn decode_scores(section: &[u8], count: usize) -> (result: Result<Vec<Score>, SdkError>)
    requires
        section@.len() == 8 * count,
    ensures
        if exists|i: int|
            0 <= i < count && !finite32((#[trigger] score_at(section@, i)).similarity_bits) {
            result is Err && result->Err_0@ == SdkErrorView::InvalidResponse(
                "TileMaxSim returned a non-finite score"@,
            )
        } else {
            result is Ok && result->Ok_0@ == scores_of(section@, count as nat)
        },
{
    let mut scores: Vec<Score> = Vec::new();
    let mut i: usize = 0;
    while i < count
        invariant
            i <= count,
            section@.len() == 8 * count,
            section.len() == section@.len(),
            scores@ == scores_of(section@, i as nat),
            forall|j: int|
                0 <= j < i ==> finite32((#[trigger] score_at(section@, j)).similarity_bits),
        decreases count - i,
    {
        let candidate_id: u32 = u32_at(section, 8 * i);
        let similarity_bits: u32 = u32_at(section, 8 * i + 4);
        let score = Score { candidate_id, similarity_bits };
        assert(score == score_at(section@, i as int));
        if similarity_bits / 0x80_0000 % 256 == 255 {
            assert(!finite32(score_at(section@, i as int).similarity_bits));
            return Err(SdkError::InvalidResponse("TileMaxSim returned a non-finite score"));
        }
        scores.push(score);
        i += 1;
        assert(scores@ =~= scores_of(section@, i as nat));
    }
    Ok(scores)
}

/// Decodes a response frame.
pub fn decode_response(frame: &[u8]) -> (result: Result<ScoreResponse, SdkError>)
    ensures
        match decode_frame(frame@) {
            Ok(response) => result is Ok && result->Ok_0@ == response,
            Err(error) => result is Err && result->Err_0@ == error,
        },
{
    if frame.len() < HEADER_BYTES {
        return Err(SdkError::InvalidResponse("invalid TileMaxSim response header"));
    }
    let marked: bool = frame[0] == 86 && frame[1] == 67 && frame[2] == 84 && frame[3] == 77;
    assert(marked == (frame@.subrange(0, 4) == magic())) by {
        let head = frame@.subrange(0, 4);
        if marked {
            assert(head =~= magic());
        } else if head == magic() {
            assert(head[0] == 86 && head[1] == 67 && head[2] == 84 && head[3] == 77);
        }
    }
    if !marked {
        return Err(SdkError::InvalidResponse("invalid TileMaxSim response header"));
    }
    let version: u16 = u16_at(frame, 4);
    let kind: u16 = u16_at(frame, 6);
    let request_id: u64 = u64_at(frame, 8);
    let length: u64 = u64_at(frame, 16);
    if length > usize::MAX as u64 {
        return Err(SdkError::InvalidResponse("TileMaxSim response is too large"));
    }
    let body_len: usize = length as usize;
    if kind != RESPONSE_KIND || body_len > MAX_RESPONSE_BYTES || body_len != frame.len()
        - HEADER_BYTES {
        return Err(SdkError::InvalidResponse("invalid TileMaxSim response length or kind"));
    }
    if body_len < 8 {
        return Err(SdkError::InvalidResponse("truncated TileMaxSim response"));
    }
    let ghost body = frame@.skip(HEADER_BYTES as int);
    let status: u32 = u32_at(frame, 24);
    let count: usize = u32_at(frame, 28) as usize;
    let section: &[u8] = slice_subrange(frame, 32, frame.len());
    proof {
        assert(frame@.subrange(24, 28) =~= body.subrange(0, 4));
        assert(frame@.subrange(28, 32) =~= body.subrange(4, 8));
        assert(section@ =~= body.skip(8));
    }
    if status != 0 {
        return Err(decode_failure(status, count, section));
    }
    let expected: Option<usize> = match count.checked_mul(8) {
        Some(scores) => scores.checked_add(8),
        None => None,
    };
    match expected {
        None => Err(SdkError::InvalidResponse("score count overflow")),
        Some(expected) => {
            if body_len != expected {
                return Err(
                    SdkError::InvalidResponse(
                        "TileMaxSim score count disagrees with response length",
                    ),
                );
            }
            let scores: Vec<Score> = decode_scores(section, count)?;
            Ok(ScoreResponse { protocol_version: version, request_id, scores })
        },
    }
}

} // verus!
