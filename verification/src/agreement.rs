//! Both ends of the wire agree.
//!
//! What a client encodes the daemon parses back, field by field, and what the
//! daemon answers the client decodes.

use crate::bytes::{
    le16, le32, le64, lemma_of16_le16, lemma_of32_le32, lemma_of64_le64, lemma_signed32,
    lemma_signed64, of32, unsigned32, unsigned64,
};
use crate::client::{
    decode_body, decode_frame, delta_at, delta_bytes, descriptor_bytes, fixed_bytes, id_values, ids_fault, ids_of,
    increasing_ids, increasing_values, lemma_ordinals_increase, ordinals_in, prefix_bytes, raised,
    reference_body, reference_fault, reference_version, registration_body, registration_fault, remote_error,
    request_fault, request_frame, scope_bytes, scope_of, score_at, scores_of, selection_body, selection_fault,
    text_allowed, varint_bytes, CatalogDescriptor, CatalogRequestView, Score, ScoreResponseView, SdkErrorView,
};
use crate::digest::hex_text;
use crate::protocol::{
    clipped, failure_frame, finite32, finite_payload, magic, parse_body, parse_frame, profile_of, read_candidate,
    read_candidates, read_catalog, read_fixed, read_header, read_names, read_ordinals, read_public_ids,
    read_query, read_tail, request_of, response_header, score_bytes, shared_of, progress_of, listed_count, success_frame, tensor_size, Catalog, DescriptorView, Fixed, Header,
    Names, Progress, RequestView, Shared, VERSION_CATALOG_LOGICAL_EXTERNAL,
};
use crate::reader::{
    lemma_varint_limits, read_bytes, read_i32, read_i64, read_text, read_u32, read_u8, read_varint,
    read_varint_from, varint_limit, TextField,
};
use vstd::prelude::*;
use vstd::utf8::{decode_utf8, encode_utf8, valid_utf8};

verus! {

pub(crate) proof fn lemma_read_bytes(part: Seq<u8>, rest: Seq<u8>)
    ensures
        read_bytes(part + rest, part.len()) == Ok::<(Seq<u8>, Seq<u8>), crate::reader::ProtocolError>(
            (part, rest),
        ),
{
    assert((part + rest).take(part.len() as int) =~= part);
    assert((part + rest).skip(part.len() as int) =~= rest);
}

pub(crate) proof fn lemma_read_u8(value: u8, rest: Seq<u8>)
    ensures
        read_u8(seq![value] + rest) == Ok::<(u8, Seq<u8>), crate::reader::ProtocolError>((value, rest)),
{
    lemma_read_bytes(seq![value], rest);
}

pub(crate) proof fn lemma_read_u32(value: u32, rest: Seq<u8>)
    ensures
        read_u32(le32(value) + rest) == Ok::<(u32, Seq<u8>), crate::reader::ProtocolError>(
            (value, rest),
        ),
{
    lemma_of32_le32(value);
    lemma_read_bytes(le32(value), rest);
}

proof fn lemma_read_i32(value: i32, rest: Seq<u8>)
    ensures
        read_i32(le32(unsigned32(value)) + rest) == Ok::<(i32, Seq<u8>), crate::reader::ProtocolError>(
            (value, rest),
        ),
{
    lemma_of32_le32(unsigned32(value));
    lemma_signed32(value, 0);
    lemma_read_bytes(le32(unsigned32(value)), rest);
}

proof fn lemma_read_i64(value: i64, rest: Seq<u8>)
    ensures
        read_i64(le64(unsigned64(value)) + rest) == Ok::<(i64, Seq<u8>), crate::reader::ProtocolError>(
            (value, rest),
        ),
{
    lemma_of64_le64(unsigned64(value));
    lemma_signed64(value, 0);
    lemma_read_bytes(le64(unsigned64(value)), rest);
}

/// Reading the bytes of a text that is allowed gives the text.
pub(crate) proof fn lemma_read_text(text: Seq<char>, maximum: nat, field: TextField, rest: Seq<u8>)
    requires
        text_allowed(text, maximum),
    ensures
        read_text(encode_utf8(text) + rest, encode_utf8(text).len(), maximum, field) == Ok::<
            (Seq<u8>, Seq<u8>),
            crate::reader::ProtocolError,
        >((encode_utf8(text), rest)),
        decode_utf8(encode_utf8(text)) == text,
        encode_utf8(text).len() > 0,
{
    vstd::utf8::encode_utf8_valid_utf8(text);
    vstd::utf8::encode_utf8_decode_utf8(text);
    if encode_utf8(text).len() == 0 {
        assert(decode_utf8(encode_utf8(text)).len() == 0);
    }
    lemma_read_bytes(encode_utf8(text), rest);
}

/// A variable-length integer reads back as the number it was written from,
/// whatever follows it.
pub proof fn varint_reads_back(value: u64, rest: Seq<u8>)
    ensures
        read_varint(varint_bytes(value as nat) + rest) == Ok::<
            (nat, Seq<u8>),
            crate::reader::ProtocolError,
        >((value as nat, rest)),
{
    lemma_varint_limits();
    lemma_varint_from(value as nat, 0, rest);
}

proof fn lemma_varint_from(value: nat, index: nat, rest: Seq<u8>)
    requires
        index <= 9,
        value < varint_limit(index),
        index == 0 || value > 0,
    ensures
        read_varint_from(varint_bytes(value) + rest, index) == Ok::<
            (nat, Seq<u8>),
            crate::reader::ProtocolError,
        >((value, rest)),
    decreases value,
{
    lemma_varint_limits();
    if value < 0x80 {
        lemma_read_u8(value as u8, rest);
    } else {
        let byte = (value % 0x80 + 0x80) as u8;
        let tail = varint_bytes(value / 0x80) + rest;
        assert(varint_bytes(value) + rest =~= seq![byte] + tail);
        lemma_read_u8(byte, tail);
        assert(index < 9);
        lemma_varint_from(value / 0x80, index + 1, rest);
    }
}

/// Public IDs that stand as distances read back.
proof fn lemma_public_ids(ids: Seq<i64>, index: int, rest: Seq<u8>)
    requires
        increasing_ids(ids),
        0 <= index <= ids.len(),
    ensures
        read_public_ids(ids.len(), ids.take(index), delta_bytes(id_values(ids), index) + rest) == Ok::<
            (Seq<i64>, Seq<u8>),
            crate::reader::ProtocolError,
        >((ids, rest)),
    decreases ids.len() - index,
{
    let values = id_values(ids);
    if index == ids.len() {
        assert(ids.take(index) =~= ids);
        assert(delta_bytes(values, index) + rest =~= rest);
    } else {
        let delta = delta_at(values, index);
        let tail = delta_bytes(values, index + 1) + rest;
        assert(ids[index] > 0);
        if index > 0 {
            assert(ids[index - 1] < ids[index]);
            assert(ids[index - 1] > 0);
            assert(ids.take(index).last() == ids[index - 1]);
        }
        assert(delta_bytes(values, index) + rest =~= varint_bytes(delta) + tail);
        varint_reads_back(delta as u64, tail);
        assert(ids.take(index).push(ids[index]) =~= ids.take(index + 1));
        lemma_public_ids(ids, index + 1, rest);
    }
}

/// Ordinals that stand as distances read back.
proof fn lemma_ordinals(ordinals: Seq<u32>, candidate_count: u32, index: int, rest: Seq<u8>)
    requires
        increasing_values(raised(ordinals)),
        forall|i: int| 0 <= i < ordinals.len() ==> #[trigger] ordinals[i] < candidate_count,
        0 <= index <= ordinals.len(),
    ensures
        read_ordinals(
            ordinals.len(),
            candidate_count,
            ordinals.take(index),
            delta_bytes(raised(ordinals), index) + rest,
        ) == Ok::<(Seq<u32>, Seq<u8>), crate::reader::ProtocolError>((ordinals, rest)),
    decreases ordinals.len() - index,
{
    let values = raised(ordinals);
    if index == ordinals.len() {
        assert(ordinals.take(index) =~= ordinals);
        assert(delta_bytes(values, index) + rest =~= rest);
    } else {
        let delta = delta_at(values, index);
        let tail = delta_bytes(values, index + 1) + rest;
        if index > 0 {
            assert(values[index - 1] < values[index]);
            assert(ordinals.take(index).last() == ordinals[index - 1]);
        }
        assert(ordinals[index] < candidate_count);
        assert(delta_bytes(values, index) + rest =~= varint_bytes(delta) + tail);
        varint_reads_back(delta as u64, tail);
        assert(ordinals.take(index).push(ordinals[index]) =~= ordinals.take(index + 1));
        lemma_ordinals(ordinals, candidate_count, index + 1, rest);
    }
}

/// The daemon's name for a profile of the client.
pub open spec fn daemon_profile(profile: crate::client::ScoringProfile) -> crate::protocol::ScoringProfile {
    match profile {
        crate::client::ScoringProfile::ExactFp16 => crate::protocol::ScoringProfile::ExactFp16,
        crate::client::ScoringProfile::Int8RowScaled => crate::protocol::ScoringProfile::Int8,
        crate::client::ScoringProfile::Fp8E4m3RowScaled => crate::protocol::ScoringProfile::Fp8E4m3,
        crate::client::ScoringProfile::Pq => crate::protocol::ScoringProfile::Pq,
        crate::client::ScoringProfile::OpqRpq => crate::protocol::ScoringProfile::OpqRpq,
        crate::client::ScoringProfile::Fp8E4m3Raw => crate::protocol::ScoringProfile::RawFp8E4m3,
    }
}

/// The fixed-width fields of a catalog request.
pub open spec fn fixed_of(request: CatalogRequestView, count: nat) -> Fixed {
    Fixed {
        dimension: request.dimension,
        query_rows: request.query_rows,
        candidate_count: count as u32,
        dtype: request.query_dtype.code_of(),
        profile: daemon_profile(request.scoring_profile),
        storage_dtype: request.storage_code(),
        contract_bytes: encode_utf8(request.model_contract).len() as u32,
        quantization_bytes: request.quantization_bytes().len() as u32,
        priority: request.priority,
        timeout_ms: request.timeout_ms,
        tenant_bytes: encode_utf8(request.tenant).len() as u32,
        top_k: Some(request.top_k as u32),
    }
}

/// Concatenation associates.
proof fn lemma_add(x: Seq<u8>, y: Seq<u8>, z: Seq<u8>)
    ensures
        x + y + z == x + (y + z),
{
    assert(x + y + z =~= x + (y + z));
}

/// Five parts and what follows, front to back.
proof fn lemma_add_five(a: Seq<u8>, b: Seq<u8>, c: Seq<u8>, d: Seq<u8>, e: Seq<u8>, rest: Seq<u8>)
    ensures
        a + b + c + d + e + rest == a + (b + (c + (d + (e + rest)))),
{
    lemma_add(a + b + c + d, e, rest);
    lemma_add(a + b + c, d, e + rest);
    lemma_add(a + b, c, d + (e + rest));
    lemma_add(a, b, c + (d + (e + rest)));
}

/// The fields after the storage dtype.
#[verifier::opaque]
spec fn tail_bytes(request: CatalogRequestView) -> Seq<u8> {
    le32(encode_utf8(request.model_contract).len() as u32) + le32(
        request.quantization_bytes().len() as u32,
    ) + le32(unsigned32(request.priority)) + le32(request.timeout_ms) + le32(
        encode_utf8(request.tenant).len() as u32,
    ) + le32(request.top_k as u32)
}

#[verifier::rlimit(60)]
#[verifier::spinoff_prover]
proof fn lemma_tail(version: u16, request: CatalogRequestView, count: nat, fixed: Fixed, rest: Seq<u8>)
    requires
        VERSION_CATALOG_LOGICAL_EXTERNAL <= version,
        request_fault(request, count) is None,
        fixed.candidate_count == count,
    ensures
        read_tail(version, fixed, 1, tail_bytes(request) + rest) == Ok::<
            (Fixed, Seq<u8>),
            crate::reader::ProtocolError,
        >(
            (
                Fixed {
                    contract_bytes: encode_utf8(request.model_contract).len() as u32,
                    quantization_bytes: request.quantization_bytes().len() as u32,
                    priority: request.priority,
                    timeout_ms: request.timeout_ms,
                    tenant_bytes: encode_utf8(request.tenant).len() as u32,
                    top_k: Some(request.top_k as u32),
                    ..fixed
                },
                rest,
            ),
        ),
{
    reveal(tail_bytes);
    let r10 = le32(request.top_k as u32) + rest;
    let r9 = le32(encode_utf8(request.tenant).len() as u32) + r10;
    let r8 = le32(request.timeout_ms) + r9;
    let r7 = le32(unsigned32(request.priority)) + r8;
    let r6 = le32(request.quantization_bytes().len() as u32) + r7;
    lemma_add(
        le32(encode_utf8(request.model_contract).len() as u32) + le32(
            request.quantization_bytes().len() as u32,
        ) + le32(unsigned32(request.priority)) + le32(request.timeout_ms) + le32(
            encode_utf8(request.tenant).len() as u32,
        ),
        le32(request.top_k as u32),
        rest,
    );
    lemma_add_five(
        le32(encode_utf8(request.model_contract).len() as u32),
        le32(request.quantization_bytes().len() as u32),
        le32(unsigned32(request.priority)),
        le32(request.timeout_ms),
        le32(encode_utf8(request.tenant).len() as u32),
        r10,
    );
    lemma_read_u32(encode_utf8(request.model_contract).len() as u32, r6);
    lemma_read_u32(request.quantization_bytes().len() as u32, r7);
    lemma_read_i32(request.priority, r8);
    lemma_read_u32(request.timeout_ms, r9);
    lemma_read_u32(encode_utf8(request.tenant).len() as u32, r10);
    lemma_read_u32(request.top_k as u32, rest);
}

/// The part of the fixed-width fields before their tail, front to back.
proof fn lemma_fixed_split(request: CatalogRequestView, count: nat, rest: Seq<u8>)
    ensures
        fixed_bytes(request, count) + rest == le32(request.dimension) + (le32(request.query_rows) + (
        le32(count as u32) + (seq![request.query_dtype.code_of()] + (seq![1u8] + (seq![
            request.scoring_profile.code_of(),
        ] + (seq![request.storage_code()] + (tail_bytes(request) + rest))))))),
{
    reveal(tail_bytes);
    let a = le32(request.dimension);
    let b = le32(request.query_rows);
    let c = le32(count as u32);
    let d1 = seq![request.query_dtype.code_of()];
    let d2 = seq![1u8];
    let d3 = seq![request.scoring_profile.code_of()];
    let d4 = seq![request.storage_code()];
    let d = seq![
        request.query_dtype.code_of(),
        1u8,
        request.scoring_profile.code_of(),
        request.storage_code(),
    ];
    assert(d =~= d1 + d2 + d3 + d4);
    let t0 = le32(encode_utf8(request.model_contract).len() as u32);
    let t1 = le32(request.quantization_bytes().len() as u32);
    let t2 = le32(unsigned32(request.priority));
    let t3 = le32(request.timeout_ms);
    let t4 = le32(encode_utf8(request.tenant).len() as u32);
    let t5 = le32(request.top_k as u32);
    let head = a + b + c + d;
    lemma_add(head + t0 + t1 + t2 + t3 + t4, t5, rest);
    lemma_add_five(head + t0, t1, t2, t3, t4, t5 + rest);
    lemma_add(head, t0, t1 + (t2 + (t3 + (t4 + (t5 + rest)))));
    lemma_add(t0 + t1 + t2 + t3 + t4, t5, rest);
    lemma_add_five(t0, t1, t2, t3, t4, t5 + rest);
    let tail = tail_bytes(request) + rest;
    assert(fixed_bytes(request, count) + rest == head + tail);
    lemma_add(a + b + c, d, tail);
    lemma_add(a + b, c, d + tail);
    lemma_add(a, b, c + (d + tail));
    lemma_add(d1 + d2 + d3, d4, tail);
    lemma_add(d1 + d2, d3, d4 + tail);
    lemma_add(d1, d2, d3 + (d4 + tail));
}

#[verifier::rlimit(60)]
#[verifier::spinoff_prover]
proof fn lemma_fixed(version: u16, request: CatalogRequestView, count: nat, rest: Seq<u8>)
    requires
        VERSION_CATALOG_LOGICAL_EXTERNAL <= version,
        request_fault(request, count) is None,
    ensures
        read_fixed(version, fixed_bytes(request, count) + rest) == Ok::<
            (Fixed, Seq<u8>),
            crate::reader::ProtocolError,
        >((fixed_of(request, count), rest)),
{
    let r5 = tail_bytes(request) + rest;
    let r4 = seq![request.storage_code()] + r5;
    let r3 = seq![request.scoring_profile.code_of()] + r4;
    let r2 = seq![1u8] + r3;
    let r1 = seq![request.query_dtype.code_of()] + r2;
    let r0 = le32(count as u32) + r1;
    let ra = le32(request.query_rows) + r0;
    lemma_fixed_split(request, count, rest);
    lemma_read_u32(request.dimension, ra);
    lemma_read_u32(request.query_rows, r0);
    lemma_read_u32(count as u32, r1);
    lemma_read_u8(request.query_dtype.code_of(), r2);
    lemma_read_u8(1u8, r3);
    lemma_read_u8(request.scoring_profile.code_of(), r4);
    lemma_read_u8(request.storage_code(), r5);
    assert(profile_of(request.scoring_profile.code_of()) == Ok::<
        crate::protocol::ScoringProfile,
        crate::reader::ProtocolError,
    >(daemon_profile(request.scoring_profile)));
    lemma_tail(
        version,
        request,
        count,
        Fixed {
            contract_bytes: 0,
            quantization_bytes: 0,
            priority: 0,
            timeout_ms: 0,
            tenant_bytes: 0,
            top_k: None,
            ..fixed_of(request, count)
        },
        rest,
    );
}

/// The texts of a catalog request.
pub open spec fn names_of(request: CatalogRequestView) -> Names {
    Names {
        contract: request.model_contract,
        quantization: request.quantization_contract,
        tenant: request.tenant,
    }
}

/// A contract identifier holds no control code.
proof fn lemma_contract_text(text: Seq<char>)
    requires
        crate::text::is_contract_id(encode_utf8(text)),
    ensures
        text_allowed(text, 128),
{
    let bytes = encode_utf8(text);
    assert forall|i: int| 0 <= i < bytes.len() implies #[trigger] bytes[i] < 128 && bytes[i] >= 45 by {
        if i < 5 {
            assert(bytes.subrange(0, 5)[i] == crate::text::contract_prefix()[i]);
        } else {
            assert(crate::digest::is_lower_hex(bytes.subrange(5, 69)[i - 5]));
        }
    }
    crate::text::lemma_ascii_is_utf8(bytes);
    vstd::utf8::encode_utf8_decode_utf8(text);
    assert(text == crate::text::ascii_chars(bytes));
    assert forall|i: int| 0 <= i < text.len() implies !crate::text::is_control(#[trigger] text[i]) by {
        assert(text[i] == bytes[i] as char);
        assert(45 <= bytes[i] < 127) by {
            if i < 5 {
                assert(bytes.subrange(0, 5)[i] == crate::text::contract_prefix()[i]);
            } else {
                assert(crate::digest::is_lower_hex(bytes.subrange(5, 69)[i - 5]));
            }
        }
    }
}

proof fn lemma_names(version: u16, request: CatalogRequestView, count: nat, rest: Seq<u8>)
    requires
        VERSION_CATALOG_LOGICAL_EXTERNAL <= version,
        request_fault(request, count) is None,
    ensures
        read_names(
            version,
            fixed_of(request, count),
            encode_utf8(request.model_contract) + request.quantization_bytes() + encode_utf8(
                request.tenant,
            ) + rest,
        ) == Ok::<(Names, Seq<u8>), crate::reader::ProtocolError>((names_of(request), rest)),
{
    let model = encode_utf8(request.model_contract);
    let tenant = encode_utf8(request.tenant);
    let quantization = request.quantization_bytes();
    let after_quantization = tenant + rest;
    let after_model = quantization + after_quantization;
    assert(model + quantization + tenant + rest =~= model + after_model);
    lemma_read_text(request.model_contract, 512, TextField::ModelContract, after_model);
    lemma_read_text(request.tenant, 256, TextField::SchedulerTenant, rest);
    match request.quantization_contract {
        Some(contract) => {
            lemma_contract_text(contract);
            lemma_read_text(contract, 128, TextField::QuantizationContract, after_quantization);
        },
        None => {
            assert(after_model =~= after_quantization);
        },
    }
}

proof fn lemma_query(request: CatalogRequestView, count: nat, rest: Seq<u8>)
    requires
        request_fault(request, count) is None,
        finite_payload(request.query, request.query_dtype.code_of()),
    ensures
        read_query(fixed_of(request, count), request.query + rest) == Ok::<
            (Seq<u8>, Seq<u8>),
            crate::reader::ProtocolError,
        >((request.query, rest)),
{
    lemma_read_bytes(request.query, rest);
}

/// The prefix of a body and what follows, part by part.
proof fn lemma_prefix_split(request: CatalogRequestView, count: nat, rest: Seq<u8>)
    ensures
        prefix_bytes(request, count) + rest == fixed_bytes(request, count) + (encode_utf8(
            request.model_contract,
        ) + request.quantization_bytes() + encode_utf8(request.tenant) + (request.query + rest)),
{
    let fixed = fixed_bytes(request, count);
    let model = encode_utf8(request.model_contract);
    let quantization = request.quantization_bytes();
    let tenant = encode_utf8(request.tenant);
    let query = request.query;
    lemma_add_five(fixed, model, quantization, tenant, query, rest);
    lemma_add(model + quantization, tenant, query + rest);
    lemma_add(model, quantization, tenant + (query + rest));
}

/// The parts of a body that all catalog requests share read back.
#[verifier::rlimit(60)]
#[verifier::spinoff_prover]
proof fn lemma_prefix(version: u16, request: CatalogRequestView, count: nat, rest: Seq<u8>)
    requires
        VERSION_CATALOG_LOGICAL_EXTERNAL <= version,
        request_fault(request, count) is None,
        finite_payload(request.query, request.query_dtype.code_of()),
    ensures
        parse_body(
            Header {
                version,
                request_id: request.request_id,
                body: prefix_bytes(request, count) + rest,
            },
        ) == parse_rest(
            version,
            request,
            count,
            rest,
        ),
{
    let after_names = request.query + rest;
    let after_fixed = encode_utf8(request.model_contract) + request.quantization_bytes()
        + encode_utf8(request.tenant) + after_names;
    lemma_prefix_split(request, count, rest);
    lemma_fixed(version, request, count, after_fixed);
    lemma_names(version, request, count, after_names);
    lemma_query(request, count, rest);
}

/// What the daemon makes of a catalog body once the shared parts are read.
spec fn parse_rest(version: u16, request: CatalogRequestView, count: nat, rest: Seq<u8>) -> Result<
    RequestView,
    crate::reader::ProtocolError,
> {
    let fixed = fixed_of(request, count);
    let names = names_of(request);
    match read_catalog(version, count as u32, rest) {
        Err(error) => Err(error),
        Ok((catalog, rest)) => match read_candidates(
            shared_of(version, fixed, names, catalog),
            listed_count(fixed, catalog),
            progress_of(fixed, request.query, catalog),
            rest,
        ) {
            Err(error) => Err(error),
            Ok((progress, rest)) => if rest.len() != 0 {
                Err(crate::reader::ProtocolError::TrailingBytes)
            } else {
                Ok(
                    request_of(
                        Header { version, request_id: request.request_id, body: seq![] },
                        fixed,
                        names,
                        request.query,
                        catalog,
                        progress,
                    ),
                )
            },
        },
    }
}

/// The header of a request frame reads back.
pub(crate) proof fn lemma_header(version: u16, request_id: u64, body: Seq<u8>)
    requires
        2 <= version <= 14,
        body.len() <= u64::MAX,
    ensures
        read_header(request_frame(version, request_id, body)) == Ok::<
            Header,
            crate::reader::ProtocolError,
        >(Header { version, request_id, body }),
{
    let frame = request_frame(version, request_id, body);
    lemma_of16_le16(version);
    lemma_of16_le16(1);
    lemma_of64_le64(request_id);
    lemma_of64_le64(body.len() as u64);
    assert(frame.subrange(0, 4) =~= magic());
    assert(frame.subrange(4, 6) =~= le16(version));
    assert(frame.subrange(6, 8) =~= le16(1));
    assert(frame.subrange(8, 16) =~= le64(request_id));
    assert(frame.subrange(16, 24) =~= le64(body.len() as u64));
    assert(frame.skip(24) =~= body);
}

/// What the daemon makes of a frame, as a name that is not unfolded.
#[verifier::opaque]
spec fn parsed(frame: Seq<u8>) -> Result<RequestView, crate::reader::ProtocolError> {
    parse_frame(frame)
}

/// What the daemon makes of a catalog frame is what it makes of the part after
/// the shared prefix.
#[verifier::rlimit(30)]
#[verifier::spinoff_prover]
proof fn lemma_parsed(version: u16, request: CatalogRequestView, count: nat, rest: Seq<u8>)
    requires
        VERSION_CATALOG_LOGICAL_EXTERNAL <= version <= 14,
        request_fault(request, count) is None,
        finite_payload(request.query, request.query_dtype.code_of()),
        (prefix_bytes(request, count) + rest).len() <= u64::MAX,
    ensures
        parsed(request_frame(version, request.request_id, prefix_bytes(request, count) + rest))
            == parse_rest(version, request, count, rest),
{
    reveal(parsed);
    lemma_header(version, request.request_id, prefix_bytes(request, count) + rest);
    lemma_prefix(version, request, count, rest);
}

/// The request that the daemon parses from a catalog frame: every field as the
/// client gave it.
pub open spec fn received(
    version: u16,
    request: CatalogRequestView,
    candidates: Seq<DescriptorView>,
    catalog: Catalog,
) -> RequestView {
    RequestView {
        protocol_version: version,
        request_id: request.request_id,
        tenant: request.tenant,
        model_contract: request.model_contract,
        priority: request.priority,
        timeout_ms: request.timeout_ms,
        query_rows: request.query_rows,
        dimension: request.dimension,
        dtype: request.query_dtype.code_of(),
        candidate_dtype: request.candidate_dtype.code_of(),
        scoring_profile: daemon_profile(request.scoring_profile),
        quantization_contract: request.quantization_contract,
        top_k: Some(request.top_k),
        query: request.query,
        candidates,
        candidate_start: 0,
        candidate_end: candidates.len(),
        manifest_digest: None,
        catalog_digest: catalog.catalog,
        catalog_selection_digest: catalog.selection,
        catalog_public_ids: catalog.public_ids,
        catalog_registration: catalog.registration,
        scoped_candidate_ordinals: catalog.ordinals,
    }
}

proof fn lemma_selection_is_received(request: CatalogRequestView, catalog: [u8; 32], ids: Seq<i64>)
    requires
        selection_fault(request, ids) is None,
        finite_payload(request.query, request.query_dtype.code_of()),
        selection_body(request, catalog@, ids).len() <= usize::MAX,
    ensures
        parsed(
            request_frame(10, request.request_id, selection_body(request, catalog@, ids)),
        ) == Ok::<RequestView, crate::reader::ProtocolError>(
            received(
                10,
                request,
                seq![],
                Catalog {
                    manifest: None,
                    catalog: Some(catalog@),
                    selection: None,
                    registration: false,
                    public_ids: ids,
                    ordinals: seq![],
                },
            ),
        ),
{
    let body = selection_body(request, catalog@, ids);
    let count = ids.len();
    let deltas = delta_bytes(id_values(ids), 0);
    let after_mode = catalog@ + deltas;
    let after_query = seq![1u8] + after_mode;
    let prefix = prefix_bytes(request, count);
    lemma_add(prefix + seq![1u8], catalog@, deltas);
    lemma_add(prefix, seq![1u8], after_mode);
    assert(body == prefix + after_query);
    lemma_parsed(10, request, count, after_query);
    lemma_read_u8(1u8, after_mode);
    lemma_read_bytes(catalog@, deltas);
    assert(ids.take(0) =~= seq![]);
    assert(deltas + seq![] =~= deltas);
    lemma_public_ids(ids, 0, seq![]);
}

/// A selection frame: the daemon parses it as the request that the client
/// encoded, with the same public IDs under the same catalog digest. The query
/// must be finite, which the client does not look at, and the frame must fit in
/// memory.
pub proof fn selection_is_received(request: CatalogRequestView, catalog: [u8; 32], ids: Seq<i64>)
    requires
        selection_fault(request, ids) is None,
        finite_payload(request.query, request.query_dtype.code_of()),
        selection_body(request, catalog@, ids).len() <= usize::MAX,
    ensures
        parse_frame(
            request_frame(10, request.request_id, selection_body(request, catalog@, ids)),
        ) == Ok::<RequestView, crate::reader::ProtocolError>(
            received(
                10,
                request,
                seq![],
                Catalog {
                    manifest: None,
                    catalog: Some(catalog@),
                    selection: None,
                    registration: false,
                    public_ids: ids,
                    ordinals: seq![],
                },
            ),
        ),
{
    lemma_selection_is_received(request, catalog, ids);
    reveal(parsed);
}

proof fn lemma_reference_is_received(
    request: CatalogRequestView,
    catalog: [u8; 32],
    selection: [u8; 32],
    ids: Seq<i64>,
    scoped: Option<Seq<i64>>,
    persistent: bool,
)
    requires
        reference_fault(request, ids, scoped) is None,
        finite_payload(request.query, request.query_dtype.code_of()),
        reference_body(request, ids.len(), catalog@, selection@, scope_of(ids, scoped)).len()
            <= usize::MAX,
    ensures
        parsed(
            request_frame(
                reference_version(scoped is Some, persistent),
                request.request_id,
                reference_body(request, ids.len(), catalog@, selection@, scope_of(ids, scoped)),
            ),
        ) == Ok::<RequestView, crate::reader::ProtocolError>(
            received(
                reference_version(scoped is Some, persistent),
                request,
                seq![],
                Catalog {
                    manifest: None,
                    catalog: Some(catalog@),
                    selection: Some(selection@),
                    registration: false,
                    public_ids: seq![],
                    ordinals: match scoped {
                        Some(scoped) => ordinals_in(ids, scoped),
                        None => seq![],
                    },
                },
            ),
        ),
{
    let version = reference_version(scoped is Some, persistent);
    let scope = scope_of(ids, scoped);
    let body = reference_body(request, ids.len(), catalog@, selection@, scope);
    let count = ids.len();
    let mode = if scope is Some {
        4u8
    } else {
        3u8
    };
    let after_selection = scope_bytes(scope);
    let after_catalog = selection@ + after_selection;
    let after_mode = catalog@ + after_catalog;
    let after_query = seq![mode] + after_mode;
    let prefix = prefix_bytes(request, count);
    lemma_add(prefix + seq![mode] + catalog@, selection@, after_selection);
    lemma_add(prefix + seq![mode], catalog@, after_catalog);
    lemma_add(prefix, seq![mode], after_mode);
    assert(body == prefix + after_query);
    lemma_parsed(version, request, count, after_query);
    lemma_read_u8(mode, after_mode);
    lemma_read_bytes(catalog@, after_catalog);
    lemma_read_bytes(selection@, after_selection);
    match scoped {
        Some(scoped) => {
            let ordinals = ordinals_in(ids, scoped);
            let deltas = delta_bytes(raised(ordinals), 0);
            lemma_ordinals_increase(ids, scoped);
            assert(scoped.len() <= ids.len()) by {
                lemma_subset_len(ids, scoped);
            }
            lemma_read_u32(ordinals.len() as u32, deltas);
            assert(ordinals.take(0) =~= seq![]);
            assert(deltas + seq![] =~= deltas);
            lemma_ordinals(ordinals, count as u32, 0, seq![]);
        },
        None => {},
    }
}

/// A reference frame: the daemon parses it as the request that the client
/// encoded, with the same digests and the ordinals of the scope.
pub proof fn reference_is_received(
    request: CatalogRequestView,
    catalog: [u8; 32],
    selection: [u8; 32],
    ids: Seq<i64>,
    scoped: Option<Seq<i64>>,
    persistent: bool,
)
    requires
        reference_fault(request, ids, scoped) is None,
        finite_payload(request.query, request.query_dtype.code_of()),
        reference_body(request, ids.len(), catalog@, selection@, scope_of(ids, scoped)).len()
            <= usize::MAX,
    ensures
        parse_frame(
            request_frame(
                reference_version(scoped is Some, persistent),
                request.request_id,
                reference_body(request, ids.len(), catalog@, selection@, scope_of(ids, scoped)),
            ),
        ) == Ok::<RequestView, crate::reader::ProtocolError>(
            received(
                reference_version(scoped is Some, persistent),
                request,
                seq![],
                Catalog {
                    manifest: None,
                    catalog: Some(catalog@),
                    selection: Some(selection@),
                    registration: false,
                    public_ids: seq![],
                    ordinals: match scoped {
                        Some(scoped) => ordinals_in(ids, scoped),
                        None => seq![],
                    },
                },
            ),
        ),
{
    lemma_reference_is_received(request, catalog, selection, ids, scoped, persistent);
    reveal(parsed);
}

/// A subset of increasing IDs is no longer than the IDs.
proof fn lemma_subset_len(ids: Seq<i64>, scoped: Seq<i64>)
    requires
        ids_fault(ids) is None,
        crate::client::scope_fault(ids, scoped) is None,
    ensures
        scoped.len() <= ids.len(),
{
    lemma_ordinals_increase(ids, scoped);
    let ordinals = ordinals_in(ids, scoped);
    lemma_increasing_bound(raised(ordinals), scoped.len() as int - 1);
    assert(ordinals[scoped.len() - 1] < ids.len());
}

/// The value at an index of increasing positive values is above the index.
proof fn lemma_increasing_bound(values: Seq<u64>, index: int)
    requires
        increasing_values(values),
        0 <= index < values.len(),
    ensures
        values[index] > index,
    decreases index,
{
    if index > 0 {
        lemma_increasing_bound(values, index - 1);
        assert(values[index - 1] < values[index]);
    } else {
        assert(values[0] > 0);
    }
}

/// A registered tensor as the daemon lists it.
pub open spec fn registered(
    request: CatalogRequestView,
    descriptors: Seq<CatalogDescriptor>,
    index: int,
) -> DescriptorView {
    DescriptorView {
        candidate_id: index as u32,
        contract: request.model_contract,
        digest: hex_text(descriptors[index].digest@),
        rows: descriptors[index].rows,
        dimension: request.dimension,
        dtype: request.candidate_dtype.code_of(),
    }
}

/// The rows of the first `count` tensors.
pub open spec fn row_total(descriptors: Seq<CatalogDescriptor>, count: nat) -> nat
    decreases count,
{
    if count == 0 {
        0
    } else {
        row_total(descriptors, (count - 1) as nat) + descriptors[count - 1].rows as nat
    }
}

/// The bytes of one registered tensor.
pub open spec fn registered_size(request: CatalogRequestView, rows: u32) -> nat {
    (rows * request.dimension * request.candidate_dtype.scalar_size()) as nat
}

/// The bytes of the first `count` tensors.
pub open spec fn size_total(
    request: CatalogRequestView,
    descriptors: Seq<CatalogDescriptor>,
    count: nat,
) -> nat
    decreases count,
{
    if count == 0 {
        0
    } else {
        size_total(request, descriptors, (count - 1) as nat) + registered_size(
            request,
            descriptors[count - 1].rows,
        )
    }
}

/// Sums of sizes grow, and a tensor has at least a byte for each row.
proof fn lemma_totals(
    request: CatalogRequestView,
    descriptors: Seq<CatalogDescriptor>,
    count: nat,
    more: nat,
)
    requires
        request.dimension > 0,
        count <= more,
    ensures
        row_total(descriptors, count) <= size_total(request, descriptors, count),
        size_total(request, descriptors, count) <= size_total(request, descriptors, more),
    decreases count + more,
{
    if count < more {
        lemma_totals(request, descriptors, count, (more - 1) as nat);
    } else if count > 0 {
        lemma_totals(request, descriptors, (count - 1) as nat, (more - 1) as nat);
        let rows = descriptors[count - 1].rows;
        let dimension = request.dimension;
        let scalar = request.candidate_dtype.scalar_size();
        assert(rows <= rows * dimension * scalar) by (nonlinear_arith)
            requires
                rows >= 0,
                dimension >= 1,
                scalar >= 1,
        ;
    }
}

/// What the daemon has read after `count` registered tensors.
spec fn progress_at(
    request: CatalogRequestView,
    descriptors: Seq<CatalogDescriptor>,
    count: nat,
) -> Progress {
    Progress {
        candidates: Seq::new(count, |i: int| registered(request, descriptors, i)),
        public_ids: ids_of(descriptors).take(count as int),
        tokens: request.query_rows as nat + row_total(descriptors, count),
        bytes: request.query.len() + size_total(request, descriptors, count),
    }
}

spec fn registration_shared(request: CatalogRequestView) -> Shared {
    Shared {
        version: 10,
        registration: true,
        contract: request.model_contract,
        dimension: request.dimension,
        dtype: request.query_dtype.code_of(),
        candidate_dtype: request.candidate_dtype.code_of(),
    }
}

proof fn lemma_registered(
    request: CatalogRequestView,
    descriptors: Seq<CatalogDescriptor>,
    index: nat,
    rest: Seq<u8>,
)
    requires
        registration_fault(request, descriptors) is None,
        request.query.len() + size_total(request, descriptors, descriptors.len()) <= usize::MAX,
        index < descriptors.len(),
    ensures
        read_candidate(
            registration_shared(request),
            progress_at(request, descriptors, index),
            le64(unsigned64(descriptors[index as int].public_id)) + (le32(
                descriptors[index as int].rows,
            ) + (descriptors[index as int].digest@ + rest)),
        ) == Ok::<(Progress, Seq<u8>), crate::reader::ProtocolError>(
            (progress_at(request, descriptors, index + 1), rest),
        ),
{
    let descriptor = descriptors[index as int];
    let progress = progress_at(request, descriptors, index);
    let ids = ids_of(descriptors);
    lemma_read_i64(
        descriptor.public_id,
        le32(descriptor.rows) + (descriptor.digest@ + rest),
    );
    lemma_read_u32(descriptor.rows, descriptor.digest@ + rest);
    lemma_read_bytes(descriptor.digest@, rest);
    assert(ids[index as int] > 0);
    if index > 0 {
        assert(progress.public_ids.last() == ids[index - 1]);
        assert(ids[index - 1] < ids[index as int]);
    }
    lemma_totals(request, descriptors, index + 1, descriptors.len());
    let query_rows = request.query_rows;
    let dimension = request.dimension;
    let scalar = request.query_dtype.scalar_size();
    assert(query_rows <= query_rows * dimension * scalar) by (nonlinear_arith)
        requires
            query_rows >= 0,
            dimension >= 1,
            scalar >= 1,
    ;
    assert(tensor_size(descriptor.rows, request.dimension, request.candidate_dtype.code_of()) == Ok::<
        nat,
        crate::reader::ProtocolError,
    >(registered_size(request, descriptor.rows)));
    let next = progress_at(request, descriptors, index + 1);
    assert(progress.public_ids.push(descriptor.public_id) =~= next.public_ids);
    assert(progress.candidates.push(registered(request, descriptors, index as int))
        =~= next.candidates);
}

#[verifier::rlimit(60)]
#[verifier::spinoff_prover]
proof fn lemma_all_registered(
    request: CatalogRequestView,
    descriptors: Seq<CatalogDescriptor>,
    index: nat,
)
    requires
        registration_fault(request, descriptors) is None,
        request.query.len() + size_total(request, descriptors, descriptors.len()) <= usize::MAX,
        index <= descriptors.len(),
    ensures
        read_candidates(
            registration_shared(request),
            (descriptors.len() - index) as nat,
            progress_at(request, descriptors, index),
            descriptor_bytes(descriptors, index as int),
        ) == Ok::<(Progress, Seq<u8>), crate::reader::ProtocolError>(
            (progress_at(request, descriptors, descriptors.len()), seq![]),
        ),
    decreases descriptors.len() - index,
{
    if index < descriptors.len() {
        let descriptor = descriptors[index as int];
        let id = le64(unsigned64(descriptor.public_id));
        let rows = le32(descriptor.rows);
        let rest = descriptor_bytes(descriptors, index as int + 1);
        lemma_add(id + rows, descriptor.digest@, rest);
        lemma_add(id, rows, descriptor.digest@ + rest);
        lemma_registered(request, descriptors, index, rest);
        lemma_all_registered(request, descriptors, index + 1);
    }
}

/// A registration frame, with the parser as a name.
#[verifier::rlimit(60)]
#[verifier::spinoff_prover]
proof fn lemma_registration_is_received(
    request: CatalogRequestView,
    catalog: [u8; 32],
    descriptors: Seq<CatalogDescriptor>,
)
    requires
        registration_fault(request, descriptors) is None,
        finite_payload(request.query, request.query_dtype.code_of()),
        request.query.len() + size_total(request, descriptors, descriptors.len()) <= usize::MAX,
        registration_body(request, catalog@, descriptors).len() <= usize::MAX,
    ensures
        parsed(
            request_frame(
                10,
                request.request_id,
                registration_body(request, catalog@, descriptors),
            ),
        ) == Ok::<RequestView, crate::reader::ProtocolError>(
            received(
                10,
                request,
                Seq::new(descriptors.len(), |i: int| registered(request, descriptors, i)),
                Catalog {
                    manifest: None,
                    catalog: Some(catalog@),
                    selection: None,
                    registration: true,
                    public_ids: ids_of(descriptors),
                    ordinals: seq![],
                },
            ),
        ),
{
    let body = registration_body(request, catalog@, descriptors);
    let count = descriptors.len();
    let listed = descriptor_bytes(descriptors, 0);
    let after_mode = catalog@ + listed;
    let after_query = seq![2u8] + after_mode;
    let prefix = prefix_bytes(request, count);
    lemma_add(prefix + seq![2u8], catalog@, listed);
    lemma_add(prefix, seq![2u8], after_mode);
    assert(body == prefix + after_query);
    lemma_parsed(10, request, count, after_query);
    lemma_read_u8(2u8, after_mode);
    lemma_read_bytes(catalog@, listed);
    lemma_all_registered(request, descriptors, 0);
    let none = Seq::<i64>::empty();
    assert(ids_of(descriptors).take(0) =~= none);
    assert(ids_of(descriptors).take(count as int) =~= ids_of(descriptors));
    assert(progress_at(request, descriptors, 0).candidates =~= seq![]);
    assert(fixed_of(request, count).candidate_dtype() == request.candidate_dtype.code_of());
}

/// A registration frame: the daemon parses it as the request that the client
/// encoded, with every tensor under its public ID. The query must be finite, and
/// the frame and the tensors must fit in memory.
pub proof fn registration_is_received(
    request: CatalogRequestView,
    catalog: [u8; 32],
    descriptors: Seq<CatalogDescriptor>,
)
    requires
        registration_fault(request, descriptors) is None,
        finite_payload(request.query, request.query_dtype.code_of()),
        request.query.len() + size_total(request, descriptors, descriptors.len()) <= usize::MAX,
        registration_body(request, catalog@, descriptors).len() <= usize::MAX,
    ensures
        parse_frame(
            request_frame(
                10,
                request.request_id,
                registration_body(request, catalog@, descriptors),
            ),
        ) == Ok::<RequestView, crate::reader::ProtocolError>(
            received(
                10,
                request,
                Seq::new(descriptors.len(), |i: int| registered(request, descriptors, i)),
                Catalog {
                    manifest: None,
                    catalog: Some(catalog@),
                    selection: None,
                    registration: true,
                    public_ids: ids_of(descriptors),
                    ordinals: seq![],
                },
            ),
        ),
{
    lemma_registration_is_received(request, catalog, descriptors);
    reveal(parsed);
}

/// The parts of a response header, wherever the body follows.
proof fn lemma_response(version: u16, request_id: u64, body: Seq<u8>)
    requires
        8 <= body.len() <= crate::client::MAX_RESPONSE_BYTES,
    ensures
        decode_frame(response_header(version, request_id, body.len() as u64) + body) == decode_body(
            version,
            request_id,
            body,
        ),
{
    let frame = response_header(version, request_id, body.len() as u64) + body;
    lemma_of16_le16(version);
    lemma_of16_le16(2);
    lemma_of64_le64(request_id);
    lemma_of64_le64(body.len() as u64);
    assert(frame.subrange(0, 4) =~= magic());
    assert(frame.subrange(4, 6) =~= le16(version));
    assert(frame.subrange(6, 8) =~= le16(2));
    assert(frame.subrange(8, 16) =~= le64(request_id));
    assert(frame.subrange(16, 24) =~= le64(body.len() as u64));
    assert(frame.skip(24) =~= body);
}

/// The parts of a response body.
proof fn lemma_response_body(status: u32, count: u32, section: Seq<u8>)
    ensures
        (le32(status) + le32(count) + section).len() == 8 + section.len(),
        of32((le32(status) + le32(count) + section).subrange(0, 4)) == status,
        of32((le32(status) + le32(count) + section).subrange(4, 8)) == count,
        (le32(status) + le32(count) + section).skip(8) == section,
{
    let body = le32(status) + le32(count) + section;
    lemma_of32_le32(status);
    lemma_of32_le32(count);
    assert(body.subrange(0, 4) =~= le32(status));
    assert(body.subrange(4, 8) =~= le32(count));
    assert(body.skip(8) =~= section);
}

/// The frame around a response body.
proof fn lemma_response_frame(version: u16, request_id: u64, status: u32, count: u32, section: Seq<u8>)
    requires
        8 + section.len() <= crate::client::MAX_RESPONSE_BYTES,
    ensures
        decode_frame(
            response_header(version, request_id, (8 + section.len()) as u64) + le32(status) + le32(
                count,
            ) + section,
        ) == decode_body(version, request_id, le32(status) + le32(count) + section),
{
    let body = le32(status) + le32(count) + section;
    let header = response_header(version, request_id, (8 + section.len()) as u64);
    lemma_response_body(status, count, section);
    lemma_response(version, request_id, body);
    lemma_add(header + le32(status), le32(count), section);
    lemma_add(header, le32(status), le32(count) + section);
    lemma_add(le32(status), le32(count), section);
}

/// A score on the wire reads back.
proof fn lemma_score(results: Seq<(u32, u32)>, index: int)
    requires
        0 <= index < results.len(),
    ensures
        score_bytes(results).len() == 8 * results.len(),
        score_at(score_bytes(results), index) == (Score {
            candidate_id: results[index].0,
            similarity_bits: results[index].1,
        }),
    decreases results.len(),
{
    let before = results.drop_last();
    let all = score_bytes(results);
    let part = score_bytes(before);
    if results.len() == 1 {
        assert(part.len() == 0);
    } else {
        lemma_score(before, 0);
    }
    if index == results.len() - 1 {
        let last = results.last();
        lemma_of32_le32(last.0);
        lemma_of32_le32(last.1);
        assert(all.subrange(8 * index, 8 * index + 4) =~= le32(last.0));
        assert(all.subrange(8 * index + 4, 8 * index + 8) =~= le32(last.1));
    } else {
        lemma_score(before, index);
        assert(all.subrange(8 * index, 8 * index + 4) =~= part.subrange(8 * index, 8 * index + 4));
        assert(all.subrange(8 * index + 4, 8 * index + 8) =~= part.subrange(
            8 * index + 4,
            8 * index + 8,
        ));
    }
}

/// A successful response: the client decodes the version, the request ID and
/// every score that the daemon sent. The scores must be finite, and the body
/// within what a client accepts.
pub proof fn success_is_received(version: u16, request_id: u64, results: Seq<(u32, u32)>)
    requires
        8 + 8 * results.len() <= crate::client::MAX_RESPONSE_BYTES,
        forall|i: int| 0 <= i < results.len() ==> finite32((#[trigger] results[i]).1),
    ensures
        decode_frame(success_frame(version, request_id, results)) == Ok::<
            ScoreResponseView,
            SdkErrorView,
        >(
            ScoreResponseView {
                protocol_version: version,
                request_id,
                scores: Seq::new(
                    results.len(),
                    |i: int| Score { candidate_id: results[i].0, similarity_bits: results[i].1 },
                ),
            },
        ),
{
    let count = results.len() as u32;
    let scores = score_bytes(results);
    if results.len() > 0 {
        lemma_score(results, 0);
    }
    lemma_response_frame(version, request_id, 0, count, scores);
    lemma_response_body(0, count, scores);
    assert forall|i: int| 0 <= i < results.len() implies #[trigger] score_at(scores, i) == (Score {
        candidate_id: results[i].0,
        similarity_bits: results[i].1,
    }) by {
        lemma_score(results, i);
    }
    assert(scores_of(scores, results.len()) =~= Seq::new(
        results.len(),
        |i: int| Score { candidate_id: results[i].0, similarity_bits: results[i].1 },
    ));
}

/// A failure: the client decodes the status, raised to one where it is zero, and
/// the message, or the typed miss that the message stands for. The message must
/// still be UTF-8 where the daemon cut it off.
pub proof fn failure_is_received(version: u16, request_id: u64, status: u32, message: Seq<u8>)
    requires
        valid_utf8(clipped(message)),
    ensures
        decode_frame(failure_frame(version, request_id, status, message)) == Err::<
            ScoreResponseView,
            SdkErrorView,
        >(
            remote_error(
                if status == 0 {
                    1
                } else {
                    status
                },
                decode_utf8(clipped(message)),
            ),
        ),
{
    let message = clipped(message);
    let count = message.len() as u32;
    let raised_status = if status == 0 {
        1u32
    } else {
        status
    };
    lemma_response_frame(version, request_id, raised_status, count, message);
    lemma_response_body(raised_status, count, message);
    assert(message.take(count as int) =~= message);
}

} // verus!
