//! What a request frame says of its own length.
//!
//! Every part of a body says where it ends, so a body that is accepted is read to
//! its last byte: with anything after it, or without its end, it is refused.

use crate::bytes::{le64, lemma_of64_le64, of32, of64};
use crate::protocol::{
    is_scoped, listed_count, parse_body, parse_frame, progress_of, read_candidate, read_candidates,
    read_catalog, read_catalog_frame, read_fixed, read_header, read_names, read_ordinals, read_profile,
    read_public_ids, read_query, read_scope, read_selection_reference, read_tail, shared_of, Catalog,
    Fixed, Header, Names, Progress, RequestView, ScoringProfile, Shared, HEADER_BYTES,
    VERSION_CATALOG_LOGICAL_EXTERNAL,
};
use crate::reader::{read_bytes, read_u32, read_u8, read_varint_from, ProtocolError};
use vstd::prelude::*;

verus! {

/// Bytes after those that are read do not matter.
broadcast proof fn lemma_bytes(rest: Seq<u8>, more: Seq<u8>, count: nat)
    ensures
        read_bytes(rest, count) is Ok ==> #[trigger] read_bytes(rest + more, count) == Ok::<
            (Seq<u8>, Seq<u8>),
            ProtocolError,
        >((read_bytes(rest, count)->Ok_0.0, read_bytes(rest, count)->Ok_0.1 + more)),
{
    if read_bytes(rest, count) is Ok {
        let n = count as int;
        assert((rest + more).take(n) =~= rest.take(n));
        assert((rest + more).skip(n) =~= rest.skip(n) + more);
    }
}

broadcast proof fn lemma_varint(rest: Seq<u8>, more: Seq<u8>, index: nat)
    ensures
        read_varint_from(rest, index) is Ok ==> #[trigger] read_varint_from(rest + more, index)
            == Ok::<(nat, Seq<u8>), ProtocolError>(
            (read_varint_from(rest, index)->Ok_0.0, read_varint_from(rest, index)->Ok_0.1 + more),
        ),
    decreases 10 - index,
{
    broadcast use lemma_bytes;

    if index < 9 && read_bytes(rest, 1) is Ok {
        lemma_varint(read_bytes(rest, 1)->Ok_0.1, more, index + 1);
    }
}

proof fn lemma_profile(version: u16, rest: Seq<u8>, more: Seq<u8>)
    requires
        read_profile(version, rest) is Ok,
    ensures
        read_profile(version, rest + more) == Ok::<(ScoringProfile, u8, Seq<u8>), ProtocolError>(
            (
                read_profile(version, rest)->Ok_0.0,
                read_profile(version, rest)->Ok_0.1,
                read_profile(version, rest)->Ok_0.2 + more,
            ),
        ),
{
    broadcast use lemma_bytes;

}

proof fn lemma_tail(version: u16, fixed: Fixed, scoring: u8, rest: Seq<u8>, more: Seq<u8>)
    requires
        read_tail(version, fixed, scoring, rest) is Ok,
    ensures
        read_tail(version, fixed, scoring, rest + more) == Ok::<(Fixed, Seq<u8>), ProtocolError>(
            (
                read_tail(version, fixed, scoring, rest)->Ok_0.0,
                read_tail(version, fixed, scoring, rest)->Ok_0.1 + more,
            ),
        ),
{
    broadcast use lemma_bytes;

}

proof fn lemma_fixed(version: u16, rest: Seq<u8>, more: Seq<u8>)
    requires
        read_fixed(version, rest) is Ok,
    ensures
        read_fixed(version, rest + more) == Ok::<(Fixed, Seq<u8>), ProtocolError>(
            (read_fixed(version, rest)->Ok_0.0, read_fixed(version, rest)->Ok_0.1 + more),
        ),
{
    let (dimension, after) = read_u32(rest)->Ok_0;
    lemma_bytes(rest, more, 4);
    let (query_rows, left) = read_u32(after)->Ok_0;
    lemma_bytes(after, more, 4);
    let (candidate_count, after) = read_u32(left)->Ok_0;
    lemma_bytes(left, more, 4);
    let (dtype, left) = read_u8(after)->Ok_0;
    lemma_bytes(after, more, 1);
    let (scoring, after) = read_u8(left)->Ok_0;
    lemma_bytes(left, more, 1);
    let (profile, storage_dtype, left) = read_profile(version, after)->Ok_0;
    lemma_profile(version, after, more);
    let fixed = Fixed {
        dimension,
        query_rows,
        candidate_count,
        dtype,
        profile,
        storage_dtype,
        contract_bytes: 0,
        quantization_bytes: 0,
        priority: 0,
        timeout_ms: 0,
        tenant_bytes: 0,
        top_k: None,
    };
    lemma_tail(version, fixed, scoring, left, more);
}

proof fn lemma_names(version: u16, fixed: Fixed, rest: Seq<u8>, more: Seq<u8>)
    requires
        read_names(version, fixed, rest) is Ok,
    ensures
        read_names(version, fixed, rest + more) == Ok::<(Names, Seq<u8>), ProtocolError>(
            (
                read_names(version, fixed, rest)->Ok_0.0,
                read_names(version, fixed, rest)->Ok_0.1 + more,
            ),
        ),
{
    broadcast use lemma_bytes;

}

proof fn lemma_public_ids(count: nat, ids: Seq<i64>, rest: Seq<u8>, more: Seq<u8>)
    requires
        read_public_ids(count, ids, rest) is Ok,
    ensures
        read_public_ids(count, ids, rest + more) == Ok::<(Seq<i64>, Seq<u8>), ProtocolError>(
            (
                read_public_ids(count, ids, rest)->Ok_0.0,
                read_public_ids(count, ids, rest)->Ok_0.1 + more,
            ),
        ),
    decreases count - ids.len(),
{
    broadcast use lemma_varint;

    if ids.len() < count {
        let (delta, left) = read_varint_from(rest, 0)->Ok_0;
        let current = if ids.len() == 0 {
            delta as int
        } else {
            ids.last() + delta
        };
        lemma_public_ids(count, ids.push(current as i64), left, more);
    }
}

proof fn lemma_ordinals(
    count: nat,
    candidate_count: u32,
    ordinals: Seq<u32>,
    rest: Seq<u8>,
    more: Seq<u8>,
)
    requires
        read_ordinals(count, candidate_count, ordinals, rest) is Ok,
    ensures
        read_ordinals(count, candidate_count, ordinals, rest + more) == Ok::<
            (Seq<u32>, Seq<u8>),
            ProtocolError,
        >(
            (
                read_ordinals(count, candidate_count, ordinals, rest)->Ok_0.0,
                read_ordinals(count, candidate_count, ordinals, rest)->Ok_0.1 + more,
            ),
        ),
    decreases count - ordinals.len(),
{
    broadcast use lemma_varint;

    if ordinals.len() < count {
        let (delta, left) = read_varint_from(rest, 0)->Ok_0;
        let current = if ordinals.len() == 0 {
            delta as int
        } else {
            ordinals.last() + 1 + delta
        };
        lemma_ordinals(count, candidate_count, ordinals.push((current - 1) as u32), left, more);
    }
}

proof fn lemma_catalog_frame(count: u32, rest: Seq<u8>, more: Seq<u8>)
    requires
        read_catalog_frame(count, rest) is Ok,
    ensures
        read_catalog_frame(count, rest + more) == Ok::<(Catalog, Seq<u8>), ProtocolError>(
            (
                read_catalog_frame(count, rest)->Ok_0.0,
                read_catalog_frame(count, rest)->Ok_0.1 + more,
            ),
        ),
{
    broadcast use lemma_bytes;

    let (mode, left) = read_bytes(rest, 1)->Ok_0;
    let left = read_bytes(left, 32)->Ok_0.1;
    let count = if mode[0] == 1 {
        count as nat
    } else {
        0
    };
    lemma_public_ids(count, seq![], left, more);
}

proof fn lemma_selection_reference(version: u16, count: u32, rest: Seq<u8>, more: Seq<u8>)
    requires
        read_selection_reference(version, count, rest) is Ok,
    ensures
        read_selection_reference(version, count, rest + more) == Ok::<
            (Catalog, Seq<u8>),
            ProtocolError,
        >(
            (
                read_selection_reference(version, count, rest)->Ok_0.0,
                read_selection_reference(version, count, rest)->Ok_0.1 + more,
            ),
        ),
{
    broadcast use lemma_bytes;

    let left = read_bytes(rest, 1)->Ok_0.1;
    let left = read_bytes(left, 32)->Ok_0.1;
    let left = read_bytes(left, 32)->Ok_0.1;
    lemma_scope(version, count, left, more);
}

proof fn lemma_scope(version: u16, candidate_count: u32, rest: Seq<u8>, more: Seq<u8>)
    requires
        read_scope(version, candidate_count, rest) is Ok,
    ensures
        read_scope(version, candidate_count, rest + more) == Ok::<
            (Seq<u32>, Seq<u8>),
            ProtocolError,
        >(
            (
                read_scope(version, candidate_count, rest)->Ok_0.0,
                read_scope(version, candidate_count, rest)->Ok_0.1 + more,
            ),
        ),
{
    broadcast use lemma_bytes;

    if is_scoped(version) {
        let (part, left) = read_bytes(rest, 4)->Ok_0;
        lemma_ordinals(of32(part) as nat, candidate_count, seq![], left, more);
    }
}

proof fn lemma_catalog(version: u16, count: u32, rest: Seq<u8>, more: Seq<u8>)
    requires
        read_catalog(version, count, rest) is Ok,
    ensures
        read_catalog(version, count, rest + more) == Ok::<(Catalog, Seq<u8>), ProtocolError>(
            (
                read_catalog(version, count, rest)->Ok_0.0,
                read_catalog(version, count, rest)->Ok_0.1 + more,
            ),
        ),
{
    broadcast use lemma_bytes;

    if version == VERSION_CATALOG_LOGICAL_EXTERNAL {
        lemma_catalog_frame(count, rest, more);
    } else if version > VERSION_CATALOG_LOGICAL_EXTERNAL {
        lemma_selection_reference(version, count, rest, more);
    }
}

proof fn lemma_candidate(shared: Shared, progress: Progress, rest: Seq<u8>, more: Seq<u8>)
    requires
        read_candidate(shared, progress, rest) is Ok,
    ensures
        read_candidate(shared, progress, rest + more) == Ok::<(Progress, Seq<u8>), ProtocolError>(
            (
                read_candidate(shared, progress, rest)->Ok_0.0,
                read_candidate(shared, progress, rest)->Ok_0.1 + more,
            ),
        ),
{
    broadcast use lemma_bytes;

}

proof fn lemma_candidates(
    shared: Shared,
    left: nat,
    progress: Progress,
    rest: Seq<u8>,
    more: Seq<u8>,
)
    requires
        read_candidates(shared, left, progress, rest) is Ok,
    ensures
        read_candidates(shared, left, progress, rest + more) == Ok::<
            (Progress, Seq<u8>),
            ProtocolError,
        >(
            (
                read_candidates(shared, left, progress, rest)->Ok_0.0,
                read_candidates(shared, left, progress, rest)->Ok_0.1 + more,
            ),
        ),
    decreases left,
{
    if left > 0 {
        let (next, after) = read_candidate(shared, progress, rest)->Ok_0;
        lemma_candidate(shared, progress, rest, more);
        lemma_candidates(shared, (left - 1) as nat, next, after, more);
    }
}

/// A body that is accepted is refused with anything after it.
#[verifier::rlimit(60)]
#[verifier::spinoff_prover]
proof fn lemma_body(header: Header, more: Seq<u8>)
    requires
        parse_body(header) is Ok,
        more.len() > 0,
    ensures
        parse_body(Header { body: header.body + more, ..header }) == Err::<
            RequestView,
            ProtocolError,
        >(ProtocolError::TrailingBytes),
{
    let version = header.version;
    let (fixed, rest) = read_fixed(version, header.body)->Ok_0;
    lemma_fixed(version, header.body, more);
    let (names, after) = read_names(version, fixed, rest)->Ok_0;
    lemma_names(version, fixed, rest, more);
    let rest = after;
    let (query, after) = read_query(fixed, rest)->Ok_0;
    assert(read_query(fixed, rest + more) == Ok::<(Seq<u8>, Seq<u8>), ProtocolError>(
        (query, after + more),
    )) by {
        broadcast use lemma_bytes;

    }
    let rest = after;
    let (catalog, after) = read_catalog(version, fixed.candidate_count, rest)->Ok_0;
    lemma_catalog(version, fixed.candidate_count, rest, more);
    lemma_candidates(
        shared_of(version, fixed, names, catalog),
        listed_count(fixed, catalog),
        progress_of(fixed, query, catalog),
        after,
        more,
    );
}

/// A frame whose header gives the length of its body.
pub open spec fn relengthed(frame: Seq<u8>) -> Seq<u8> {
    frame.take(16) + le64((frame.len() - HEADER_BYTES) as u64) + frame.skip(HEADER_BYTES as int)
}

/// What the header of such a frame says.
proof fn lemma_relengthed(frame: Seq<u8>)
    requires
        frame.len() >= HEADER_BYTES,
    ensures
        relengthed(frame).len() == frame.len(),
        relengthed(frame).skip(HEADER_BYTES as int) == frame.skip(HEADER_BYTES as int),
        relengthed(frame).subrange(0, 4) == frame.subrange(0, 4),
        relengthed(frame).subrange(4, 6) == frame.subrange(4, 6),
        relengthed(frame).subrange(6, 8) == frame.subrange(6, 8),
        relengthed(frame).subrange(8, 16) == frame.subrange(8, 16),
        of64(relengthed(frame).subrange(16, 24)) == (frame.len() - HEADER_BYTES) as u64,
{
    let after = relengthed(frame);
    lemma_of64_le64((frame.len() - HEADER_BYTES) as u64);
    assert(after.skip(HEADER_BYTES as int) =~= frame.skip(HEADER_BYTES as int));
    assert(after.subrange(0, 4) =~= frame.subrange(0, 4));
    assert(after.subrange(4, 6) =~= frame.subrange(4, 6));
    assert(after.subrange(6, 8) =~= frame.subrange(6, 8));
    assert(after.subrange(8, 16) =~= frame.subrange(8, 16));
    assert(after.subrange(16, 24) =~= le64((frame.len() - HEADER_BYTES) as u64));
}

/// What the header of a longer frame says.
proof fn lemma_longer_header(frame: Seq<u8>, more: Seq<u8>)
    requires
        read_header(frame) is Ok,
    ensures
        ({
            let header = read_header(frame)->Ok_0;
            let longer = read_header(relengthed(frame + more));
            if frame.len() + more.len() - HEADER_BYTES <= u64::MAX {
                longer == Ok::<Header, ProtocolError>(
                    Header { body: header.body + more, ..header },
                )
            } else {
                longer is Err
            }
        }),
{
    let longer = frame + more;
    lemma_relengthed(longer);
    assert(longer.subrange(0, 4) =~= frame.subrange(0, 4));
    assert(longer.subrange(4, 6) =~= frame.subrange(4, 6));
    assert(longer.subrange(6, 8) =~= frame.subrange(6, 8));
    assert(longer.subrange(8, 16) =~= frame.subrange(8, 16));
    assert(longer.skip(HEADER_BYTES as int) =~= frame.skip(HEADER_BYTES as int) + more);
}

/// A frame that is accepted is refused with anything after its body, also where
/// its header gives the new length.
#[verifier::rlimit(60)]
#[verifier::spinoff_prover]
pub proof fn trailing_bytes_are_refused(frame: Seq<u8>, more: Seq<u8>)
    requires
        parse_frame(frame) is Ok,
        more.len() > 0,
    ensures
        parse_frame(relengthed(frame + more)) is Err,
        frame.len() + more.len() - HEADER_BYTES <= u64::MAX ==> parse_frame(relengthed(frame + more))
            == Err::<RequestView, ProtocolError>(ProtocolError::TrailingBytes),
{
    lemma_longer_header(frame, more);
    lemma_body(read_header(frame)->Ok_0, more);
}

/// What the header of a cut frame says, where it is one.
proof fn lemma_cut_header(frame: Seq<u8>, count: int)
    requires
        read_header(frame) is Ok,
        HEADER_BYTES <= count < frame.len(),
        read_header(relengthed(frame.take(count))) is Ok,
    ensures
        ({
            let header = read_header(frame)->Ok_0;
            let cut = read_header(relengthed(frame.take(count)))->Ok_0;
            header == (Header { body: cut.body + frame.skip(count), ..cut })
        }),
{
    let shorter = frame.take(count);
    lemma_relengthed(shorter);
    assert(shorter.subrange(4, 6) =~= frame.subrange(4, 6));
    assert(shorter.subrange(8, 16) =~= frame.subrange(8, 16));
    assert(frame.skip(HEADER_BYTES as int) =~= shorter.skip(HEADER_BYTES as int) + frame.skip(count));
}

/// A frame that is accepted is refused without the end of its body, also where its
/// header gives the new length.
#[verifier::rlimit(60)]
#[verifier::spinoff_prover]
pub proof fn cut_frames_are_refused(frame: Seq<u8>, count: int)
    requires
        parse_frame(frame) is Ok,
        HEADER_BYTES <= count < frame.len(),
    ensures
        parse_frame(relengthed(frame.take(count))) is Err,
{
    let cut = relengthed(frame.take(count));
    if parse_frame(cut) is Ok {
        lemma_cut_header(frame, count);
        lemma_body(read_header(cut)->Ok_0, frame.skip(count));
    }
}

} // verus!
