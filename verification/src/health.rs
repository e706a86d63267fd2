//! Whether a daemon is ready: the answer of its status socket, its readiness
//! file, and the empty request that goes through its scheduler.

use crate::agreement::{lemma_header, lemma_read_bytes, lemma_read_text, lemma_read_u32, lemma_read_u8};
use crate::bytes::{
    le16, le32, le64, lemma_of16_le16, lemma_of32_le32, lemma_of64_le64, of16, of32, of64, put_bytes,
    put_u16, put_u32, put_u64, u16_at, u32_at, u64_at,
};
use crate::client::{request_frame, text_allowed};
use crate::lifecycle::PathFault;
use crate::numbers::{parse_u32, unsigned_value};
use crate::protocol::{
    finite16, finite_payload, magic, parse_frame, read_fixed, read_names, read_query, same_bytes,
    score_bytes, success_frame, Fixed, RequestView, ScoringProfile, HEADER_BYTES, REQUEST_KIND,
    RESPONSE_KIND, VERSION_EXTERNAL,
};
use crate::reader::{read_u16, ProtocolError, TextField};
use crate::text::{find_bytes, occurs, same_text};
use vstd::prelude::*;
use vstd::slice::slice_subrange;
use vstd::utf8::{encode_utf8, is_ascii_chars_encode_utf8};

verus! {

/// The request that asks a status socket whether the daemon is ready.
pub fn health_request() -> (text: &'static str)
    ensures
        text@ == "GET /healthz HTTP/1.1\r\nHost: localhost\r\nConnection: close\r\n\r\n"@,
{
    "GET /healthz HTTP/1.1\r\nHost: localhost\r\nConnection: close\r\n\r\n"
}

/// Whether bytes start with others.
pub open spec fn starts_with(bytes: Seq<u8>, part: Seq<u8>) -> bool {
    part.len() <= bytes.len() && bytes.subrange(0, part.len() as int) == part
}

/// Whether bytes end with others.
pub open spec fn ends_with(bytes: Seq<u8>, part: Seq<u8>) -> bool {
    part.len() <= bytes.len() && bytes.subrange(bytes.len() - part.len(), bytes.len() as int)
        == part
}

/// Whether a status socket answered that the daemon is ready: with the status
/// for success, a header that ends, and a body that says so.
pub open spec fn says_ready(response: Seq<u8>) -> bool {
    &&& starts_with(response, encode_utf8("HTTP/1.1 200 "@))
    &&& occurs(encode_utf8("\r\n\r\n"@), response)
    &&& ends_with(response, encode_utf8("{\"ready\":true}"@))
}

/// Tests whether a status socket answered that the daemon is ready.
pub fn is_ready_response(response: &[u8]) -> (result: bool)
    ensures
        result == says_ready(response@),
{
    let start: &[u8] = "HTTP/1.1 200 ".as_bytes();
    let gap: &[u8] = "\r\n\r\n".as_bytes();
    let end: &[u8] = "{\"ready\":true}".as_bytes();
    assert(response.len() == response@.len());
    if response.len() < start.len() || !same_bytes(
        slice_subrange(response, 0, start.len()),
        start,
    ) {
        return false;
    }
    if !find_bytes(gap, response) {
        return false;
    }
    if response.len() < end.len() {
        return false;
    }
    same_bytes(slice_subrange(response, response.len() - end.len(), response.len()), end)
}

/// Whether a client that waits for the daemon gives up after a failed attempt:
/// at once where it does not wait, else when its time is over.
pub fn gives_up(wait: u64, now: u128, deadline: u128) -> (result: bool)
    ensures
        result == (wait == 0 || now >= deadline),
{
    wait == 0 || now >= deadline
}

/// The positive number that a text is.
pub fn parse_positive_u32(value: &str) -> (result: Result<u32, String>)
    ensures
        match unsigned_value(value@) {
            Some(number) if 0 < number <= u32::MAX => result is Ok && result->Ok_0 == number,
            _ => result is Err && result->Err_0@ == "value must be a positive integer"@,
        },
{
    match parse_u32(value) {
        Some(number) => {
            if number == 0 {
                Err("value must be a positive integer".to_owned())
            } else {
                Ok(number)
            }
        },
        None => Err("value must be a positive integer".to_owned()),
    }
}

/// Why a daemon is not ready.
#[derive(Clone, Copy, Debug, PartialEq, Eq, Structural)]
pub enum HealthError {
    NotSocket,
    ReadySchema,
    OtherSocket,
    InvalidPid,
    NotRunning,
    PathNul,
    PathTooLong,
    ConnectTimeout,
    Expired,
    ProbeHeader,
    ProbeTooLarge,
    ProbeRejected,
}

impl HealthError {
    pub open spec fn message_text(self) -> Seq<char> {
        match self {
            HealthError::NotSocket => "configured path is not a Unix-domain socket"@,
            HealthError::ReadySchema => "unsupported readiness schema"@,
            HealthError::OtherSocket => "readiness file names a different socket"@,
            HealthError::InvalidPid => "readiness file contains an invalid PID"@,
            HealthError::NotRunning => "readiness PID is not running"@,
            HealthError::PathNul => "socket path contains a NUL byte"@,
            HealthError::PathTooLong => "socket path is too long"@,
            HealthError::ConnectTimeout => "connection timed out"@,
            HealthError::Expired => "probe deadline expired"@,
            HealthError::ProbeHeader => "daemon returned an invalid probe response header"@,
            HealthError::ProbeTooLarge => "daemon probe response is too large"@,
            HealthError::ProbeRejected => "daemon scheduler rejected the empty probe"@,
        }
    }

    /// The error in words.
    pub fn message(self) -> (text: &'static str)
        ensures
            text@ == self.message_text(),
    {
        match self {
            HealthError::NotSocket => "configured path is not a Unix-domain socket",
            HealthError::ReadySchema => "unsupported readiness schema",
            HealthError::OtherSocket => "readiness file names a different socket",
            HealthError::InvalidPid => "readiness file contains an invalid PID",
            HealthError::NotRunning => "readiness PID is not running",
            HealthError::PathNul => "socket path contains a NUL byte",
            HealthError::PathTooLong => "socket path is too long",
            HealthError::ConnectTimeout => "connection timed out",
            HealthError::Expired => "probe deadline expired",
            HealthError::ProbeHeader => "daemon returned an invalid probe response header",
            HealthError::ProbeTooLarge => "daemon probe response is too large",
            HealthError::ProbeRejected => "daemon scheduler rejected the empty probe",
        }
    }

    /// The error of a path that cannot be the address of a socket.
    pub fn of_path(fault: PathFault) -> (error: Self)
        ensures
            error == match fault {
                PathFault::Nul => HealthError::PathNul,
                PathFault::TooLong => HealthError::PathTooLong,
            },
    {
        match fault {
            PathFault::Nul => HealthError::PathNul,
            PathFault::TooLong => HealthError::PathTooLong,
        }
    }
}

/// Whether two texts are both missing, or are equal.
pub open spec fn same_name(left: Option<&str>, right: Option<&str>) -> bool {
    match (left, right) {
        (Some(left), Some(right)) => left@ == right@,
        (None, None) => true,
        _ => false,
    }
}

/// Tests what a readiness file says: its schema, the socket that it names, and
/// the process that wrote it. Gives the process.
pub fn check_ready(
    schema: Option<u64>,
    named: Option<&str>,
    socket: Option<&str>,
    pid: Option<u64>,
) -> (result: Result<i32, HealthError>)
    ensures
        result == if schema != Some(1u64) {
            Err::<i32, HealthError>(HealthError::ReadySchema)
        } else if !same_name(named, socket) {
            Err(HealthError::OtherSocket)
        } else if pid is None || pid->0 == 0 || pid->0 > i32::MAX {
            Err(HealthError::InvalidPid)
        } else {
            Ok(pid->0 as i32)
        },
{
    match schema {
        Some(1) => {},
        _ => {
            return Err(HealthError::ReadySchema);
        },
    }
    let same: bool = match (named, socket) {
        (Some(named), Some(socket)) => same_text(named, socket),
        (None, None) => true,
        _ => false,
    };
    if !same {
        return Err(HealthError::OtherSocket);
    }
    match pid {
        Some(pid) => {
            if pid == 0 || pid > 0x7fff_ffff {
                Err(HealthError::InvalidPid)
            } else {
                Ok(pid as i32)
            }
        },
        None => Err(HealthError::InvalidPid),
    }
}

/// The longest wait for a connection in milliseconds, as the system takes it.
pub fn poll_timeout(nanoseconds: u128) -> (milliseconds: i32)
    ensures
        milliseconds == if nanoseconds / 1_000_000 > i32::MAX {
            i32::MAX as int
        } else {
            (nanoseconds / 1_000_000) as int
        },
{
    let milliseconds: u128 = nanoseconds / 1_000_000;
    if milliseconds > 0x7fff_ffff {
        0x7fff_ffff
    } else {
        milliseconds as i32
    }
}

/// What came of a connection that was not there at once.
#[derive(Clone, Copy, Debug, PartialEq, Eq, Structural)]
pub enum ConnectStep {
    /// See whether the connection failed.
    Inspect,
    /// The wait failed; the system says why.
    WaitFailed,
    /// No connection came in time.
    TimedOut,
}

/// Takes what a wait for the connection gave.
pub fn after_wait(result: i32) -> (step: ConnectStep)
    ensures
        step == if result == 0 {
            ConnectStep::TimedOut
        } else if result < 0 {
            ConnectStep::WaitFailed
        } else {
            ConnectStep::Inspect
        },
{
    if result == 0 {
        ConnectStep::TimedOut
    } else if result < 0 {
        ConnectStep::WaitFailed
    } else {
        ConnectStep::Inspect
    }
}

/// The number of the empty request: `VCHEALTH`.
pub const PROBE_ID: u64 = 0x5643_4845_414c_5448;

/// The body of the empty request: a query of one row and one number, and no
/// candidates.
#[verifier::opaque]
pub open spec fn probe_body() -> Seq<u8> {
    le32(1) + (le32(1) + (le32(0) + (seq![2u8] + (seq![1u8] + (le16(0) + (le32(6) + (encode_utf8(
        "health"@,
    ) + le16(0))))))))
}

/// The frame of the empty request.
pub open spec fn probe_request() -> Seq<u8> {
    request_frame(VERSION_EXTERNAL, PROBE_ID, probe_body())
}

proof fn lemma_health()
    ensures
        "health"@.len() == 6,
        encode_utf8("health"@).len() == 6,
        text_allowed("health"@, 512),
{
    reveal_strlit("health");
    is_ascii_chars_encode_utf8("health"@);
}

proof fn lemma_probe_length()
    ensures
        probe_body().len() == 28,
{
    reveal(probe_body);
    lemma_health();
}

/// The frame of the empty request.
pub fn probe_frame() -> (frame: Vec<u8>)
    ensures
        frame@ == probe_request(),
{
    let contract: &[u8] = "health".as_bytes();
    let mut frame: Vec<u8> = Vec::new();
    frame.push(86);
    frame.push(67);
    frame.push(84);
    frame.push(77);
    assert(frame@ =~= magic());
    put_u16(&mut frame, VERSION_EXTERNAL);
    put_u16(&mut frame, REQUEST_KIND);
    put_u64(&mut frame, PROBE_ID);
    put_u64(&mut frame, 28);
    let ghost head = frame@;
    put_u32(&mut frame, 1);
    put_u32(&mut frame, 1);
    put_u32(&mut frame, 0);
    frame.push(2);
    frame.push(1);
    put_u16(&mut frame, 0);
    put_u32(&mut frame, 6);
    put_bytes(&mut frame, contract);
    put_u16(&mut frame, 0);
    proof {
        reveal(probe_body);
        lemma_health();
    }
    assert(frame@ =~= head + probe_body());
    frame
}

/// Whether a header begins the answer to the empty request.
pub open spec fn answers_probe(header: Seq<u8>) -> bool {
    &&& header.subrange(0, 4) == magic()
    &&& of16(header.subrange(4, 6)) == VERSION_EXTERNAL
    &&& of16(header.subrange(6, 8)) == RESPONSE_KIND
    &&& of64(header.subrange(8, 16)) == PROBE_ID
}

/// Tests the header of an answer, and gives the bytes of its body: at most 64
/// KiB.
pub fn check_probe_header(header: &[u8]) -> (result: Result<usize, HealthError>)
    requires
        header@.len() == HEADER_BYTES,
    ensures
        result == if !answers_probe(header@) {
            Err::<usize, HealthError>(HealthError::ProbeHeader)
        } else if of64(header@.subrange(16, 24)) > 65_536 {
            Err(HealthError::ProbeTooLarge)
        } else {
            Ok(of64(header@.subrange(16, 24)) as usize)
        },
{
    let marked: bool = header[0] == 86 && header[1] == 67 && header[2] == 84 && header[3] == 77;
    assert(marked == (header@.subrange(0, 4) == magic())) by {
        let head = header@.subrange(0, 4);
        if marked {
            assert(head =~= magic());
        } else if head == magic() {
            assert(head[0] == 86 && head[1] == 67 && head[2] == 84 && head[3] == 77);
        }
    }
    if !marked || u16_at(header, 4) != VERSION_EXTERNAL || u16_at(header, 6) != RESPONSE_KIND
        || u64_at(header, 8) != PROBE_ID {
        return Err(HealthError::ProbeHeader);
    }
    let length: u64 = u64_at(header, 16);
    if length > 65_536 {
        return Err(HealthError::ProbeTooLarge);
    }
    Ok(length as usize)
}

/// Whether the body of an answer says that the empty request was scored, with no
/// scores.
pub open spec fn accepts_probe(body: Seq<u8>) -> bool {
    &&& body.len() == 8
    &&& of32(body.subrange(0, 4)) == 0
    &&& of32(body.subrange(4, 8)) == 0
}

/// Tests the body of an answer.
pub fn check_probe_body(body: &[u8]) -> (result: Result<(), HealthError>)
    ensures
        result == if accepts_probe(body@) {
            Ok::<(), HealthError>(())
        } else {
            Err(HealthError::ProbeRejected)
        },
{
    if body.len() != 8 || u32_at(body, 0) != 0 || u32_at(body, 4) != 0 {
        return Err(HealthError::ProbeRejected);
    }
    Ok(())
}

/// The scheduler's answer to the empty request, which has no scores, is taken
/// as a sign of health.
pub proof fn empty_success_is_healthy()
    ensures
        ({
            let frame = success_frame(VERSION_EXTERNAL, PROBE_ID, seq![]);
            &&& frame.len() == HEADER_BYTES + 8
            &&& answers_probe(frame.take(24))
            &&& of64(frame.take(24).subrange(16, 24)) == 8
            &&& accepts_probe(frame.skip(24))
        }),
{
    let none: Seq<(u32, u32)> = seq![];
    let frame = success_frame(VERSION_EXTERNAL, PROBE_ID, none);
    let header = frame.take(24);
    let body = frame.skip(24);
    lemma_of16_le16(VERSION_EXTERNAL);
    lemma_of16_le16(RESPONSE_KIND);
    lemma_of64_le64(PROBE_ID);
    lemma_of64_le64(8);
    lemma_of32_le32(0);
    assert(score_bytes(none) =~= seq![]);
    assert(header.subrange(0, 4) =~= magic());
    assert(header.subrange(4, 6) =~= le16(VERSION_EXTERNAL));
    assert(header.subrange(6, 8) =~= le16(RESPONSE_KIND));
    assert(header.subrange(8, 16) =~= le64(PROBE_ID));
    assert(header.subrange(16, 24) =~= le64(8));
    assert(body.subrange(0, 4) =~= le32(0));
    assert(body.subrange(4, 8) =~= le32(0));
}

/// The fixed fields of the empty request.
spec fn probe_fixed() -> Fixed {
    Fixed {
        dimension: 1,
        query_rows: 1,
        candidate_count: 0,
        dtype: 2,
        profile: ScoringProfile::ExactFp16,
        storage_dtype: 0,
        contract_bytes: 6,
        quantization_bytes: 0,
        priority: 0,
        timeout_ms: 0,
        tenant_bytes: 0,
        top_k: None,
    }
}

/// Whether a body begins with fixed fields and goes on with texts.
#[verifier::opaque]
spec fn begins_with(body: Seq<u8>, fixed: Fixed, texts: Seq<u8>) -> bool {
    read_fixed(VERSION_EXTERNAL, body) == Ok::<(Fixed, Seq<u8>), ProtocolError>((fixed, texts))
}

/// Whether texts are followed by a query.
#[verifier::opaque]
spec fn followed_by(fixed: Fixed, texts: Seq<u8>, query: Seq<u8>) -> bool {
    read_names(VERSION_EXTERNAL, fixed, texts) is Ok && read_names(
        VERSION_EXTERNAL,
        fixed,
        texts,
    )->Ok_0.1 == query
}

/// Whether a query is all that is left.
#[verifier::opaque]
spec fn ends_in(fixed: Fixed, query: Seq<u8>) -> bool {
    read_query(fixed, query) is Ok && read_query(fixed, query)->Ok_0.1.len() == 0
}

#[verifier::rlimit(60)]
#[verifier::spinoff_prover]
proof fn lemma_probe_fixed()
    ensures
        begins_with(probe_body(), probe_fixed(), encode_utf8("health"@) + le16(0)),
{
    reveal(begins_with);
    reveal(probe_body);
    let after_length = encode_utf8("health"@) + le16(0);
    let after_reserved = le32(6) + after_length;
    let after_scoring = le16(0) + after_reserved;
    let after_dtype = seq![1u8] + after_scoring;
    let after_count = seq![2u8] + after_dtype;
    let after_rows = le32(0) + after_count;
    let after_dimension = le32(1) + after_rows;
    lemma_read_u32(1, after_dimension);
    lemma_read_u32(1, after_rows);
    lemma_read_u32(0, after_count);
    lemma_read_u8(2, after_dtype);
    lemma_read_u8(1, after_scoring);
    lemma_of16_le16(0);
    lemma_read_bytes(le16(0), after_reserved);
    assert(read_u16(after_scoring) == Ok::<(u16, Seq<u8>), ProtocolError>((0, after_reserved)));
    lemma_read_u32(6, after_length);
}

proof fn lemma_probe_texts()
    ensures
        followed_by(probe_fixed(), encode_utf8("health"@) + le16(0), le16(0)),
{
    reveal(followed_by);
    lemma_health();
    lemma_read_text("health"@, 512, TextField::ModelContract, le16(0));
}

proof fn lemma_probe_query()
    ensures
        ends_in(probe_fixed(), le16(0)),
{
    reveal(ends_in);
    let query = le16(0);
    lemma_of16_le16(0);
    assert(query + seq![] =~= query);
    lemma_read_bytes(query, seq![]);
    assert(query.subrange(0, 2) =~= query);
    assert(finite16(0));
    assert(finite_payload(query, 2));
}

/// A frame of the first version that lists no candidates, part by part.
#[verifier::rlimit(60)]
#[verifier::spinoff_prover]
proof fn lemma_empty_frame(body: Seq<u8>, fixed: Fixed, texts: Seq<u8>, query: Seq<u8>)
    requires
        body.len() <= u64::MAX,
        fixed.candidate_count == 0,
        begins_with(body, fixed, texts),
        followed_by(fixed, texts, query),
        ends_in(fixed, query),
    ensures
        is_empty_request(parse_frame(request_frame(VERSION_EXTERNAL, PROBE_ID, body))),
{
    reveal(begins_with);
    reveal(followed_by);
    reveal(ends_in);
    lemma_header(VERSION_EXTERNAL, PROBE_ID, body);
}

/// Whether the daemon took a frame for the empty request.
pub open spec fn is_empty_request(parsed: Result<RequestView, ProtocolError>) -> bool {
    match parsed {
        Ok(request) => {
            &&& request.request_id == PROBE_ID
            &&& request.protocol_version == VERSION_EXTERNAL
            &&& request.candidates.len() == 0
        },
        Err(_) => false,
    }
}

/// The daemon parses the empty request, and there is nothing in it to score.
pub proof fn probe_is_a_request()
    ensures
        is_empty_request(parse_frame(probe_request())),
{
    lemma_probe_length();
    lemma_probe_fixed();
    lemma_probe_texts();
    lemma_probe_query();
    lemma_empty_frame(
        probe_body(),
        probe_fixed(),
        encode_utf8("health"@) + le16(0),
        le16(0),
    );
}

} // verus!
