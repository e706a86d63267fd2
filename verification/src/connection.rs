//! What a daemon makes of one connection: how the frame of a request is read,
//! and how the request is answered.
//!
//! Times are nanoseconds on one monotonic clock. The functions decide one step
//! at a time; the caller reads, waits and writes.

use crate::bytes::{of16, of64, u16_at, u64_at};
use crate::protocol::{
    failure, failure_frame, parse, parse_frame, scalar_bytes, success, success_frame, Descriptor,
    DescriptorView, Request, RequestView, HEADER_BYTES, VERSION_EXTERNAL,
};
use crate::text::{contains_text, holds_text, occurs};
use vstd::prelude::*;
use vstd::utf8::{encode_utf8, is_ascii_chars, is_ascii_chars_encode_utf8};

verus! {

pub const STATUS_INVALID_REQUEST: u32 = 1;

pub const STATUS_RESOURCE_LIMIT: u32 = 2;

pub const STATUS_COMPUTE_ERROR: u32 = 3;

/// The longest wait for a reply before the client is looked at again: 25
/// milliseconds.
pub const WAIT_QUANTUM: u64 = 25_000_000;

/// Why no request can be read from a connection.
#[derive(Clone, Copy, Debug, PartialEq, Eq, Structural)]
pub enum FrameError {
    IncompleteHeader,
    BodyTooLarge,
    LengthOverflow,
    OverLimit,
}

impl FrameError {
    pub open spec fn message_text(self) -> Seq<char> {
        match self {
            FrameError::IncompleteHeader => "client closed with an incomplete request header"@,
            FrameError::BodyTooLarge => "request body does not fit this host"@,
            FrameError::LengthOverflow => "request length overflow"@,
            FrameError::OverLimit => "request exceeds byte limit"@,
        }
    }

    /// The error in words.
    pub fn message(self) -> (text: &'static str)
        ensures
            text@ == self.message_text(),
    {
        match self {
            FrameError::IncompleteHeader => "client closed with an incomplete request header",
            FrameError::BodyTooLarge => "request body does not fit this host",
            FrameError::LengthOverflow => "request length overflow",
            FrameError::OverLimit => "request exceeds byte limit",
        }
    }
}

/// What a read of header bytes came to.
#[derive(Clone, Copy, Debug, PartialEq, Eq, Structural)]
pub enum HeaderStep {
    /// So many bytes of the header are there; more are to be read.
    More(usize),
    /// The header is there.
    Complete,
    /// The client closed the connection and sent nothing: it only wanted to see
    /// whether it is accepted.
    Closed,
}

/// What a read of header bytes comes to.
pub open spec fn header_read(read: nat, bytes: nat) -> Result<HeaderStep, FrameError> {
    if bytes == 0 && read == 0 {
        Ok(HeaderStep::Closed)
    } else if bytes == 0 {
        Err(FrameError::IncompleteHeader)
    } else if read + bytes == HEADER_BYTES {
        Ok(HeaderStep::Complete)
    } else {
        Ok(HeaderStep::More((read + bytes) as usize))
    }
}

/// Takes a read of `bytes` bytes, where `read` bytes of the header were there.
pub fn read_header_step(read: usize, bytes: usize) -> (result: Result<HeaderStep, FrameError>)
    requires
        read < HEADER_BYTES,
        read + bytes <= HEADER_BYTES,
    ensures
        result == header_read(read as nat, bytes as nat),
{
    if bytes == 0 {
        if read == 0 {
            return Ok(HeaderStep::Closed);
        }
        return Err(FrameError::IncompleteHeader);
    }
    if read + bytes == HEADER_BYTES {
        Ok(HeaderStep::Complete)
    } else {
        Ok(HeaderStep::More(read + bytes))
    }
}

/// The bytes of the body that a header announces.
pub open spec fn announced(header: Seq<u8>) -> u64 {
    of64(header.subrange(16, 24))
}

/// The bytes of the body that is to be read after a header, where the frame has
/// at most `maximum` bytes.
pub fn body_length(header: &[u8], maximum: usize) -> (result: Result<usize, FrameError>)
    requires
        header@.len() == HEADER_BYTES,
    ensures
        result == if announced(header@) > usize::MAX {
            Err::<usize, FrameError>(FrameError::BodyTooLarge)
        } else if HEADER_BYTES + announced(header@) > usize::MAX {
            Err(FrameError::LengthOverflow)
        } else if HEADER_BYTES + announced(header@) > maximum {
            Err(FrameError::OverLimit)
        } else {
            Ok(announced(header@) as usize)
        },
{
    let announced: u64 = u64_at(header, 16);
    if announced > usize::MAX as u64 {
        return Err(FrameError::BodyTooLarge);
    }
    let body: usize = announced as usize;
    match HEADER_BYTES.checked_add(body) {
        None => Err(FrameError::LengthOverflow),
        Some(total) => {
            if total > maximum {
                Err(FrameError::OverLimit)
            } else {
                Ok(body)
            }
        },
    }
}

/// The number of the request in a frame, or zero where the frame has none.
pub open spec fn frame_request_id(frame: Seq<u8>) -> u64 {
    if frame.len() < HEADER_BYTES {
        0
    } else {
        of64(frame.subrange(8, 16))
    }
}

/// The number of the request in a frame, or zero where the frame has none.
pub fn header_request_id(frame: &[u8]) -> (id: u64)
    ensures
        id == frame_request_id(frame@),
{
    if frame.len() < HEADER_BYTES {
        0
    } else {
        u64_at(frame, 8)
    }
}

/// The version that a frame is answered in: its own, or the first one where it
/// has none.
pub open spec fn frame_version(frame: Seq<u8>) -> u16 {
    if frame.len() < HEADER_BYTES {
        VERSION_EXTERNAL
    } else {
        of16(frame.subrange(4, 6))
    }
}

/// The version that a frame is answered in.
pub fn header_version(frame: &[u8]) -> (version: u16)
    ensures
        version == frame_version(frame@),
{
    if frame.len() < HEADER_BYTES {
        VERSION_EXTERNAL
    } else {
        u16_at(frame, 4)
    }
}

/// The rows of the first `count` tensors.
pub open spec fn listed_rows(candidates: Seq<DescriptorView>, count: int) -> int
    decreases count,
{
    if count <= 0 {
        0
    } else {
        listed_rows(candidates, count - 1) + candidates[count - 1].rows
    }
}

/// The bytes of a number of a kind.
pub open spec fn number_size(dtype: u8) -> int {
    match scalar_bytes(dtype) {
        Some(size) => size as int,
        None => 0,
    }
}

/// The bytes of the first `count` tensors.
pub open spec fn listed_bytes(candidates: Seq<DescriptorView>, count: int) -> int
    decreases count,
{
    if count <= 0 {
        0
    } else {
        let candidate = candidates[count - 1];
        listed_bytes(candidates, count - 1) + candidate.rows * candidate.dimension * number_size(
            candidate.dtype,
        )
    }
}

/// The rows of all tensors of a request, the query among them.
pub open spec fn request_tokens(request: RequestView) -> int {
    request.query_rows + listed_rows(request.candidates, request.candidates.len() as int)
}

/// The bytes of all tensors of a request, the query among them.
pub open spec fn request_bytes(request: RequestView) -> int {
    request.query.len() + listed_bytes(request.candidates, request.candidates.len() as int)
}

/// Whether the tensors of a request are within the limits.
pub open spec fn within_limits(request: RequestView, max_tokens: nat, max_bytes: nat) -> bool {
    request_tokens(request) <= max_tokens && request_bytes(request) <= max_bytes
}

proof fn lemma_listed_grow(candidates: Seq<DescriptorView>, count: int, all: int)
    requires
        0 <= count <= all,
    ensures
        0 <= listed_rows(candidates, count) <= listed_rows(candidates, all),
        0 <= listed_bytes(candidates, count) <= listed_bytes(candidates, all),
    decreases all,
{
    if all > 0 {
        let last = candidates[all - 1];
        assert(last.rows * last.dimension * number_size(last.dtype) >= 0) by (nonlinear_arith)
            requires
                number_size(last.dtype) >= 0,
        ;
    }
    if count < all {
        lemma_listed_grow(candidates, count, all - 1);
    } else if count > 0 {
        lemma_listed_grow(candidates, count - 1, count - 1);
    }
}

/// Tests whether the tensors of a request are within the limits.
pub fn fits_batch(request: &Request, max_tokens: usize, max_bytes: usize) -> (result: bool)
    ensures
        result == within_limits(request@, max_tokens as nat, max_bytes as nat),
{
    let candidates: &Vec<Descriptor> = &request.candidates;
    let ghost views = request@.candidates;
    let ghost total = views.len() as int;
    let mut tokens: u128 = request.query_rows as u128;
    let mut bytes: u128 = request.query.len() as u128;
    let mut i: usize = 0;
    while i < candidates.len()
        invariant
            i <= candidates@.len(),
            candidates == request.candidates,
            views == request@.candidates,
            views.len() == candidates@.len(),
            total == views.len(),
            forall|j: int| 0 <= j < total ==> views[j] == (#[trigger] candidates@[j])@,
            tokens == request.query_rows + listed_rows(views, i as int),
            bytes == request.query@.len() + listed_bytes(views, i as int),
            tokens <= max_tokens || i == 0,
            bytes <= max_bytes || i == 0,
            request.query@.len() <= usize::MAX,
        decreases candidates@.len() - i,
    {
        let candidate: &Descriptor = &candidates[i];
        let scalar: u128 = match candidate.dtype {
            1 => 4,
            2 => 2,
            3 => 1,
            _ => 0,
        };
        assert(candidate@ == views[i as int]);
        assert(scalar == number_size(candidate.dtype));
        let ghost rows = candidate.rows as int;
        let ghost dimension = candidate.dimension as int;
        assert(0 <= rows * dimension <= 0xffff_ffff * 0xffff_ffff) by (nonlinear_arith)
            requires
                0 <= rows <= 0xffff_ffff,
                0 <= dimension <= 0xffff_ffff,
        ;
        let size: u128 = candidate.rows as u128 * candidate.dimension as u128 * scalar;
        tokens = tokens + candidate.rows as u128;
        bytes = bytes + size;
        i += 1;
        if tokens > max_tokens as u128 || bytes > max_bytes as u128 {
            proof {
                lemma_listed_grow(views, i as int, total);
            }
            return false;
        }
    }
    tokens <= max_tokens as u128 && bytes <= max_bytes as u128
}

/// How the log names what became of a connection.
#[derive(Clone, Copy, Debug, PartialEq, Eq, Structural)]
pub enum Outcome {
    ReadinessProbe,
    InvalidRequest,
    BatchLimit,
    Timeout,
    QueueFull,
    IoError,
}

impl Outcome {
    pub open spec fn name_text(self) -> Seq<char> {
        match self {
            Outcome::ReadinessProbe => "readiness_probe"@,
            Outcome::InvalidRequest => "invalid_request"@,
            Outcome::BatchLimit => "batch_limit"@,
            Outcome::Timeout => "timeout"@,
            Outcome::QueueFull => "gpu_queue_full"@,
            Outcome::IoError => "io_error"@,
        }
    }

    pub fn name(self) -> (text: &'static str)
        ensures
            text@ == self.name_text(),
    {
        match self {
            Outcome::ReadinessProbe => "readiness_probe",
            Outcome::InvalidRequest => "invalid_request",
            Outcome::BatchLimit => "batch_limit",
            Outcome::Timeout => "timeout",
            Outcome::QueueFull => "gpu_queue_full",
            Outcome::IoError => "io_error",
        }
    }
}

/// What a frame is answered with, if it is answered at once.
pub struct Answer {
    pub frame: Vec<u8>,
    pub request_id: u64,
    pub outcome: Outcome,
}

/// What becomes of a frame.
pub enum Reaction {
    /// The request goes to the scheduler.
    Queue(Request),
    /// The request is refused.
    Refuse(Answer),
}

/// Whether an answer refuses a request.
pub open spec fn refuses(
    answer: Answer,
    version: u16,
    request_id: u64,
    status: u32,
    message: Seq<char>,
    outcome: Outcome,
) -> bool {
    &&& answer.frame@ == failure_frame(version, request_id, status, encode_utf8(message))
    &&& answer.request_id == request_id
    &&& answer.outcome == outcome
}

fn refuse(version: u16, request_id: u64, status: u32, message: &str, outcome: Outcome) -> (answer:
    Answer)
    ensures
        refuses(answer, version, request_id, status, message@, outcome),
{
    Answer { frame: failure(version, request_id, status, message), request_id, outcome }
}

/// Takes the frame of a request at time `now`. A frame that is none, a request
/// with too many tensors and one that is too late are refused; each is told why,
/// under its own number and in its own version.
pub fn receive(
    frame: &[u8],
    max_tokens: usize,
    max_bytes: usize,
    now: u128,
    deadline: u128,
) -> (reaction: Reaction)
    ensures
        match parse_frame(frame@) {
            Err(error) => reaction is Refuse && refuses(
                reaction->Refuse_0,
                frame_version(frame@),
                frame_request_id(frame@),
                STATUS_INVALID_REQUEST,
                error.message_text(),
                Outcome::InvalidRequest,
            ),
            Ok(request) => if !within_limits(request, max_tokens as nat, max_bytes as nat) {
                reaction is Refuse && refuses(
                    reaction->Refuse_0,
                    request.protocol_version,
                    request.request_id,
                    STATUS_RESOURCE_LIMIT,
                    "request exceeds configured tensor batch limits"@,
                    Outcome::BatchLimit,
                )
            } else if now >= deadline {
                reaction is Refuse && refuses(
                    reaction->Refuse_0,
                    request.protocol_version,
                    request.request_id,
                    STATUS_COMPUTE_ERROR,
                    "request deadline expired before queueing"@,
                    Outcome::Timeout,
                )
            } else {
                reaction is Queue && reaction->Queue_0@ == request
            },
        },
{
    let request: Request = match parse(frame) {
        Ok(request) => request,
        Err(error) => {
            let message: String = error.message();
            return Reaction::Refuse(
                refuse(
                    header_version(frame),
                    header_request_id(frame),
                    STATUS_INVALID_REQUEST,
                    message.as_str(),
                    Outcome::InvalidRequest,
                ),
            );
        },
    };
    if !fits_batch(&request, max_tokens, max_bytes) {
        return Reaction::Refuse(
            refuse(
                request.protocol_version,
                request.request_id,
                STATUS_RESOURCE_LIMIT,
                "request exceeds configured tensor batch limits",
                Outcome::BatchLimit,
            ),
        );
    }
    if now >= deadline {
        return Reaction::Refuse(
            refuse(
                request.protocol_version,
                request.request_id,
                STATUS_COMPUTE_ERROR,
                "request deadline expired before queueing",
                Outcome::Timeout,
            ),
        );
    }
    Reaction::Queue(request)
}

/// A request that the scheduler has.
#[derive(Clone, Copy, Debug, PartialEq, Eq, Structural)]
pub struct Pending {
    pub version: u16,
    pub request_id: u64,
    pub deadline: u128,
}

/// What came of handing a request to the scheduler.
#[derive(Clone, Copy, Debug, PartialEq, Eq, Structural)]
pub enum Handover {
    Queued,
    Full,
    Stopped,
}

/// What came of a wait for the reply.
pub enum WaitEvent {
    Reply(Vec<u8>),
    /// Nothing came; the client is there or has gone.
    Elapsed { disconnected: bool },
    /// The scheduler let the request go.
    Dropped,
}

/// What is done next about a request that the scheduler has.
pub enum Step {
    /// Wait for the reply for so long.
    Wait(u128),
    /// See how late it is, and wait again.
    Again,
    /// Write the frame, and close the connection.
    Reply(Vec<u8>),
    /// Refuse the request, and say so in the log.
    Refuse(Answer),
    /// Cancel the request, and write the frame.
    Expire(Vec<u8>),
    /// Cancel the request, and close the connection.
    Abandon,
    /// Give up, with the reason.
    Fail(String),
}

impl Pending {
    /// Takes what came of handing the request to the scheduler.
    pub fn handed_over(&self, handover: Handover) -> (step: Step)
        ensures
            match handover {
                Handover::Queued => step is Again,
                Handover::Full => step is Refuse && refuses(
                    step->Refuse_0,
                    self.version,
                    self.request_id,
                    STATUS_RESOURCE_LIMIT,
                    "GPU request queue is full"@,
                    Outcome::QueueFull,
                ),
                Handover::Stopped => step is Fail && step->Fail_0@
                    == "GPU scheduler stopped unexpectedly"@,
            },
    {
        match handover {
            Handover::Queued => Step::Again,
            Handover::Full => Step::Refuse(
                refuse(
                    self.version,
                    self.request_id,
                    STATUS_RESOURCE_LIMIT,
                    "GPU request queue is full",
                    Outcome::QueueFull,
                ),
            ),
            Handover::Stopped => Step::Fail("GPU scheduler stopped unexpectedly".to_owned()),
        }
    }

    /// What is done at time `now`: the reply is waited for until the deadline,
    /// but never longer than the wait quantum at a time.
    pub fn proceed(&self, now: u128) -> (step: Step)
        ensures
            if now >= self.deadline {
                step is Expire && step->Expire_0@ == failure_frame(
                    self.version,
                    self.request_id,
                    STATUS_COMPUTE_ERROR,
                    encode_utf8("request deadline expired"@),
                )
            } else {
                &&& step is Wait
                &&& step->Wait_0 == if self.deadline - now < WAIT_QUANTUM {
                    self.deadline - now
                } else {
                    WAIT_QUANTUM as int
                }
                &&& now + step->Wait_0 <= self.deadline
            },
    {
        if now >= self.deadline {
            return Step::Expire(
                failure(
                    self.version,
                    self.request_id,
                    STATUS_COMPUTE_ERROR,
                    "request deadline expired",
                ),
            );
        }
        let left: u128 = self.deadline - now;
        let quantum: u128 = WAIT_QUANTUM as u128;
        Step::Wait(
            if left < quantum {
                left
            } else {
                quantum
            },
        )
    }

    /// Takes what came of a wait.
    pub fn waited(&self, event: WaitEvent) -> (step: Step)
        ensures
            match event {
                WaitEvent::Reply(frame) => step == Step::Reply(frame),
                WaitEvent::Elapsed { disconnected } => if disconnected {
                    step is Abandon
                } else {
                    step is Again
                },
                WaitEvent::Dropped => step is Fail && step->Fail_0@
                    == "GPU scheduler dropped a request without a response"@,
            },
    {
        match event {
            WaitEvent::Reply(frame) => Step::Reply(frame),
            WaitEvent::Elapsed { disconnected } => {
                if disconnected {
                    Step::Abandon
                } else {
                    Step::Again
                }
            },
            WaitEvent::Dropped => Step::Fail(
                "GPU scheduler dropped a request without a response".to_owned(),
            ),
        }
    }
}

/// How much time is left before a deadline, if any is.
pub open spec fn time_left(deadline: u128, now: u128) -> Option<u128> {
    if now >= deadline {
        None
    } else {
        Some((deadline - now) as u128)
    }
}

/// How much time is left before a deadline, if any is.
pub fn remaining(deadline: u128, now: u128) -> (left: Option<u128>)
    ensures
        left == time_left(deadline, now),
{
    if now >= deadline {
        None
    } else {
        Some(deadline - now)
    }
}

/// Answers a connection that failed: with no request number, as none is known.
/// The log tells a failure by a deadline from others.
pub fn fail_connection(message: &str, timed_out: bool) -> (answer: Answer)
    ensures
        refuses(
            answer,
            VERSION_EXTERNAL,
            0,
            STATUS_COMPUTE_ERROR,
            message@,
            if timed_out || holds_text(message@, "deadline"@) {
                Outcome::Timeout
            } else {
                Outcome::IoError
            },
        ),
{
    let outcome: Outcome = if timed_out || contains_text(message, "deadline") {
        Outcome::Timeout
    } else {
        Outcome::IoError
    };
    refuse(VERSION_EXTERNAL, 0, STATUS_COMPUTE_ERROR, message, outcome)
}

/// How the log names what became of a request.
#[derive(Clone, Copy, Debug, PartialEq, Eq, Structural)]
pub enum WorkStatus {
    Scored,
    Timeout,
    Canceled,
    ComputeError,
}

impl WorkStatus {
    pub open spec fn name_text(self) -> Seq<char> {
        match self {
            WorkStatus::Scored => "ok"@,
            WorkStatus::Timeout => "timeout"@,
            WorkStatus::Canceled => "canceled"@,
            WorkStatus::ComputeError => "compute_error"@,
        }
    }

    pub fn name(self) -> (text: &'static str)
        ensures
            text@ == self.name_text(),
    {
        match self {
            WorkStatus::Scored => "ok",
            WorkStatus::Timeout => "timeout",
            WorkStatus::Canceled => "canceled",
            WorkStatus::ComputeError => "compute_error",
        }
    }
}

/// Why a request is not scored when its turn comes.
pub open spec fn turned_away(now: u128, deadline: u128, canceled: bool) -> Option<Seq<char>> {
    if now >= deadline {
        Some("request deadline expired in the GPU queue"@)
    } else if canceled {
        Some("request canceled because the client disconnected"@)
    } else {
        None
    }
}

/// Whether a request is scored when its turn comes: not when it is too late, and
/// not when nobody waits for it.
pub fn take_turn(now: u128, deadline: u128, canceled: bool) -> (refusal: Option<&'static str>)
    ensures
        match refusal {
            Some(message) => turned_away(now, deadline, canceled) == Some(message@),
            None => turned_away(now, deadline, canceled) is None,
        },
{
    if now >= deadline {
        Some("request deadline expired in the GPU queue")
    } else if canceled {
        Some("request canceled because the client disconnected")
    } else {
        None
    }
}

/// How the log names a request that was not scored.
pub open spec fn failed_status(message: Seq<char>) -> WorkStatus {
    if holds_text(message, "deadline"@) {
        WorkStatus::Timeout
    } else if holds_text(message, "canceled"@) {
        WorkStatus::Canceled
    } else {
        WorkStatus::ComputeError
    }
}

/// The reply of the scheduler.
pub struct WorkReply {
    pub status: WorkStatus,
    pub frame: Vec<u8>,
}

/// Answers a request, with its scores or with the reason why there are none.
pub fn conclude(version: u16, request_id: u64, result: Result<&[(u32, u32)], &str>) -> (reply:
    WorkReply)
    requires
        result matches Ok(results) ==> results@.len() <= u32::MAX && 8 * results@.len() + 32
            <= usize::MAX,
    ensures
        match result {
            Ok(results) => reply.status == WorkStatus::Scored && reply.frame@ == success_frame(
                version,
                request_id,
                results@,
            ),
            Err(message) => reply.status == failed_status(message@) && reply.frame@ == failure_frame(
                version,
                request_id,
                STATUS_COMPUTE_ERROR,
                encode_utf8(message@),
            ),
        },
{
    match result {
        Ok(results) => WorkReply {
            status: WorkStatus::Scored,
            frame: success(version, request_id, results),
        },
        Err(message) => {
            let status: WorkStatus = if contains_text(message, "deadline") {
                WorkStatus::Timeout
            } else if contains_text(message, "canceled") {
                WorkStatus::Canceled
            } else {
                WorkStatus::ComputeError
            };
            WorkReply {
                status,
                frame: failure(version, request_id, STATUS_COMPUTE_ERROR, message),
            }
        },
    }
}

/// The bytes of a text are its characters, where all of them are ASCII.
proof fn lemma_ascii_bytes(text: Seq<char>, bytes: Seq<u8>)
    requires
        is_ascii_chars(text),
        bytes.len() == text.len(),
        forall|i: int| 0 <= i < text.len() ==> bytes[i] as int == #[trigger] text[i] as int,
    ensures
        encode_utf8(text) == bytes,
{
    is_ascii_chars_encode_utf8(text);
    assert(encode_utf8(text) =~= bytes);
}

/// A request whose turn comes too late is logged as one that timed out, and one
/// whose client has gone as one that was canceled.
pub proof fn refused_turns_are_told_apart(now: u128, deadline: u128, canceled: bool)
    requires
        turned_away(now, deadline, canceled) is Some,
    ensures
        failed_status(turned_away(now, deadline, canceled)->0) == if now >= deadline {
            WorkStatus::Timeout
        } else {
            WorkStatus::Canceled
        },
{
    reveal_strlit("deadline");
    reveal_strlit("canceled");
    let deadline_bytes = seq![100u8, 101, 97, 100, 108, 105, 110, 101];
    let canceled_bytes = seq![99u8, 97, 110, 99, 101, 108, 101, 100];
    lemma_ascii_bytes("deadline"@, deadline_bytes);
    lemma_ascii_bytes("canceled"@, canceled_bytes);
    if now >= deadline {
        let message = "request deadline expired in the GPU queue"@;
        reveal_strlit("request deadline expired in the GPU queue");
        is_ascii_chars_encode_utf8(message);
        let bytes = encode_utf8(message);
        assert(bytes.subrange(8int, 8int + deadline_bytes.len()) =~= deadline_bytes);
        assert(occurs(deadline_bytes, bytes));
    } else {
        let message = "request canceled because the client disconnected"@;
        reveal_strlit("request canceled because the client disconnected");
        is_ascii_chars_encode_utf8(message);
        let bytes = encode_utf8(message);
        assert(bytes.subrange(8int, 8int + canceled_bytes.len()) =~= canceled_bytes);
        assert(occurs(canceled_bytes, bytes));
        assert(!occurs(deadline_bytes, bytes)) by {
            assert forall|i: int| 0 <= i <= bytes.len() - deadline_bytes.len() implies #[trigger]
                bytes.subrange(i, i + deadline_bytes.len()) != deadline_bytes by {
                let part = bytes.subrange(i, i + deadline_bytes.len());
                if part == deadline_bytes {
                    assert(part[0] == 100);
                    assert(part[1] == 101);
                    assert(bytes[i] == 100 && bytes[i + 1] == 101);
                    assert(bytes[i] == message[i] as u8 && bytes[i + 1] == message[i + 1] as u8);
                    assert(false);
                }
            }
        }
    }
}

/// The limits count every tensor of a request, the query among them: its rows, and its
/// bytes.
pub proof fn limits_count_every_tensor(request: RequestView, max_tokens: nat, max_bytes: nat)
    ensures
        within_limits(request, max_tokens, max_bytes) <==> request.query_rows
            + request.candidates.fold_left(
            0int,
            |sum: int, candidate: DescriptorView| sum + candidate.rows,
        ) <= max_tokens && request.query.len() + request.candidates.fold_left(
            0int,
            |sum: int, candidate: DescriptorView|
                sum + candidate.rows * candidate.dimension * number_size(candidate.dtype),
        ) <= max_bytes,
{
    lemma_listed_sums(request.candidates, request.candidates.len() as int);
    assert(request.candidates.take(request.candidates.len() as int) =~= request.candidates);
}

proof fn lemma_listed_sums(candidates: Seq<DescriptorView>, count: int)
    requires
        0 <= count <= candidates.len(),
    ensures
        listed_rows(candidates, count) == candidates.take(count).fold_left(
            0int,
            |sum: int, candidate: DescriptorView| sum + candidate.rows,
        ),
        listed_bytes(candidates, count) == candidates.take(count).fold_left(
            0int,
            |sum: int, candidate: DescriptorView|
                sum + candidate.rows * candidate.dimension * number_size(candidate.dtype),
        ),
    decreases count,
{
    if count > 0 {
        lemma_listed_sums(candidates, count - 1);
        assert(candidates.take(count).drop_last() =~= candidates.take(count - 1));
    }
}

/// A request is scored exactly where its turn comes before its deadline and its client is
/// still there.
pub proof fn timely_requests_are_scored(now: u128, deadline: u128, canceled: bool)
    ensures
        turned_away(now, deadline, canceled) is None <==> now < deadline && !canceled,
        time_left(deadline, now) is Some <==> now < deadline,
        now < deadline ==> now + time_left(deadline, now)->0 == deadline,
{
}

/// A frame announces its body, its request and its version in its header, the least
/// significant byte first.
pub proof fn headers_announce_the_body(header: Seq<u8>)
    requires
        header.len() == 24,
        forall|i: int| 18 <= i < 24 ==> #[trigger] header[i] == 0,
        forall|i: int| 10 <= i < 16 ==> #[trigger] header[i] == 0,
    ensures
        announced(header) == header[16] + 0x100 * header[17],
        frame_request_id(header) == header[8] + 0x100 * header[9],
        frame_version(header) == header[4] + 0x100 * header[5],
{
    let body = header.subrange(16, 24);
    assert(body.subrange(0, 4)[0] == header[16] && body.subrange(0, 4)[1] == header[17]);
    assert(body.subrange(0, 4)[2] == header[18] && body.subrange(0, 4)[3] == header[19]);
    assert(body.subrange(4, 8)[0] == header[20] && body.subrange(4, 8)[1] == header[21]);
    assert(body.subrange(4, 8)[2] == header[22] && body.subrange(4, 8)[3] == header[23]);
    let id = header.subrange(8, 16);
    assert(id.subrange(0, 4)[0] == header[8] && id.subrange(0, 4)[1] == header[9]);
    assert(id.subrange(0, 4)[2] == header[10] && id.subrange(0, 4)[3] == header[11]);
    assert(id.subrange(4, 8)[0] == header[12] && id.subrange(4, 8)[1] == header[13]);
    assert(id.subrange(4, 8)[2] == header[14] && id.subrange(4, 8)[3] == header[15]);
    let version = header.subrange(4, 6);
    assert(version[0] == header[4] && version[1] == header[5]);
}

} // verus!
