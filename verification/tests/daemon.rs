//! The daemon around the engine: connections, files, readiness.

use std::collections::HashSet;
use tilemaxsim::client::{decode_response, SdkError};
use tilemaxsim::connection::{
    body_length, conclude, fail_connection, fits_batch, header_request_id, header_version,
    read_header_step, receive, remaining, take_turn, FrameError, Handover, HeaderStep, Outcome,
    Pending, Reaction, Step, WaitEvent, WorkStatus, STATUS_COMPUTE_ERROR, STATUS_INVALID_REQUEST,
    STATUS_RESOURCE_LIMIT, WAIT_QUANTUM,
};
use tilemaxsim::health::{
    after_wait, check_probe_body, check_probe_header, check_ready, gives_up, health_request,
    is_ready_response, parse_positive_u32, poll_timeout, probe_frame, ConnectStep, HealthError,
    PROBE_ID,
};
use tilemaxsim::lifecycle::{
    check_path, connect_socket, pid_contents, plan_ready, probe_pid, read_pid, recheck_pid,
    recheck_socket, remove_owned, start_pid, start_socket, ConnectOutcome, FileIdentity, FileKind,
    FileStatus, LifecycleError, PathFault, PidAction, ProcessProbe, Removal, SocketAction,
};
use tilemaxsim::numbers::{parse_process_id, parse_u32};
use tilemaxsim::protocol::{parse, success};
use tilemaxsim::server::{
    admit_peer, finish_serving, peer_is_allowed, Enqueued, PeerCredentials, Rejection, ServeError,
    ServeLoop, ServeStep, ServerConfig,
};

#[test]
fn readiness_requires_success_status_and_true_body() {
    assert!(is_ready_response(
        b"HTTP/1.1 200 OK\r\nContent-Length: 14\r\n\r\n{\"ready\":true}"
    ));
    assert!(!is_ready_response(
        b"HTTP/1.1 503 Service Unavailable\r\n\r\n{\"ready\":false}"
    ));
    assert!(!is_ready_response(b"HTTP/1.1 200 OK\r\n\r\n"));
}

#[test]
fn readiness_requires_a_complete_header() {
    assert!(!is_ready_response(b"HTTP/1.1 200 OK\r\n{\"ready\":true}"));
    assert!(!is_ready_response(b""));
    assert!(health_request().starts_with("GET /healthz HTTP/1.1\r\n"));
    assert!(health_request().ends_with("\r\n\r\n"));
    assert!(gives_up(0, 5, 10));
    assert!(!gives_up(1, 5, 10));
    assert!(gives_up(1, 10, 10));
}

#[test]
fn numbers_are_read_like_the_command_line_writes_them() {
    assert_eq!(parse_u32("0"), Some(0));
    assert_eq!(parse_u32("+42"), Some(42));
    assert_eq!(parse_u32("4294967295"), Some(u32::MAX));
    assert_eq!(parse_u32("4294967296"), None);
    assert_eq!(parse_u32("99999999999999999999999"), None);
    for text in ["", "+", "-1", "1a", " 1", "++1"] {
        assert_eq!(parse_u32(text), None, "{text}");
        assert!(text.parse::<u32>().is_err());
    }
    assert_eq!(parse_positive_u32("17"), Ok(17));
    assert_eq!(parse_positive_u32("0").unwrap_err(), "value must be a positive integer");
    assert!(parse_positive_u32("-3").is_err());
    for (text, expected) in [
        ("12\n", Some(12)),
        (" +12\t", Some(12)),
        ("\u{2003}7\u{a0}", Some(7)),
        ("2147483647", Some(i32::MAX)),
        ("2147483648", None),
        ("-12", None),
        ("0", None),
        ("", None),
        ("1 2", None),
        ("-", None),
    ] {
        assert_eq!(parse_process_id(text), expected, "{text}");
        let usual = text.trim().parse::<i32>().ok().filter(|pid| *pid > 0);
        assert_eq!(parse_process_id(text), usual, "{text}");
    }
}

const FIRST: FileIdentity = FileIdentity { device: 1, inode: 10 };
const SECOND: FileIdentity = FileIdentity { device: 1, inode: 11 };

fn status(kind: FileKind, owner: u32) -> FileStatus {
    FileStatus { identity: FIRST, kind, owner }
}

#[test]
fn pid_files_of_live_daemons_stay() {
    assert_eq!(start_pid(None, 5), Ok(PidAction::Create));
    assert_eq!(
        start_pid(Some(status(FileKind::Other, 5)), 5),
        Err(LifecycleError::UnsafePidFile)
    );
    assert_eq!(
        start_pid(Some(status(FileKind::Regular, 6)), 5),
        Err(LifecycleError::UnsafePidFile)
    );
    assert_eq!(start_pid(Some(status(FileKind::Regular, 5)), 5), Ok(PidAction::Read(FIRST)));
    assert_eq!(read_pid(FIRST, "junk"), Err(LifecycleError::InvalidPidFile));
    assert_eq!(read_pid(FIRST, &pid_contents(77)), Ok(PidAction::Probe(FIRST, 77)));
    assert_eq!(pid_contents(77), "77\n");
    assert_eq!(probe_pid(FIRST, ProcessProbe::Running), Err(LifecycleError::Running));
    assert_eq!(probe_pid(FIRST, ProcessProbe::Unknown), Err(LifecycleError::Unverified));
    assert_eq!(probe_pid(FIRST, ProcessProbe::Missing), Ok(PidAction::Recheck(FIRST)));
    assert_eq!(recheck_pid(FIRST, SECOND), Err(LifecycleError::PidFileChanged));
    assert_eq!(recheck_pid(FIRST, FIRST), Ok(PidAction::Remove));
    assert_eq!(
        LifecycleError::Running.message("/run/x.pid"),
        "daemon recorded in /run/x.pid is still running"
    );
}

#[test]
fn replaced_files_are_not_removed() {
    assert_eq!(remove_owned(FIRST, None), Removal::Gone);
    assert_eq!(remove_owned(FIRST, Some(FIRST)), Removal::Remove);
    assert_eq!(remove_owned(FIRST, Some(SECOND)), Removal::Replaced);
    assert_eq!(plan_ready(false, Some("ready"), 12).unwrap(), ".ready.12.tmp");
    assert_eq!(plan_ready(true, Some("ready"), 12), Err(LifecycleError::ReadyExists));
    assert_eq!(plan_ready(false, None, 12), Err(LifecycleError::ReadyName));
    assert_eq!(
        LifecycleError::Replaced.message("/run/ready"),
        "refusing to remove replaced file /run/ready"
    );
}

#[test]
fn live_sockets_are_not_removed() {
    assert_eq!(start_socket(None), Ok(SocketAction::Bind));
    assert_eq!(
        start_socket(Some(status(FileKind::Regular, 5))),
        Err(LifecycleError::NotSocket)
    );
    assert_eq!(
        start_socket(Some(status(FileKind::Socket, 5))),
        Ok(SocketAction::Connect(FIRST))
    );
    for outcome in [ConnectOutcome::Connected, ConnectOutcome::Pending] {
        assert_eq!(connect_socket(FIRST, outcome), Err(LifecycleError::SocketActive));
    }
    for outcome in [ConnectOutcome::Refused, ConnectOutcome::Missing] {
        assert_eq!(connect_socket(FIRST, outcome), Ok(SocketAction::Recheck(FIRST)));
    }
    assert_eq!(
        connect_socket(FIRST, ConnectOutcome::Failed),
        Err(LifecycleError::SocketUnproved)
    );
    assert_eq!(recheck_socket(FIRST, SECOND), Err(LifecycleError::SocketChanged));
    assert_eq!(recheck_socket(FIRST, FIRST), Ok(SocketAction::Remove));
    assert_eq!(check_path(b"/run/x", 108), None);
    assert_eq!(check_path(b"/run\0x", 108), Some(PathFault::Nul));
    assert_eq!(check_path(&[b'a'; 108], 108), Some(PathFault::TooLong));
    assert_eq!(HealthError::of_path(PathFault::Nul), HealthError::PathNul);
    assert_eq!(
        LifecycleError::SocketActive.message("/s"),
        "another daemon is already accepting on /s"
    );
}

#[test]
fn readiness_files_are_checked() {
    assert_eq!(check_ready(Some(1), Some("/s"), Some("/s"), Some(77)), Ok(77));
    assert_eq!(
        check_ready(Some(2), Some("/s"), Some("/s"), Some(77)),
        Err(HealthError::ReadySchema)
    );
    assert_eq!(
        check_ready(Some(1), Some("/t"), Some("/s"), Some(77)),
        Err(HealthError::OtherSocket)
    );
    assert_eq!(check_ready(Some(1), None, Some("/s"), Some(77)), Err(HealthError::OtherSocket));
    for pid in [None, Some(0), Some(1 << 31)] {
        assert_eq!(
            check_ready(Some(1), Some("/s"), Some("/s"), pid),
            Err(HealthError::InvalidPid)
        );
    }
    assert_eq!(poll_timeout(1_999_999), 1);
    assert_eq!(poll_timeout(u128::MAX), i32::MAX);
    assert_eq!(after_wait(0), ConnectStep::TimedOut);
    assert_eq!(after_wait(-1), ConnectStep::WaitFailed);
    assert_eq!(after_wait(1), ConnectStep::Inspect);
    assert_eq!(HealthError::ConnectTimeout.message(), "connection timed out");
}

#[test]
fn the_probe_goes_through_the_scheduler() {
    let request = parse(&probe_frame()).unwrap();
    assert_eq!(request.request_id, PROBE_ID);
    assert_eq!(&PROBE_ID.to_be_bytes(), b"VCHEALTH");
    assert!(request.candidates.is_empty());
    assert_eq!(request.model_contract, "health");
    let reply = conclude(request.protocol_version, request.request_id, Ok(&[]));
    assert_eq!(reply.status, WorkStatus::Scored);
    assert_eq!(check_probe_header(&reply.frame[..24]), Ok(8));
    assert_eq!(check_probe_body(&reply.frame[24..]), Ok(()));
    let other = success(2, 1, &[]);
    assert_eq!(check_probe_header(&other[..24]), Err(HealthError::ProbeHeader));
    let mut large = reply.frame.clone();
    large[18] = 2;
    assert_eq!(check_probe_header(&large[..24]), Err(HealthError::ProbeTooLarge));
    assert_eq!(check_probe_body(&[1, 0, 0, 0, 0, 0, 0, 0]), Err(HealthError::ProbeRejected));
    assert_eq!(check_probe_body(&[]), Err(HealthError::ProbeRejected));
}

#[test]
fn frames_are_read_in_parts() {
    assert_eq!(read_header_step(0, 0), Ok(HeaderStep::Closed));
    assert_eq!(read_header_step(7, 0), Err(FrameError::IncompleteHeader));
    assert_eq!(read_header_step(7, 10), Ok(HeaderStep::More(17)));
    assert_eq!(read_header_step(7, 17), Ok(HeaderStep::Complete));
    let frame = probe_frame();
    assert_eq!(body_length(&frame[..24], 52), Ok(28));
    assert_eq!(body_length(&frame[..24], 51), Err(FrameError::OverLimit));
    let mut huge = frame.clone();
    huge[16..24].copy_from_slice(&u64::MAX.to_le_bytes());
    assert_eq!(body_length(&huge[..24], usize::MAX), Err(FrameError::LengthOverflow));
    assert_eq!(header_request_id(&frame), PROBE_ID);
    assert_eq!(header_request_id(&frame[..10]), 0);
    assert_eq!(header_version(&frame), 2);
    assert_eq!(FrameError::OverLimit.message(), "request exceeds byte limit");
}

fn refused(frame: &[u8], max_tokens: usize, max_bytes: usize, now: u128) -> (u32, String, Outcome) {
    match receive(frame, max_tokens, max_bytes, now, 100) {
        Reaction::Refuse(answer) => match decode_response(&answer.frame) {
            Err(SdkError::Remote { status, message }) => (status, message, answer.outcome),
            _ => panic!("a refusal carries a status"),
        },
        Reaction::Queue(_) => panic!("the request is refused"),
    }
}

#[test]
fn requests_are_queued_or_refused() {
    let frame = probe_frame();
    assert!(matches!(receive(&frame, 1, 2, 99, 100), Reaction::Queue(_)));
    let limits = "request exceeds configured tensor batch limits".to_owned();
    assert_eq!(
        refused(&frame, 0, 2, 99),
        (STATUS_RESOURCE_LIMIT, limits.clone(), Outcome::BatchLimit)
    );
    assert_eq!(refused(&frame, 1, 1, 99), (STATUS_RESOURCE_LIMIT, limits, Outcome::BatchLimit));
    assert_eq!(
        refused(&frame, 1, 2, 100),
        (
            STATUS_COMPUTE_ERROR,
            "request deadline expired before queueing".to_owned(),
            Outcome::Timeout
        )
    );
    let mut broken = frame;
    broken[0] = b'X';
    assert_eq!(
        refused(&broken, 1, 2, 99),
        (STATUS_INVALID_REQUEST, "invalid protocol magic".to_owned(), Outcome::InvalidRequest)
    );
    assert_eq!(Outcome::InvalidRequest.name(), "invalid_request");
    let request = parse(&probe_frame()).unwrap();
    assert!(fits_batch(&request, 1, 2));
    assert!(!fits_batch(&request, 0, 2));
}

#[test]
fn replies_are_waited_for_until_the_deadline() {
    let pending = Pending { version: 3, request_id: 9, deadline: 1_000_000_000 };
    assert!(matches!(pending.handed_over(Handover::Queued), Step::Again));
    match pending.handed_over(Handover::Full) {
        Step::Refuse(answer) => {
            assert_eq!(answer.request_id, 9);
            assert_eq!(answer.outcome.name(), "gpu_queue_full");
            assert_eq!(
                decode_response(&answer.frame),
                Err(SdkError::Remote { status: 2, message: "GPU request queue is full".to_owned() })
            );
        }
        _ => panic!("a full queue refuses"),
    }
    assert!(matches!(pending.handed_over(Handover::Stopped), Step::Fail(_)));
    assert!(matches!(pending.proceed(0), Step::Wait(wait) if wait == u128::from(WAIT_QUANTUM)));
    assert!(matches!(pending.proceed(999_999_999), Step::Wait(1)));
    assert!(matches!(pending.proceed(1_000_000_000), Step::Expire(_)));
    assert!(matches!(pending.waited(WaitEvent::Reply(vec![1])), Step::Reply(frame) if frame == [1]));
    assert!(matches!(pending.waited(WaitEvent::Elapsed { disconnected: true }), Step::Abandon));
    assert!(matches!(pending.waited(WaitEvent::Elapsed { disconnected: false }), Step::Again));
    assert!(matches!(pending.waited(WaitEvent::Dropped), Step::Fail(_)));
    assert_eq!(remaining(10, 4), Some(6));
    assert_eq!(remaining(10, 10), None);
}

#[test]
fn refused_turns_and_failures_are_named() {
    assert_eq!(take_turn(5, 10, false), None);
    let late = take_turn(10, 10, true).unwrap();
    assert_eq!(conclude(3, 9, Err(late)).status, WorkStatus::Timeout);
    let gone = take_turn(5, 10, true).unwrap();
    assert_eq!(conclude(3, 9, Err(gone)).status, WorkStatus::Canceled);
    let reply = conclude(3, 9, Err("out of memory"));
    assert_eq!(reply.status.name(), "compute_error");
    assert_eq!(
        decode_response(&reply.frame),
        Err(SdkError::Remote { status: 3, message: "out of memory".to_owned() })
    );
    assert_eq!(fail_connection("request deadline expired", false).outcome, Outcome::Timeout);
    assert_eq!(fail_connection("broken pipe", true).outcome, Outcome::Timeout);
    let answer = fail_connection("broken pipe", false);
    assert_eq!(answer.outcome.name(), "io_error");
    assert_eq!(answer.request_id, 0);
}

fn config(once: bool) -> ServerConfig {
    ServerConfig {
        socket: "/run/tilemaxsim.sock".to_owned(),
        socket_mode: 0o660,
        request_timeout: 5,
        max_request_bytes: 1000,
        max_batch_tokens: 10,
        max_batch_bytes: 10,
        max_inflight: 1,
        backlog: 16,
        max_queued_requests: 1,
        allowed_uids: HashSet::from([1000]),
        allowed_gids: HashSet::from([50]),
        shutdown_grace: 5,
        once,
    }
}

#[test]
fn peers_are_let_in_by_user_or_group() {
    let config = config(false);
    let peer = |uid, gid| PeerCredentials { pid: 1, uid, gid };
    assert!(peer_is_allowed(peer(1000, 1), &config));
    assert!(peer_is_allowed(peer(1, 50), &config));
    assert!(!peer_is_allowed(peer(1, 1), &config));
    assert_eq!(admit_peer(None, &config), Some(Rejection::Credentials));
    assert_eq!(admit_peer(Some(peer(1, 1)), &config), Some(Rejection::Unauthorized));
    assert_eq!(admit_peer(Some(peer(1, 50)), &config), None);
    assert_eq!(
        decode_response(&Rejection::Unauthorized.frame()),
        Err(SdkError::Remote {
            status: 1,
            message: "Unix peer credentials are not authorized".to_owned()
        })
    );
    assert_eq!(Rejection::BacklogFull.name(), "connection_backlog_full");
    assert_eq!(config.socket_backlog(), Some(16));
    assert_eq!(config.deadline(7), 12);
}

#[test]
fn the_loop_stops_where_it_should() {
    let mut state = ServeLoop::start(true);
    assert_eq!(state.supervise(false, false), None);
    assert_eq!(state.supervise(true, true), Some(ServeError::SchedulerStopped));
    assert_eq!(state.supervise(false, true), Some(ServeError::WorkerStopped));
    assert_eq!(state.enqueued(Enqueued::Full), ServeStep::Reject(Rejection::BacklogFull));
    assert_eq!(state.enqueued(Enqueued::Taken), ServeStep::Stop);
    assert_eq!(state.accepted, 1);
    let mut state = ServeLoop::start(false);
    assert_eq!(state.enqueued(Enqueued::Taken), ServeStep::Continue);
    assert_eq!(state.enqueued(Enqueued::Stopped), ServeStep::Fail);
    assert_eq!(finish_serving(None, true), Ok(()));
    assert_eq!(finish_serving(None, false), Err(ServeError::NotDrained));
    assert_eq!(
        finish_serving(Some(ServeError::WorkerStopped), false),
        Err(ServeError::WorkerStopped)
    );
    assert_eq!(ServeError::PoolStopped.message(), "connection worker pool stopped unexpectedly");
}
