//! The loop of a daemon that accepts connections: who may connect, what becomes
//! of a connection, and how the daemon stops.

use crate::connection::{STATUS_INVALID_REQUEST, STATUS_RESOURCE_LIMIT};
use crate::protocol::{failure, failure_frame, VERSION_EXTERNAL};
use std::collections::HashSet;
use vstd::prelude::*;
use vstd::utf8::encode_utf8;

verus! {

broadcast use vstd::std_specs::hash::group_hash_axioms;

/// How a daemon serves. Times are nanoseconds.
pub struct ServerConfig {
    pub socket: String,
    pub socket_mode: u32,
    pub request_timeout: u64,
    pub max_request_bytes: usize,
    pub max_batch_tokens: usize,
    pub max_batch_bytes: usize,
    pub max_inflight: usize,
    pub backlog: usize,
    pub max_queued_requests: usize,
    pub allowed_uids: HashSet<u32>,
    pub allowed_gids: HashSet<u32>,
    pub shutdown_grace: u64,
    pub once: bool,
}

/// Who is at the other end of a connection.
#[derive(Clone, Copy, Debug, PartialEq, Eq, Structural)]
pub struct PeerCredentials {
    pub pid: i32,
    pub uid: u32,
    pub gid: u32,
}

impl ServerConfig {
    /// Whether a peer may connect: its user or its group is among those allowed.
    pub open spec fn allows(&self, peer: PeerCredentials) -> bool {
        self.allowed_uids@.contains(peer.uid) || self.allowed_gids@.contains(peer.gid)
    }

    /// The backlog as the socket takes it, where it is not too large.
    pub fn socket_backlog(&self) -> (backlog: Option<i32>)
        ensures
            backlog == if self.backlog <= i32::MAX {
                Some(self.backlog as i32)
            } else {
                None
            },
    {
        if self.backlog as u64 <= 0x7fff_ffff {
            Some(self.backlog as i32)
        } else {
            None
        }
    }

    /// The time by which a request is to be answered.
    pub fn deadline(&self, accepted_at: u128) -> (deadline: u128)
        requires
            accepted_at + self.request_timeout <= u128::MAX,
        ensures
            deadline == accepted_at + self.request_timeout,
    {
        accepted_at + self.request_timeout as u128
    }
}

/// Tests whether a peer may connect.
pub fn peer_is_allowed(peer: PeerCredentials, config: &ServerConfig) -> (result: bool)
    ensures
        result == config.allows(peer),
{
    config.allowed_uids.contains(&peer.uid) || config.allowed_gids.contains(&peer.gid)
}

/// How the log names a connection that is turned away.
#[derive(Clone, Copy, Debug, PartialEq, Eq, Structural)]
pub enum Rejection {
    Credentials,
    Unauthorized,
    BacklogFull,
}

impl Rejection {
    pub open spec fn name_text(self) -> Seq<char> {
        match self {
            Rejection::Credentials => "peer_credentials"@,
            Rejection::Unauthorized => "unauthorized_peer"@,
            Rejection::BacklogFull => "connection_backlog_full"@,
        }
    }

    pub fn name(self) -> (text: &'static str)
        ensures
            text@ == self.name_text(),
    {
        match self {
            Rejection::Credentials => "peer_credentials",
            Rejection::Unauthorized => "unauthorized_peer",
            Rejection::BacklogFull => "connection_backlog_full",
        }
    }

    pub open spec fn message_text(self) -> Seq<char> {
        match self {
            Rejection::Credentials => "cannot read peer credentials"@,
            Rejection::Unauthorized => "Unix peer credentials are not authorized"@,
            Rejection::BacklogFull => "connection backlog is full"@,
        }
    }

    /// The status that the client gets.
    pub open spec fn status(self) -> u32 {
        match self {
            Rejection::BacklogFull => STATUS_RESOURCE_LIMIT,
            _ => STATUS_INVALID_REQUEST,
        }
    }

    /// The frame that the client gets. It has no request number: no request was
    /// read.
    pub fn frame(self) -> (frame: Vec<u8>)
        ensures
            frame@ == failure_frame(
                VERSION_EXTERNAL,
                0,
                self.status(),
                encode_utf8(self.message_text()),
            ),
    {
        match self {
            Rejection::Credentials => failure(
                VERSION_EXTERNAL,
                0,
                STATUS_INVALID_REQUEST,
                "cannot read peer credentials",
            ),
            Rejection::Unauthorized => failure(
                VERSION_EXTERNAL,
                0,
                STATUS_INVALID_REQUEST,
                "Unix peer credentials are not authorized",
            ),
            Rejection::BacklogFull => failure(
                VERSION_EXTERNAL,
                0,
                STATUS_RESOURCE_LIMIT,
                "connection backlog is full",
            ),
        }
    }
}

/// Why a peer is turned away.
pub open spec fn peer_fault(peer: Option<PeerCredentials>, config: ServerConfig) -> Option<Rejection> {
    match peer {
        None => Some(Rejection::Credentials),
        Some(peer) => if config.allows(peer) {
            None
        } else {
            Some(Rejection::Unauthorized)
        },
    }
}

/// Looks at who is at the other end, where that could be read.
pub fn admit_peer(peer: Option<PeerCredentials>, config: &ServerConfig) -> (rejection: Option<
    Rejection,
>)
    ensures
        rejection == peer_fault(peer, *config),
{
    match peer {
        None => Some(Rejection::Credentials),
        Some(peer) => {
            if peer_is_allowed(peer, config) {
                None
            } else {
                Some(Rejection::Unauthorized)
            }
        },
    }
}

/// What came of handing a connection to the workers.
#[derive(Clone, Copy, Debug, PartialEq, Eq, Structural)]
pub enum Enqueued {
    Taken,
    Full,
    Stopped,
}

/// What the daemon does after that.
#[derive(Clone, Copy, Debug, PartialEq, Eq, Structural)]
pub enum ServeStep {
    /// Accept the next connection.
    Continue,
    /// Accept no more connections, and stop.
    Stop,
    /// Turn the connection away.
    Reject(Rejection),
    /// Fail: there is nobody to take connections.
    Fail,
}

/// Why a daemon does not stop as it should.
#[derive(Clone, Copy, Debug, PartialEq, Eq, Structural)]
pub enum ServeError {
    SchedulerStopped,
    WorkerStopped,
    PoolStopped,
    NotDrained,
}

impl ServeError {
    pub open spec fn message_text(self) -> Seq<char> {
        match self {
            ServeError::SchedulerStopped => "GPU scheduler stopped unexpectedly"@,
            ServeError::WorkerStopped => "connection worker stopped unexpectedly"@,
            ServeError::PoolStopped => "connection worker pool stopped unexpectedly"@,
            ServeError::NotDrained => "shutdown grace period expired before all work drained"@,
        }
    }

    /// The error in words.
    pub fn message(self) -> (text: &'static str)
        ensures
            text@ == self.message_text(),
    {
        match self {
            ServeError::SchedulerStopped => "GPU scheduler stopped unexpectedly",
            ServeError::WorkerStopped => "connection worker stopped unexpectedly",
            ServeError::PoolStopped => "connection worker pool stopped unexpectedly",
            ServeError::NotDrained => "shutdown grace period expired before all work drained",
        }
    }
}

/// The loop that accepts connections.
#[derive(Clone, Copy, Debug, PartialEq, Eq, Structural)]
pub struct ServeLoop {
    /// How many connections the workers took.
    pub accepted: u64,
    /// Whether one connection is all.
    pub once: bool,
}

impl ServeLoop {
    pub fn start(once: bool) -> (state: Self)
        ensures
            state == (ServeLoop { accepted: 0, once }),
    {
        ServeLoop { accepted: 0, once }
    }

    /// Whether a thread that should run has stopped.
    pub fn supervise(&self, scheduler_finished: bool, worker_finished: bool) -> (failure: Option<
        ServeError,
    >)
        ensures
            failure == if scheduler_finished {
                Some(ServeError::SchedulerStopped)
            } else if worker_finished {
                Some(ServeError::WorkerStopped)
            } else {
                None
            },
    {
        if scheduler_finished {
            Some(ServeError::SchedulerStopped)
        } else if worker_finished {
            Some(ServeError::WorkerStopped)
        } else {
            None
        }
    }

    /// Takes what came of handing a connection to the workers. Where one
    /// connection is all, the loop stops after the first.
    pub fn enqueued(&mut self, outcome: Enqueued) -> (step: ServeStep)
        requires
            old(self).accepted < u64::MAX,
        ensures
            final(self).once == old(self).once,
            final(self).accepted == old(self).accepted + if outcome == Enqueued::Taken {
                1int
            } else {
                0int
            },
            step == match outcome {
                Enqueued::Taken => if old(self).once && old(self).accepted == 0 {
                    ServeStep::Stop
                } else {
                    ServeStep::Continue
                },
                Enqueued::Full => ServeStep::Reject(Rejection::BacklogFull),
                Enqueued::Stopped => ServeStep::Fail,
            },
    {
        match outcome {
            Enqueued::Taken => {
                self.accepted = self.accepted + 1;
                if self.once && self.accepted == 1 {
                    ServeStep::Stop
                } else {
                    ServeStep::Continue
                }
            },
            Enqueued::Full => ServeStep::Reject(Rejection::BacklogFull),
            Enqueued::Stopped => ServeStep::Fail,
        }
    }
}

/// What a daemon ends with, once its threads had the time to finish: a failure
/// while it ran comes first.
pub fn finish_serving(failure: Option<ServeError>, drained: bool) -> (result: Result<(), ServeError>)
    ensures
        result == match failure {
            Some(error) => Err::<(), ServeError>(error),
            None => if drained {
                Ok(())
            } else {
                Err(ServeError::NotDrained)
            },
        },
{
    match failure {
        Some(error) => Err(error),
        None => {
            if drained {
                Ok(())
            } else {
                Err(ServeError::NotDrained)
            }
        },
    }
}

/// A peer is let in exactly where its user or its group is allowed: who is
/// neither gets nothing but a refusal.
pub proof fn strangers_are_turned_away(peer: PeerCredentials, config: ServerConfig)
    requires
        !config.allowed_uids@.contains(peer.uid),
        !config.allowed_gids@.contains(peer.gid),
    ensures
        peer_fault(Some(peer), config) == Some(Rejection::Unauthorized),
{
}

} // verus!
