//! The files that a daemon leaves while it runs: its PID file, its readiness
//! file and its socket. Nothing that another daemon still uses, or that was
//! replaced in the meantime, is removed.
//!
//! The functions decide one step at a time. What a step asks for is done by the
//! caller, who hands the outcome to the next step.

use crate::numbers::{parse_process_id, signed_value, trimmed, written_number_is_read_back};
use crate::text::{append_decimal, decimal_text};
use vstd::prelude::*;
use vstd::string::StringExecFns;

verus! {

/// Which file a path leads to.
#[derive(Clone, Copy, Debug, PartialEq, Eq, Structural)]
pub struct FileIdentity {
    pub device: u64,
    pub inode: u64,
}

#[derive(Clone, Copy, Debug, PartialEq, Eq, Structural)]
pub enum FileKind {
    Regular,
    Socket,
    Other,
}

/// What is known of a file.
#[derive(Clone, Copy, Debug, PartialEq, Eq, Structural)]
pub struct FileStatus {
    pub identity: FileIdentity,
    pub kind: FileKind,
    pub owner: u32,
}

/// Whether a process is there.
#[derive(Clone, Copy, Debug, PartialEq, Eq, Structural)]
pub enum ProcessProbe {
    Running,
    Missing,
    Unknown,
}

/// What came of a connection to a socket.
#[derive(Clone, Copy, Debug, PartialEq, Eq, Structural)]
pub enum ConnectOutcome {
    Connected,
    Refused,
    Missing,
    Pending,
    Failed,
}

/// Why a file is left alone.
#[derive(Clone, Copy, Debug, PartialEq, Eq, Structural)]
pub enum LifecycleError {
    UnsafePidFile,
    InvalidPidFile,
    Running,
    Unverified,
    PidFileChanged,
    ReadyExists,
    ReadyName,
    Replaced,
    NotSocket,
    SocketActive,
    SocketChanged,
    SocketUnproved,
    SocketReplaced,
    SocketPath,
}

impl LifecycleError {
    pub open spec fn message_text(self, path: Seq<char>) -> Seq<char> {
        match self {
            LifecycleError::UnsafePidFile => "refusing to replace unsafe PID file "@ + path,
            LifecycleError::InvalidPidFile => "invalid existing PID file "@ + path,
            LifecycleError::Running => "daemon recorded in "@ + path + " is still running"@,
            LifecycleError::Unverified => "cannot verify existing daemon PID"@,
            LifecycleError::PidFileChanged => "PID file changed while checking "@ + path,
            LifecycleError::ReadyExists => "ready file already exists: "@ + path,
            LifecycleError::ReadyName => "ready file path has no file name"@,
            LifecycleError::Replaced => "refusing to remove replaced file "@ + path,
            LifecycleError::NotSocket => "refusing to remove non-socket path "@ + path,
            LifecycleError::SocketActive => "another daemon is already accepting on "@ + path,
            LifecycleError::SocketChanged => "service socket changed while checking "@ + path,
            LifecycleError::SocketUnproved => "cannot prove that socket "@ + path + " is stale"@,
            LifecycleError::SocketReplaced => "refusing to remove replaced service socket "@ + path,
            LifecycleError::SocketPath => "invalid Unix socket path "@ + path,
        }
    }

    /// The error in words, with the path that it is about.
    pub fn message(self, path: &str) -> (text: String)
        ensures
            text@ == self.message_text(path@),
    {
        match self {
            LifecycleError::UnsafePidFile => joined("refusing to replace unsafe PID file ", path, ""),
            LifecycleError::InvalidPidFile => joined("invalid existing PID file ", path, ""),
            LifecycleError::Running => joined("daemon recorded in ", path, " is still running"),
            LifecycleError::Unverified => "cannot verify existing daemon PID".to_owned(),
            LifecycleError::PidFileChanged => joined("PID file changed while checking ", path, ""),
            LifecycleError::ReadyExists => joined("ready file already exists: ", path, ""),
            LifecycleError::ReadyName => "ready file path has no file name".to_owned(),
            LifecycleError::Replaced => joined("refusing to remove replaced file ", path, ""),
            LifecycleError::NotSocket => joined("refusing to remove non-socket path ", path, ""),
            LifecycleError::SocketActive =>
                joined("another daemon is already accepting on ", path, ""),
            LifecycleError::SocketChanged =>
                joined("service socket changed while checking ", path, ""),
            LifecycleError::SocketUnproved =>
                joined("cannot prove that socket ", path, " is stale"),
            LifecycleError::SocketReplaced =>
                joined("refusing to remove replaced service socket ", path, ""),
            LifecycleError::SocketPath => joined("invalid Unix socket path ", path, ""),
        }
    }
}

fn joined(before: &str, path: &str, after: &str) -> (text: String)
    ensures
        text@ == before@ + path@ + after@,
        after@ == ""@ ==> text@ == before@ + path@,
{
    let mut text: String = before.to_owned();
    text.append(path);
    text.append(after);
    proof {
        reveal_strlit("");
        if after@ == ""@ {
            assert(text@ =~= before@ + path@);
        }
    }
    text
}

/// What a daemon does next about the PID file that it wants to create.
#[derive(Clone, Copy, Debug, PartialEq, Eq, Structural)]
pub enum PidAction {
    /// Create the file: there is none.
    Create,
    /// Read what the file holds.
    Read(FileIdentity),
    /// See whether the process is there.
    Probe(FileIdentity, i32),
    /// See whether the path still leads to the file.
    Recheck(FileIdentity),
    /// Remove the file, then create it.
    Remove,
}

pub open spec fn pid_started(status: Option<FileStatus>, user: u32) -> Result<
    PidAction,
    LifecycleError,
> {
    match status {
        None => Ok(PidAction::Create),
        Some(status) => if status.kind != FileKind::Regular || status.owner != user {
            Err(LifecycleError::UnsafePidFile)
        } else {
            Ok(PidAction::Read(status.identity))
        },
    }
}

/// Looks at the file that is there, if one is: only a regular file of the same
/// user is ever replaced.
pub fn start_pid(status: Option<FileStatus>, user: u32) -> (result: Result<
    PidAction,
    LifecycleError,
>)
    ensures
        result == pid_started(status, user),
{
    match status {
        None => Ok(PidAction::Create),
        Some(status) => {
            if status.kind != FileKind::Regular || status.owner != user {
                Err(LifecycleError::UnsafePidFile)
            } else {
                Ok(PidAction::Read(status.identity))
            }
        },
    }
}

pub open spec fn pid_read(identity: FileIdentity, contents: Seq<char>) -> Result<
    PidAction,
    LifecycleError,
> {
    match signed_value(trimmed(contents)) {
        Some(value) => if 0 < value <= i32::MAX {
            Ok(PidAction::Probe(identity, value as i32))
        } else {
            Err(LifecycleError::InvalidPidFile)
        },
        None => Err(LifecycleError::InvalidPidFile),
    }
}

/// Takes what the file holds: a positive process number.
pub fn read_pid(identity: FileIdentity, contents: &str) -> (result: Result<
    PidAction,
    LifecycleError,
>)
    ensures
        result == pid_read(identity, contents@),
{
    match parse_process_id(contents) {
        Some(id) => Ok(PidAction::Probe(identity, id)),
        None => Err(LifecycleError::InvalidPidFile),
    }
}

pub open spec fn pid_probed(identity: FileIdentity, probe: ProcessProbe) -> Result<
    PidAction,
    LifecycleError,
> {
    match probe {
        ProcessProbe::Running => Err(LifecycleError::Running),
        ProcessProbe::Unknown => Err(LifecycleError::Unverified),
        ProcessProbe::Missing => Ok(PidAction::Recheck(identity)),
    }
}

/// Takes whether the process is there. The file of a process that may be running
/// stays.
pub fn probe_pid(identity: FileIdentity, probe: ProcessProbe) -> (result: Result<
    PidAction,
    LifecycleError,
>)
    ensures
        result == pid_probed(identity, probe),
{
    match probe {
        ProcessProbe::Running => Err(LifecycleError::Running),
        ProcessProbe::Unknown => Err(LifecycleError::Unverified),
        ProcessProbe::Missing => Ok(PidAction::Recheck(identity)),
    }
}

pub open spec fn pid_rechecked(identity: FileIdentity, current: FileIdentity) -> Result<
    PidAction,
    LifecycleError,
> {
    if current != identity {
        Err(LifecycleError::PidFileChanged)
    } else {
        Ok(PidAction::Remove)
    }
}

/// Takes the file that the path leads to now.
pub fn recheck_pid(identity: FileIdentity, current: FileIdentity) -> (result: Result<
    PidAction,
    LifecycleError,
>)
    ensures
        result == pid_rechecked(identity, current),
{
    if current != identity {
        Err(LifecycleError::PidFileChanged)
    } else {
        Ok(PidAction::Remove)
    }
}

/// A PID file is only removed where it is a regular file of the same user, holds
/// the number of a process that is gone, and is still the file that was looked
/// at: whatever the steps are given, they end in a removal only then.
pub proof fn only_stale_pid_files_are_removed(
    status: Option<FileStatus>,
    user: u32,
    identity: FileIdentity,
    contents: Seq<char>,
    probed: (FileIdentity, i32),
    probe: ProcessProbe,
    checked: FileIdentity,
    current: FileIdentity,
)
    requires
        pid_started(status, user) == Ok::<PidAction, LifecycleError>(PidAction::Read(identity)),
        pid_read(identity, contents) == Ok::<PidAction, LifecycleError>(
            PidAction::Probe(probed.0, probed.1),
        ),
        pid_probed(probed.0, probe) == Ok::<PidAction, LifecycleError>(PidAction::Recheck(checked)),
        pid_rechecked(checked, current) == Ok::<PidAction, LifecycleError>(PidAction::Remove),
    ensures
        status is Some,
        status->0.kind == FileKind::Regular,
        status->0.owner == user,
        status->0.identity == current,
        signed_value(trimmed(contents)) == Some(probed.1 as int),
        probed.1 > 0,
        probe == ProcessProbe::Missing,
{
}

/// What a PID file holds: the number of the process, on a line of its own.
pub fn pid_contents(process: u32) -> (text: String)
    ensures
        text@ == decimal_text(process as nat) + "\n"@,
{
    let mut text: String = String::new();
    append_decimal(&mut text, process as u64);
    text.append("\n");
    assert(text@ =~= decimal_text(process as nat) + "\n"@);
    text
}

/// The number that a daemon leaves in its PID file is the one that the next
/// daemon looks for.
pub proof fn recorded_process_is_probed(identity: FileIdentity, process: u32)
    requires
        0 < process <= i32::MAX,
    ensures
        pid_read(identity, decimal_text(process as nat) + "\n"@) == Ok::<PidAction, LifecycleError>(
            PidAction::Probe(identity, process as i32),
        ),
{
    written_number_is_read_back(process as nat);
}

pub open spec fn ready_name(name: Seq<char>, process: u32) -> Seq<char> {
    "."@ + name + "."@ + decimal_text(process as nat) + ".tmp"@
}

/// Plans a readiness file: the name of the file that it is first written to, in
/// the same directory.
pub fn plan_ready(exists: bool, name: Option<&str>, process: u32) -> (result: Result<
    String,
    LifecycleError,
>)
    ensures
        match result {
            Ok(temporary) => !exists && name is Some && temporary@ == ready_name(name->0@, process),
            Err(error) => if exists {
                error == LifecycleError::ReadyExists
            } else {
                name is None && error == LifecycleError::ReadyName
            },
        },
{
    if exists {
        return Err(LifecycleError::ReadyExists);
    }
    match name {
        Some(name) => {
            let mut temporary: String = ".".to_owned();
            temporary.append(name);
            temporary.append(".");
            append_decimal(&mut temporary, process as u64);
            temporary.append(".tmp");
            Ok(temporary)
        },
        None => Err(LifecycleError::ReadyName),
    }
}

/// What a daemon does about a file of its own when it stops.
#[derive(Clone, Copy, Debug, PartialEq, Eq, Structural)]
pub enum Removal {
    /// The file is gone already.
    Gone,
    /// Remove the file.
    Remove,
    /// The path leads to another file, which stays.
    Replaced,
}

/// What is done about a file, by what its path leads to now.
pub open spec fn removal_of(own: FileIdentity, current: Option<FileIdentity>) -> Removal {
    match current {
        None => Removal::Gone,
        Some(current) => if current == own {
            Removal::Remove
        } else {
            Removal::Replaced
        },
    }
}

/// Decides what is done about a file of the daemon's own.
pub fn remove_owned(own: FileIdentity, current: Option<FileIdentity>) -> (removal: Removal)
    ensures
        removal == removal_of(own, current),
{
    match current {
        None => Removal::Gone,
        Some(current) => {
            if current == own {
                Removal::Remove
            } else {
                Removal::Replaced
            }
        },
    }
}

/// A file that took the place of the daemon's own is never removed.
pub proof fn replacement_is_kept(own: FileIdentity, other: FileIdentity)
    requires
        other != own,
    ensures
        removal_of(own, Some(other)) == Removal::Replaced,
{
}

/// What a daemon does next about the socket that it wants to bind.
#[derive(Clone, Copy, Debug, PartialEq, Eq, Structural)]
pub enum SocketAction {
    /// Bind the socket: nothing is there.
    Bind,
    /// See whether anyone accepts on the socket.
    Connect(FileIdentity),
    /// See whether the path still leads to the socket.
    Recheck(FileIdentity),
    /// Remove the socket, then bind it.
    Remove,
}

pub open spec fn socket_started(status: Option<FileStatus>) -> Result<SocketAction, LifecycleError> {
    match status {
        None => Ok(SocketAction::Bind),
        Some(status) => if status.kind != FileKind::Socket {
            Err(LifecycleError::NotSocket)
        } else {
            Ok(SocketAction::Connect(status.identity))
        },
    }
}

/// Looks at what is at the path of the socket, if anything is.
pub fn start_socket(status: Option<FileStatus>) -> (result: Result<SocketAction, LifecycleError>)
    ensures
        result == socket_started(status),
{
    match status {
        None => Ok(SocketAction::Bind),
        Some(status) => {
            if status.kind != FileKind::Socket {
                Err(LifecycleError::NotSocket)
            } else {
                Ok(SocketAction::Connect(status.identity))
            }
        },
    }
}

pub open spec fn socket_connected(identity: FileIdentity, outcome: ConnectOutcome) -> Result<
    SocketAction,
    LifecycleError,
> {
    match outcome {
        ConnectOutcome::Connected | ConnectOutcome::Pending => Err(LifecycleError::SocketActive),
        ConnectOutcome::Refused | ConnectOutcome::Missing => Ok(SocketAction::Recheck(identity)),
        ConnectOutcome::Failed => Err(LifecycleError::SocketUnproved),
    }
}

/// Takes what came of a connection. A connection that is not refused at once is
/// one that a daemon may accept.
pub fn connect_socket(identity: FileIdentity, outcome: ConnectOutcome) -> (result: Result<
    SocketAction,
    LifecycleError,
>)
    ensures
        result == socket_connected(identity, outcome),
{
    match outcome {
        ConnectOutcome::Connected | ConnectOutcome::Pending => Err(LifecycleError::SocketActive),
        ConnectOutcome::Refused | ConnectOutcome::Missing => Ok(SocketAction::Recheck(identity)),
        ConnectOutcome::Failed => Err(LifecycleError::SocketUnproved),
    }
}

pub open spec fn socket_rechecked(identity: FileIdentity, current: FileIdentity) -> Result<
    SocketAction,
    LifecycleError,
> {
    if current != identity {
        Err(LifecycleError::SocketChanged)
    } else {
        Ok(SocketAction::Remove)
    }
}

/// Takes the file that the path leads to now.
pub fn recheck_socket(identity: FileIdentity, current: FileIdentity) -> (result: Result<
    SocketAction,
    LifecycleError,
>)
    ensures
        result == socket_rechecked(identity, current),
{
    if current != identity {
        Err(LifecycleError::SocketChanged)
    } else {
        Ok(SocketAction::Remove)
    }
}

/// A socket is only removed where it is one, nobody accepts on it, and the path
/// still leads to it.
pub proof fn only_stale_sockets_are_removed(
    status: Option<FileStatus>,
    identity: FileIdentity,
    outcome: ConnectOutcome,
    checked: FileIdentity,
    current: FileIdentity,
)
    requires
        socket_started(status) == Ok::<SocketAction, LifecycleError>(SocketAction::Connect(identity)),
        socket_connected(identity, outcome) == Ok::<SocketAction, LifecycleError>(
            SocketAction::Recheck(checked),
        ),
        socket_rechecked(checked, current) == Ok::<SocketAction, LifecycleError>(
            SocketAction::Remove,
        ),
    ensures
        status is Some,
        status->0.kind == FileKind::Socket,
        status->0.identity == current,
        outcome == ConnectOutcome::Refused || outcome == ConnectOutcome::Missing,
{
}

/// Why a path cannot be the address of a socket.
#[derive(Clone, Copy, Debug, PartialEq, Eq, Structural)]
pub enum PathFault {
    Nul,
    TooLong,
}

/// Why a path cannot be the address of a socket, where an address has room for
/// `capacity` bytes with the zero that ends it.
pub open spec fn path_fault(path: Seq<u8>, capacity: nat) -> Option<PathFault> {
    if path.contains(0) {
        Some(PathFault::Nul)
    } else if path.len() >= capacity {
        Some(PathFault::TooLong)
    } else {
        None
    }
}

/// Tests whether a path can be the address of a socket.
pub fn check_path(path: &[u8], capacity: usize) -> (fault: Option<PathFault>)
    ensures
        fault == path_fault(path@, capacity as nat),
{
    let mut i: usize = 0;
    while i < path.len()
        invariant
            i <= path@.len(),
            forall|j: int| 0 <= j < i ==> path@[j] != 0,
        decreases path@.len() - i,
    {
        if path[i] == 0 {
            assert(path@[i as int] == 0);
            return Some(PathFault::Nul);
        }
        i += 1;
    }
    assert(!path@.contains(0));
    if path.len() >= capacity {
        Some(PathFault::TooLong)
    } else {
        None
    }
}

} // verus!
