//! The supervisor of the host's switch process: started for the first attached
//! box, stopped after the last, and restarted when it died in between.

use vstd::prelude::*;

use crate::path::join;
use crate::subnet::{render_gvproxy_config, IpAllocator, NetError, PtaskLease, SwitchSubnet};

verus! {

/// How long the control socket may take to come up, in milliseconds.
pub const SOCKET_READY_TIMEOUT_MS: u64 = 5_000;

/// How long the control socket may take to come up, in seconds.
pub const SOCKET_READY_TIMEOUT_SECS: u64 = 5;

/// How long the switch may take to end once it is asked to, in milliseconds.
pub const TERM_GRACE_MS: u64 = 5_000;

/// How long to wait before the control socket is tried again, in milliseconds.
pub const SOCKET_RETRY_MS: u64 = 25;

/// Why the switch could not be attached to or stopped.
#[derive(Debug, PartialEq, Eq)]
pub enum Fault {
    /// The subnet has no address left.
    Exhausted,
    /// The directory of the configuration could not be made.
    ConfigDir(String),
    /// The configuration could not be written.
    Config(String),
    /// The process could not be started.
    Spawn(String),
    /// The control socket did not come up in time.
    SocketTimeout,
    /// The process ended while it was starting.
    UnexpectedExit(Option<i32>),
    /// Any other failure of the system.
    Io(String),
}

/// How an operation ended.
#[derive(Debug, PartialEq, Eq)]
pub enum Ending {
    /// A box is attached with this lease.
    Attached { lease: PtaskLease },
    /// A box is detached, or the switch is stopped.
    Settled,
    /// The operation failed.
    Failed { fault: Fault },
}

/// Where the supervisor stands: what is to be done next.
#[derive(Debug, PartialEq, Eq)]
pub enum Stage {
    /// Nothing; the next operation may begin.
    Idle,
    /// Write the configuration.
    WriteConfig { lease: PtaskLease },
    /// See whether the process is still running.
    Probe { lease: PtaskLease },
    /// Tell the attached boxes that the switch is gone; boxes that attach from
    /// now on listen for the end of the next one.
    Signal { lease: PtaskLease },
    /// Remove a control socket that an earlier run left.
    Unlink { lease: PtaskLease },
    /// Start the process.
    Spawn { lease: PtaskLease },
    /// Connect to the control socket.
    Connect { lease: PtaskLease, deadline: u64 },
    /// See whether the starting process is still running.
    Inspect { lease: PtaskLease, deadline: u64 },
    /// Wait for a moment before the control socket is tried again.
    Pause { lease: PtaskLease, deadline: u64 },
    /// Ask the process to end, and wait for the grace period.
    Terminate { ending: Ending },
    /// Kill the process, and wait for it.
    Kill { ending: Ending },
    /// Remove the control socket.
    RemoveSocket { ending: Ending },
    /// The operation has ended.
    Done { ending: Ending },
}

/// What came of the last step.
#[derive(Debug, PartialEq, Eq)]
pub enum Event {
    ConfigWritten,
    ConfigDirFailed(String),
    ConfigFailed(String),
    ChildRunning,
    ChildExited(Option<i32>),
    ChildFailed(String),
    Signalled,
    /// The socket is removed, or there was none.
    Unlinked,
    UnlinkFailed(String),
    Spawned,
    SpawnFailed(String),
    Connected,
    /// The socket is not there yet, or nobody listens on it yet.
    NotReady,
    ConnectFailed(String),
    Paused,
    Terminated,
    TerminateFailed(String),
    GraceOver,
    Killed,
    SocketRemoved,
}

/// What the supervisor keeps beside its address book, mathematically.
pub struct SwitchState {
    /// How many boxes are attached.
    pub attached: nat,
    /// Whether there is a process.
    pub running: bool,
    pub stage: Stage,
}

/// The state after a failure.
pub open spec fn failed(state: SwitchState, fault: Fault) -> SwitchState {
    SwitchState { stage: Stage::Done { ending: Ending::Failed { fault } }, ..state }
}

/// The state after a box is attached.
pub open spec fn attached(state: SwitchState, lease: PtaskLease) -> SwitchState {
    SwitchState {
        attached: state.attached + 1,
        stage: Stage::Done { ending: Ending::Attached { lease } },
        ..state
    }
}

/// The state once the process, if there is one, is to end.
pub open spec fn stopping(state: SwitchState, ending: Ending) -> SwitchState {
    if state.running {
        SwitchState { running: false, stage: Stage::Terminate { ending }, ..state }
    } else {
        SwitchState { stage: Stage::Done { ending }, ..state }
    }
}

/// The state once the process is known to be gone.
pub open spec fn reaped(state: SwitchState) -> SwitchState {
    SwitchState { running: false, ..state }
}

/// Where the supervisor goes from a state. An event that is no outcome of the
/// step leaves it where it is.
pub open spec fn after(state: SwitchState, event: Event, now: u64) -> SwitchState {
    match (state.stage, event) {
        (Stage::WriteConfig { lease }, Event::ConfigWritten) => SwitchState {
            stage: if state.running {
                Stage::Probe { lease }
            } else {
                Stage::Unlink { lease }
            },
            ..state
        },
        (Stage::WriteConfig { .. }, Event::ConfigDirFailed(e)) => failed(state, Fault::ConfigDir(e)),
        (Stage::WriteConfig { .. }, Event::ConfigFailed(e)) => failed(state, Fault::Config(e)),
        (Stage::Probe { lease }, Event::ChildRunning) => attached(state, lease),
        (Stage::Probe { lease }, Event::ChildExited(_)) => SwitchState {
            running: false,
            stage: Stage::Signal { lease },
            ..state
        },
        (Stage::Probe { .. }, Event::ChildFailed(e)) => failed(state, Fault::Io(e)),
        (Stage::Signal { lease }, Event::Signalled) => SwitchState {
            stage: Stage::Unlink { lease },
            ..state
        },
        (Stage::Unlink { lease }, Event::Unlinked) => SwitchState {
            stage: Stage::Spawn { lease },
            ..state
        },
        (Stage::Unlink { .. }, Event::UnlinkFailed(e)) => failed(state, Fault::Io(e)),
        (Stage::Spawn { lease }, Event::Spawned) => SwitchState {
            running: true,
            stage: Stage::Connect { lease, deadline: (now + SOCKET_READY_TIMEOUT_MS) as u64 },
            ..state
        },
        (Stage::Spawn { .. }, Event::SpawnFailed(e)) => failed(state, Fault::Spawn(e)),
        (Stage::Connect { lease, .. }, Event::Connected) => attached(state, lease),
        (Stage::Connect { lease, deadline }, Event::NotReady) => SwitchState {
            stage: Stage::Inspect { lease, deadline },
            ..state
        },
        (Stage::Connect { .. }, Event::ConnectFailed(e)) => stopping(
            state,
            Ending::Failed { fault: Fault::Io(e) },
        ),
        (Stage::Inspect { .. }, Event::ChildExited(code)) => failed(
            reaped(state),
            Fault::UnexpectedExit(code),
        ),
        (Stage::Inspect { .. }, Event::ChildFailed(e)) => failed(reaped(state), Fault::Io(e)),
        (Stage::Inspect { lease, deadline }, Event::ChildRunning) => if now >= deadline {
            stopping(state, Ending::Failed { fault: Fault::SocketTimeout })
        } else {
            SwitchState { stage: Stage::Pause { lease, deadline }, ..state }
        },
        (Stage::Pause { lease, deadline }, Event::Paused) => SwitchState {
            stage: Stage::Connect { lease, deadline },
            ..state
        },
        (Stage::Terminate { ending }, Event::Terminated) => SwitchState {
            stage: Stage::RemoveSocket { ending },
            ..state
        },
        (Stage::Terminate { ending }, Event::TerminateFailed(e)) => SwitchState {
            stage: Stage::Done {
                ending: if ending is Failed {
                    ending
                } else {
                    Ending::Failed { fault: Fault::Io(e) }
                },
            },
            ..state
        },
        (Stage::Terminate { ending }, Event::GraceOver) => SwitchState {
            stage: Stage::Kill { ending },
            ..state
        },
        (Stage::Kill { ending }, Event::Killed) => SwitchState {
            stage: Stage::RemoveSocket { ending },
            ..state
        },
        (Stage::RemoveSocket { ending }, Event::SocketRemoved) => SwitchState {
            stage: Stage::Done { ending },
            ..state
        },
        _ => state,
    }
}

/// The state once a box has detached: the last one stops the switch.
pub open spec fn detached(state: SwitchState) -> SwitchState {
    let left = if state.attached > 0 {
        (state.attached - 1) as nat
    } else {
        0
    };
    let counted = SwitchState { attached: left, ..state };
    if left == 0 {
        stopping(counted, Ending::Settled)
    } else {
        SwitchState { stage: Stage::Done { ending: Ending::Settled }, ..counted }
    }
}

/// Whether a stage agrees with whether there is a process.
pub open spec fn sound(state: SwitchState) -> bool {
    match state.stage {
        Stage::Idle | Stage::WriteConfig { .. } => true,
        Stage::Probe { .. } | Stage::Connect { .. } | Stage::Inspect { .. } | Stage::Pause { .. } => {
            state.running
        },
        Stage::Signal { .. } | Stage::Unlink { .. } | Stage::Spawn { .. } => !state.running,
        Stage::Terminate { ending } | Stage::Kill { ending } | Stage::RemoveSocket { ending } => {
            !state.running && !(ending is Attached)
        },
        Stage::Done { ending } => match ending {
            Ending::Attached { .. } => state.running && state.attached > 0,
            Ending::Settled => state.attached == 0 ==> !state.running,
            Ending::Failed { fault } => match fault {
                Fault::Spawn(_) | Fault::SocketTimeout | Fault::UnexpectedExit(_) => !state.running,
                _ => true,
            },
        },
    }
}

/// The supervisor.
pub struct GvproxySwitch {
    binary: String,
    state_dir: String,
    allocator: IpAllocator,
    attached: usize,
    running: bool,
    stage: Stage,
}

impl View for GvproxySwitch {
    type V = SwitchState;

    closed spec fn view(&self) -> SwitchState {
        SwitchState { attached: self.attached as nat, running: self.running, stage: self.stage }
    }
}

/// What the switch is started with.
pub open spec fn spawn_arguments(state_dir: Seq<char>) -> Seq<Seq<char>> {
    seq![
        "-config"@,
        crate::path::joined(state_dir, "gvproxy.yaml"@),
        "-listen"@,
        "unix://"@ + crate::path::joined(state_dir, "gvproxy-api.sock"@),
        "-pid-file"@,
        crate::path::joined(state_dir, "gvproxy.pid"@),
        "-ssh-port"@,
        "-1"@,
    ]
}

impl GvproxySwitch {
    /// The path of the switch's program.
    pub closed spec fn program(&self) -> Seq<char> {
        self.binary@
    }

    /// The directory of the switch's files.
    pub closed spec fn dir(&self) -> Seq<char> {
        self.state_dir@
    }

    /// The address book.
    pub closed spec fn book(&self) -> IpAllocator {
        self.allocator
    }

    /// The address book is in order, there are no more boxes attached than
    /// leases handed out, one of which is still being attached while an attach
    /// is in course, and the stage agrees with whether there is a process.
    pub closed spec fn wf(&self) -> bool {
        &&& self.allocator.wf()
        &&& sound(self@)
        &&& if attaching(self.stage) {
            self.attached < self.allocator.book().len()
        } else {
            self.attached <= self.allocator.book().len()
        }
    }

    /// What holds of a supervisor at any time: its stage agrees with whether there
    /// is a process, and no more boxes are attached than leases were handed out.
    pub proof fn law_supervisor_is_sound(&self)
        requires
            self.wf(),
        ensures
            sound(self@),
            self@.attached <= self.book().book().len(),
    {
    }

    /// A supervisor over the default subnet. Nothing is started.
    pub fn new(binary: &str, state_dir: &str) -> (r: Self)
        ensures
            r.wf(),
            r@ == (SwitchState { attached: 0, running: false, stage: Stage::Idle }),
            r.program() == binary@,
            r.dir() == state_dir@,
            r.book().book() == Seq::<PtaskLease>::empty(),
            r.book().pool().prefix_len() == crate::subnet::DEFAULT_SUBNET_PREFIX,
            r.book().pool().network_bits() == crate::subnet::DEFAULT_SUBNET_BASE,
    {
        Self::with_subnet(binary, state_dir, SwitchSubnet::default())
    }

    /// A supervisor over a subnet. Nothing is started.
    pub fn with_subnet(binary: &str, state_dir: &str, subnet: SwitchSubnet) -> (r: Self)
        ensures
            r.wf(),
            r@ == (SwitchState { attached: 0, running: false, stage: Stage::Idle }),
            r.program() == binary@,
            r.dir() == state_dir@,
            r.book().pool() == subnet,
            r.book().book() == Seq::<PtaskLease>::empty(),
    {
        GvproxySwitch {
            binary: binary.to_owned(),
            state_dir: state_dir.to_owned(),
            allocator: IpAllocator::new(subnet),
            attached: 0,
            running: false,
            stage: Stage::Idle,
        }
    }

    /// The path of the control socket.
    pub fn control_socket(&self) -> (r: String)
        ensures
            r@ == crate::path::joined(self.dir(), "gvproxy-api.sock"@),
    {
        join(self.state_dir.as_str(), "gvproxy-api.sock")
    }

    /// The subnet that boxes lease from.
    pub fn subnet(&self) -> (r: SwitchSubnet)
        ensures
            r == self.book().pool(),
    {
        self.allocator.subnet()
    }

    /// The path of the configuration.
    pub fn config_path(&self) -> (r: String)
        ensures
            r@ == crate::path::joined(self.dir(), "gvproxy.yaml"@),
    {
        join(self.state_dir.as_str(), "gvproxy.yaml")
    }

    /// The path of the process's id.
    pub fn pid_path(&self) -> (r: String)
        ensures
            r@ == crate::path::joined(self.dir(), "gvproxy.pid"@),
    {
        join(self.state_dir.as_str(), "gvproxy.pid")
    }

    /// The directory of the switch's files.
    pub fn state_dir(&self) -> (r: &str)
        ensures
            r@ == self.dir(),
    {
        self.state_dir.as_str()
    }

    /// The path of the switch's program.
    pub fn binary(&self) -> (r: &str)
        ensures
            r@ == self.program(),
    {
        self.binary.as_str()
    }

    /// The configuration, with every lease handed out.
    pub fn config(&self) -> (r: String)
        ensures
            r@ == crate::subnet::config_text(self.book().pool(), self.book().book()),
    {
        render_gvproxy_config(self.allocator.subnet(), self.allocator.leases())
    }

    /// What the switch is started with.
    pub fn spawn_args(&self) -> (r: Vec<String>)
        ensures
            crate::dns::texts(r@) == spawn_arguments(self.dir()),
    {
        let mut listen: String = "unix://".to_owned();
        listen.append(self.control_socket().as_str());
        let mut args: Vec<String> = Vec::new();
        args.push("-config".to_owned());
        args.push(self.config_path());
        args.push("-listen".to_owned());
        args.push(listen);
        args.push("-pid-file".to_owned());
        args.push(self.pid_path());
        args.push("-ssh-port".to_owned());
        args.push("-1".to_owned());
        assert(crate::dns::texts(args@) =~= spawn_arguments(self.dir()));
        args
    }

    /// How many boxes are attached.
    pub fn attached(&self) -> (r: usize)
        ensures
            r == self@.attached,
    {
        self.attached
    }

    /// What is to be done next.
    pub fn stage(&self) -> (r: &Stage)
        ensures
            *r == self@.stage,
    {
        &self.stage
    }

    /// Begins to attach a box: an address is handed out, and the configuration
    /// is to be written with it. Where there is none left, the attach has failed.
    pub fn attach(&mut self)
        requires
            old(self).wf(),
            old(self)@.stage is Idle,
        ensures
            final(self).wf(),
            final(self).program() == old(self).program(),
            final(self).dir() == old(self).dir(),
            final(self).book().pool() == old(self).book().pool(),
            ({
                let book = old(self).book();
                if book.first() + book.book().len() <= book.last() {
                    &&& final(self)@.stage matches Stage::WriteConfig { lease }
                    &&& lease.ip.bits == book.first() + book.book().len()
                    &&& lease.mac.0@ == crate::subnet::mac_octets(lease.ip)
                    &&& final(self).book().book() == book.book().push(lease)
                    &&& final(self)@ == (SwitchState { stage: final(self)@.stage, ..old(self)@ })
                } else {
                    &&& final(self)@ == failed(old(self)@, Fault::Exhausted)
                    &&& final(self).book().book() == book.book()
                }
            }),
    {
        match self.allocator.allocate() {
            Ok(lease) => {
                self.stage = Stage::WriteConfig { lease };
            },
            Err(_) => {
                self.stage = Stage::Done { ending: Ending::Failed { fault: Fault::Exhausted } };
            },
        }
    }

    /// Records that a box detached. The last one stops the switch.
    pub fn detach(&mut self)
        requires
            old(self).wf(),
            old(self)@.stage is Idle,
        ensures
            final(self).wf(),
            final(self)@ == detached(old(self)@),
            final(self).program() == old(self).program(),
            final(self).dir() == old(self).dir(),
            final(self).book() == old(self).book(),
    {
        if self.attached > 0 {
            self.attached = self.attached - 1;
        }
        if self.attached == 0 {
            self.stop();
        } else {
            self.stage = Stage::Done { ending: Ending::Settled };
        }
    }

    /// Begins to stop the switch.
    pub fn stop(&mut self)
        requires
            old(self).wf(),
            old(self)@.stage is Idle,
        ensures
            final(self).wf(),
            final(self)@ == stopping(old(self)@, Ending::Settled),
            final(self).program() == old(self).program(),
            final(self).dir() == old(self).dir(),
            final(self).book() == old(self).book(),
    {
        if self.running {
            self.running = false;
            self.stage = Stage::Terminate { ending: Ending::Settled };
        } else {
            self.stage = Stage::Done { ending: Ending::Settled };
        }
    }

    /// Takes the outcome of the last step, at `now`.
    pub fn advance(self, event: Event, now: u64) -> (r: Self)
        requires
            self.wf(),
            now + SOCKET_READY_TIMEOUT_MS <= u64::MAX,
        ensures
            r.wf(),
            r@ == after(self@, event, now),
            r.program() == self.program(),
            r.dir() == self.dir(),
            r.book() == self.book(),
    {
        let GvproxySwitch {
            binary,
            state_dir,
            allocator,
            attached: count,
            running: alive,
            stage,
        } = self;
        proof {
            allocator.lemma_count();
        }
        let mut attached: usize = count;
        let mut running: bool = alive;
        let stage: Stage = match (stage, event) {
            (Stage::WriteConfig { lease }, Event::ConfigWritten) => {
                if running {
                    Stage::Probe { lease }
                } else {
                    Stage::Unlink { lease }
                }
            },
            (Stage::WriteConfig { .. }, Event::ConfigDirFailed(e)) => fail(Fault::ConfigDir(e)),
            (Stage::WriteConfig { .. }, Event::ConfigFailed(e)) => fail(Fault::Config(e)),
            (Stage::Probe { lease }, Event::ChildRunning) => {
                attached = attached + 1;
                Stage::Done { ending: Ending::Attached { lease } }
            },
            (Stage::Probe { lease }, Event::ChildExited(_)) => {
                running = false;
                Stage::Signal { lease }
            },
            (Stage::Probe { .. }, Event::ChildFailed(e)) => fail(Fault::Io(e)),
            (Stage::Signal { lease }, Event::Signalled) => Stage::Unlink { lease },
            (Stage::Unlink { lease }, Event::Unlinked) => Stage::Spawn { lease },
            (Stage::Unlink { .. }, Event::UnlinkFailed(e)) => fail(Fault::Io(e)),
            (Stage::Spawn { lease }, Event::Spawned) => {
                running = true;
                Stage::Connect { lease, deadline: now + SOCKET_READY_TIMEOUT_MS }
            },
            (Stage::Spawn { .. }, Event::SpawnFailed(e)) => fail(Fault::Spawn(e)),
            (Stage::Connect { lease, .. }, Event::Connected) => {
                attached = attached + 1;
                Stage::Done { ending: Ending::Attached { lease } }
            },
            (Stage::Connect { lease, deadline }, Event::NotReady) => Stage::Inspect {
                lease,
                deadline,
            },
            (Stage::Connect { .. }, Event::ConnectFailed(e)) => {
                running = false;
                Stage::Terminate { ending: Ending::Failed { fault: Fault::Io(e) } }
            },
            (Stage::Inspect { .. }, Event::ChildExited(code)) => {
                running = false;
                fail(Fault::UnexpectedExit(code))
            },
            (Stage::Inspect { .. }, Event::ChildFailed(e)) => {
                running = false;
                fail(Fault::Io(e))
            },
            (Stage::Inspect { lease, deadline }, Event::ChildRunning) => {
                if now >= deadline {
                    running = false;
                    Stage::Terminate { ending: Ending::Failed { fault: Fault::SocketTimeout } }
                } else {
                    Stage::Pause { lease, deadline }
                }
            },
            (Stage::Pause { lease, deadline }, Event::Paused) => Stage::Connect { lease, deadline },
            (Stage::Terminate { ending }, Event::Terminated) => Stage::RemoveSocket { ending },
            (Stage::Terminate { ending }, Event::TerminateFailed(e)) => match ending {
                Ending::Failed { fault } => fail(fault),
                _ => fail(Fault::Io(e)),
            },
            (Stage::Terminate { ending }, Event::GraceOver) => Stage::Kill { ending },
            (Stage::Kill { ending }, Event::Killed) => Stage::RemoveSocket { ending },
            (Stage::RemoveSocket { ending }, Event::SocketRemoved) => Stage::Done { ending },
            (stage, _) => stage,
        };
        GvproxySwitch { binary, state_dir, allocator, attached, running, stage }
    }

    /// Takes the end of an operation, after which the next may begin.
    pub fn finish(self) -> (r: (Self, Option<Ending>))
        requires
            self.wf(),
        ensures
            r.0.wf(),
            r.0.program() == self.program(),
            r.0.dir() == self.dir(),
            r.0.book() == self.book(),
            match self@.stage {
                Stage::Done { ending } => r.1 == Some(ending) && r.0@ == (SwitchState {
                    stage: Stage::Idle,
                    ..self@
                }),
                _ => r.1 is None && r.0@ == self@,
            },
    {
        let GvproxySwitch { binary, state_dir, allocator, attached, running, stage } = self;
        match stage {
            Stage::Done { ending } => {
                (
                    GvproxySwitch {
                        binary,
                        state_dir,
                        allocator,
                        attached,
                        running,
                        stage: Stage::Idle,
                    },
                    Some(ending),
                )
            },
            stage => (
                GvproxySwitch { binary, state_dir, allocator, attached, running, stage },
                None,
            ),
        }
    }

    /// A failure as callers are told of it.
    pub fn error(&self, fault: Fault) -> (r: NetError)
        ensures
            match fault {
                Fault::Exhausted => r == NetError::SubnetExhausted(self.book().pool()),
                Fault::ConfigDir(e) => r matches NetError::WriteConfig { path, detail } && path@
                    == self.dir() && detail == e,
                Fault::Config(e) => r matches NetError::WriteConfig { path, detail } && path@
                    == crate::path::joined(self.dir(), "gvproxy.yaml"@) && detail == e,
                Fault::Spawn(e) => r matches NetError::Spawn { path, detail } && path@
                    == self.program() && detail == e,
                Fault::SocketTimeout => r matches NetError::SocketTimeout(path, seconds) && path@
                    == crate::path::joined(self.dir(), "gvproxy-api.sock"@) && seconds
                    == SOCKET_READY_TIMEOUT_SECS,
                Fault::UnexpectedExit(code) => r == NetError::UnexpectedExit(code),
                Fault::Io(e) => r == NetError::Io(e),
            },
    {
        match fault {
            Fault::Exhausted => NetError::SubnetExhausted(self.allocator.subnet()),
            Fault::ConfigDir(detail) => NetError::WriteConfig {
                path: self.state_dir.clone(),
                detail,
            },
            Fault::Config(detail) => NetError::WriteConfig { path: self.config_path(), detail },
            Fault::Spawn(detail) => NetError::Spawn { path: self.binary.clone(), detail },
            Fault::SocketTimeout => NetError::SocketTimeout(
                self.control_socket(),
                SOCKET_READY_TIMEOUT_SECS,
            ),
            Fault::UnexpectedExit(code) => NetError::UnexpectedExit(code),
            Fault::Io(e) => NetError::Io(e),
        }
    }
}

/// The end of a failed operation.
fn fail(fault: Fault) -> (r: Stage)
    ensures
        r == (Stage::Done { ending: Ending::Failed { fault } }),
{
    Stage::Done { ending: Ending::Failed { fault } }
}

/// Whether an attach is in course.
pub open spec fn attaching(stage: Stage) -> bool {
    match stage {
        Stage::WriteConfig { .. }
        | Stage::Probe { .. }
        | Stage::Signal { .. }
        | Stage::Unlink { .. }
        | Stage::Spawn { .. }
        | Stage::Connect { .. }
        | Stage::Inspect { .. }
        | Stage::Pause { .. } => true,
        _ => false,
    }
}

// ---------------------------------------------------------------------------
// Laws
// ---------------------------------------------------------------------------

/// Whatever the system reports, the stage goes on to agree with whether there is
/// a process: an attached box has a running switch, a start that failed leaves
/// none, and behind the last box none runs.
pub proof fn law_stage_agrees_with_process(state: SwitchState, event: Event, now: u64)
    requires
        sound(state),
    ensures
        sound(after(state, event, now)),
{
}

/// A switch that is found dead is replaced with the count of attached boxes
/// kept: they detach on their own. No event but a completed attach changes the
/// count.
pub proof fn law_only_an_attach_counts(state: SwitchState, event: Event, now: u64)
    requires
        sound(state),
    ensures
        ({
            let next = after(state, event, now);
            if next.stage matches Stage::Done { ending } && ending is Attached && next.stage
                != state.stage {
                next.attached == state.attached + 1
            } else {
                next.attached == state.attached
            }
        }),
{
}

/// A box that detaches while others are attached leaves the switch running.
pub proof fn law_switch_outlives_all_but_the_last(state: SwitchState)
    requires
        state.attached > 1,
    ensures
        detached(state).running == state.running,
        detached(state).attached == state.attached - 1,
        detached(state).stage == (Stage::Done { ending: Ending::Settled }),
{
}

/// The last box that detaches stops the switch.
pub proof fn law_last_detach_stops_the_switch(state: SwitchState)
    requires
        state.attached <= 1,
    ensures
        detached(state).attached == 0,
        !detached(state).running,
        state.running ==> detached(state).stage is Terminate,
{
}

/// An attach with no switch running starts one: the socket that an earlier run
/// left is removed, the process is started, and the box is attached once the
/// control socket takes a connection. The socket is given five seconds.
pub proof fn law_first_box_starts_the_switch(
    state: SwitchState,
    lease: PtaskLease,
    at_spawn: u64,
    later: u64,
)
    requires
        state.stage == (Stage::WriteConfig { lease }),
        !state.running,
        at_spawn <= u64::MAX - 5000,
    ensures
        ({
            let written = after(state, Event::ConfigWritten, later);
            let cleared = after(written, Event::Unlinked, later);
            let spawned = after(cleared, Event::Spawned, at_spawn);
            let done = after(spawned, Event::Connected, later);
            &&& written.stage == (Stage::Unlink { lease })
            &&& cleared.stage == (Stage::Spawn { lease })
            &&& spawned.stage == (Stage::Connect { lease, deadline: (at_spawn + 5000) as u64 })
            &&& spawned.running
            &&& done == (SwitchState {
                attached: state.attached + 1,
                running: true,
                stage: Stage::Done { ending: Ending::Attached { lease } },
            })
        }),
{
}

/// An attach with a switch running joins it; where the switch is found dead, the
/// boxes on it are told, and the attach goes on as the first box's does.
pub proof fn law_next_box_joins_the_switch(
    state: SwitchState,
    lease: PtaskLease,
    code: Option<i32>,
    now: u64,
)
    requires
        state.stage == (Stage::WriteConfig { lease }),
        state.running,
    ensures
        ({
            let written = after(state, Event::ConfigWritten, now);
            let dead = after(written, Event::ChildExited(code), now);
            let first = SwitchState { running: false, ..state };
            &&& after(written, Event::ChildRunning, now) == (SwitchState {
                attached: state.attached + 1,
                running: true,
                stage: Stage::Done { ending: Ending::Attached { lease } },
            })
            &&& dead.stage == (Stage::Signal { lease })
            &&& after(dead, Event::Signalled, now) == after(first, Event::ConfigWritten, now)
        }),
{
}

/// A control socket that is not up yet is tried again for as long as the process
/// runs and the deadline, which stays what it is, has not come. From the deadline
/// on the process is stopped, and a process that ended is reported by its code.
pub proof fn law_socket_is_tried_until_the_deadline(
    state: SwitchState,
    lease: PtaskLease,
    deadline: u64,
    now: u64,
    code: Option<i32>,
)
    requires
        state.stage == (Stage::Connect { lease, deadline }),
        state.running,
    ensures
        ({
            let waiting = after(state, Event::NotReady, now);
            let seen = after(waiting, Event::ChildRunning, now);
            &&& now < deadline ==> after(seen, Event::Paused, now) == state && seen.stage is Pause
            &&& now >= deadline ==> seen == (SwitchState {
                attached: state.attached,
                running: false,
                stage: Stage::Terminate { ending: Ending::Failed { fault: Fault::SocketTimeout } },
            })
            &&& after(waiting, Event::ChildExited(code), now) == (SwitchState {
                attached: state.attached,
                running: false,
                stage: Stage::Done { ending: Ending::Failed { fault: Fault::UnexpectedExit(code) } },
            })
        }),
{
}

/// A process that is to end is asked to, and killed once the grace period is
/// over; either way its socket is removed behind it and the operation ends as it
/// was to. Only a stop that could not be asked for fails on its own account, and
/// not over an earlier failure.
pub proof fn law_stop_ends_as_it_was_to(state: SwitchState, ending: Ending, e: String, now: u64)
    requires
        state.stage == (Stage::Terminate { ending }),
    ensures
        ({
            let asked = after(state, Event::Terminated, now);
            let killed = after(after(state, Event::GraceOver, now), Event::Killed, now);
            let done = SwitchState { stage: Stage::Done { ending }, ..state };
            &&& asked.stage == (Stage::RemoveSocket { ending })
            &&& killed == asked
            &&& after(asked, Event::SocketRemoved, now) == done
            &&& ending is Failed ==> after(state, Event::TerminateFailed(e), now) == done
            &&& !(ending is Failed) ==> after(state, Event::TerminateFailed(e), now).stage == (
            Stage::Done { ending: Ending::Failed { fault: Fault::Io(e) } })
        }),
{
}

/// A step that fails ends the attach with what the system said of it; the process
/// that was started for it, if there is one, is stopped first.
pub proof fn law_failed_step_is_told(state: SwitchState, lease: PtaskLease, deadline: u64, e: String, now: u64)
    ensures
        ({
            let told = |fault: Fault| Stage::Done { ending: Ending::Failed { fault } };
            let write = SwitchState { stage: Stage::WriteConfig { lease }, ..state };
            let probe = SwitchState { stage: Stage::Probe { lease }, ..state };
            let unlink = SwitchState { stage: Stage::Unlink { lease }, ..state };
            let spawn = SwitchState { stage: Stage::Spawn { lease }, ..state };
            let connect = SwitchState {
                running: true,
                stage: Stage::Connect { lease, deadline },
                ..state
            };
            let inspect = SwitchState {
                running: true,
                stage: Stage::Inspect { lease, deadline },
                ..state
            };
            &&& after(write, Event::ConfigDirFailed(e), now) == (SwitchState {
                stage: told(Fault::ConfigDir(e)),
                ..state
            })
            &&& after(write, Event::ConfigFailed(e), now) == (SwitchState {
                stage: told(Fault::Config(e)),
                ..state
            })
            &&& after(probe, Event::ChildFailed(e), now) == (SwitchState {
                stage: told(Fault::Io(e)),
                ..state
            })
            &&& after(unlink, Event::UnlinkFailed(e), now) == (SwitchState {
                stage: told(Fault::Io(e)),
                ..state
            })
            &&& after(spawn, Event::SpawnFailed(e), now) == (SwitchState {
                stage: told(Fault::Spawn(e)),
                ..state
            })
            &&& after(connect, Event::ConnectFailed(e), now) == (SwitchState {
                attached: state.attached,
                running: false,
                stage: Stage::Terminate { ending: Ending::Failed { fault: Fault::Io(e) } },
            })
            &&& after(inspect, Event::ChildFailed(e), now) == (SwitchState {
                attached: state.attached,
                running: false,
                stage: told(Fault::Io(e)),
            })
        }),
{
}

/// A supervisor that is idle or has ended an operation stays as it is, whatever
/// is reported; and a box that detaches from a switch that does not run has
/// nothing to stop.
pub proof fn law_ended_operation_stays_ended(state: SwitchState, event: Event, now: u64)
    ensures
        state.stage is Idle || state.stage is Done ==> after(state, event, now) == state,
        state.attached <= 1 && !state.running ==> detached(state).stage == (Stage::Done {
            ending: Ending::Settled,
        }),
        state.attached <= 1 && state.running ==> detached(state).stage == (Stage::Terminate {
            ending: Ending::Settled,
        }),
{
}

/// The switch's files are all in its own directory: what it is started with names
/// no path outside of it.
pub proof fn law_switch_keeps_its_files_in_its_directory(state_dir: Seq<char>)
    requires
        state_dir.len() > 0,
        state_dir.last() != '/',
    ensures
        spawn_arguments(state_dir).len() == 8,
        spawn_arguments(state_dir)[0] == "-config"@,
        spawn_arguments(state_dir)[1] == state_dir + "/gvproxy.yaml"@,
        spawn_arguments(state_dir)[2] == "-listen"@,
        spawn_arguments(state_dir)[3] == "unix://"@ + state_dir + "/gvproxy-api.sock"@,
        spawn_arguments(state_dir)[4] == "-pid-file"@,
        spawn_arguments(state_dir)[5] == state_dir + "/gvproxy.pid"@,
{
    reveal_strlit("/");
    reveal_strlit("gvproxy.yaml");
    reveal_strlit("/gvproxy.yaml");
    reveal_strlit("gvproxy-api.sock");
    reveal_strlit("/gvproxy-api.sock");
    reveal_strlit("gvproxy.pid");
    reveal_strlit("/gvproxy.pid");
    assert(spawn_arguments(state_dir)[1] =~= state_dir + "/gvproxy.yaml"@);
    assert(spawn_arguments(state_dir)[3] =~= "unix://"@ + state_dir + "/gvproxy-api.sock"@);
    assert(spawn_arguments(state_dir)[5] =~= state_dir + "/gvproxy.pid"@);
}

/// A switch that is to stop is asked to end where it runs, and there is nothing
/// to do where it does not; the count of boxes stays.
pub proof fn law_stop_ends_what_runs(state: SwitchState, ending: Ending)
    ensures
        state.running ==> stopping(state, ending) == (SwitchState {
            attached: state.attached,
            running: false,
            stage: Stage::Terminate { ending },
        }),
        !state.running ==> stopping(state, ending) == (SwitchState {
            attached: state.attached,
            running: false,
            stage: Stage::Done { ending },
        }),
{
}

} // verus!
