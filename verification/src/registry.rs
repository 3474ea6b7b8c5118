//! What the supervisor keeps for one unit, and how starting, stopping and
//! exiting change it.

use crate::config::{RestartPolicy, UnitConfig};
use crate::proto::{text_of, InfoView, UnitInfo, UnitState};
use crate::sort::Keyed;
use vstd::prelude::*;
use vstd::string::*;
use vstd::utf8::encode_utf8;

verus! {

/// How often a unit is restarted by its policy before it is given up and
/// marked as failed. Restarts that a client asked for do not count.
pub const MAX_RESTARTS: u32 = 5;

/// The state of one unit.
#[derive(Debug)]
pub struct UnitRuntime {
    pub config: UnitConfig,
    pub state: UnitState,
    pub pid: Option<u32>,
    /// How often the unit was restarted, by its policy or by a client.
    pub restart_count: u32,
    /// How often the unit was restarted by its policy.
    pub auto_restarts: u32,
    pub exit_status: Option<String>,
    /// A stop was asked for, so the policy does not apply to the next exit.
    pub user_stopped: bool,
    /// A restart was asked for, so the unit is started again when it exits.
    pub pending_restart: bool,
}

/// The state of one unit, with its exit status as a character sequence.
pub struct RuntimeView {
    pub config: UnitConfig,
    pub state: UnitState,
    pub pid: Option<u32>,
    pub restart_count: u32,
    pub auto_restarts: u32,
    pub exit_status: Option<Seq<char>>,
    pub user_stopped: bool,
    pub pending_restart: bool,
}

impl View for UnitRuntime {
    type V = RuntimeView;

    open spec fn view(&self) -> RuntimeView {
        RuntimeView {
            config: self.config,
            state: self.state,
            pid: self.pid,
            restart_count: self.restart_count,
            auto_restarts: self.auto_restarts,
            exit_status: text_of(self.exit_status),
            user_stopped: self.user_stopped,
            pending_restart: self.pending_restart,
        }
    }
}

/// What becomes of a unit whose process has exited.
#[derive(Clone, Copy, PartialEq, Eq, Structural, Debug)]
pub enum AfterExit {
    /// It stays down.
    StayDown,
    /// It is started again at once, because a client asked for a restart.
    RestartNow,
    /// It is started again after a pause, because its policy says so.
    RestartLater,
}

impl RuntimeView {
    /// A process of the unit exists.
    pub open spec fn is_up(self) -> bool {
        self.state == UnitState::Running || self.state == UnitState::Stopping
    }

    /// What holds of every unit: its process is known exactly while it is up,
    /// policy restarts are bounded, and a restart is only awaited from a unit
    /// that is being stopped for it.
    pub open spec fn valid(self) -> bool {
        &&& self.pid is Some <==> self.is_up()
        &&& self.auto_restarts <= MAX_RESTARTS
        &&& self.pending_restart ==> self.state == UnitState::Stopping
        &&& self.state == UnitState::Stopping ==> self.user_stopped
    }

    /// A unit that has just been loaded.
    pub open spec fn fresh(config: UnitConfig) -> RuntimeView {
        RuntimeView {
            config,
            state: UnitState::Loaded,
            pid: None,
            restart_count: 0,
            auto_restarts: 0,
            exit_status: None,
            user_stopped: false,
            pending_restart: false,
        }
    }

    /// What clients are told.
    pub open spec fn info(self) -> InfoView {
        InfoView {
            name: self.config.name@,
            state: self.state,
            pid: self.pid,
            restart_count: self.restart_count,
            exit_status: self.exit_status,
        }
    }

    /// The unit with its process running.
    pub open spec fn after_spawn(self, pid: u32) -> RuntimeView {
        RuntimeView { pid: Some(pid), state: UnitState::Running, user_stopped: false, ..self }
    }

    /// The unit when its process could not be started.
    pub open spec fn after_failed_spawn(self, reason: Seq<char>) -> RuntimeView {
        RuntimeView { state: UnitState::Failed, exit_status: Some(reason), ..self }
    }

    /// The unit while its process is asked to terminate.
    pub open spec fn after_stop(self) -> RuntimeView {
        RuntimeView { user_stopped: true, state: UnitState::Stopping, ..self }
    }

    /// The unit when no restart is awaited from it any more.
    pub open spec fn without_restart(self) -> RuntimeView {
        RuntimeView { pending_restart: false, ..self }
    }

    /// The unit's policy asks for a restart after this exit.
    pub open spec fn policy_wants_restart(self, success: bool) -> bool {
        !self.user_stopped && match self.config.restart {
            RestartPolicy::Always => true,
            RestartPolicy::OnFailure => !success,
            RestartPolicy::No => false,
        }
    }

    /// What becomes of the unit when its process exits.
    pub open spec fn fate(self, success: bool) -> AfterExit {
        if self.pending_restart {
            AfterExit::RestartNow
        } else if self.policy_wants_restart(success) && self.auto_restarts < MAX_RESTARTS {
            AfterExit::RestartLater
        } else {
            AfterExit::StayDown
        }
    }

    /// The state in which an exit leaves the unit: failed if it has used up
    /// its restarts or exited unsuccessfully, unless that was asked for.
    pub open spec fn state_after_exit(self, success: bool) -> UnitState {
        if self.fate(success) != AfterExit::StayDown {
            UnitState::Stopped
        } else if self.policy_wants_restart(success) {
            UnitState::Failed
        } else if self.user_stopped || success {
            UnitState::Stopped
        } else {
            UnitState::Failed
        }
    }

    /// The unit when its process has exited.
    pub open spec fn after_exit(self, status: Seq<char>, success: bool) -> RuntimeView {
        let fate = self.fate(success);
        RuntimeView {
            pid: None,
            exit_status: Some(status),
            pending_restart: false,
            restart_count: if fate != AfterExit::StayDown && self.restart_count < u32::MAX {
                (self.restart_count + 1) as u32
            } else {
                self.restart_count
            },
            auto_restarts: if fate == AfterExit::RestartLater {
                (self.auto_restarts + 1) as u32
            } else {
                self.auto_restarts
            },
            state: self.state_after_exit(success),
            ..self
        }
    }
}

impl UnitRuntime {
    /// A unit that has not been started yet.
    pub fn new(config: UnitConfig) -> (r: UnitRuntime)
        ensures
            r@ == RuntimeView::fresh(config),
            r@.valid(),
            r.config == config,
            r.state == UnitState::Loaded,
            r.pid is None,
            r.restart_count == 0,
            r.auto_restarts == 0,
            r.exit_status is None,
            !r.user_stopped,
            !r.pending_restart,
    {
        UnitRuntime {
            config,
            state: UnitState::Loaded,
            pid: None,
            restart_count: 0,
            auto_restarts: 0,
            exit_status: None,
            user_stopped: false,
            pending_restart: false,
        }
    }

    /// What clients are told about the unit.
    pub fn to_info(&self) -> (r: UnitInfo)
        ensures
            r@ == self@.info(),
            r.name@ == self.config.name@,
            r.state == self.state,
            r.pid == self.pid,
            r.restart_count == self.restart_count,
            text_of(r.exit_status) == text_of(self.exit_status),
    {
        UnitInfo {
            name: self.config.name.clone(),
            state: self.state,
            pid: self.pid,
            restart_count: self.restart_count,
            exit_status: self.exit_status.clone(),
        }
    }

    /// Whether a process of the unit exists.
    pub fn up(&self) -> (r: bool)
        ensures
            r == self@.is_up(),
            r <==> self.state == UnitState::Running || self.state == UnitState::Stopping,
    {
        self.state == UnitState::Running || self.state == UnitState::Stopping
    }

    /// The unit's process was started.
    pub fn spawned(&mut self, pid: u32)
        ensures
            final(self)@ == old(self)@.after_spawn(pid),
            *final(self) == (UnitRuntime {
                pid: Some(pid),
                state: UnitState::Running,
                user_stopped: false,
                ..*old(self)
            }),
            final(self).config == old(self).config,
            old(self)@.valid() && !old(self)@.is_up() ==> final(self)@.valid(),
    {
        self.pid = Some(pid);
        self.state = UnitState::Running;
        self.user_stopped = false;
    }

    /// The unit's process could not be started.
    pub fn not_spawned(&mut self, reason: String)
        ensures
            final(self)@ == old(self)@.after_failed_spawn(reason@),
            *final(self) == (UnitRuntime {
                state: UnitState::Failed,
                exit_status: Some(reason),
                ..*old(self)
            }),
            final(self).config == old(self).config,
            old(self)@.valid() && !old(self)@.is_up() ==> final(self)@.valid(),
    {
        self.state = UnitState::Failed;
        self.exit_status = Some(reason);
    }

    /// The unit's process is about to be asked to terminate.
    pub fn stopping(&mut self)
        ensures
            final(self)@ == old(self)@.after_stop(),
            *final(self) == (UnitRuntime {
                state: UnitState::Stopping,
                user_stopped: true,
                ..*old(self)
            }),
            final(self).config == old(self).config,
            old(self)@.valid() && old(self)@.is_up() ==> final(self)@.valid(),
    {
        self.user_stopped = true;
        self.state = UnitState::Stopping;
    }

    /// No restart is awaited from the unit any more.
    pub fn drop_restart(&mut self)
        ensures
            final(self)@ == old(self)@.without_restart(),
            *final(self) == (UnitRuntime { pending_restart: false, ..*old(self) }),
            final(self).config == old(self).config,
            old(self)@.valid() ==> final(self)@.valid(),
    {
        self.pending_restart = false;
    }

    /// The unit's process has exited. Says whether the unit is to be started
    /// again.
    pub fn exited(&mut self, status: String, success: bool) -> (r: AfterExit)
        ensures
            final(self)@ == old(self)@.after_exit(status@, success),
            final(self).config == old(self).config,
            r == old(self)@.fate(success),
            old(self)@.valid() ==> final(self)@.valid(),
            final(self).pid is None,
            final(self).exit_status == Some(status),
            final(self).user_stopped == old(self).user_stopped,
            !final(self).pending_restart,
            r == AfterExit::RestartNow <==> old(self).pending_restart,
            r == AfterExit::RestartLater <==> !old(self).pending_restart && !old(
                self,
            ).user_stopped && old(self).auto_restarts < MAX_RESTARTS && (old(self).config.restart
                == RestartPolicy::Always || old(self).config.restart == RestartPolicy::OnFailure
                && !success),
            final(self).restart_count == if r == AfterExit::StayDown || old(self).restart_count
                == u32::MAX {
                old(self).restart_count as int
            } else {
                old(self).restart_count + 1
            },
            final(self).auto_restarts == if r == AfterExit::RestartLater {
                old(self).auto_restarts + 1
            } else {
                old(self).auto_restarts as int
            },
            final(self).state == UnitState::Stopped || final(self).state == UnitState::Failed,
            final(self).state == UnitState::Failed <==> r == AfterExit::StayDown && !old(
                self,
            ).user_stopped && (!success || old(self).config.restart == RestartPolicy::Always),
    {
        self.pid = None;
        self.exit_status = Some(status);
        let asked = self.pending_restart;
        self.pending_restart = false;
        let policy = !self.user_stopped && match self.config.restart {
            RestartPolicy::Always => true,
            RestartPolicy::OnFailure => !success,
            RestartPolicy::No => false,
        };
        let fate = if asked {
            AfterExit::RestartNow
        } else if policy && self.auto_restarts < MAX_RESTARTS {
            AfterExit::RestartLater
        } else {
            AfterExit::StayDown
        };
        if fate != AfterExit::StayDown && self.restart_count < u32::MAX {
            self.restart_count = self.restart_count + 1;
        }
        if fate == AfterExit::RestartLater {
            self.auto_restarts = self.auto_restarts + 1;
        }
        self.state = if fate != AfterExit::StayDown {
            UnitState::Stopped
        } else if policy {
            UnitState::Failed
        } else if self.user_stopped || success {
            UnitState::Stopped
        } else {
            UnitState::Failed
        };
        fate
    }
}

impl Keyed for UnitInfo {
    open spec fn key(&self) -> Seq<u8> {
        encode_utf8(self.name@)
    }

    fn key_bytes(&self) -> (r: &[u8]) {
        self.name.as_str().as_bytes()
    }
}

} // verus!
