//! What starting, stopping and exiting do to one unit, field by field.

use crate::config::{RestartPolicy, UnitConfig};
use crate::proto::UnitState;
use crate::registry::{AfterExit, RuntimeView};
use vstd::prelude::*;
use vstd::string::*;

verus! {

/// A unit that has just been loaded has its definition and nothing else.
pub proof fn loaded_units_are_blank(config: UnitConfig)
    ensures
        ({
            let u = RuntimeView::fresh(config);
            &&& u.config == config
            &&& u.state == UnitState::Loaded
            &&& u.pid is None
            &&& u.restart_count == 0
            &&& u.auto_restarts == 0
            &&& u.exit_status is None
            &&& !u.user_stopped
            &&& !u.pending_restart
        }),
{
}

/// What clients are told of a unit is, field by field, what is known of it.
pub proof fn clients_are_told_the_truth(u: RuntimeView)
    ensures
        u.info().name == u.config.name@,
        u.info().state == u.state,
        u.info().pid == u.pid,
        u.info().restart_count == u.restart_count,
        u.info().exit_status == u.exit_status,
{
}

/// Two units of which clients are told the same agree in name, state, process,
/// count and exit status, so that a failed unit is told from a stopped one.
pub proof fn clients_can_tell_units_apart(u: RuntimeView, v: RuntimeView)
    requires
        u.info() == v.info(),
    ensures
        u.config.name@ == v.config.name@,
        u.state == v.state,
        u.pid == v.pid,
        u.restart_count == v.restart_count,
        u.exit_status == v.exit_status,
{
}

/// A unit is up while it runs and while it is being stopped.
pub proof fn units_are_up_while_they_have_a_process(u: RuntimeView)
    ensures
        u.is_up() <==> u.state == UnitState::Running || u.state == UnitState::Stopping,
        u.valid() ==> (u.pid is Some <==> u.state == UnitState::Running || u.state
            == UnitState::Stopping),
        u.valid() ==> u.auto_restarts <= 5,
{
}

/// A unit whose process was spawned runs with that process, and forgets that
/// it was stopped. Nothing else changes.
pub proof fn spawned_units_run(u: RuntimeView, pid: u32)
    ensures
        ({
            let v = u.after_spawn(pid);
            &&& v.state == UnitState::Running
            &&& v.pid == Some(pid)
            &&& !v.user_stopped
            &&& v.config == u.config
            &&& v.restart_count == u.restart_count
            &&& v.auto_restarts == u.auto_restarts
            &&& v.exit_status == u.exit_status
            &&& v.pending_restart == u.pending_restart
        }),
{
}

/// A unit whose process could not be spawned has failed for that reason.
/// Nothing else changes.
pub proof fn unspawned_units_fail(u: RuntimeView, reason: Seq<char>)
    ensures
        ({
            let v = u.after_failed_spawn(reason);
            &&& v.state == UnitState::Failed
            &&& v.exit_status == Some(reason)
            &&& v.pid == u.pid
            &&& v.user_stopped == u.user_stopped
            &&& v.config == u.config
            &&& v.restart_count == u.restart_count
            &&& v.auto_restarts == u.auto_restarts
            &&& v.pending_restart == u.pending_restart
        }),
{
}

/// A unit that is being stopped keeps its process until that exits. Nothing
/// else changes but that the stop is remembered.
pub proof fn stopped_units_keep_their_process(u: RuntimeView)
    ensures
        ({
            let v = u.after_stop();
            &&& v.state == UnitState::Stopping
            &&& v.user_stopped
            &&& v.pid == u.pid
            &&& v.exit_status == u.exit_status
            &&& v.config == u.config
            &&& v.restart_count == u.restart_count
            &&& v.auto_restarts == u.auto_restarts
            &&& v.pending_restart == u.pending_restart
        }),
{
}

/// Dropping a restart changes nothing else.
pub proof fn dropped_restarts_leave_the_rest(u: RuntimeView)
    ensures
        ({
            let v = u.without_restart();
            &&& !v.pending_restart
            &&& v.state == u.state
            &&& v.user_stopped == u.user_stopped
            &&& v.pid == u.pid
            &&& v.exit_status == u.exit_status
            &&& v.config == u.config
            &&& v.restart_count == u.restart_count
            &&& v.auto_restarts == u.auto_restarts
        }),
{
}

/// An exit is always noted: the process is gone, its status is kept, and no
/// restart is awaited any more. The definition stays, and so does the memory of
/// a stop.
pub proof fn exits_are_noted(u: RuntimeView, status: Seq<char>, success: bool)
    ensures
        ({
            let v = u.after_exit(status, success);
            &&& v.pid is None
            &&& v.exit_status == Some(status)
            &&& !v.pending_restart
            &&& v.config == u.config
            &&& v.user_stopped == u.user_stopped
            &&& v.state == UnitState::Stopped || v.state == UnitState::Failed
        }),
{
}

/// A unit that exits on its own is restarted by the policy "always", and by
/// "on-failure" if the exit was unsuccessful, as long as the policy has not done
/// so five times. Restarts that clients asked for do not matter.
pub proof fn policies_restart_units_that_exit(
    u: RuntimeView,
    status: Seq<char>,
    success: bool,
)
    requires
        !u.user_stopped,
        !u.pending_restart,
        u.auto_restarts < 5,
        u.config.restart == RestartPolicy::Always || (u.config.restart == RestartPolicy::OnFailure
            && !success),
    ensures
        u.fate(success) == AfterExit::RestartLater,
        ({
            let v = u.after_exit(status, success);
            &&& v.state == UnitState::Stopped
            &&& v.auto_restarts == u.auto_restarts + 1
            &&& v.restart_count == if u.restart_count < u32::MAX {
                u.restart_count + 1
            } else {
                u32::MAX as int
            }
        }),
{
}

/// A unit that exits on its own when its policy has restarted it five times is
/// given up as failed, however it exited.
pub proof fn policies_give_up_after_five_restarts(
    u: RuntimeView,
    status: Seq<char>,
    success: bool,
)
    requires
        !u.user_stopped,
        !u.pending_restart,
        u.auto_restarts >= 5,
        u.config.restart == RestartPolicy::Always || (u.config.restart == RestartPolicy::OnFailure
            && !success),
    ensures
        u.fate(success) == AfterExit::StayDown,
        ({
            let v = u.after_exit(status, success);
            &&& v.state == UnitState::Failed
            &&& v.auto_restarts == u.auto_restarts
            &&& v.restart_count == u.restart_count
        }),
{
}

/// A unit that exits on its own and that its policy does not restart stays
/// down: failed if the exit was unsuccessful, stopped if not.
pub proof fn other_exits_are_final(u: RuntimeView, status: Seq<char>, success: bool)
    requires
        !u.user_stopped,
        !u.pending_restart,
        u.config.restart == RestartPolicy::No || (u.config.restart == RestartPolicy::OnFailure
            && success),
    ensures
        u.fate(success) == AfterExit::StayDown,
        ({
            let v = u.after_exit(status, success);
            &&& v.state == if success {
                UnitState::Stopped
            } else {
                UnitState::Failed
            }
            &&& v.auto_restarts == u.auto_restarts
            &&& v.restart_count == u.restart_count
        }),
{
}

/// A unit that was stopped on purpose stays down and counts as stopped, whatever
/// its policy, its counts and its exit.
pub proof fn wanted_exits_are_final(u: RuntimeView, status: Seq<char>, success: bool)
    requires
        u.user_stopped,
        !u.pending_restart,
    ensures
        u.fate(success) == AfterExit::StayDown,
        ({
            let v = u.after_exit(status, success);
            &&& v.state == UnitState::Stopped
            &&& v.auto_restarts == u.auto_restarts
            &&& v.restart_count == u.restart_count
        }),
{
}

/// A unit that a client wants restarted is restarted at once when it exits,
/// whatever its policy, its counts and its exit. That counts as a restart, but
/// not as one by the policy.
pub proof fn asked_for_restarts_happen_at_once(
    u: RuntimeView,
    status: Seq<char>,
    success: bool,
)
    requires
        u.pending_restart,
    ensures
        u.fate(success) == AfterExit::RestartNow,
        ({
            let v = u.after_exit(status, success);
            &&& v.state == UnitState::Stopped
            &&& v.auto_restarts == u.auto_restarts
            &&& v.restart_count == if u.restart_count < u32::MAX {
                u.restart_count + 1
            } else {
                u32::MAX as int
            }
        }),
{
}

} // verus!
