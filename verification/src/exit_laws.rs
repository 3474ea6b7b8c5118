//! What the supervisor does about exits, restarts and shutdowns, unit by unit
//! and field by field.

use crate::config::RestartPolicy;
use crate::model::{
    boot_from, calls_for_spawn, is_exit_of, pid_of, spawn_done, start_tried, step, stop_next,
    valid, EffectView, EventView, Outcome, ReportView, StageView, SupervisorView, TaskView, Units,
};
use crate::proto::UnitState;
use crate::registry::RuntimeView;
use crate::request_laws::{is_down, others_kept};
use crate::supervisor::{final_steps, FinalStep, ShutdownMode};
use crate::supervisor_laws::units_stop_in_reverse_order;
use vstd::prelude::*;
use vstd::string::*;

verus! {

/// The unit has this process, and no other unit does.
pub open spec fn sole_process(units: Units, name: Seq<char>, pid: u32) -> bool {
    &&& units.contains_key(name)
    &&& units[name].pid == Some(pid)
    &&& forall|n: Seq<char>| #[trigger]
        units.contains_key(n) && units[n].pid == Some(pid) ==> n == name
}

/// A report that a process exited.
pub open spec fn exit_report(pid: u32, status: Seq<char>, success: bool) -> ReportView {
    ReportView::Event(EventView::ProcessExited { pid, status, success })
}

/// One more than `n`, as far as that can be counted.
pub open spec fn counted(n: u32) -> int {
    if n < u32::MAX {
        n + 1
    } else {
        u32::MAX as int
    }
}

/// The unit is down with this exit status and in this state, and its definition
/// is what it was.
pub open spec fn ended(
    before: RuntimeView,
    after: RuntimeView,
    status: Seq<char>,
    state: UnitState,
) -> bool {
    &&& after.pid is None
    &&& after.exit_status == Some(status)
    &&& after.state == state
    &&& !after.pending_restart
    &&& after.user_stopped == before.user_stopped
    &&& after.config == before.config
}

/// The unit was restarted this often, by anyone and by its policy.
pub open spec fn counts(u: RuntimeView, all: int, by_policy: int) -> bool {
    u.restart_count == all && u.auto_restarts == by_policy
}

/// A process belongs to a unit exactly if the unit has it.
pub proof fn processes_belong_to_their_units(units: Units, name: Seq<char>, pid: u32)
    ensures
        pid_of(units, name) == Some(pid) <==> units.contains_key(name) && units[name].pid == Some(
            pid,
        ),
        is_exit_of(units, pid, Some(name)) <==> units.contains_key(name) && units[name].pid
            == Some(pid),
        is_exit_of(units, pid, None) <==> forall|n: Seq<char>| #[trigger]
            units.contains_key(n) ==> units[n].pid != Some(pid),
{
    if is_exit_of(units, pid, None) {
        assert forall|n: Seq<char>| #[trigger] units.contains_key(n) implies units[n].pid != Some(
            pid,
        ) by {
            assert(pid_of(units, n) != Some(pid));
        }
    }
}

/// Only the unit that has the process is one that exits.
proof fn lemma_sole_exit(units: Units, name: Seq<char>, pid: u32)
    requires
        sole_process(units, name, pid),
    ensures
        is_exit_of(units, pid, Some(name)),
        forall|unit: Option<Seq<char>>| #[trigger]
            is_exit_of(units, pid, unit) ==> unit == Some(name),
{
    assert(pid_of(units, name) == Some(pid));
    assert forall|unit: Option<Seq<char>>| #[trigger] is_exit_of(units, pid, unit) implies unit
        == Some(name) by {
        if let Some(n) = unit {
            assert(pid_of(units, n) == Some(pid));
            assert(units.contains_key(n));
        } else {
            assert(pid_of(units, name) != Some(pid));
        }
    }
}

/// A running unit that exits on its own, and whose policy asks for it, is
/// scheduled for a restart after the pause, as long as its policy has restarted
/// it less than five times.
pub proof fn units_that_exit_are_restarted_by_policy(
    pre: SupervisorView,
    name: Seq<char>,
    pid: u32,
    status: Seq<char>,
    success: bool,
    out: Outcome,
)
    requires
        pre.task == TaskView::Waiting,
        sole_process(pre.units, name, pid),
        !pre.units[name].user_stopped,
        !pre.units[name].pending_restart,
        pre.units[name].auto_restarts < 5,
        pre.units[name].config.restart == RestartPolicy::Always || (pre.units[name].config.restart
            == RestartPolicy::OnFailure && !success),
        step(pre, exit_report(pid, status, success), out),
    ensures
        out.state.units.contains_key(name),
        ended(pre.units[name], out.state.units[name], status, UnitState::Stopped),
        counts(
            out.state.units[name],
            counted(pre.units[name].restart_count),
            pre.units[name].auto_restarts + 1,
        ),
        others_kept(pre.units, out.state.units, name),
        out.state.boot_order == pre.boot_order,
        out.state.task == TaskView::Waiting,
        out.effects == seq![EffectView::ScheduleRestart { name, secs: 1 }],
{
    lemma_sole_exit(pre.units, name, pid);
}

/// A running unit that exits on its own and is not restarted stays down: as
/// failed if its policy gives it up or the exit was unsuccessful, as stopped if
/// not.
pub proof fn units_that_exit_for_good_stay_down(
    pre: SupervisorView,
    name: Seq<char>,
    pid: u32,
    status: Seq<char>,
    success: bool,
    out: Outcome,
)
    requires
        pre.task == TaskView::Waiting,
        sole_process(pre.units, name, pid),
        !pre.units[name].user_stopped,
        !pre.units[name].pending_restart,
        pre.units[name].auto_restarts >= 5 || pre.units[name].config.restart
            == RestartPolicy::No || (pre.units[name].config.restart == RestartPolicy::OnFailure
            && success),
        step(pre, exit_report(pid, status, success), out),
    ensures
        out.state.units.contains_key(name),
        ended(
            pre.units[name],
            out.state.units[name],
            status,
            if success && (pre.units[name].config.restart == RestartPolicy::No
                || pre.units[name].config.restart == RestartPolicy::OnFailure) {
                UnitState::Stopped
            } else {
                UnitState::Failed
            },
        ),
        counts(
            out.state.units[name],
            pre.units[name].restart_count as int,
            pre.units[name].auto_restarts as int,
        ),
        others_kept(pre.units, out.state.units, name),
        out.state.boot_order == pre.boot_order,
        out.state.task == TaskView::Waiting,
        out.effects.len() == 0,
{
    lemma_sole_exit(pre.units, name, pid);
}

/// A unit that was stopped on purpose is stopped when its process exits.
pub proof fn units_stopped_on_purpose_stay_down(
    pre: SupervisorView,
    name: Seq<char>,
    pid: u32,
    status: Seq<char>,
    success: bool,
    out: Outcome,
)
    requires
        pre.task == TaskView::Waiting,
        sole_process(pre.units, name, pid),
        pre.units[name].user_stopped,
        !pre.units[name].pending_restart,
        step(pre, exit_report(pid, status, success), out),
    ensures
        out.state.units.contains_key(name),
        ended(pre.units[name], out.state.units[name], status, UnitState::Stopped),
        counts(
            out.state.units[name],
            pre.units[name].restart_count as int,
            pre.units[name].auto_restarts as int,
        ),
        others_kept(pre.units, out.state.units, name),
        out.state.boot_order == pre.boot_order,
        out.state.task == TaskView::Waiting,
        out.effects.len() == 0,
{
    lemma_sole_exit(pre.units, name, pid);
}

/// A unit that a client wants restarted is started again as soon as its process
/// exits, whatever its policy and its counts say.
pub proof fn units_to_be_restarted_start_at_once(
    pre: SupervisorView,
    name: Seq<char>,
    pid: u32,
    status: Seq<char>,
    success: bool,
    out: Outcome,
)
    requires
        pre.task == TaskView::Waiting,
        sole_process(pre.units, name, pid),
        pre.units[name].pending_restart,
        pre.units[name].config.argv@.len() > 0,
        step(pre, exit_report(pid, status, success), out),
    ensures
        out.state.units.contains_key(name),
        ended(pre.units[name], out.state.units[name], status, UnitState::Stopped),
        counts(
            out.state.units[name],
            counted(pre.units[name].restart_count),
            pre.units[name].auto_restarts as int,
        ),
        others_kept(pre.units, out.state.units, name),
        out.state.boot_order == pre.boot_order,
        out.state.task == (TaskView::Starting { name, conn: None }),
        out.effects.len() == 0,
{
    lemma_sole_exit(pre.units, name, pid);
}

/// An exit that belongs to no unit changes nothing.
pub proof fn exits_of_strangers_are_ignored(
    pre: SupervisorView,
    pid: u32,
    status: Seq<char>,
    success: bool,
    out: Outcome,
)
    requires
        pre.task == TaskView::Waiting,
        forall|n: Seq<char>| #[trigger]
            pre.units.contains_key(n) ==> pre.units[n].pid != Some(pid),
        step(pre, exit_report(pid, status, success), out),
    ensures
        out.state == pre,
        out.effects.len() == 0,
{
    assert forall|n: Seq<char>| pid_of(pre.units, n) != Some(pid) by {
        if pre.units.contains_key(n) {
        }
    }
}

/// A unit that is down and has a command is started when its pause is over,
/// whichever way it went down.
pub proof fn due_restarts_start_units(pre: SupervisorView, name: Seq<char>, out: Outcome)
    requires
        pre.task == TaskView::Waiting,
        is_down(pre.units, name),
        pre.units[name].config.argv@.len() > 0,
        step(pre, ReportView::Event(EventView::RestartDue(name)), out),
    ensures
        out.state == (SupervisorView { task: TaskView::Starting { name, conn: None }, ..pre }),
        out.effects.len() == 0,
{
}

/// A unit that is down and has no command fails when its pause is over.
pub proof fn due_restarts_fail_without_a_command(
    pre: SupervisorView,
    name: Seq<char>,
    out: Outcome,
)
    requires
        pre.task == TaskView::Waiting,
        is_down(pre.units, name),
        pre.units[name].config.argv@.len() == 0,
        step(pre, ReportView::Event(EventView::RestartDue(name)), out),
    ensures
        out.state.units.contains_key(name),
        out.state.units[name] == without_a_command(pre.units[name]),
        others_kept(pre.units, out.state.units, name),
        out.state.boot_order == pre.boot_order,
        out.state.task == TaskView::Waiting,
        out.effects.len() == 0,
{
}

/// A pause that is over does nothing for a unit that is up again, or is gone.
pub proof fn due_restarts_spare_units_that_are_up(
    pre: SupervisorView,
    name: Seq<char>,
    out: Outcome,
)
    requires
        pre.task == TaskView::Waiting,
        pre.units.contains_key(name) ==> pre.units[name].state == UnitState::Running
            || pre.units[name].state == UnitState::Stopping,
        step(pre, ReportView::Event(EventView::RestartDue(name)), out),
    ensures
        out.state == pre,
        out.effects.len() == 0,
{
}

/// The units that a start has to spawn a process for are those that are down and
/// have a command, whichever way they went down.
pub proof fn units_that_are_down_need_a_process(units: Units, name: Seq<char>)
    ensures
        calls_for_spawn(units, name) <==> is_down(units, name)
            && units[name].config.argv@.len() > 0,
{
}

/// A unit that failed for want of a command. All else about it is kept.
pub open spec fn without_a_command(u: RuntimeView) -> RuntimeView {
    RuntimeView {
        state: UnitState::Failed,
        exit_status: Some("unit's `exec` list must not be empty"@),
        ..u
    }
}

/// Where in the order a boot stops: at the unit that it starts, or at the end.
pub open spec fn boot_reaches(order: Seq<Seq<char>>, task: TaskView) -> int {
    match task {
        TaskView::Booting { name, next } => next - 1,
        _ => order.len() as int,
    }
}

/// A boot starts the first unit of the order that is down and has a command.
/// Those before it that are down have none, and fail. Nothing else changes.
pub proof fn boots_start_the_first_unit_they_can(units: Units, order: Seq<Seq<char>>, k: int)
    requires
        0 <= k <= order.len(),
    ensures
        ({
            let (after, task) = boot_from(units, order, k);
            let p = boot_reaches(order, task);
            &&& k <= p <= order.len()
            &&& p < order.len() ==> task == (TaskView::Booting { name: order[p], next: p + 1 })
                && is_down(units, order[p]) && units[order[p]].config.argv@.len() > 0
            &&& p == order.len() ==> task == TaskView::Waiting
            &&& forall|j: int|
                k <= j < p && is_down(units, #[trigger] order[j])
                    ==> units[order[j]].config.argv@.len() == 0 && after[order[j]]
                    == without_a_command(units[order[j]])
            &&& forall|n: Seq<char>| #[trigger] after.contains_key(n) <==> units.contains_key(n)
            &&& forall|n: Seq<char>| #[trigger]
                units.contains_key(n) && (!is_down(units, n) || forall|j: int|
                    k <= j < p ==> #[trigger] order[j] != n) ==> after[n] == units[n]
        }),
    decreases order.len() - k,
{
    let (after, task) = boot_from(units, order, k);
    let p = boot_reaches(order, task);
    if k < order.len() && !calls_for_spawn(units, order[k]) {
        let tried = start_tried(units, order[k]);
        boots_start_the_first_unit_they_can(tried, order, k + 1);
        assert forall|n: Seq<char>| #[trigger] is_down(tried, n) <==> is_down(units, n) by {}
        assert forall|j: int|
            k <= j < p && is_down(units, #[trigger] order[j]) implies units[order[j]].config.argv@
            .len() == 0 && after[order[j]] == without_a_command(units[order[j]]) by {
            assert(is_down(tried, order[j]));
            if j == k {
                assert(tried[order[k]] == without_a_command(units[order[k]]));
                if exists|i: int| k + 1 <= i < p && order[i] == order[k] {
                    let i = choose|i: int| k + 1 <= i < p && order[i] == order[k];
                    assert(is_down(tried, order[i]));
                } else {
                    assert(tried.contains_key(order[k]));
                    assert(after[order[k]] == tried[order[k]]);
                }
            }
        }
        assert forall|n: Seq<char>| #[trigger]
            units.contains_key(n) && (!is_down(units, n) || forall|j: int|
                k <= j < p ==> #[trigger] order[j] != n) implies after[n] == units[n] by {
            assert(tried.contains_key(n));
            assert(is_down(tried, n) <==> is_down(units, n));
            if is_down(units, n) {
                assert(order[k] != n);
            }
            assert(tried[n] == units[n]);
        }
    }
}

/// What a boot does when the process of a unit was spawned, or could not be: the
/// unit runs or has failed, and no other unit changes but those that fail for
/// want of a command.
pub proof fn booted_units_run_or_fail(
    pre: SupervisorView,
    name: Seq<char>,
    next: int,
    report: ReportView,
    out: Outcome,
)
    requires
        valid(pre),
        pre.task == (TaskView::Booting { name, next }),
        report is Spawned || report is NotSpawned,
        step(pre, report, out),
    ensures
        out.effects.len() == 0,
        out.state.boot_order == pre.boot_order,
        out.state.units.contains_key(name),
        report matches ReportView::Spawned(pid) ==> out.state.units[name] == (RuntimeView {
            state: UnitState::Running,
            pid: Some(pid),
            user_stopped: false,
            ..pre.units[name]
        }),
        report is NotSpawned ==> out.state.units[name] == (RuntimeView {
            state: UnitState::Failed,
            exit_status: Some(
                "spawning unit '"@ + name + "' ("@ + pre.units[name].config.argv@[0]@ + ")"@,
            ),
            ..pre.units[name]
        }),
        forall|n: Seq<char>| #[trigger]
            pre.units.contains_key(n) && n != name ==> out.state.units.contains_key(n) && (
            out.state.units[n] == pre.units[n] || (pre.units[n].config.argv@.len() == 0
                && out.state.units[n] == (RuntimeView {
                state: UnitState::Failed,
                exit_status: Some("unit's `exec` list must not be empty"@),
                ..pre.units[n]
            }))),
{
    let spawned = match report {
        ReportView::Spawned(pid) => Some(pid),
        _ => None,
    };
    let done = spawn_done(pre.units, name, spawned);
    lemma_boot_changes(done, pre.boot_order, next);
    assert(done.contains_key(name));
    assert forall|n: Seq<char>| #[trigger]
        pre.units.contains_key(n) && n != name implies done.contains_key(n) && done[n]
        == pre.units[n] by {}
}

proof fn lemma_boot_changes(units: Units, order: Seq<Seq<char>>, k: int)
    ensures
        forall|n: Seq<char>| #[trigger]
            units.contains_key(n) ==> boot_from(units, order, k).0.contains_key(n) && (
            boot_from(units, order, k).0[n] == units[n] || (
            units[n].config.argv@.len() == 0 && boot_from(units, order, k).0[n] == (
            RuntimeView {
                state: UnitState::Failed,
                exit_status: Some("unit's `exec` list must not be empty"@),
                ..units[n]
            }))),
    decreases order.len() - k,
{
    if 0 <= k < order.len() && !calls_for_spawn(units, order[k]) {
        let tried = start_tried(units, order[k]);
        lemma_boot_changes(tried, order, k + 1);
        assert forall|n: Seq<char>| #[trigger] units.contains_key(n) implies tried.contains_key(n)
            by {}
    }
}

// Shutdowns.

/// A signal to the daemon begins a shutdown in the mode that it stands for, and
/// tells nobody.
pub proof fn signals_go_down_as_they_say(pre: SupervisorView, mode: ShutdownMode, out: Outcome)
    requires
        pre.task == TaskView::Waiting,
        step(pre, ReportView::Event(EventView::Shutdown(mode)), out),
    ensures
        out.state.task is Down,
        out.state.task->mode == mode,
        out.state.boot_order.len() == 0,
        out.effects.len() == 0,
        (out.state.units, out.state.task) == stop_next(pre.units, mode, pre.boot_order),
{
    lemma_down(pre.units, mode, pre.boot_order);
}

proof fn lemma_down(units: Units, mode: ShutdownMode, left: Seq<Seq<char>>)
    ensures
        stop_next(units, mode, left).1 is Down,
        stop_next(units, mode, left).1->mode == mode,
    decreases left.len(),
{
    if left.len() > 0 && pid_of(units, left.last()) is None {
        lemma_down(units, mode, left.drop_last());
    }
}

/// The unit that a shutdown stops next is the last of those left that has a
/// process. It is being stopped, on purpose and for good, and keeps all else.
/// No other unit changes. When none of them has a process, the shutdown is
/// finished.
pub proof fn the_last_running_unit_is_stopped_next(
    units: Units,
    mode: ShutdownMode,
    left: Seq<Seq<char>>,
)
    ensures
        ({
            let (u, t) = stop_next(units, mode, left);
            &&& t is Down
            &&& t->mode == mode
            &&& match t->stage {
                StageView::Terminating { name, pid } => {
                    let k = t->left.len() as int;
                    &&& k < left.len()
                    &&& t->left == left.take(k)
                    &&& left[k] == name
                    &&& units.contains_key(name)
                    &&& units[name].pid == Some(pid)
                    &&& u.contains_key(name)
                    &&& u[name] == (RuntimeView {
                        state: UnitState::Stopping,
                        user_stopped: true,
                        pending_restart: false,
                        ..units[name]
                    })
                    &&& others_kept(units, u, name)
                    &&& forall|i: int|
                        k < i < left.len() && units.contains_key(#[trigger] left[i])
                            ==> units[left[i]].pid is None
                },
                StageView::Watching { name, pid, escalated } => false,
                StageView::Finished => {
                    &&& t->left.len() == 0
                    &&& u == units
                    &&& forall|i: int|
                        0 <= i < left.len() && units.contains_key(#[trigger] left[i])
                            ==> units[left[i]].pid is None
                },
            }
        }),
{
    lemma_down(units, mode, left);
    units_stop_in_reverse_order(units, mode, left);
    let (u, t) = stop_next(units, mode, left);
    match t->stage {
        StageView::Terminating { name, pid } => {
            let k = t->left.len() as int;
            assert forall|i: int|
                k < i < left.len() && units.contains_key(
                    #[trigger] left[i],
                ) implies units[left[i]].pid is None by {
                assert(pid_of(units, left[i]) is None);
            }
        },
        _ => {
            assert forall|i: int|
                0 <= i < left.len() && units.contains_key(
                    #[trigger] left[i],
                ) implies units[left[i]].pid is None by {
                assert(pid_of(units, left[i]) is None);
            }
        },
    }
}

/// Once the signal is sent, a shutdown waits for the unit's process to exit, for
/// as long as a unit may take.
pub proof fn signalled_units_are_waited_for(
    pre: SupervisorView,
    mode: ShutdownMode,
    left: Seq<Seq<char>>,
    name: Seq<char>,
    pid: u32,
    out: Outcome,
)
    requires
        pre.task == (TaskView::Down { mode, left, stage: StageView::Terminating { name, pid } }),
        step(pre, ReportView::Signalled, out),
    ensures
        out.state == (SupervisorView {
            task: TaskView::Down {
                mode,
                left,
                stage: StageView::Watching { name, pid, escalated: false },
            },
            ..pre
        }),
        out.effects == seq![EffectView::SetDeadline { secs: 5 }],
{
}

/// A unit that cannot be signalled is given up, and the next one is stopped.
pub proof fn unsignalled_units_are_given_up(
    pre: SupervisorView,
    reason: Seq<char>,
    out: Outcome,
)
    requires
        pre.task is Down,
        pre.task->stage is Terminating,
        step(pre, ReportView::NotSignalled(reason), out),
    ensures
        out.effects.len() == 0,
        out.state.boot_order == pre.boot_order,
        (out.state.units, out.state.task) == stop_next(
            pre.units,
            pre.task->mode,
            pre.task->left,
        ),
{
}

/// A unit that does not exit in time is killed and waited for a little longer;
/// then it is given up.
pub proof fn stubborn_units_are_killed_then_given_up(
    pre: SupervisorView,
    mode: ShutdownMode,
    left: Seq<Seq<char>>,
    name: Seq<char>,
    pid: u32,
    escalated: bool,
    out: Outcome,
)
    requires
        pre.task == (TaskView::Down {
            mode,
            left,
            stage: StageView::Watching { name, pid, escalated },
        }),
        step(pre, ReportView::DeadlinePassed, out),
    ensures
        out.state.boot_order == pre.boot_order,
        !escalated ==> out.state == (SupervisorView {
            task: TaskView::Down {
                mode,
                left,
                stage: StageView::Watching { name, pid, escalated: true },
            },
            ..pre
        }) && out.effects == seq![
            EffectView::ForceKill { pid },
            EffectView::SetDeadline { secs: 2 },
        ],
        escalated ==> out.effects.len() == 0 && (out.state.units, out.state.task) == stop_next(
            pre.units,
            mode,
            left,
        ),
{
}

/// When no more events can come, a shutdown does not wait any longer.
pub proof fn the_end_of_events_ends_the_wait(pre: SupervisorView, out: Outcome)
    requires
        pre.task is Down,
        pre.task->stage is Watching,
        step(pre, ReportView::Closed, out),
    ensures
        out.effects.len() == 0,
        out.state.boot_order == pre.boot_order,
        (out.state.units, out.state.task) == stop_next(
            pre.units,
            pre.task->mode,
            pre.task->left,
        ),
{
}

/// When a unit exits on its own while a shutdown waits for another, that is
/// noted as at any other time; a restart by its policy is scheduled, though it
/// will fall due in vain. The shutdown waits on.
pub proof fn other_exits_during_a_shutdown_are_noted(
    pre: SupervisorView,
    name: Seq<char>,
    pid: u32,
    status: Seq<char>,
    success: bool,
    out: Outcome,
)
    requires
        pre.task is Down,
        pre.task->stage is Watching,
        pre.task->stage->Watching_pid != pid,
        sole_process(pre.units, name, pid),
        step(pre, exit_report(pid, status, success), out),
    ensures
        out.state.task == pre.task,
        out.state.boot_order == pre.boot_order,
        out.state.units.contains_key(name),
        others_kept(pre.units, out.state.units, name),
        ({
            let (u, v) = (pre.units[name], out.state.units[name]);
            let wanted = !u.user_stopped && (u.config.restart == RestartPolicy::Always
                || u.config.restart == RestartPolicy::OnFailure && !success);
            if wanted && u.auto_restarts < 5 {
                &&& ended(u, v, status, UnitState::Stopped)
                &&& counts(v, counted(u.restart_count), u.auto_restarts + 1)
                &&& out.effects == seq![
                    EffectView::ScheduleRestart { name, secs: 1 },
                ]
            } else {
                &&& ended(
                    u,
                    v,
                    status,
                    if !wanted && (u.user_stopped || success) {
                        UnitState::Stopped
                    } else {
                        UnitState::Failed
                    },
                )
                &&& counts(v, u.restart_count as int, u.auto_restarts as int)
                &&& out.effects.len() == 0
            }
        }),
{
    lemma_sole_exit(pre.units, name, pid);
}

/// When every unit is stopped, the init process syncs, unmounts and then takes
/// the machine down in the mode that was asked for, in one step; any other
/// process leaves the machine alone. Then it exits successfully.
pub proof fn machines_go_down_as_asked(mode: ShutdownMode)
    ensures
        ({
            let steps = final_steps(true, mode);
            &&& forall|i: int|
                0 <= i < steps.len() && #[trigger] steps[i] is Reboot ==> steps[i]
                    == FinalStep::Reboot(mode)
            &&& exists|i: int, j: int, k: int|
                0 <= i < j < k < steps.len() && #[trigger] steps[i] == FinalStep::Sync
                    && #[trigger] steps[j] == FinalStep::UnmountAll && #[trigger] steps[k]
                    == FinalStep::Reboot(mode) && forall|m: int|
                    0 <= m < steps.len() && #[trigger] steps[m] is Reboot ==> m == k
            &&& forall|i: int|
                0 <= i < steps.len() ==> (#[trigger] steps[i] is Exit <==> i == steps.len() - 1)
            &&& steps.last() == (FinalStep::Exit { code: 0 })
            &&& steps.len() == 4
        }),
        final_steps(false, mode) == seq![FinalStep::Exit { code: 0 }],
{
    let steps = final_steps(true, mode);
    assert(steps[0] == FinalStep::Sync);
    assert(steps[1] == FinalStep::UnmountAll);
    assert(steps[2] == FinalStep::Reboot(mode));
}

/// Different modes end differently, so that each is what was asked for.
pub proof fn modes_end_differently(a: ShutdownMode, b: ShutdownMode)
    requires
        final_steps(true, a) == final_steps(true, b),
    ensures
        a == b,
{
    assert(final_steps(true, a)[2] == final_steps(true, b)[2]);
}

} // verus!
