//! What clients can rely on: what each request does, and how it is answered.

use crate::model::{
    step, valid, EffectView, EventView, NextView, Outcome, ReportView, StageView, SupervisorView,
    TaskView, Units,
};
use crate::proto::{InfoView, RequestView, ResponseView, UnitState};
use crate::registry::RuntimeView;
use crate::supervisor::ShutdownMode;
use crate::text::{decimal, name_lt};
use vstd::prelude::*;
use vstd::string::*;

verus! {

/// All units but this one are as they were.
pub open spec fn others_kept(before: Units, after: Units, name: Seq<char>) -> bool {
    forall|n: Seq<char>| #![trigger after.contains_key(n)] #![trigger before.contains_key(n)]
        n != name ==> (after.contains_key(n) <==> before.contains_key(n)) && (before.contains_key(
            n,
        ) ==> after[n] == before[n])
}

/// The unit exists, and no process of it does.
pub open spec fn is_down(units: Units, name: Seq<char>) -> bool {
    &&& units.contains_key(name)
    &&& units[name].state == UnitState::Loaded || units[name].state == UnitState::Stopped
        || units[name].state == UnitState::Failed
}

/// A report that a client asks for something.
pub open spec fn asks_for(req: RequestView, conn: u64) -> ReportView {
    ReportView::Event(EventView::Command { req, conn })
}

/// The client on `conn` gets this answer, and nothing else is done.
pub open spec fn answers(out: Outcome, conn: u64, resp: ResponseView) -> bool {
    out.effects == seq![EffectView::Reply { conn, resp }]
}

/// What a client is told of a unit is what the supervisor holds.
pub open spec fn tells(info: InfoView, name: Seq<char>, u: RuntimeView) -> bool {
    &&& info.name == name
    &&& info.state == u.state
    &&& info.pid == u.pid
    &&& info.restart_count == u.restart_count
    &&& info.exit_status == u.exit_status
}

/// A task asks the program for what it waits for.
pub proof fn tasks_ask_for_what_they_wait_for(task: TaskView)
    ensures
        task.asks() == match task {
            TaskView::Waiting => NextView::Receive,
            TaskView::Booting { name, next } => NextView::Spawn { name },
            TaskView::Starting { name, conn } => NextView::Spawn { name },
            TaskView::Terminating { name, pid, conn } => NextView::Terminate { pid },
            TaskView::Down { mode, left, stage: StageView::Terminating { name, pid } } => {
                NextView::Terminate { pid }
            },
            TaskView::Down { mode, left, stage: StageView::Watching { name, pid, escalated } } => {
                NextView::ReceiveUntilDeadline
            },
            TaskView::Down { mode, left, stage: StageView::Finished } => NextView::GoDown { mode },
            TaskView::Closed => NextView::Exit,
        },
{
}

/// Who asks for the status of a unit is told what the supervisor holds of it,
/// field by field, and nothing changes.
pub proof fn status_tells_what_is_held(
    pre: SupervisorView,
    name: Seq<char>,
    conn: u64,
    out: Outcome,
)
    requires
        valid(pre),
        pre.task == TaskView::Waiting,
        pre.units.contains_key(name),
        step(pre, asks_for(RequestView::Status { name }, conn), out),
    ensures
        out.state == pre,
        exists|info: InfoView| #[trigger]
            tells(info, name, pre.units[name]) && answers(out, conn, ResponseView::Unit(info)),
{
    let info = InfoView {
        name,
        state: pre.units[name].state,
        pid: pre.units[name].pid,
        restart_count: pre.units[name].restart_count,
        exit_status: pre.units[name].exit_status,
    };
    assert(tells(info, name, pre.units[name]));
}

/// Who asks for a list is told, in the order of the names, what the supervisor
/// holds of every unit, and of each once. Nothing changes.
pub proof fn lists_tell_what_is_held(pre: SupervisorView, conn: u64, out: Outcome)
    requires
        valid(pre),
        pre.task == TaskView::Waiting,
        step(pre, asks_for(RequestView::ListUnits, conn), out),
    ensures
        out.state == pre,
        out.effects.len() == 1,
        out.effects[0] matches EffectView::Reply { conn: c, resp: ResponseView::Units(list) } && c
            == conn && (forall|i: int|
            0 <= i < list.len() ==> pre.units.contains_key((#[trigger] list[i]).name) && tells(
                list[i],
                list[i].name,
                pre.units[list[i].name],
            )) && (forall|i: int, j: int|
            0 <= i < j < list.len() ==> name_lt(
                (#[trigger] list[i]).name,
                (#[trigger] list[j]).name,
            )) && (forall|n: Seq<char>| #[trigger]
            pre.units.contains_key(n) ==> exists|i: int|
                0 <= i < list.len() && (#[trigger] list[i]).name == n),
{
}

/// A request about a unit that does not exist is refused, and changes nothing.
pub proof fn unknown_units_are_refused(
    pre: SupervisorView,
    req: RequestView,
    name: Seq<char>,
    conn: u64,
    out: Outcome,
)
    requires
        pre.task == TaskView::Waiting,
        !pre.units.contains_key(name),
        req == (RequestView::Status { name }) || req == (RequestView::Start { name }) || req == (
        RequestView::Stop { name }) || req == (RequestView::Restart { name }),
        step(pre, asks_for(req, conn), out),
    ensures
        out.state == pre,
        answers(out, conn, ResponseView::Error("no such unit: "@ + name)),
{
}

/// Starting a unit that is up already changes nothing, and is accepted.
pub proof fn running_units_are_not_started(
    pre: SupervisorView,
    name: Seq<char>,
    conn: u64,
    out: Outcome,
)
    requires
        pre.task == TaskView::Waiting,
        pre.units.contains_key(name),
        pre.units[name].state == UnitState::Running || pre.units[name].state
            == UnitState::Stopping,
        step(pre, asks_for(RequestView::Start { name }, conn), out),
    ensures
        out.state == pre,
        answers(out, conn, ResponseView::Accepted),
{
}

/// A unit that is down and has a command is started when a client asks for that,
/// or for a restart, whether it was never started, was stopped, ended or failed.
pub proof fn units_that_are_down_are_started(
    pre: SupervisorView,
    req: RequestView,
    name: Seq<char>,
    conn: u64,
    out: Outcome,
)
    requires
        valid(pre),
        pre.task == TaskView::Waiting,
        is_down(pre.units, name),
        pre.units[name].config.argv@.len() > 0,
        req == (RequestView::Start { name }) || req == (RequestView::Restart { name }),
        step(pre, asks_for(req, conn), out),
    ensures
        out.state.units == pre.units,
        out.state.boot_order == pre.boot_order,
        out.state.task == (TaskView::Starting { name, conn: Some(conn) }),
        out.effects.len() == 0,
{
    assert(pre.units[name].pid is None);
}

/// A unit that is down and has no command fails at once when a client asks for a
/// start or a restart, which is accepted all the same.
pub proof fn units_without_a_command_fail(
    pre: SupervisorView,
    req: RequestView,
    name: Seq<char>,
    conn: u64,
    out: Outcome,
)
    requires
        valid(pre),
        pre.task == TaskView::Waiting,
        is_down(pre.units, name),
        pre.units[name].config.argv@.len() == 0,
        req == (RequestView::Start { name }) || req == (RequestView::Restart { name }),
        step(pre, asks_for(req, conn), out),
    ensures
        out.state.units.contains_key(name),
        out.state.units[name] == (RuntimeView {
            state: UnitState::Failed,
            exit_status: Some("unit's `exec` list must not be empty"@),
            ..pre.units[name]
        }),
        others_kept(pre.units, out.state.units, name),
        out.state.boot_order == pre.boot_order,
        out.state.task == TaskView::Waiting,
        answers(out, conn, ResponseView::Accepted),
{
    assert(pre.units[name].pid is None);
}

/// When the process of a unit that is being started was spawned, the unit runs
/// with it, and the client that wanted it is told so.
pub proof fn started_units_run(
    pre: SupervisorView,
    name: Seq<char>,
    conn: Option<u64>,
    pid: u32,
    out: Outcome,
)
    requires
        valid(pre),
        pre.task == (TaskView::Starting { name, conn }),
        step(pre, ReportView::Spawned(pid), out),
    ensures
        out.state.units.contains_key(name),
        out.state.units[name] == (RuntimeView {
            state: UnitState::Running,
            pid: Some(pid),
            user_stopped: false,
            ..pre.units[name]
        }),
        others_kept(pre.units, out.state.units, name),
        out.state.boot_order == pre.boot_order,
        out.state.task == TaskView::Waiting,
        match conn {
            Some(c) => answers(out, c, ResponseView::Accepted),
            None => out.effects.len() == 0,
        },
{
}

/// When the process of a unit that is being started could not be spawned, the
/// unit has failed, and says which program it was. The client that wanted it is
/// answered all the same.
pub proof fn units_that_do_not_start_fail(
    pre: SupervisorView,
    name: Seq<char>,
    conn: Option<u64>,
    out: Outcome,
)
    requires
        valid(pre),
        pre.task == (TaskView::Starting { name, conn }),
        step(pre, ReportView::NotSpawned, out),
    ensures
        out.state.units.contains_key(name),
        out.state.units[name] == (RuntimeView {
            state: UnitState::Failed,
            exit_status: Some(
                "spawning unit '"@ + name + "' ("@ + pre.units[name].config.argv@[0]@ + ")"@,
            ),
            ..pre.units[name]
        }),
        others_kept(pre.units, out.state.units, name),
        out.state.boot_order == pre.boot_order,
        out.state.task == TaskView::Waiting,
        match conn {
            Some(c) => answers(out, c, ResponseView::Accepted),
            None => out.effects.len() == 0,
        },
{
}

/// A client that starts a unit that is down sees it run with the new process.
pub proof fn start_requests_bring_units_up(
    pre: SupervisorView,
    req: RequestView,
    name: Seq<char>,
    conn: u64,
    pid: u32,
    begun: Outcome,
    out: Outcome,
)
    requires
        valid(pre),
        pre.task == TaskView::Waiting,
        is_down(pre.units, name),
        pre.units[name].config.argv@.len() > 0,
        req == (RequestView::Start { name }) || req == (RequestView::Restart { name }),
        step(pre, asks_for(req, conn), begun),
        step(begun.state, ReportView::Spawned(pid), out),
    ensures
        begun.state.task.asks() == (NextView::Spawn { name }),
        out.state.units.contains_key(name),
        out.state.units[name].state == UnitState::Running,
        out.state.units[name].pid == Some(pid),
        others_kept(pre.units, out.state.units, name),
        out.state.task == TaskView::Waiting,
        answers(out, conn, ResponseView::Accepted),
{
    units_that_are_down_are_started(pre, req, name, conn, begun);
}

/// A unit with a process is stopped by asking that process to terminate. Until
/// it exits the unit is being stopped, on purpose, and keeps all else.
pub proof fn running_units_are_stopped(
    pre: SupervisorView,
    name: Seq<char>,
    pid: u32,
    conn: u64,
    out: Outcome,
)
    requires
        pre.task == TaskView::Waiting,
        pre.units.contains_key(name),
        pre.units[name].pid == Some(pid),
        step(pre, asks_for(RequestView::Stop { name }, conn), out),
    ensures
        out.state.units.contains_key(name),
        out.state.units[name] == (RuntimeView {
            state: UnitState::Stopping,
            user_stopped: true,
            ..pre.units[name]
        }),
        others_kept(pre.units, out.state.units, name),
        out.state.boot_order == pre.boot_order,
        out.state.task == (TaskView::Terminating { name, pid, conn }),
        out.effects.len() == 0,
{
}

/// A unit with a process is restarted by stopping it, with a note that it is to
/// come back.
pub proof fn running_units_are_restarted_by_stopping_them(
    pre: SupervisorView,
    name: Seq<char>,
    pid: u32,
    conn: u64,
    out: Outcome,
)
    requires
        pre.task == TaskView::Waiting,
        pre.units.contains_key(name),
        pre.units[name].pid == Some(pid),
        step(pre, asks_for(RequestView::Restart { name }, conn), out),
    ensures
        out.state.units.contains_key(name),
        out.state.units[name] == (RuntimeView {
            state: UnitState::Stopping,
            user_stopped: true,
            pending_restart: true,
            ..pre.units[name]
        }),
        others_kept(pre.units, out.state.units, name),
        out.state.boot_order == pre.boot_order,
        out.state.task == (TaskView::Terminating { name, pid, conn }),
        out.effects.len() == 0,
{
}

/// A unit without a process cannot be stopped. Nothing changes.
pub proof fn units_that_are_down_are_not_stopped(
    pre: SupervisorView,
    name: Seq<char>,
    conn: u64,
    out: Outcome,
)
    requires
        pre.task == TaskView::Waiting,
        pre.units.contains_key(name),
        pre.units[name].pid is None,
        step(pre, asks_for(RequestView::Stop { name }, conn), out),
    ensures
        out.state == pre,
        answers(out, conn, ResponseView::Error(name + " is not running"@)),
{
}

/// Once the signal is sent, the client is told that its request was accepted.
/// The unit is stopped when its process exits.
pub proof fn sent_signals_are_accepted(
    pre: SupervisorView,
    name: Seq<char>,
    pid: u32,
    conn: u64,
    out: Outcome,
)
    requires
        pre.task == (TaskView::Terminating { name, pid, conn }),
        step(pre, ReportView::Signalled, out),
    ensures
        out.state == (SupervisorView { task: TaskView::Waiting, ..pre }),
        answers(out, conn, ResponseView::Accepted),
{
}

/// If the signal cannot be sent, the client is told to which unit and process,
/// and why.
pub proof fn unsent_signals_are_errors(
    pre: SupervisorView,
    name: Seq<char>,
    pid: u32,
    conn: u64,
    reason: Seq<char>,
    out: Outcome,
)
    requires
        pre.task == (TaskView::Terminating { name, pid, conn }),
        step(pre, ReportView::NotSignalled(reason), out),
    ensures
        out.state == (SupervisorView { task: TaskView::Waiting, ..pre }),
        answers(
            out,
            conn,
            ResponseView::Error(
                "sending SIGTERM to "@ + name + " (pid "@ + decimal(pid as nat) + "): "@ + reason,
            ),
        ),
{
}

/// The machine goes down in the way that the client asked for.
pub proof fn requests_go_down_as_asked(
    pre: SupervisorView,
    req: RequestView,
    conn: u64,
    out: Outcome,
)
    requires
        pre.task == TaskView::Waiting,
        req is Reboot || req is Poweroff || req is Halt,
        step(pre, asks_for(req, conn), out),
    ensures
        answers(out, conn, ResponseView::Accepted),
        out.state.task is Down,
        req is Reboot ==> out.state.task->mode == ShutdownMode::Reboot,
        req is Poweroff ==> out.state.task->mode == ShutdownMode::Poweroff,
        req is Halt ==> out.state.task->mode == ShutdownMode::Halt,
        out.state.boot_order.len() == 0,
{
    crate::supervisor_laws::shutdowns_are_accepted_at_once(pre, req, conn, out);
}

/// No other request brings the machine down.
pub proof fn other_requests_do_not_go_down(
    pre: SupervisorView,
    req: RequestView,
    conn: u64,
    out: Outcome,
)
    requires
        pre.task == TaskView::Waiting,
        !(req is Reboot || req is Poweroff || req is Halt),
        step(pre, asks_for(req, conn), out),
    ensures
        !(out.state.task is Down),
        !(out.state.task is Closed),
        out.state.boot_order == pre.boot_order,
{
}

/// A report that is no answer to what the task waits for changes nothing.
pub proof fn unasked_reports_change_nothing(
    pre: SupervisorView,
    report: ReportView,
    out: Outcome,
)
    requires
        step(pre, report, out),
        match pre.task {
            TaskView::Waiting => !(report is Event || report is Closed),
            TaskView::Booting { name, next } => !(report is Spawned || report is NotSpawned),
            TaskView::Starting { name, conn } => !(report is Spawned || report is NotSpawned),
            TaskView::Terminating { name, pid, conn } => !(report is Signalled
                || report is NotSignalled),
            TaskView::Down { mode, left, stage: StageView::Terminating { name, pid } } => !(
            report is Signalled || report is NotSignalled),
            TaskView::Down { mode, left, stage: StageView::Watching { name, pid, escalated } } => !(
            report is Event || report is Closed || report is DeadlinePassed),
            TaskView::Down { mode, left, stage: StageView::Finished } => true,
            TaskView::Closed => true,
        },
    ensures
        out.state == pre,
        out.effects.len() == 0,
{
}

/// When no more events can come, the supervisor is done.
pub proof fn the_end_of_events_is_the_end(pre: SupervisorView, out: Outcome)
    requires
        pre.task == TaskView::Waiting,
        step(pre, ReportView::Closed, out),
    ensures
        out.state == (SupervisorView { task: TaskView::Closed, ..pre }),
        out.effects.len() == 0,
{
}

} // verus!
