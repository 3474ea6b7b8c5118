//! The supervisor as a state machine over plain mathematical values.
//!
//! The supervisor is always busy with one [`TaskView`], and each task asks the
//! program around it for one thing: the next event, a process to be spawned, a
//! signal to be sent. The program's answer is a report, and a report takes the
//! supervisor to its next task.

use crate::proto::{InfoView, RequestView, ResponseView, UnitState};
use crate::registry::{AfterExit, RuntimeView};
use crate::supervisor::{ShutdownMode, KILL_GRACE_SECS, RESTART_BACKOFF_SECS, STOP_TIMEOUT_SECS};
use crate::text::{decimal, name_lt};
use vstd::prelude::*;
use vstd::string::*;

verus! {

/// The units by their names.
pub type Units = Map<Seq<char>, RuntimeView>;

/// Something that happened.
pub enum EventView {
    Command { req: RequestView, conn: u64 },
    ProcessExited { pid: u32, status: Seq<char>, success: bool },
    Shutdown(ShutdownMode),
    RestartDue(Seq<char>),
}

/// An answer to what a task asked for.
pub enum ReportView {
    Event(EventView),
    Closed,
    DeadlinePassed,
    Spawned(u32),
    NotSpawned,
    Signalled,
    NotSignalled(Seq<char>),
}

/// How far the stopping of one unit during a shutdown has come.
pub enum StageView {
    /// The process of the unit is being asked to terminate.
    Terminating { name: Seq<char>, pid: u32 },
    /// The process was asked to terminate, or was killed.
    Watching { name: Seq<char>, pid: u32, escalated: bool },
    /// Every unit was dealt with.
    Finished,
}

/// What the supervisor is busy with.
pub enum TaskView {
    /// Waiting for an event.
    Waiting,
    /// Starting the boot order: `name` is being spawned, the units from `next`
    /// on follow.
    Booting { name: Seq<char>, next: int },
    /// Starting a unit, and answering `conn` when that is done.
    Starting { name: Seq<char>, conn: Option<u64> },
    /// Stopping a unit for a client.
    Terminating { name: Seq<char>, pid: u32, conn: u64 },
    /// Shutting down. The units in `left` are still to be stopped, the last
    /// one first.
    Down { mode: ShutdownMode, left: Seq<Seq<char>>, stage: StageView },
    /// No more events will come.
    Closed,
}

/// Something for the program to do without answering.
pub enum EffectView {
    Reply { conn: u64, resp: ResponseView },
    ScheduleRestart { name: Seq<char>, secs: u64 },
    ForceKill { pid: u32 },
    SetDeadline { secs: u64 },
}

/// What the program is asked for.
pub enum NextView {
    Receive,
    ReceiveUntilDeadline,
    Spawn { name: Seq<char> },
    Terminate { pid: u32 },
    GoDown { mode: ShutdownMode },
    Exit,
}

/// What a request needs before it can be answered.
pub enum ReactionView {
    /// Nothing: this is the answer.
    Answer(ResponseView),
    /// The unit's process is to be spawned.
    Start { name: Seq<char> },
    /// The process is to be asked to terminate.
    Stop { name: Seq<char>, pid: u32 },
}

/// The whole state of a supervisor.
pub struct SupervisorView {
    pub units: Units,
    /// The order in which units were started at boot.
    pub boot_order: Seq<Seq<char>>,
    pub task: TaskView,
}

impl TaskView {
    /// What the task asks the program for.
    pub open spec fn asks(self) -> NextView {
        match self {
            TaskView::Waiting => NextView::Receive,
            TaskView::Booting { name, next } => NextView::Spawn { name },
            TaskView::Starting { name, conn } => NextView::Spawn { name },
            TaskView::Terminating { name, pid, conn } => NextView::Terminate { pid },
            TaskView::Down { mode, left, stage } => match stage {
                StageView::Terminating { name, pid } => NextView::Terminate { pid },
                StageView::Watching { name, pid, escalated } => NextView::ReceiveUntilDeadline,
                StageView::Finished => NextView::GoDown { mode },
            },
            TaskView::Closed => NextView::Exit,
        }
    }

    /// The unit that the task is waiting to see spawned.
    pub open spec fn spawning(self) -> Option<Seq<char>> {
        match self.asks() {
            NextView::Spawn { name } => Some(name),
            _ => None,
        }
    }
}

// What is said.

pub open spec fn no_such_unit(name: Seq<char>) -> Seq<char> {
    "no such unit: "@ + name
}

pub open spec fn not_running(name: Seq<char>) -> Seq<char> {
    name + " is not running"@
}

pub open spec fn signal_failed(name: Seq<char>, pid: u32, reason: Seq<char>) -> Seq<char> {
    "sending SIGTERM to "@ + name + " (pid "@ + decimal(pid as nat) + "): "@ + reason
}

pub open spec fn empty_exec() -> Seq<char> {
    "unit's `exec` list must not be empty"@
}

pub open spec fn spawn_failed(name: Seq<char>, program: Seq<char>) -> Seq<char> {
    "spawning unit '"@ + name + "' ("@ + program + ")"@
}

// Starting.

/// The unit exists and is down, so that starting it does something.
pub open spec fn may_start(units: Units, name: Seq<char>) -> bool {
    units.contains_key(name) && !units[name].is_up()
}

/// Starting the unit calls for a process to be spawned.
pub open spec fn calls_for_spawn(units: Units, name: Seq<char>) -> bool {
    may_start(units, name) && units[name].config.argv@.len() > 0
}

/// The units when a start has been tried, short of spawning the process: a
/// unit without a command fails at once.
pub open spec fn start_tried(units: Units, name: Seq<char>) -> Units {
    if may_start(units, name) && units[name].config.argv@.len() == 0 {
        units.insert(name, units[name].after_failed_spawn(empty_exec()))
    } else {
        units
    }
}

/// The units when the process of `name` was spawned, or could not be.
pub open spec fn spawn_done(units: Units, name: Seq<char>, pid: Option<u32>) -> Units {
    match pid {
        Some(p) => units.insert(name, units[name].after_spawn(p)),
        None => units.insert(
            name,
            units[name].after_failed_spawn(spawn_failed(name, units[name].config.argv@[0]@)),
        ),
    }
}

/// Goes through the boot order from position `k` to the first unit that calls
/// for a spawn.
pub open spec fn boot_from(units: Units, order: Seq<Seq<char>>, k: int) -> (Units, TaskView)
    decreases order.len() - k,
{
    if k < 0 || k >= order.len() {
        (units, TaskView::Waiting)
    } else if calls_for_spawn(units, order[k]) {
        (units, TaskView::Booting { name: order[k], next: k + 1 })
    } else {
        boot_from(start_tried(units, order[k]), order, k + 1)
    }
}

/// Starts a unit outside of boot, to answer `conn` when that is done.
pub open spec fn start_task(units: Units, name: Seq<char>, conn: Option<u64>) -> TaskView {
    if calls_for_spawn(units, name) {
        TaskView::Starting { name, conn }
    } else {
        TaskView::Waiting
    }
}

// Stopping.

/// The process of a unit, if it has one.
pub open spec fn pid_of(units: Units, name: Seq<char>) -> Option<u32> {
    if units.contains_key(name) {
        units[name].pid
    } else {
        None
    }
}

/// The units while `name` is being stopped.
pub open spec fn stop_begun(units: Units, name: Seq<char>) -> Units {
    units.insert(name, units[name].after_stop())
}

/// The units while `name` is being stopped for good: a restart that was awaited
/// from it is dropped.
pub open spec fn stop_for_good(units: Units, name: Seq<char>) -> Units {
    units.insert(name, RuntimeView { pending_restart: false, ..units[name].after_stop() })
}

/// Goes back through the units in `left` to the last one that has a process,
/// and begins to stop it for good.
pub open spec fn stop_next(units: Units, mode: ShutdownMode, left: Seq<Seq<char>>) -> (
    Units,
    TaskView,
)
    decreases left.len(),
{
    if left.len() == 0 {
        (units, TaskView::Down { mode, left, stage: StageView::Finished })
    } else {
        match pid_of(units, left.last()) {
            Some(pid) => (
                stop_for_good(units, left.last()),
                TaskView::Down {
                    mode,
                    left: left.drop_last(),
                    stage: StageView::Terminating { name: left.last(), pid },
                },
            ),
            None => stop_next(units, mode, left.drop_last()),
        }
    }
}

// Requests.

/// The shutdown that a request asks for.
pub open spec fn requested_shutdown(req: RequestView) -> Option<ShutdownMode> {
    match req {
        RequestView::Reboot => Some(ShutdownMode::Reboot),
        RequestView::Poweroff => Some(ShutdownMode::Poweroff),
        RequestView::Halt => Some(ShutdownMode::Halt),
        _ => None,
    }
}

/// `list` tells about every unit once, in the order of their names.
pub open spec fn is_listing(units: Units, list: Seq<InfoView>) -> bool {
    &&& forall|i: int, j: int|
        0 <= i < j < list.len() ==> name_lt((#[trigger] list[i]).name, (#[trigger] list[j]).name)
    &&& forall|i: int|
        0 <= i < list.len() ==> units.contains_key((#[trigger] list[i]).name) && list[i]
            == units[list[i].name].info()
    &&& forall|n: Seq<char>| #[trigger]
        units.contains_key(n) ==> exists|i: int| 0 <= i < list.len() && (#[trigger] list[i]).name == n
}

/// Answers that no unit has this name.
pub open spec fn unknown_unit(name: Seq<char>) -> ReactionView {
    ReactionView::Answer(ResponseView::Error(no_such_unit(name)))
}

/// A request takes the units from `pre` to `post`, with this reaction.
pub open spec fn request_handled(
    pre: Units,
    req: RequestView,
    post: Units,
    reaction: ReactionView,
) -> bool {
    match req {
        RequestView::ListUnits => {
            &&& post == pre
            &&& reaction matches ReactionView::Answer(ResponseView::Units(list)) && is_listing(
                pre,
                list,
            )
        },
        RequestView::Status { name } => {
            &&& post == pre
            &&& reaction == if pre.contains_key(name) {
                ReactionView::Answer(ResponseView::Unit(pre[name].info()))
            } else {
                unknown_unit(name)
            }
        },
        RequestView::Start { name } => start_handled(pre, name, post, reaction),
        RequestView::Stop { name } => match pid_of(pre, name) {
            Some(pid) => {
                &&& post == stop_begun(pre, name)
                &&& reaction == ReactionView::Stop { name, pid }
            },
            None => {
                &&& post == pre
                &&& reaction == if pre.contains_key(name) {
                    ReactionView::Answer(ResponseView::Error(not_running(name)))
                } else {
                    unknown_unit(name)
                }
            },
        },
        RequestView::Restart { name } => match pid_of(pre, name) {
            Some(pid) => {
                &&& post == pre.insert(
                    name,
                    RuntimeView { pending_restart: true, ..pre[name].after_stop() },
                )
                &&& reaction == ReactionView::Stop { name, pid }
            },
            None => start_handled(pre, name, post, reaction),
        },
        RequestView::Reboot | RequestView::Poweroff | RequestView::Halt => {
            &&& post == pre
            &&& reaction == ReactionView::Answer(
                ResponseView::Error("internal error: shutdown request reached handle_request"@),
            )
        },
    }
}

/// A client asks for a unit to be started.
pub open spec fn start_handled(
    pre: Units,
    name: Seq<char>,
    post: Units,
    reaction: ReactionView,
) -> bool {
    &&& post == start_tried(pre, name)
    &&& reaction == if !pre.contains_key(name) {
        unknown_unit(name)
    } else if calls_for_spawn(pre, name) {
        ReactionView::Start { name }
    } else {
        ReactionView::Answer(ResponseView::Accepted)
    }
}

// Exits.

/// A process exited that belongs to this unit, if to any.
pub open spec fn is_exit_of(units: Units, pid: u32, unit: Option<Seq<char>>) -> bool {
    match unit {
        Some(name) => pid_of(units, name) == Some(pid),
        None => forall|n: Seq<char>| pid_of(units, n) != Some(pid),
    }
}

/// The units when the process of `unit` has exited.
pub open spec fn exit_recorded(
    units: Units,
    unit: Option<Seq<char>>,
    status: Seq<char>,
    success: bool,
) -> Units {
    match unit {
        Some(name) => units.insert(name, units[name].after_exit(status, success)),
        None => units,
    }
}

/// What becomes of the unit.
pub open spec fn exit_fate(units: Units, unit: Option<Seq<char>>, success: bool) -> AfterExit {
    match unit {
        Some(name) => units[name].fate(success),
        None => AfterExit::StayDown,
    }
}

/// The unit that is to be started at once because of an exit.
pub open spec fn to_respawn(units: Units, unit: Option<Seq<char>>, success: bool) -> Option<
    Seq<char>,
> {
    if exit_fate(units, unit, success) == AfterExit::RestartNow {
        unit
    } else {
        None
    }
}

/// The units when an exit is dealt with, short of spawning a process.
pub open spec fn exit_handled(
    units: Units,
    unit: Option<Seq<char>>,
    status: Seq<char>,
    success: bool,
) -> Units {
    let after = exit_recorded(units, unit, status, success);
    match to_respawn(units, unit, success) {
        Some(name) => start_tried(after, name),
        None => after,
    }
}

/// What an exit makes the program do: a restart by policy comes after a pause.
pub open spec fn exit_effects(units: Units, unit: Option<Seq<char>>, success: bool) -> Seq<
    EffectView,
> {
    if exit_fate(units, unit, success) == AfterExit::RestartLater {
        seq![EffectView::ScheduleRestart { name: unit->0, secs: RESTART_BACKOFF_SECS }]
    } else {
        seq![]
    }
}

/// The unit whose process has to be spawned because of an exit.
pub open spec fn exit_spawns(
    units: Units,
    unit: Option<Seq<char>>,
    status: Seq<char>,
    success: bool,
) -> Option<Seq<char>> {
    match to_respawn(units, unit, success) {
        Some(name) => if calls_for_spawn(exit_recorded(units, unit, status, success), name) {
            Some(name)
        } else {
            None
        },
        None => None,
    }
}

/// The units when no restart is awaited from `unit` any more.
pub open spec fn restart_dropped(units: Units, unit: Option<Seq<char>>) -> Units {
    match unit {
        Some(name) => units.insert(name, units[name].without_restart()),
        None => units,
    }
}

/// The units when a process exits during a shutdown: nothing is started again.
pub open spec fn exit_in_shutdown(
    units: Units,
    unit: Option<Seq<char>>,
    status: Seq<char>,
    success: bool,
) -> Units {
    exit_recorded(restart_dropped(units, unit), unit, status, success)
}

/// What an exit during a shutdown makes the program do. A restart by policy
/// falls due in vain.
pub open spec fn effects_in_shutdown(
    units: Units,
    unit: Option<Seq<char>>,
    success: bool,
) -> Seq<EffectView> {
    exit_effects(restart_dropped(units, unit), unit, success)
}

// Steps.

/// What a step comes to: the units, the boot order, the task and the effects.
pub struct Outcome {
    pub state: SupervisorView,
    pub effects: Seq<EffectView>,
}

pub open spec fn outcome(
    units: Units,
    boot_order: Seq<Seq<char>>,
    task: TaskView,
    effects: Seq<EffectView>,
) -> Outcome {
    Outcome { state: SupervisorView { units, boot_order, task }, effects }
}

/// Nothing changes: the report was no answer to what was asked for, or calls
/// for nothing.
pub open spec fn unchanged(pre: SupervisorView) -> Outcome {
    Outcome { state: pre, effects: seq![] }
}

/// A process exited while the supervisor waited for an event.
pub open spec fn exited_step(
    pre: SupervisorView,
    pid: u32,
    status: Seq<char>,
    success: bool,
    out: Outcome,
) -> bool {
    exists|unit: Option<Seq<char>>| #[trigger]
        is_exit_of(pre.units, pid, unit) && ({
            let after = exit_handled(pre.units, unit, status, success);
            let effects = exit_effects(pre.units, unit, success);
            match exit_spawns(pre.units, unit, status, success) {
                Some(name) => out == outcome(
                    after,
                    pre.boot_order,
                    TaskView::Starting { name, conn: None },
                    effects,
                ),
                None => out == outcome(after, pre.boot_order, TaskView::Waiting, effects),
            }
        })
}

/// The step from [`TaskView::Waiting`].
pub open spec fn waiting_step(pre: SupervisorView, report: ReportView, out: Outcome) -> bool {
    let (units, order) = (pre.units, pre.boot_order);
    match report {
        ReportView::Event(EventView::Command { req, conn }) => match requested_shutdown(req) {
            Some(mode) => {
                let (u, t) = stop_next(units, mode, order);
                out == outcome(
                    u,
                    seq![],
                    t,
                    seq![EffectView::Reply { conn, resp: ResponseView::Accepted }],
                )
            },
            None => exists|u: Units, reaction: ReactionView| #[trigger]
                request_handled(units, req, u, reaction) && out == match reaction {
                    ReactionView::Answer(resp) => outcome(
                        u,
                        order,
                        TaskView::Waiting,
                        seq![EffectView::Reply { conn, resp }],
                    ),
                    ReactionView::Start { name } => outcome(
                        u,
                        order,
                        TaskView::Starting { name, conn: Some(conn) },
                        seq![],
                    ),
                    ReactionView::Stop { name, pid } => outcome(
                        u,
                        order,
                        TaskView::Terminating { name, pid, conn },
                        seq![],
                    ),
                },
        },
        ReportView::Event(EventView::ProcessExited { pid, status, success }) => exited_step(
            pre,
            pid,
            status,
            success,
            out,
        ),
        ReportView::Event(EventView::Shutdown(mode)) => {
            let (u, t) = stop_next(units, mode, order);
            out == outcome(u, seq![], t, seq![])
        },
        ReportView::Event(EventView::RestartDue(name)) => out == outcome(
            start_tried(units, name),
            order,
            start_task(units, name, None),
            seq![],
        ),
        ReportView::Closed => out == outcome(units, order, TaskView::Closed, seq![]),
        _ => out == unchanged(pre),
    }
}

/// The process that a report says was spawned, if it is about a spawn.
pub open spec fn spawn_result(report: ReportView) -> Option<Option<u32>> {
    match report {
        ReportView::Spawned(pid) => Some(Some(pid)),
        ReportView::NotSpawned => Some(None),
        _ => None,
    }
}

/// A process exited while a shutdown watched one. `over` if it was that one.
pub open spec fn watched_exit(
    pre: SupervisorView,
    mode: ShutdownMode,
    left: Seq<Seq<char>>,
    over: bool,
    exited: u32,
    status: Seq<char>,
    success: bool,
    out: Outcome,
) -> bool {
    exists|unit: Option<Seq<char>>| #[trigger]
        is_exit_of(pre.units, exited, unit) && ({
            let after = exit_in_shutdown(pre.units, unit, status, success);
            let effects = effects_in_shutdown(pre.units, unit, success);
            if over {
                let (u, t) = stop_next(after, mode, left);
                out == outcome(u, pre.boot_order, t, effects)
            } else {
                out == outcome(after, pre.boot_order, pre.task, effects)
            }
        })
}

/// The step from [`TaskView::Down`] while the process of a unit is watched.
pub open spec fn watching_step(
    pre: SupervisorView,
    mode: ShutdownMode,
    left: Seq<Seq<char>>,
    name: Seq<char>,
    pid: u32,
    escalated: bool,
    report: ReportView,
    out: Outcome,
) -> bool {
    let (units, order) = (pre.units, pre.boot_order);
    match report {
        ReportView::Event(
            EventView::ProcessExited { pid: exited, status, success },
        ) => watched_exit(pre, mode, left, exited == pid, exited, status, success, out),
        ReportView::Event(EventView::Command { req, conn }) => out == outcome(
            units,
            order,
            pre.task,
            seq![
                EffectView::Reply {
                    conn,
                    resp: ResponseView::Error("apollod is shutting down"@),
                },
            ],
        ),
        ReportView::Closed => {
            let (u, t) = stop_next(units, mode, left);
            out == outcome(u, order, t, seq![])
        },
        ReportView::DeadlinePassed => if escalated {
            let (u, t) = stop_next(units, mode, left);
            out == outcome(u, order, t, seq![])
        } else {
            out == outcome(
                units,
                order,
                TaskView::Down {
                    mode,
                    left,
                    stage: StageView::Watching { name, pid, escalated: true },
                },
                seq![
                    EffectView::ForceKill { pid },
                    EffectView::SetDeadline { secs: KILL_GRACE_SECS },
                ],
            )
        },
        _ => out == unchanged(pre),
    }
}

/// The step from [`TaskView::Down`].
pub open spec fn down_step(
    pre: SupervisorView,
    mode: ShutdownMode,
    left: Seq<Seq<char>>,
    stage: StageView,
    report: ReportView,
    out: Outcome,
) -> bool {
    let (units, order) = (pre.units, pre.boot_order);
    match stage {
        StageView::Terminating { name, pid } => match report {
            ReportView::Signalled => out == outcome(
                units,
                order,
                TaskView::Down {
                    mode,
                    left,
                    stage: StageView::Watching { name, pid, escalated: false },
                },
                seq![EffectView::SetDeadline { secs: STOP_TIMEOUT_SECS }],
            ),
            ReportView::NotSignalled(reason) => {
                let (u, t) = stop_next(units, mode, left);
                out == outcome(u, order, t, seq![])
            },
            _ => out == unchanged(pre),
        },
        StageView::Watching { name, pid, escalated } => watching_step(
            pre,
            mode,
            left,
            name,
            pid,
            escalated,
            report,
            out,
        ),
        StageView::Finished => out == unchanged(pre),
    }
}

/// A report takes the supervisor from `pre` to this outcome.
pub open spec fn step(pre: SupervisorView, report: ReportView, out: Outcome) -> bool {
    let (units, order) = (pre.units, pre.boot_order);
    match pre.task {
        TaskView::Waiting => waiting_step(pre, report, out),
        TaskView::Booting { name, next } => match spawn_result(report) {
            Some(spawned) => {
                let (u, t) = boot_from(spawn_done(units, name, spawned), order, next);
                out == outcome(u, order, t, seq![])
            },
            None => out == unchanged(pre),
        },
        TaskView::Starting { name, conn } => match spawn_result(report) {
            Some(spawned) => out == outcome(
                spawn_done(units, name, spawned),
                order,
                TaskView::Waiting,
                match conn {
                    Some(c) => seq![EffectView::Reply { conn: c, resp: ResponseView::Accepted }],
                    None => seq![],
                },
            ),
            None => out == unchanged(pre),
        },
        TaskView::Terminating { name, pid, conn } => match report {
            ReportView::Signalled => out == outcome(
                units,
                order,
                TaskView::Waiting,
                seq![EffectView::Reply { conn, resp: ResponseView::Accepted }],
            ),
            ReportView::NotSignalled(reason) => out == outcome(
                units,
                order,
                TaskView::Waiting,
                seq![
                    EffectView::Reply {
                        conn,
                        resp: ResponseView::Error(signal_failed(name, pid, reason)),
                    },
                ],
            ),
            _ => out == unchanged(pre),
        },
        TaskView::Down { mode, left, stage } => down_step(pre, mode, left, stage, report, out),
        TaskView::Closed => out == unchanged(pre),
    }
}

/// The unit has this process, is being stopped, and no restart is awaited from
/// it.
pub open spec fn stops_for_good(units: Units, name: Seq<char>, pid: u32) -> bool {
    &&& pid_of(units, name) == Some(pid)
    &&& units[name].state == UnitState::Stopping
    &&& !units[name].pending_restart
}

/// What holds of a supervisor at all times: every unit is valid and stands
/// under its own name, a unit that is being spawned is one that calls for it,
/// and a unit that a shutdown waits for is being stopped for good.
pub open spec fn valid(s: SupervisorView) -> bool {
    &&& forall|n: Seq<char>| #[trigger]
        s.units.contains_key(n) ==> s.units[n].valid() && s.units[n].config.name@ == n
    &&& match s.task.spawning() {
        Some(name) => calls_for_spawn(s.units, name),
        None => true,
    }
    &&& match s.task {
        TaskView::Booting { name, next } => 0 <= next <= s.boot_order.len(),
        TaskView::Down { mode, left, stage } => match stage {
            StageView::Terminating { name, pid } => stops_for_good(s.units, name, pid),
            StageView::Watching { name, pid, escalated } => stops_for_good(s.units, name, pid),
            StageView::Finished => true,
        },
        _ => true,
    }
}

} // verus!
