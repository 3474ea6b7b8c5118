//! What holds of every supervisor, whatever is reported to it.

use crate::config::{RestartPolicy, UnitConfig};
use crate::model::{
    boot_from, calls_for_spawn, effects_in_shutdown, exit_effects, exit_handled,
    exit_in_shutdown, is_exit_of, is_listing, may_start, outcome, pid_of, requested_shutdown,
    spawn_done, spawn_result, start_tried, step, stop_begun, stop_for_good, stop_next,
    stops_for_good, unchanged, valid, EffectView, EventView, Outcome, ReportView, StageView,
    SupervisorView, TaskView, Units,
};
use crate::proto::{InfoView, RequestView, ResponseView, UnitState};
use crate::registry::{AfterExit, RuntimeView, MAX_RESTARTS};
use crate::sort::{increasing, order_is_unique};
use crate::supervisor::{with_loaded, ShutdownMode, RESTART_BACKOFF_SECS};
use crate::text::{bytes_lt, name_lt};
use vstd::prelude::*;
use vstd::string::*;
use vstd::utf8::encode_utf8;

verus! {

// One unit.

/// One life of a unit's process: its id, and how it exited.
pub struct Life {
    pub pid: u32,
    pub status: Seq<char>,
    pub success: bool,
}

/// The unit after its process was started and exited on its own, so many
/// times.
pub open spec fn lived(u: RuntimeView, lives: Seq<Life>) -> RuntimeView
    decreases lives.len(),
{
    if lives.len() == 0 {
        u
    } else {
        let l = lives.last();
        lived(u, lives.drop_last()).after_spawn(l.pid).after_exit(l.status, l.success)
    }
}

/// The policy asks for a restart after each of these lives.
pub open spec fn always_restarted(config: UnitConfig, lives: Seq<Life>) -> bool {
    match config.restart {
        RestartPolicy::Always => true,
        RestartPolicy::OnFailure => forall|i: int|
            0 <= i < lives.len() ==> !(#[trigger] lives[i]).success,
        RestartPolicy::No => false,
    }
}

/// A unit whose policy asks for a restart every time is restarted five times.
/// At the next exit it is marked as failed and left alone.
pub proof fn policy_gives_up_at_the_cap(config: UnitConfig, lives: Seq<Life>)
    requires
        always_restarted(config, lives),
    ensures
        ({
            let u = lived(RuntimeView::fresh(config), lives);
            &&& u.auto_restarts == if lives.len() <= MAX_RESTARTS {
                lives.len()
            } else {
                MAX_RESTARTS as nat
            }
            &&& u.restart_count == u.auto_restarts
            &&& u.state == if lives.len() == 0 {
                UnitState::Loaded
            } else if lives.len() <= MAX_RESTARTS {
                UnitState::Stopped
            } else {
                UnitState::Failed
            }
        }),
    decreases lives.len(),
{
    lemma_config_kept(RuntimeView::fresh(config), lives);
    if lives.len() > 0 {
        assert(always_restarted(config, lives.drop_last())) by {
            if config.restart == RestartPolicy::OnFailure {
                assert forall|i: int| 0 <= i < lives.drop_last().len() implies !(
                #[trigger] lives.drop_last()[i]).success by {
                    assert(!lives[i].success);
                }
            }
        }
        policy_gives_up_at_the_cap(config, lives.drop_last());
        lemma_config_kept(RuntimeView::fresh(config), lives.drop_last());
        if config.restart == RestartPolicy::OnFailure {
            assert(!lives[lives.len() - 1].success);
        }
    }
}

proof fn lemma_config_kept(u: RuntimeView, lives: Seq<Life>)
    ensures
        lived(u, lives).config == u.config,
    decreases lives.len(),
{
    if lives.len() > 0 {
        lemma_config_kept(u, lives.drop_last());
    }
}

/// A restart that a client asked for happens whatever the unit's policy says
/// and however often it was restarted, and does not count towards the cap.
pub proof fn asked_restarts_are_exempt(u: RuntimeView, status: Seq<char>, success: bool)
    requires
        u.pending_restart,
    ensures
        u.fate(success) == AfterExit::RestartNow,
        u.after_exit(status, success).auto_restarts == u.auto_restarts,
        !u.after_exit(status, success).pending_restart,
{
}

/// A unit that was stopped on purpose stays down whatever its policy says, and
/// has not failed, however its process exited.
pub proof fn deliberate_stops_are_no_failures(u: RuntimeView, status: Seq<char>, success: bool)
    requires
        u.is_up(),
        !u.pending_restart,
    ensures
        u.after_stop().fate(success) == AfterExit::StayDown,
        u.after_stop().after_exit(status, success).state == UnitState::Stopped,
        u.after_stop().after_exit(status, success).restart_count == u.restart_count,
{
}

// Every step.

/// Every unit is valid and stands under its own name.
pub open spec fn units_valid(units: Units) -> bool {
    forall|n: Seq<char>| #[trigger]
        units.contains_key(n) ==> units[n].valid() && units[n].config.name@ == n
}

/// Going through the boot order keeps every unit valid, and stops at a unit
/// that calls for a spawn.
proof fn lemma_boot_keeps_validity(units: Units, order: Seq<Seq<char>>, k: int)
    requires
        units_valid(units),
        0 <= k <= order.len(),
    ensures
        ({
            let (u, t) = boot_from(units, order, k);
            units_valid(u) && (t == TaskView::Waiting || (t matches TaskView::Booting { name, next }
                && calls_for_spawn(u, name) && 0 <= next <= order.len()))
        }),
    decreases order.len() - k,
{
    if k < order.len() && !calls_for_spawn(units, order[k]) {
        lemma_boot_keeps_validity(start_tried(units, order[k]), order, k + 1);
    }
}

/// Stopping the next unit keeps every unit valid.
proof fn lemma_stop_keeps_validity(units: Units, mode: ShutdownMode, left: Seq<Seq<char>>)
    requires
        units_valid(units),
    ensures
        ({
            let (u, t) = stop_next(units, mode, left);
            units_valid(u) && t is Down && t.spawning() is None && match t->stage {
                StageView::Terminating { name, pid } => stops_for_good(u, name, pid),
                stage => stage is Finished,
            }
        }),
    decreases left.len(),
{
    if left.len() > 0 && pid_of(units, left.last()) is None {
        lemma_stop_keeps_validity(units, mode, left.drop_last());
    }
}

/// Whatever is reported, every unit stays valid: its process is known exactly
/// while it is up, and its policy has restarted it five times at most.
pub proof fn steps_keep_validity(pre: SupervisorView, report: ReportView, out: Outcome)
    requires
        valid(pre),
        step(pre, report, out),
    ensures
        valid(out.state),
{
    assert(units_valid(pre.units));
    match pre.task {
        TaskView::Booting { name, next } => {
            if let Some(spawned) = spawn_result(report) {
                lemma_boot_keeps_validity(
                    spawn_done(pre.units, name, spawned),
                    pre.boot_order,
                    next,
                );
            }
        },
        TaskView::Down { mode, left, stage } => {
            lemma_down_keeps_validity(pre, report, out);
        },
        TaskView::Waiting => {
            lemma_stop_keeps_validity(pre.units, ShutdownMode::Reboot, pre.boot_order);
            lemma_stop_keeps_validity(pre.units, ShutdownMode::Poweroff, pre.boot_order);
            lemma_stop_keeps_validity(pre.units, ShutdownMode::Halt, pre.boot_order);
        },
        _ => {},
    }
}

proof fn lemma_down_keeps_validity(pre: SupervisorView, report: ReportView, out: Outcome)
    requires
        valid(pre),
        pre.task is Down,
        step(pre, report, out),
    ensures
        valid(out.state),
{
    let (mode, left, stage) = (pre.task->mode, pre.task->left, pre.task->stage);
    lemma_stop_keeps_validity(pre.units, mode, left);
    if let StageView::Watching { name, pid, escalated } = stage {
        if let ReportView::Event(EventView::ProcessExited { pid: exited, status, success }) =
            report {
            let unit = choose|unit: Option<Seq<char>>| #[trigger]
                is_exit_of(pre.units, exited, unit) && ({
                    let after = exit_in_shutdown(pre.units, unit, status, success);
                    let effects = effects_in_shutdown(pre.units, unit, success);
                    if exited == pid {
                        let (u, t) = stop_next(after, mode, left);
                        out == outcome(u, pre.boot_order, t, effects)
                    } else {
                        out == outcome(after, pre.boot_order, pre.task, effects)
                    }
                });
            let after = exit_in_shutdown(pre.units, unit, status, success);
            assert(units_valid(after));
            lemma_stop_keeps_validity(after, mode, left);
        }
    }
}

// Answers.

/// The client that a task will answer.
pub open spec fn owed(task: TaskView) -> Seq<u64> {
    match task {
        TaskView::Starting { name, conn: Some(conn) } => seq![conn],
        TaskView::Terminating { name, pid, conn } => seq![conn],
        _ => seq![],
    }
}

/// The task waits for events.
pub open spec fn receives(task: TaskView) -> bool {
    match task {
        TaskView::Waiting => true,
        TaskView::Down { mode, left, stage: StageView::Watching { name, pid, escalated } } => true,
        _ => false,
    }
}

/// The client that asks for something with this report.
pub open spec fn asked(task: TaskView, report: ReportView) -> Seq<u64> {
    match report {
        ReportView::Event(EventView::Command { req, conn }) => if receives(task) {
            seq![conn]
        } else {
            seq![]
        },
        _ => seq![],
    }
}

/// The clients that are answered by these effects.
pub open spec fn replied(effects: Seq<EffectView>) -> Seq<u64>
    decreases effects.len(),
{
    if effects.len() == 0 {
        seq![]
    } else {
        let before = replied(effects.drop_last());
        match effects.last() {
            EffectView::Reply { conn, resp } => before.push(conn),
            _ => before,
        }
    }
}

proof fn lemma_replied_one(e: EffectView)
    ensures
        replied(seq![e]) == match e {
            EffectView::Reply { conn, resp } => seq![conn],
            _ => seq![],
        },
{
    reveal_with_fuel(replied, 2);
    assert(seq![e].drop_last() =~= seq![]);
}

proof fn lemma_replied_two(e: EffectView, f: EffectView)
    requires
        !(e is Reply),
        !(f is Reply),
    ensures
        replied(seq![e, f]) == Seq::<u64>::empty(),
{
    assert(seq![e, f].drop_last() =~= seq![e]);
    lemma_replied_one(e);
}

/// Every client that asks for something is answered exactly once, and nobody
/// else is: the clients that were owed an answer or ask for one now are those
/// that are answered now or owed an answer from now on.
pub proof fn every_request_is_answered_once(pre: SupervisorView, report: ReportView, out: Outcome)
    requires
        step(pre, report, out),
    ensures
        owed(pre.task) + asked(pre.task, report) == replied(out.effects) + owed(out.state.task),
{
    assert forall|e: EffectView| #[trigger] replied(seq![e]) == match e {
        EffectView::Reply { conn, resp } => seq![conn],
        _ => seq![],
    } by {
        lemma_replied_one(e);
    }
    assert forall|u: Units, mode: ShutdownMode, left: Seq<Seq<char>>| owed(
        (#[trigger] stop_next(u, mode, left)).1,
    ) == Seq::<u64>::empty() by {
        lemma_stop_goes_down(u, mode, left);
    }
    if let ReportView::DeadlinePassed = report {
        if let TaskView::Down { mode, left, stage: StageView::Watching { name, pid, escalated } } =
            pre.task {
            lemma_replied_two(
                EffectView::ForceKill { pid },
                EffectView::SetDeadline { secs: crate::supervisor::KILL_GRACE_SECS },
            );
        }
    }
    if let TaskView::Booting { name, next } = pre.task {
        if let Some(spawned) = spawn_result(report) {
            lemma_boot_owes_nothing(spawn_done(pre.units, name, spawned), pre.boot_order, next);
        }
    }
    assert(owed(pre.task) + asked(pre.task, report) =~= replied(out.effects) + owed(
        out.state.task,
    ));
}

proof fn lemma_boot_owes_nothing(units: Units, order: Seq<Seq<char>>, k: int)
    ensures
        owed(boot_from(units, order, k).1) == Seq::<u64>::empty(),
    decreases order.len() - k,
{
    if 0 <= k < order.len() && !calls_for_spawn(units, order[k]) {
        lemma_boot_owes_nothing(start_tried(units, order[k]), order, k + 1);
    }
}

proof fn lemma_stop_goes_down(units: Units, mode: ShutdownMode, left: Seq<Seq<char>>)
    ensures
        stop_next(units, mode, left).1 is Down,
        stop_next(units, mode, left).1->mode == mode,
        stop_next(units, mode, left).1->left.is_prefix_of(left),
        !(stop_next(units, mode, left).1->stage is Watching),
        stop_next(units, mode, left).1->stage is Finished ==> stop_next(units, mode, left).0
            == units,
    decreases left.len(),
{
    if left.len() > 0 {
        assert(left.drop_last().is_prefix_of(left));
        if pid_of(units, left.last()) is None {
            lemma_stop_goes_down(units, mode, left.drop_last());
            let l = stop_next(units, mode, left.drop_last()).1->left;
            assert(l =~= left.take(l.len() as int));
        }
    } else {
        assert(left.is_prefix_of(left));
    }
}

// Events that change nothing.

/// The exit of a process that belongs to no unit changes nothing.
pub proof fn strange_exits_change_nothing(
    pre: SupervisorView,
    pid: u32,
    status: Seq<char>,
    success: bool,
    out: Outcome,
)
    requires
        pre.task == TaskView::Waiting,
        forall|n: Seq<char>| pid_of(pre.units, n) != Some(pid),
        step(pre, ReportView::Event(EventView::ProcessExited { pid, status, success }), out),
    ensures
        out == unchanged(pre),
{
}

/// A restart that falls due when the unit is already up again, or gone,
/// changes nothing.
pub proof fn late_restarts_change_nothing(pre: SupervisorView, name: Seq<char>, out: Outcome)
    requires
        pre.task == TaskView::Waiting,
        !may_start(pre.units, name),
        step(pre, ReportView::Event(EventView::RestartDue(name)), out),
    ensures
        out == unchanged(pre),
{
}

/// Asking for a list or a status changes nothing, and is answered at once.
pub proof fn queries_change_nothing(
    pre: SupervisorView,
    req: RequestView,
    conn: u64,
    out: Outcome,
)
    requires
        pre.task == TaskView::Waiting,
        req is ListUnits || req is Status,
        step(pre, ReportView::Event(EventView::Command { req, conn }), out),
    ensures
        out.state == pre,
        out.effects.len() == 1,
        out.effects[0] is Reply,
        out.effects[0]->conn == conn,
{
}

/// There is only one list of given units.
pub proof fn lists_are_unique(units: Units, a: Seq<InfoView>, b: Seq<InfoView>)
    requires
        is_listing(units, a),
        is_listing(units, b),
    ensures
        a == b,
{
    let key = |i: InfoView| encode_utf8(i.name);
    assert forall|s: Seq<InfoView>, t: Seq<InfoView>, x: InfoView|
        is_listing(units, s) && is_listing(units, t) && #[trigger] s.contains(
            x,
        ) implies #[trigger] t.contains(x) by {
        let i = choose|i: int| 0 <= i < s.len() && s[i] == x;
        assert(units.contains_key(s[i].name));
        let j = choose|j: int| 0 <= j < t.len() && (#[trigger] t[j]).name == x.name;
        assert(t[j] == units[x.name].info());
    }
    assert forall|x: InfoView| a.contains(x) <==> b.contains(x) by {
        if a.contains(x) {
            assert(b.contains(x));
        }
        if b.contains(x) {
            assert(a.contains(x));
        }
    }
    assert forall|s: Seq<InfoView>| #[trigger] is_listing(units, s) implies increasing(s, key) by {
        assert forall|i: int, j: int| 0 <= i < j < s.len() implies bytes_lt(
            key(#[trigger] s[i]),
            key(#[trigger] s[j]),
        ) by {
            assert(name_lt(s[i].name, s[j].name));
        }
    }
    order_is_unique(a, b, key);
}

// Boot.

/// Units are started in the boot order: the next one to be spawned is the
/// first from position `k` on that calls for it.
pub proof fn boot_goes_through_the_order(units: Units, order: Seq<Seq<char>>, k: int)
    requires
        0 <= k <= order.len(),
    ensures
        match boot_from(units, order, k).1 {
            TaskView::Booting { name, next } => {
                &&& k < next <= order.len()
                &&& name == order[next - 1]
                &&& calls_for_spawn(units, name)
                &&& forall|j: int| k <= j < next - 1 ==> !calls_for_spawn(units, #[trigger] order[j])
            },
            task => {
                &&& task == TaskView::Waiting
                &&& forall|j: int| k <= j < order.len() ==> !calls_for_spawn(
                    units,
                    #[trigger] order[j],
                )
            },
        },
    decreases order.len() - k,
{
    if k < order.len() && !calls_for_spawn(units, order[k]) {
        let tried = start_tried(units, order[k]);
        boot_goes_through_the_order(tried, order, k + 1);
        assert forall|n: Seq<char>| calls_for_spawn(tried, n) <==> #[trigger] calls_for_spawn(
            units,
            n,
        ) by {}
        assert forall|j: int| k <= j < order.len() && !calls_for_spawn(
            tried,
            #[trigger] order[j],
        ) implies !calls_for_spawn(units, order[j]) by {
            assert(calls_for_spawn(tried, order[j]) <==> calls_for_spawn(units, order[j]));
        }
    }
}

/// Loading makes a unit of each definition, and of a name's last definition if
/// there are several. Other units are kept.
pub proof fn loading_adds_the_units(units: Units, configs: Seq<UnitConfig>, n: Seq<char>)
    ensures
        match last_definition(configs, n) {
            Some(c) => {
                &&& with_loaded(units, configs).contains_key(n)
                &&& with_loaded(units, configs)[n] == RuntimeView::fresh(c)
            },
            None => {
                &&& with_loaded(units, configs).contains_key(n) <==> units.contains_key(n)
                &&& units.contains_key(n) ==> with_loaded(units, configs)[n] == units[n]
            },
        },
    decreases configs.len(),
{
    if configs.len() > 0 {
        loading_adds_the_units(units, configs.drop_last(), n);
    }
}

/// The last definition of a name.
pub open spec fn last_definition(configs: Seq<UnitConfig>, n: Seq<char>) -> Option<UnitConfig>
    decreases configs.len(),
{
    if configs.len() == 0 {
        None
    } else if configs.last().name@ == n {
        Some(configs.last())
    } else {
        last_definition(configs.drop_last(), n)
    }
}

// Shutdown.

/// A client that asks for a shutdown is told so before anything else happens,
/// and the supervisor is going down from then on.
pub proof fn shutdowns_are_accepted_at_once(
    pre: SupervisorView,
    req: RequestView,
    conn: u64,
    out: Outcome,
)
    requires
        pre.task == TaskView::Waiting,
        requested_shutdown(req) is Some,
        step(pre, ReportView::Event(EventView::Command { req, conn }), out),
    ensures
        out.effects == seq![EffectView::Reply { conn, resp: ResponseView::Accepted }],
        out.state.task is Down,
        Some(out.state.task->mode) == requested_shutdown(req),
{
    lemma_stop_goes_down(pre.units, requested_shutdown(req)->0, pre.boot_order);
}

/// Units are stopped in the reverse of the order in which they were started:
/// the next one to be stopped is the last of those left that has a process,
/// and a shutdown is finished only when none of them has one.
pub proof fn units_stop_in_reverse_order(units: Units, mode: ShutdownMode, left: Seq<Seq<char>>)
    ensures
        ({
            let (u, t) = stop_next(units, mode, left);
            let l = t->left;
            match t->stage {
                StageView::Terminating { name, pid } => {
                    &&& l.len() < left.len()
                    &&& name == left[l.len() as int]
                    &&& l == left.take(l.len() as int)
                    &&& pid_of(units, left[l.len() as int]) == Some(pid)
                    &&& u == stop_for_good(units, left[l.len() as int])
                    &&& forall|i: int|
                        l.len() < i < left.len() ==> pid_of(units, #[trigger] left[i]) is None
                },
                stage => {
                    &&& stage == StageView::Finished
                    &&& l.len() == 0
                    &&& u == units
                    &&& forall|i: int|
                        0 <= i < left.len() ==> pid_of(units, #[trigger] left[i]) is None
                },
            }
        }),
    decreases left.len(),
{
    if left.len() > 0 {
        let before = left.drop_last();
        if pid_of(units, left.last()) is None {
            units_stop_in_reverse_order(units, mode, before);
            let (u, t) = stop_next(units, mode, before);
            let l = t->left;
            assert forall|i: int| 0 <= i < before.len() implies #[trigger] left[i] == before[i] by {}
            assert(left[left.len() - 1] == left.last());
            if t->stage is Terminating {
                assert(before.take(l.len() as int) =~= left.take(l.len() as int));
                assert forall|i: int| l.len() < i < left.len() implies pid_of(
                    units,
                    #[trigger] left[i],
                ) is None by {
                    if i < before.len() {
                        assert(pid_of(units, before[i]) is None);
                    }
                }
            } else {
                assert forall|i: int| 0 <= i < left.len() implies pid_of(
                    units,
                    #[trigger] left[i],
                ) is None by {
                    if i < before.len() {
                        assert(pid_of(units, before[i]) is None);
                    }
                }
            }
        } else {
            assert(before =~= left.take(before.len() as int));
        }
    }
}

/// A shutdown is never left again, keeps its mode, and never comes back to a
/// unit that it is done with.
pub proof fn shutdowns_only_go_on(pre: SupervisorView, report: ReportView, out: Outcome)
    requires
        pre.task is Down,
        step(pre, report, out),
    ensures
        out.state.task is Down,
        out.state.task->mode == pre.task->mode,
        out.state.task->left.is_prefix_of(pre.task->left),
        pre.task->stage is Finished ==> out == unchanged(pre),
{
    let (mode, left, stage) = (pre.task->mode, pre.task->left, pre.task->stage);
    assert(left.is_prefix_of(left)) by {
        assert(left =~= left.take(left.len() as int));
    }
    assert forall|u: Units| (#[trigger] stop_next(u, mode, left)).1 is Down && stop_next(
        u,
        mode,
        left,
    ).1->mode == mode && stop_next(u, mode, left).1->left.is_prefix_of(left) by {
        lemma_stop_goes_down(u, mode, left);
    }
}

/// While the supervisor goes down, commands are refused, restarts that fall
/// due are dropped, and so are further requests to go down.
pub proof fn shutdowns_are_not_disturbed(
    pre: SupervisorView,
    event: EventView,
    out: Outcome,
)
    requires
        pre.task is Down,
        !(event is ProcessExited),
        step(pre, ReportView::Event(event), out),
    ensures
        out.state == pre,
        out.effects == match event {
            EventView::Command { req, conn } => if pre.task->stage is Watching {
                seq![
                    EffectView::Reply {
                        conn,
                        resp: ResponseView::Error("apollod is shutting down"@),
                    },
                ]
            } else {
                seq![]
            },
            _ => seq![],
        },
{
}

/// A process that does not exit holds a shutdown up for two deadlines: at the
/// first it is killed, at the second it is given up.
pub proof fn two_deadlines_end_the_wait(pre: SupervisorView, mid: Outcome, out: Outcome)
    requires
        pre.task matches TaskView::Down { mode, left, stage } && stage matches StageView::Watching {
            name,
            pid,
            escalated,
        } && !escalated,
        step(pre, ReportView::DeadlinePassed, mid),
        step(mid.state, ReportView::DeadlinePassed, out),
    ensures
        mid.effects == seq![
            EffectView::ForceKill { pid: pre.task->stage->Watching_pid },
            EffectView::SetDeadline { secs: crate::supervisor::KILL_GRACE_SECS },
        ],
        (out.state.units, out.state.task) == stop_next(
            pre.units,
            pre.task->mode,
            pre.task->left,
        ),
        out.effects == Seq::<EffectView>::empty(),
{
}

// Requests that take several steps.

/// No other unit has this process.
pub open spec fn only_process_of(units: Units, name: Seq<char>, pid: u32) -> bool {
    &&& pid_of(units, name) == Some(pid)
    &&& forall|n: Seq<char>| #[trigger] pid_of(units, n) == Some(pid) ==> n == name
}

/// A running unit that is stopped for a client is down when its process has
/// exited, however it exited and whatever the unit's policy says.
pub proof fn stopped_units_stay_down(
    pre: SupervisorView,
    name: Seq<char>,
    conn: u64,
    pid: u32,
    status: Seq<char>,
    success: bool,
    begun: Outcome,
    told: Outcome,
    out: Outcome,
)
    requires
        valid(pre),
        pre.task == TaskView::Waiting,
        only_process_of(pre.units, name, pid),
        !pre.units[name].pending_restart,
        step(
            pre,
            ReportView::Event(EventView::Command { req: RequestView::Stop { name }, conn }),
            begun,
        ),
        step(begun.state, ReportView::Signalled, told),
        step(
            told.state,
            ReportView::Event(EventView::ProcessExited { pid, status, success }),
            out,
        ),
    ensures
        told.effects == seq![EffectView::Reply { conn, resp: ResponseView::Accepted }],
        out.state == (SupervisorView {
            units: pre.units.insert(
                name,
                pre.units[name].after_stop().after_exit(status, success),
            ),
            ..pre
        }),
        out.state.units[name].state == UnitState::Stopped,
        out.effects == Seq::<EffectView>::empty(),
{
    let units = stop_begun(pre.units, name);
    assert(told.state.units == units);
    assert forall|n: Seq<char>| #[trigger] pid_of(units, n) == pid_of(pre.units, n) by {}
    assert(is_exit_of(units, pid, Some(name)));
    assert forall|unit: Option<Seq<char>>| #[trigger] is_exit_of(units, pid, unit) implies unit
        == Some(name) by {
        if let Some(n) = unit {
            assert(pid_of(pre.units, n) == Some(pid));
        } else {
            assert(pid_of(units, name) == Some(pid));
        }
    }
    assert(units.insert(name, units[name].after_exit(status, success)) =~= pre.units.insert(
        name,
        units[name].after_exit(status, success),
    ));
}

/// A running unit that a client wants restarted is spawned again as soon as its
/// process has exited, however often it was restarted and whatever its policy
/// says.
pub proof fn restarted_units_come_back(
    pre: SupervisorView,
    name: Seq<char>,
    conn: u64,
    pid: u32,
    status: Seq<char>,
    success: bool,
    new_pid: u32,
    begun: Outcome,
    told: Outcome,
    gone: Outcome,
    out: Outcome,
)
    requires
        valid(pre),
        pre.task == TaskView::Waiting,
        only_process_of(pre.units, name, pid),
        pre.units[name].config.argv@.len() > 0,
        step(
            pre,
            ReportView::Event(EventView::Command { req: RequestView::Restart { name }, conn }),
            begun,
        ),
        step(begun.state, ReportView::Signalled, told),
        step(
            told.state,
            ReportView::Event(EventView::ProcessExited { pid, status, success }),
            gone,
        ),
        step(gone.state, ReportView::Spawned(new_pid), out),
    ensures
        told.effects == seq![EffectView::Reply { conn, resp: ResponseView::Accepted }],
        gone.state.task == (TaskView::Starting { name, conn: None }),
        out.state.task == TaskView::Waiting,
        out.state.units.contains_key(name),
        out.state.units[name].state == UnitState::Running,
        out.state.units[name].pid == Some(new_pid),
        out.state.units[name].auto_restarts == pre.units[name].auto_restarts,
        forall|n: Seq<char>| n != name ==> #[trigger] pid_of(out.state.units, n) == pid_of(
            pre.units,
            n,
        ),
{
    let units = told.state.units;
    assert forall|n: Seq<char>| #[trigger] pid_of(units, n) == pid_of(pre.units, n) by {}
    assert(is_exit_of(units, pid, Some(name)));
    assert forall|unit: Option<Seq<char>>| #[trigger] is_exit_of(units, pid, unit) implies unit
        == Some(name) by {
        if let Some(n) = unit {
            assert(pid_of(pre.units, n) == Some(pid));
        } else {
            assert(pid_of(units, name) == Some(pid));
        }
    }
}

/// A unit that exits on its own, and that its policy restarts, is spawned again
/// when the pause is over.
pub proof fn crashed_units_come_back_after_a_pause(
    pre: SupervisorView,
    name: Seq<char>,
    pid: u32,
    status: Seq<char>,
    success: bool,
    gone: Outcome,
    out: Outcome,
)
    requires
        valid(pre),
        pre.task == TaskView::Waiting,
        only_process_of(pre.units, name, pid),
        pre.units[name].config.argv@.len() > 0,
        pre.units[name].policy_wants_restart(success),
        pre.units[name].auto_restarts < MAX_RESTARTS,
        step(pre, ReportView::Event(EventView::ProcessExited { pid, status, success }), gone),
        step(gone.state, ReportView::Event(EventView::RestartDue(name)), out),
    ensures
        gone.effects == seq![EffectView::ScheduleRestart { name, secs: RESTART_BACKOFF_SECS }],
        gone.state.task == TaskView::Waiting,
        gone.state.units[name].auto_restarts == pre.units[name].auto_restarts + 1,
        out.state.task == (TaskView::Starting { name, conn: None }),
{
    let units = pre.units;
    assert(is_exit_of(units, pid, Some(name)));
    assert forall|unit: Option<Seq<char>>| #[trigger] is_exit_of(units, pid, unit) implies unit
        == Some(name) by {
        if let Some(n) = unit {
            assert(pid_of(units, n) == Some(pid));
        } else {
            assert(pid_of(units, name) == Some(pid));
        }
    }
    assert(units[name].fate(success) == AfterExit::RestartLater);
}

// Processes.

/// No two units have the same process.
pub open spec fn distinct_processes(units: Units) -> bool {
    forall|m: Seq<char>, n: Seq<char>|
        #![trigger pid_of(units, m), pid_of(units, n)]
        pid_of(units, m) is Some && pid_of(units, m) == pid_of(units, n) ==> m == n
}

/// Units have the processes that they had, or none.
pub open spec fn no_new_processes(before: Units, after: Units) -> bool {
    forall|n: Seq<char>| #[trigger]
        pid_of(after, n) is Some ==> pid_of(after, n) == pid_of(before, n)
}

proof fn lemma_boot_keeps_processes(units: Units, order: Seq<Seq<char>>, k: int)
    requires
        units_valid(units),
        k >= 0,
    ensures
        no_new_processes(units, boot_from(units, order, k).0),
    decreases order.len() - k,
{
    if k < order.len() && !calls_for_spawn(units, order[k]) {
        let tried = start_tried(units, order[k]);
        assert(no_new_processes(units, tried));
        lemma_boot_keeps_processes(tried, order, k + 1);
        assert forall|n: Seq<char>| #[trigger]
            pid_of(boot_from(tried, order, k + 1).0, n) is Some implies pid_of(
            boot_from(tried, order, k + 1).0,
            n,
        ) == pid_of(units, n) by {
            assert(pid_of(tried, n) is Some);
        }
    }
}

proof fn lemma_stop_keeps_processes(units: Units, mode: ShutdownMode, left: Seq<Seq<char>>)
    ensures
        no_new_processes(units, stop_next(units, mode, left).0),
    decreases left.len(),
{
    if left.len() > 0 && pid_of(units, left.last()) is None {
        lemma_stop_keeps_processes(units, mode, left.drop_last());
    }
}

/// As long as a new process is not that of another unit, no two units have the
/// same process.
pub proof fn steps_keep_processes_distinct(pre: SupervisorView, report: ReportView, out: Outcome)
    requires
        valid(pre),
        distinct_processes(pre.units),
        step(pre, report, out),
        spawn_result(report) matches Some(Some(pid)) ==> forall|n: Seq<char>| #[trigger]
            pid_of(pre.units, n) != Some(pid),
    ensures
        distinct_processes(out.state.units),
{
    assert(units_valid(pre.units));
    let before = match (pre.task.spawning(), spawn_result(report)) {
        (Some(name), Some(spawned)) => spawn_done(pre.units, name, spawned),
        _ => pre.units,
    };
    assert(distinct_processes(before)) by {
        assert forall|m: Seq<char>, n: Seq<char>|
            #![trigger pid_of(before, m), pid_of(before, n)]
            pid_of(before, m) is Some && pid_of(before, m) == pid_of(before, n) implies m == n by {
            let (x, y) = (pid_of(pre.units, m), pid_of(pre.units, n));
        }
    }
    assert(units_valid(before));
    assert forall|order: Seq<Seq<char>>, k: int| k >= 0 implies no_new_processes(
        before,
        (#[trigger] boot_from(before, order, k)).0,
    ) by {
        lemma_boot_keeps_processes(before, order, k);
    }
    assert forall|u: Units, mode: ShutdownMode, left: Seq<Seq<char>>| no_new_processes(
        u,
        (#[trigger] stop_next(u, mode, left)).0,
    ) by {
        lemma_stop_keeps_processes(u, mode, left);
    }
    assert(no_new_processes(before, out.state.units)) by {
        lemma_step_processes(pre, report, out, before);
    }
}

proof fn lemma_step_processes(
    pre: SupervisorView,
    report: ReportView,
    out: Outcome,
    before: Units,
)
    requires
        valid(pre),
        step(pre, report, out),
        before == match (pre.task.spawning(), spawn_result(report)) {
            (Some(name), Some(spawned)) => spawn_done(pre.units, name, spawned),
            _ => pre.units,
        },
        forall|order: Seq<Seq<char>>, k: int|
            k >= 0 ==> no_new_processes(before, (#[trigger] boot_from(before, order, k)).0),
        forall|u: Units, mode: ShutdownMode, left: Seq<Seq<char>>|
            no_new_processes(u, (#[trigger] stop_next(u, mode, left)).0),
    ensures
        no_new_processes(before, out.state.units),
{
    if pre.task is Down {
        lemma_down_processes(pre, report, out);
    }
}

proof fn lemma_down_processes(pre: SupervisorView, report: ReportView, out: Outcome)
    requires
        pre.task is Down,
        step(pre, report, out),
    ensures
        no_new_processes(pre.units, out.state.units),
{
    let (mode, left) = (pre.task->mode, pre.task->left);
    let u = pre.units;
    lemma_stop_keeps_processes(u, mode, left);
    if let ReportView::Event(EventView::ProcessExited { pid: exited, status, success }) = report {
        assert forall|unit: Option<Seq<char>>| #[trigger]
            is_exit_of(u, exited, unit) implies no_new_processes(
            u,
            stop_next(exit_in_shutdown(u, unit, status, success), mode, left).0,
        ) && no_new_processes(u, exit_in_shutdown(u, unit, status, success)) by {
            let after = exit_in_shutdown(u, unit, status, success);
            assert(no_new_processes(u, after));
            lemma_stop_keeps_processes(after, mode, left);
            assert forall|n: Seq<char>| #[trigger]
                pid_of(stop_next(after, mode, left).0, n) is Some implies pid_of(
                stop_next(after, mode, left).0,
                n,
            ) == pid_of(u, n) by {
                assert(pid_of(after, n) is Some);
            }
        }
    }
}

/// With distinct processes, a report has one outcome.
pub proof fn steps_are_determined(
    pre: SupervisorView,
    report: ReportView,
    a: Outcome,
    b: Outcome,
)
    requires
        distinct_processes(pre.units),
        step(pre, report, a),
        step(pre, report, b),
    ensures
        a == b,
{
    let units = pre.units;
    assert forall|pid: u32, s: Option<Seq<char>>, t: Option<Seq<char>>| #[trigger]
        is_exit_of(units, pid, s) && #[trigger] is_exit_of(units, pid, t) implies s == t by {
        if let Some(m) = s {
            assert(pid_of(units, m) == Some(pid));
            if let Some(n) = t {
                assert(pid_of(units, n) == Some(pid));
            }
        } else if let Some(n) = t {
            assert(pid_of(units, n) == Some(pid));
        }
    }
    assert forall|s: Seq<InfoView>, t: Seq<InfoView>| #[trigger]
        is_listing(units, s) && #[trigger] is_listing(units, t) implies s == t by {
        lists_are_unique(units, s, t);
    }
}

// A boot, from its first unit to its last.

/// The first `k` units of the order were started, or it was tried.
pub open spec fn tried_upto(units: Units, order: Seq<Seq<char>>, k: int) -> bool {
    forall|j: int|
        0 <= j < k && units.contains_key(#[trigger] order[j]) ==> units[order[j]].state
            != UnitState::Loaded
}

/// A boot has come this far: every unit before the one that is being spawned
/// was tried, or every unit if none is.
pub open spec fn boot_progress(units: Units, order: Seq<Seq<char>>, task: TaskView) -> bool {
    match task {
        TaskView::Booting { name, next } => {
            &&& 0 < next <= order.len()
            &&& name == order[next - 1]
            &&& tried_upto(units, order, next - 1)
        },
        TaskView::Waiting => tried_upto(units, order, order.len() as int),
        _ => false,
    }
}

proof fn lemma_boot_progress(units: Units, order: Seq<Seq<char>>, k: int)
    requires
        units_valid(units),
        0 <= k <= order.len(),
        tried_upto(units, order, k),
    ensures
        boot_progress(boot_from(units, order, k).0, order, boot_from(units, order, k).1),
    decreases order.len() - k,
{
    if k < order.len() && !calls_for_spawn(units, order[k]) {
        let tried = start_tried(units, order[k]);
        assert(tried_upto(tried, order, k + 1)) by {
            assert forall|j: int| 0 <= j < k + 1 && tried.contains_key(
                #[trigger] order[j],
            ) implies tried[order[j]].state != UnitState::Loaded by {
                if j < k {
                    assert(units.contains_key(order[j]));
                }
            }
        }
        lemma_boot_progress(tried, order, k + 1);
    }
}

/// A boot that begins has tried every unit before the first that is spawned.
pub proof fn boots_begin_with_the_first_unit(units: Units, order: Seq<Seq<char>>)
    requires
        units_valid(units),
    ensures
        boot_progress(boot_from(units, order, 0).0, order, boot_from(units, order, 0).1),
{
    lemma_boot_progress(units, order, 0);
}

/// A boot leaves no unit out, whether or not processes can be spawned: when it
/// is over, every unit of the order was started or it was tried.
pub proof fn boots_try_every_unit(pre: SupervisorView, report: ReportView, out: Outcome)
    requires
        valid(pre),
        pre.task is Booting,
        boot_progress(pre.units, pre.boot_order, pre.task),
        step(pre, report, out),
    ensures
        out.state.boot_order == pre.boot_order,
        boot_progress(out.state.units, out.state.boot_order, out.state.task),
        spawn_result(report) is Some && out.state.task is Booting ==> out.state.task->next
            > pre.task->next,
{
    let (name, next) = (pre.task->Booting_name, pre.task->next);
    let order = pre.boot_order;
    if let Some(spawned) = spawn_result(report) {
        let units = spawn_done(pre.units, name, spawned);
        assert(units_valid(units));
        assert(tried_upto(units, order, next)) by {
            assert forall|j: int| 0 <= j < next && units.contains_key(
                #[trigger] order[j],
            ) implies units[order[j]].state != UnitState::Loaded by {
                if order[j] != name {
                    assert(j < next - 1);
                    assert(pre.units.contains_key(order[j]));
                }
            }
        }
        lemma_boot_progress(units, order, next);
        boot_goes_through_the_order(units, order, next);
    }
}

// A shutdown, unit by unit.

/// A shutdown goes on to the next unit only when the one that it waits for has
/// exited, was killed in vain, or nothing can be learned about it any more.
pub proof fn shutdowns_wait_for_each_unit(pre: SupervisorView, report: ReportView, out: Outcome)
    requires
        pre.task matches TaskView::Down { mode, left, stage } && stage is Watching,
        step(pre, report, out),
    ensures
        ({
            let (pid, escalated) = (
                pre.task->stage->Watching_pid,
                pre.task->stage->Watching_escalated,
            );
            ||| report matches ReportView::Event(
                EventView::ProcessExited { pid: exited, status, success },
            ) && exited == pid
            ||| report is Closed
            ||| report is DeadlinePassed && escalated
            ||| {
                &&& out.state.task is Down
                &&& out.state.task->left == pre.task->left
                &&& match out.state.task->stage {
                    StageView::Watching { name, pid: p, escalated: e } => p == pid && (escalated
                        ==> e),
                    _ => false,
                }
            }
        }),
{
}

/// A shutdown starts nothing: it asks for no process to be spawned, and no unit
/// has a process that it did not have before.
pub proof fn shutdowns_start_nothing(pre: SupervisorView, report: ReportView, out: Outcome)
    requires
        pre.task is Down,
        step(pre, report, out),
    ensures
        out.state.task.spawning() is None,
        no_new_processes(pre.units, out.state.units),
{
    let (mode, left) = (pre.task->mode, pre.task->left);
    assert forall|u: Units| (#[trigger] stop_next(u, mode, left)).1.spawning() is None by {
        lemma_stop_goes_down(u, mode, left);
    }
    lemma_down_processes(pre, report, out);
}

/// A unit that a shutdown waits for is down when its process has exited,
/// whatever its policy says and whatever clients wanted: it counts as stopped,
/// tells how it exited, and nothing is spawned.
pub proof fn shutdowns_leave_units_stopped(
    pre: SupervisorView,
    name: Seq<char>,
    pid: u32,
    status: Seq<char>,
    success: bool,
    out: Outcome,
)
    requires
        valid(pre),
        pre.task matches TaskView::Down { mode, left, stage } && stage matches StageView::Watching {
            name: watched,
            pid: p,
            escalated,
        } && p == pid,
        only_process_of(pre.units, name, pid),
        step(pre, ReportView::Event(EventView::ProcessExited { pid, status, success }), out),
    ensures
        out.state.units.contains_key(name),
        out.state.units[name].pid is None,
        out.state.units[name].state == UnitState::Stopped,
        out.state.units[name].exit_status == Some(status),
        out.state.units[name].restart_count == pre.units[name].restart_count,
        out.state.task.spawning() is None,
        out.effects == Seq::<EffectView>::empty(),
        (out.state.units, out.state.task) == stop_next(
            pre.units.insert(name, pre.units[name].after_exit(status, success)),
            pre.task->mode,
            pre.task->left,
        ),
{
    let (mode, left) = (pre.task->mode, pre.task->left);
    let units = pre.units;
    assert(is_exit_of(units, pid, Some(name)));
    assert forall|unit: Option<Seq<char>>| #[trigger] is_exit_of(units, pid, unit) implies unit
        == Some(name) by {
        if let Some(n) = unit {
            assert(pid_of(units, n) == Some(pid));
        } else {
            assert(pid_of(units, name) == Some(pid));
        }
    }
    assert(pid_of(units, pre.task->stage->Watching_name) == Some(pid));
    assert(units[name].without_restart() == units[name]);
    let after = exit_in_shutdown(units, Some(name), status, success);
    assert(after =~= units.insert(name, units[name].after_exit(status, success)));
    lemma_stop_goes_down(after, mode, left);
    lemma_stop_spares_the_down(after, mode, left, name);
}

/// Units without a process are not touched.
proof fn lemma_stop_spares_the_down(
    units: Units,
    mode: ShutdownMode,
    left: Seq<Seq<char>>,
    name: Seq<char>,
)
    requires
        units.contains_key(name),
        units[name].pid is None,
    ensures
        stop_next(units, mode, left).0.contains_key(name),
        stop_next(units, mode, left).0[name] == units[name],
    decreases left.len(),
{
    if left.len() > 0 && pid_of(units, left.last()) is None {
        lemma_stop_spares_the_down(units, mode, left.drop_last(), name);
    }
}

/// The unit that a shutdown waits for.
pub open spec fn waited_for(stage: StageView) -> Option<Seq<char>> {
    match stage {
        StageView::Terminating { name, pid } => Some(name),
        StageView::Watching { name, pid, escalated } => Some(name),
        StageView::Finished => None,
    }
}

/// How far a shutdown has come with the units in `all`: those that are no
/// longer left have no process, but for the one that it waits for.
pub open spec fn cleared(units: Units, all: Seq<Seq<char>>, task: TaskView) -> bool {
    &&& task is Down
    &&& task->left.is_prefix_of(all)
    &&& task->stage is Finished ==> task->left.len() == 0
    &&& forall|i: int|
        task->left.len() <= i < all.len() ==> pid_of(units, #[trigger] all[i]) is None
            || waited_for(task->stage) == Some(all[i])
}

/// The report makes a shutdown give up the unit that it waits for.
pub open spec fn gives_up(stage: StageView, report: ReportView) -> bool {
    match stage {
        StageView::Terminating { name, pid } => report is NotSignalled,
        StageView::Watching { name, pid, escalated } => report is Closed || (escalated
            && report is DeadlinePassed),
        StageView::Finished => false,
    }
}

proof fn lemma_stop_clears(
    units: Units,
    mode: ShutdownMode,
    left: Seq<Seq<char>>,
    all: Seq<Seq<char>>,
)
    requires
        left.is_prefix_of(all),
        forall|i: int| left.len() <= i < all.len() ==> pid_of(units, #[trigger] all[i]) is None,
    ensures
        cleared(stop_next(units, mode, left).0, all, stop_next(units, mode, left).1),
{
    let (u, t) = stop_next(units, mode, left);
    lemma_stop_goes_down(units, mode, left);
    units_stop_in_reverse_order(units, mode, left);
    lemma_stop_keeps_processes(units, mode, left);
    let l = t->left;
    assert(l =~= all.take(l.len() as int));
    assert forall|i: int| l.len() <= i < all.len() implies pid_of(u, #[trigger] all[i]) is None
        || waited_for(t->stage) == Some(all[i]) by {
        if i < left.len() {
            assert(left[i] == all[i]);
        }
        if pid_of(u, all[i]) is Some {
            assert(pid_of(u, all[i]) == pid_of(units, all[i]));
        }
    }
}

/// A shutdown that begins waits for the last unit of the boot order that has a
/// process.
pub proof fn shutdowns_begin_at_the_end(units: Units, mode: ShutdownMode, order: Seq<Seq<char>>)
    ensures
        cleared(stop_next(units, mode, order).0, order, stop_next(units, mode, order).1),
{
    assert(order =~= order.take(order.len() as int));
    lemma_stop_clears(units, mode, order, order);
}

/// A shutdown that gives up no unit leaves none behind: no unit that it is done
/// with has a process, so that none of them has one when it is finished.
pub proof fn shutdowns_stop_every_unit(
    pre: SupervisorView,
    all: Seq<Seq<char>>,
    report: ReportView,
    out: Outcome,
)
    requires
        valid(pre),
        distinct_processes(pre.units),
        cleared(pre.units, all, pre.task),
        step(pre, report, out),
        !gives_up(pre.task->stage, report),
    ensures
        cleared(out.state.units, all, out.state.task),
        out.state.task->stage is Finished ==> forall|i: int|
            0 <= i < all.len() ==> pid_of(out.state.units, #[trigger] all[i]) is None,
{
    let (mode, left, stage) = (pre.task->mode, pre.task->left, pre.task->stage);
    let units = pre.units;
    if let StageView::Watching { name, pid, escalated } = stage {
        if let ReportView::Event(EventView::ProcessExited { pid: exited, status, success }) =
            report {
            assert forall|unit: Option<Seq<char>>| #[trigger]
                is_exit_of(units, exited, unit) && exited == pid implies unit == Some(name) by {
                assert(pid_of(units, name) == Some(pid));
                if let Some(n) = unit {
                    assert(pid_of(units, n) == Some(pid));
                }
            }
            assert forall|unit: Option<Seq<char>>| #[trigger]
                is_exit_of(units, exited, unit) implies no_new_processes(
                units,
                exit_in_shutdown(units, unit, status, success),
            ) by {}
            if exited == pid {
                let after = exit_in_shutdown(units, Some(name), status, success);
                assert forall|i: int| left.len() <= i < all.len() implies pid_of(
                    after,
                    #[trigger] all[i],
                ) is None by {
                    if all[i] != name {
                        assert(pid_of(units, all[i]) is None);
                        assert(is_exit_of(units, exited, Some(name)));
                    }
                }
                lemma_stop_clears(after, mode, left, all);
            } else {
                lemma_down_processes(pre, report, out);
                assert forall|i: int| left.len() <= i < all.len() implies pid_of(
                    out.state.units,
                    #[trigger] all[i],
                ) is None || waited_for(stage) == Some(all[i]) by {
                    if pid_of(out.state.units, all[i]) is Some {
                        assert(pid_of(out.state.units, all[i]) == pid_of(units, all[i]));
                    }
                }
            }
        }
    }
}

// Whole runs.

/// How often these effects schedule a restart of the unit.
pub open spec fn scheduled(effects: Seq<EffectView>, n: Seq<char>) -> nat
    decreases effects.len(),
{
    if effects.len() == 0 {
        0
    } else {
        scheduled(effects.drop_last(), n) + match effects.last() {
            EffectView::ScheduleRestart { name, secs } => if name == n {
                1nat
            } else {
                0nat
            },
            _ => 0nat,
        }
    }
}

/// How often the outcomes of a run schedule a restart of the unit.
pub open spec fn scheduled_in_run(outs: Seq<Outcome>, n: Seq<char>) -> nat
    decreases outs.len(),
{
    if outs.len() == 0 {
        0
    } else {
        scheduled_in_run(outs.drop_last(), n) + scheduled(outs.last().effects, n)
    }
}

/// The state after the first `k` outcomes of a run.
pub open spec fn state_after(start: SupervisorView, outs: Seq<Outcome>, k: int) -> SupervisorView {
    if k <= 0 {
        start
    } else {
        outs[k - 1].state
    }
}

/// The reports lead from `start` through these outcomes.
pub open spec fn is_run(
    start: SupervisorView,
    reports: Seq<ReportView>,
    outs: Seq<Outcome>,
) -> bool {
    &&& reports.len() == outs.len()
    &&& forall|i: int|
        0 <= i < outs.len() ==> step(
            state_after(start, outs, i),
            reports[i],
            #[trigger] outs[i],
        )
}

/// The same units, restarted as often.
spec fn same_counts(u: Units, v: Units) -> bool {
    forall|n: Seq<char>|
        #![trigger u.contains_key(n)]
        #![trigger v.contains_key(n)]
        (u.contains_key(n) <==> v.contains_key(n)) && (u.contains_key(n) ==> u[n].auto_restarts
            == v[n].auto_restarts && u[n].restart_count == v[n].restart_count)
}

proof fn lemma_boot_keeps_counts(units: Units, order: Seq<Seq<char>>, k: int)
    ensures
        same_counts(units, boot_from(units, order, k).0),
    decreases order.len() - k,
{
    if 0 <= k < order.len() && !calls_for_spawn(units, order[k]) {
        let tried = start_tried(units, order[k]);
        assert(same_counts(units, tried));
        lemma_boot_keeps_counts(tried, order, k + 1);
        assert forall|n: Seq<char>| #[trigger] units.contains_key(n) <==> tried.contains_key(n) by {}
    }
}

proof fn lemma_stop_keeps_counts(units: Units, mode: ShutdownMode, left: Seq<Seq<char>>)
    ensures
        same_counts(units, stop_next(units, mode, left).0),
    decreases left.len(),
{
    if left.len() > 0 && pid_of(units, left.last()) is None {
        lemma_stop_keeps_counts(units, mode, left.drop_last());
    }
}

proof fn lemma_scheduled(effects: Seq<EffectView>, n: Seq<char>)
    ensures
        effects.len() == 0 ==> scheduled(effects, n) == 0,
        effects.len() == 1 ==> scheduled(effects, n) == match effects[0] {
            EffectView::ScheduleRestart { name, secs } => if name == n {
                1nat
            } else {
                0nat
            },
            _ => 0nat,
        },
        effects.len() == 2 && !(effects[0] is ScheduleRestart) && !(
        effects[1] is ScheduleRestart) ==> scheduled(effects, n) == 0,
{
    reveal_with_fuel(scheduled, 3);
}

/// The counts of a unit before and after an exit, and the restarts that the exit
/// schedules, fit together.
spec fn exit_counts(
    before: Units,
    after: Units,
    effects: Seq<EffectView>,
    n: Seq<char>,
) -> bool {
    &&& after.contains_key(n) <==> before.contains_key(n)
    &&& before.contains_key(n) ==> after[n].auto_restarts == before[n].auto_restarts + scheduled(
        effects,
        n,
    ) && after[n].restart_count >= before[n].restart_count
    &&& !before.contains_key(n) ==> scheduled(effects, n) == 0
}

proof fn lemma_exit_counts(
    units: Units,
    pid: u32,
    unit: Option<Seq<char>>,
    status: Seq<char>,
    success: bool,
    n: Seq<char>,
)
    requires
        units_valid(units),
        is_exit_of(units, pid, unit),
    ensures
        exit_counts(
            units,
            exit_handled(units, unit, status, success),
            exit_effects(units, unit, success),
            n,
        ),
        exit_counts(
            units,
            exit_in_shutdown(units, unit, status, success),
            effects_in_shutdown(units, unit, success),
            n,
        ),
{
    lemma_scheduled(exit_effects(units, unit, success), n);
    lemma_scheduled(effects_in_shutdown(units, unit, success), n);
    if let Some(name) = unit {
        assert(units.contains_key(name));
    }
}

/// Every step keeps the units, and a unit's policy restarts are counted exactly
/// when they are scheduled. No count falls.
pub proof fn steps_count_restarts(
    pre: SupervisorView,
    report: ReportView,
    out: Outcome,
    n: Seq<char>,
)
    requires
        valid(pre),
        step(pre, report, out),
    ensures
        out.state.units.contains_key(n) <==> pre.units.contains_key(n),
        pre.units.contains_key(n) ==> {
            &&& out.state.units[n].auto_restarts == pre.units[n].auto_restarts + scheduled(
                out.effects,
                n,
            )
            &&& out.state.units[n].restart_count >= pre.units[n].restart_count
        },
        !pre.units.contains_key(n) ==> scheduled(out.effects, n) == 0,
{
    let units = pre.units;
    lemma_scheduled(out.effects, n);
    assert forall|u: Units, mode: ShutdownMode, left: Seq<Seq<char>>| same_counts(
        u,
        (#[trigger] stop_next(u, mode, left)).0,
    ) by {
        lemma_stop_keeps_counts(u, mode, left);
    }
    assert forall|u: Units, order: Seq<Seq<char>>, k: int| same_counts(
        u,
        (#[trigger] boot_from(u, order, k)).0,
    ) by {
        lemma_boot_keeps_counts(u, order, k);
    }
    if let ReportView::Event(EventView::ProcessExited { pid, status, success }) = report {
        assert forall|unit: Option<Seq<char>>| #[trigger] is_exit_of(units, pid, unit) implies (
        exit_counts(
            units,
            exit_handled(units, unit, status, success),
            exit_effects(units, unit, success),
            n,
        ) && exit_counts(
            units,
            exit_in_shutdown(units, unit, status, success),
            effects_in_shutdown(units, unit, success),
            n,
        )) by {
            lemma_exit_counts(units, pid, unit, status, success, n);
        }
    }
    if let TaskView::Booting { name, next } = pre.task {
        if let Some(spawned) = spawn_result(report) {
            let after = spawn_done(units, name, spawned);
            assert(after.contains_key(n) <==> units.contains_key(n));
        }
    }
}

/// Over any run, a unit's policy restarts are scheduled five times at most, and
/// the counts of its restarts never fall: a crash loop ends.
pub proof fn runs_schedule_few_restarts(
    start: SupervisorView,
    reports: Seq<ReportView>,
    outs: Seq<Outcome>,
    n: Seq<char>,
)
    requires
        valid(start),
        is_run(start, reports, outs),
        start.units.contains_key(n),
    ensures
        scheduled_in_run(outs, n) <= MAX_RESTARTS,
        forall|i: int|
            0 <= i <= outs.len() ==> (#[trigger] state_after(
                start,
                outs,
                i,
            )).units.contains_key(n),
        forall|i: int, j: int|
            0 <= i <= j <= outs.len() ==> {
                let (a, b) = (
                    (#[trigger] state_after(start, outs, i)).units[n],
                    (#[trigger] state_after(start, outs, j)).units[n],
                );
                a.auto_restarts <= b.auto_restarts && a.restart_count <= b.restart_count
            },
{
    let last = outs.len() as int;
    lemma_run(start, reports, outs, n, last);
    assert(outs.take(last) =~= outs);
    assert(state_after(start, outs, last).units[n].valid());
    assert forall|i: int| 0 <= i <= last implies (#[trigger] state_after(
        start,
        outs,
        i,
    )).units.contains_key(n) by {
        lemma_run(start, reports, outs, n, i);
    }
    assert forall|i: int, j: int| 0 <= i <= j <= last implies ({
        let (a, b) = (
            (#[trigger] state_after(start, outs, i)).units[n],
            (#[trigger] state_after(start, outs, j)).units[n],
        );
        a.auto_restarts <= b.auto_restarts && a.restart_count <= b.restart_count
    }) by {
        lemma_counts_grow(start, reports, outs, n, i, j);
    }
}

/// A run from its start to the `k`th outcome.
proof fn lemma_run(
    start: SupervisorView,
    reports: Seq<ReportView>,
    outs: Seq<Outcome>,
    n: Seq<char>,
    k: int,
)
    requires
        valid(start),
        is_run(start, reports, outs),
        start.units.contains_key(n),
        0 <= k <= outs.len(),
    ensures
        valid(state_after(start, outs, k)),
        state_after(start, outs, k).units.contains_key(n),
        state_after(start, outs, k).units[n].auto_restarts == start.units[n].auto_restarts
            + scheduled_in_run(outs.take(k), n),
    decreases k,
{
    if k > 0 {
        lemma_run(start, reports, outs, n, k - 1);
        lemma_run_step(start, reports, outs, n, k - 1);
        assert(outs.take(k).drop_last() =~= outs.take(k - 1));
        assert(outs.take(k).last() == outs[k - 1]);
    }
}

/// One step of a run.
proof fn lemma_run_step(
    start: SupervisorView,
    reports: Seq<ReportView>,
    outs: Seq<Outcome>,
    n: Seq<char>,
    k: int,
)
    requires
        is_run(start, reports, outs),
        0 <= k < outs.len(),
        valid(state_after(start, outs, k)),
        state_after(start, outs, k).units.contains_key(n),
    ensures
        valid(outs[k].state),
        outs[k].state.units.contains_key(n),
        outs[k].state.units[n].auto_restarts == state_after(start, outs, k).units[n].auto_restarts
            + scheduled(outs[k].effects, n),
        outs[k].state.units[n].restart_count >= state_after(
            start,
            outs,
            k,
        ).units[n].restart_count,
{
    let pre = state_after(start, outs, k);
    assert(step(pre, reports[k], outs[k]));
    steps_keep_validity(pre, reports[k], outs[k]);
    steps_count_restarts(pre, reports[k], outs[k], n);
}

proof fn lemma_counts_grow(
    start: SupervisorView,
    reports: Seq<ReportView>,
    outs: Seq<Outcome>,
    n: Seq<char>,
    i: int,
    j: int,
)
    requires
        valid(start),
        is_run(start, reports, outs),
        start.units.contains_key(n),
        0 <= i <= j <= outs.len(),
    ensures
        state_after(start, outs, i).units[n].auto_restarts <= state_after(
            start,
            outs,
            j,
        ).units[n].auto_restarts,
        state_after(start, outs, i).units[n].restart_count <= state_after(
            start,
            outs,
            j,
        ).units[n].restart_count,
    decreases j - i,
{
    if i < j {
        lemma_counts_grow(start, reports, outs, n, i, j - 1);
        lemma_run(start, reports, outs, n, j - 1);
        lemma_run_step(start, reports, outs, n, j - 1);
    }
}

/// Starting a daemon: what was loaded and begun to be started is a valid state
/// in which no unit has been restarted.
pub proof fn runs_start_without_restarts(
    configs: Seq<UnitConfig>,
    order: Seq<Seq<char>>,
    n: Seq<char>,
)
    ensures
        ({
            let (units, task) = boot_from(with_loaded(Map::empty(), configs), order, 0);
            &&& valid(SupervisorView { units, boot_order: order, task })
            &&& units.contains_key(n) ==> units[n].auto_restarts == 0 && units[n].restart_count == 0
        }),
{
    let loaded = with_loaded(Map::empty(), configs);
    assert forall|m: Seq<char>| #[trigger] loaded.contains_key(m) implies loaded[m].valid()
        && loaded[m].config.name@ == m && loaded[m].auto_restarts == 0 && loaded[m].restart_count
        == 0 by {
        loading_adds_the_units(Map::empty(), configs, m);
        lemma_definition_name(configs, m);
    }
    assert(units_valid(loaded));
    lemma_boot_keeps_validity(loaded, order, 0);
    lemma_boot_keeps_counts(loaded, order, 0);
}

proof fn lemma_definition_name(configs: Seq<UnitConfig>, n: Seq<char>)
    ensures
        last_definition(configs, n) matches Some(c) ==> c.name@ == n,
    decreases configs.len(),
{
    if configs.len() > 0 {
        lemma_definition_name(configs.drop_last(), n);
    }
}

} // verus!
