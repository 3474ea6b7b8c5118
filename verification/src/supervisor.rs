//! The supervisor: all unit state, and every decision about it.
//!
//! A [`Supervisor`] is driven by the program around it. It asks for one thing
//! at a time and is told how that went; [`crate::model`] says what it makes of
//! the answers.

use crate::config::UnitConfig;
use crate::model::{
    boot_from, calls_for_spawn, down_step, effects_in_shutdown, exit_effects, exit_handled,
    exit_in_shutdown, exit_recorded, exit_spawns, is_exit_of, is_listing, no_such_unit,
    not_running, pid_of, request_handled, requested_shutdown, restart_dropped, spawn_done,
    spawn_result, start_handled, start_tried, step, stop_begun, stop_for_good, stop_next,
    stops_for_good, valid, waiting_step, watching_step, EffectView, EventView, NextView,
    Outcome, ReactionView, ReportView, StageView, SupervisorView, TaskView, Units,
};
use crate::order::strings;
use crate::proto::{text_of, Request, Response, ResponseView, UnitInfo};
use crate::registry::{AfterExit, RuntimeView, UnitRuntime};
use crate::sort::{in_key_order, sort_by_key, Keyed};
use crate::text::{
    bytes_lt, bytes_lt_total, decimal_text, name_lt, same_bytes_same_string, same_text,
};
use std::path::PathBuf;
use vstd::prelude::*;
use vstd::seq_lib::*;
use vstd::string::*;

verus! {

/// Pause before a unit is restarted by its policy.
pub const RESTART_BACKOFF_SECS: u64 = 1;

/// How long a unit may take to terminate during a shutdown before it is killed.
pub const STOP_TIMEOUT_SECS: u64 = 5;

/// How long a killed unit may take to exit before it is given up.
pub const KILL_GRACE_SECS: u64 = 2;

/// What becomes of the machine at the end of a shutdown.
#[derive(Clone, Copy, PartialEq, Eq, Structural, Debug)]
pub enum ShutdownMode {
    Reboot,
    Poweroff,
    Halt,
}

/// The word for a shutdown mode.
pub open spec fn mode_word(m: ShutdownMode) -> Seq<char> {
    match m {
        ShutdownMode::Reboot => "reboot"@,
        ShutdownMode::Poweroff => "poweroff"@,
        ShutdownMode::Halt => "halt"@,
    }
}

impl ShutdownMode {
    /// The shutdown that a request asks for, if it asks for one.
    pub fn from_request(req: &Request) -> (r: Option<ShutdownMode>)
        ensures
            r == requested_shutdown(req@),
            r == Some(ShutdownMode::Reboot) <==> req is Reboot,
            r == Some(ShutdownMode::Poweroff) <==> req is Poweroff,
            r == Some(ShutdownMode::Halt) <==> req is Halt,
    {
        match req {
            Request::Reboot => Some(ShutdownMode::Reboot),
            Request::Poweroff => Some(ShutdownMode::Poweroff),
            Request::Halt => Some(ShutdownMode::Halt),
            _ => None,
        }
    }

    /// The word for this mode.
    pub fn as_str(self) -> (r: &'static str)
        ensures
            r@ == mode_word(self),
            self is Reboot ==> r@ == "reboot"@,
            self is Poweroff ==> r@ == "poweroff"@,
            self is Halt ==> r@ == "halt"@,
    {
        match self {
            ShutdownMode::Reboot => "reboot",
            ShutdownMode::Poweroff => "poweroff",
            ShutdownMode::Halt => "halt",
        }
    }
}

/// A step of bringing the machine down, once every unit is stopped.
#[derive(Clone, Copy, PartialEq, Eq, Structural, Debug)]
pub enum FinalStep {
    /// Write out what file systems hold back.
    Sync,
    /// Run [`unmount_command`].
    UnmountAll,
    /// Reboot, power off or halt the machine.
    Reboot(ShutdownMode),
    /// Exit with this code. If the machine goes down, this is not reached.
    Exit { code: i32 },
}

/// How a shutdown ends. Only the init process touches the machine; any other
/// just exits.
pub open spec fn final_steps(pid1: bool, mode: ShutdownMode) -> Seq<FinalStep> {
    if pid1 {
        seq![
            FinalStep::Sync,
            FinalStep::UnmountAll,
            FinalStep::Reboot(mode),
            FinalStep::Exit { code: 0 },
        ]
    } else {
        seq![FinalStep::Exit { code: 0 }]
    }
}

impl ShutdownMode {
    /// What is left to do when every unit is stopped.
    pub fn finish(self, pid1: bool) -> (r: Vec<FinalStep>)
        ensures
            r@ == final_steps(pid1, self),
            r@.last() == (FinalStep::Exit { code: 0 }),
            !pid1 ==> r@.len() == 1,
            pid1 ==> r@.len() == 4 && r@[0] == FinalStep::Sync && r@[1] == FinalStep::UnmountAll
                && r@[2] == FinalStep::Reboot(self),
    {
        let mut steps: Vec<FinalStep> = Vec::new();
        if pid1 {
            steps.push(FinalStep::Sync);
            steps.push(FinalStep::UnmountAll);
            steps.push(FinalStep::Reboot(self));
        }
        steps.push(FinalStep::Exit { code: 0 });
        assert(steps@ =~= final_steps(pid1, self));
        steps
    }
}

/// The command that unmounts everything: the program, then its arguments.
pub fn unmount_command() -> (r: Vec<&'static str>)
    ensures
        r@.map_values(|w: &'static str| w@) == seq!["umount"@, "-a"@, "-r"@],
{
    let r = vec!["umount", "-a", "-r"];
    assert(r@.map_values(|w: &'static str| w@) =~= seq!["umount"@, "-a"@, "-r"@]);
    r
}

/// The file in the log directory that takes a unit's output.
pub fn log_file_name(unit: &str) -> (r: String)
    ensures
        r@ == unit@ + ".log"@,
{
    let mut s = unit.to_owned();
    s.append(".log");
    s
}

/// Something that happened.
#[derive(Debug)]
pub enum Event {
    /// A client asks for something and awaits the answer on `conn`.
    Command { req: Request, conn: u64 },
    /// A process exited, which may or may not be that of a unit.
    ProcessExited { pid: u32, status: String, success: bool },
    /// The daemon itself was asked to go down.
    Shutdown(ShutdownMode),
    /// The pause before a unit's restart is over.
    RestartDue(String),
}

impl View for Event {
    type V = EventView;

    open spec fn view(&self) -> EventView {
        match self {
            Event::Command { req, conn } => EventView::Command { req: req@, conn: *conn },
            Event::ProcessExited { pid, status, success } => EventView::ProcessExited {
                pid: *pid,
                status: status@,
                success: *success,
            },
            Event::Shutdown(mode) => EventView::Shutdown(*mode),
            Event::RestartDue(name) => EventView::RestartDue(name@),
        }
    }
}

/// How the thing went that the supervisor asked for.
#[derive(Debug)]
pub enum Report {
    /// An event was received.
    Event(Event),
    /// No more events can be received.
    Closed,
    /// The deadline passed without an event.
    DeadlinePassed,
    /// The process was spawned.
    Spawned(u32),
    /// The process could not be spawned.
    NotSpawned,
    /// The signal was sent.
    Signalled,
    /// The signal could not be sent, for this reason.
    NotSignalled(String),
}

impl View for Report {
    type V = ReportView;

    open spec fn view(&self) -> ReportView {
        match self {
            Report::Event(e) => ReportView::Event(e@),
            Report::Closed => ReportView::Closed,
            Report::DeadlinePassed => ReportView::DeadlinePassed,
            Report::Spawned(pid) => ReportView::Spawned(*pid),
            Report::NotSpawned => ReportView::NotSpawned,
            Report::Signalled => ReportView::Signalled,
            Report::NotSignalled(reason) => ReportView::NotSignalled(reason@),
        }
    }
}

/// Something to be done without an answer.
#[derive(Debug)]
pub enum Effect {
    /// Answer a client.
    Reply { conn: u64, resp: Response },
    /// Report [`Event::RestartDue`] after so many seconds.
    ScheduleRestart { name: String, secs: u64 },
    /// Send SIGKILL.
    ForceKill { pid: u32 },
    /// Let the deadline be so many seconds from now.
    SetDeadline { secs: u64 },
}

impl View for Effect {
    type V = EffectView;

    open spec fn view(&self) -> EffectView {
        match self {
            Effect::Reply { conn, resp } => EffectView::Reply { conn: *conn, resp: resp@ },
            Effect::ScheduleRestart { name, secs } => EffectView::ScheduleRestart {
                name: name@,
                secs: *secs,
            },
            Effect::ForceKill { pid } => EffectView::ForceKill { pid: *pid },
            Effect::SetDeadline { secs } => EffectView::SetDeadline { secs: *secs },
        }
    }
}

/// What the supervisor asks for, to be answered with a [`Report`].
#[derive(Debug)]
pub enum Next {
    /// Wait for an event.
    Receive,
    /// Wait for an event until the deadline.
    ReceiveUntilDeadline,
    /// Spawn the unit's process.
    Spawn { name: String },
    /// Send SIGTERM.
    Terminate { pid: u32 },
    /// Every unit was stopped or given up: bring the machine down.
    GoDown { mode: ShutdownMode },
    /// There is nothing more to do.
    Exit,
}

impl View for Next {
    type V = NextView;

    open spec fn view(&self) -> NextView {
        match self {
            Next::Receive => NextView::Receive,
            Next::ReceiveUntilDeadline => NextView::ReceiveUntilDeadline,
            Next::Spawn { name } => NextView::Spawn { name: name@ },
            Next::Terminate { pid } => NextView::Terminate { pid: *pid },
            Next::GoDown { mode } => NextView::GoDown { mode: *mode },
            Next::Exit => NextView::Exit,
        }
    }
}

/// What the program is to do: first the effects, in order, then `next`.
#[derive(Debug)]
pub struct Step {
    pub effects: Vec<Effect>,
    pub next: Next,
}

/// The effects as plain values.
pub open spec fn effect_views(s: Seq<Effect>) -> Seq<EffectView> {
    s.map_values(|e: Effect| e@)
}

/// What a request needs before it can be answered.
#[derive(Debug)]
pub enum Reaction {
    /// Nothing: this is the answer.
    Answer(Response),
    /// The unit's process is to be spawned.
    Start { name: String },
    /// The process is to be asked to terminate.
    Stop { name: String, pid: u32 },
}

impl View for Reaction {
    type V = ReactionView;

    open spec fn view(&self) -> ReactionView {
        match self {
            Reaction::Answer(resp) => ReactionView::Answer(resp@),
            Reaction::Start { name } => ReactionView::Start { name: name@ },
            Reaction::Stop { name, pid } => ReactionView::Stop { name: name@, pid: *pid },
        }
    }
}

#[derive(Debug)]
enum Stage {
    Terminating { name: String, pid: u32 },
    Watching { name: String, pid: u32, escalated: bool },
    Finished,
}

#[derive(Debug)]
enum Task {
    Waiting,
    Booting { name: String, next: usize },
    Starting { name: String, conn: Option<u64> },
    Terminating { name: String, pid: u32, conn: u64 },
    Down { mode: ShutdownMode, left: Vec<String>, stage: Stage },
    Closed,
}

spec fn stage_view(s: Stage) -> StageView {
    match s {
        Stage::Terminating { name, pid } => StageView::Terminating { name: name@, pid },
        Stage::Watching { name, pid, escalated } => StageView::Watching {
            name: name@,
            pid,
            escalated,
        },
        Stage::Finished => StageView::Finished,
    }
}

spec fn task_view(t: Task) -> TaskView {
    match t {
        Task::Waiting => TaskView::Waiting,
        Task::Booting { name, next } => TaskView::Booting { name: name@, next: next as int },
        Task::Starting { name, conn } => TaskView::Starting { name: name@, conn },
        Task::Terminating { name, pid, conn } => TaskView::Terminating { name: name@, pid, conn },
        Task::Down { mode, left, stage } => TaskView::Down {
            mode,
            left: strings(left@),
            stage: stage_view(stage),
        },
        Task::Closed => TaskView::Closed,
    }
}

/// The supervisor: every unit by its name, and what is being done about them.
#[derive(Debug)]
pub struct Supervisor {
    units: Vec<UnitRuntime>,
    /// The order in which units were started at boot.
    boot_order: Vec<String>,
    /// Where the output of units goes.
    log_dir: PathBuf,
    task: Task,
}

/// The unit at `i` has this name.
spec fn named(s: Seq<UnitRuntime>, i: int, n: Seq<char>) -> bool {
    0 <= i < s.len() && s[i].config.name@ == n
}

/// No two units share a name.
spec fn distinct(s: Seq<UnitRuntime>) -> bool {
    forall|i: int, j: int|
        0 <= i < j < s.len() ==> (#[trigger] s[i]).config.name@ != (#[trigger] s[j]).config.name@
}

spec fn units_view(s: Seq<UnitRuntime>) -> Units {
    Map::new(
        |n: Seq<char>| exists|i: int| named(s, i, n),
        |n: Seq<char>| s[choose|i: int| named(s, i, n)]@,
    )
}

proof fn lemma_lookup(s: Seq<UnitRuntime>, i: int)
    requires
        distinct(s),
        0 <= i < s.len(),
    ensures
        units_view(s).contains_key(s[i].config.name@),
        units_view(s)[s[i].config.name@] == s[i]@,
{
    let n = s[i].config.name@;
    assert(named(s, i, n));
    let k = choose|k: int| named(s, k, n);
    if k < i {
        assert(s[k].config.name@ != s[i].config.name@);
    } else if i < k {
        assert(s[i].config.name@ != s[k].config.name@);
    }
}

proof fn lemma_update(s: Seq<UnitRuntime>, t: Seq<UnitRuntime>, i: int)
    requires
        distinct(s),
        0 <= i < s.len(),
        t == s.update(i, t[i]),
        t[i].config.name@ == s[i].config.name@,
    ensures
        distinct(t),
        units_view(t) == units_view(s).insert(s[i].config.name@, t[i]@),
{
    assert(distinct(t)) by {
        assert forall|a: int, b: int| 0 <= a < b < t.len() implies (#[trigger] t[a]).config.name@
            != (#[trigger] t[b]).config.name@ by {
            assert(s[a].config.name@ != s[b].config.name@);
        }
    }
    let (u, v) = (units_view(t), units_view(s).insert(s[i].config.name@, t[i]@));
    assert forall|n: Seq<char>| #[trigger] u.contains_key(n) <==> v.contains_key(n) by {
        if u.contains_key(n) {
            let k = choose|k: int| named(t, k, n);
            assert(named(s, k, n));
        }
        if units_view(s).contains_key(n) {
            let k = choose|k: int| named(s, k, n);
            assert(named(t, k, n));
        }
        assert(named(t, i, s[i].config.name@));
    }
    assert forall|n: Seq<char>| #[trigger] u.contains_key(n) implies u[n] == v[n] by {
        let k = choose|k: int| named(t, k, n);
        lemma_lookup(t, k);
        lemma_lookup(s, k);
        if k != i {
            if k < i {
                assert(s[k].config.name@ != s[i].config.name@);
            } else {
                assert(s[i].config.name@ != s[k].config.name@);
            }
        }
    }
    assert(u =~= v);
}

proof fn lemma_push(s: Seq<UnitRuntime>, x: UnitRuntime)
    requires
        distinct(s),
        forall|i: int| 0 <= i < s.len() ==> (#[trigger] s[i]).config.name@ != x.config.name@,
    ensures
        distinct(s.push(x)),
        units_view(s.push(x)) == units_view(s).insert(x.config.name@, x@),
{
    let t = s.push(x);
    let n0 = x.config.name@;
    let (u, v) = (units_view(t), units_view(s).insert(n0, x@));
    assert(named(t, s.len() as int, n0));
    assert forall|n: Seq<char>| #[trigger] u.contains_key(n) <==> v.contains_key(n) by {
        if u.contains_key(n) {
            let k = choose|k: int| named(t, k, n);
            if k < s.len() {
                assert(named(s, k, n));
            }
        }
        if units_view(s).contains_key(n) {
            let k = choose|k: int| named(s, k, n);
            assert(named(t, k, n));
        }
    }
    assert forall|n: Seq<char>| #[trigger] u.contains_key(n) implies u[n] == v[n] by {
        let k = choose|k: int| named(t, k, n);
        lemma_lookup(t, k);
        if k < s.len() {
            lemma_lookup(s, k);
            assert(s[k].config.name@ != n0);
        }
    }
    assert(u =~= v);
}

impl View for Supervisor {
    type V = SupervisorView;

    closed spec fn view(&self) -> SupervisorView {
        SupervisorView {
            units: units_view(self.units@),
            boot_order: strings(self.boot_order@),
            task: task_view(self.task),
        }
    }
}

impl Supervisor {
    /// What holds of every supervisor.
    pub closed spec fn wf(&self) -> bool {
        &&& distinct(self.units@)
        &&& valid(self@)
    }

    /// Where the output of units goes.
    pub closed spec fn log_dir_spec(&self) -> PathBuf {
        self.log_dir
    }

    /// A supervisor without units.
    pub fn new(log_dir: PathBuf) -> (r: Supervisor)
        ensures
            r.wf(),
            r@ == (SupervisorView {
                units: Map::empty(),
                boot_order: seq![],
                task: TaskView::Waiting,
            }),
            r.log_dir_spec() == log_dir,
    {
        let r = Supervisor {
            units: Vec::new(),
            boot_order: Vec::new(),
            log_dir,
            task: Task::Waiting,
        };
        assert(r@.units =~= Map::empty());
        assert(r@.boot_order =~= seq![]);
        r
    }

    /// Where the output of units goes.
    pub fn log_dir(&self) -> (r: &PathBuf)
        ensures
            *r == self.log_dir_spec(),
    {
        &self.log_dir
    }

    fn position(&self, name: &str) -> (r: Option<usize>)
        requires
            self.wf(),
        ensures
            match r {
                Some(i) => {
                    &&& named(self.units@, i as int, name@)
                    &&& self@.units.contains_key(name@)
                    &&& self@.units[name@] == self.units@[i as int]@
                },
                None => {
                    &&& !self@.units.contains_key(name@)
                    &&& forall|i: int|
                        0 <= i < self.units@.len() ==> (#[trigger] self.units@[i]).config.name@
                            != name@
                },
            },
    {
        let mut i: usize = 0;
        while i < self.units.len()
            invariant
                i <= self.units.len(),
                self.wf(),
                forall|j: int|
                    0 <= j < i ==> (#[trigger] self.units@[j]).config.name@ != name@,
            decreases self.units.len() - i,
        {
            if same_text(self.units[i].config.name.as_str(), name) {
                proof {
                    lemma_lookup(self.units@, i as int);
                }
                return Some(i);
            }
            i = i + 1;
        }
        None
    }

    /// The unit of this name.
    pub fn unit(&self, name: &str) -> (r: Option<&UnitRuntime>)
        requires
            self.wf(),
        ensures
            match r {
                Some(u) => self@.units.contains_key(name@) && u@ == self@.units[name@],
                None => !self@.units.contains_key(name@),
            },
    {
        match self.position(name) {
            Some(i) => Some(&self.units[i]),
            None => None,
        }
    }

    /// Whether the supervisor waits for an event and does nothing else.
    pub fn idle(&self) -> (r: bool)
        ensures
            r == (self@.task == TaskView::Waiting),
    {
        match self.task {
            Task::Waiting => true,
            _ => false,
        }
    }

    /// Adds units that have not been started. A unit of the same name that is
    /// already there is forgotten.
    pub fn load(&mut self, configs: Vec<UnitConfig>)
        requires
            old(self).wf(),
            old(self)@.task == TaskView::Waiting,
        ensures
            final(self).wf(),
            final(self)@ == (SupervisorView {
                units: with_loaded(old(self)@.units, configs@),
                ..old(self)@
            }),
            final(self).log_dir_spec() == old(self).log_dir_spec(),
    {
        let ghost all = configs@;
        let mut rest = configs;
        let ghost mut done: int = 0;
        assert(rest@ =~= all.skip(0));
        assert(all.take(0) =~= seq![]);
        while rest.len() > 0
            invariant
                self.wf(),
                done >= 0,
                done + rest@.len() == all.len(),
                rest@ == all.skip(done),
                self@ == (SupervisorView {
                    units: with_loaded(old(self)@.units, all.take(done)),
                    ..old(self)@
                }),
                self@.task == TaskView::Waiting,
                self.log_dir_spec() == old(self).log_dir_spec(),
            decreases rest.len(),
        {
            let config = rest.remove(0);
            assert(config == all[done]);
            assert(all.take(done + 1).drop_last() =~= all.take(done));
            assert(rest@ =~= all.skip(done + 1));
            let found = self.position(config.name.as_str());
            let unit = UnitRuntime::new(config);
            let ghost before = self.units@;
            match found {
                Some(i) => {
                    assert(before[i as int].config.name@ == config.name@);
                    self.units.set(i, unit);
                    proof {
                        lemma_replace(before, i as int, unit);
                    }
                },
                None => {
                    self.units.push(unit);
                    proof {
                        lemma_push(before, unit);
                    }
                },
            }
            proof {
                done = done + 1;
            }
        }
        assert(all.take(done) =~= all);
    }

    /// Begins to start a unit. Says whether its process is to be spawned now.
    fn start_unit(&mut self, name: &str) -> (r: bool)
        requires
            old(self).wf(),
            old(self)@.task == TaskView::Waiting,
        ensures
            final(self).wf(),
            final(self)@ == (SupervisorView {
                units: start_tried(old(self)@.units, name@),
                ..old(self)@
            }),
            final(self).log_dir_spec() == old(self).log_dir_spec(),
            r == calls_for_spawn(old(self)@.units, name@),
            r ==> final(self)@.units == old(self)@.units,
    {
        match self.position(name) {
            None => false,
            Some(i) => {
                if self.units[i].up() {
                    return false;
                }
                if self.units[i].config.argv.len() == 0 {
                    let ghost before = self.units@;
                    self.units[i].not_spawned("unit's `exec` list must not be empty".to_owned());
                    proof {
                        lemma_update(before, self.units@, i as int);
                    }
                    false
                } else {
                    true
                }
            },
        }
    }

    /// Notes that the process of a unit was spawned, or could not be.
    fn record_spawn(&mut self, name: &str, pid: Option<u32>)
        requires
            old(self).wf(),
            old(self)@.task == TaskView::Waiting,
            calls_for_spawn(old(self)@.units, name@),
        ensures
            final(self).wf(),
            final(self)@ == (SupervisorView {
                units: spawn_done(old(self)@.units, name@, pid),
                ..old(self)@
            }),
            final(self).log_dir_spec() == old(self).log_dir_spec(),
    {
        if let Some(i) = self.position(name) {
            let ghost before = self.units@;
            match pid {
                Some(p) => {
                    self.units[i].spawned(p);
                },
                None => {
                    let mut reason = "spawning unit '".to_owned();
                    reason.append(name);
                    reason.append("' (");
                    reason.append(self.units[i].config.argv[0].as_str());
                    reason.append(")");
                    self.units[i].not_spawned(reason);
                },
            }
            proof {
                lemma_update(before, self.units@, i as int);
            }
        }
    }

    /// Begins to stop a unit. Gives the process to be asked to terminate, or
    /// says why there is none.
    fn stop_unit(&mut self, name: &str) -> (r: Result<u32, String>)
        requires
            old(self).wf(),
            old(self)@.task == TaskView::Waiting,
        ensures
            final(self).wf(),
            final(self).log_dir_spec() == old(self).log_dir_spec(),
            match r {
                Ok(pid) => {
                    &&& pid_of(old(self)@.units, name@) == Some(pid)
                    &&& final(self)@ == (SupervisorView {
                        units: stop_begun(old(self)@.units, name@),
                        ..old(self)@
                    })
                },
                Err(e) => {
                    &&& pid_of(old(self)@.units, name@) is None
                    &&& final(self)@ == old(self)@
                    &&& e@ == if old(self)@.units.contains_key(name@) {
                        not_running(name@)
                    } else {
                        no_such_unit(name@)
                    }
                },
            },
    {
        match self.position(name) {
            None => {
                let mut e = "no such unit: ".to_owned();
                e.append(name);
                Err(e)
            },
            Some(i) => match self.units[i].pid {
                Some(pid) => {
                    let ghost before = self.units@;
                    self.units[i].stopping();
                    proof {
                        lemma_update(before, self.units@, i as int);
                    }
                    Ok(pid)
                },
                None => {
                    let mut e = name.to_owned();
                    e.append(" is not running");
                    Err(e)
                },
            },
        }
    }

    /// The unit whose process this is.
    pub fn find_unit_by_pid(&self, pid: u32) -> (r: Option<String>)
        requires
            self.wf(),
        ensures
            is_exit_of(self@.units, pid, text_of(r)),
            match r {
                Some(name) => self@.units.contains_key(name@) && self@.units[name@].pid == Some(
                    pid,
                ),
                None => forall|n: Seq<char>| #[trigger]
                    self@.units.contains_key(n) ==> self@.units[n].pid != Some(pid),
            },
    {
        let mut i: usize = 0;
        while i < self.units.len()
            invariant
                i <= self.units.len(),
                self.wf(),
                forall|j: int| 0 <= j < i ==> (#[trigger] self.units@[j]).pid != Some(pid),
            decreases self.units.len() - i,
        {
            if self.units[i].pid == Some(pid) {
                proof {
                    lemma_lookup(self.units@, i as int);
                }
                return Some(self.units[i].config.name.clone());
            }
            i = i + 1;
        }
        assert forall|n: Seq<char>| pid_of(self@.units, n) != Some(pid) by {
            if self@.units.contains_key(n) {
                let k = choose|k: int| named(self.units@, k, n);
                lemma_lookup(self.units@, k);
            }
        }
        None
    }

    /// Deals with the exit of a process, short of spawning anything. Gives the
    /// unit whose process is to be spawned now, and the effects.
    fn handle_exit(&mut self, pid: u32, status: String, success: bool) -> (r: (
        Option<String>,
        Vec<Effect>,
    ))
        requires
            old(self).wf(),
            old(self)@.task == TaskView::Waiting,
        ensures
            final(self).wf(),
            final(self).log_dir_spec() == old(self).log_dir_spec(),
            exists|unit: Option<Seq<char>>| #[trigger]
                is_exit_of(old(self)@.units, pid, unit) && final(self)@ == (SupervisorView {
                    units: exit_handled(old(self)@.units, unit, status@, success),
                    ..old(self)@
                }) && text_of(r.0) == exit_spawns(old(self)@.units, unit, status@, success)
                    && effect_views(r.1@) == exit_effects(old(self)@.units, unit, success),
            match r.0 {
                Some(name) => calls_for_spawn(final(self)@.units, name@),
                None => true,
            },
    {
        let mut effects: Vec<Effect> = Vec::new();
        let ghost units0 = self@.units;
        let ghost text = status@;
        let name = match self.find_unit_by_pid(pid) {
            Some(name) => name,
            None => {
                assert(effect_views(effects@) =~= seq![]);
                assert(is_exit_of(units0, pid, None));
                return (None, effects);
            },
        };
        let ghost unit = Some(name@);
        assert(is_exit_of(units0, pid, unit));
        let i = match self.position(name.as_str()) {
            Some(i) => i,
            None => 0,
        };
        let ghost before = self.units@;
        let fate = self.units[i].exited(status, success);
        proof {
            lemma_update(before, self.units@, i as int);
        }
        assert(self@.units == exit_recorded(units0, unit, text, success));
        match fate {
            AfterExit::RestartNow => {
                let spawn = self.start_unit(name.as_str());
                assert(effect_views(effects@) =~= seq![]);
                if spawn {
                    (Some(name), effects)
                } else {
                    (None, effects)
                }
            },
            AfterExit::RestartLater => {
                effects.push(Effect::ScheduleRestart { name, secs: RESTART_BACKOFF_SECS });
                assert(effect_views(effects@) =~= exit_effects(units0, unit, success));
                (None, effects)
            },
            AfterExit::StayDown => {
                assert(effect_views(effects@) =~= seq![]);
                (None, effects)
            },
        }
    }

    /// Deals with the exit of a process during a shutdown, which starts nothing
    /// again. Gives the effects.
    fn handle_exit_in_shutdown(&mut self, pid: u32, status: String, success: bool) -> (r: Vec<
        Effect,
    >)
        requires
            old(self).wf(),
            old(self)@.task == TaskView::Waiting,
        ensures
            final(self).wf(),
            final(self).log_dir_spec() == old(self).log_dir_spec(),
            exists|unit: Option<Seq<char>>| #[trigger]
                is_exit_of(old(self)@.units, pid, unit) && final(self)@ == (SupervisorView {
                    units: exit_in_shutdown(old(self)@.units, unit, status@, success),
                    ..old(self)@
                }) && effect_views(r@) == effects_in_shutdown(old(self)@.units, unit, success),
    {
        let ghost units0 = self@.units;
        let ghost text = status@;
        let name = match self.find_unit_by_pid(pid) {
            Some(name) => name,
            None => {
                assert(is_exit_of(units0, pid, None));
                return nothing();
            },
        };
        let ghost unit = Some(name@);
        assert(is_exit_of(units0, pid, unit));
        self.drop_restart(name.as_str());
        let i = match self.position(name.as_str()) {
            Some(i) => i,
            None => 0,
        };
        let ghost before = self.units@;
        let fate = self.units[i].exited(status, success);
        proof {
            lemma_update(before, self.units@, i as int);
        }
        assert(self@.units == exit_in_shutdown(units0, unit, text, success));
        match fate {
            AfterExit::RestartLater => just(
                Effect::ScheduleRestart { name, secs: RESTART_BACKOFF_SECS },
            ),
            _ => nothing(),
        }
    }

    /// What clients are told about all units, in the order of their names.
    fn list(&self) -> (r: Vec<UnitInfo>)
        requires
            self.wf(),
        ensures
            is_listing(self@.units, r@.map_values(|u: UnitInfo| u@)),
    {
        let mut raw: Vec<UnitInfo> = Vec::new();
        let mut i: usize = 0;
        while i < self.units.len()
            invariant
                i <= self.units.len(),
                raw.len() == i,
                forall|j: int| 0 <= j < i ==> (#[trigger] raw@[j])@ == self.units@[j]@.info(),
            decreases self.units.len() - i,
        {
            raw.push(self.units[i].to_info());
            i = i + 1;
        }
        let ghost given = raw@;
        let sorted = sort_by_key(raw);
        proof {
            lemma_listing(self.units@, given, sorted@);
        }
        sorted
    }

    /// Handles a request that does not ask for a shutdown, short of spawning
    /// or signalling anything.
    fn handle_request(&mut self, req: Request) -> (r: Reaction)
        requires
            old(self).wf(),
            old(self)@.task == TaskView::Waiting,
        ensures
            final(self).wf(),
            final(self).log_dir_spec() == old(self).log_dir_spec(),
            final(self)@ == (SupervisorView { units: final(self)@.units, ..old(self)@ }),
            request_handled(old(self)@.units, req@, final(self)@.units, r@),
            match r {
                Reaction::Start { name } => calls_for_spawn(final(self)@.units, name@),
                _ => true,
            },
    {
        match req {
            Request::ListUnits => Reaction::Answer(Response::Units(self.list())),
            Request::Status { name } => match self.position(name.as_str()) {
                Some(i) => Reaction::Answer(Response::Unit(self.units[i].to_info())),
                None => Reaction::Answer(unknown(name.as_str())),
            },
            Request::Start { name } => self.start_for_client(name),
            Request::Stop { name } => match self.stop_unit(name.as_str()) {
                Ok(pid) => Reaction::Stop { name, pid },
                Err(e) => Reaction::Answer(Response::Error(e)),
            },
            Request::Restart { name } => {
                let ghost units0 = self@.units;
                let at = match self.position(name.as_str()) {
                    Some(i) => i,
                    None => {
                        return self.start_for_client(name);
                    },
                };
                if self.units[at].pid.is_none() {
                    return self.start_for_client(name);
                }
                match self.stop_unit(name.as_str()) {
                    Ok(pid) => {
                        if let Some(i) = self.position(name.as_str()) {
                            let ghost before = self.units@;
                            let ghost stopped = self@.units;
                            self.units[i].pending_restart = true;
                            proof {
                                lemma_update(before, self.units@, i as int);
                                let u = RuntimeView {
                                    pending_restart: true,
                                    ..units0[name@].after_stop()
                                };
                                assert(self.units@[i as int]@ == u);
                                assert(stopped.insert(name@, u) =~= units0.insert(name@, u));
                            }
                        }
                        Reaction::Stop { name, pid }
                    },
                    Err(e) => Reaction::Answer(Response::Error(e)),
                }
            },
            Request::Reboot | Request::Poweroff | Request::Halt => Reaction::Answer(
                Response::Error(
                    "internal error: shutdown request reached handle_request".to_owned(),
                ),
            ),
        }
    }

    fn start_for_client(&mut self, name: String) -> (r: Reaction)
        requires
            old(self).wf(),
            old(self)@.task == TaskView::Waiting,
        ensures
            final(self).wf(),
            final(self).log_dir_spec() == old(self).log_dir_spec(),
            final(self)@ == (SupervisorView { units: final(self)@.units, ..old(self)@ }),
            start_handled(old(self)@.units, name@, final(self)@.units, r@),
            match r {
                Reaction::Start { name } => calls_for_spawn(final(self)@.units, name@),
                _ => true,
            },
    {
        if self.position(name.as_str()).is_none() {
            return Reaction::Answer(unknown(name.as_str()));
        }
        if self.start_unit(name.as_str()) {
            Reaction::Start { name }
        } else {
            Reaction::Answer(Response::Accepted)
        }
    }

    /// Goes through the boot order to the next unit that calls for a spawn.
    fn boot(&mut self, from: usize)
        requires
            old(self).wf(),
            old(self)@.task == TaskView::Waiting,
            from <= old(self)@.boot_order.len(),
        ensures
            final(self).wf(),
            final(self).log_dir_spec() == old(self).log_dir_spec(),
            final(self)@.boot_order == old(self)@.boot_order,
            (final(self)@.units, final(self)@.task) == boot_from(
                old(self)@.units,
                old(self)@.boot_order,
                from as int,
            ),
    {
        let mut k = from;
        while k < self.boot_order.len()
            invariant
                from <= k <= self.boot_order.len(),
                self.wf(),
                self@.task == TaskView::Waiting,
                self@.boot_order == old(self)@.boot_order,
                self.log_dir_spec() == old(self).log_dir_spec(),
                boot_from(old(self)@.units, old(self)@.boot_order, from as int) == boot_from(
                    self@.units,
                    self@.boot_order,
                    k as int,
                ),
            decreases self.boot_order.len() - k,
        {
            let name = self.boot_order[k].clone();
            assert(self@.boot_order[k as int] == name@);
            if self.start_unit(name.as_str()) {
                self.task = Task::Booting { name, next: k + 1 };
                return ;
            }
            k = k + 1;
        }
    }

    /// Drops a restart that is awaited from a unit.
    fn drop_restart(&mut self, name: &str)
        requires
            old(self).wf(),
            old(self)@.task == TaskView::Waiting,
            old(self)@.units.contains_key(name@),
        ensures
            final(self).wf(),
            final(self).log_dir_spec() == old(self).log_dir_spec(),
            final(self)@ == (SupervisorView {
                units: restart_dropped(old(self)@.units, Some(name@)),
                ..old(self)@
            }),
    {
        if let Some(i) = self.position(name) {
            let ghost before = self.units@;
            self.units[i].drop_restart();
            proof {
                lemma_update(before, self.units@, i as int);
            }
        }
    }

    /// Stops the next of the units that are left, or finishes the shutdown.
    fn shutdown(&mut self, mode: ShutdownMode, left: Vec<String>)
        requires
            old(self).wf(),
            old(self)@.task == TaskView::Waiting,
        ensures
            final(self).wf(),
            final(self).log_dir_spec() == old(self).log_dir_spec(),
            final(self)@.boot_order == old(self)@.boot_order,
            (final(self)@.units, final(self)@.task) == stop_next(
                old(self)@.units,
                mode,
                strings(left@),
            ),
    {
        let ghost all = strings(left@);
        let mut rest = left;
        while rest.len() > 0
            invariant
                all == strings(left@),
                self.wf(),
                self@ == old(self)@,
                self@.task == TaskView::Waiting,
                self.log_dir_spec() == old(self).log_dir_spec(),
                stop_next(old(self)@.units, mode, all) == stop_next(
                    self@.units,
                    mode,
                    strings(rest@),
                ),
            decreases rest.len(),
        {
            let ghost before = strings(rest@);
            let name = rest.pop().unwrap();
            assert(before.last() == name@);
            assert(strings(rest@) =~= before.drop_last());
            if let Ok(pid) = self.stop_unit(name.as_str()) {
                self.drop_restart(name.as_str());
                assert(self@.units =~= stop_for_good(old(self)@.units, name@));
                let stage = Stage::Terminating { name, pid };
                self.task = Task::Down { mode, left: rest, stage };
                return ;
            }
        }
        self.task = Task::Down { mode, left: rest, stage: Stage::Finished };
    }

    /// Begins to start the units of the boot order, one after the other.
    pub fn start_all(&mut self, order: &[String]) -> (r: Step)
        requires
            old(self).wf(),
            old(self)@.task == TaskView::Waiting,
        ensures
            final(self).wf(),
            final(self).log_dir_spec() == old(self).log_dir_spec(),
            final(self)@.boot_order == strings(order@),
            (final(self)@.units, final(self)@.task) == boot_from(
                old(self)@.units,
                strings(order@),
                0,
            ),
            effect_views(r.effects@) == Seq::<EffectView>::empty(),
            r.next@ == final(self)@.task.asks(),
    {
        let mut boot_order: Vec<String> = Vec::new();
        let mut i: usize = 0;
        while i < order.len()
            invariant
                i <= order.len(),
                boot_order.len() == i,
                forall|j: int| 0 <= j < i ==> (#[trigger] boot_order@[j])@ == order@[j]@,
            decreases order.len() - i,
        {
            boot_order.push(order[i].clone());
            i = i + 1;
        }
        assert(strings(boot_order@) =~= strings(order@));
        self.boot_order = boot_order;
        self.boot(0);
        self.with_next(nothing())
    }

    /// Takes the answer to what was last asked for, and says what to do now.
    pub fn run(&mut self, report: Report) -> (r: Step)
        requires
            old(self).wf(),
        ensures
            final(self).wf(),
            final(self).log_dir_spec() == old(self).log_dir_spec(),
            step(
                old(self)@,
                report@,
                (Outcome { state: final(self)@, effects: effect_views(r.effects@) }),
            ),
            r.next@ == final(self)@.task.asks(),
    {
        let mut task = Task::Waiting;
        std::mem::swap(&mut task, &mut self.task);
        let effects = match task {
            Task::Waiting => self.wait_for_event(report),
            Task::Booting { name, next } => match spawn_reported(&report) {
                Some(spawned) => {
                    self.record_spawn(name.as_str(), spawned);
                    self.boot(next);
                    nothing()
                },
                None => {
                    self.task = Task::Booting { name, next };
                    nothing()
                },
            },
            Task::Starting { name, conn } => match spawn_reported(&report) {
                Some(spawned) => {
                    self.record_spawn(name.as_str(), spawned);
                    match conn {
                        Some(c) => just(Effect::Reply { conn: c, resp: Response::Accepted }),
                        None => nothing(),
                    }
                },
                None => {
                    self.task = Task::Starting { name, conn };
                    nothing()
                },
            },
            Task::Terminating { name, pid, conn } => match report {
                Report::Signalled => just(Effect::Reply { conn, resp: Response::Accepted }),
                Report::NotSignalled(reason) => {
                    let mut e = "sending SIGTERM to ".to_owned();
                    e.append(name.as_str());
                    e.append(" (pid ");
                    e.append(decimal_text(pid as u64).as_str());
                    e.append("): ");
                    e.append(reason.as_str());
                    just(Effect::Reply { conn, resp: Response::Error(e) })
                },
                _ => {
                    self.task = Task::Terminating { name, pid, conn };
                    nothing()
                },
            },
            Task::Down { mode, left, stage } => self.stop_and_wait(mode, left, stage, report),
            Task::Closed => {
                self.task = Task::Closed;
                nothing()
            },
        };
        self.with_next(effects)
    }

    /// The step of a supervisor that waits for an event.
    fn wait_for_event(&mut self, report: Report) -> (r: Vec<Effect>)
        requires
            old(self).wf(),
            old(self)@.task == TaskView::Waiting,
        ensures
            final(self).wf(),
            final(self).log_dir_spec() == old(self).log_dir_spec(),
            waiting_step(
                old(self)@,
                report@,
                (Outcome { state: final(self)@, effects: effect_views(r@) }),
            ),
    {
        match report {
            Report::Event(Event::Command { req, conn }) => match ShutdownMode::from_request(&req) {
                Some(mode) => {
                    let left = self.take_boot_order();
                    self.shutdown(mode, left);
                    just(Effect::Reply { conn, resp: Response::Accepted })
                },
                None => {
                    let ghost before = self@;
                    let ghost asked = req@;
                    let reaction = self.handle_request(req);
                    let ghost seen = reaction@;
                    assert(request_handled(before.units, asked, self@.units, seen));
                    match reaction {
                        Reaction::Answer(resp) => just(Effect::Reply { conn, resp }),
                        Reaction::Start { name } => {
                            self.task = Task::Starting { name, conn: Some(conn) };
                            nothing()
                        },
                        Reaction::Stop { name, pid } => {
                            self.task = Task::Terminating { name, pid, conn };
                            nothing()
                        },
                    }
                },
            },
            Report::Event(Event::ProcessExited { pid, status, success }) => {
                let (spawn, effects) = self.handle_exit(pid, status, success);
                match spawn {
                    Some(name) => {
                        self.task = Task::Starting { name, conn: None };
                    },
                    None => {},
                }
                effects
            },
            Report::Event(Event::Shutdown(mode)) => {
                let left = self.take_boot_order();
                self.shutdown(mode, left);
                nothing()
            },
            Report::Event(Event::RestartDue(name)) => {
                if self.start_unit(name.as_str()) {
                    self.task = Task::Starting { name, conn: None };
                }
                nothing()
            },
            Report::Closed => {
                self.task = Task::Closed;
                nothing()
            },
            _ => nothing(),
        }
    }

    /// The step of a shutdown, while it stops one unit.
    fn stop_and_wait(
        &mut self,
        mode: ShutdownMode,
        left: Vec<String>,
        stage: Stage,
        report: Report,
    ) -> (r: Vec<Effect>)
        requires
            old(self).wf(),
            old(self)@.task == TaskView::Waiting,
            match stage {
                Stage::Terminating { name, pid } => stops_for_good(old(self)@.units, name@, pid),
                Stage::Watching { name, pid, .. } => stops_for_good(
                    old(self)@.units,
                    name@,
                    pid,
                ),
                Stage::Finished => true,
            },
        ensures
            final(self).wf(),
            final(self).log_dir_spec() == old(self).log_dir_spec(),
            down_step(
                (SupervisorView {
                    task: TaskView::Down { mode, left: strings(left@), stage: stage_view(stage) },
                    ..old(self)@
                }),
                mode,
                strings(left@),
                stage_view(stage),
                report@,
                (Outcome { state: final(self)@, effects: effect_views(r@) }),
            ),
    {
        match stage {
            Stage::Terminating { name, pid } => match report {
                Report::Signalled => {
                    let stage = Stage::Watching { name, pid, escalated: false };
                    self.task = Task::Down { mode, left, stage };
                    just(Effect::SetDeadline { secs: STOP_TIMEOUT_SECS })
                },
                Report::NotSignalled(_) => {
                    self.shutdown(mode, left);
                    nothing()
                },
                _ => {
                    self.task = Task::Down { mode, left, stage: Stage::Terminating { name, pid } };
                    nothing()
                },
            },
            Stage::Watching { name, pid, escalated } => self.watch(
                mode,
                left,
                name,
                pid,
                escalated,
                report,
            ),
            Stage::Finished => {
                self.task = Task::Down { mode, left, stage: Stage::Finished };
                nothing()
            },
        }
    }

    /// The step of a shutdown, while it watches a process that was asked to
    /// terminate.
    fn watch(
        &mut self,
        mode: ShutdownMode,
        left: Vec<String>,
        name: String,
        pid: u32,
        escalated: bool,
        report: Report,
    ) -> (r: Vec<Effect>)
        requires
            old(self).wf(),
            old(self)@.task == TaskView::Waiting,
            stops_for_good(old(self)@.units, name@, pid),
        ensures
            final(self).wf(),
            final(self).log_dir_spec() == old(self).log_dir_spec(),
            watching_step(
                (SupervisorView {
                    task: TaskView::Down {
                        mode,
                        left: strings(left@),
                        stage: StageView::Watching { name: name@, pid, escalated },
                    },
                    ..old(self)@
                }),
                mode,
                strings(left@),
                name@,
                pid,
                escalated,
                report@,
                (Outcome { state: final(self)@, effects: effect_views(r@) }),
            ),
    {
        match report {
            Report::Event(Event::ProcessExited { pid: exited, status, success }) => {
                let over = exited == pid;
                let effects = self.handle_exit_in_shutdown(exited, status, success);
                if over {
                    self.shutdown(mode, left);
                } else {
                    let stage = Stage::Watching { name, pid, escalated };
                    self.task = Task::Down { mode, left, stage };
                }
                effects
            },
            Report::Event(Event::Command { req: _, conn }) => {
                let stage = Stage::Watching { name, pid, escalated };
                self.task = Task::Down { mode, left, stage };
                let resp = Response::Error("apollod is shutting down".to_owned());
                just(Effect::Reply { conn, resp })
            },
            Report::Closed => {
                self.shutdown(mode, left);
                nothing()
            },
            Report::DeadlinePassed => {
                if escalated {
                    self.shutdown(mode, left);
                    nothing()
                } else {
                    let stage = Stage::Watching { name, pid, escalated: true };
                    self.task = Task::Down { mode, left, stage };
                    let mut effects = just(Effect::ForceKill { pid });
                    let ghost first = effects@;
                    effects.push(Effect::SetDeadline { secs: KILL_GRACE_SECS });
                    assert(effect_views(effects@) =~= effect_views(first).push(
                        EffectView::SetDeadline { secs: KILL_GRACE_SECS },
                    ));
                    assert(effect_views(effects@) =~= seq![
                        EffectView::ForceKill { pid },
                        EffectView::SetDeadline { secs: KILL_GRACE_SECS },
                    ]);
                    effects
                }
            },
            _ => {
                let stage = Stage::Watching { name, pid, escalated };
                self.task = Task::Down { mode, left, stage };
                nothing()
            },
        }
    }

    fn take_boot_order(&mut self) -> (r: Vec<String>)
        requires
            old(self).wf(),
            old(self)@.task == TaskView::Waiting,
        ensures
            final(self).wf(),
            final(self).log_dir_spec() == old(self).log_dir_spec(),
            final(self)@ == (SupervisorView { boot_order: seq![], ..old(self)@ }),
            strings(r@) == old(self)@.boot_order,
    {
        let mut order: Vec<String> = Vec::new();
        std::mem::swap(&mut order, &mut self.boot_order);
        assert(self@.boot_order =~= seq![]);
        order
    }

    fn with_next(&self, effects: Vec<Effect>) -> (r: Step)
        ensures
            r.effects == effects,
            r.next@ == self@.task.asks(),
    {
        let next = match &self.task {
            Task::Waiting => Next::Receive,
            Task::Booting { name, .. } => Next::Spawn { name: name.clone() },
            Task::Starting { name, .. } => Next::Spawn { name: name.clone() },
            Task::Terminating { pid, .. } => Next::Terminate { pid: *pid },
            Task::Down { mode, left: _, stage } => match stage {
                Stage::Terminating { name: _, pid } => Next::Terminate { pid: *pid },
                Stage::Watching { .. } => Next::ReceiveUntilDeadline,
                Stage::Finished => Next::GoDown { mode: *mode },
            },
            Task::Closed => Next::Exit,
        };
        Step { effects, next }
    }
}

fn nothing() -> (r: Vec<Effect>)
    ensures
        effect_views(r@) == Seq::<EffectView>::empty(),
{
    let r: Vec<Effect> = Vec::new();
    assert(effect_views(r@) =~= Seq::<EffectView>::empty());
    r
}

fn just(e: Effect) -> (r: Vec<Effect>)
    ensures
        effect_views(r@) == seq![e@],
{
    let mut r: Vec<Effect> = Vec::new();
    r.push(e);
    assert(effect_views(r@) =~= seq![e@]);
    r
}

fn spawn_reported(report: &Report) -> (r: Option<Option<u32>>)
    ensures
        r == spawn_result(report@),
{
    match report {
        Report::Spawned(pid) => Some(Some(*pid)),
        Report::NotSpawned => Some(None),
        _ => None,
    }
}

fn unknown(name: &str) -> (r: Response)
    ensures
        r@ == ResponseView::Error(no_such_unit(name@)),
{
    let mut e = "no such unit: ".to_owned();
    e.append(name);
    Response::Error(e)
}

/// Every supervisor is valid.
pub proof fn supervisors_are_valid(s: Supervisor)
    requires
        s.wf(),
    ensures
        valid(s@),
{
}

proof fn lemma_listing(units: Seq<UnitRuntime>, given: Seq<UnitInfo>, sorted: Seq<UnitInfo>)
    requires
        distinct(units),
        given.len() == units.len(),
        forall|j: int| 0 <= j < given.len() ==> (#[trigger] given[j])@ == units[j]@.info(),
        in_key_order(sorted),
        sorted.to_multiset() == given.to_multiset(),
    ensures
        is_listing(units_view(units), sorted.map_values(|u: UnitInfo| u@)),
{
    broadcast use group_to_multiset_ensures;

    let map = units_view(units);
    let list = sorted.map_values(|u: UnitInfo| u@);
    assert forall|a: int, b: int| 0 <= a < given.len() && 0 <= b < given.len() && a
        != b implies given[a].name@ != given[b].name@ by {
        assert(given[a]@.name == units[a].config.name@);
        assert(given[b]@.name == units[b].config.name@);
        if a < b {
            assert(units[a].config.name@ != units[b].config.name@);
        } else {
            assert(units[b].config.name@ != units[a].config.name@);
        }
    }
    assert(given.no_duplicates());
    given.lemma_multiset_has_no_duplicates();
    sorted.lemma_multiset_has_no_duplicates_conv();
    assert forall|k: int| 0 <= k < sorted.len() implies given.contains(#[trigger] sorted[k]) by {
        assert(sorted.contains(sorted[k]));
        assert(sorted.to_multiset().count(sorted[k]) > 0);
    }
    assert forall|i: int, j: int| 0 <= i < j < list.len() implies name_lt(
        (#[trigger] list[i]).name,
        (#[trigger] list[j]).name,
    ) by {
        let (x, y) = (sorted[i], sorted[j]);
        assert(!bytes_lt(y.key(), x.key()));
        bytes_lt_total(x.key(), y.key());
        if x.key() == y.key() {
            same_bytes_same_string(x.name@, y.name@);
            let a = choose|a: int| 0 <= a < given.len() && given[a] == x;
            let b = choose|b: int| 0 <= b < given.len() && given[b] == y;
            assert(given.contains(x) && given.contains(y));
            assert(a == b);
        }
    }
    assert forall|i: int| 0 <= i < list.len() implies map.contains_key((#[trigger] list[i]).name)
        && list[i] == map[list[i].name].info() by {
        let x = sorted[i];
        assert(given.contains(x));
        let a = choose|a: int| 0 <= a < given.len() && given[a] == x;
        lemma_lookup(units, a);
    }
    assert forall|n: Seq<char>| #[trigger] map.contains_key(n) implies exists|i: int|
        0 <= i < list.len() && (#[trigger] list[i]).name == n by {
        let k = choose|k: int| named(units, k, n);
        assert(given.contains(given[k]));
        assert(given.to_multiset().count(given[k]) > 0);
        assert(sorted.contains(given[k]));
        let i = choose|i: int| 0 <= i < sorted.len() && sorted[i] == given[k];
        assert(list[i].name == n);
    }
}

/// The units with these definitions loaded, one after the other.
pub open spec fn with_loaded(units: Units, configs: Seq<UnitConfig>) -> Units
    decreases configs.len(),
{
    if configs.len() == 0 {
        units
    } else {
        let c = configs.last();
        with_loaded(units, configs.drop_last()).insert(c.name@, RuntimeView::fresh(c))
    }
}

proof fn lemma_replace(s: Seq<UnitRuntime>, i: int, x: UnitRuntime)
    requires
        distinct(s),
        0 <= i < s.len(),
        x.config.name@ == s[i].config.name@,
    ensures
        distinct(s.update(i, x)),
        units_view(s.update(i, x)) == units_view(s).insert(s[i].config.name@, x@),
{
    lemma_update(s, s.update(i, x), i);
}

} // verus!
