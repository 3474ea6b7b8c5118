use apollo::config::{RestartPolicy, UnitConfig};
use apollo::proto::{Request, Response, UnitState};
use apollo::supervisor::{
    log_file_name, unmount_command, Effect, Event, FinalStep, Next, Report, ShutdownMode, Step,
    Supervisor, KILL_GRACE_SECS, RESTART_BACKOFF_SECS, STOP_TIMEOUT_SECS,
};
use std::collections::HashMap;
use std::path::PathBuf;

fn unit(name: &str, restart: RestartPolicy) -> UnitConfig {
    UnitConfig {
        name: name.to_string(),
        argv: vec![format!("/bin/{name}"), "-x".to_string()],
        restart,
        after: Vec::new(),
        env: HashMap::new(),
        working_dir: None,
    }
}

fn loaded(units: Vec<UnitConfig>) -> Supervisor {
    let mut s = Supervisor::new(PathBuf::from("/var/log/apollo"));
    s.load(units);
    s
}

fn order(names: &[&str]) -> Vec<String> {
    names.iter().map(|n| n.to_string()).collect()
}

fn spawns(step: &Step, unit: &str) -> bool {
    step.effects.is_empty() && matches!(&step.next, Next::Spawn { name } if name == unit)
}

fn quiet(step: &Step) -> bool {
    step.effects.is_empty() && matches!(step.next, Next::Receive)
}

fn watches(step: &Step) -> bool {
    step.effects.is_empty() && matches!(step.next, Next::ReceiveUntilDeadline)
}

fn terminates(step: &Step, process: u32) -> bool {
    step.effects.is_empty() && matches!(step.next, Next::Terminate { pid } if pid == process)
}

/// A supervisor whose units run with the processes 101, 102, and so on.
fn running(units: Vec<UnitConfig>) -> Supervisor {
    let names: Vec<String> = units.iter().map(|u| u.name.clone()).collect();
    let mut s = loaded(units);
    let mut step = s.start_all(&names);
    for (i, name) in names.iter().enumerate() {
        assert!(spawns(&step, name));
        step = s.run(Report::Spawned(101 + i as u32));
    }
    assert!(quiet(&step));
    s
}

fn command(s: &mut Supervisor, req: Request, conn: u64) -> Step {
    s.run(Report::Event(Event::Command { req, conn }))
}

fn exited(s: &mut Supervisor, pid: u32, success: bool) -> Step {
    let status = if success { "exit status: 0" } else { "exit status: 1" };
    s.run(Report::Event(Event::ProcessExited { pid, status: status.to_string(), success }))
}

fn reply(step: &Step, to: u64) -> &Response {
    match &step.effects[..] {
        [Effect::Reply { conn, resp }] if *conn == to => resp,
        other => panic!("{other:?}"),
    }
}

fn error(step: &Step, to: u64) -> &str {
    match reply(step, to) {
        Response::Error(e) => e,
        other => panic!("{other:?}"),
    }
}

fn accepted(step: &Step, to: u64) -> bool {
    matches!(reply(step, to), Response::Accepted)
}

fn state(s: &Supervisor, name: &str) -> (UnitState, Option<u32>) {
    let u = s.unit(name).unwrap();
    (u.state, u.pid)
}

fn named(name: &str) -> String {
    name.to_string()
}

#[test]
fn a_new_supervisor_has_no_units() {
    let s = Supervisor::new(PathBuf::from("logs"));
    assert!(s.idle());
    assert!(s.unit("ping").is_none());
    assert_eq!(s.log_dir(), &PathBuf::from("logs"));
}

#[test]
fn loading_a_name_again_replaces_the_unit() {
    let mut s = loaded(vec![unit("ping", RestartPolicy::No), unit("pong", RestartPolicy::No)]);
    s.load(vec![unit("ping", RestartPolicy::Always)]);
    assert_eq!(s.unit("ping").unwrap().config.restart, RestartPolicy::Always);
    assert_eq!(s.unit("pong").unwrap().config.restart, RestartPolicy::No);
}

#[test]
fn units_are_started_in_the_boot_order() {
    let mut s = loaded(vec![unit("b", RestartPolicy::No), unit("a", RestartPolicy::No)]);
    let step = s.start_all(&order(&["b", "gone", "a"]));
    assert!(spawns(&step, "b"));
    assert!(!s.idle());
    assert!(spawns(&s.run(Report::Spawned(7)), "a"));
    assert!(quiet(&s.run(Report::NotSpawned)));
    assert!(s.idle());
    assert_eq!(state(&s, "b"), (UnitState::Running, Some(7)));
    assert_eq!(state(&s, "a"), (UnitState::Failed, None));
    assert_eq!(s.unit("a").unwrap().exit_status.as_deref(), Some("spawning unit 'a' (/bin/a)"));
}

#[test]
fn a_unit_without_a_command_fails_at_once() {
    let mut empty = unit("empty", RestartPolicy::Always);
    empty.argv.clear();
    let mut s = loaded(vec![empty, unit("ping", RestartPolicy::No)]);
    assert!(spawns(&s.start_all(&order(&["empty", "ping"])), "ping"));
    assert_eq!(state(&s, "empty"), (UnitState::Failed, None));
    assert_eq!(
        s.unit("empty").unwrap().exit_status.as_deref(),
        Some("unit's `exec` list must not be empty")
    );
}

#[test]
fn an_empty_boot_order_is_done_at_once() {
    let mut s = loaded(vec![unit("ping", RestartPolicy::No)]);
    assert!(quiet(&s.start_all(&[])));
    assert_eq!(state(&s, "ping"), (UnitState::Loaded, None));
}

#[test]
fn units_are_listed_by_name() {
    let mut s = running(vec![
        unit("sshd", RestartPolicy::No),
        unit("agetty", RestartPolicy::No),
        unit("Xorg", RestartPolicy::No),
    ]);
    let step = command(&mut s, Request::ListUnits, 9);
    assert!(matches!(step.next, Next::Receive));
    match reply(&step, 9) {
        Response::Units(units) => {
            let rows: Vec<_> = units.iter().map(|u| (u.name.as_str(), u.pid)).collect();
            assert_eq!(rows, [("Xorg", Some(103)), ("agetty", Some(102)), ("sshd", Some(101))]);
        }
        other => panic!("{other:?}"),
    }
}

#[test]
fn the_status_of_a_unit_is_told() {
    let mut s = running(vec![unit("ping", RestartPolicy::No)]);
    let step = command(&mut s, Request::Status { name: named("ping") }, 1);
    match reply(&step, 1) {
        Response::Unit(u) => {
            assert_eq!((u.name.as_str(), u.state, u.pid), ("ping", UnitState::Running, Some(101)));
        }
        other => panic!("{other:?}"),
    }
    let step = command(&mut s, Request::Status { name: named("pong") }, 2);
    assert_eq!(error(&step, 2), "no such unit: pong");
}

#[test]
fn unknown_units_are_refused() {
    let mut s = running(vec![unit("ping", RestartPolicy::No)]);
    let n = || named("pong");
    for req in [
        Request::Status { name: n() },
        Request::Start { name: n() },
        Request::Stop { name: n() },
        Request::Restart { name: n() },
    ] {
        let step = command(&mut s, req, 4);
        assert_eq!(error(&step, 4), "no such unit: pong");
        assert!(matches!(step.next, Next::Receive));
    }
}

#[test]
fn a_unit_is_stopped_and_started() {
    let mut s = running(vec![unit("ping", RestartPolicy::Always)]);
    assert!(terminates(&command(&mut s, Request::Stop { name: named("ping") }, 1), 101));
    assert_eq!(state(&s, "ping"), (UnitState::Stopping, Some(101)));
    assert!(accepted(&s.run(Report::Signalled), 1));
    assert!(quiet(&exited(&mut s, 101, false)));
    assert_eq!(state(&s, "ping"), (UnitState::Stopped, None));

    let step = command(&mut s, Request::Stop { name: named("ping") }, 2);
    assert_eq!(error(&step, 2), "ping is not running");

    assert!(spawns(&command(&mut s, Request::Start { name: named("ping") }, 3), "ping"));
    assert!(accepted(&s.run(Report::Spawned(202)), 3));
    assert_eq!(state(&s, "ping"), (UnitState::Running, Some(202)));
}

#[test]
fn starting_a_running_unit_does_nothing() {
    let mut s = running(vec![unit("ping", RestartPolicy::No)]);
    let step = command(&mut s, Request::Start { name: named("ping") }, 3);
    assert!(accepted(&step, 3));
    assert_eq!(state(&s, "ping"), (UnitState::Running, Some(101)));
}

#[test]
fn a_start_that_fails_is_accepted_all_the_same() {
    let mut s = loaded(vec![unit("ping", RestartPolicy::No)]);
    assert!(spawns(&command(&mut s, Request::Start { name: named("ping") }, 3), "ping"));
    assert!(accepted(&s.run(Report::NotSpawned), 3));
    assert_eq!(state(&s, "ping"), (UnitState::Failed, None));
}

#[test]
fn a_signal_that_cannot_be_sent_is_an_error() {
    let mut s = running(vec![unit("ping", RestartPolicy::No)]);
    command(&mut s, Request::Stop { name: named("ping") }, 1);
    let step = s.run(Report::NotSignalled("ESRCH: No such process".to_string()));
    assert_eq!(error(&step, 1), "sending SIGTERM to ping (pid 101): ESRCH: No such process");
    assert_eq!(state(&s, "ping"), (UnitState::Stopping, Some(101)));
}

#[test]
fn a_restart_comes_back_at_once() {
    let mut s = running(vec![unit("ping", RestartPolicy::No)]);
    for i in 0..8 {
        let pid = 101 + i;
        assert!(terminates(&command(&mut s, Request::Restart { name: named("ping") }, 5), pid));
        assert!(accepted(&s.run(Report::Signalled), 5));
        assert!(spawns(&exited(&mut s, pid, false), "ping"));
        assert!(quiet(&s.run(Report::Spawned(pid + 1))));
        assert_eq!(state(&s, "ping"), (UnitState::Running, Some(pid + 1)));
        assert_eq!(s.unit("ping").unwrap().restart_count, i + 1);
    }
}

#[test]
fn restarting_a_unit_that_is_down_starts_it() {
    let mut s = loaded(vec![unit("ping", RestartPolicy::No)]);
    assert!(spawns(&command(&mut s, Request::Restart { name: named("ping") }, 5), "ping"));
    assert!(accepted(&s.run(Report::Spawned(12)), 5));
    assert_eq!(s.unit("ping").unwrap().restart_count, 0);
}

#[test]
fn a_crash_loop_is_given_up() {
    let mut s = running(vec![unit("ping", RestartPolicy::OnFailure)]);
    for i in 0..5 {
        let step = exited(&mut s, 101 + i, false);
        match &step.effects[..] {
            [Effect::ScheduleRestart { name, secs }] => {
                assert_eq!((name.as_str(), *secs), ("ping", 1));
            }
            other => panic!("{other:?}"),
        }
        assert!(matches!(step.next, Next::Receive));
        assert_eq!(state(&s, "ping"), (UnitState::Stopped, None));
        let due = Report::Event(Event::RestartDue(named("ping")));
        assert!(spawns(&s.run(due), "ping"));
        assert!(quiet(&s.run(Report::Spawned(102 + i))));
    }
    assert!(quiet(&exited(&mut s, 106, false)));
    assert_eq!(state(&s, "ping"), (UnitState::Failed, None));
}

#[test]
fn a_restart_that_falls_due_too_late_does_nothing() {
    let mut s = running(vec![unit("ping", RestartPolicy::Always)]);
    exited(&mut s, 101, true);
    command(&mut s, Request::Start { name: named("ping") }, 1);
    s.run(Report::Spawned(300));
    assert!(quiet(&s.run(Report::Event(Event::RestartDue(named("ping"))))));
    assert!(quiet(&s.run(Report::Event(Event::RestartDue(named("pong"))))));
    assert_eq!(state(&s, "ping"), (UnitState::Running, Some(300)));
}

#[test]
fn strangers_may_exit() {
    let mut s = running(vec![unit("ping", RestartPolicy::Always)]);
    assert!(quiet(&exited(&mut s, 4242, false)));
    assert_eq!(state(&s, "ping"), (UnitState::Running, Some(101)));
}

#[test]
fn a_one_shot_unit_ends() {
    let mut s = running(vec![unit("hello", RestartPolicy::No)]);
    assert!(quiet(&exited(&mut s, 101, true)));
    assert_eq!(state(&s, "hello"), (UnitState::Stopped, None));
    assert_eq!(s.unit("hello").unwrap().exit_status.as_deref(), Some("exit status: 0"));
}

#[test]
fn what_was_not_asked_for_is_passed_over() {
    let mut s = running(vec![unit("ping", RestartPolicy::No)]);
    assert!(quiet(&s.run(Report::Spawned(5))));
    assert!(quiet(&s.run(Report::DeadlinePassed)));
    command(&mut s, Request::Stop { name: named("ping") }, 1);
    assert!(terminates(&s.run(Report::Spawned(5)), 101));
    assert_eq!(state(&s, "ping"), (UnitState::Stopping, Some(101)));
}

#[test]
fn the_end_of_events_is_the_end() {
    let mut s = running(vec![unit("ping", RestartPolicy::No)]);
    let step = s.run(Report::Closed);
    assert!(step.effects.is_empty() && matches!(step.next, Next::Exit));
    assert!(matches!(s.run(Report::Closed).next, Next::Exit));
}

#[test]
fn a_shutdown_stops_units_in_reverse() {
    let mut s = running(vec![
        unit("a", RestartPolicy::Always),
        unit("b", RestartPolicy::No),
        unit("c", RestartPolicy::No),
    ]);
    exited(&mut s, 102, true);
    let step = command(&mut s, Request::Poweroff, 6);
    assert!(accepted(&step, 6));
    assert!(matches!(step.next, Next::Terminate { pid: 103 }));
    let step = s.run(Report::Signalled);
    assert!(matches!(step.effects[..], [Effect::SetDeadline { secs: 5 }]));
    assert!(matches!(step.next, Next::ReceiveUntilDeadline));
    assert!(terminates(&exited(&mut s, 103, false), 101));
    s.run(Report::Signalled);
    let step = exited(&mut s, 101, false);
    assert!(step.effects.is_empty());
    assert!(matches!(step.next, Next::GoDown { mode: ShutdownMode::Poweroff }));
    for name in ["a", "b", "c"] {
        assert_eq!(state(&s, name), (UnitState::Stopped, None));
    }
    let again = s.run(Report::Event(Event::Shutdown(ShutdownMode::Reboot)));
    assert!(matches!(again.next, Next::GoDown { mode: ShutdownMode::Poweroff }));
}

#[test]
fn a_shutdown_without_running_units_is_done_at_once() {
    let mut s = loaded(vec![unit("a", RestartPolicy::No)]);
    let step = s.run(Report::Event(Event::Shutdown(ShutdownMode::Halt)));
    assert!(step.effects.is_empty());
    assert!(matches!(step.next, Next::GoDown { mode: ShutdownMode::Halt }));
}

#[test]
fn a_stubborn_unit_is_killed_and_then_given_up() {
    let mut s = running(vec![unit("a", RestartPolicy::No), unit("b", RestartPolicy::No)]);
    s.run(Report::Event(Event::Shutdown(ShutdownMode::Reboot)));
    s.run(Report::Signalled);
    let step = s.run(Report::DeadlinePassed);
    assert!(matches!(
        step.effects[..],
        [Effect::ForceKill { pid: 102 }, Effect::SetDeadline { secs: 2 }]
    ));
    assert!(matches!(step.next, Next::ReceiveUntilDeadline));
    assert!(terminates(&s.run(Report::DeadlinePassed), 101));
}

#[test]
fn a_unit_that_cannot_be_signalled_is_passed_over() {
    let mut s = running(vec![unit("a", RestartPolicy::No), unit("b", RestartPolicy::No)]);
    s.run(Report::Event(Event::Shutdown(ShutdownMode::Reboot)));
    let step = s.run(Report::NotSignalled("ESRCH: No such process".to_string()));
    assert!(terminates(&step, 101));
}

#[test]
fn a_shutdown_is_not_disturbed() {
    let mut s = running(vec![unit("a", RestartPolicy::Always), unit("b", RestartPolicy::No)]);
    s.run(Report::Event(Event::Shutdown(ShutdownMode::Reboot)));
    s.run(Report::Signalled);

    let step = command(&mut s, Request::Start { name: named("a") }, 8);
    assert_eq!(error(&step, 8), "apollod is shutting down");
    assert!(matches!(step.next, Next::ReceiveUntilDeadline));
    assert!(watches(&s.run(Report::Event(Event::Shutdown(ShutdownMode::Halt)))));

    // Another unit exits, and its policy wants it back, but not now.
    let step = exited(&mut s, 101, false);
    assert!(matches!(step.effects[..], [Effect::ScheduleRestart { .. }]));
    assert!(matches!(step.next, Next::ReceiveUntilDeadline));
    assert!(watches(&s.run(Report::Event(Event::RestartDue(named("a"))))));
    assert_eq!(state(&s, "a"), (UnitState::Stopped, None));

    assert!(watches(&exited(&mut s, 999, true)));
    let step = exited(&mut s, 102, true);
    assert!(matches!(step.next, Next::GoDown { mode: ShutdownMode::Reboot }));
}

#[test]
fn a_shutdown_drops_the_restart_of_the_unit_it_stops() {
    let mut s = running(vec![unit("a", RestartPolicy::Always)]);
    command(&mut s, Request::Restart { name: named("a") }, 1);
    s.run(Report::Signalled);
    assert!(terminates(&s.run(Report::Event(Event::Shutdown(ShutdownMode::Poweroff))), 101));
    s.run(Report::Signalled);
    let step = exited(&mut s, 101, false);
    assert!(step.effects.is_empty());
    assert!(matches!(step.next, Next::GoDown { mode: ShutdownMode::Poweroff }));
    assert_eq!(state(&s, "a"), (UnitState::Stopped, None));
    let u = s.unit("a").unwrap();
    assert_eq!(u.exit_status.as_deref(), Some("exit status: 1"));
    assert_eq!(u.restart_count, 0);
}

#[test]
fn a_shutdown_drops_the_restart_of_another_unit() {
    let mut s = running(vec![unit("a", RestartPolicy::No), unit("b", RestartPolicy::No)]);
    command(&mut s, Request::Restart { name: named("a") }, 1);
    s.run(Report::Signalled);
    assert!(terminates(&s.run(Report::Event(Event::Shutdown(ShutdownMode::Reboot))), 102));
    s.run(Report::Signalled);
    assert!(watches(&exited(&mut s, 101, false)));
    assert_eq!(state(&s, "a"), (UnitState::Stopped, None));
    let step = exited(&mut s, 102, false);
    assert!(matches!(step.next, Next::GoDown { mode: ShutdownMode::Reboot }));
}

#[test]
fn processes_are_told_by_their_unit() {
    let s = running(vec![unit("a", RestartPolicy::No), unit("b", RestartPolicy::No)]);
    assert_eq!(s.find_unit_by_pid(102).as_deref(), Some("b"));
    assert_eq!(s.find_unit_by_pid(103), None);
}

#[test]
fn the_end_of_events_does_not_hold_up_a_shutdown() {
    let mut s = running(vec![unit("a", RestartPolicy::No), unit("b", RestartPolicy::No)]);
    s.run(Report::Event(Event::Shutdown(ShutdownMode::Reboot)));
    s.run(Report::Signalled);
    assert!(terminates(&s.run(Report::Closed), 101));
}

#[test]
fn shutdown_requests_have_modes() {
    assert_eq!(ShutdownMode::from_request(&Request::Reboot), Some(ShutdownMode::Reboot));
    assert_eq!(ShutdownMode::from_request(&Request::Poweroff), Some(ShutdownMode::Poweroff));
    assert_eq!(ShutdownMode::from_request(&Request::Halt), Some(ShutdownMode::Halt));
    assert_eq!(ShutdownMode::from_request(&Request::ListUnits), None);
    assert_eq!(ShutdownMode::Reboot.as_str(), "reboot");
    assert_eq!(ShutdownMode::Poweroff.as_str(), "poweroff");
    assert_eq!(ShutdownMode::Halt.as_str(), "halt");
}

#[test]
fn only_init_brings_the_machine_down() {
    assert_eq!(ShutdownMode::Reboot.finish(false), [FinalStep::Exit { code: 0 }]);
    assert_eq!(
        ShutdownMode::Halt.finish(true),
        [
            FinalStep::Sync,
            FinalStep::UnmountAll,
            FinalStep::Reboot(ShutdownMode::Halt),
            FinalStep::Exit { code: 0 },
        ]
    );
    assert_eq!(unmount_command(), ["umount", "-a", "-r"]);
}

#[test]
fn time_limits_are_as_documented() {
    assert_eq!((RESTART_BACKOFF_SECS, STOP_TIMEOUT_SECS, KILL_GRACE_SECS), (1, 5, 2));
}

#[test]
fn each_unit_has_a_log_file() {
    assert_eq!(log_file_name("sshd"), "sshd.log");
}

/// Plays a script against a supervisor, in which every spawn and signal works
/// out, and gives what it answered and where it ended up.
fn play(script: Vec<Event>) -> (Vec<u64>, String) {
    let mut s = running(vec![
        unit("a", RestartPolicy::Always),
        unit("b", RestartPolicy::OnFailure),
        unit("c", RestartPolicy::No),
    ]);
    let mut answered = Vec::new();
    let mut pid = 500;
    for event in script {
        let mut step = s.run(Report::Event(event));
        loop {
            for effect in &step.effects {
                if let Effect::Reply { conn, .. } = effect {
                    answered.push(*conn);
                }
            }
            let report = match step.next {
                Next::Spawn { .. } => {
                    pid += 1;
                    Report::Spawned(pid)
                }
                Next::Terminate { .. } => Report::Signalled,
                _ => break,
            };
            step = s.run(report);
        }
    }
    (answered, format!("{s:?}"))
}

fn script() -> Vec<Event> {
    let requests = vec![
        Request::ListUnits,
        Request::Start { name: named("a") },
        Request::Stop { name: named("a") },
        Request::Restart { name: named("b") },
        Request::Restart { name: named("nobody") },
        Request::Status { name: named("c") },
        Request::Stop { name: named("c") },
        Request::Poweroff,
        Request::ListUnits,
        Request::Reboot,
    ];
    let mut events = Vec::new();
    for (i, req) in requests.into_iter().enumerate() {
        events.push(Event::Command { req, conn: i as u64 });
        if i % 3 == 0 {
            let pid = 101 + i as u32 / 3;
            events.push(Event::ProcessExited { pid, status: named("signal: SIGTERM"), success: false });
        }
    }
    events
}

#[test]
fn every_command_is_answered_once() {
    let (answered, _) = play(script());
    assert_eq!(answered, (0..10).collect::<Vec<u64>>());
}

#[test]
fn the_same_reports_lead_to_the_same_state() {
    assert_eq!(play(script()), play(script()));
}

#[test]
fn an_exit_is_that_of_one_unit() {
    let mut s = running(vec![unit("a", RestartPolicy::No), unit("b", RestartPolicy::No)]);
    exited(&mut s, 102, false);
    assert_eq!(state(&s, "a"), (UnitState::Running, Some(101)));
    assert_eq!(state(&s, "b"), (UnitState::Failed, None));
}
