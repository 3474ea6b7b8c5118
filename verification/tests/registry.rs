use apollo::config::{RestartPolicy, UnitConfig};
use apollo::proto::UnitState;
use apollo::registry::{AfterExit, UnitRuntime, MAX_RESTARTS};
use std::collections::HashMap;

fn unit(restart: RestartPolicy) -> UnitRuntime {
    UnitRuntime::new(UnitConfig {
        name: "ping".to_string(),
        argv: vec!["/bin/ping".to_string()],
        restart,
        after: Vec::new(),
        env: HashMap::new(),
        working_dir: None,
    })
}

fn exit(u: &mut UnitRuntime, success: bool) -> AfterExit {
    u.exited("exit status: x".to_string(), success)
}

#[test]
fn a_new_unit_is_loaded() {
    let u = unit(RestartPolicy::Always);
    assert_eq!(u.state, UnitState::Loaded);
    assert_eq!(u.pid, None);
    assert_eq!((u.restart_count, u.auto_restarts), (0, 0));
    assert!(!u.user_stopped && !u.pending_restart && u.exit_status.is_none());
    assert!(!u.up());
}

#[test]
fn clients_are_told_about_a_unit() {
    let mut u = unit(RestartPolicy::Always);
    u.spawned(42);
    let i = u.to_info();
    assert_eq!(i.name, "ping");
    assert_eq!((i.state, i.pid, i.restart_count), (UnitState::Running, Some(42), 0));
    assert_eq!(i.exit_status, None);
    exit(&mut u, false);
    let i = u.to_info();
    assert_eq!((i.state, i.pid, i.restart_count), (UnitState::Stopped, None, 1));
    assert_eq!(i.exit_status.as_deref(), Some("exit status: x"));
}

#[test]
fn policies_decide_about_restarts() {
    let cases = [
        (RestartPolicy::No, true, AfterExit::StayDown, UnitState::Stopped),
        (RestartPolicy::No, false, AfterExit::StayDown, UnitState::Failed),
        (RestartPolicy::OnFailure, true, AfterExit::StayDown, UnitState::Stopped),
        (RestartPolicy::OnFailure, false, AfterExit::RestartLater, UnitState::Stopped),
        (RestartPolicy::Always, true, AfterExit::RestartLater, UnitState::Stopped),
        (RestartPolicy::Always, false, AfterExit::RestartLater, UnitState::Stopped),
    ];
    for (policy, success, fate, state) in cases {
        let mut u = unit(policy);
        u.spawned(1000);
        assert!(u.up());
        assert_eq!(exit(&mut u, success), fate, "{policy:?} {success}");
        assert_eq!(u.state, state, "{policy:?} {success}");
        assert_eq!(u.pid, None);
    }
}

#[test]
fn a_crash_loop_ends_at_the_cap() {
    assert_eq!(MAX_RESTARTS, 5);
    for (policy, success) in [
        (RestartPolicy::Always, false),
        (RestartPolicy::Always, true),
        (RestartPolicy::OnFailure, false),
    ] {
        let mut u = unit(policy);
        for i in 1..=5 {
            u.spawned(1000 + i);
            assert_eq!(exit(&mut u, success), AfterExit::RestartLater);
            assert_eq!((u.auto_restarts, u.restart_count), (i, i));
            assert_eq!(u.state, UnitState::Stopped);
        }
        u.spawned(2000);
        assert_eq!(exit(&mut u, success), AfterExit::StayDown);
        assert_eq!(u.state, UnitState::Failed);
        assert_eq!((u.auto_restarts, u.restart_count), (5, 5));
    }
}

#[test]
fn an_asked_for_restart_does_not_mind_the_cap() {
    let mut u = unit(RestartPolicy::Always);
    for i in 0..5 {
        u.spawned(i + 2);
        exit(&mut u, false);
    }
    for i in 0..10u32 {
        u.spawned(i + 100);
        u.pending_restart = true;
        u.stopping();
        assert_eq!(exit(&mut u, false), AfterExit::RestartNow);
        assert_eq!(u.state, UnitState::Stopped);
        assert!(!u.pending_restart);
        assert_eq!((u.auto_restarts, u.restart_count), (5, 6 + i));
    }
}

#[test]
fn a_deliberate_stop_is_no_failure() {
    for policy in [RestartPolicy::No, RestartPolicy::OnFailure, RestartPolicy::Always] {
        let mut u = unit(policy);
        u.spawned(7);
        u.stopping();
        assert_eq!(u.state, UnitState::Stopping);
        assert!(u.up() && u.user_stopped);
        assert_eq!(exit(&mut u, false), AfterExit::StayDown);
        assert_eq!(u.state, UnitState::Stopped);
        assert_eq!(u.restart_count, 0);
    }
}

#[test]
fn starting_again_forgets_the_stop() {
    let mut u = unit(RestartPolicy::Always);
    u.spawned(7);
    u.stopping();
    exit(&mut u, false);
    assert!(u.user_stopped);
    u.spawned(8);
    assert!(!u.user_stopped);
    assert_eq!(exit(&mut u, false), AfterExit::RestartLater);
}

#[test]
fn a_unit_that_cannot_be_spawned_has_failed() {
    let mut u = unit(RestartPolicy::Always);
    u.not_spawned("spawning unit 'ping' (/bin/ping)".to_string());
    assert_eq!(u.state, UnitState::Failed);
    assert_eq!(u.pid, None);
    assert_eq!(u.exit_status.as_deref(), Some("spawning unit 'ping' (/bin/ping)"));
}

#[test]
fn the_count_of_restarts_does_not_overflow() {
    let mut u = unit(RestartPolicy::No);
    u.restart_count = u32::MAX;
    u.spawned(7);
    u.pending_restart = true;
    u.stopping();
    assert_eq!(exit(&mut u, false), AfterExit::RestartNow);
    assert_eq!(u.restart_count, u32::MAX);
}
