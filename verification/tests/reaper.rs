use apollo::reaper::{
    block_signals, blocked, drain, signal_set, Handled, Reaping, SignalAction, SignalLoop,
    WaitOutcome, Wakeup,
};
use apollo::supervisor::{Event, ShutdownMode};
use nix::errno::Errno;
use nix::sys::signal::{SigSet, Signal};

#[test]
fn the_daemon_waits_for_three_signals() {
    let set = signal_set();
    let waited_for: Vec<Signal> = Signal::iterator().filter(|s| set.contains(*s)).collect();
    assert_eq!(waited_for.len(), 3);
    assert!(set.contains(Signal::SIGCHLD));
    assert!(set.contains(Signal::SIGTERM));
    assert!(set.contains(Signal::SIGINT));
}

#[test]
fn blocking_blocks_in_this_thread() {
    let before = SigSet::thread_get_mask().unwrap();
    assert!(!before.contains(Signal::SIGCHLD));
    let set = block_signals().unwrap();
    assert_eq!(set, signal_set());
    let mask = SigSet::thread_get_mask().unwrap();
    for s in [Signal::SIGCHLD, Signal::SIGTERM, Signal::SIGINT] {
        assert!(mask.contains(s));
    }
    assert!(!mask.contains(Signal::SIGHUP));
}

#[test]
fn a_failure_to_block_is_passed_on() {
    let e = blocked(signal_set(), Err(Errno::EINVAL)).unwrap_err();
    assert_eq!(e.cause, Errno::EINVAL);
    assert_eq!(blocked(signal_set(), Ok(())).unwrap(), signal_set());
}

#[test]
fn signals_become_shutdowns() {
    let mut a = SignalLoop::new();
    let power_off = SignalAction::Shutdown(ShutdownMode::Poweroff);
    assert_eq!(a.run(Wakeup::Signal(Handled::Terminate)), power_off);
    let mut b = SignalLoop::new();
    let reboot = SignalAction::Shutdown(ShutdownMode::Reboot);
    assert_eq!(b.run(Wakeup::Signal(Handled::Interrupt)), reboot);
}

#[test]
fn one_shutdown_is_reported_and_children_are_reaped_for_ever() {
    let mut l = SignalLoop::new();
    let wakeups = [
        Wakeup::Signal(Handled::Child),
        Wakeup::Unexpected,
        Wakeup::Failed,
        Wakeup::Signal(Handled::Interrupt),
        Wakeup::Signal(Handled::Child),
        Wakeup::Signal(Handled::Terminate),
        Wakeup::Signal(Handled::Interrupt),
        Wakeup::Signal(Handled::Child),
    ];
    let actions: Vec<SignalAction> = wakeups.iter().map(|w| l.run(*w)).collect();
    assert_eq!(
        actions,
        [
            SignalAction::Drain,
            SignalAction::Note,
            SignalAction::Note,
            SignalAction::Shutdown(ShutdownMode::Reboot),
            SignalAction::Drain,
            SignalAction::Ignore,
            SignalAction::Ignore,
            SignalAction::Drain,
        ]
    );
}

fn exit_of(r: Reaping) -> (u32, String, bool) {
    match r {
        Reaping::Report(Event::ProcessExited { pid, status, success }) => (pid, status, success),
        other => panic!("{other:?}"),
    }
}

#[test]
fn exits_are_reported_with_their_code() {
    let ok = drain(WaitOutcome::Exited { pid: 12, code: 0 });
    assert_eq!(exit_of(ok), (12, "exit status: 0".to_string(), true));
    let failed = drain(WaitOutcome::Exited { pid: 13, code: 127 });
    assert_eq!(exit_of(failed), (13, "exit status: 127".to_string(), false));
    let odd = drain(WaitOutcome::Exited { pid: i32::MAX, code: -1 });
    assert_eq!(exit_of(odd), (2_147_483_647, "exit status: -1".to_string(), false));
}

#[test]
fn signals_end_processes_without_success() {
    let killed = drain(WaitOutcome::Signaled { pid: 14, signal: Signal::SIGKILL.to_string() });
    assert_eq!(exit_of(killed), (14, "signal: SIGKILL".to_string(), false));
}

#[test]
fn reaping_goes_on_until_nothing_is_left() {
    assert!(matches!(drain(WaitOutcome::Other), Reaping::Continue));
    assert!(matches!(drain(WaitOutcome::StillAlive), Reaping::Stop));
    assert!(matches!(drain(WaitOutcome::NoChildren), Reaping::Stop));
    assert!(matches!(drain(WaitOutcome::Failed), Reaping::Stop));
}
