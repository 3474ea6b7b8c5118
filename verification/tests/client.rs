use apollo::client::{print_units, show, Command, Shown};
use apollo::proto::{Request, Response, UnitInfo, UnitState};

fn info(name: &str, state: UnitState, pid: Option<u32>, exit_status: Option<&str>) -> UnitInfo {
    UnitInfo {
        name: name.to_string(),
        state,
        pid,
        restart_count: 3,
        exit_status: exit_status.map(|s| s.to_string()),
    }
}

fn lines(shown: Shown) -> Vec<String> {
    match shown {
        Shown::Lines(lines) => lines,
        Shown::Failure(line) => panic!("{line}"),
    }
}

const HEAD: &str = "NAME             STATE           PID  DETAIL";

#[test]
fn units_are_shown_in_a_table() {
    let units = [
        info("ping", UnitState::Running, Some(4711), None),
        info("hello", UnitState::Stopped, None, Some("exit status: 0")),
        info("a-rather-long-name", UnitState::Failed, None, Some("signal: SIGKILL")),
    ];
    assert_eq!(
        print_units(&units),
        [
            HEAD,
            "ping             running     4711  ",
            "hello            stopped        -  exit status: 0",
            "a-rather-long-name failed        -  signal: SIGKILL",
        ]
    );
}

#[test]
fn rows_are_laid_out_as_declared() {
    let u = info("getty-tty1", UnitState::Loaded, Some(u32::MAX), None);
    let rows = print_units(std::slice::from_ref(&u));
    assert_eq!(rows[0], format!("{:<16} {:<10} {:>8}  DETAIL", "NAME", "STATE", "PID"));
    assert_eq!(rows[1], format!("{:<16} {} {:>8}  {}", "getty-tty1", "loaded", u32::MAX, ""));
}

#[test]
fn a_list_may_be_empty() {
    assert_eq!(lines(show(Response::Units(Vec::new()), "ok")), [HEAD]);
}

#[test]
fn one_unit_is_shown_as_a_table_too() {
    let u = info("ping", UnitState::Stopping, Some(7), Some("exit status: 1"));
    assert_eq!(
        lines(show(Response::Unit(u), "ok")),
        [HEAD, "ping             stopping        7  exit status: 1"]
    );
}

#[test]
fn acceptance_is_shown_in_the_words_of_the_command() {
    assert_eq!(lines(show(Response::Accepted, Command::List.ok_message())), ["ok"]);
    let stop = Command::Stop { name: "ping".to_string() };
    assert_eq!(lines(show(Response::Accepted, stop.ok_message())), ["ok"]);
    assert_eq!(Command::Reboot.ok_message(), "apollod is stopping all units and rebooting");
    assert_eq!(Command::Poweroff.ok_message(), "apollod is stopping all units and powering off");
    assert_eq!(Command::Halt.ok_message(), "apollod is stopping all units and halting");
}

#[test]
fn errors_are_failures() {
    let shown = show(Response::Error("no such unit: x".to_string()), "ok");
    assert!(matches!(shown, Shown::Failure(line) if line == "error: no such unit: x"));
}

#[test]
fn commands_ask_for_what_they_say() {
    let n = || "ping".to_string();
    assert!(matches!(Command::List.request(), Request::ListUnits));
    assert!(matches!(Command::Status { name: n() }.request(), Request::Status { name } if name == "ping"));
    assert!(matches!(Command::Start { name: n() }.request(), Request::Start { name } if name == "ping"));
    assert!(matches!(Command::Stop { name: n() }.request(), Request::Stop { name } if name == "ping"));
    assert!(matches!(Command::Restart { name: n() }.request(), Request::Restart { name } if name == "ping"));
    assert!(matches!(Command::Reboot.request(), Request::Reboot));
    assert!(matches!(Command::Poweroff.request(), Request::Poweroff));
    assert!(matches!(Command::Halt.request(), Request::Halt));
}
