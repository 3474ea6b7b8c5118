use apollo::boot::{boot, fatal, BootError, Fatal};
use apollo::config::{LoadError, RestartPolicy, UnitConfig};
use apollo::order::OrderError;
use apollo::proto::UnitState;
use std::collections::HashMap;
use std::path::PathBuf;

fn unit(name: &str, after: &[&str]) -> UnitConfig {
    UnitConfig {
        name: name.to_string(),
        argv: vec![format!("/bin/{name}")],
        restart: RestartPolicy::No,
        after: after.iter().map(|a| a.to_string()).collect(),
        env: HashMap::new(),
        working_dir: None,
    }
}

#[test]
fn definitions_become_a_supervisor() {
    let read = vec![unit("ping", &[]), unit("greeter", &["hello"]), unit("hello", &[])];
    let booted = boot(read, PathBuf::from("/var/log/apollo")).unwrap();
    assert_eq!(booted.order, ["hello", "ping", "greeter"]);
    let s = booted.supervisor;
    assert!(s.idle());
    assert_eq!(s.log_dir(), &PathBuf::from("/var/log/apollo"));
    for name in ["ping", "greeter", "hello"] {
        let u = s.unit(name).unwrap();
        assert_eq!(u.config.name, name);
        assert_eq!(u.state, UnitState::Loaded);
    }
    assert!(s.unit("sshd").is_none());
}

#[test]
fn no_definitions_make_an_empty_supervisor() {
    let booted = boot(Vec::new(), PathBuf::from("logs")).unwrap();
    assert!(booted.order.is_empty());
}

#[test]
fn a_name_defined_twice_ends_the_boot() {
    let e = boot(vec![unit("a", &[]), unit("a", &["b"])], PathBuf::new()).unwrap_err();
    assert_eq!(e.message(), "duplicate unit name 'a' across service files");
    assert!(matches!(e, BootError::Load(LoadError::DuplicateName { name }) if name == "a"));
}

#[test]
fn a_circle_ends_the_boot() {
    let e = boot(vec![unit("a", &["b"]), unit("b", &["a"])], PathBuf::new()).unwrap_err();
    assert_eq!(
        e.message(),
        "dependency cycle detected among service units (check `after` fields)"
    );
    assert!(matches!(e, BootError::Order(OrderError::DependencyCycle)));
}

#[test]
fn init_never_exits() {
    assert_eq!(fatal(true), Fatal::Hold);
    assert_eq!(fatal(false), Fatal::Exit { code: 1 });
}
