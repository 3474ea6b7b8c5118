use apollo::config::{is_unit_file, load_units, LoadError, RestartPolicy, UnitConfig};
use std::collections::HashMap;
use std::path::PathBuf;

fn named(name: &str) -> UnitConfig {
    UnitConfig {
        name: name.to_string(),
        argv: vec!["/usr/sbin/sshd".to_string(), "-D".to_string(), "-e".to_string()],
        restart: RestartPolicy::default(),
        after: Vec::new(),
        env: HashMap::new(),
        working_dir: None,
    }
}

fn names(units: &[UnitConfig]) -> Vec<&str> {
    units.iter().map(|u| u.name.as_str()).collect()
}

#[test]
fn units_are_sorted_by_name() {
    let units = load_units(vec![named("sshd"), named("getty"), named("Zed"), named("é"), named("z")]);
    assert_eq!(names(&units.unwrap()), ["Zed", "getty", "sshd", "z", "é"]);
}

#[test]
fn a_prefix_comes_first() {
    let units = load_units(vec![named("udevd"), named("udev"), named("")]);
    assert_eq!(names(&units.unwrap()), ["", "udev", "udevd"]);
}

#[test]
fn a_name_may_be_defined_once() {
    let r = load_units(vec![named("b"), named("c"), named("a"), named("c"), named("b")]);
    match r {
        Err(LoadError::DuplicateName { name }) => {
            assert_eq!(name, "b");
            assert_eq!(
                LoadError::DuplicateName { name }.message(),
                "duplicate unit name 'b' across service files"
            );
        }
        Ok(_) => panic!("defined twice"),
    }
}

#[test]
fn no_definitions_no_units() {
    assert!(load_units(Vec::new()).unwrap().is_empty());
}

#[test]
fn units_are_not_restarted_by_default() {
    assert_eq!(RestartPolicy::default(), RestartPolicy::No);
}

#[test]
fn unit_files_end_in_toml() {
    for name in ["sshd.toml", "a.b.toml", "..toml", ".hidden.toml", "\u{fc}.toml"] {
        assert!(is_unit_file(name.as_bytes()), "{name}");
    }
    for name in ["", "toml", ".toml", "sshd.TOML", "sshd.toml~", "sshdtoml", "sshd.toml.bak"] {
        assert!(!is_unit_file(name.as_bytes()), "{name}");
    }
    assert!(is_unit_file(b"\xff.toml"));
}

#[test]
fn unit_files_are_told_by_their_extension() {
    for name in ["sshd.toml", ".toml", "..toml", "a.toml.toml", "x.tom", "a.xtoml", "toml"] {
        let by_path = PathBuf::from(name).extension().and_then(|e| e.to_str()) == Some("toml");
        assert_eq!(is_unit_file(name.as_bytes()), by_path, "{name}");
    }
}

#[test]
fn the_first_word_is_the_program() {
    let mut u = named("sshd");
    u.env.insert("SOME_VAR".to_string(), "value".to_string());
    u.working_dir = Some(PathBuf::from("/etc/sshd"));
    let l = u.launch().unwrap();
    assert_eq!(l.program, "/usr/sbin/sshd");
    assert_eq!(l.args, ["-D", "-e"]);
    assert_eq!(l.env.get("SOME_VAR").unwrap(), "value");
    assert_eq!(l.working_dir, &Some(PathBuf::from("/etc/sshd")));
}

#[test]
fn a_program_may_have_no_arguments() {
    let mut u = named("true");
    u.argv.truncate(1);
    let l = u.launch().unwrap();
    assert_eq!(l.program, "/usr/sbin/sshd");
    assert!(l.args.is_empty());
    assert_eq!(l.working_dir, &None);
}

#[test]
fn an_empty_command_cannot_be_launched() {
    let mut u = named("nothing");
    u.argv.clear();
    assert!(u.launch().is_none());
}
