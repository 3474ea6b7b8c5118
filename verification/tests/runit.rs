use apollo::config::is_unit_file;
use apollo::runit::{
    coldplug_unit_name, convert, report, toml_string, unit_file_name, Conversion, Entry, Line,
    Options,
};

const PLAIN: Options = Options { force: false, include_down: false };
const FORCE: Options = Options { force: true, include_down: false };
const WITH_DOWN: Options = Options { force: false, include_down: true };

fn service(name: &str) -> Entry {
    Entry {
        file_name: name.as_bytes().to_vec(),
        path: format!("sv/{name}"),
        is_dir: true,
        run_mode: Some(0o100755),
        down: false,
        log: false,
        finish: false,
        run_abs: format!("/etc/sv/{name}/run"),
        dir_abs: format!("/etc/sv/{name}"),
        unit_path: format!("out/{name}.toml"),
        unit_exists: false,
        coldplug_exists: false,
    }
}

fn files(c: &Conversion) -> Vec<&str> {
    c.files.iter().map(|f| f.unit.as_str()).collect()
}

fn skipped(c: &Conversion) -> Vec<(&str, &str)> {
    c.summary.skipped.iter().map(|(n, r)| (n.as_str(), r.as_str())).collect()
}

fn parse(text: &str) -> toml::Table {
    text.parse().unwrap()
}

#[test]
fn a_service_becomes_a_unit_that_runs_its_script() {
    let c = convert(vec![service("sshd")], PLAIN);
    assert_eq!(c.summary.imported, ["sshd"]);
    assert!(c.summary.skipped.is_empty());
    assert!(c.summary.notes.is_empty());
    assert_eq!(files(&c), ["sshd"]);
    assert_eq!(
        c.files[0].text,
        "# Imported from the runit service 'sshd' at sv/sshd.\n\
         name = \"sshd\"\n\
         exec = [\"/etc/sv/sshd/run\"]\n\
         working-dir = \"/etc/sv/sshd\"\n\
         restart = \"always\"\n"
    );
}

#[test]
fn a_unit_file_is_toml() {
    let mut e = service("odd \"name\" \\ é");
    e.log = true;
    e.finish = true;
    let c = convert(vec![e], PLAIN);
    let t = parse(&c.files[0].text);
    assert_eq!(t["name"].as_str(), Some("odd \"name\" \\ é"));
    assert_eq!(t["exec"].as_array().unwrap().len(), 1);
    assert_eq!(t["exec"][0].as_str(), Some("/etc/sv/odd \"name\" \\ é/run"));
    assert_eq!(t["working-dir"].as_str(), Some("/etc/sv/odd \"name\" \\ é"));
    assert_eq!(t["restart"].as_str(), Some("always"));
    assert_eq!(t.len(), 4);
}

#[test]
fn entries_are_dealt_with_in_the_order_of_their_names() {
    let c = convert(vec![service("c"), service("a"), service("b")], PLAIN);
    assert_eq!(c.summary.imported, ["a", "b", "c"]);
    assert_eq!(files(&c), ["a", "b", "c"]);
}

#[test]
fn what_is_no_directory_is_passed_over() {
    let mut e = service("README");
    e.is_dir = false;
    let c = convert(vec![e], PLAIN);
    assert!(c.summary.imported.is_empty() && c.summary.skipped.is_empty() && c.files.is_empty());
}

#[test]
fn names_have_to_be_utf8() {
    let mut e = service("x");
    e.file_name = vec![b'x', 0xff];
    e.path = "sv/x\u{fffd}".to_string();
    let c = convert(vec![e], PLAIN);
    assert_eq!(skipped(&c), [("sv/x\u{fffd}", "non-UTF-8 directory name")]);
    assert!(c.files.is_empty());
}

#[test]
fn a_service_needs_an_executable_run_file() {
    let mut none = service("a");
    none.run_mode = None;
    let mut plain = service("b");
    plain.run_mode = Some(0o100644);
    let mut group = service("c");
    group.run_mode = Some(0o100654);
    let c = convert(vec![none, plain, group], PLAIN);
    assert_eq!(skipped(&c), [("a", "no 'run' file"), ("b", "'run' file isn't executable")]);
    assert_eq!(c.summary.imported, ["c"]);
}

#[test]
fn services_that_start_disabled_are_left_out() {
    let mut e = service("chronyd");
    e.down = true;
    let c = convert(vec![e], PLAIN);
    assert_eq!(
        skipped(&c),
        [("chronyd", "has a 'down' file (use --include-down to convert it anyway)")]
    );
    assert!(c.files.is_empty() && c.summary.notes.is_empty());
}

#[test]
fn services_that_start_disabled_can_be_converted() {
    let mut e = service("chronyd");
    e.down = true;
    let c = convert(vec![e], WITH_DOWN);
    assert_eq!(c.summary.imported, ["chronyd"]);
    let note = "had a 'down' file (started disabled under runit) — apollo has no equivalent \
                yet, so this unit WILL auto-start; remove the generated unit file if that's \
                not wanted";
    assert_eq!(c.summary.notes, [("chronyd".to_string(), note.to_string())]);
    assert!(c.files[0].text.contains(&format!("\n# NOTE: {note}\n")));
}

#[test]
fn what_has_no_equivalent_is_noted() {
    let mut e = service("nginx");
    e.log = true;
    e.finish = true;
    let c = convert(vec![e], PLAIN);
    let log = "had a 'log/' service — runit piped its output there; apollo has no log \
               capture yet (see README roadmap), so this unit's output now just inherits \
               apollod's own console instead";
    let finish = "had a 'finish' script — runit ran this on exit for cleanup; apollo has no \
                  equivalent hook, it was not migrated";
    assert_eq!(
        c.summary.notes,
        [
            ("nginx".to_string(), log.to_string()),
            ("nginx".to_string(), finish.to_string()),
        ]
    );
    assert_eq!(
        c.files[0].text,
        format!(
            "# Imported from the runit service 'nginx' at sv/nginx.\n\
             # NOTE: {log}\n\
             # NOTE: {finish}\n\
             name = \"nginx\"\n\
             exec = [\"/etc/sv/nginx/run\"]\n\
             working-dir = \"/etc/sv/nginx\"\n\
             restart = \"always\"\n"
        )
    );
}

#[test]
fn unit_files_are_overwritten_only_by_force() {
    let mut e = service("sshd");
    e.unit_exists = true;
    let c = convert(vec![e], PLAIN);
    assert_eq!(
        skipped(&c),
        [("sshd", "out/sshd.toml already exists (use --force to overwrite)")]
    );
    assert!(c.files.is_empty());
    let mut e = service("sshd");
    e.unit_exists = true;
    assert_eq!(files(&convert(vec![e], FORCE)), ["sshd"]);
}

#[test]
fn the_device_manager_gets_a_coldplug_unit() {
    let c = convert(vec![service("udevd")], PLAIN);
    assert_eq!(files(&c), ["udevd", "udevd-coldplug"]);
    assert_eq!(c.summary.imported, ["udevd"]);
    let t = parse(&c.files[1].text);
    assert_eq!(t["name"].as_str(), Some("udevd-coldplug"));
    assert_eq!(t["after"].as_array().unwrap().len(), 1);
    assert_eq!(t["after"][0].as_str(), Some("udevd"));
    assert_eq!(t["restart"].as_str(), Some("no"));
    let command: Vec<&str> =
        t["exec"].as_array().unwrap().iter().map(|w| w.as_str().unwrap()).collect();
    assert_eq!(
        command,
        ["/bin/sh", "-c", "sleep 1; udevadm trigger --action=add && udevadm settle"]
    );
}

#[test]
fn device_managers_are_told_by_their_name() {
    for name in ["udev", "eudev", "systemd-udevd", "xudevx"] {
        assert_eq!(convert(vec![service(name)], PLAIN).files.len(), 2, "{name}");
    }
    for name in ["ude", "u-dev", "UDEV", "udbus", "x"] {
        assert_eq!(convert(vec![service(name)], PLAIN).files.len(), 1, "{name}");
    }
}

#[test]
fn a_coldplug_unit_is_overwritten_only_by_force() {
    let mut e = service("udevd");
    e.coldplug_exists = true;
    let c = convert(vec![e], PLAIN);
    assert_eq!(files(&c), ["udevd"]);
    assert_eq!(c.summary.imported, ["udevd"]);
    assert!(c.summary.skipped.is_empty());
    let mut e = service("udevd");
    e.coldplug_exists = true;
    assert_eq!(files(&convert(vec![e], FORCE)), ["udevd", "udevd-coldplug"]);
}

#[test]
fn no_unit_file_is_written_twice_in_one_run() {
    let c = convert(vec![service("udevd-coldplug"), service("udevd")], PLAIN);
    assert_eq!(files(&c), ["udevd", "udevd-coldplug"]);
    assert_eq!(c.summary.imported, ["udevd"]);
    assert_eq!(
        skipped(&c),
        [(
            "udevd-coldplug",
            "out/udevd-coldplug.toml already exists (use --force to overwrite)"
        )]
    );
}

#[test]
fn every_directory_is_accounted_for() {
    let mut broken = service("broken");
    broken.run_mode = None;
    let c = convert(vec![service("b"), broken, service("a")], PLAIN);
    assert_eq!(c.summary.imported, ["a", "b"]);
    assert_eq!(skipped(&c), [("broken", "no 'run' file")]);
    assert_eq!(c.summary.imported, files(&c));
}

#[test]
fn a_conversion_is_reported_line_by_line() {
    let mut broken = service("broken");
    broken.run_mode = None;
    let mut noted = service("nginx");
    noted.finish = true;
    let c = convert(vec![broken, noted, service("sshd")], PLAIN);
    let lines: Vec<(bool, String)> = report(&c.summary)
        .into_iter()
        .map(|l| match l {
            Line::Plain(s) => (true, s),
            Line::Problem(s) => (false, s),
        })
        .collect();
    let expected = [
        (true, "imported: nginx"),
        (true, "imported: sshd"),
        (false, "skipped broken: no 'run' file"),
        (
            false,
            "note (nginx): had a 'finish' script — runit ran this on exit for cleanup; apollo \
             has no equivalent hook, it was not migrated",
        ),
        (true, "2 imported, 1 skipped"),
    ];
    assert_eq!(lines.len(), expected.len());
    for (line, (out, text)) in lines.iter().zip(expected) {
        assert_eq!((line.0, line.1.as_str()), (out, text));
    }
}

#[test]
fn an_empty_conversion_is_reported_too() {
    let c = convert(Vec::new(), PLAIN);
    let lines = report(&c.summary);
    assert_eq!(lines.len(), 1);
    assert!(matches!(&lines[0], Line::Plain(s) if s == "0 imported, 0 skipped"));
}

#[test]
fn strings_are_quoted_for_toml() {
    assert_eq!(toml_string(""), "\"\"");
    assert_eq!(toml_string("sshd"), "\"sshd\"");
    assert_eq!(toml_string("a\"b\\c"), "\"a\\\"b\\\\c\"");
}

#[test]
fn quoted_strings_are_read_back() {
    for s in ["", "sshd", "\\", "\"", "\\\"", "a b\\\\c\"\"", "ünïcode", "tail\\"] {
        let t = parse(&format!("x = {}\n", toml_string(s)));
        assert_eq!(t["x"].as_str(), Some(s));
    }
}

#[test]
fn unit_files_are_named_after_their_units() {
    assert_eq!(unit_file_name("sshd"), "sshd.toml");
    assert_eq!(coldplug_unit_name("udevd"), "udevd-coldplug");
    for unit in ["a", "sshd", "odd name", "\u{e9}", ".", "x.toml"] {
        assert!(is_unit_file(unit_file_name(unit).as_bytes()), "{unit}");
    }
    assert!(!is_unit_file(unit_file_name("").as_bytes()));
}

#[test]
fn every_service_is_reported_once_and_nothing_else_is() {
    let mut held = service("udevd-b");
    held.down = true;
    let mut file = service("udevd-c");
    file.is_dir = false;
    let entries = vec![file, held, service("udevd-a"), service("udevd")];
    let c = convert(entries, PLAIN);
    assert_eq!(c.summary.imported, ["udevd", "udevd-a"]);
    assert_eq!(skipped(&c).iter().map(|s| s.0).collect::<Vec<_>>(), ["udevd-b"]);
    assert_eq!(files(&c), ["udevd", "udevd-coldplug", "udevd-a", "udevd-a-coldplug"]);
}
