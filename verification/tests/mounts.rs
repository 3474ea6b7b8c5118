use apollo::mounts::{early_mounts, hostname, is_pid1, run, BootStep};

#[test]
fn only_process_one_is_init() {
    assert!(is_pid1(1));
    assert!(!is_pid1(0));
    assert!(!is_pid1(2));
}

#[test]
fn the_mount_table_is_as_documented() {
    let table: Vec<_> = early_mounts()
        .iter()
        .map(|m| (m.target, m.fstype, m.nosuid, m.nodev, m.noexec, m.data))
        .collect();
    assert_eq!(
        table,
        [
            ("/proc", "proc", true, true, true, None),
            ("/sys", "sysfs", true, true, true, None),
            ("/dev", "devtmpfs", true, false, false, Some("mode=0755")),
            ("/dev/pts", "devpts", true, false, true, Some("mode=0620,ptmxmode=0666,gid=5")),
            ("/dev/shm", "tmpfs", true, true, false, Some("mode=1777")),
            ("/run", "tmpfs", true, true, false, Some("mode=0755,size=10%")),
            ("/sys/fs/cgroup", "cgroup2", true, true, true, None),
        ]
    );
}

#[test]
fn outer_directories_are_mounted_first() {
    let targets: Vec<&str> = early_mounts().iter().map(|m| m.target).collect();
    let place = |t: &str| targets.iter().position(|x| *x == t).unwrap();
    assert!(place("/dev") < place("/dev/pts"));
    assert!(place("/dev") < place("/dev/shm"));
    assert!(place("/sys") < place("/sys/fs/cgroup"));
}

fn describe(step: &BootStep) -> String {
    match step {
        BootStep::RemountRoot => "remount /".to_string(),
        BootStep::SetPath { path } => format!("PATH={path}"),
        BootStep::Mount(m) => format!("mount {}", m.target),
        BootStep::Run { program, arg } => format!("run {program} {arg}"),
        BootStep::SetHostname => "hostname".to_string(),
    }
}

#[test]
fn the_set_up_makes_the_root_writable_first() {
    let steps: Vec<String> = run(false).iter().map(describe).collect();
    assert_eq!(
        steps,
        [
            "remount /",
            "PATH=/usr/local/sbin:/usr/local/bin:/usr/sbin:/usr/bin:/sbin:/bin",
            "mount /proc",
            "mount /sys",
            "mount /dev",
            "mount /dev/pts",
            "mount /dev/shm",
            "mount /run",
            "mount /sys/fs/cgroup",
            "run mount -a",
            "run swapon -a",
            "hostname",
        ]
    );
}

#[test]
fn a_search_path_is_kept() {
    let with = run(true);
    assert_eq!(with.len(), 11);
    assert!(!with.iter().any(|s| matches!(s, BootStep::SetPath { .. })));
    assert!(matches!(with[1], BootStep::Mount(m) if m.target == "/proc"));
}

#[test]
fn the_hostname_is_trimmed() {
    assert_eq!(hostname("void\n"), Some("void"));
    assert_eq!(hostname("  my box\t\n\n"), Some("my box"));
    assert_eq!(hostname(""), None);
    assert_eq!(hostname(" \n\t"), None);
}
