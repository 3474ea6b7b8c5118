//! Early-boot set-up of file systems, search path and hostname, for a daemon
//! that is the init process.

use crate::text::{trim, trimmed};
use vstd::prelude::*;
use vstd::string::*;

verus! {

/// Whether the process of this id is the init process.
pub fn is_pid1(pid: u32) -> (r: bool)
    ensures
        r == (pid == 1),
{
    pid == 1
}

/// A file system that is mounted at boot. Its type serves as its source too.
#[derive(Clone, Copy, Debug)]
pub struct EarlyMount {
    pub target: &'static str,
    pub fstype: &'static str,
    /// Ignore set-user-id bits.
    pub nosuid: bool,
    /// Do not interpret device files.
    pub nodev: bool,
    /// Do not run programs.
    pub noexec: bool,
    pub data: Option<&'static str>,
}

/// A mount, with its strings as character sequences.
pub struct MountView {
    pub target: Seq<char>,
    pub fstype: Seq<char>,
    pub nosuid: bool,
    pub nodev: bool,
    pub noexec: bool,
    pub data: Option<Seq<char>>,
}

impl View for EarlyMount {
    type V = MountView;

    open spec fn view(&self) -> MountView {
        MountView {
            target: self.target@,
            fstype: self.fstype@,
            nosuid: self.nosuid,
            nodev: self.nodev,
            noexec: self.noexec,
            data: match self.data {
                Some(d) => Some(d@),
                None => None,
            },
        }
    }
}

/// A step of the early set-up. Each is tried, whatever came of those before
/// it.
#[derive(Clone, Copy, Debug)]
pub enum BootStep {
    /// Make the root file system writable.
    RemountRoot,
    /// Set the search path for programs.
    SetPath { path: &'static str },
    /// Create the directory if needed, and mount there. It is no error if
    /// something is mounted there already.
    Mount(EarlyMount),
    /// Run a program with one argument.
    Run { program: &'static str, arg: &'static str },
    /// Set the hostname that is configured.
    SetHostname,
}

/// A step, with its strings as character sequences.
pub enum BootStepView {
    RemountRoot,
    SetPath { path: Seq<char> },
    Mount(MountView),
    Run { program: Seq<char>, arg: Seq<char> },
    SetHostname,
}

impl View for BootStep {
    type V = BootStepView;

    open spec fn view(&self) -> BootStepView {
        match self {
            BootStep::RemountRoot => BootStepView::RemountRoot,
            BootStep::SetPath { path } => BootStepView::SetPath { path: path@ },
            BootStep::Mount(m) => BootStepView::Mount(m@),
            BootStep::Run { program, arg } => BootStepView::Run { program: program@, arg: arg@ },
            BootStep::SetHostname => BootStepView::SetHostname,
        }
    }
}

/// A mount whose source is its type.
pub open spec fn mount_view(
    target: Seq<char>,
    fstype: Seq<char>,
    nosuid: bool,
    nodev: bool,
    noexec: bool,
    data: Option<Seq<char>>,
) -> MountView {
    MountView { target, fstype, nosuid, nodev, noexec, data }
}

/// What is mounted at boot, in this order.
pub open spec fn mount_table() -> Seq<MountView> {
    seq![
        mount_view("/proc"@, "proc"@, true, true, true, None),
        mount_view("/sys"@, "sysfs"@, true, true, true, None),
        mount_view("/dev"@, "devtmpfs"@, true, false, false, Some("mode=0755"@)),
        mount_view(
            "/dev/pts"@,
            "devpts"@,
            true,
            false,
            true,
            Some("mode=0620,ptmxmode=0666,gid=5"@),
        ),
        mount_view("/dev/shm"@, "tmpfs"@, true, true, false, Some("mode=1777"@)),
        mount_view("/run"@, "tmpfs"@, true, true, false, Some("mode=0755,size=10%"@)),
        mount_view("/sys/fs/cgroup"@, "cgroup2"@, true, true, true, None),
    ]
}

/// The path where programs are searched for, unless there is one already.
pub open spec fn default_path() -> Seq<char> {
    "/usr/local/sbin:/usr/local/bin:/usr/sbin:/usr/bin:/sbin:/bin"@
}

/// The early set-up: the root file system becomes writable, a search path is
/// set if there is none, the file systems are mounted, then what the file
/// system table lists is mounted and swapped to, and the hostname is set.
pub open spec fn boot_steps(path_is_set: bool) -> Seq<BootStepView> {
    seq![BootStepView::RemountRoot] + (if path_is_set {
        seq![]
    } else {
        seq![BootStepView::SetPath { path: default_path() }]
    }) + mount_table().map_values(|m: MountView| BootStepView::Mount(m)) + seq![
        BootStepView::Run { program: "mount"@, arg: "-a"@ },
        BootStepView::Run { program: "swapon"@, arg: "-a"@ },
        BootStepView::SetHostname,
    ]
}

/// The mounts as plain values.
pub open spec fn mount_views(ms: Seq<EarlyMount>) -> Seq<MountView> {
    ms.map_values(|m: EarlyMount| m@)
}

/// The steps as plain values.
pub open spec fn step_views(steps: Seq<BootStep>) -> Seq<BootStepView> {
    steps.map_values(|b: BootStep| b@)
}

/// What is mounted at boot.
pub fn early_mounts() -> (r: Vec<EarlyMount>)
    ensures
        mount_views(r@) == mount_table(),
{
    let r = vec![
        EarlyMount {
            target: "/proc",
            fstype: "proc",
            nosuid: true,
            nodev: true,
            noexec: true,
            data: None,
        },
        EarlyMount {
            target: "/sys",
            fstype: "sysfs",
            nosuid: true,
            nodev: true,
            noexec: true,
            data: None,
        },
        EarlyMount {
            target: "/dev",
            fstype: "devtmpfs",
            nosuid: true,
            nodev: false,
            noexec: false,
            data: Some("mode=0755"),
        },
        EarlyMount {
            target: "/dev/pts",
            fstype: "devpts",
            nosuid: true,
            nodev: false,
            noexec: true,
            // 5 is what distributions use as the id of the group "tty".
            data: Some("mode=0620,ptmxmode=0666,gid=5"),
        },
        EarlyMount {
            target: "/dev/shm",
            fstype: "tmpfs",
            nosuid: true,
            nodev: true,
            noexec: false,
            data: Some("mode=1777"),
        },
        EarlyMount {
            target: "/run",
            fstype: "tmpfs",
            nosuid: true,
            nodev: true,
            noexec: false,
            data: Some("mode=0755,size=10%"),
        },
        EarlyMount {
            target: "/sys/fs/cgroup",
            fstype: "cgroup2",
            nosuid: true,
            nodev: true,
            noexec: true,
            data: None,
        },
    ];
    assert(mount_views(r@) =~= mount_table());
    r
}

/// The steps of the early set-up, given whether a search path is set.
pub fn run(path_is_set: bool) -> (r: Vec<BootStep>)
    ensures
        step_views(r@) == boot_steps(path_is_set),
{
    let mut steps: Vec<BootStep> = Vec::new();
    steps.push(BootStep::RemountRoot);
    if !path_is_set {
        steps.push(
            BootStep::SetPath {
                path: "/usr/local/sbin:/usr/local/bin:/usr/sbin:/usr/bin:/sbin:/bin",
            },
        );
    }
    let ghost head = step_views(steps@);
    let mounts = early_mounts();
    let mut i: usize = 0;
    assert(step_views(steps@) =~= head + mount_views(mounts@).take(0).map_values(
        |m: MountView| BootStepView::Mount(m),
    ));
    while i < mounts.len()
        invariant
            i <= mounts.len(),
            step_views(steps@) == head + mount_views(mounts@).take(i as int).map_values(
                |m: MountView| BootStepView::Mount(m),
            ),
        decreases mounts.len() - i,
    {
        let ghost before = step_views(steps@);
        steps.push(BootStep::Mount(mounts[i]));
        i = i + 1;
        assert(step_views(steps@) =~= before.push(BootStepView::Mount(mounts@[i - 1]@)));
        assert(step_views(steps@) =~= head + mount_views(mounts@).take(i as int).map_values(
            |m: MountView| BootStepView::Mount(m),
        ));
    }
    assert(mount_views(mounts@).take(i as int) =~= mount_table());
    let ghost before = step_views(steps@);
    steps.push(BootStep::Run { program: "mount", arg: "-a" });
    steps.push(BootStep::Run { program: "swapon", arg: "-a" });
    steps.push(BootStep::SetHostname);
    assert(head =~= seq![BootStepView::RemountRoot] + (if path_is_set {
        seq![]
    } else {
        seq![BootStepView::SetPath { path: default_path() }]
    }));
    assert(step_views(steps@) =~= before + seq![
        BootStepView::Run { program: "mount"@, arg: "-a"@ },
        BootStepView::Run { program: "swapon"@, arg: "-a"@ },
        BootStepView::SetHostname,
    ]);
    steps
}

/// The hostname in a hostname file: its contents without the white space
/// around them, if anything is left.
pub fn hostname(contents: &str) -> (r: Option<&str>)
    ensures
        match r {
            Some(name) => name@ == trimmed(contents@) && name@.len() > 0,
            None => trimmed(contents@).len() == 0,
        },
{
    let name = trim(contents);
    if name.unicode_len() == 0 {
        None
    } else {
        Some(name)
    }
}

/// The root file system becomes writable before anything else, a search path is
/// set only if there is none, everything in the table is mounted in its order,
/// and what the file system table lists and the hostname come after that.
pub proof fn the_set_up_has_an_order(path_is_set: bool, i: int)
    requires
        0 <= i < mount_table().len(),
    ensures
        ({
            let steps = boot_steps(path_is_set);
            let first = if path_is_set {
                1int
            } else {
                2int
            };
            let n = first + mount_table().len();
            &&& steps.len() == n + 3
            &&& steps[0] == BootStepView::RemountRoot
            &&& !path_is_set ==> steps[1] == (BootStepView::SetPath {
                path: "/usr/local/sbin:/usr/local/bin:/usr/sbin:/usr/bin:/sbin:/bin"@,
            })
            &&& steps[first + i] == BootStepView::Mount(mount_table()[i])
            &&& steps[n] == (BootStepView::Run { program: "mount"@, arg: "-a"@ })
            &&& steps[n + 1] == (BootStepView::Run { program: "swapon"@, arg: "-a"@ })
            &&& steps[n + 2] == BootStepView::SetHostname
        }),
{
}

/// Set-user-ID bits count in none of the file systems mounted at boot.
pub proof fn early_mounts_are_restricted(i: int)
    requires
        0 <= i < mount_table().len(),
    ensures
        mount_table()[i].nosuid,
{
}

/// The directory `inner` lies below the directory `outer`.
pub open spec fn lies_below(inner: Seq<char>, outer: Seq<char>) -> bool {
    &&& inner.len() > outer.len()
    &&& inner.take(outer.len() as int) == outer
    &&& inner[outer.len() as int] == '/'
}

/// Whatever is mounted below another mount is mounted after it.
pub proof fn outer_mounts_come_first(i: int, j: int)
    requires
        0 <= i < mount_table().len(),
        0 <= j < mount_table().len(),
        lies_below(mount_table()[i].target, mount_table()[j].target),
    ensures
        j < i,
{
    reveal_strlit("/proc");
    reveal_strlit("/sys");
    reveal_strlit("/dev");
    reveal_strlit("/dev/pts");
    reveal_strlit("/dev/shm");
    reveal_strlit("/run");
    reveal_strlit("/sys/fs/cgroup");
    let (inner, outer) = (mount_table()[i].target, mount_table()[j].target);
    assert forall|k: int| 0 <= k < outer.len() implies inner[k] == outer[k] by {
        assert(inner.take(outer.len() as int)[k] == outer[k]);
    }
    assert(inner[1] == outer[1]);
}

} // verus!
