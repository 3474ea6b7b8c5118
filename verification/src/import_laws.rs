//! What a conversion of runit services makes of each of them.

use crate::runit::{
    coldplug_name, coldplug_text, converted, entry_notes, is_device_manager, note_lines,
    report_lines, toml_text, unit_text, with_entry, EntryView, FileView, LineView, Options,
};
use crate::text::decimal;
use vstd::prelude::*;
use vstd::string::*;
use vstd::utf8::{decode_utf8, valid_utf8};

verus! {

/// One of the files is that of this unit.
pub open spec fn has_file(files: Seq<FileView>, unit: Seq<char>) -> bool {
    exists|i: int| 0 <= i < files.len() && (#[trigger] files[i]).unit == unit
}

/// The entry can be run: it is a directory with a text for a name, and anybody
/// at all may execute its `run` file.
pub open spec fn is_runnable(e: EntryView) -> bool {
    &&& e.is_dir
    &&& valid_utf8(e.file_name)
    &&& e.run_mode matches Some(mode) && mode & 0o111 != 0
}

/// The unit file of the entry at `k` exists, or was written for an entry before
/// it.
pub open spec fn unit_file_is_there(entries: Seq<EntryView>, o: Options, k: int) -> bool {
    entries[k].unit_exists || has_file(
        converted(entries.take(k), o).files,
        decode_utf8(entries[k].file_name),
    )
}

proof fn lemma_last(entries: Seq<EntryView>, o: Options, k: int)
    requires
        0 <= k < entries.len(),
    ensures
        converted(entries.take(k + 1), o) == with_entry(
            converted(entries.take(k), o),
            entries[k],
            o,
        ),
{
    assert(entries.take(k + 1).drop_last() =~= entries.take(k));
    assert(entries.take(k + 1).last() == entries[k]);
}

/// What was reported and written for the first entries stays.
proof fn lemma_kept(entries: Seq<EntryView>, o: Options, k: int)
    requires
        0 <= k <= entries.len(),
    ensures
        ({
            let (b, c) = (converted(entries.take(k), o), converted(entries, o));
            &&& b.imported.len() <= c.imported.len()
            &&& b.skipped.len() <= c.skipped.len()
            &&& b.notes.len() <= c.notes.len()
            &&& b.files.len() <= c.files.len()
            &&& forall|i: int|
                0 <= i < b.imported.len() ==> #[trigger] c.imported[i] == b.imported[i]
            &&& forall|i: int| 0 <= i < b.skipped.len() ==> #[trigger] c.skipped[i] == b.skipped[i]
            &&& forall|i: int| 0 <= i < b.notes.len() ==> #[trigger] c.notes[i] == b.notes[i]
            &&& forall|i: int| 0 <= i < b.files.len() ==> #[trigger] c.files[i] == b.files[i]
        }),
    decreases entries.len(),
{
    if k == entries.len() {
        assert(entries.take(k) =~= entries);
    } else {
        let before = entries.drop_last();
        lemma_kept(before, o, k);
        assert(before.take(k) =~= entries.take(k));
    }
}

/// Every service that can be run is converted, unless runit does not start it on
/// its own and it is not wanted all the same, or its unit file is there already
/// and may not be overwritten. It is reported, and its unit file is written.
pub proof fn runnable_services_are_converted(entries: Seq<EntryView>, o: Options, k: int)
    requires
        0 <= k < entries.len(),
        is_runnable(entries[k]),
        !entries[k].down || o.include_down,
        o.force || !unit_file_is_there(entries, o, k),
    ensures
        converted(entries, o).imported.contains(decode_utf8(entries[k].file_name)),
        converted(entries, o).files.contains(
            FileView {
                unit: decode_utf8(entries[k].file_name),
                text: unit_text(decode_utf8(entries[k].file_name), entries[k]),
            },
        ),
{
    let (b, a) = (converted(entries.take(k), o), converted(entries.take(k + 1), o));
    let (c, e) = (converted(entries, o), entries[k]);
    let name = decode_utf8(e.file_name);
    lemma_last(entries, o, k);
    lemma_kept(entries, o, k + 1);
    assert(crate::runit::written(b.files, name) ==> has_file(b.files, name));
    let (m, n) = (b.imported.len() as int, b.files.len() as int);
    assert(a.imported[m] == name);
    assert(a.files[n] == (FileView { unit: name, text: unit_text(name, e) }));
    assert(c.imported[m] == name);
    assert(c.files[n] == a.files[n]);
}

/// A service that is converted has its losses noted, each with its name.
pub proof fn converted_services_have_their_notes(
    entries: Seq<EntryView>,
    o: Options,
    k: int,
    j: int,
)
    requires
        0 <= k < entries.len(),
        is_runnable(entries[k]),
        !entries[k].down || o.include_down,
        o.force || !unit_file_is_there(entries, o, k),
        0 <= j < entry_notes(entries[k]).len(),
    ensures
        converted(entries, o).notes.contains(
            (decode_utf8(entries[k].file_name), entry_notes(entries[k])[j]),
        ),
{
    let (b, a) = (converted(entries.take(k), o), converted(entries.take(k + 1), o));
    let (c, e) = (converted(entries, o), entries[k]);
    let name = decode_utf8(e.file_name);
    lemma_last(entries, o, k);
    lemma_kept(entries, o, k + 1);
    assert(crate::runit::written(b.files, name) ==> has_file(b.files, name));
    let i = b.notes.len() + j;
    assert(a.notes == b.notes + entry_notes(e).map_values(|n: Seq<char>| (name, n)));
    assert(a.notes[i] == (name, entry_notes(e)[j]));
    assert(c.notes[i] == a.notes[i]);
}

/// Every other directory is reported as left out, with the reason.
pub proof fn other_directories_are_left_out_with_a_reason(
    entries: Seq<EntryView>,
    o: Options,
    k: int,
)
    requires
        0 <= k < entries.len(),
        entries[k].is_dir,
    ensures
        ({
            let (c, e) = (converted(entries, o), entries[k]);
            let name = decode_utf8(e.file_name);
            if !valid_utf8(e.file_name) {
                c.skipped.contains((e.path, "non-UTF-8 directory name"@))
            } else if e.run_mode is None {
                c.skipped.contains((name, "no 'run' file"@))
            } else if e.run_mode->0 & 0o111 == 0 {
                c.skipped.contains((name, "'run' file isn't executable"@))
            } else if e.down && !o.include_down {
                c.skipped.contains(
                    (name, "has a 'down' file (use --include-down to convert it anyway)"@),
                )
            } else if unit_file_is_there(entries, o, k) && !o.force {
                c.skipped.contains(
                    (name, e.unit_path + " already exists (use --force to overwrite)"@),
                )
            } else {
                c.imported.contains(name)
            }
        }),
{
    let (b, a) = (converted(entries.take(k), o), converted(entries.take(k + 1), o));
    let (c, e) = (converted(entries, o), entries[k]);
    let name = decode_utf8(e.file_name);
    lemma_last(entries, o, k);
    lemma_kept(entries, o, k + 1);
    assert(crate::runit::written(b.files, name) <==> has_file(b.files, name));
    let m = b.skipped.len() as int;
    if a.skipped.len() > m {
        assert(c.skipped[m] == a.skipped[m]);
    } else {
        runnable_services_are_converted(entries, o, k);
    }
}

/// The device manager gets a unit alongside, unless that file is there already
/// and may not be overwritten.
pub proof fn device_managers_get_a_coldplug_unit(entries: Seq<EntryView>, o: Options, k: int)
    requires
        0 <= k < entries.len(),
        is_runnable(entries[k]),
        !entries[k].down || o.include_down,
        o.force || !unit_file_is_there(entries, o, k),
        is_device_manager(decode_utf8(entries[k].file_name)),
        o.force || !(entries[k].coldplug_exists || has_file(
            converted(entries.take(k), o).files,
            decode_utf8(entries[k].file_name) + "-coldplug"@,
        )),
    ensures
        converted(entries, o).files.contains(
            FileView {
                unit: decode_utf8(entries[k].file_name) + "-coldplug"@,
                text: coldplug_text(decode_utf8(entries[k].file_name)),
            },
        ),
{
    let (b, a) = (converted(entries.take(k), o), converted(entries.take(k + 1), o));
    let (c, e) = (converted(entries, o), entries[k]);
    let name = decode_utf8(e.file_name);
    let unit = name + "-coldplug"@;
    lemma_last(entries, o, k);
    lemma_kept(entries, o, k + 1);
    reveal_strlit("-coldplug");
    assert(unit.len() > name.len());
    assert(crate::runit::written(b.files, name) ==> has_file(b.files, name));
    let own = b.files.push(FileView { unit: name, text: unit_text(name, e) });
    if crate::runit::written(own, unit) {
        let i = choose|i: int| 0 <= i < own.len() && (#[trigger] own[i]).unit == unit;
        assert(i < b.files.len());
        assert(b.files[i].unit == unit);
        assert(has_file(b.files, unit));
    }
    let n = b.files.len() as int + 1;
    assert(a.files[n] == (FileView { unit, text: coldplug_text(name) }));
    assert(c.files[n] == a.files[n]);
}

/// A device manager is a service with "udev" anywhere in its name.
pub proof fn device_managers_have_udev_in_their_name(name: Seq<char>)
    ensures
        is_device_manager(name) <==> exists|a: Seq<char>, b: Seq<char>|
            name == #[trigger] (a + "udev"@ + b),
{
    reveal_strlit("udev");
    let word = seq!['u', 'd', 'e', 'v'];
    assert("udev"@ =~= word);
    if is_device_manager(name) {
        let k = choose|k: int|
            0 <= k && k + 4 <= name.len() && #[trigger] name.subrange(k, k + 4) == word;
        let (a, b) = (name.take(k), name.skip(k + 4));
        assert(name =~= a + name.subrange(k, k + 4) + b);
        assert(name == a + "udev"@ + b);
    }
    if exists|a: Seq<char>, b: Seq<char>| name == #[trigger] (a + "udev"@ + b) {
        let (a, b) = choose|a: Seq<char>, b: Seq<char>| name == #[trigger] (a + "udev"@ + b);
        let k = a.len() as int;
        assert(name.subrange(k, k + 4) =~= word);
    }
}

/// The unit made alongside is called after the service, comes after it, is run
/// once by a shell, and waits for the devices to settle.
pub proof fn coldplug_units_run_once_after_the_service(name: Seq<char>)
    ensures
        coldplug_name(name) == name + "-coldplug"@,
        coldplug_text(name) == "# Generated alongside the runit service '"@ + name + "'.\n"@
            + "name = "@ + toml_text(name + "-coldplug"@) + "\n"@
            + "exec = [\"/bin/sh\", \"-c\", \"sleep 1; udevadm trigger --action=add && udevadm settle\"]\n"@
            + "after = ["@ + toml_text(name) + "]\n"@ + "restart = \"no\"\n"@,
{
}

/// A unit file says where it comes from, then what is lost, and then defines a
/// unit of the service's name that runs the service's script, in the service's
/// directory, whenever it exits.
pub proof fn unit_files_run_the_service(name: Seq<char>, e: EntryView)
    ensures
        unit_text(name, e) == "# Imported from the runit service '"@ + name + "' at "@ + e.path
            + ".\n"@ + note_lines(entry_notes(e)) + "name = "@ + toml_text(name) + "\n"@
            + "exec = ["@ + toml_text(e.run_abs) + "]\n"@ + "working-dir = "@ + toml_text(
            e.dir_abs,
        ) + "\n"@ + "restart = \"always\"\n"@,
{
}

/// Each note is a comment line of its own.
pub proof fn notes_are_comment_lines(notes: Seq<Seq<char>>, note: Seq<char>)
    ensures
        note_lines(seq![]) == Seq::<char>::empty(),
        note_lines(notes.push(note)) == note_lines(notes) + "# NOTE: "@ + note + "\n"@,
{
    assert(notes.push(note).drop_last() =~= notes);
}

/// What is noted of a service is that it does not start on its own, has a log
/// service or has a clean-up script: each exactly if that is so, and in this
/// order.
pub proof fn losses_are_noted(e: EntryView)
    ensures
        ({
            let notes = entry_notes(e);
            let (d, l) = (
                if e.down {
                    1int
                } else {
                    0int
                },
                if e.log {
                    1int
                } else {
                    0int
                },
            );
            &&& notes.len() == d + l + if e.finish {
                1int
            } else {
                0int
            }
            &&& e.down ==> notes[0] == "had a 'down' file (started disabled under runit) — apollo has no equivalent yet, so this unit WILL auto-start; remove the generated unit file if that's not wanted"@
            &&& e.log ==> notes[d] == "had a 'log/' service — runit piped its output there; apollo has no log capture yet (see README roadmap), so this unit's output now just inherits apollod's own console instead"@
            &&& e.finish ==> notes[d + l] == "had a 'finish' script — runit ran this on exit for cleanup; apollo has no equivalent hook, it was not migrated"@
        }),
{
}

/// What is no directory is passed over: nothing is reported or written for it.
pub proof fn other_files_are_passed_over(entries: Seq<EntryView>, e: EntryView, o: Options)
    requires
        !e.is_dir,
    ensures
        converted(entries.push(e), o) == converted(entries, o),
{
    assert(entries.push(e).drop_last() =~= entries);
}

/// The report has a line for each converted service, then one for each that was
/// left out, then one for each note, and then the totals. What needs attention
/// goes to standard error.
pub proof fn reports_tell_everything(
    imported: Seq<Seq<char>>,
    skipped: Seq<(Seq<char>, Seq<char>)>,
    notes: Seq<(Seq<char>, Seq<char>)>,
)
    ensures
        ({
            let lines = report_lines(imported, skipped, notes);
            let (a, b) = (imported.len() as int, imported.len() + skipped.len());
            &&& lines.len() == b + notes.len() + 1
            &&& forall|i: int|
                0 <= i < imported.len() ==> #[trigger] lines[i] == LineView::Plain(
                    "imported: "@ + imported[i],
                )
            &&& forall|i: int|
                0 <= i < skipped.len() ==> lines[a + i] == LineView::Problem(
                    "skipped "@ + (#[trigger] skipped[i]).0 + ": "@ + skipped[i].1,
                )
            &&& forall|i: int|
                0 <= i < notes.len() ==> lines[b + i] == LineView::Problem(
                    "note ("@ + (#[trigger] notes[i]).0 + "): "@ + notes[i].1,
                )
            &&& lines.last() == LineView::Plain(
                decimal(imported.len()) + " imported, "@ + decimal(skipped.len()) + " skipped"@,
            )
        }),
{
}

} // verus!
