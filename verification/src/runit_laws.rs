//! What holds of every conversion of runit services.

use crate::config::names_unit_file;
use crate::runit::{
    coldplug_name, converted, entry_notes, is_device_manager, skip_reason, with_coldplug,
    with_entry, with_file, written, ConversionView, EntryView, Options,
};
use crate::text::{bytes_lt, bytes_lt_irreflexive, bytes_lt_total, joined_bytes, name_lt};
use vstd::prelude::*;
use vstd::string::*;
use vstd::utf8::{
    decode_utf8, decode_utf8_encode_utf8, encode_utf8, is_ascii_chars_encode_utf8, valid_utf8,
};

verus! {

/// The unit is that of an imported service, or made alongside an imported
/// device manager.
pub open spec fn unit_of_import(imported: Seq<Seq<char>>, unit: Seq<char>) -> bool {
    imported.contains(unit) || exists|i: int|
        0 <= i < imported.len() && is_device_manager(#[trigger] imported[i]) && unit
            == coldplug_name(imported[i])
}

/// Each service that is reported as converted has a unit file, and each unit
/// file is that of such a service or was made alongside one.
pub proof fn imported_services_have_the_files(entries: Seq<EntryView>, o: Options)
    ensures
        forall|i: int|
            0 <= i < converted(entries, o).imported.len() ==> written(
                converted(entries, o).files,
                #[trigger] converted(entries, o).imported[i],
            ),
        forall|i: int|
            0 <= i < converted(entries, o).files.len() ==> unit_of_import(
                converted(entries, o).imported,
                (#[trigger] converted(entries, o).files[i]).unit,
            ),
    decreases entries.len(),
{
    if entries.len() > 0 {
        imported_services_have_the_files(entries.drop_last(), o);
        let (b, c) = (converted(entries.drop_last(), o), converted(entries, o));
        lemma_one_more(b, entries.last(), o);
        assert forall|i: int| 0 <= i < c.imported.len() implies written(
            c.files,
            #[trigger] c.imported[i],
        ) by {
            if i < b.imported.len() {
                assert(written(b.files, b.imported[i]));
                let k = choose|k: int|
                    0 <= k < b.files.len() && (#[trigger] b.files[k]).unit == b.imported[i];
                assert(c.files[k].unit == c.imported[i]);
            } else {
                assert(c.files[b.files.len() as int].unit == c.imported[i]);
            }
        }
        assert forall|i: int| 0 <= i < c.files.len() implies unit_of_import(
            c.imported,
            (#[trigger] c.files[i]).unit,
        ) by {
            let unit = c.files[i].unit;
            if i < b.files.len() {
                assert(unit_of_import(b.imported, b.files[i].unit));
                if b.imported.contains(unit) {
                    let k = choose|k: int| 0 <= k < b.imported.len() && b.imported[k] == unit;
                    assert(c.imported[k] == unit);
                } else {
                    let k = choose|k: int|
                        0 <= k < b.imported.len() && is_device_manager(#[trigger] b.imported[k])
                            && unit == coldplug_name(b.imported[k]);
                    assert(c.imported[k] == b.imported[k]);
                }
            } else {
                let name = c.imported[b.imported.len() as int];
                assert(c.imported.contains(name));
            }
        }
    }
}

/// The entry is converted when it is dealt with next.
spec fn converts(b: ConversionView, e: EntryView, o: Options) -> bool {
    &&& e.is_dir
    &&& valid_utf8(e.file_name)
    &&& skip_reason(e, e.unit_exists || written(b.files, decode_utf8(e.file_name)), o) is None
}

/// What an entry is called in a report.
pub open spec fn reported_name(e: EntryView) -> Seq<char> {
    if valid_utf8(e.file_name) {
        decode_utf8(e.file_name)
    } else {
        e.path
    }
}

/// What one more entry adds: nothing; or a service left out; or a service with
/// its unit file, and perhaps one made alongside.
proof fn lemma_one_more(b: ConversionView, e: EntryView, o: Options)
    ensures
        !e.is_dir ==> with_entry(b, e, o) == b,
        e.is_dir && !converts(b, e, o) ==> {
            let c = with_entry(b, e, o);
            &&& c == (ConversionView { skipped: c.skipped, ..b })
            &&& c.skipped == b.skipped.push((reported_name(e), c.skipped.last().1))
        },
        converts(b, e, o) ==> {
            let c = with_entry(b, e, o);
            let (name, k) = (decode_utf8(e.file_name), b.files.len() as int);
            &&& c.skipped == b.skipped
            &&& c.imported == b.imported.push(name)
            &&& c.notes == b.notes + entry_notes(e).map_values(|n: Seq<char>| (name, n))
            &&& c.files.len() == k + 1 || (is_device_manager(name) && c.files.len() == k + 2
                && c.files[k + 1].unit == coldplug_name(name))
            &&& c.files[k].unit == name
            &&& forall|i: int| 0 <= i < k ==> #[trigger] c.files[i] == b.files[i]
        },
{
    let c = with_entry(b, e, o);
    if e.is_dir && !converts(b, e, o) {
        assert(c.skipped =~= b.skipped.push((reported_name(e), c.skipped.last().1)));
    }
}

/// Unless files may be overwritten, no unit file is written twice.
pub proof fn no_file_is_written_twice(entries: Seq<EntryView>, o: Options)
    requires
        !o.force,
    ensures
        forall|i: int, j: int|
            0 <= i < j < converted(entries, o).files.len() ==> (#[trigger] converted(
                entries,
                o,
            ).files[i]).unit != (#[trigger] converted(entries, o).files[j]).unit,
    decreases entries.len(),
{
    if entries.len() > 0 {
        no_file_is_written_twice(entries.drop_last(), o);
        let (b, e) = (converted(entries.drop_last(), o), entries.last());
        let name = decode_utf8(e.file_name);
        if e.is_dir && valid_utf8(e.file_name) && skip_reason(
            e,
            e.unit_exists || written(b.files, name),
            o,
        ) is None {
            let d = with_file(
                ConversionView {
                    notes: b.notes + entry_notes(e).map_values(
                        |n: Seq<char>| (name, n),
                    ),
                    ..b
                },
                name,
                crate::runit::unit_text(name, e),
            );
            assert(!written(b.files, name));
            assert forall|i: int, j: int| 0 <= i < j < d.files.len() implies (
            #[trigger] d.files[i]).unit != (#[trigger] d.files[j]).unit by {
                if j == b.files.len() {
                    assert(b.files[i].unit != name);
                } else {
                    assert(b.files[i].unit != b.files[j].unit);
                }
            }
            let f = with_coldplug(d, name, e, o);
            assert forall|i: int, j: int| 0 <= i < j < f.files.len() implies (
            #[trigger] f.files[i]).unit != (#[trigger] f.files[j]).unit by {
                if j == d.files.len() {
                    assert(d.files[i].unit == f.files[i].unit);
                } else {
                    assert(d.files[i].unit != d.files[j].unit);
                }
            }
        }
    }
}

/// The entry is a service that can be run and is wanted.
pub open spec fn convertible(e: EntryView, o: Options) -> bool {
    &&& e.is_dir
    &&& valid_utf8(e.file_name)
    &&& e.run_mode matches Some(mode) && mode & 0o111 != 0
    &&& e.down ==> o.include_down
}

/// The unit is made because of this entry.
pub open spec fn made_from(unit: Seq<char>, e: EntryView) -> bool {
    let name = decode_utf8(e.file_name);
    unit == name || is_device_manager(name) && unit == coldplug_name(name)
}

/// One of the entries is convertible and the reason for the unit.
pub open spec fn has_origin(entries: Seq<EntryView>, o: Options, unit: Seq<char>) -> bool {
    exists|k: int|
        0 <= k < entries.len() && convertible(#[trigger] entries[k], o) && made_from(
            unit,
            entries[k],
        )
}

/// Every unit file is made from a service with an executable script, and from
/// none that runit does not start on its own unless that is asked for.
pub proof fn files_come_from_convertible_services(entries: Seq<EntryView>, o: Options, i: int)
    requires
        0 <= i < converted(entries, o).files.len(),
    ensures
        has_origin(entries, o, converted(entries, o).files[i].unit),
    decreases entries.len(),
{
    let before = entries.drop_last();
    let (b, c) = (converted(before, o), converted(entries, o));
    if i < b.files.len() {
        assert(c.files[i] == b.files[i]);
        files_come_from_convertible_services(before, o, i);
        let k = choose|k: int|
            0 <= k < before.len() && convertible(#[trigger] before[k], o) && made_from(
                b.files[i].unit,
                before[k],
            );
        assert(entries[k] == before[k]);
    } else {
        let e = entries[entries.len() - 1];
        assert(convertible(e, o));
        assert(made_from(c.files[i].unit, e));
    }
}

// The report.

/// The names of the services that were left out.
pub open spec fn skipped_names(c: ConversionView) -> Seq<Seq<char>> {
    c.skipped.map_values(|p: (Seq<char>, Seq<char>)| p.0)
}

/// One of the entries is a directory of this name.
pub open spec fn is_directory(entries: Seq<EntryView>, n: Seq<char>) -> bool {
    exists|k: int|
        0 <= k < entries.len() && (#[trigger] entries[k]).is_dir && reported_name(entries[k]) == n
}

/// Each name comes before those behind it.
pub open spec fn ascend(names: Seq<Seq<char>>) -> bool {
    forall|i: int, j: int|
        0 <= i < j < names.len() ==> name_lt(#[trigger] names[i], #[trigger] names[j])
}

/// The entries are in the order of their names, which differ.
pub open spec fn in_name_order(entries: Seq<EntryView>) -> bool {
    forall|i: int, j: int|
        0 <= i < j < entries.len() ==> !bytes_lt(
            (#[trigger] entries[j]).file_name,
            (#[trigger] entries[i]).file_name,
        ) && entries[i].file_name != entries[j].file_name
}

/// What is reported are the directories, whatever they are called: a name is
/// reported as converted or left out exactly if a directory has it, and notes
/// are made of what was converted.
pub proof fn directories_are_reported(entries: Seq<EntryView>, o: Options)
    ensures
        forall|n: Seq<char>|
            is_directory(entries, n) <==> (#[trigger] converted(entries, o).imported.contains(n)
                || skipped_names(converted(entries, o)).contains(n)),
        forall|i: int|
            0 <= i < converted(entries, o).notes.len() ==> converted(
                entries,
                o,
            ).imported.contains((#[trigger] converted(entries, o).notes[i]).0),
    decreases entries.len(),
{
    let c = converted(entries, o);
    if entries.len() == 0 {
        assert(skipped_names(c) =~= seq![]);
    } else {
        let before = entries.drop_last();
        let (b, e) = (converted(before, o), entries.last());
        directories_are_reported(before, o);
        lemma_one_more(b, e, o);
        lemma_reports_grow(b, e, o);
        assert forall|n: Seq<char>|
            is_directory(entries, n) <==> (#[trigger] c.imported.contains(n) || skipped_names(
                c,
            ).contains(n)) by {
            lemma_directory_push(before, e, n);
            assert(before.push(e) =~= entries);
            assert(is_directory(before, n) <==> (b.imported.contains(n) || skipped_names(
                b,
            ).contains(n)));
        }
        assert forall|i: int| 0 <= i < c.notes.len() implies c.imported.contains(
            (#[trigger] c.notes[i]).0,
        ) by {
            if i < b.notes.len() {
                assert(b.imported.contains(b.notes[i].0));
                assert(c.notes[i] == b.notes[i]);
                let n = b.notes[i].0;
                assert(c.imported.contains(n));
            } else {
                let n = decode_utf8(e.file_name);
                assert(c.notes[i].0 == n);
                assert(c.imported.contains(n));
            }
        }
    }
}

/// The lists after one more entry.
proof fn lemma_reports_grow(b: ConversionView, e: EntryView, o: Options)
    ensures
        forall|n: Seq<char>| #[trigger]
            with_entry(b, e, o).imported.contains(n) <==> b.imported.contains(n) || (converts(
                b,
                e,
                o,
            ) && n == reported_name(e)),
        forall|n: Seq<char>| #[trigger]
            skipped_names(with_entry(b, e, o)).contains(n) <==> skipped_names(b).contains(n) || (
            e.is_dir && !converts(b, e, o) && n == reported_name(e)),
        skipped_names(with_entry(b, e, o)) == if e.is_dir && !converts(b, e, o) {
            skipped_names(b).push(reported_name(e))
        } else {
            skipped_names(b)
        },
{
    let c = with_entry(b, e, o);
    let name = reported_name(e);
    lemma_one_more(b, e, o);
    if e.is_dir && !converts(b, e, o) {
        assert(skipped_names(c) =~= skipped_names(b).push(name));
    } else {
        assert(skipped_names(c) =~= skipped_names(b));
    }
    assert forall|n: Seq<char>| #[trigger] c.imported.contains(n) <==> b.imported.contains(n) || (
    converts(b, e, o) && n == name) by {
        if converts(b, e, o) {
            lemma_push_contains(b.imported, name, n);
        }
    }
    assert forall|n: Seq<char>| #[trigger] skipped_names(c).contains(n) <==> skipped_names(
        b,
    ).contains(n) || (e.is_dir && !converts(b, e, o) && n == name) by {
        lemma_push_contains(skipped_names(b), name, n);
    }
}

proof fn lemma_push_contains(s: Seq<Seq<char>>, x: Seq<char>, n: Seq<char>)
    ensures
        s.push(x).contains(n) <==> s.contains(n) || n == x,
{
    let t = s.push(x);
    if s.contains(n) {
        let i = choose|i: int| 0 <= i < s.len() && s[i] == n;
        assert(t[i] == n);
    }
    assert(t[s.len() as int] == x);
    if t.contains(n) && n != x {
        let i = choose|i: int| 0 <= i < t.len() && t[i] == n;
        assert(s[i] == n);
    }
}

proof fn lemma_directory_push(before: Seq<EntryView>, e: EntryView, n: Seq<char>)
    ensures
        is_directory(before.push(e), n) <==> is_directory(before, n) || (e.is_dir && n
            == reported_name(e)),
{
    let entries = before.push(e);
    if is_directory(before, n) {
        let k = choose|k: int|
            0 <= k < before.len() && (#[trigger] before[k]).is_dir && reported_name(before[k]) == n;
        assert(entries[k] == before[k]);
    }
    if e.is_dir && n == reported_name(e) {
        assert(entries[before.len() as int] == e);
    }
    if is_directory(entries, n) {
        let k = choose|k: int|
            0 <= k < entries.len() && (#[trigger] entries[k]).is_dir && reported_name(entries[k])
                == n;
        if k < before.len() {
            assert(before[k] == entries[k]);
        }
    }
}

/// If names are text, every directory is reported exactly once: as converted or
/// as left out and not as both, and both lists ascend, so that nothing stands in
/// one of them twice.
pub proof fn every_directory_is_reported_once(entries: Seq<EntryView>, o: Options)
    requires
        in_name_order(entries),
        forall|i: int| 0 <= i < entries.len() ==> valid_utf8((#[trigger] entries[i]).file_name),
    ensures
        ascend(converted(entries, o).imported),
        ascend(skipped_names(converted(entries, o))),
        converted(entries, o).imported.no_duplicates(),
        skipped_names(converted(entries, o)).no_duplicates(),
        forall|n: Seq<char>|
            is_directory(entries, n) <==> (#[trigger] converted(entries, o).imported.contains(n)
                || skipped_names(converted(entries, o)).contains(n)),
        forall|n: Seq<char>|
            !(#[trigger] converted(entries, o).imported.contains(n) && skipped_names(
                converted(entries, o),
            ).contains(n)),
    decreases entries.len(),
{
    directories_are_reported(entries, o);
    let c = converted(entries, o);
    if entries.len() > 0 {
        let before = entries.drop_last();
        let (b, e) = (converted(before, o), entries.last());
        let name = reported_name(e);
        assert(in_name_order(before)) by {
            assert forall|i: int, j: int| 0 <= i < j < before.len() implies !bytes_lt(
                (#[trigger] before[j]).file_name,
                (#[trigger] before[i]).file_name,
            ) && before[i].file_name != before[j].file_name by {
                assert(entries[i] == before[i] && entries[j] == before[j]);
            }
        }
        assert forall|i: int| 0 <= i < before.len() implies valid_utf8(
            (#[trigger] before[i]).file_name,
        ) by {
            assert(valid_utf8(entries[i].file_name));
        }
        every_directory_is_reported_once(before, o);
        lemma_one_more(b, e, o);
        lemma_reports_grow(b, e, o);
        // Whatever was reported before comes before the new name.
        assert forall|n: Seq<char>|
            #![trigger b.imported.contains(n)]
            #![trigger skipped_names(b).contains(n)]
            b.imported.contains(n) || skipped_names(b).contains(n) implies name_lt(n, name) by {
            assert(is_directory(before, n));
            let k = choose|k: int|
                0 <= k < before.len() && (#[trigger] before[k]).is_dir && reported_name(before[k])
                    == n;
            let last = entries.len() - 1;
            assert(entries[k] == before[k] && entries[last] == e);
            decode_utf8_encode_utf8(before[k].file_name);
            decode_utf8_encode_utf8(e.file_name);
            bytes_lt_total(before[k].file_name, e.file_name);
        }
        bytes_lt_irreflexive(encode_utf8(name));
        if converts(b, e, o) {
            lemma_ascend_push(b.imported, name);
        } else if e.is_dir {
            lemma_ascend_push(skipped_names(b), name);
        }
        assert forall|n: Seq<char>|
            !(#[trigger] c.imported.contains(n) && skipped_names(c).contains(n)) by {
            assert(!(b.imported.contains(n) && skipped_names(b).contains(n)));
            if n == name {
                assert(!b.imported.contains(name) && !skipped_names(b).contains(name));
            }
        }
    } else {
        assert(skipped_names(c) =~= seq![]);
    }
    lemma_ascend_distinct(c.imported);
    lemma_ascend_distinct(skipped_names(c));
}

proof fn lemma_ascend_push(s: Seq<Seq<char>>, x: Seq<char>)
    requires
        ascend(s),
        forall|n: Seq<char>| #[trigger] s.contains(n) ==> name_lt(n, x),
    ensures
        ascend(s.push(x)),
{
    let t = s.push(x);
    assert forall|i: int, j: int| 0 <= i < j < t.len() implies name_lt(
        #[trigger] t[i],
        #[trigger] t[j],
    ) by {
        if j < s.len() {
            assert(name_lt(s[i], s[j]));
        } else {
            assert(s.contains(s[i]));
        }
    }
}

proof fn lemma_ascend_distinct(s: Seq<Seq<char>>)
    requires
        ascend(s),
    ensures
        s.no_duplicates(),
{
    assert forall|i: int, j: int| 0 <= i < s.len() && 0 <= j < s.len() && i != j implies s[i]
        != s[j] by {
        bytes_lt_irreflexive(encode_utf8(s[i]));
        if i < j {
            assert(name_lt(s[i], s[j]));
        } else {
            assert(name_lt(s[j], s[i]));
        }
    }
}

/// The file of a unit is one that the daemon reads.
pub proof fn unit_files_are_found(unit: Seq<char>)
    requires
        unit.len() > 0,
    ensures
        names_unit_file(encode_utf8(unit + ".toml"@)),
{
    reveal_strlit(".toml");
    let end = ".toml"@;
    joined_bytes(unit, end);
    is_ascii_chars_encode_utf8(end);
    let (a, b) = (encode_utf8(unit), encode_utf8(end));
    assert(a.len() > 0);
    assert(b =~= seq![0x2eu8, 0x74u8, 0x6fu8, 0x6du8, 0x6cu8]);
    assert((a + b).subrange(a.len() as int, (a + b).len() as int) =~= b);
}

} // verus!
