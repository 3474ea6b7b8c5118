//! Conversion of runit services into unit files.
//!
//! A runit service is a directory with an executable `run` script, which runit
//! runs in that directory and starts again whenever it exits. The unit that is
//! made of it does the same with the same script.

use crate::order::strings;
use crate::sort::{in_key_order, sort_by_key, Keyed};
use crate::text::{bytes_lt, decimal, decimal_text, same_text, utf8_text};
use vstd::prelude::*;
use vstd::seq_lib::*;
use vstd::string::*;
use vstd::utf8::{decode_utf8, valid_utf8};

verus! {

/// What came of a conversion.
#[derive(Debug)]
pub struct Summary {
    /// The services that were converted.
    pub imported: Vec<String>,
    /// The services that were not converted, and why.
    pub skipped: Vec<(String, String)>,
    /// Services that were converted, but have something that units have no
    /// equivalent for.
    pub notes: Vec<(String, String)>,
}

/// How to convert.
#[derive(Clone, Copy, PartialEq, Eq, Structural, Debug)]
pub struct Options {
    /// Overwrite unit files that exist already.
    pub force: bool,
    /// Convert services that runit does not start on its own.
    pub include_down: bool,
}

/// Something in a directory of runit services, and what was found out about
/// it.
#[derive(Debug)]
pub struct Entry {
    /// The bytes of its name.
    pub file_name: Vec<u8>,
    /// Its path.
    pub path: String,
    pub is_dir: bool,
    /// The permission bits of its `run` file, if there is one.
    pub run_mode: Option<u32>,
    /// It has a file `down`.
    pub down: bool,
    /// It has a directory `log`.
    pub log: bool,
    /// It has a file `finish`.
    pub finish: bool,
    /// The absolute path of its `run` file.
    pub run_abs: String,
    /// Its own absolute path.
    pub dir_abs: String,
    /// The path of the unit file that is made of it.
    pub unit_path: String,
    /// That file exists.
    pub unit_exists: bool,
    /// The unit file that may be made alongside exists.
    pub coldplug_exists: bool,
}

/// An entry, with its strings as character sequences.
pub struct EntryView {
    pub file_name: Seq<u8>,
    pub path: Seq<char>,
    pub is_dir: bool,
    pub run_mode: Option<u32>,
    pub down: bool,
    pub log: bool,
    pub finish: bool,
    pub run_abs: Seq<char>,
    pub dir_abs: Seq<char>,
    pub unit_path: Seq<char>,
    pub unit_exists: bool,
    pub coldplug_exists: bool,
}

impl View for Entry {
    type V = EntryView;

    open spec fn view(&self) -> EntryView {
        EntryView {
            file_name: self.file_name@,
            path: self.path@,
            is_dir: self.is_dir,
            run_mode: self.run_mode,
            down: self.down,
            log: self.log,
            finish: self.finish,
            run_abs: self.run_abs@,
            dir_abs: self.dir_abs@,
            unit_path: self.unit_path@,
            unit_exists: self.unit_exists,
            coldplug_exists: self.coldplug_exists,
        }
    }
}

impl Keyed for Entry {
    open spec fn key(&self) -> Seq<u8> {
        self.file_name@
    }

    fn key_bytes(&self) -> (r: &[u8]) {
        self.file_name.as_slice()
    }
}

/// A unit file to be written.
#[derive(Debug)]
pub struct UnitFile {
    /// The unit's name. The file is called so, with `.toml` behind it.
    pub unit: String,
    pub text: String,
}

/// A unit file, as plain values.
pub struct FileView {
    pub unit: Seq<char>,
    pub text: Seq<char>,
}

impl View for UnitFile {
    type V = FileView;

    open spec fn view(&self) -> FileView {
        FileView { unit: self.unit@, text: self.text@ }
    }
}

/// What a conversion comes to: what is reported, and the files to be written,
/// in this order.
#[derive(Debug)]
pub struct Conversion {
    pub summary: Summary,
    pub files: Vec<UnitFile>,
}

/// What a conversion comes to, as plain values.
#[verifier::ext_equal]
pub struct ConversionView {
    pub imported: Seq<Seq<char>>,
    pub skipped: Seq<(Seq<char>, Seq<char>)>,
    pub notes: Seq<(Seq<char>, Seq<char>)>,
    pub files: Seq<FileView>,
}

/// Pairs of strings as plain values.
pub open spec fn pairs(s: Seq<(String, String)>) -> Seq<(Seq<char>, Seq<char>)> {
    s.map_values(|p: (String, String)| (p.0@, p.1@))
}

/// Unit files as plain values.
pub open spec fn file_views(s: Seq<UnitFile>) -> Seq<FileView> {
    s.map_values(|f: UnitFile| f@)
}

impl View for Conversion {
    type V = ConversionView;

    open spec fn view(&self) -> ConversionView {
        ConversionView {
            imported: strings(self.summary.imported@),
            skipped: pairs(self.summary.skipped@),
            notes: pairs(self.summary.notes@),
            files: file_views(self.files@),
        }
    }
}

/// The characters of a TOML basic string: a backslash stands before each
/// backslash and quotation mark.
pub open spec fn escaped(s: Seq<char>) -> Seq<char>
    decreases s.len(),
{
    if s.len() == 0 {
        seq![]
    } else {
        let before = escaped(s.drop_last());
        let c = s.last();
        if c == '\\' || c == '"' {
            before + seq!['\\', c]
        } else {
            before.push(c)
        }
    }
}

/// A string in quotation marks, as TOML writes it. Only backslashes and
/// quotation marks are escaped, which is enough for file names.
pub open spec fn toml_text(s: Seq<char>) -> Seq<char> {
    seq!['"'] + escaped(s) + seq!['"']
}

/// Writes a string as a TOML basic string.
pub fn toml_string(s: &str) -> (r: String)
    ensures
        r@ == toml_text(s@),
{
    let mut out = String::new();
    out.push('"');
    let n = s.unicode_len();
    let mut i: usize = 0;
    assert(s@.take(0) =~= seq![]);
    assert(out@ =~= seq!['"'] + escaped(s@.take(0)));
    while i < n
        invariant
            i <= n,
            n == s@.len(),
            out@ == seq!['"'] + escaped(s@.take(i as int)),
        decreases n - i,
    {
        let c = s.get_char(i);
        assert(s@.take(i + 1).drop_last() =~= s@.take(i as int));
        if c == '\\' || c == '"' {
            out.push('\\');
        }
        out.push(c);
        i = i + 1;
        assert(out@ =~= seq!['"'] + escaped(s@.take(i as int)));
    }
    assert(s@.take(n as int) =~= s@);
    out.push('"');
    assert(out@ =~= toml_text(s@));
    out
}

/// Reads the characters of a TOML basic string up to its closing quotation
/// mark, and gives the string that they stand for and what follows the mark.
/// `None` if there is no such mark, or a backslash stands before anything but
/// a backslash or a quotation mark.
pub open spec fn basic_string(t: Seq<char>) -> Option<(Seq<char>, Seq<char>)>
    decreases t.len(),
{
    if t.len() == 0 {
        None
    } else if t[0] == '"' {
        Some((seq![], t.skip(1)))
    } else if t[0] == '\\' {
        if t.len() >= 2 && (t[1] == '\\' || t[1] == '"') {
            match basic_string(t.skip(2)) {
                Some((s, rest)) => Some((seq![t[1]] + s, rest)),
                None => None,
            }
        } else {
            None
        }
    } else {
        match basic_string(t.skip(1)) {
            Some((s, rest)) => Some((seq![t[0]] + s, rest)),
            None => None,
        }
    }
}

/// A string that was written as a TOML string is read back, and the reader
/// stops right behind it.
pub proof fn toml_string_is_read_back(s: Seq<char>, rest: Seq<char>)
    ensures
        (toml_text(s) + rest)[0] == '"',
        basic_string((toml_text(s) + rest).skip(1)) == Some((s, rest)),
{
    let t = seq!['"'] + rest;
    assert((toml_text(s) + rest).skip(1) =~= escaped(s) + t);
    assert(t.skip(1) =~= rest);
    lemma_read_escaped(s, t);
    assert(s + seq![] =~= s);
}

/// Characters are escaped one by one: a backslash is put before a backslash and
/// a quotation mark, and any other character stands for itself.
pub proof fn characters_are_escaped_one_by_one(a: Seq<char>, c: char, b: Seq<char>)
    ensures
        escaped(a.push(c) + b) == escaped(a) + (if c == '\\' || c == '"' {
            seq!['\\', c]
        } else {
            seq![c]
        }) + escaped(b),
        escaped(Seq::<char>::empty()).len() == 0,
    decreases b.len(),
{
    let whole = a.push(c) + b;
    if b.len() == 0 {
        assert(whole =~= a.push(c));
        assert(whole.drop_last() =~= a);
    } else {
        characters_are_escaped_one_by_one(a, c, b.drop_last());
        assert(whole.drop_last() =~= a.push(c) + b.drop_last());
    }
}

/// A string that needs no escaping stands between quotation marks as it is.
pub proof fn plain_strings_are_quoted_as_they_are(s: Seq<char>)
    requires
        !s.contains('\\'),
        !s.contains('"'),
    ensures
        toml_text(s) == seq!['"'] + s + seq!['"'],
{
    lemma_plain(s);
}

proof fn lemma_plain(s: Seq<char>)
    requires
        !s.contains('\\'),
        !s.contains('"'),
    ensures
        escaped(s) == s,
    decreases s.len(),
{
    if s.len() > 0 {
        let before = s.drop_last();
        assert(s[s.len() - 1] == s.last());
        assert forall|c: char| #[trigger] before.contains(c) implies s.contains(c) by {
            let i = choose|i: int| 0 <= i < before.len() && before[i] == c;
            assert(s[i] == c);
        }
        lemma_plain(before);
        assert(before.push(s.last()) =~= s);
    }
}

/// Escaped characters are read one after the other.
proof fn lemma_read_escaped(s: Seq<char>, t: Seq<char>)
    ensures
        basic_string(escaped(s) + t) == match basic_string(t) {
            Some((r, rest)) => Some((s + r, rest)),
            None => None,
        },
    decreases s.len(),
{
    if s.len() == 0 {
        assert(escaped(s) + t =~= t);
        match basic_string(t) {
            Some((r, rest)) => {
                assert(s + r =~= r);
            },
            None => {},
        }
    } else {
        let (p, c) = (s.drop_last(), s.last());
        let u = if c == '\\' || c == '"' {
            seq!['\\', c] + t
        } else {
            seq![c] + t
        };
        assert(escaped(s) + t =~= escaped(p) + u);
        lemma_read_escaped(p, u);
        assert((seq!['\\', c] + t).skip(2) =~= t);
        assert((seq![c] + t).skip(1) =~= t);
        match basic_string(t) {
            Some((r, rest)) => {
                assert(p + (seq![c] + r) =~= s + r);
            },
            None => {},
        }
    }
}

// What a service is converted to.

pub open spec fn down_note() -> Seq<char> {
    "had a 'down' file (started disabled under runit) — apollo has no equivalent yet, so this unit WILL auto-start; remove the generated unit file if that's not wanted"@
}

pub open spec fn log_note() -> Seq<char> {
    "had a 'log/' service — runit piped its output there; apollo has no log capture yet (see README roadmap), so this unit's output now just inherits apollod's own console instead"@
}

pub open spec fn finish_note() -> Seq<char> {
    "had a 'finish' script — runit ran this on exit for cleanup; apollo has no equivalent hook, it was not migrated"@
}

/// What a service has that units have no equivalent for.
pub open spec fn entry_notes(e: EntryView) -> Seq<Seq<char>> {
    (if e.down {
        seq![down_note()]
    } else {
        seq![]
    }) + (if e.log {
        seq![log_note()]
    } else {
        seq![]
    }) + (if e.finish {
        seq![finish_note()]
    } else {
        seq![]
    })
}

/// Notes as comments in a unit file.
pub open spec fn note_lines(notes: Seq<Seq<char>>) -> Seq<char>
    decreases notes.len(),
{
    if notes.len() == 0 {
        seq![]
    } else {
        note_lines(notes.drop_last()) + "# NOTE: "@ + notes.last() + "\n"@
    }
}

/// The unit file that is made of a service: it runs the service's own script
/// in the service's own directory, and does so again whenever it exits.
pub open spec fn unit_text(name: Seq<char>, e: EntryView) -> Seq<char> {
    "# Imported from the runit service '"@ + name + "' at "@ + e.path + ".\n"@ + note_lines(
        entry_notes(e),
    ) + "name = "@ + toml_text(name) + "\n"@ + "exec = ["@ + toml_text(e.run_abs) + "]\n"@
        + "working-dir = "@ + toml_text(e.dir_abs) + "\n"@ + "restart = \"always\"\n"@
}

/// The service looks like the device manager itself.
pub open spec fn is_device_manager(name: Seq<char>) -> bool {
    exists|k: int|
        0 <= k && k + 4 <= name.len() && #[trigger] name.subrange(k, k + 4) == seq![
            'u',
            'd',
            'e',
            'v',
        ]
}

/// The unit that runs once after the device manager, to have drivers loaded
/// for the devices that are there already.
pub open spec fn coldplug_name(name: Seq<char>) -> Seq<char> {
    name + "-coldplug"@
}

/// The unit file of [`coldplug_name`].
pub open spec fn coldplug_text(name: Seq<char>) -> Seq<char> {
    "# Generated alongside the runit service '"@ + name + "'.\n"@ + "name = "@ + toml_text(
        coldplug_name(name),
    ) + "\n"@
        + "exec = [\"/bin/sh\", \"-c\", \"sleep 1; udevadm trigger --action=add && udevadm settle\"]\n"@
        + "after = ["@ + toml_text(name) + "]\n"@ + "restart = \"no\"\n"@
}

/// The file of a unit.
pub fn unit_file_name(unit: &str) -> (r: String)
    ensures
        r@ == unit@ + ".toml"@,
{
    let mut s = unit.to_owned();
    s.append(".toml");
    s
}

/// The unit that may be made alongside the one of this name.
pub fn coldplug_unit_name(name: &str) -> (r: String)
    ensures
        r@ == coldplug_name(name@),
{
    let mut s = name.to_owned();
    s.append("-coldplug");
    s
}

// What is converted.

pub open spec fn already_exists(path: Seq<char>) -> Seq<char> {
    path + " already exists (use --force to overwrite)"@
}

/// A unit of this name is among the files.
pub open spec fn written(files: Seq<FileView>, unit: Seq<char>) -> bool {
    exists|i: int| 0 <= i < files.len() && (#[trigger] files[i]).unit == unit
}

/// Why a service is not converted, if it is not. `taken` if its unit file
/// exists already.
pub open spec fn skip_reason(e: EntryView, taken: bool, o: Options) -> Option<Seq<char>> {
    match e.run_mode {
        None => Some("no 'run' file"@),
        Some(mode) => if mode & 0o111 == 0 {
            Some("'run' file isn't executable"@)
        } else if e.down && !o.include_down {
            Some("has a 'down' file (use --include-down to convert it anyway)"@)
        } else if taken && !o.force {
            Some(already_exists(e.unit_path))
        } else {
            None
        },
    }
}

/// The conversion with a unit file added.
pub open spec fn with_file(c: ConversionView, unit: Seq<char>, text: Seq<char>) -> ConversionView {
    ConversionView { files: c.files.push(FileView { unit, text }), ..c }
}

/// The conversion with a service left out.
pub open spec fn with_skipped(
    c: ConversionView,
    name: Seq<char>,
    reason: Seq<char>,
) -> ConversionView {
    ConversionView { skipped: c.skipped.push((name, reason)), ..c }
}

/// The conversion with the unit made alongside the device manager. Its file is
/// not written over another unless that is wanted. It is no service, so it is
/// not reported as one.
pub open spec fn with_coldplug(
    c: ConversionView,
    name: Seq<char>,
    e: EntryView,
    o: Options,
) -> ConversionView {
    let unit = coldplug_name(name);
    if is_device_manager(name) && (o.force || !(e.coldplug_exists || written(c.files, unit))) {
        with_file(c, unit, coldplug_text(name))
    } else {
        c
    }
}

/// The conversion with a service converted, or skipped.
pub open spec fn with_service(
    c: ConversionView,
    name: Seq<char>,
    e: EntryView,
    o: Options,
) -> ConversionView {
    match skip_reason(e, e.unit_exists || written(c.files, name), o) {
        Some(reason) => with_skipped(c, name, reason),
        None => with_coldplug(
            with_file(
                ConversionView {
                    imported: c.imported.push(name),
                    notes: c.notes + entry_notes(e).map_values(|n: Seq<char>| (name, n)),
                    ..c
                },
                name,
                unit_text(name, e),
            ),
            name,
            e,
            o,
        ),
    }
}

/// The conversion with one more entry dealt with. What is no directory is
/// passed over.
pub open spec fn with_entry(c: ConversionView, e: EntryView, o: Options) -> ConversionView {
    if !e.is_dir {
        c
    } else if !valid_utf8(e.file_name) {
        with_skipped(c, e.path, "non-UTF-8 directory name"@)
    } else {
        with_service(c, decode_utf8(e.file_name), e, o)
    }
}

/// What the conversion of entries comes to, in their order.
pub open spec fn converted(entries: Seq<EntryView>, o: Options) -> ConversionView
    decreases entries.len(),
{
    if entries.len() == 0 {
        ConversionView { imported: seq![], skipped: seq![], notes: seq![], files: seq![] }
    } else {
        with_entry(converted(entries.drop_last(), o), entries.last(), o)
    }
}

/// Entries as plain values.
pub open spec fn entry_views(s: Seq<Entry>) -> Seq<EntryView> {
    s.map_values(|e: Entry| e@)
}

fn notes_of(e: &Entry) -> (r: Vec<String>)
    ensures
        strings(r@) == entry_notes(e@),
{
    let mut notes: Vec<String> = Vec::new();
    if e.down {
        notes.push(
            "had a 'down' file (started disabled under runit) — apollo has no equivalent yet, so this unit WILL auto-start; remove the generated unit file if that's not wanted".to_owned(),
        );
    }
    if e.log {
        notes.push(
            "had a 'log/' service — runit piped its output there; apollo has no log capture yet (see README roadmap), so this unit's output now just inherits apollod's own console instead".to_owned(),
        );
    }
    if e.finish {
        notes.push(
            "had a 'finish' script — runit ran this on exit for cleanup; apollo has no equivalent hook, it was not migrated".to_owned(),
        );
    }
    assert(strings(notes@) =~= entry_notes(e@));
    notes
}

fn unit_file_text(name: &str, e: &Entry, notes: &Vec<String>) -> (r: String)
    requires
        strings(notes@) == entry_notes(e@),
    ensures
        r@ == unit_text(name@, e@),
{
    let mut s = "# Imported from the runit service '".to_owned();
    s.append(name);
    s.append("' at ");
    s.append(e.path.as_str());
    s.append(".\n");
    let ghost head = s@;
    let ghost all = strings(notes@);
    let mut i: usize = 0;
    assert(s@ =~= head + note_lines(all.take(0)));
    while i < notes.len()
        invariant
            i <= notes.len(),
            all == strings(notes@),
            s@ == head + note_lines(all.take(i as int)),
        decreases notes.len() - i,
    {
        s.append("# NOTE: ");
        s.append(notes[i].as_str());
        s.append("\n");
        assert(all.take(i + 1).drop_last() =~= all.take(i as int));
        assert(all.take(i + 1).last() == notes@[i as int]@);
        i = i + 1;
        assert(s@ =~= head + note_lines(all.take(i as int)));
    }
    assert(all.take(i as int) =~= all);
    s.append("name = ");
    s.append(toml_string(name).as_str());
    s.append("\n");
    s.append("exec = [");
    s.append(toml_string(e.run_abs.as_str()).as_str());
    s.append("]\n");
    s.append("working-dir = ");
    s.append(toml_string(e.dir_abs.as_str()).as_str());
    s.append("\n");
    s.append("restart = \"always\"\n");
    s
}

fn coldplug_unit(name: &str) -> (r: UnitFile)
    ensures
        r@ == (FileView { unit: coldplug_name(name@), text: coldplug_text(name@) }),
{
    let unit = coldplug_unit_name(name);
    let mut s = "# Generated alongside the runit service '".to_owned();
    s.append(name);
    s.append("'.\n");
    s.append("name = ");
    s.append(toml_string(unit.as_str()).as_str());
    s.append("\n");
    s.append(
        "exec = [\"/bin/sh\", \"-c\", \"sleep 1; udevadm trigger --action=add && udevadm settle\"]\n",
    );
    s.append("after = [");
    s.append(toml_string(name).as_str());
    s.append("]\n");
    s.append("restart = \"no\"\n");
    UnitFile { unit, text: s }
}

fn looks_like_device_manager(name: &str) -> (r: bool)
    ensures
        r == is_device_manager(name@),
{
    let n = name.unicode_len();
    let ghost word = seq!['u', 'd', 'e', 'v'];
    let mut k: usize = 0;
    while k < n && n - k >= 4
        invariant
            k <= n,
            n == name@.len(),
            word == seq!['u', 'd', 'e', 'v'],
            forall|j: int| 0 <= j < k && j + 4 <= n ==> #[trigger] name@.subrange(j, j + 4) != word,
        decreases n - k,
    {
        let ghost part = name@.subrange(k as int, k + 4);
        if name.get_char(k) == 'u' && name.get_char(k + 1) == 'd' && name.get_char(k + 2) == 'e'
            && name.get_char(k + 3) == 'v' {
            assert(part =~= word);
            return true;
        }
        proof {
            if part == word {
                assert(part[0] == 'u' && part[1] == 'd' && part[2] == 'e' && part[3] == 'v');
            }
        }
        k = k + 1;
    }
    false
}

fn is_written(files: &Vec<UnitFile>, unit: &str) -> (r: bool)
    ensures
        r == written(file_views(files@), unit@),
{
    let mut i: usize = 0;
    while i < files.len()
        invariant
            i <= files.len(),
            forall|j: int| 0 <= j < i ==> (#[trigger] file_views(files@)[j]).unit != unit@,
        decreases files.len() - i,
    {
        if same_text(files[i].unit.as_str(), unit) {
            assert(file_views(files@)[i as int].unit == unit@);
            return true;
        }
        i = i + 1;
    }
    false
}

fn exists_text(path: &str) -> (r: String)
    ensures
        r@ == already_exists(path@),
{
    let mut s = path.to_owned();
    s.append(" already exists (use --force to overwrite)");
    s
}

/// Decides whether a service is left out, and why.
fn reason_to_skip(e: &Entry, taken: bool, o: Options) -> (r: Option<String>)
    ensures
        match r {
            Some(reason) => skip_reason(e@, taken, o) == Some(reason@),
            None => skip_reason(e@, taken, o) is None,
        },
        r is None <==> (e.run_mode matches Some(mode) && mode & 0o111 != 0) && (!e.down
            || o.include_down) && (!taken || o.force),
{
    match e.run_mode {
        None => Some("no 'run' file".to_owned()),
        Some(mode) => if mode & 0o111 == 0 {
            Some("'run' file isn't executable".to_owned())
        } else if e.down && !o.include_down {
            Some("has a 'down' file (use --include-down to convert it anyway)".to_owned())
        } else if taken && !o.force {
            Some(exists_text(e.unit_path.as_str()))
        } else {
            None
        },
    }
}

impl Conversion {
    fn new() -> (r: Conversion)
        ensures
            forall|o: Options| r@ == #[trigger] converted(seq![], o),
    {
        let r = Conversion {
            summary: Summary { imported: Vec::new(), skipped: Vec::new(), notes: Vec::new() },
            files: Vec::new(),
        };
        assert(r@.imported =~= seq![]);
        assert(r@.skipped =~= seq![]);
        assert(r@.notes =~= seq![]);
        assert(r@.files =~= seq![]);
        r
    }

    fn skip(&mut self, name: String, reason: String)
        ensures
            final(self)@ == with_skipped(old(self)@, name@, reason@),
    {
        self.summary.skipped.push((name, reason));
        assert(self@.skipped =~= old(self)@.skipped.push((name@, reason@)));
        assert(self@ =~= with_skipped(old(self)@, name@, reason@));
    }

    fn add_file(&mut self, file: UnitFile)
        ensures
            final(self)@ == with_file(old(self)@, file.unit@, file.text@),
    {
        self.files.push(file);
        assert(self@.files =~= old(self)@.files.push(file@));
        assert(self@ =~= with_file(old(self)@, file.unit@, file.text@));
    }

    fn import(&mut self, name: &str, notes: &Vec<String>)
        ensures
            final(self)@ == (ConversionView {
                imported: old(self)@.imported.push(name@),
                notes: old(self)@.notes + strings(notes@).map_values(
                    |n: Seq<char>| (name@, n),
                ),
                ..old(self)@
            }),
    {
        self.summary.imported.push(name.to_owned());
        assert(self@.imported =~= old(self)@.imported.push(name@));
        let ghost all = strings(notes@).map_values(|n: Seq<char>| (name@, n));
        let mut i: usize = 0;
        assert(self@.notes =~= old(self)@.notes + all.take(0));
        while i < notes.len()
            invariant
                i <= notes.len(),
                all == strings(notes@).map_values(|n: Seq<char>| (name@, n)),
                self@ == (ConversionView {
                    imported: old(self)@.imported.push(name@),
                    notes: old(self)@.notes + all.take(i as int),
                    ..old(self)@
                }),
            decreases notes.len() - i,
        {
            let ghost before = self@.notes;
            self.summary.notes.push((name.to_owned(), notes[i].clone()));
            i = i + 1;
            assert(self@.notes =~= before.push((name@, notes@[i - 1]@)));
            assert(self@.notes =~= old(self)@.notes + all.take(i as int));
        }
        assert(all.take(i as int) =~= all);
    }

    /// Converts one service.
    fn convert_one(&mut self, name: String, e: &Entry, o: Options)
        ensures
            final(self)@ == with_service(old(self)@, name@, e@, o),
    {
        let taken = e.unit_exists || is_written(&self.files, name.as_str());
        match reason_to_skip(e, taken, o) {
            Some(reason) => {
                self.skip(name, reason);
            },
            None => {
                let notes = notes_of(e);
                self.import(name.as_str(), &notes);
                let text = unit_file_text(name.as_str(), e, &notes);
                self.add_file(UnitFile { unit: name.clone(), text });
                if looks_like_device_manager(name.as_str()) {
                    let file = coldplug_unit(name.as_str());
                    if o.force || !(e.coldplug_exists || is_written(
                        &self.files,
                        file.unit.as_str(),
                    )) {
                        self.add_file(file);
                    }
                }
            },
        }
    }
}

/// Converts the runit services in a directory, in the order of their names.
pub fn convert(entries: Vec<Entry>, o: Options) -> (r: Conversion)
    ensures
        exists|sorted: Seq<Entry>| #[trigger]
            in_key_order(sorted) && sorted.to_multiset() == entries@.to_multiset() && (forall|
                i: int,
                j: int,
            |
                0 <= i < j < sorted.len() ==> !bytes_lt(
                    (#[trigger] sorted[j]).file_name@,
                    (#[trigger] sorted[i]).file_name@,
                )) && r@ == converted(entry_views(sorted), o),
{
    let sorted = sort_by_key(entries);
    let ghost all = entry_views(sorted@);
    let mut c = Conversion::new();
    let mut i: usize = 0;
    assert(all.take(0) =~= seq![]);
    while i < sorted.len()
        invariant
            i <= sorted.len(),
            all == entry_views(sorted@),
            c@ == converted(all.take(i as int), o),
        decreases sorted.len() - i,
    {
        let e = &sorted[i];
        assert(all.take(i + 1).drop_last() =~= all.take(i as int));
        assert(all.take(i + 1).last() == e@);
        if e.is_dir {
            match utf8_text(e.file_name.as_slice()) {
                Some(name) => {
                    c.convert_one(name, e, o);
                },
                None => {
                    c.skip(e.path.clone(), "non-UTF-8 directory name".to_owned());
                },
            }
        }
        i = i + 1;
    }
    assert(all.take(i as int) =~= all);
    assert(in_key_order(sorted@));
    assert forall|i: int, j: int| 0 <= i < j < sorted@.len() implies !bytes_lt(
        (#[trigger] sorted@[j]).file_name@,
        (#[trigger] sorted@[i]).file_name@,
    ) by {
        assert(!bytes_lt(sorted@[j].key(), sorted@[i].key()));
    }
    c
}

// The report.

/// A line of the report, and where it goes.
#[derive(Debug)]
pub enum Line {
    /// To standard output.
    Plain(String),
    /// To standard error.
    Problem(String),
}

/// A line, as plain values.
pub enum LineView {
    Plain(Seq<char>),
    Problem(Seq<char>),
}

impl View for Line {
    type V = LineView;

    open spec fn view(&self) -> LineView {
        match self {
            Line::Plain(s) => LineView::Plain(s@),
            Line::Problem(s) => LineView::Problem(s@),
        }
    }
}

pub open spec fn imported_line(name: Seq<char>) -> LineView {
    LineView::Plain("imported: "@ + name)
}

pub open spec fn skipped_line(p: (Seq<char>, Seq<char>)) -> LineView {
    LineView::Problem("skipped "@ + p.0 + ": "@ + p.1)
}

pub open spec fn note_line(p: (Seq<char>, Seq<char>)) -> LineView {
    LineView::Problem("note ("@ + p.0 + "): "@ + p.1)
}

pub open spec fn count_line(imported: nat, skipped: nat) -> LineView {
    LineView::Plain(decimal(imported) + " imported, "@ + decimal(skipped) + " skipped"@)
}

/// What is told about a conversion: what was converted, what was not, what
/// needs attention, and how much there was.
pub open spec fn report_lines(
    imported: Seq<Seq<char>>,
    skipped: Seq<(Seq<char>, Seq<char>)>,
    notes: Seq<(Seq<char>, Seq<char>)>,
) -> Seq<LineView> {
    imported.map_values(|n: Seq<char>| imported_line(n)) + skipped.map_values(
        |p: (Seq<char>, Seq<char>)| skipped_line(p),
    ) + notes.map_values(|p: (Seq<char>, Seq<char>)| note_line(p)) + seq![
        count_line(imported.len(), skipped.len()),
    ]
}

/// Lines as plain values.
pub open spec fn line_views(s: Seq<Line>) -> Seq<LineView> {
    s.map_values(|l: Line| l@)
}

/// The lines that tell about a conversion.
pub fn report(summary: &Summary) -> (r: Vec<Line>)
    ensures
        line_views(r@) == report_lines(
            strings(summary.imported@),
            pairs(summary.skipped@),
            pairs(summary.notes@),
        ),
{
    let mut lines: Vec<Line> = Vec::new();
    let ghost first = strings(summary.imported@).map_values(|n: Seq<char>| imported_line(n));
    let mut i: usize = 0;
    assert(line_views(lines@) =~= first.take(0));
    while i < summary.imported.len()
        invariant
            i <= summary.imported.len(),
            first == strings(summary.imported@).map_values(|n: Seq<char>| imported_line(n)),
            line_views(lines@) == first.take(i as int),
        decreases summary.imported.len() - i,
    {
        let ghost before = line_views(lines@);
        let mut s = "imported: ".to_owned();
        s.append(summary.imported[i].as_str());
        lines.push(Line::Plain(s));
        i = i + 1;
        assert(line_views(lines@) =~= before.push(first[i - 1]));
        assert(line_views(lines@) =~= first.take(i as int));
    }
    let ghost second = pairs(summary.skipped@).map_values(
        |p: (Seq<char>, Seq<char>)| skipped_line(p),
    );
    i = 0;
    assert(line_views(lines@) =~= first + second.take(0));
    while i < summary.skipped.len()
        invariant
            i <= summary.skipped.len(),
            second == pairs(summary.skipped@).map_values(
                |p: (Seq<char>, Seq<char>)| skipped_line(p),
            ),
            line_views(lines@) == first + second.take(i as int),
        decreases summary.skipped.len() - i,
    {
        let ghost before = line_views(lines@);
        let mut s = "skipped ".to_owned();
        s.append(summary.skipped[i].0.as_str());
        s.append(": ");
        s.append(summary.skipped[i].1.as_str());
        lines.push(Line::Problem(s));
        i = i + 1;
        assert(line_views(lines@) =~= before.push(second[i - 1]));
        assert(line_views(lines@) =~= first + second.take(i as int));
    }
    assert(second.take(i as int) =~= second);
    let ghost third = pairs(summary.notes@).map_values(|p: (Seq<char>, Seq<char>)| note_line(p));
    i = 0;
    assert(line_views(lines@) =~= first + second + third.take(0));
    while i < summary.notes.len()
        invariant
            i <= summary.notes.len(),
            third == pairs(summary.notes@).map_values(
                |p: (Seq<char>, Seq<char>)| note_line(p),
            ),
            line_views(lines@) == first + second + third.take(i as int),
        decreases summary.notes.len() - i,
    {
        let ghost before = line_views(lines@);
        let mut s = "note (".to_owned();
        s.append(summary.notes[i].0.as_str());
        s.append("): ");
        s.append(summary.notes[i].1.as_str());
        lines.push(Line::Problem(s));
        i = i + 1;
        assert(line_views(lines@) =~= before.push(third[i - 1]));
        assert(line_views(lines@) =~= first + second + third.take(i as int));
    }
    assert(third.take(i as int) =~= third);
    let ghost before = line_views(lines@);
    let mut s = decimal_text(summary.imported.len() as u64);
    s.append(" imported, ");
    s.append(decimal_text(summary.skipped.len() as u64).as_str());
    s.append(" skipped");
    lines.push(Line::Plain(s));
    assert(line_views(lines@) =~= before.push(
        count_line(summary.imported@.len(), summary.skipped@.len()),
    ));
    lines
}

} // verus!
