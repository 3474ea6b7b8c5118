//! Unit definitions: what a unit file says, and the set of units it makes.

use crate::order::{distinct_names, graph};
use crate::sort::{in_key_order, increasing, order_is_unique, sort_by_key, Keyed};
use crate::text::{
    bytes_before, bytes_lt, bytes_lt_irreflexive, bytes_lt_total, bytes_lt_transitive, name_lt,
    same_bytes_same_string,
};
use std::collections::HashMap;
use std::path::PathBuf;
use vstd::multiset::Multiset;
use vstd::prelude::*;
use vstd::seq_lib::*;
use vstd::slice::slice_subrange;
use vstd::string::*;
use vstd::utf8::{encode_utf8, is_ascii_chars_encode_utf8};

verus! {

/// `std::path::PathBuf`, carried through without being looked at.
#[verifier::external_type_specification]
#[verifier::external_body]
pub struct ExPathBuf(PathBuf);

/// When a unit that exited on its own is started again.
#[derive(Clone, Copy, PartialEq, Eq, Structural, Debug)]
pub enum RestartPolicy {
    No,
    Always,
    OnFailure,
}

impl Default for RestartPolicy {
    fn default() -> (r: Self)
        ensures
            r == RestartPolicy::No,
    {
        RestartPolicy::No
    }
}

/// A unit definition, as a `*.toml` unit file gives it.
#[derive(Clone, Debug)]
pub struct UnitConfig {
    pub name: String,
    /// The unit file's `exec` list: the program, then its arguments.
    pub argv: Vec<String>,
    pub restart: RestartPolicy,
    /// Names of the units to be started before this one.
    pub after: Vec<String>,
    pub env: HashMap<String, String>,
    /// Directory to change into before running the command.
    pub working_dir: Option<PathBuf>,
}

impl Keyed for UnitConfig {
    open spec fn key(&self) -> Seq<u8> {
        encode_utf8(self.name@)
    }

    fn key_bytes(&self) -> (r: &[u8]) {
        self.name.as_str().as_bytes()
    }
}

/// How the process of a unit is started.
#[derive(Debug)]
pub struct Launch<'a> {
    pub program: &'a String,
    pub args: &'a [String],
    /// What is added to the daemon's own environment.
    pub env: &'a HashMap<String, String>,
    /// The directory to start in, or the daemon's own.
    pub working_dir: &'a Option<PathBuf>,
}

impl UnitConfig {
    /// How the unit's process is started: the first word of the command is the
    /// program. There is no way to start a unit whose command is empty.
    pub fn launch(&self) -> (r: Option<Launch<'_>>)
        ensures
            match r {
                Some(l) => {
                    &&& self.argv@.len() > 0
                    &&& *l.program == self.argv@[0]
                    &&& l.args@ == self.argv@.skip(1)
                    &&& *l.env == self.env
                    &&& *l.working_dir == self.working_dir
                },
                None => self.argv@.len() == 0,
            },
    {
        let n = self.argv.len();
        if n == 0 {
            return None;
        }
        let args = slice_subrange(self.argv.as_slice(), 1, n);
        assert(args@ =~= self.argv@.skip(1));
        Some(
            Launch {
                program: &self.argv[0],
                args,
                env: &self.env,
                working_dir: &self.working_dir,
            },
        )
    }
}

/// A file name that names a unit file: something, and then `.toml`.
pub open spec fn names_unit_file(file_name: Seq<u8>) -> bool {
    &&& file_name.len() > 5
    &&& file_name.subrange(file_name.len() - 5, file_name.len() as int) == seq![
        0x2eu8,
        0x74u8,
        0x6fu8,
        0x6du8,
        0x6cu8,
    ]
}

/// Whether a file in a directory is read as a unit file, by the bytes of its
/// name.
pub fn is_unit_file(file_name: &[u8]) -> (r: bool)
    ensures
        r == names_unit_file(file_name@),
{
    let n = file_name.len();
    if n <= 5 {
        return false;
    }
    let ghost end = file_name@.subrange(n - 5, n as int);
    let ghost suffix = seq![0x2eu8, 0x74u8, 0x6fu8, 0x6du8, 0x6cu8];
    let r = file_name[n - 5] == 0x2e && file_name[n - 4] == 0x74 && file_name[n - 3] == 0x6f
        && file_name[n - 2] == 0x6d && file_name[n - 1] == 0x6c;
    proof {
        if r {
            assert(end =~= suffix);
        } else if end == suffix {
            assert(end[0] == 0x2e && end[1] == 0x74 && end[2] == 0x6f && end[3] == 0x6d && end[4]
                == 0x6c);
        }
    }
    r
}

/// Why unit files do not make a set of units.
#[derive(Clone, Debug)]
pub enum LoadError {
    /// Two unit files define this unit.
    DuplicateName { name: String },
}

impl LoadError {
    /// What the error says.
    pub open spec fn message_spec(self) -> Seq<char> {
        match self {
            LoadError::DuplicateName { name } => "duplicate unit name '"@ + name@
                + "' across service files"@,
        }
    }

    /// What the error says.
    pub fn message(&self) -> (r: String)
        ensures
            r@ == self.message_spec(),
    {
        match self {
            LoadError::DuplicateName { name } => {
                let mut s = "duplicate unit name '".to_owned();
                s.append(name.as_str());
                s.append("' across service files");
                s
            },
        }
    }
}

/// Each unit's name comes before those of the units behind it.
pub open spec fn names_increase(units: Seq<UnitConfig>) -> bool {
    forall|i: int, j: int|
        0 <= i < j < units.len() ==> name_lt(
            (#[trigger] units[i]).name@,
            (#[trigger] units[j]).name@,
        )
}

/// Two of the units have this name.
pub open spec fn defined_twice(units: Seq<UnitConfig>, name: Seq<char>) -> bool {
    exists|i: int, j: int|
        0 <= i < j < units.len() && (#[trigger] units[i]).name@ == name && (
        #[trigger] units[j]).name@ == name
}

/// Puts the definitions that were read from a directory's unit files in the
/// order of their names. Fails if a name is defined twice, and then names the
/// first such name.
pub fn load_units(read: Vec<UnitConfig>) -> (r: Result<Vec<UnitConfig>, LoadError>)
    ensures
        r is Ok <==> distinct_names(graph(read@)),
        r is Ok <==> forall|i: int, j: int|
            0 <= i < j < read@.len() ==> (#[trigger] read@[i]).name@ != (
            #[trigger] read@[j]).name@,
        match r {
            Ok(units) => {
                &&& names_increase(units@)
                &&& forall|i: int, j: int|
                    0 <= i < j < units@.len() ==> bytes_lt(
                        encode_utf8((#[trigger] units@[i]).name@),
                        encode_utf8((#[trigger] units@[j]).name@),
                    )
                &&& units@.to_multiset() == read@.to_multiset()
            },
            Err(LoadError::DuplicateName { name }) => {
                &&& defined_twice(read@, name@)
                &&& exists|i: int, j: int|
                    0 <= i < j < read@.len() && (#[trigger] read@[i]).name@ == name@ && (
                    #[trigger] read@[j]).name@ == name@
                &&& forall|n: Seq<char>| #[trigger]
                    defined_twice(read@, n) ==> !name_lt(n, name@)
            },
        },
{
    let ghost given = read@;
    let units = sort_by_key(read);
    let ghost sorted = units@;
    proof {
        assert forall|n: Seq<char>| #[trigger]
            defined_twice(given, n) <==> defined_twice(sorted, n) by {
            lemma_same_definitions(given, sorted, n);
        }
    }
    let mut i: usize = 1;
    while i < units.len()
        invariant
            1 <= i,
            units@ == sorted,
            given == read@,
            in_key_order(sorted),
            forall|n: Seq<char>| #[trigger] defined_twice(given, n) <==> defined_twice(sorted, n),
            forall|a: int, b: int|
                0 <= a < b < i && b < sorted.len() ==> name_lt(
                    (#[trigger] sorted[a]).name@,
                    (#[trigger] sorted[b]).name@,
                ),
        decreases units.len() - i,
    {
        if !bytes_before(units[i - 1].key_bytes(), units[i].key_bytes()) {
            proof {
                lemma_first_duplicate(sorted, i as int);
                let name = sorted[i as int].name@;
                assert(defined_twice(given, name));
                let (a, b) = choose|a: int, b: int|
                    0 <= a < b < given.len() && (#[trigger] given[a]).name@ == name && (
                    #[trigger] given[b]).name@ == name;
                assert(graph(given)[a].name == graph(given)[b].name);
            }
            return Err(LoadError::DuplicateName { name: units[i].name.clone() });
        }
        proof {
            assert forall|a: int, b: int| 0 <= a < b < i + 1 && b < sorted.len() implies name_lt(
                (#[trigger] sorted[a]).name@,
                (#[trigger] sorted[b]).name@,
            ) by {
                if b == i && a < i - 1 {
                    assert(name_lt(sorted[a].name@, sorted[i - 1].name@));
                    bytes_lt_transitive(
                        sorted[a].key(),
                        sorted[i - 1].key(),
                        sorted[i as int].key(),
                    );
                }
            }
        }
        i = i + 1;
    }
    proof {
        assert forall|a: int, b: int| 0 <= a < b < given.len() implies (#[trigger] graph(
            given,
        )[a]).name != (#[trigger] graph(given)[b]).name by {
            if graph(given)[a].name == graph(given)[b].name {
                let n = given[a].name@;
                assert(given[b].name@ == n);
                assert(defined_twice(given, n));
                let (c, d) = choose|c: int, d: int|
                    0 <= c < d < sorted.len() && (#[trigger] sorted[c]).name@ == n && (
                    #[trigger] sorted[d]).name@ == n;
                bytes_lt_irreflexive(sorted[c].key());
            }
        }
        assert forall|a: int, b: int| 0 <= a < b < given.len() implies (#[trigger] given[a]).name@
            != (#[trigger] given[b]).name@ by {
            assert(graph(given)[a].name != graph(given)[b].name);
        }
    }
    Ok(units)
}

/// There is only one way to sort definitions whose names differ.
pub proof fn sorted_definitions_are_unique(a: Seq<UnitConfig>, b: Seq<UnitConfig>)
    requires
        names_increase(a),
        names_increase(b),
        a.to_multiset() == b.to_multiset(),
    ensures
        a == b,
{
    let key = |u: UnitConfig| encode_utf8(u.name@);
    assert forall|s: Seq<UnitConfig>| #[trigger] names_increase(s) implies increasing(s, key) by {
        assert forall|i: int, j: int| 0 <= i < j < s.len() implies bytes_lt(
            key(#[trigger] s[i]),
            key(#[trigger] s[j]),
        ) by {
            assert(name_lt(s[i].name@, s[j].name@));
        }
    }
    assert forall|x: UnitConfig| a.contains(x) <==> b.contains(x) by {
        to_multiset_contains(a, x);
        to_multiset_contains(b, x);
    }
    order_is_unique(a, b, key);
}

/// A unit file is called something, and then `.toml`: nothing that ends
/// otherwise is one, and neither is `.toml` alone.
pub proof fn unit_files_end_in_toml(file_name: Seq<u8>)
    ensures
        names_unit_file(file_name) <==> exists|stem: Seq<u8>|
            stem.len() > 0 && file_name == #[trigger] (stem + encode_utf8(".toml"@)),
{
    reveal_strlit(".toml");
    let end = encode_utf8(".toml"@);
    is_ascii_chars_encode_utf8(".toml"@);
    assert(end =~= seq![0x2eu8, 0x74u8, 0x6fu8, 0x6du8, 0x6cu8]);
    if names_unit_file(file_name) {
        let n = file_name.len() - 5;
        let stem = file_name.take(n);
        assert(file_name =~= stem + file_name.subrange(n, file_name.len() as int));
        assert(file_name == stem + end);
    }
    if exists|stem: Seq<u8>| stem.len() > 0 && file_name == #[trigger] (stem + end) {
        let stem = choose|stem: Seq<u8>| stem.len() > 0 && file_name == #[trigger] (stem + end);
        assert(file_name.subrange(file_name.len() - 5, file_name.len() as int) =~= end);
    }
}

/// The graph of units has a node for each of them, with its own name and the
/// names that it lists, in their order.
pub proof fn graphs_hold_the_units(units: Seq<UnitConfig>, i: int)
    requires
        0 <= i < units.len(),
    ensures
        graph(units).len() == units.len(),
        graph(units)[i].name == units[i].name@,
        graph(units)[i].after.len() == units[i].after@.len(),
        forall|k: int|
            0 <= k < units[i].after@.len() ==> #[trigger] graph(units)[i].after[k]
                == units[i].after@[k]@,
{
}

/// What is said about a name that is defined twice.
pub proof fn duplicate_names_are_named(name: String)
    ensures
        (LoadError::DuplicateName { name }).message_spec() == "duplicate unit name '"@ + name@
            + "' across service files"@,
{
}

/// In sorted definitions, the first that does not come after its predecessor
/// has the first name that is defined twice.
proof fn lemma_first_duplicate(s: Seq<UnitConfig>, i: int)
    requires
        in_key_order(s),
        1 <= i < s.len(),
        !bytes_lt(s[i - 1].key(), s[i].key()),
        forall|a: int, b: int|
            0 <= a < b < i ==> name_lt((#[trigger] s[a]).name@, (#[trigger] s[b]).name@),
    ensures
        defined_twice(s, s[i].name@),
        forall|n: Seq<char>| #[trigger] defined_twice(s, n) ==> !name_lt(n, s[i].name@),
{
    bytes_lt_total(s[i - 1].key(), s[i].key());
    assert(!bytes_lt(s[i].key(), s[i - 1].key()));
    same_bytes_same_string(s[i - 1].name@, s[i].name@);
    assert forall|n: Seq<char>| #[trigger] defined_twice(s, n) implies !name_lt(n, s[i].name@) by {
        let (a, b) = choose|a: int, b: int|
            0 <= a < b < s.len() && (#[trigger] s[a]).name@ == n && (#[trigger] s[b]).name@ == n;
        if b < i {
            bytes_lt_irreflexive(s[a].key());
        } else if b == i {
            bytes_lt_irreflexive(s[b].key());
        } else {
            assert(!bytes_lt(s[b].key(), s[i].key()));
        }
    }
}

/// How many of the definitions have this name.
spec fn times_defined(s: Seq<UnitConfig>, n: Seq<char>) -> nat
    decreases s.len(),
{
    if s.len() == 0 {
        0
    } else {
        times_defined(s.drop_last(), n) + if s.last().name@ == n {
            1nat
        } else {
            0nat
        }
    }
}

proof fn lemma_times_defined(s: Seq<UnitConfig>, n: Seq<char>)
    ensures
        times_defined(s, n) == s.to_multiset().filter(|u: UnitConfig| u.name@ == n).len(),
        times_defined(s, n) >= 1 <==> exists|i: int| 0 <= i < s.len() && (#[trigger] s[i]).name@ == n,
        times_defined(s, n) >= 2 <==> defined_twice(s, n),
    decreases s.len(),
{
    broadcast use {vstd::multiset::group_multiset_axioms, group_to_multiset_ensures};

    let p = |u: UnitConfig| u.name@ == n;
    if s.len() == 0 {
        assert(s.to_multiset().filter(p) =~= Multiset::<UnitConfig>::empty());
    } else {
        let (t, x) = (s.drop_last(), s.last());
        lemma_times_defined(t, n);
        assert(s =~= t.push(x));
        to_multiset_build(t, x);
        let (m, k) = (t.to_multiset(), s.to_multiset());
        assert(k == m.insert(x));
        if x.name@ == n {
            assert(k.filter(p) =~= m.filter(p).add(Multiset::singleton(x)));
            assert(s[s.len() - 1].name@ == n);
            if times_defined(t, n) >= 1 {
                let i = choose|i: int| 0 <= i < t.len() && (#[trigger] t[i]).name@ == n;
                assert(s[i].name@ == n && s[s.len() - 1].name@ == n);
                assert(defined_twice(s, n));
            }
        } else {
            assert(k.filter(p) =~= m.filter(p));
            if times_defined(t, n) >= 1 {
                let i = choose|i: int| 0 <= i < t.len() && (#[trigger] t[i]).name@ == n;
                assert(s[i].name@ == n);
            }
            if defined_twice(t, n) {
                let (a, b) = choose|a: int, b: int|
                    0 <= a < b < t.len() && (#[trigger] t[a]).name@ == n && (
                    #[trigger] t[b]).name@ == n;
                assert(s[a].name@ == n && s[b].name@ == n);
            }
        }
        if exists|i: int| 0 <= i < s.len() && (#[trigger] s[i]).name@ == n {
            let i = choose|i: int| 0 <= i < s.len() && (#[trigger] s[i]).name@ == n;
            if i < t.len() {
                assert(t[i].name@ == n);
            }
        }
        if defined_twice(s, n) {
            let (a, b) = choose|a: int, b: int|
                0 <= a < b < s.len() && (#[trigger] s[a]).name@ == n && (
                #[trigger] s[b]).name@ == n;
            assert(t[a].name@ == n);
            if b < t.len() {
                assert(t[b].name@ == n);
            }
        }
    }
}

proof fn lemma_same_definitions(s: Seq<UnitConfig>, t: Seq<UnitConfig>, n: Seq<char>)
    requires
        s.to_multiset() == t.to_multiset(),
    ensures
        defined_twice(s, n) <==> defined_twice(t, n),
{
    lemma_times_defined(s, n);
    lemma_times_defined(t, n);
}

} // verus!
