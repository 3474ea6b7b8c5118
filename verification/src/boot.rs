//! Start-up: from the unit definitions that were read to a supervisor that is
//! ready to start them.

use crate::config::{defined_twice, load_units, names_increase, LoadError, UnitConfig};
use crate::model::{SupervisorView, TaskView};
use crate::order::{
    distinct_names, graph, is_start_sequence, loaded, resolve_start_order, strings, OrderError,
};
use crate::order_laws::{has_cycle, start_order_respects_after};
use crate::registry::RuntimeView;
use crate::supervisor::{with_loaded, Supervisor};
use crate::supervisor_laws::{last_definition, loading_adds_the_units};
use crate::text::{bytes_lt_irreflexive, name_lt};
use std::path::PathBuf;
use vstd::prelude::*;
use vstd::seq_lib::*;
use vstd::string::*;
use vstd::utf8::encode_utf8;

verus! {

/// Why there is no supervisor to run.
#[derive(Clone, Debug)]
pub enum BootError {
    /// The definitions do not make a set of units.
    Load(LoadError),
    /// The units cannot be put in an order.
    Order(OrderError),
}

impl BootError {
    /// What the error says.
    pub open spec fn message_spec(self) -> Seq<char> {
        match self {
            BootError::Load(e) => e.message_spec(),
            BootError::Order(e) => e.message_spec(),
        }
    }

    /// What the error says.
    pub fn message(&self) -> (r: String)
        ensures
            r@ == self.message_spec(),
    {
        match self {
            BootError::Load(e) => e.message(),
            BootError::Order(e) => e.message().to_owned(),
        }
    }
}

/// A supervisor, and the order in which it is to start its units.
#[derive(Debug)]
pub struct Booted {
    pub supervisor: Supervisor,
    pub order: Vec<String>,
}

/// The definitions sorted by their names.
pub open spec fn sorted_units(read: Seq<UnitConfig>, units: Seq<UnitConfig>) -> bool {
    names_increase(units) && units.to_multiset() == read.to_multiset()
}

/// Makes a supervisor of the unit definitions that were read, and resolves the
/// order in which the units are started.
pub fn boot(read: Vec<UnitConfig>, log_dir: PathBuf) -> (r: Result<Booted, BootError>)
    ensures
        match r {
            Ok(b) => {
                &&& distinct_names(graph(read@))
                &&& b.supervisor.wf()
                &&& b.supervisor.log_dir_spec() == log_dir
                &&& exists|units: Seq<UnitConfig>| #[trigger]
                    sorted_units(read@, units) && !has_cycle(graph(units)) && b.supervisor@ == (
                    SupervisorView {
                        units: with_loaded(Map::empty(), units),
                        boot_order: seq![],
                        task: TaskView::Waiting,
                    }) && is_start_sequence(graph(units), strings(b.order@)) && b.order@.len()
                        == units.len()
            },
            Err(BootError::Load(LoadError::DuplicateName { name })) => {
                &&& !distinct_names(graph(read@))
                &&& defined_twice(read@, name@)
                &&& forall|n: Seq<char>| #[trigger]
                    defined_twice(read@, n) ==> !name_lt(n, name@)
            },
            Err(BootError::Order(e)) => {
                &&& distinct_names(graph(read@))
                &&& exists|units: Seq<UnitConfig>| #[trigger]
                    sorted_units(read@, units) && has_cycle(graph(units))
            },
        },
{
    let units = match load_units(read) {
        Ok(units) => units,
        Err(e) => {
            return Err(BootError::Load(e));
        },
    };
    assert(sorted_units(read@, units@));
    proof {
        lemma_distinct(units@);
    }
    match resolve_start_order(units.as_slice()) {
        Ok(order) => {
            let mut supervisor = Supervisor::new(log_dir);
            supervisor.load(units);
            Ok(Booted { supervisor, order })
        },
        Err(e) => Err(BootError::Order(e)),
    }
}

proof fn lemma_distinct(units: Seq<UnitConfig>)
    requires
        names_increase(units),
    ensures
        distinct_names(graph(units)),
{
    let g = graph(units);
    assert forall|i: int, j: int| 0 <= i < j < g.len() implies (#[trigger] g[i]).name != (
    #[trigger] g[j]).name by {
        assert(name_lt(units[i].name@, units[j].name@));
        bytes_lt_irreflexive(encode_utf8(units[i].name@));
    }
}

/// The units of a supervisor are those that were defined, as they were defined,
/// and none of them has been started.
pub proof fn booted_units_are_those_defined(
    read: Seq<UnitConfig>,
    units: Seq<UnitConfig>,
    n: Seq<char>,
)
    requires
        sorted_units(read, units),
    ensures
        ({
            let booted = with_loaded(Map::empty(), units);
            &&& booted.contains_key(n) <==> loaded(graph(read), n)
            &&& booted.contains_key(n) ==> booted[n] == RuntimeView::fresh(booted[n].config)
                && read.contains(booted[n].config) && booted[n].config.name@ == n
        }),
{
    loading_adds_the_units(Map::empty(), units, n);
    lemma_last_definition(units, n);
    if let Some(c) = last_definition(units, n) {
        to_multiset_contains(units, c);
        to_multiset_contains(read, c);
        let i = choose|i: int| 0 <= i < read.len() && read[i] == c;
        assert(graph(read)[i].name == n);
    }
    if loaded(graph(read), n) {
        let i = choose|i: int| 0 <= i < graph(read).len() && (#[trigger] graph(read)[i]).name == n;
        let c = read[i];
        assert(c.name@ == n);
        assert(read.contains(c));
        to_multiset_contains(read, c);
        to_multiset_contains(units, c);
        assert(units.contains(c));
    }
}

proof fn lemma_last_definition(units: Seq<UnitConfig>, n: Seq<char>)
    ensures
        match last_definition(units, n) {
            Some(c) => units.contains(c) && c.name@ == n,
            None => forall|c: UnitConfig| #[trigger] units.contains(c) ==> c.name@ != n,
        },
    decreases units.len(),
{
    if units.len() > 0 {
        let before = units.drop_last();
        lemma_last_definition(before, n);
        assert forall|c: UnitConfig| #[trigger] units.contains(c) <==> before.contains(c) || c
            == units.last() by {
            if units.contains(c) && c != units.last() {
                let i = choose|i: int| 0 <= i < units.len() && units[i] == c;
                assert(before[i] == c);
            }
            if before.contains(c) {
                let i = choose|i: int| 0 <= i < before.len() && before[i] == c;
                assert(units[i] == c);
            }
            assert(units[units.len() - 1] == units.last());
        }
    }
}

/// The order in which units are started holds each of them once, and each after
/// every unit that it lists and that is defined.
pub proof fn booted_units_start_after_those_they_list(
    units: Seq<UnitConfig>,
    order: Seq<Seq<char>>,
    p: int,
    r: int,
    i: int,
)
    requires
        names_increase(units),
        is_start_sequence(graph(units), order),
        order.len() == units.len(),
        0 <= p < order.len(),
        0 <= r < order.len(),
        0 <= i < units.len(),
        order[p] == units[i].name@,
        strings(units[i].after@).contains(order[r]),
    ensures
        order.no_duplicates(),
        r < p,
{
    lemma_distinct(units);
    start_order_respects_after(graph(units), order);
    assert(graph(units)[i].name == order[p]);
    assert(graph(units)[i].after =~= strings(units[i].after@));
}

/// Whatever keeps the daemon from booting is told in so many words.
pub proof fn boot_errors_are_worded(e: BootError)
    ensures
        e matches BootError::Load(LoadError::DuplicateName { name }) ==> e.message_spec()
            == "duplicate unit name '"@ + name@ + "' across service files"@,
        e is Order ==> e.message_spec()
            == "dependency cycle detected among service units (check `after` fields)"@,
{
}

/// What the daemon does about an error that it cannot go on from.
#[derive(Clone, Copy, PartialEq, Eq, Structural, Debug)]
pub enum Fatal {
    /// Do nothing any more, for ever: if the init process exits, the kernel
    /// panics.
    Hold,
    /// Exit with this code.
    Exit { code: i32 },
}

/// Decides what to do about an error that cannot be gone on from.
pub fn fatal(pid1: bool) -> (r: Fatal)
    ensures
        r == (if pid1 {
            Fatal::Hold
        } else {
            Fatal::Exit { code: 1 }
        }),
{
    if pid1 {
        Fatal::Hold
    } else {
        Fatal::Exit { code: 1 }
    }
}

} // verus!
