//! The control client: what its commands ask for, and how it shows the
//! answers.

use crate::order::strings;
use crate::proto::{
    state_word, InfoView, Request, RequestView, Response, ResponseView, UnitInfo,
};
use crate::text::{
    append_padded_left, append_padded_right, decimal, decimal_text, padded_left, padded_right,
};
use vstd::prelude::*;
use vstd::string::*;

verus! {

/// A command of the control client.
#[derive(Clone, Debug)]
pub enum Command {
    /// List all units and their state.
    List,
    /// Show the state of one unit.
    Status { name: String },
    /// Start a unit.
    Start { name: String },
    /// Stop a running unit.
    Stop { name: String },
    /// Stop a unit and start it again.
    Restart { name: String },
    /// Stop every unit and reboot the machine.
    Reboot,
    /// Stop every unit and power the machine off.
    Poweroff,
    /// Stop every unit and halt the machine.
    Halt,
}

impl Command {
    /// What the command asks the daemon for.
    pub open spec fn asks(self) -> RequestView {
        match self {
            Command::List => RequestView::ListUnits,
            Command::Status { name } => RequestView::Status { name: name@ },
            Command::Start { name } => RequestView::Start { name: name@ },
            Command::Stop { name } => RequestView::Stop { name: name@ },
            Command::Restart { name } => RequestView::Restart { name: name@ },
            Command::Reboot => RequestView::Reboot,
            Command::Poweroff => RequestView::Poweroff,
            Command::Halt => RequestView::Halt,
        }
    }

    /// What is shown when the daemon has accepted the command. A shutdown is
    /// still going on by then.
    pub open spec fn accepted_text(self) -> Seq<char> {
        match self {
            Command::Reboot => "apollod is stopping all units and rebooting"@,
            Command::Poweroff => "apollod is stopping all units and powering off"@,
            Command::Halt => "apollod is stopping all units and halting"@,
            _ => "ok"@,
        }
    }

    /// The request that the command sends.
    pub fn request(self) -> (r: Request)
        ensures
            r@ == self.asks(),
    {
        match self {
            Command::List => Request::ListUnits,
            Command::Status { name } => Request::Status { name },
            Command::Start { name } => Request::Start { name },
            Command::Stop { name } => Request::Stop { name },
            Command::Restart { name } => Request::Restart { name },
            Command::Reboot => Request::Reboot,
            Command::Poweroff => Request::Poweroff,
            Command::Halt => Request::Halt,
        }
    }

    /// What is shown when the daemon has accepted the command.
    pub fn ok_message(&self) -> (r: &'static str)
        ensures
            r@ == self.accepted_text(),
    {
        match self {
            Command::Reboot => "apollod is stopping all units and rebooting",
            Command::Poweroff => "apollod is stopping all units and powering off",
            Command::Halt => "apollod is stopping all units and halting",
            _ => "ok",
        }
    }
}

/// The line above a table of units.
pub open spec fn table_head() -> Seq<char> {
    padded_right("NAME"@, 16) + " "@ + padded_right("STATE"@, 10) + " "@ + padded_left("PID"@, 8)
        + "  DETAIL"@
}

/// The line for one unit: its name in a column of sixteen characters, its
/// state, its process in a column of eight, and its exit status.
pub open spec fn table_row(u: InfoView) -> Seq<char> {
    padded_right(u.name, 16) + " "@ + state_word(u.state) + " "@ + padded_left(
        match u.pid {
            Some(pid) => decimal(pid as nat),
            None => "-"@,
        },
        8,
    ) + "  "@ + match u.exit_status {
        Some(status) => status,
        None => ""@,
    }
}

/// A table of units.
pub open spec fn table(units: Seq<InfoView>) -> Seq<Seq<char>> {
    seq![table_head()] + units.map_values(|u: InfoView| table_row(u))
}

fn row(u: &UnitInfo) -> (r: String)
    ensures
        r@ == table_row(u@),
{
    let mut line = String::new();
    append_padded_right(&mut line, u.name.as_str(), 16);
    line.append(" ");
    line.append(u.state.as_str());
    line.append(" ");
    match u.pid {
        Some(pid) => {
            append_padded_left(&mut line, decimal_text(pid as u64).as_str(), 8);
        },
        None => {
            append_padded_left(&mut line, "-", 8);
        },
    }
    line.append("  ");
    match &u.exit_status {
        Some(status) => {
            line.append(status.as_str());
        },
        None => {
            line.append("");
        },
    }
    assert(line@ =~= table_row(u@));
    line
}

/// The lines of a table of units.
pub fn print_units(units: &[UnitInfo]) -> (r: Vec<String>)
    ensures
        strings(r@) == table(units@.map_values(|u: UnitInfo| u@)),
{
    let mut lines: Vec<String> = Vec::new();
    let mut head = String::new();
    append_padded_right(&mut head, "NAME", 16);
    head.append(" ");
    append_padded_right(&mut head, "STATE", 10);
    head.append(" ");
    append_padded_left(&mut head, "PID", 8);
    head.append("  DETAIL");
    assert(head@ =~= table_head());
    lines.push(head);
    let ghost views = units@.map_values(|u: UnitInfo| u@);
    assert(strings(lines@) =~= table(views.take(0)));
    let mut i: usize = 0;
    while i < units.len()
        invariant
            i <= units.len(),
            views == units@.map_values(|u: UnitInfo| u@),
            strings(lines@) == table(views.take(i as int)),
        decreases units.len() - i,
    {
        let ghost before = strings(lines@);
        let line = row(&units[i]);
        lines.push(line);
        i = i + 1;
        assert(strings(lines@) =~= before.push(table_row(views[i - 1])));
        assert(strings(lines@) =~= table(views.take(i as int)));
    }
    assert(views.take(i as int) =~= views);
    lines
}

/// What the client shows, and how it exits.
#[derive(Debug)]
pub enum Shown {
    /// Print these lines and exit successfully.
    Lines(Vec<String>),
    /// Print this line as an error and exit with code 1.
    Failure(String),
}

/// What the client shows, as plain values.
pub enum ShownView {
    Lines(Seq<Seq<char>>),
    Failure(Seq<char>),
}

impl View for Shown {
    type V = ShownView;

    open spec fn view(&self) -> ShownView {
        match self {
            Shown::Lines(lines) => ShownView::Lines(strings(lines@)),
            Shown::Failure(line) => ShownView::Failure(line@),
        }
    }
}

/// How an answer is shown.
pub open spec fn shown(resp: ResponseView, accepted: Seq<char>) -> ShownView {
    match resp {
        ResponseView::Accepted => ShownView::Lines(seq![accepted]),
        ResponseView::Error(e) => ShownView::Failure("error: "@ + e),
        ResponseView::Units(units) => ShownView::Lines(table(units)),
        ResponseView::Unit(u) => ShownView::Lines(table(seq![u])),
    }
}

/// Shows the daemon's answer. `ok_message` is the command's own.
pub fn show(resp: Response, ok_message: &str) -> (r: Shown)
    ensures
        r@ == shown(resp@, ok_message@),
{
    match resp {
        Response::Accepted => {
            let mut lines: Vec<String> = Vec::new();
            lines.push(ok_message.to_owned());
            assert(strings(lines@) =~= seq![ok_message@]);
            Shown::Lines(lines)
        },
        Response::Error(e) => {
            let mut line = "error: ".to_owned();
            line.append(e.as_str());
            Shown::Failure(line)
        },
        Response::Units(units) => Shown::Lines(print_units(units.as_slice())),
        Response::Unit(u) => {
            let one = vec![u];
            assert(one@.map_values(|u: UnitInfo| u@) =~= seq![u@]);
            Shown::Lines(print_units(one.as_slice()))
        },
    }
}

} // verus!
