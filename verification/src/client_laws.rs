//! What the control client sends and shows.

use crate::client::{shown, table, table_head, table_row, Command, ShownView};
use crate::proto::{state_word, InfoView, RequestView, ResponseView, UnitState};
use crate::text::{decimal, padded_left, padded_right};
use crate::text_laws::padding_fills_the_width;
use vstd::prelude::*;
use vstd::string::*;

verus! {

/// Each command asks for what it is called after, and about the unit that it
/// names.
pub proof fn commands_ask_for_what_they_say(c: Command)
    ensures
        c is List ==> c.asks() is ListUnits,
        c matches Command::Status { name } ==> c.asks() == (RequestView::Status { name: name@ }),
        c matches Command::Start { name } ==> c.asks() == (RequestView::Start { name: name@ }),
        c matches Command::Stop { name } ==> c.asks() == (RequestView::Stop { name: name@ }),
        c matches Command::Restart { name } ==> c.asks() == (RequestView::Restart { name: name@ }),
        c is Reboot ==> c.asks() is Reboot,
        c is Poweroff ==> c.asks() is Poweroff,
        c is Halt ==> c.asks() is Halt,
{
}

/// A command that was accepted is done, and says so in one word; only those that
/// bring the machine down say more.
pub proof fn accepted_commands_say_ok(c: Command)
    ensures
        !(c is Reboot || c is Poweroff || c is Halt) ==> c.accepted_text() == "ok"@,
        c is Reboot ==> c.accepted_text() == "apollod is stopping all units and rebooting"@,
        c is Poweroff ==> c.accepted_text() == "apollod is stopping all units and powering off"@,
        c is Halt ==> c.accepted_text() == "apollod is stopping all units and halting"@,
{
}

/// An error is shown as one, in the daemon's words; anything else is not.
pub proof fn errors_are_shown_as_errors(resp: ResponseView, accepted: Seq<char>)
    ensures
        resp matches ResponseView::Error(e) ==> shown(resp, accepted) == ShownView::Failure(
            "error: "@ + e,
        ),
        !(resp is Error) ==> shown(resp, accepted) is Lines,
        resp is Accepted ==> shown(resp, accepted) == ShownView::Lines(seq![accepted]),
{
}

/// Units are shown one to a line, in the order in which they come, below a line
/// of headings; a single unit as a list of one.
pub proof fn units_are_shown_line_by_line(resp: ResponseView, accepted: Seq<char>)
    ensures
        resp matches ResponseView::Units(units) ==> (shown(
            resp,
            accepted,
        ) matches ShownView::Lines(lines) && lines.len() == units.len() + 1 && lines[0]
            == table_head() && forall|i: int|
            0 <= i < units.len() ==> lines[i + 1] == table_row(#[trigger] units[i])),
        resp matches ResponseView::Unit(u) ==> shown(resp, accepted) == ShownView::Lines(
            seq![table_head(), table_row(u)],
        ),
{
    if let ResponseView::Unit(u) = resp {
        assert(table(seq![u]) =~= seq![table_head(), table_row(u)]);
    }
}

/// The headings stand above the columns of a table.
pub proof fn tables_have_headings()
    ensures
        table_head() == "NAME             STATE           PID  DETAIL"@,
{
    reveal_strlit("NAME");
    reveal_strlit("STATE");
    reveal_strlit("PID");
    reveal_strlit(" ");
    reveal_strlit("  DETAIL");
    reveal_strlit("NAME             STATE           PID  DETAIL");
    assert(table_head() =~= "NAME             STATE           PID  DETAIL"@);
}

/// Each state has a word of its own.
pub proof fn states_are_worded(state: UnitState)
    ensures
        state_word(state) == match state {
            UnitState::Loaded => "loaded"@,
            UnitState::Running => "running"@,
            UnitState::Stopping => "stopping"@,
            UnitState::Stopped => "stopped"@,
            UnitState::Failed => "failed"@,
        },
{
}

/// A line about a unit shows its name, padded to a column of sixteen; its state
/// in words; its process, or a dash, padded to a column of eight; and how it
/// exited, if it did. There are a space, a space and two between them.
pub proof fn rows_show_every_field(u: InfoView)
    ensures
        ({
            let row = table_row(u);
            let pid = match u.pid {
                Some(p) => decimal(p as nat),
                None => "-"@,
            };
            let detail = match u.exit_status {
                Some(s) => s,
                None => Seq::<char>::empty(),
            };
            let a = if u.name.len() < 16 {
                16int
            } else {
                u.name.len() as int
            };
            let b = a + 1 + state_word(u.state).len();
            let w = if pid.len() < 8 {
                8int
            } else {
                pid.len() as int
            };
            let c = b + 1 + w;
            &&& row.len() == c + 2 + detail.len()
            &&& row.take(u.name.len() as int) == u.name
            &&& forall|i: int| u.name.len() <= i < a ==> #[trigger] row[i] == ' '
            &&& row[a] == ' '
            &&& row.subrange(a + 1, b) == state_word(u.state)
            &&& row[b] == ' '
            &&& forall|i: int| b + 1 <= i < c - pid.len() ==> #[trigger] row[i] == ' '
            &&& row.subrange(c - pid.len(), c) == pid
            &&& row[c] == ' ' && row[c + 1] == ' '
            &&& row.skip(c + 2) == detail
        }),
{
    reveal_strlit(" ");
    reveal_strlit("  ");
    reveal_strlit("");
    let row = table_row(u);
    let pid = match u.pid {
        Some(p) => decimal(p as nat),
        None => "-"@,
    };
    let detail = match u.exit_status {
        Some(s) => s,
        None => Seq::<char>::empty(),
    };
    assert(""@ =~= Seq::<char>::empty());
    padding_fills_the_width(u.name, 16);
    padding_fills_the_width(pid, 8);
    let (x, y) = (padded_right(u.name, 16), padded_left(pid, 8));
    let word = state_word(u.state);
    assert(row == x + " "@ + word + " "@ + y + "  "@ + detail);
    let a = x.len() as int;
    let b = a + 1 + word.len();
    let c = b + 1 + y.len();
    assert(row.take(u.name.len() as int) =~= x.take(u.name.len() as int));
    assert forall|i: int| 0 <= i < a implies #[trigger] row[i] == x[i] by {}
    assert forall|i: int| b + 1 <= i < c implies #[trigger] row[i] == y[i - b - 1] by {}
    assert(row.subrange(a + 1, b) =~= word);
    assert(row.subrange(c - pid.len(), c) =~= y.skip(y.len() - pid.len()));
    assert(row.skip(c + 2) =~= detail);
}

} // verus!
