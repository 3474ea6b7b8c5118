//! Signals: which ones the daemon blocks and waits for, what it makes of each,
//! and what it makes of the processes it reaps.

use crate::model::EventView;
use crate::supervisor::{Event, ShutdownMode};
use crate::text::{signed_decimal, signed_text};
use nix::errno::Errno;
use nix::sys::signal::{SigSet, Signal};
use vstd::prelude::*;
use vstd::string::*;

verus! {

/// A set of signals.
#[verifier::external_type_specification]
#[verifier::external_body]
pub struct ExSigSet(SigSet);

/// An error of the operating system.
#[verifier::external_type_specification]
#[verifier::external_body]
pub struct ExErrno(Errno);

/// A signal that the daemon deals with.
#[derive(Clone, Copy, PartialEq, Eq, Structural, Debug)]
pub enum Handled {
    /// SIGCHLD: a child process changed its state.
    Child,
    /// SIGTERM: the daemon is to power the machine off.
    Terminate,
    /// SIGINT: the daemon is to reboot the machine.
    Interrupt,
}

/// Which of the signals that the daemon deals with are in a set.
pub uninterp spec fn handled_in(set: SigSet) -> Set<Handled>;

/// Every signal that the daemon deals with.
pub open spec fn all_handled() -> Set<Handled> {
    set![Handled::Child, Handled::Terminate, Handled::Interrupt]
}

/// `SigSet::empty`: a set without signals.
#[verifier::external_body]
fn no_signals() -> (r: SigSet)
    ensures
        handled_in(r) == Set::<Handled>::empty(),
{
    SigSet::empty()
}

/// `SigSet::add`: the signal is in the set from now on, and nothing else
/// changes.
#[verifier::external_body]
fn add_signal(set: &mut SigSet, signal: Handled)
    ensures
        handled_in(*final(set)) == handled_in(*old(set)).insert(signal),
{
    set.add(match signal {
        Handled::Child => Signal::SIGCHLD,
        Handled::Terminate => Signal::SIGTERM,
        Handled::Interrupt => Signal::SIGINT,
    })
}

/// `SigSet::thread_block`: adds the set to the signal mask of the calling
/// thread. Whether that succeeds is up to the operating system, so nothing is
/// promised of the result. It is only asked to block what the daemon deals
/// with.
#[verifier::external_body]
fn block_in_thread(set: &SigSet) -> (r: Result<(), Errno>)
    requires
        handled_in(*set) == all_handled(),
{
    set.thread_block()
}

/// Why signals could not be blocked.
#[derive(Debug)]
pub struct BlockError {
    pub cause: Errno,
}

/// The signals that the daemon blocks and waits for.
pub fn signal_set() -> (r: SigSet)
    ensures
        handled_in(r) == all_handled(),
{
    let mut set = no_signals();
    add_signal(&mut set, Handled::Child);
    add_signal(&mut set, Handled::Terminate);
    add_signal(&mut set, Handled::Interrupt);
    assert(handled_in(set) =~= all_handled());
    set
}

/// What the attempt to block a set of signals comes to: the set to wait for,
/// or why it could not be blocked.
pub fn blocked(set: SigSet, result: Result<(), Errno>) -> (r: Result<SigSet, BlockError>)
    ensures
        match result {
            Ok(_) => r == Ok::<SigSet, BlockError>(set),
            Err(cause) => r == Err::<SigSet, BlockError>(BlockError { cause }),
        },
{
    match result {
        Ok(()) => Ok(set),
        Err(cause) => Err(BlockError { cause }),
    }
}

/// Blocks the daemon's signals in the calling thread, and gives the set to
/// wait for. New threads inherit the mask, so this comes before any of them is
/// spawned. Whether it succeeds is up to the operating system.
pub fn block_signals() -> (r: Result<SigSet, BlockError>)
    ensures
        r matches Ok(set) ==> handled_in(set) == all_handled(),
{
    let set = signal_set();
    let result = block_in_thread(&set);
    blocked(set, result)
}

/// What made the signal thread wake up.
#[derive(Clone, Copy, PartialEq, Eq, Structural, Debug)]
pub enum Wakeup {
    /// A signal that the daemon deals with.
    Signal(Handled),
    /// Some other signal.
    Unexpected,
    /// Waiting failed.
    Failed,
}

/// What the signal thread does next, before it waits again.
#[derive(Clone, Copy, PartialEq, Eq, Structural, Debug)]
pub enum SignalAction {
    /// Reap every process that has exited.
    Drain,
    /// Report [`Event::Shutdown`].
    Shutdown(ShutdownMode),
    /// Do nothing: a shutdown is already under way.
    Ignore,
    /// Only make a note of it.
    Note,
}

/// The shutdown that a signal asks for.
pub open spec fn signalled_shutdown(w: Wakeup) -> Option<ShutdownMode> {
    match w {
        Wakeup::Signal(Handled::Terminate) => Some(ShutdownMode::Poweroff),
        Wakeup::Signal(Handled::Interrupt) => Some(ShutdownMode::Reboot),
        _ => None,
    }
}

/// What the signal thread does, given whether it has reported a shutdown.
pub open spec fn signal_action(shutdown_sent: bool, w: Wakeup) -> SignalAction {
    match signalled_shutdown(w) {
        Some(mode) => if shutdown_sent {
            SignalAction::Ignore
        } else {
            SignalAction::Shutdown(mode)
        },
        None => if w == Wakeup::Signal(Handled::Child) {
            SignalAction::Drain
        } else {
            SignalAction::Note
        },
    }
}

/// Whether the signal thread has reported a shutdown, after these wakeups.
pub open spec fn sent_after(ws: Seq<Wakeup>) -> bool
    decreases ws.len(),
{
    ws.len() > 0 && (sent_after(ws.drop_last()) || signalled_shutdown(ws.last()) is Some)
}

/// The signal thread's memory.
#[derive(Debug)]
pub struct SignalLoop {
    shutdown_sent: bool,
}

impl SignalLoop {
    /// A shutdown was reported.
    pub closed spec fn sent(&self) -> bool {
        self.shutdown_sent
    }

    /// No shutdown was reported yet.
    pub fn new() -> (r: SignalLoop)
        ensures
            !r.sent(),
    {
        SignalLoop { shutdown_sent: false }
    }

    /// Decides what to do about a wakeup. Only the first termination signal
    /// is reported; children are reaped for as long as the thread lives.
    pub fn run(&mut self, w: Wakeup) -> (r: SignalAction)
        ensures
            r == signal_action(old(self).sent(), w),
            final(self).sent() == (old(self).sent() || signalled_shutdown(w) is Some),
            r == SignalAction::Drain <==> w == Wakeup::Signal(Handled::Child),
            r == SignalAction::Note <==> w == Wakeup::Unexpected || w == Wakeup::Failed,
            r == SignalAction::Shutdown(ShutdownMode::Poweroff) <==> w == Wakeup::Signal(
                Handled::Terminate,
            ) && !old(self).sent(),
            r == SignalAction::Shutdown(ShutdownMode::Reboot) <==> w == Wakeup::Signal(
                Handled::Interrupt,
            ) && !old(self).sent(),
            r is Shutdown ==> final(self).sent(),
            !(r is Shutdown) ==> final(self).sent() == old(self).sent(),
    {
        match w {
            Wakeup::Signal(Handled::Child) => SignalAction::Drain,
            Wakeup::Signal(Handled::Terminate) => if self.shutdown_sent {
                SignalAction::Ignore
            } else {
                self.shutdown_sent = true;
                SignalAction::Shutdown(ShutdownMode::Poweroff)
            },
            Wakeup::Signal(Handled::Interrupt) => if self.shutdown_sent {
                SignalAction::Ignore
            } else {
                self.shutdown_sent = true;
                SignalAction::Shutdown(ShutdownMode::Reboot)
            },
            Wakeup::Unexpected => SignalAction::Note,
            Wakeup::Failed => SignalAction::Note,
        }
    }
}

/// The signal thread reports a shutdown at the first termination signal and at
/// no other wakeup.
pub proof fn one_shutdown_is_reported(ws: Seq<Wakeup>, i: int)
    requires
        0 <= i < ws.len(),
    ensures
        signal_action(sent_after(ws.take(i)), ws[i]) is Shutdown <==> (signalled_shutdown(
            ws[i],
        ) is Some && forall|j: int| 0 <= j < i ==> signalled_shutdown(#[trigger] ws[j]) is None),
        signal_action(sent_after(ws.take(i)), ws[i]) matches SignalAction::Shutdown(mode)
            ==> signalled_shutdown(ws[i]) == Some(mode),
{
    lemma_sent_after(ws, i);
}

proof fn lemma_sent_after(ws: Seq<Wakeup>, i: int)
    requires
        0 <= i <= ws.len(),
    ensures
        !sent_after(ws.take(i)) <==> forall|j: int|
            0 <= j < i ==> signalled_shutdown(#[trigger] ws[j]) is None,
    decreases i,
{
    if i > 0 {
        lemma_sent_after(ws, i - 1);
        assert(ws.take(i).drop_last() =~= ws.take(i - 1));
        assert(ws.take(i).last() == ws[i - 1]);
    }
}

/// Children are reaped at every wakeup for them, also when a shutdown is under
/// way.
pub proof fn children_are_always_reaped(shutdown_sent: bool)
    ensures
        signal_action(shutdown_sent, Wakeup::Signal(Handled::Child)) == SignalAction::Drain,
{
}

/// What an attempt to reap a process found.
#[derive(Debug)]
pub enum WaitOutcome {
    /// No process has exited since.
    StillAlive,
    /// A process exited with this code.
    Exited { pid: i32, code: i32 },
    /// A process was ended by this signal.
    Signaled { pid: i32, signal: String },
    /// A process changed its state but lives on.
    Other,
    /// There is no child process.
    NoChildren,
    /// Reaping failed.
    Failed,
}

/// What to do about it.
#[derive(Debug)]
pub enum Reaping {
    /// Stop until the next SIGCHLD.
    Stop,
    /// Look for more.
    Continue,
    /// Report this event, and look for more.
    Report(Event),
}

/// What to do about it, with the event as plain values.
pub enum ReapingView {
    Stop,
    Continue,
    Report(EventView),
}

impl View for Reaping {
    type V = ReapingView;

    open spec fn view(&self) -> ReapingView {
        match self {
            Reaping::Stop => ReapingView::Stop,
            Reaping::Continue => ReapingView::Continue,
            Reaping::Report(e) => ReapingView::Report(e@),
        }
    }
}

/// What to do about an attempt to reap a process.
pub open spec fn reaping(outcome: WaitOutcome) -> ReapingView {
    match outcome {
        WaitOutcome::StillAlive | WaitOutcome::NoChildren | WaitOutcome::Failed => {
            ReapingView::Stop
        },
        WaitOutcome::Exited { pid, code } => ReapingView::Report(
            EventView::ProcessExited {
                pid: pid as u32,
                status: "exit status: "@ + signed_decimal(code as int),
                success: code == 0,
            },
        ),
        WaitOutcome::Signaled { pid, signal } => ReapingView::Report(
            EventView::ProcessExited {
                pid: pid as u32,
                status: "signal: "@ + signal@,
                success: false,
            },
        ),
        WaitOutcome::Other => ReapingView::Continue,
    }
}

/// Decides what to do about an attempt to reap a process. One SIGCHLD can
/// stand for several exits, so there may be more.
pub fn drain(outcome: WaitOutcome) -> (r: Reaping)
    ensures
        r@ == reaping(outcome),
{
    match outcome {
        WaitOutcome::StillAlive => Reaping::Stop,
        WaitOutcome::NoChildren => Reaping::Stop,
        WaitOutcome::Failed => Reaping::Stop,
        WaitOutcome::Exited { pid, code } => {
            let mut status = "exit status: ".to_owned();
            status.append(signed_text(code).as_str());
            Reaping::Report(Event::ProcessExited { pid: pid as u32, status, success: code == 0 })
        },
        WaitOutcome::Signaled { pid, signal } => {
            let mut status = "signal: ".to_owned();
            status.append(signal.as_str());
            Reaping::Report(Event::ProcessExited { pid: pid as u32, status, success: false })
        },
        WaitOutcome::Other => Reaping::Continue,
    }
}

/// SIGTERM powers the machine off and SIGINT reboots it, once; whichever comes
/// after that is ignored. A child is always reaped, and all else is only noted.
pub proof fn wakeups_are_dealt_with(shutdown_sent: bool, w: Wakeup)
    ensures
        signal_action(shutdown_sent, w) == match w {
            Wakeup::Signal(Handled::Child) => SignalAction::Drain,
            Wakeup::Signal(Handled::Terminate) => if shutdown_sent {
                SignalAction::Ignore
            } else {
                SignalAction::Shutdown(ShutdownMode::Poweroff)
            },
            Wakeup::Signal(Handled::Interrupt) => if shutdown_sent {
                SignalAction::Ignore
            } else {
                SignalAction::Shutdown(ShutdownMode::Reboot)
            },
            Wakeup::Unexpected => SignalAction::Note,
            Wakeup::Failed => SignalAction::Note,
        },
{
}

/// Every process that exited is reported with its own id; it was successful
/// exactly if its code is zero, and its status names the code.
pub proof fn exits_are_reported_as_they_are(pid: i32, code: i32)
    requires
        pid >= 0,
    ensures
        reaping(WaitOutcome::Exited { pid, code }) matches ReapingView::Report(
            EventView::ProcessExited { pid: p, status, success },
        ) && p == pid && (success <==> code == 0) && status == "exit status: "@ + signed_decimal(
            code as int,
        ),
{
}

/// Every process that was ended by a signal is reported with its own id, as
/// unsuccessful, and its status names the signal.
pub proof fn killed_processes_are_reported_as_failed(pid: i32, signal: String)
    requires
        pid >= 0,
    ensures
        reaping(WaitOutcome::Signaled { pid, signal }) matches ReapingView::Report(
            EventView::ProcessExited { pid: p, status, success },
        ) && p == pid && !success && status == "signal: "@ + signal@,
{
}

/// Reaping goes on as long as processes turn up, and stops when none does.
pub proof fn reaping_stops_when_nothing_is_left(outcome: WaitOutcome)
    ensures
        reaping(outcome) is Stop <==> outcome is StillAlive || outcome is NoChildren
            || outcome is Failed,
        reaping(outcome) is Continue <==> outcome is Other,
{
}

} // verus!
