//! Messages between the daemon and its control client, and how they are framed
//! on the control socket: a length of four bytes, most significant first, and
//! that many bytes of payload. One request in, one response out.

use crate::text::{decimal, decimal_text};
use vstd::prelude::*;
use vstd::slice::slice_subrange;
use vstd::string::*;

verus! {

/// Where the daemon listens unless told otherwise.
pub const DEFAULT_SOCKET_PATH: &'static str = "/run/apollo/control.sock";

/// What a client asks of the daemon.
#[derive(Clone, Debug)]
pub enum Request {
    /// List all units and their state.
    ListUnits,
    /// Get the state of one unit.
    Status { name: String },
    /// Start a unit that is not running.
    Start { name: String },
    /// Stop a running unit.
    Stop { name: String },
    /// Stop a unit and start it again.
    Restart { name: String },
    /// Stop every unit, then reboot the machine.
    Reboot,
    /// Stop every unit, then power the machine off.
    Poweroff,
    /// Stop every unit, then halt the machine.
    Halt,
}

/// What the daemon answers.
#[derive(Clone, Debug)]
pub enum Response {
    /// The request was accepted; there is nothing to return.
    Accepted,
    /// The request could not be fulfilled.
    Error(String),
    /// Answer to [`Request::ListUnits`].
    Units(Vec<UnitInfo>),
    /// Answer to [`Request::Status`].
    Unit(UnitInfo),
}

/// The state of one unit, as it is reported to clients.
#[derive(Clone, Debug)]
pub struct UnitInfo {
    pub name: String,
    pub state: UnitState,
    pub pid: Option<u32>,
    pub restart_count: u32,
    pub exit_status: Option<String>,
}

/// Where a unit stands.
#[derive(Clone, Copy, PartialEq, Eq, Structural, Debug)]
pub enum UnitState {
    /// Loaded, not started yet.
    Loaded,
    /// The process is running.
    Running,
    /// The process was asked to terminate and has not exited yet.
    Stopping,
    /// The process exited or was stopped.
    Stopped,
    /// The process failed and is not restarted.
    Failed,
}

/// The view of an optional string.
pub open spec fn text_of(s: Option<String>) -> Option<Seq<char>> {
    match s {
        Some(t) => Some(t@),
        None => None,
    }
}

/// A request, with its strings as character sequences.
pub enum RequestView {
    ListUnits,
    Status { name: Seq<char> },
    Start { name: Seq<char> },
    Stop { name: Seq<char> },
    Restart { name: Seq<char> },
    Reboot,
    Poweroff,
    Halt,
}

/// A unit's reported state, with its strings as character sequences.
pub struct InfoView {
    pub name: Seq<char>,
    pub state: UnitState,
    pub pid: Option<u32>,
    pub restart_count: u32,
    pub exit_status: Option<Seq<char>>,
}

/// A response, with its strings as character sequences.
pub enum ResponseView {
    Accepted,
    Error(Seq<char>),
    Units(Seq<InfoView>),
    Unit(InfoView),
}

impl View for Request {
    type V = RequestView;

    open spec fn view(&self) -> RequestView {
        match self {
            Request::ListUnits => RequestView::ListUnits,
            Request::Status { name } => RequestView::Status { name: name@ },
            Request::Start { name } => RequestView::Start { name: name@ },
            Request::Stop { name } => RequestView::Stop { name: name@ },
            Request::Restart { name } => RequestView::Restart { name: name@ },
            Request::Reboot => RequestView::Reboot,
            Request::Poweroff => RequestView::Poweroff,
            Request::Halt => RequestView::Halt,
        }
    }
}

impl View for UnitInfo {
    type V = InfoView;

    open spec fn view(&self) -> InfoView {
        InfoView {
            name: self.name@,
            state: self.state,
            pid: self.pid,
            restart_count: self.restart_count,
            exit_status: text_of(self.exit_status),
        }
    }
}

impl View for Response {
    type V = ResponseView;

    open spec fn view(&self) -> ResponseView {
        match self {
            Response::Accepted => ResponseView::Accepted,
            Response::Error(e) => ResponseView::Error(e@),
            Response::Units(us) => ResponseView::Units(us@.map_values(|u: UnitInfo| u@)),
            Response::Unit(u) => ResponseView::Unit(u@),
        }
    }
}

/// The word for a state.
pub open spec fn state_word(s: UnitState) -> Seq<char> {
    match s {
        UnitState::Loaded => "loaded"@,
        UnitState::Running => "running"@,
        UnitState::Stopping => "stopping"@,
        UnitState::Stopped => "stopped"@,
        UnitState::Failed => "failed"@,
    }
}

impl UnitState {
    /// The word that clients show for this state.
    pub fn as_str(self) -> (r: &'static str)
        ensures
            r@ == state_word(self),
    {
        match self {
            UnitState::Loaded => "loaded",
            UnitState::Running => "running",
            UnitState::Stopping => "stopping",
            UnitState::Stopped => "stopped",
            UnitState::Failed => "failed",
        }
    }
}

/// Longest payload that is accepted from the socket.
pub const MAX_MESSAGE_LEN: u32 = 10_485_760;

/// Why a message could not be framed or unframed.
#[derive(Clone, Copy, PartialEq, Eq, Structural, Debug)]
pub enum FrameError {
    /// The payload's length does not fit in four bytes.
    TooLarge,
    /// The frame announces a payload longer than is accepted.
    LengthExceeded { len: u32 },
    /// The input ends inside the frame.
    UnexpectedEof,
}

impl FrameError {
    /// What the error says.
    pub open spec fn message_spec(self) -> Seq<char> {
        match self {
            FrameError::TooLarge => "message too large to frame"@,
            FrameError::LengthExceeded { len } => "message length "@ + decimal(len as nat)
                + " exceeds max "@ + decimal(MAX_MESSAGE_LEN as nat),
            FrameError::UnexpectedEof => "failed to fill whole buffer"@,
        }
    }

    /// What the error says.
    pub fn message(self) -> (r: String)
        ensures
            r@ == self.message_spec(),
    {
        match self {
            FrameError::TooLarge => "message too large to frame".to_owned(),
            FrameError::LengthExceeded { len } => {
                let mut s = "message length ".to_owned();
                s.append(decimal_text(len as u64).as_str());
                s.append(" exceeds max ");
                s.append(decimal_text(MAX_MESSAGE_LEN as u64).as_str());
                s
            },
            FrameError::UnexpectedEof => "failed to fill whole buffer".to_owned(),
        }
    }
}

/// The number that four bytes stand for, most significant first.
pub open spec fn header_value(h: Seq<u8>) -> int {
    h[0] * 0x100_0000 + h[1] * 0x1_0000 + h[2] * 0x100 + h[3]
}

/// The four bytes that stand for a number, most significant first.
pub open spec fn header_bytes(n: int) -> Seq<u8> {
    seq![
        (n / 0x100_0000 % 0x100) as u8,
        (n / 0x1_0000 % 0x100) as u8,
        (n / 0x100 % 0x100) as u8,
        (n % 0x100) as u8,
    ]
}

/// A payload behind its length.
pub open spec fn frame(payload: Seq<u8>) -> Seq<u8> {
    header_bytes(payload.len() as int) + payload
}

/// What reading one message off `input` gives: the payload, or why there is
/// none.
pub open spec fn unframe(input: Seq<u8>) -> Result<Seq<u8>, FrameError> {
    if input.len() < 4 {
        Err(FrameError::UnexpectedEof)
    } else {
        let len = header_value(input);
        if len > MAX_MESSAGE_LEN {
            Err(FrameError::LengthExceeded { len: len as u32 })
        } else if input.len() < 4 + len {
            Err(FrameError::UnexpectedEof)
        } else {
            Ok(input.subrange(4, 4 + len))
        }
    }
}

/// Frames a payload. Fails if its length does not fit in four bytes.
pub fn write_message(payload: &[u8]) -> (r: Result<Vec<u8>, FrameError>)
    ensures
        match r {
            Ok(f) => payload@.len() <= u32::MAX && f@ == frame(payload@),
            Err(e) => payload@.len() > u32::MAX && e == FrameError::TooLarge,
        },
{
    let n = payload.len();
    if n > 0xffff_ffff {
        return Err(FrameError::TooLarge);
    }
    let mut out: Vec<u8> = Vec::new();
    out.push((n / 0x100_0000 % 0x100) as u8);
    out.push((n / 0x1_0000 % 0x100) as u8);
    out.push((n / 0x100 % 0x100) as u8);
    out.push((n % 0x100) as u8);
    assert(out@ =~= header_bytes(n as int));
    let mut i: usize = 0;
    while i < n
        invariant
            i <= n,
            n == payload@.len(),
            out@ == header_bytes(n as int) + payload@.take(i as int),
        decreases n - i,
    {
        out.push(payload[i]);
        i = i + 1;
        assert(out@ =~= header_bytes(n as int) + payload@.take(i as int));
    }
    assert(payload@.take(n as int) =~= payload@);
    Ok(out)
}

/// Reads the length of the payload that follows a header. Fails if it is
/// longer than is accepted.
pub fn read_header(header: &[u8]) -> (r: Result<u32, FrameError>)
    requires
        header@.len() >= 4,
    ensures
        match r {
            Ok(len) => len == header_value(header@) && len <= MAX_MESSAGE_LEN,
            Err(e) => header_value(header@) > MAX_MESSAGE_LEN && e == (FrameError::LengthExceeded {
                len: header_value(header@) as u32,
            }),
        },
{
    let len: u32 = header[0] as u32 * 0x100_0000 + header[1] as u32 * 0x1_0000 + header[2] as u32
        * 0x100 + header[3] as u32;
    if len > MAX_MESSAGE_LEN {
        Err(FrameError::LengthExceeded { len })
    } else {
        Ok(len)
    }
}

/// Reads one message from the front of `input`.
pub fn read_message(input: &[u8]) -> (r: Result<&[u8], FrameError>)
    ensures
        match r {
            Ok(p) => unframe(input@) == Ok::<Seq<u8>, FrameError>(p@),
            Err(e) => unframe(input@) == Err::<Seq<u8>, FrameError>(e),
        },
{
    if input.len() < 4 {
        return Err(FrameError::UnexpectedEof);
    }
    match read_header(input) {
        Err(e) => Err(e),
        Ok(len) => {
            if input.len() - 4 < len as usize {
                Err(FrameError::UnexpectedEof)
            } else {
                Ok(slice_subrange(input, 4, 4 + len as usize))
            }
        },
    }
}

/// What was framed is read back, whatever follows it, as long as it is no
/// longer than is accepted.
pub proof fn read_gives_back_what_was_written(payload: Seq<u8>, rest: Seq<u8>)
    requires
        payload.len() <= MAX_MESSAGE_LEN,
    ensures
        unframe(frame(payload) + rest) == Ok::<Seq<u8>, FrameError>(payload),
{
    lemma_header(payload.len() as int);
    let input = frame(payload) + rest;
    assert(header_value(input) == header_value(header_bytes(payload.len() as int)));
    assert(input.subrange(4, 4 + payload.len() as int) =~= payload);
}

/// A longer payload can be framed, but the reader refuses it and names its
/// length.
pub proof fn reader_refuses_long_messages(payload: Seq<u8>, rest: Seq<u8>)
    requires
        MAX_MESSAGE_LEN < payload.len() <= u32::MAX,
    ensures
        unframe(frame(payload) + rest) == Err::<Seq<u8>, FrameError>(
            FrameError::LengthExceeded { len: payload.len() as u32 },
        ),
{
    lemma_header(payload.len() as int);
    let input = frame(payload) + rest;
    assert(header_value(input) == header_value(header_bytes(payload.len() as int)));
}

/// A frame that is cut short is not read.
pub proof fn reader_refuses_cut_frames(payload: Seq<u8>, k: int)
    requires
        payload.len() <= MAX_MESSAGE_LEN,
        0 <= k < frame(payload).len(),
    ensures
        unframe(frame(payload).take(k)) == Err::<Seq<u8>, FrameError>(FrameError::UnexpectedEof),
{
    lemma_header(payload.len() as int);
    let input = frame(payload).take(k);
    if k >= 4 {
        assert(header_value(input) == header_value(header_bytes(payload.len() as int)));
    }
}

/// A frame is four bytes of length, most significant first, and the payload.
pub proof fn frames_are_a_length_and_a_payload(payload: Seq<u8>)
    requires
        payload.len() <= u32::MAX,
    ensures
        ({
            let f = frame(payload);
            &&& f.len() == 4 + payload.len()
            &&& f[0] * 0x100_0000 + f[1] * 0x1_0000 + f[2] * 0x100 + f[3] == payload.len()
            &&& f.skip(4) == payload
        }),
{
    lemma_header(payload.len() as int);
    assert(frame(payload).skip(4) =~= payload);
}

/// Whatever comes in is read as its first four bytes say: too long a message is
/// refused with its length, too short an input is refused, and otherwise the
/// payload is what follows.
pub proof fn readers_go_by_the_length(a: u8, b: u8, c: u8, d: u8, rest: Seq<u8>)
    ensures
        ({
            let n = a * 0x100_0000 + b * 0x1_0000 + c * 0x100 + d;
            let r = unframe(seq![a, b, c, d] + rest);
            &&& header_value(seq![a, b, c, d] + rest) == n
            &&& n > 10_485_760 ==> r == Err::<Seq<u8>, FrameError>(
                FrameError::LengthExceeded { len: n as u32 },
            )
            &&& n <= 10_485_760 && rest.len() < n ==> r == Err::<Seq<u8>, FrameError>(
                FrameError::UnexpectedEof,
            )
            &&& n <= 10_485_760 && rest.len() >= n ==> r == Ok::<Seq<u8>, FrameError>(
                rest.take(n),
            )
        }),
{
    let n = a * 0x100_0000 + b * 0x1_0000 + c * 0x100 + d;
    let input = seq![a, b, c, d] + rest;
    if n <= rest.len() {
        assert(input.subrange(4, 4 + n) =~= rest.take(n));
    }
}

/// Less than a length is refused.
pub proof fn readers_need_a_length(input: Seq<u8>)
    requires
        input.len() < 4,
    ensures
        unframe(input) == Err::<Seq<u8>, FrameError>(FrameError::UnexpectedEof),
{
}

/// What an error of framing says, with the length that was refused and the
/// longest that is not.
pub proof fn framing_errors_are_worded(len: u32)
    ensures
        FrameError::TooLarge.message_spec() == "message too large to frame"@,
        FrameError::UnexpectedEof.message_spec() == "failed to fill whole buffer"@,
        (FrameError::LengthExceeded { len }).message_spec() == "message length "@ + decimal(
            len as nat,
        ) + " exceeds max "@ + decimal(10_485_760),
{
}

proof fn lemma_header(n: int)
    requires
        0 <= n <= u32::MAX,
    ensures
        header_value(header_bytes(n)) == n,
{
}

} // verus!
