use vstd::prelude::*;
use vstd::string::StringSliceAdditionalSpecFns;

use crate::keyed_table::KeyedTable;

verus! {

/// How a client that opens a stream treats a session that may already run.
#[derive(Clone, Copy, Debug, PartialEq, Eq)]
pub enum SessionMode {
    /// Start a new session; fail if one runs under the id.
    Create,
    /// Start the session if it is missing, and attach no browser to it.
    Keepalive,
    /// Join the running session, taking it over from any attached client.
    Join,
}

/// What to do with a stream request, given whether its session runs.
#[derive(Clone, Copy, Debug, PartialEq, Eq)]
pub enum SessionAction {
    /// Kick the attached client, attach the new socket to the session.
    JoinExisting,
    /// The session runs headless already: close the socket.
    CloseKeepalive,
    /// Refuse: a session runs under this id already.
    RejectAlreadyStreaming,
    /// Refuse: there is no session to join.
    RejectSessionNotFound,
    /// Start a new session.
    CreateNew,
}

/// The decision table for a stream request.
pub open spec fn session_action(exists: bool, mode: SessionMode) -> SessionAction {
    if exists {
        match mode {
            SessionMode::Join => SessionAction::JoinExisting,
            SessionMode::Keepalive => SessionAction::CloseKeepalive,
            SessionMode::Create => SessionAction::RejectAlreadyStreaming,
        }
    } else {
        match mode {
            SessionMode::Join => SessionAction::RejectSessionNotFound,
            _ => SessionAction::CreateNew,
        }
    }
}

/// Decides what a stream request does, given whether a session runs under
/// its id and the mode it asks for.
pub fn admit_session(exists: bool, mode: SessionMode) -> (a: SessionAction)
    ensures
        a == session_action(exists, mode),
{
    match (exists, mode) {
        (true, SessionMode::Join) => SessionAction::JoinExisting,
        (true, SessionMode::Keepalive) => SessionAction::CloseKeepalive,
        (true, SessionMode::Create) => SessionAction::RejectAlreadyStreaming,
        (false, SessionMode::Join) => SessionAction::RejectSessionNotFound,
        (false, _) => SessionAction::CreateNew,
    }
}

/// Whether a new session keeps its browser socket attached: all but
/// keepalive sessions do.
pub fn attaches_websocket(mode: SessionMode) -> (b: bool)
    ensures
        b == (mode != SessionMode::Keepalive),
{
    match mode {
        SessionMode::Keepalive => false,
        _ => true,
    }
}

/// Whether a session outlives its streamer's control channel: keepalive
/// sessions stay registered, the others are removed and their streamer is
/// killed.
pub fn persists_after_close(mode: SessionMode) -> (b: bool)
    ensures
        b == (mode == SessionMode::Keepalive),
{
    match mode {
        SessionMode::Keepalive => true,
        _ => false,
    }
}

/// Attaches a browser to a session that holds at most one: the newcomer
/// takes the place, and the client it displaces, if any, is handed back to
/// be told and closed.
pub fn attach_client<S>(slot: &mut Option<S>, client: S) -> (kicked: Option<S>)
    ensures
        *final(slot) == Some(client),
        kicked == *old(slot),
{
    let kicked = slot.take();
    *slot = Some(client);
    kicked
}

/// The streamer of session `session_id` has stopped talking: a keepalive
/// session stays registered, any other leaves the table. True when it
/// left, so that its streamer is to be killed.
pub fn close_session<S>(sessions: &mut KeyedTable<S>, session_id: &str, mode: SessionMode) -> (kill: bool)
    requires
        old(sessions).wf(),
    ensures
        final(sessions).wf(),
        kill == !persists_after_close_spec(mode),
        final(sessions)@ == (if kill {
            old(sessions)@.remove(session_id@)
        } else {
            old(sessions)@
        }),
{
    if persists_after_close(mode) {
        false
    } else {
        sessions.remove(session_id);
        true
    }
}

/// Whether a session of this mode outlives its streamer's control channel.
pub open spec fn persists_after_close_spec(mode: SessionMode) -> bool {
    mode == SessionMode::Keepalive
}

/// A frame that arrives on a browser socket, as far as the stream
/// handshake cares.
#[derive(Clone, Debug, PartialEq, Eq)]
pub enum SocketFrame {
    Text(String),
    Binary,
    /// A ping, pong, continuation or close frame.
    Control,
    /// The socket reported an error.
    Failed,
    /// The socket has ended.
    Ended,
}

/// What the handshake does with a frame while it waits for the first text.
#[derive(Clone, Debug, PartialEq, Eq)]
pub enum HandshakeStep {
    /// Take this text as the opening message.
    Accept(String),
    /// Wait for the next frame.
    Skip,
    /// Give up on the socket.
    Abort,
}

/// The first text frame opens the handshake; control frames are passed
/// over; binary data, an error or the end of the socket abort it.
pub fn handshake_step(frame: SocketFrame) -> (step: HandshakeStep)
    ensures
        match frame {
            SocketFrame::Text(t) => step == HandshakeStep::Accept(t),
            SocketFrame::Control => step == HandshakeStep::Skip,
            _ => step == HandshakeStep::Abort,
        },
{
    match frame {
        SocketFrame::Text(t) => HandshakeStep::Accept(t),
        SocketFrame::Control => HandshakeStep::Skip,
        _ => HandshakeStep::Abort,
    }
}

/// The first position in `app_ids` that holds `app_id`.
pub fn find_app(app_ids: &[u32], app_id: u32) -> (r: Option<usize>)
    ensures
        match r {
            Some(i) => i < app_ids@.len() && app_ids@[i as int] == app_id && forall|j: int|
                0 <= j < i ==> app_ids@[j] != app_id,
            None => !app_ids@.contains(app_id),
        },
{
    let mut i: usize = 0;
    while i < app_ids.len()
        invariant
            i <= app_ids@.len(),
            forall|j: int| 0 <= j < i ==> app_ids@[j] != app_id,
        decreases app_ids@.len() - i,
    {
        if app_ids[i] == app_id {
            return Some(i);
        }
        i = i + 1;
    }
    None
}

/// Why a stream request is refused once its session may start.
#[derive(Clone, Copy, Debug, PartialEq, Eq)]
pub enum StreamRefusal {
    HostNotFound,
    HostNotPaired,
    InternalServerError,
    AppNotFound,
}

/// The host checks of a stream request, in their order: the host must
/// exist, then be paired. `None` lets the request go on to the app list.
pub fn check_stream_host(host_found: bool, host_paired: bool) -> (r: Option<StreamRefusal>)
    ensures
        r == (if !host_found {
            Some(StreamRefusal::HostNotFound)
        } else if !host_paired {
            Some(StreamRefusal::HostNotPaired)
        } else {
            None::<StreamRefusal>
        }),
{
    if !host_found {
        Some(StreamRefusal::HostNotFound)
    } else if !host_paired {
        Some(StreamRefusal::HostNotPaired)
    } else {
        None
    }
}

/// The app checks of a stream request, in their order: the app list must
/// have come (`None` when the host failed to give it), must hold `app_id`,
/// and the host must have all its pairing certificates. The result is the
/// position of the app in the list.
pub fn check_stream_app(app_ids: Option<&[u32]>, app_id: u32, has_certificates: bool) -> (r: Result<
    usize,
    StreamRefusal,
>)
    ensures
        match app_ids {
            None => r == Err::<usize, _>(StreamRefusal::InternalServerError),
            Some(ids) => if !ids@.contains(app_id) {
                r == Err::<usize, _>(StreamRefusal::AppNotFound)
            } else if !has_certificates {
                r == Err::<usize, _>(StreamRefusal::InternalServerError)
            } else {
                r matches Ok(i) && i < ids@.len() && ids@[i as int] == app_id && forall|j: int|
                    0 <= j < i ==> ids@[j] != app_id
            },
        },
{
    match app_ids {
        None => Err(StreamRefusal::InternalServerError),
        Some(ids) => match find_app(ids, app_id) {
            None => Err(StreamRefusal::AppNotFound),
            Some(i) => {
                proof {
                    assert(ids@[i as int] == app_id);
                    assert(ids@.contains(app_id));
                }
                if has_certificates {
                    Ok(i)
                } else {
                    Err(StreamRefusal::InternalServerError)
                }
            },
        },
    }
}

/// The pairing PIN that the environment gives as text: exactly four ASCII
/// digits, as their values.
pub open spec fn pin_digits(bytes: Seq<u8>) -> Option<[u8; 4]> {
    if bytes.len() == 4 && forall|i: int| 0 <= i < 4 ==> 48 <= #[trigger] bytes[i] <= 57 {
        Some([(bytes[0] - 48) as u8, (bytes[1] - 48) as u8, (bytes[2] - 48) as u8, (bytes[3] - 48) as u8])
    } else {
        None
    }
}

/// A PIN text reads as the digits `d` exactly when it is four bytes, each
/// the ASCII digit (`'0'` is 48) of the matching value of `d`: every
/// four-digit PIN is accepted, and nothing else is.
pub proof fn lemma_pin_digits(bytes: Seq<u8>, d: [u8; 4])
    ensures
        pin_digits(bytes) == Some(d) <==> (bytes.len() == 4 && forall|i: int|
            0 <= i < 4 ==> d@[i] <= 9 && #[trigger] bytes[i] == d@[i] + 48),
{
    if bytes.len() == 4 && forall|i: int| 0 <= i < 4 ==> d@[i] <= 9 && #[trigger] bytes[i] == d@[i] + 48 {
        assert(bytes[0] == d@[0] + 48 && bytes[1] == d@[1] + 48 && bytes[2] == d@[2] + 48 && bytes[3]
            == d@[3] + 48);
        let e: [u8; 4] = [(bytes[0] - 48) as u8, (bytes[1] - 48) as u8, (bytes[2] - 48) as u8, (bytes[3] - 48) as u8];
        assert(e@ =~= d@);
        assert(pin_digits(bytes) == Some(e));
        assert(e == d);
    }
    if pin_digits(bytes) == Some(d) {
        assert(bytes.len() == 4);
        assert forall|i: int| 0 <= i < 4 implies d@[i] <= 9 && #[trigger] bytes[i] == d@[i] + 48 by {
            assert(48 <= bytes[i] <= 57);
        }
    }
}

/// Reads a four-digit pairing PIN. Anything but exactly four ASCII digits
/// is refused.
pub fn parse_pairing_pin(pin: &str) -> (digits: Option<[u8; 4]>)
    ensures
        digits == pin_digits(pin.spec_bytes()),
        forall|d: [u8; 4]|
            #![trigger d@]
            digits == Some(d) <==> (pin.spec_bytes().len() == 4 && forall|i: int|
                0 <= i < 4 ==> d@[i] <= 9 && #[trigger] pin.spec_bytes()[i] == d@[i] + 48),
{
    proof {
        assert forall|d: [u8; 4]|
            #![trigger d@]
            pin_digits(pin.spec_bytes()) == Some(d) <==> (pin.spec_bytes().len() == 4 && forall|i: int|
                0 <= i < 4 ==> d@[i] <= 9 && #[trigger] pin.spec_bytes()[i] == d@[i] + 48) by {
            lemma_pin_digits(pin.spec_bytes(), d);
        }
    }
    let bytes = pin.as_bytes();
    if bytes.len() != 4 {
        return None;
    }
    let mut i: usize = 0;
    while i < 4
        invariant
            bytes@ == pin.spec_bytes(),
            bytes@.len() == 4,
            i <= 4,
            forall|j: int| 0 <= j < i ==> 48 <= #[trigger] bytes@[j] <= 57,
        decreases 4 - i,
    {
        if bytes[i] < 48 || bytes[i] > 57 {
            return None;
        }
        i = i + 1;
    }
    Some([bytes[0] - 48, bytes[1] - 48, bytes[2] - 48, bytes[3] - 48])
}

} // verus!
