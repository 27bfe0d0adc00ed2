use vstd::prelude::*;
use webrtc::peer_connection::sdp::session_description::RTCSessionDescription;

verus! {

/// The state of a WebRTC peer connection.
#[derive(Clone, Copy, Debug, PartialEq, Eq)]
pub enum PeerConnectionState {
    Unspecified,
    New,
    Connecting,
    Connected,
    Disconnected,
    Failed,
    Closed,
}

/// The state of the ICE transport of a peer connection.
#[derive(Clone, Copy, Debug, PartialEq, Eq)]
pub enum IceConnectionState {
    Unspecified,
    New,
    Checking,
    Connected,
    Completed,
    Disconnected,
    Failed,
    Closed,
}

/// Whether the streamer stops when its peer connection enters `state`: it
/// does when the connection failed, dropped or closed.
pub fn stops_on(state: PeerConnectionState) -> (b: bool)
    ensures
        b == (state == PeerConnectionState::Failed || state == PeerConnectionState::Disconnected
            || state == PeerConnectionState::Closed),
{
    match state {
        PeerConnectionState::Failed | PeerConnectionState::Disconnected
        | PeerConnectionState::Closed => true,
        _ => false,
    }
}

/// Whether the host stream starts when ICE enters `state`: it does once
/// ICE has connected.
pub fn starts_stream_on(state: IceConnectionState) -> (b: bool)
    ensures
        b == (state == IceConnectionState::Connected),
{
    match state {
        IceConnectionState::Connected => true,
        _ => false,
    }
}

/// The type of a session description that a browser sends.
#[derive(Clone, Copy, Debug, PartialEq, Eq)]
pub enum SdpKind {
    Offer,
    Answer,
    Pranswer,
    Rollback,
    Unspecified,
}

/// Whether a remote description of this type is applied: offers, answers
/// and provisional answers are; anything else is refused.
pub fn accepts_remote(kind: SdpKind) -> (b: bool)
    ensures
        b == (kind == SdpKind::Offer || kind == SdpKind::Answer || kind == SdpKind::Pranswer),
{
    match kind {
        SdpKind::Offer | SdpKind::Answer | SdpKind::Pranswer => true,
        _ => false,
    }
}

/// Whether applying a remote description of this type calls for an
/// answer: only an offer does.
pub fn needs_answer(kind: SdpKind) -> (b: bool)
    ensures
        b == (kind == SdpKind::Offer),
{
    match kind {
        SdpKind::Offer => true,
        _ => false,
    }
}

#[verifier::external_type_specification]
#[verifier::external_body]
pub struct ExRtcSessionDescription(RTCSessionDescription);

#[verifier::external_type_specification]
#[verifier::external_body]
pub struct ExWebrtcError(webrtc::Error);

/// Whether webrtc accepts `sdp` as session description text: the parse
/// that `RTCSessionDescription::offer`, `answer` and `pranswer` all run on
/// it (`sdp::SessionDescription::unmarshal`) succeeds. It depends on the
/// text alone; the rule is the sdp crate's.
pub uninterp spec fn sdp_parses(sdp: Seq<char>) -> bool;

/// What `RTCSessionDescription::offer` gives for a text that parses: the
/// text wrapped as a remote offer, with its parse. A function of the text alone.
pub uninterp spec fn offer_description(sdp: Seq<char>) -> RTCSessionDescription;

/// `RTCSessionDescription::offer`: the text as a remote offer, when it parses.
#[verifier::external_body]
fn sdp_offer(sdp: String) -> (r: Result<RTCSessionDescription, webrtc::Error>)
    ensures
        match r {
            Ok(d) => sdp_parses(sdp@) && d == offer_description(sdp@),
            Err(_) => !sdp_parses(sdp@),
        },
{
    RTCSessionDescription::offer(sdp)
}

/// What `RTCSessionDescription::answer` gives for a text that parses: the
/// text wrapped as a remote answer, with its parse. A function of the text alone.
pub uninterp spec fn answer_description(sdp: Seq<char>) -> RTCSessionDescription;

/// `RTCSessionDescription::answer`: the text as a remote answer, when it parses.
#[verifier::external_body]
fn sdp_answer(sdp: String) -> (r: Result<RTCSessionDescription, webrtc::Error>)
    ensures
        match r {
            Ok(d) => sdp_parses(sdp@) && d == answer_description(sdp@),
            Err(_) => !sdp_parses(sdp@),
        },
{
    RTCSessionDescription::answer(sdp)
}

/// What `RTCSessionDescription::pranswer` gives for a text that parses: the
/// text wrapped as a remote provisional answer, with its parse. A function of the text alone.
pub uninterp spec fn pranswer_description(sdp: Seq<char>) -> RTCSessionDescription;

/// `RTCSessionDescription::pranswer`: the text as a remote provisional answer, when it parses.
#[verifier::external_body]
fn sdp_pranswer(sdp: String) -> (r: Result<RTCSessionDescription, webrtc::Error>)
    ensures
        match r {
            Ok(d) => sdp_parses(sdp@) && d == pranswer_description(sdp@),
            Err(_) => !sdp_parses(sdp@),
        },
{
    RTCSessionDescription::pranswer(sdp)
}

/// The remote description a browser sent, ready to apply as the type it
/// was sent as, with whether it calls for an answer. There is none when its type is one that is not
/// applied, or when its text does not parse.
pub fn remote_description(kind: SdpKind, sdp: String) -> (r: Option<(RTCSessionDescription, bool)>)
    ensures
        r is Some <==> (kind == SdpKind::Offer || kind == SdpKind::Answer || kind
            == SdpKind::Pranswer) && sdp_parses(sdp@),
        r matches Some((_, answer)) ==> answer == (kind == SdpKind::Offer),
        r matches Some((d, _)) ==> d == (if kind == SdpKind::Offer {
            offer_description(sdp@)
        } else if kind == SdpKind::Answer {
            answer_description(sdp@)
        } else {
            pranswer_description(sdp@)
        }),
{
    let parsed = match kind {
        SdpKind::Offer => sdp_offer(sdp),
        SdpKind::Answer => sdp_answer(sdp),
        SdpKind::Pranswer => sdp_pranswer(sdp),
        _ => return None,
    };
    match parsed {
        Ok(description) => Some((description, needs_answer(kind))),
        Err(_) => None,
    }
}

/// A message from the web server to a streamer, carrying browser messages
/// of type `M`.
pub enum ServerMessage<M> {
    /// The stream settings; they come before the loop starts.
    Init,
    /// A message from the browser attached to the stream.
    WebSocket(M),
    /// Start the host stream without a browser.
    StartMoonlight,
    /// A browser joins as a new peer.
    AddPeer { peer_id: String },
    /// A message from one peer.
    FromPeer { peer_id: String, message: M },
    /// A peer has left.
    RemovePeer { peer_id: String },
    /// Stop streaming.
    Stop,
    /// A browser took over the session.
    ClientJoined,
}

/// What the streamer does with a message from the web server.
pub enum IpcStep<M> {
    /// Stop streaming and stop listening.
    StopAndEnd,
    /// Start the host stream, and report it connected if that worked.
    StartStream,
    /// Set up a connection for a new peer.
    AddPeer(String),
    /// Handle a message from this peer on its own connection.
    FromPeer(String, M),
    /// Tear down this peer.
    RemovePeer(String),
    /// Handle a message from the attached browser.
    FromBrowser(M),
    /// Nothing to do.
    Ignore,
}

/// Decides what the streamer does with each message from the web server:
/// `Stop` stops it and ends the loop, `StartMoonlight` starts the stream,
/// peers are added, served and removed, browser messages are handled, and
/// `Init` (already taken) and `ClientJoined` need nothing.
pub fn ipc_step<M>(message: ServerMessage<M>) -> (step: IpcStep<M>)
    ensures
        match message {
            ServerMessage::Init => step is Ignore,
            ServerMessage::WebSocket(m) => step == IpcStep::FromBrowser(m),
            ServerMessage::StartMoonlight => step is StartStream,
            ServerMessage::AddPeer { peer_id } => step == IpcStep::<M>::AddPeer(peer_id),
            ServerMessage::FromPeer { peer_id, message } => step == IpcStep::FromPeer(peer_id, message),
            ServerMessage::RemovePeer { peer_id } => step == IpcStep::<M>::RemovePeer(peer_id),
            ServerMessage::Stop => step is StopAndEnd,
            ServerMessage::ClientJoined => step is Ignore,
        },
{
    match message {
        ServerMessage::Init => IpcStep::Ignore,
        ServerMessage::WebSocket(m) => IpcStep::FromBrowser(m),
        ServerMessage::StartMoonlight => IpcStep::StartStream,
        ServerMessage::AddPeer { peer_id } => IpcStep::AddPeer(peer_id),
        ServerMessage::FromPeer { peer_id, message } => IpcStep::FromPeer(peer_id, message),
        ServerMessage::RemovePeer { peer_id } => IpcStep::RemovePeer(peer_id),
        ServerMessage::Stop => IpcStep::StopAndEnd,
        ServerMessage::ClientJoined => IpcStep::Ignore,
    }
}

/// Whether the web server is told that the host stream is up after a
/// start: exactly when the start succeeded.
pub fn reports_connected(started: bool) -> (r: bool)
    ensures
        r == started,
{
    started
}

/// Where a signaling message of the streamer goes.
#[derive(Clone, Debug, PartialEq, Eq)]
pub enum SignalRoute {
    /// To the one peer that is being negotiated with.
    ToPeer(String),
    /// To every browser attached to the stream.
    Broadcast,
}

/// Sends to the peer being negotiated with, if there is one, and to every
/// attached browser otherwise.
pub fn route_signal(current_peer: Option<String>) -> (r: SignalRoute)
    ensures
        match current_peer {
            Some(p) => r == SignalRoute::ToPeer(p),
            None => r == SignalRoute::Broadcast,
        },
{
    match current_peer {
        Some(p) => SignalRoute::ToPeer(p),
        None => SignalRoute::Broadcast,
    }
}

/// The video size that the browser is told once the stream runs: the size
/// the decoder reported, or the configured one while none was reported
/// (the decoder's size is `(0, 0)` until then).
pub fn effective_video_size(reported: (u32, u32), configured: (u32, u32)) -> (size: (u32, u32))
    ensures
        size == (if reported == (0u32, 0u32) {
            configured
        } else {
            reported
        }),
{
    if reported.0 == 0 && reported.1 == 0 {
        configured
    } else {
        reported
    }
}

} // verus!
