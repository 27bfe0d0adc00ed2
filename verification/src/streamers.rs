use vstd::prelude::*;

use crate::keyed_table::KeyedTable;

verus! {

/// A lower-case hexadecimal digit.
pub open spec fn is_lower_hex(c: char) -> bool {
    ('0' <= c <= '9') || ('a' <= c <= 'f')
}

/// The hyphenated lower-case text of a version 4 UUID: 36 characters, with
/// hyphens at 8, 13, 18 and 23, hex digits elsewhere, the version digit `4`
/// at 14 and the variant digit (8, 9, a or b) at 19.
pub open spec fn is_uuid_v4_text(t: Seq<char>) -> bool {
    &&& t.len() == 36
    &&& forall|i: int|
        0 <= i < 36 ==> if i == 8 || i == 13 || i == 18 || i == 23 {
            #[trigger] t[i] == '-'
        } else {
            is_lower_hex(t[i])
        }
    &&& t[14] == '4'
    &&& (t[19] == '8' || t[19] == '9' || t[19] == 'a' || t[19] == 'b')
}

/// A fresh random peer id: `uuid::Uuid::new_v4()` in its `Display` form,
/// which is the hyphenated lower-case text. Which id comes out is random;
/// its form is all that is claimed.
#[verifier::external_body]
fn new_peer_id() -> (id: String)
    ensures
        is_uuid_v4_text(id@),
{
    uuid::Uuid::new_v4().to_string()
}

/// Registers a browser connection under a fresh random peer id, a version
/// 4 UUID in its hyphenated text, and returns the id.
pub fn admit_peer<V>(peers: &mut KeyedTable<V>, connection: V) -> (id: String)
    requires
        old(peers).wf(),
    ensures
        final(peers).wf(),
        final(peers)@ == old(peers)@.insert(id@, connection),
        is_uuid_v4_text(id@),
{
    let id = new_peer_id();
    peers.insert(id.clone(), connection);
    id
}

/// Why a request to create a streamer is refused before anything starts.
#[derive(Clone, Copy, Debug, PartialEq, Eq)]
pub enum StreamerRefusal {
    /// A streamer runs under this id already.
    AlreadyExists,
    HostNotFound,
    HostNotPaired,
}

/// The checks of a create-streamer request, in their order: the id must be
/// free, the host must exist, then be paired. `None` lets it go on.
pub fn check_new_streamer(exists: bool, host_found: bool, host_paired: bool) -> (r: Option<
    StreamerRefusal,
>)
    ensures
        r == (if exists {
            Some(StreamerRefusal::AlreadyExists)
        } else if !host_found {
            Some(StreamerRefusal::HostNotFound)
        } else if !host_paired {
            Some(StreamerRefusal::HostNotPaired)
        } else {
            None::<StreamerRefusal>
        }),
{
    if exists {
        Some(StreamerRefusal::AlreadyExists)
    } else if !host_found {
        Some(StreamerRefusal::HostNotFound)
    } else if !host_paired {
        Some(StreamerRefusal::HostNotPaired)
    } else {
        None
    }
}

/// A message from a streamer process to the web server, carrying browser
/// messages of type `M`.
pub enum StreamerEvent<M> {
    /// A message for the browsers of the stream.
    WebSocket(M),
    /// The host stream is up.
    MoonlightConnected,
    /// A message for one peer.
    ToPeer { peer_id: String, message: M },
    /// A message for every peer.
    Broadcast(M),
    /// The streamer has started.
    StreamerReady { streamer_id: String },
    /// The streamer is stopping.
    Stop,
}

/// What the web server does with a streamer's message.
pub enum Relay<M> {
    /// Send to every attached peer.
    ToAll(M),
    /// Send to this peer.
    ToOne(String, M),
    /// Record that the host stream is up.
    MarkConnected,
    /// Nothing to forward.
    Nothing,
    /// Stop listening to the streamer and unregister it.
    StopRelaying,
}

/// Decides where a streamer's message goes, given the attached peers:
/// stream messages go to every peer while there is one, a message for one
/// peer goes to it while it is attached, and broadcasts go to all.
pub fn relay_event<M, S>(peers: &KeyedTable<S>, event: StreamerEvent<M>) -> (r: Relay<M>)
    requires
        peers.wf(),
    ensures
        match event {
            StreamerEvent::WebSocket(m) => if peers@.len() == 0 {
                r is Nothing
            } else {
                r == Relay::ToAll(m)
            },
            StreamerEvent::MoonlightConnected => r is MarkConnected,
            StreamerEvent::ToPeer { peer_id, message } => if peers@.dom().contains(peer_id@) {
                r == Relay::ToOne(peer_id, message)
            } else {
                r is Nothing
            },
            StreamerEvent::Broadcast(m) => r == Relay::ToAll(m),
            StreamerEvent::StreamerReady { .. } => r is Nothing,
            StreamerEvent::Stop => r is StopRelaying,
        },
{
    match event {
        StreamerEvent::WebSocket(m) => if peers.is_empty() {
            Relay::Nothing
        } else {
            Relay::ToAll(m)
        },
        StreamerEvent::MoonlightConnected => Relay::MarkConnected,
        StreamerEvent::ToPeer { peer_id, message } => if peers.contains_key(peer_id.as_str()) {
            Relay::ToOne(peer_id, message)
        } else {
            Relay::Nothing
        },
        StreamerEvent::Broadcast(m) => Relay::ToAll(m),
        StreamerEvent::StreamerReady { .. } => Relay::Nothing,
        StreamerEvent::Stop => Relay::StopRelaying,
    }
}

} // verus!
