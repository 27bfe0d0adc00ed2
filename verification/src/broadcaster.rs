use vstd::prelude::*;
use std::sync::Arc;
use webrtc::rtp_transceiver::rtp_codec::RTCRtpCodecCapability;

use crate::channel::{open_channel, PeerReceiver, PeerSender};
use crate::keyed_table::KeyedTable;

verus! {

#[verifier::external_type_specification]
#[verifier::external_body]
pub struct ExRtpCodecCapability(RTCRtpCodecCapability);

/// The derived `Clone` of webrtc's `RTCRtpCodecCapability`, which clones
/// every field (its MIME type, clock rate, channels, fmtp line and RTCP
/// feedback list): the copy equals the original.
pub assume_specification[ <RTCRtpCodecCapability as Clone>::clone ](
    c: &RTCRtpCodecCapability,
) -> (copy: RTCRtpCodecCapability)
    ensures
        copy == *c,
;

/// `Arc::clone`: another pointer to the same allocation, so the same
/// bytes.
#[verifier::external_body]
fn share_bytes(data: &Arc<Vec<u8>>) -> (shared: Arc<Vec<u8>>)
    ensures
        shared == *data,
{
    data.clone()
}

/// A value that can be copied into an equal one, so that each peer gets its
/// own.
pub trait Duplicate: Sized {
    fn duplicate(&self) -> (copy: Self)
        ensures
            copy == *self,
    ;
}

/// An encoded video frame, shared between the peers it goes to.
#[derive(Clone)]
pub struct VideoFrame {
    pub data: Arc<Vec<u8>>,
    pub codec: RTCRtpCodecCapability,
    pub timestamp: u32,
}

/// An encoded audio sample, shared between the peers it goes to.
#[derive(Clone)]
pub struct AudioSample {
    pub data: Arc<Vec<u8>>,
    pub timestamp: u32,
}

impl Duplicate for VideoFrame {
    /// The same bytes, codec and timestamp; the bytes are shared, not
    /// copied.
    fn duplicate(&self) -> (copy: Self) {
        VideoFrame { data: share_bytes(&self.data), codec: self.codec.clone(), timestamp: self.timestamp }
    }
}

impl Duplicate for AudioSample {
    /// The same bytes and timestamp; the bytes are shared, not copied.
    fn duplicate(&self) -> (copy: Self) {
        AudioSample { data: share_bytes(&self.data), timestamp: self.timestamp }
    }
}

/// Subscribes `peer_id` to `table` on a new channel, replacing any
/// channel the peer had, and hands back the receiving end of that channel.
fn subscribe_to<F>(table: &mut KeyedTable<PeerSender<F>>, peer_id: String) -> (rx: PeerReceiver<F>)
    requires
        old(table).wf(),
    ensures
        final(table).wf(),
        final(table)@.dom() == old(table)@.dom().insert(peer_id@),
        final(table)@.remove(peer_id@) == old(table)@.remove(peer_id@),
        final(table)@[peer_id@].channel() == rx.channel(),
        final(table)@[peer_id@].log() == Seq::<(F, bool)>::empty(),
{
    let (tx, rx) = open_channel();
    let ghost id = peer_id@;
    table.insert(peer_id, tx);
    proof {
        assert(final(table)@.remove(id) =~= old(table)@.remove(id));
    }
    rx
}

/// The ids of a list of strings.
pub open spec fn ids_of(v: Seq<String>) -> Seq<Seq<char>> {
    Seq::new(v.len(), |j: int| v[j]@)
}

/// Of the first `n` ids, those whose delivery failed (`delivered[j]` is
/// false), in their order.
pub open spec fn undelivered(ids: Seq<Seq<char>>, delivered: Seq<bool>, n: int) -> Seq<Seq<char>>
    decreases n,
{
    if n <= 0 {
        Seq::empty()
    } else if delivered[n - 1] {
        undelivered(ids, delivered, n - 1)
    } else {
        undelivered(ids, delivered, n - 1).push(ids[n - 1])
    }
}

/// Only the first `n` outcomes count.
proof fn lemma_undelivered_prefix(ids: Seq<Seq<char>>, d: Seq<bool>, e: Seq<bool>, n: int)
    requires
        forall|j: int| 0 <= j < n ==> d[j] == e[j],
    ensures
        undelivered(ids, d, n) == undelivered(ids, e, n),
    decreases n,
{
    if n > 0 {
        lemma_undelivered_prefix(ids, d, e, n - 1);
    }
}

/// The channel `after` is the channel `before` with one more offer, of a
/// copy equal to `item`.
pub open spec fn offered_once<F>(before: PeerSender<F>, after: PeerSender<F>, item: F) -> bool {
    &&& after.channel() == before.channel()
    &&& after.log().len() == before.log().len() + 1
    &&& after.log().drop_last() == before.log()
    &&& after.log().last().0 == item
}

/// Whether the last offer on the channel of each id in `order` was taken.
pub open spec fn last_outcomes<F>(order: Seq<Seq<char>>, chans: Map<Seq<char>, PeerSender<F>>) -> Seq<bool> {
    Seq::new(order.len(), |j: int| chans[order[j]].log().last().1)
}

/// A peer's channel, followed from its subscription (`states[0]`, nothing
/// offered yet) through one broadcast per item, has been offered a copy of
/// every item, equal to it, in broadcast order, and nothing else, on the
/// same channel.
pub proof fn lemma_offers_in_order<F>(states: Seq<PeerSender<F>>, items: Seq<F>)
    requires
        states.len() == items.len() + 1,
        states[0].log() == Seq::<(F, bool)>::empty(),
        forall|j: int| 0 <= j < items.len() ==> offered_once(#[trigger] states[j], states[j + 1], items[j]),
    ensures
        states.last().channel() == states[0].channel(),
        states.last().log().len() == items.len(),
        forall|j: int| 0 <= j < items.len() ==> #[trigger] states.last().log()[j].0 == items[j],
    decreases items.len(),
{
    if items.len() > 0 {
        let k = items.len() - 1;
        let s2 = states.drop_last();
        let i2 = items.drop_last();
        assert forall|j: int| 0 <= j < i2.len() implies offered_once(#[trigger] s2[j], s2[j + 1], i2[j]) by {
            assert(offered_once(states[j], states[j + 1], items[j]));
        }
        lemma_offers_in_order(s2, i2);
        assert(offered_once(states[k], states[k + 1], items[k]));
        assert(s2.last() == states[k]);
        assert forall|j: int| 0 <= j < items.len() implies #[trigger] states.last().log()[j].0 == items[j] by {
            if j < k {
                assert(states.last().log().drop_last()[j] == s2.last().log()[j]);
                assert(s2.last().log()[j].0 == i2[j]);
            }
        }
    }
}

/// Offers a copy of `item` to every subscriber of `table`, in the
/// table's order, without waiting, and returns, in that order, the ids of
/// the subscribers whose receiving end had closed.
fn fan_out<F: Duplicate>(table: &mut KeyedTable<PeerSender<F>>, item: F) -> (closed: Vec<String>)
    requires
        old(table).wf(),
    ensures
        final(table).wf(),
        final(table).key_order() == old(table).key_order(),
        final(table)@.dom() == old(table)@.dom(),
        forall|p: Seq<char>| #[trigger]
            old(table)@.dom().contains(p) ==> offered_once(old(table)@[p], final(table)@[p], item),
        ids_of(closed@) == undelivered(
            old(table).key_order(),
            last_outcomes(old(table).key_order(), final(table)@),
            old(table).key_order().len() as int,
        ),
        closed@.len() <= old(table)@.len(),
        forall|i: int| 0 <= i < closed@.len() ==> old(table)@.dom().contains(#[trigger] closed@[i]@),
        forall|i: int, j: int|
            0 <= i < j < closed@.len() ==> closed@[i]@ != closed@[j]@,
{
    let ghost start = *table;
    proof {
        table.lemma_key_order();
    }
    let n = table.len();
    let mut closed: Vec<String> = Vec::new();
    let ghost mut picked: Seq<int> = Seq::empty();
    let ghost mut d: Seq<bool> = Seq::empty();
    let mut i: usize = 0;
    assert(ids_of(closed@) =~= undelivered(start.key_order(), d, 0));
    while i < n
        invariant
            n == start.key_order().len(),
            table.wf(),
            start.wf(),
            table.key_order() == start.key_order(),
            table.value_order().len() == n,
            start.value_order().len() == n,
            i <= n,
            forall|j: int| 0 <= j < i ==> offered_once(
                #[trigger] start.value_order()[j],
                table.value_order()[j],
                item,
            ),
            forall|j: int| i <= j < n ==> #[trigger] table.value_order()[j] == start.value_order()[j],
            d.len() == i,
            forall|j: int| 0 <= j < i ==> d[j] == (#[trigger] table.value_order()[j]).log().last().1,
            undelivered(start.key_order(), d, i as int) == ids_of(closed@),
            start.key_order().no_duplicates(),
            start.key_order().to_set() == start@.dom(),
            closed@.len() == picked.len(),
            closed@.len() <= i,
            forall|a: int| 0 <= a < picked.len() ==> 0 <= #[trigger] picked[a] < i,
            forall|a: int, b: int| 0 <= a < b < picked.len() ==> picked[a] < picked[b],
            forall|a: int|
                0 <= a < picked.len() ==> #[trigger] closed@[a]@ == start.key_order()[picked[a]],
        decreases n - i,
    {
        let ghost before = closed@;
        let ghost d0 = d;
        let ghost vals = table.value_order();
        let peer_id = table.entry_at(i).0.clone();
        let copy = item.duplicate();
        let tx = table.value_at_mut(i);
        let ok = tx.offer(copy);
        if !ok {
            closed.push(peer_id);
            proof {
                picked = picked.push(i as int);
            }
        }
        proof {
            start.lemma_same_keys_wf(table);
            d = d.push(ok);
            assert(table.value_order()[i as int].log().last() == (copy, ok));
            assert(vals[i as int] == start.value_order()[i as int]);
            assert(table.value_order()[i as int].log().drop_last() =~= vals[i as int].log());
            assert(offered_once(start.value_order()[i as int], table.value_order()[i as int], item));
            assert forall|j: int| 0 <= j < i implies d[j] == d0[j] by {}
            lemma_undelivered_prefix(start.key_order(), d, d0, i as int);
            assert forall|j: int| 0 <= j < i implies #[trigger] table.value_order()[j] == vals[j] by {}
            if ok {
                assert(closed@ == before);
            } else {
                assert(ids_of(closed@) =~= ids_of(before).push(start.key_order()[i as int]));
            }
        }
        i = i + 1;
    }
    proof {
        table.lemma_key_order();
        assert(table@.dom() == start@.dom());
        assert forall|p: Seq<char>| #[trigger] start@.dom().contains(p) implies offered_once(
            start@[p],
            table@[p],
            item,
        ) by {
            assert(start.key_order().to_set().contains(p));
            let j = choose|j: int| 0 <= j < n && start.key_order()[j] == p;
            assert(start@[start.key_order()[j]] == start.value_order()[j]);
            assert(table@[table.key_order()[j]] == table.value_order()[j]);
        }
        assert(last_outcomes(start.key_order(), table@) =~= d) by {
            assert forall|j: int| 0 <= j < n implies #[trigger] last_outcomes(start.key_order(), table@)[j] == d[j] by {
                assert(table@[table.key_order()[j]] == table.value_order()[j]);
            }
        }
        assert forall|a: int| 0 <= a < closed@.len() implies start@.dom().contains(#[trigger] closed@[a]@) by {
            assert(start.key_order().contains(start.key_order()[picked[a]]));
        }
        assert forall|a: int, b: int| 0 <= a < b < closed@.len() implies closed@[a]@ != closed@[b]@ by {
            assert(picked[a] != picked[b]);
        }
    }
    closed
}

/// Hands each encoded video frame to every subscribed peer without waiting
/// for any of them.
pub struct VideoBroadcaster {
    subscribers: KeyedTable<PeerSender<VideoFrame>>,
}

impl VideoBroadcaster {
    /// The ids of the subscribed peers.
    pub closed spec fn peers(&self) -> Set<Seq<char>> {
        self.subscribers@.dom()
    }

    /// Each subscribed peer's sending end.
    pub closed spec fn channels(&self) -> Map<Seq<char>, PeerSender<VideoFrame>> {
        self.subscribers@
    }

    /// The subscribed peers are the keys of the channel map.
    pub proof fn lemma_peers_are_channel_keys(&self)
        ensures
            self.peers() == self.channels().dom(),
    {
    }

    /// The ids of the subscribed peers, in the order video frames go out to them.
    pub closed spec fn peer_order(&self) -> Seq<Seq<char>> {
        self.subscribers.key_order()
    }

    pub closed spec fn wf(&self) -> bool {
        self.subscribers.wf()
    }

    /// A broadcaster with no subscriber.
    pub fn new() -> (b: VideoBroadcaster)
        ensures
            b.wf(),
            b.peers() == Set::<Seq<char>>::empty(),
            b.channels() == Map::<Seq<char>, PeerSender<VideoFrame>>::empty(),
            b.peers().finite(),
    {
        VideoBroadcaster { subscribers: KeyedTable::new() }
    }

    /// Subscribes a peer on a new channel and returns its receiving end;
    /// the peer's video frames come out of it. A peer that subscribes again gets
    /// a new channel in place of its old one.
    pub fn subscribe(&mut self, peer_id: String) -> (rx: PeerReceiver<VideoFrame>)
        requires
            old(self).wf(),
        ensures
            final(self).wf(),
            final(self).peers() == old(self).peers().insert(peer_id@),
            final(self).peers().finite(),
            final(self).channels().dom() == old(self).channels().dom().insert(peer_id@),
            final(self).channels().remove(peer_id@) == old(self).channels().remove(peer_id@),
            final(self).channels()[peer_id@].channel() == rx.channel(),
            final(self).channels()[peer_id@].log() == Seq::<(VideoFrame, bool)>::empty(),
    {
        let rx = subscribe_to(&mut self.subscribers, peer_id);
        proof {
            self.subscribers.lemma_key_order();
        }
        rx
    }

    /// Unsubscribes a peer, on disconnect: its sending end is dropped.
    pub fn unsubscribe(&mut self, peer_id: &str)
        requires
            old(self).wf(),
        ensures
            final(self).wf(),
            final(self).peers() == old(self).peers().remove(peer_id@),
            final(self).peers().finite(),
            final(self).channels() == old(self).channels().remove(peer_id@),
    {
        self.subscribers.remove(peer_id);
        proof {
            self.subscribers.lemma_key_order();
        }
    }

    /// Offers a copy of the video frame to every subscriber, in the order of
    /// `peer_order`, without waiting for any of them, and returns, in that
    /// order, the ids of the peers whose receiving end had closed.
    pub fn broadcast(&mut self, frame: VideoFrame) -> (closed: Vec<String>)
        requires
            old(self).wf(),
        ensures
            final(self).wf(),
            final(self).peer_order() == old(self).peer_order(),
            final(self).peers() == old(self).peers(),
            old(self).peer_order().no_duplicates(),
            old(self).peer_order().to_set() == old(self).peers(),
            forall|p: Seq<char>| #[trigger]
                old(self).peers().contains(p) ==> offered_once(
                    old(self).channels()[p],
                    final(self).channels()[p],
                    frame,
                ),
            ids_of(closed@) == undelivered(
                old(self).peer_order(),
                last_outcomes(old(self).peer_order(), final(self).channels()),
                old(self).peer_order().len() as int,
            ),
            closed@.len() <= old(self).peers().len(),
            forall|i: int| 0 <= i < closed@.len() ==> old(self).peers().contains(#[trigger] closed@[i]@),
            forall|i: int, j: int| 0 <= i < j < closed@.len() ==> closed@[i]@ != closed@[j]@,
    {
        proof {
            self.subscribers.lemma_key_order();
        }
        fan_out(&mut self.subscribers, frame)
    }

    /// How many peers are subscribed.
    pub fn subscriber_count(&self) -> (n: usize)
        requires
            self.wf(),
        ensures
            n == self.peers().len(),
    {
        self.subscribers.len()
    }
}

/// Hands each encoded audio sample to every subscribed peer without waiting
/// for any of them.
pub struct AudioBroadcaster {
    subscribers: KeyedTable<PeerSender<AudioSample>>,
}

impl AudioBroadcaster {
    /// The ids of the subscribed peers.
    pub closed spec fn peers(&self) -> Set<Seq<char>> {
        self.subscribers@.dom()
    }

    /// Each subscribed peer's sending end.
    pub closed spec fn channels(&self) -> Map<Seq<char>, PeerSender<AudioSample>> {
        self.subscribers@
    }

    /// The subscribed peers are the keys of the channel map.
    pub proof fn lemma_peers_are_channel_keys(&self)
        ensures
            self.peers() == self.channels().dom(),
    {
    }

    /// The ids of the subscribed peers, in the order audio samples go out to them.
    pub closed spec fn peer_order(&self) -> Seq<Seq<char>> {
        self.subscribers.key_order()
    }

    pub closed spec fn wf(&self) -> bool {
        self.subscribers.wf()
    }

    /// A broadcaster with no subscriber.
    pub fn new() -> (b: AudioBroadcaster)
        ensures
            b.wf(),
            b.peers() == Set::<Seq<char>>::empty(),
            b.channels() == Map::<Seq<char>, PeerSender<AudioSample>>::empty(),
            b.peers().finite(),
    {
        AudioBroadcaster { subscribers: KeyedTable::new() }
    }

    /// Subscribes a peer on a new channel and returns its receiving end;
    /// the peer's audio samples come out of it. A peer that subscribes again gets
    /// a new channel in place of its old one.
    pub fn subscribe(&mut self, peer_id: String) -> (rx: PeerReceiver<AudioSample>)
        requires
            old(self).wf(),
        ensures
            final(self).wf(),
            final(self).peers() == old(self).peers().insert(peer_id@),
            final(self).peers().finite(),
            final(self).channels().dom() == old(self).channels().dom().insert(peer_id@),
            final(self).channels().remove(peer_id@) == old(self).channels().remove(peer_id@),
            final(self).channels()[peer_id@].channel() == rx.channel(),
            final(self).channels()[peer_id@].log() == Seq::<(AudioSample, bool)>::empty(),
    {
        let rx = subscribe_to(&mut self.subscribers, peer_id);
        proof {
            self.subscribers.lemma_key_order();
        }
        rx
    }

    /// Unsubscribes a peer, on disconnect: its sending end is dropped.
    pub fn unsubscribe(&mut self, peer_id: &str)
        requires
            old(self).wf(),
        ensures
            final(self).wf(),
            final(self).peers() == old(self).peers().remove(peer_id@),
            final(self).peers().finite(),
            final(self).channels() == old(self).channels().remove(peer_id@),
    {
        self.subscribers.remove(peer_id);
        proof {
            self.subscribers.lemma_key_order();
        }
    }

    /// Offers a copy of the audio sample to every subscriber, in the order of
    /// `peer_order`, without waiting for any of them, and returns, in that
    /// order, the ids of the peers whose receiving end had closed.
    pub fn broadcast(&mut self, sample: AudioSample) -> (closed: Vec<String>)
        requires
            old(self).wf(),
        ensures
            final(self).wf(),
            final(self).peer_order() == old(self).peer_order(),
            final(self).peers() == old(self).peers(),
            old(self).peer_order().no_duplicates(),
            old(self).peer_order().to_set() == old(self).peers(),
            forall|p: Seq<char>| #[trigger]
                old(self).peers().contains(p) ==> offered_once(
                    old(self).channels()[p],
                    final(self).channels()[p],
                    sample,
                ),
            ids_of(closed@) == undelivered(
                old(self).peer_order(),
                last_outcomes(old(self).peer_order(), final(self).channels()),
                old(self).peer_order().len() as int,
            ),
            closed@.len() <= old(self).peers().len(),
            forall|i: int| 0 <= i < closed@.len() ==> old(self).peers().contains(#[trigger] closed@[i]@),
            forall|i: int, j: int| 0 <= i < j < closed@.len() ==> closed@[i]@ != closed@[j]@,
    {
        proof {
            self.subscribers.lemma_key_order();
        }
        fan_out(&mut self.subscribers, sample)
    }

    /// How many peers are subscribed.
    pub fn subscriber_count(&self) -> (n: usize)
        requires
            self.wf(),
        ensures
            n == self.peers().len(),
    {
        self.subscribers.len()
    }
}

/// The kind of media a peer track carries.
#[derive(Clone, Copy, Debug, PartialEq, Eq)]
pub enum MediaKind {
    Video,
    Audio,
}

/// How a peer's outgoing track is set up: its codec parameters (the MIME
/// type comes from the kind), its ids and the RTP payload type of its
/// packets.
pub struct TrackSpec {
    pub clock_rate: u32,
    pub channels: u16,
    pub sdp_fmtp_line: String,
    pub track_id: String,
    pub stream_id: String,
    pub payload_type: u8,
}

/// The track a peer gets for `kind`: H.264 (constrained baseline, level
/// 3.1) at 90 kHz with payload type 96, or stereo Opus at 48 kHz with
/// payload type 111; the track is named after the kind and the peer, in the
/// stream `moonlight-peer`.
pub fn peer_track(kind: MediaKind, peer_id: &str) -> (t: TrackSpec)
    ensures
        t.stream_id@ == "moonlight-peer"@,
        kind == MediaKind::Video ==> {
            &&& t.clock_rate == 90000
            &&& t.channels == 0
            &&& t.sdp_fmtp_line@
                == "level-asymmetry-allowed=1;packetization-mode=1;profile-level-id=42e01f"@
            &&& t.track_id@ == "video-"@ + peer_id@
            &&& t.payload_type == 96
        },
        kind == MediaKind::Audio ==> {
            &&& t.clock_rate == 48000
            &&& t.channels == 2
            &&& t.sdp_fmtp_line@ == ""@
            &&& t.track_id@ == "audio-"@ + peer_id@
            &&& t.payload_type == 111
        },
{
    match kind {
        MediaKind::Video => {
            let mut track_id = String::from_str("video-");
            track_id.append(peer_id);
            TrackSpec {
                clock_rate: 90000,
                channels: 0,
                sdp_fmtp_line: String::from_str(
                    "level-asymmetry-allowed=1;packetization-mode=1;profile-level-id=42e01f",
                ),
                track_id,
                stream_id: String::from_str("moonlight-peer"),
                payload_type: 96,
            }
        },
        MediaKind::Audio => {
            let mut track_id = String::from_str("audio-");
            track_id.append(peer_id);
            TrackSpec {
                clock_rate: 48000,
                channels: 2,
                sdp_fmtp_line: String::from_str(""),
                track_id,
                stream_id: String::from_str("moonlight-peer"),
                payload_type: 111,
            }
        },
    }
}

} // verus!
