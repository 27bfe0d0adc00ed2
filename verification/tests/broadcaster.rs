use std::sync::Arc;

use moonlight_web::broadcaster::{
    peer_track, AudioBroadcaster, AudioSample, MediaKind, VideoBroadcaster, VideoFrame,
};
use webrtc::rtp_transceiver::rtp_codec::RTCRtpCodecCapability;

fn frame(ts: u32) -> VideoFrame {
    VideoFrame { data: Arc::new(vec![1, 2, 3]), codec: RTCRtpCodecCapability::default(), timestamp: ts }
}

#[test]
fn every_subscriber_gets_the_frame() {
    let mut b = VideoBroadcaster::new();
    let mut r1 = b.subscribe("p1".to_string()).into_inner();
    let mut r2 = b.subscribe("p2".to_string()).into_inner();
    assert_eq!(b.subscriber_count(), 2);
    let closed = b.broadcast(frame(7));
    assert!(closed.is_empty());
    assert_eq!(r1.try_recv().unwrap().timestamp, 7);
    assert_eq!(r2.try_recv().unwrap().timestamp, 7);
}

#[test]
fn closed_channels_are_reported_and_kept() {
    let mut b = VideoBroadcaster::new();
    let r1 = b.subscribe("p1".to_string()).into_inner();
    let mut r2 = b.subscribe("p2".to_string()).into_inner();
    drop(r1);
    let closed = b.broadcast(frame(1));
    assert_eq!(closed, vec!["p1".to_string()]);
    assert_eq!(r2.try_recv().unwrap().timestamp, 1);
    // reporting does not unsubscribe
    assert_eq!(b.subscriber_count(), 2);
}

#[test]
fn unsubscribe_and_resubscribe() {
    let mut b = AudioBroadcaster::new();
    let old = b.subscribe("p1".to_string()).into_inner();
    let mut new = b.subscribe("p1".to_string()).into_inner();
    assert_eq!(b.subscriber_count(), 1);
    drop(old);
    let closed = b.broadcast(AudioSample { data: Arc::new(vec![9]), timestamp: 3 });
    assert!(closed.is_empty());
    assert_eq!(new.try_recv().unwrap().data.as_slice(), &[9]);
    b.unsubscribe("p1");
    b.unsubscribe("p1");
    assert_eq!(b.subscriber_count(), 0);
    assert!(b.broadcast(AudioSample { data: Arc::new(vec![]), timestamp: 4 }).is_empty());
}

#[test]
fn peer_tracks_are_named_after_the_peer() {
    let v = peer_track(MediaKind::Video, "abc");
    assert_eq!(v.track_id, "video-abc");
    assert_eq!(v.stream_id, "moonlight-peer");
    assert_eq!((v.clock_rate, v.channels, v.payload_type), (90000, 0, 96));
    assert_eq!(v.sdp_fmtp_line, "level-asymmetry-allowed=1;packetization-mode=1;profile-level-id=42e01f");
    let a = peer_track(MediaKind::Audio, "abc");
    assert_eq!(a.track_id, "audio-abc");
    assert_eq!((a.clock_rate, a.channels, a.payload_type), (48000, 2, 111));
    assert_eq!(a.sdp_fmtp_line, "");
}

#[test]
fn each_subscriber_sees_frames_in_broadcast_order() {
    let mut b = VideoBroadcaster::new();
    let mut r1 = b.subscribe("p1".to_string()).into_inner();
    for ts in 0..5 {
        if ts == 2 {
            let _ = b.subscribe("p2".to_string());
        }
        let closed = b.broadcast(frame(ts));
        assert_eq!(closed, if ts >= 2 { vec!["p2".to_string()] } else { vec![] });
    }
    let got: Vec<u32> = std::iter::from_fn(|| r1.try_recv().ok()).map(|f| f.timestamp).collect();
    assert_eq!(got, vec![0, 1, 2, 3, 4]);
}

#[test]
fn unsubscribed_receiver_ends() {
    let mut b = AudioBroadcaster::new();
    let mut rx = b.subscribe("p1".to_string()).into_inner();
    b.broadcast(AudioSample { data: Arc::new(vec![1]), timestamp: 1 });
    b.unsubscribe("p1");
    assert_eq!(rx.try_recv().unwrap().timestamp, 1);
    assert!(matches!(rx.try_recv(), Err(tokio::sync::mpsc::error::TryRecvError::Disconnected)));
}

#[test]
fn each_peer_gets_the_same_frame() {
    let mut b = VideoBroadcaster::new();
    let mut r1 = b.subscribe("p1".to_string()).into_inner();
    let mut r2 = b.subscribe("p2".to_string()).into_inner();
    let mut codec = RTCRtpCodecCapability::default();
    codec.mime_type = "video/H264".to_string();
    codec.clock_rate = 90000;
    let f = VideoFrame { data: Arc::new(vec![4, 5]), codec: codec.clone(), timestamp: 11 };
    let data = f.data.clone();
    assert!(b.broadcast(f).is_empty());
    for got in [r1.try_recv().unwrap(), r2.try_recv().unwrap()] {
        assert!(Arc::ptr_eq(&got.data, &data));
        assert_eq!(got.codec, codec);
        assert_eq!(got.timestamp, 11);
    }
}
