use webrtc::peer_connection::sdp::sdp_type::RTCSdpType;
use moonlight_web::keyed_table::KeyedTable;
use moonlight_web::session::{
    admit_session, attach_client, attaches_websocket, check_stream_app, check_stream_host,
    close_session, find_app,
    handshake_step, parse_pairing_pin, persists_after_close, HandshakeStep, SessionAction,
    SessionMode, SocketFrame, StreamRefusal,
};
use moonlight_web::signaling::{
    accepts_remote, effective_video_size, ipc_step, needs_answer, remote_description,
    reports_connected, route_signal, starts_stream_on, stops_on, IceConnectionState, IpcStep,
    PeerConnectionState, SdpKind, ServerMessage, SignalRoute,
};
use moonlight_web::streamers::{check_new_streamer, StreamerRefusal};

#[test]
fn session_decision_table() {
    assert_eq!(admit_session(true, SessionMode::Join), SessionAction::JoinExisting);
    assert_eq!(admit_session(true, SessionMode::Keepalive), SessionAction::CloseKeepalive);
    assert_eq!(admit_session(true, SessionMode::Create), SessionAction::RejectAlreadyStreaming);
    assert_eq!(admit_session(false, SessionMode::Join), SessionAction::RejectSessionNotFound);
    assert_eq!(admit_session(false, SessionMode::Create), SessionAction::CreateNew);
    assert_eq!(admit_session(false, SessionMode::Keepalive), SessionAction::CreateNew);
}

#[test]
fn keepalive_sessions_run_headless_and_persist() {
    assert!(!attaches_websocket(SessionMode::Keepalive));
    assert!(attaches_websocket(SessionMode::Create));
    assert!(attaches_websocket(SessionMode::Join));
    assert!(persists_after_close(SessionMode::Keepalive));
    assert!(!persists_after_close(SessionMode::Create));
    assert!(!persists_after_close(SessionMode::Join));
}

#[test]
fn handshake_waits_for_text() {
    assert_eq!(handshake_step(SocketFrame::Text("hi".to_string())), HandshakeStep::Accept("hi".to_string()));
    assert_eq!(handshake_step(SocketFrame::Control), HandshakeStep::Skip);
    assert_eq!(handshake_step(SocketFrame::Binary), HandshakeStep::Abort);
    assert_eq!(handshake_step(SocketFrame::Failed), HandshakeStep::Abort);
    assert_eq!(handshake_step(SocketFrame::Ended), HandshakeStep::Abort);
}

#[test]
fn app_is_found_by_id() {
    assert_eq!(find_app(&[5, 7, 7], 7), Some(1));
    assert_eq!(find_app(&[5, 7], 9), None);
    assert_eq!(find_app(&[], 1), None);
}

#[test]
fn pairing_pin_is_four_digits() {
    assert_eq!(parse_pairing_pin("0427"), Some([0, 4, 2, 7]));
    assert_eq!(parse_pairing_pin("9999"), Some([9, 9, 9, 9]));
    assert_eq!(parse_pairing_pin("123"), None);
    assert_eq!(parse_pairing_pin("12345"), None);
    assert_eq!(parse_pairing_pin("12a4"), None);
    assert_eq!(parse_pairing_pin(""), None);
    assert_eq!(parse_pairing_pin("١٢"), None);
}

#[test]
fn connection_state_decisions() {
    assert!(stops_on(PeerConnectionState::Failed));
    assert!(stops_on(PeerConnectionState::Disconnected));
    assert!(stops_on(PeerConnectionState::Closed));
    assert!(!stops_on(PeerConnectionState::Connected));
    assert!(!stops_on(PeerConnectionState::New));
    assert!(starts_stream_on(IceConnectionState::Connected));
    assert!(!starts_stream_on(IceConnectionState::Completed));
    assert!(!starts_stream_on(IceConnectionState::Checking));
}

#[test]
fn description_handling() {
    assert!(accepts_remote(SdpKind::Offer));
    assert!(accepts_remote(SdpKind::Answer));
    assert!(accepts_remote(SdpKind::Pranswer));
    assert!(!accepts_remote(SdpKind::Rollback));
    assert!(!accepts_remote(SdpKind::Unspecified));
    assert!(needs_answer(SdpKind::Offer));
    assert!(!needs_answer(SdpKind::Answer));
}

#[test]
fn signals_route_to_the_current_peer() {
    assert_eq!(route_signal(Some("p".to_string())), SignalRoute::ToPeer("p".to_string()));
    assert_eq!(route_signal(None), SignalRoute::Broadcast);
}

#[test]
fn video_size_falls_back_to_the_configured_one() {
    assert_eq!(effective_video_size((0, 0), (1920, 1080)), (1920, 1080));
    assert_eq!(effective_video_size((1280, 720), (1920, 1080)), (1280, 720));
    assert_eq!(effective_video_size((0, 720), (1920, 1080)), (0, 720));
}

#[test]
fn the_last_client_to_join_wins() {
    let mut slot: Option<&str> = None;
    assert_eq!(attach_client(&mut slot, "first"), None);
    assert_eq!(slot, Some("first"));
    assert_eq!(attach_client(&mut slot, "second"), Some("first"));
    assert_eq!(slot, Some("second"));
}

#[test]
fn remote_descriptions_need_an_applied_type_and_parsing_text() {
    let sdp = "v=0\r\no=- 0 0 IN IP4 127.0.0.1\r\ns=-\r\nt=0 0\r\n";
    let (offer, answer) = remote_description(SdpKind::Offer, sdp.to_string()).unwrap();
    assert!(answer);
    assert_eq!(offer.sdp, sdp);
    assert_eq!(offer.sdp_type, RTCSdpType::Offer);
    let (reply, answer) = remote_description(SdpKind::Answer, sdp.to_string()).unwrap();
    assert!(!answer);
    assert_eq!(reply.sdp_type, RTCSdpType::Answer);
    let (provisional, _) = remote_description(SdpKind::Pranswer, sdp.to_string()).unwrap();
    assert_eq!(provisional.sdp_type, RTCSdpType::Pranswer);
    assert!(remote_description(SdpKind::Rollback, sdp.to_string()).is_none());
    assert!(remote_description(SdpKind::Offer, "not sdp at all".to_string()).is_none());
}

#[test]
fn server_messages_map_to_streamer_steps() {
    assert!(matches!(ipc_step(ServerMessage::<u8>::Stop), IpcStep::StopAndEnd));
    assert!(matches!(ipc_step(ServerMessage::<u8>::StartMoonlight), IpcStep::StartStream));
    assert!(matches!(ipc_step(ServerMessage::<u8>::Init), IpcStep::Ignore));
    assert!(matches!(ipc_step(ServerMessage::<u8>::ClientJoined), IpcStep::Ignore));
    assert!(matches!(ipc_step(ServerMessage::WebSocket(4u8)), IpcStep::FromBrowser(4)));
    match ipc_step(ServerMessage::<u8>::AddPeer { peer_id: "a".to_string() }) {
        IpcStep::AddPeer(id) => assert_eq!(id, "a"),
        _ => panic!("expected AddPeer"),
    }
    match ipc_step(ServerMessage::FromPeer { peer_id: "b".to_string(), message: 9u8 }) {
        IpcStep::FromPeer(id, 9) => assert_eq!(id, "b"),
        _ => panic!("expected FromPeer"),
    }
    match ipc_step(ServerMessage::<u8>::RemovePeer { peer_id: "c".to_string() }) {
        IpcStep::RemovePeer(id) => assert_eq!(id, "c"),
        _ => panic!("expected RemovePeer"),
    }
    assert!(reports_connected(true));
    assert!(!reports_connected(false));
}

#[test]
fn stream_request_checks_come_in_order() {
    assert_eq!(check_stream_host(false, false), Some(StreamRefusal::HostNotFound));
    assert_eq!(check_stream_host(true, false), Some(StreamRefusal::HostNotPaired));
    assert_eq!(check_stream_host(true, true), None);
    let ids = [3u32, 7, 7];
    assert_eq!(check_stream_app(None, 7, true), Err(StreamRefusal::InternalServerError));
    assert_eq!(check_stream_app(Some(&ids), 5, false), Err(StreamRefusal::AppNotFound));
    assert_eq!(check_stream_app(Some(&ids), 7, false), Err(StreamRefusal::InternalServerError));
    assert_eq!(check_stream_app(Some(&ids), 7, true), Ok(1));
}

#[test]
fn streamer_creation_checks_come_in_order() {
    assert_eq!(check_new_streamer(true, false, false), Some(StreamerRefusal::AlreadyExists));
    assert_eq!(check_new_streamer(false, false, false), Some(StreamerRefusal::HostNotFound));
    assert_eq!(check_new_streamer(false, true, false), Some(StreamerRefusal::HostNotPaired));
    assert_eq!(check_new_streamer(false, true, true), None);
}

#[test]
fn keepalive_sessions_outlive_their_streamer_channel() {
    let mut sessions: KeyedTable<u8> = KeyedTable::new();
    sessions.insert("k".to_string(), 1);
    sessions.insert("c".to_string(), 2);
    assert!(!close_session(&mut sessions, "k", SessionMode::Keepalive));
    assert!(sessions.contains_key("k"));
    assert!(close_session(&mut sessions, "c", SessionMode::Create));
    assert!(!sessions.contains_key("c"));
    assert!(close_session(&mut sessions, "k", SessionMode::Join));
    assert!(sessions.is_empty());
}
