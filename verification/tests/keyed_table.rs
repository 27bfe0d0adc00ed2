use moonlight_web::keyed_table::KeyedTable;
use moonlight_web::streamers::{admit_peer, relay_event, Relay, StreamerEvent};

#[test]
fn insert_get_remove() {
    let mut t: KeyedTable<u32> = KeyedTable::new();
    assert!(t.is_empty());
    assert_eq!(t.insert("a".to_string(), 1), None);
    assert_eq!(t.insert("b".to_string(), 2), None);
    assert_eq!(t.len(), 2);
    assert_eq!(t.get("a"), Some(&1));
    assert!(t.contains_key("b"));
    assert!(!t.contains_key("c"));
    assert_eq!(t.insert("a".to_string(), 3), Some(1));
    assert_eq!(t.len(), 2);
    assert_eq!(t.get("a"), Some(&3));
    assert_eq!(t.keys(), vec!["a".to_string(), "b".to_string()]);
    assert_eq!(t.remove("a"), Some(3));
    assert_eq!(t.remove("a"), None);
    assert_eq!(t.len(), 1);
    let (k, v) = t.entry_at(0);
    assert_eq!((k.as_str(), *v), ("b", 2));
}

#[test]
fn keys_compare_by_text() {
    let mut t: KeyedTable<()> = KeyedTable::new();
    t.insert("peer-1".to_string(), ());
    assert!(t.contains_key(&format!("peer-{}", 1)));
    assert!(!t.contains_key("peer-10"));
    assert!(!t.contains_key("peer-"));
}

#[test]
fn admitted_peers_get_fresh_uuid_ids() {
    let mut t: KeyedTable<u8> = KeyedTable::new();
    let a = admit_peer(&mut t, 1);
    let b = admit_peer(&mut t, 2);
    assert_eq!(a.len(), 36);
    for (i, c) in a.chars().enumerate() {
        if [8, 13, 18, 23].contains(&i) {
            assert_eq!(c, '-');
        } else {
            assert!(c.is_ascii_digit() || ('a'..='f').contains(&c));
        }
    }
    assert_eq!(a.chars().nth(14), Some('4'));
    assert!("89ab".contains(a.chars().nth(19).unwrap()));
    assert_ne!(a, b);
    assert_eq!(t.get(&a), Some(&1));
    assert_eq!(t.get(&b), Some(&2));
    assert_eq!(t.len(), 2);
}

#[test]
fn streamer_events_are_relayed_to_attached_peers() {
    let mut peers: KeyedTable<()> = KeyedTable::new();
    assert!(matches!(relay_event(&peers, StreamerEvent::WebSocket(1u8)), Relay::Nothing));
    assert!(matches!(relay_event(&peers, StreamerEvent::Broadcast(2u8)), Relay::ToAll(2)));
    peers.insert("p".to_string(), ());
    assert!(matches!(relay_event(&peers, StreamerEvent::WebSocket(1u8)), Relay::ToAll(1)));
    match relay_event(&peers, StreamerEvent::ToPeer { peer_id: "p".to_string(), message: 3u8 }) {
        Relay::ToOne(id, 3) => assert_eq!(id, "p"),
        _ => panic!("expected a message for p"),
    }
    assert!(matches!(
        relay_event(&peers, StreamerEvent::ToPeer { peer_id: "q".to_string(), message: 3u8 }),
        Relay::Nothing
    ));
    assert!(matches!(relay_event(&peers, StreamerEvent::<u8>::MoonlightConnected), Relay::MarkConnected));
    assert!(matches!(
        relay_event(&peers, StreamerEvent::<u8>::StreamerReady { streamer_id: "s".to_string() }),
        Relay::Nothing
    ));
    assert!(matches!(relay_event(&peers, StreamerEvent::<u8>::Stop), Relay::StopRelaying));
}

#[test]
fn removing_a_key_keeps_the_others_in_order() {
    let mut t: KeyedTable<u8> = KeyedTable::new();
    for (i, k) in ["a", "b", "c", "d"].iter().enumerate() {
        t.insert(k.to_string(), i as u8);
    }
    assert_eq!(t.remove("b"), Some(1));
    assert_eq!(t.keys(), vec!["a".to_string(), "c".to_string(), "d".to_string()]);
    assert_eq!(t.remove("x"), None);
    assert_eq!(t.keys(), vec!["a".to_string(), "c".to_string(), "d".to_string()]);
}
