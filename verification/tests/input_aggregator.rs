use std::collections::{BTreeMap, BTreeSet};

use moonlight_web::input_aggregator::InputAggregator;

#[test]
fn key_goes_down_with_first_peer_and_up_with_last() {
    let mut a = InputAggregator::new();
    assert!(a.handle_key_down("p1", 65));
    assert!(!a.handle_key_down("p2", 65));
    assert!(!a.handle_key_up("p1", 65));
    assert!(a.handle_key_up("p2", 65));
    // the key is free again
    assert!(a.handle_key_down("p2", 65));
}

#[test]
fn repeated_press_by_one_peer_is_not_a_second_holder() {
    let mut a = InputAggregator::new();
    assert!(a.handle_key_down("p1", 10));
    assert!(!a.handle_key_down("p1", 10));
    assert!(a.handle_key_up("p1", 10));
}

#[test]
fn release_of_a_key_nobody_holds_sends_nothing() {
    let mut a = InputAggregator::new();
    assert!(!a.handle_key_up("p1", 3));
    assert!(a.handle_key_down("p1", 4));
    // another peer letting go of a key it never held
    assert!(!a.handle_key_up("p2", 4));
    assert!(a.handle_key_up("p1", 4));
}

#[test]
fn buttons_follow_the_same_union() {
    let mut a = InputAggregator::new();
    assert!(a.handle_mouse_button_down("p1", 1));
    assert!(!a.handle_mouse_button_down("p2", 1));
    assert!(a.handle_mouse_button_down("p2", 3));
    assert!(!a.handle_mouse_button_up("p2", 1));
    assert!(a.handle_mouse_button_up("p1", 1));
    assert!(a.handle_mouse_button_up("p2", 3));
    assert!(!a.handle_mouse_button_up("p2", 3));
}

#[test]
fn keys_and_buttons_are_separate() {
    let mut a = InputAggregator::new();
    assert!(a.handle_key_down("p1", 1));
    assert!(a.handle_mouse_button_down("p1", 1));
    assert!(a.handle_key_up("p1", 1));
    assert!(a.handle_mouse_button_up("p1", 1));
}

#[test]
fn mouse_move_takes_the_last_position() {
    let mut a = InputAggregator::new();
    a.handle_mouse_move("p1", 10, 20);
    a.handle_mouse_move("p2", -5, 7);
    // moving the mouse does not press anything
    assert!(a.handle_key_down("p1", 9));
}

#[test]
fn leaving_peer_releases_what_only_it_held() {
    let mut a = InputAggregator::new();
    a.handle_key_down("p1", 1);
    a.handle_key_down("p1", 2);
    a.handle_key_down("p2", 2);
    a.handle_mouse_button_down("p1", 5);
    let (mut keys, buttons) = a.remove_peer("p1", true);
    keys.sort();
    assert_eq!(keys, vec![1]);
    assert_eq!(buttons, vec![5]);
    // key 2 is still held by p2
    assert!(a.handle_key_up("p2", 2));
    // key 1 is free: pressing it again is a first press
    assert!(a.handle_key_down("p3", 1));
}

#[test]
fn leaving_without_a_stream_sends_nothing() {
    let mut a = InputAggregator::new();
    a.handle_key_down("p1", 7);
    let (keys, buttons) = a.remove_peer("p1", false);
    assert!(keys.is_empty());
    assert!(buttons.is_empty());
    // the key is free again: the next press counts as first
    assert!(a.handle_key_down("p2", 7));
    assert!(a.handle_key_up("p2", 7));
}

#[test]
fn leaving_without_a_stream_still_lets_go_of_the_peers_keys() {
    let mut a = InputAggregator::new();
    a.handle_key_down("p1", 7);
    a.handle_mouse_button_down("p1", 2);
    a.remove_peer("p1", false);
    // nobody holds key 7 or button 2 any more: a stranger's release is no release
    assert!(!a.handle_key_up("p9", 7));
    assert!(!a.handle_mouse_button_up("p9", 2));
    assert!(a.handle_key_down("p2", 7));
}

#[test]
fn unknown_peer_leaving_changes_nothing() {
    let mut a = InputAggregator::new();
    a.handle_key_down("p1", 7);
    let (keys, buttons) = a.remove_peer("p2", true);
    assert!(keys.is_empty() && buttons.is_empty());
    assert!(a.handle_key_up("p1", 7));
}

#[test]
fn host_view_follows_the_union_of_peers() {
    let mut a = InputAggregator::new();
    let mut host: BTreeSet<u16> = BTreeSet::new();
    let mut holds: BTreeMap<u16, BTreeSet<&str>> = BTreeMap::new();
    let steps: [(&str, u16, bool); 10] = [
        ("p1", 1, true),
        ("p2", 1, true),
        ("p2", 2, true),
        ("p1", 1, false),
        ("p3", 2, false),
        ("p2", 1, false),
        ("p3", 3, true),
        ("p1", 3, true),
        ("p3", 3, false),
        ("p1", 3, false),
    ];
    for (peer, key, down) in steps {
        if down {
            if a.handle_key_down(peer, key) {
                assert!(host.insert(key));
            }
            holds.entry(key).or_default().insert(peer);
        } else {
            if a.handle_key_up(peer, key) {
                assert!(host.remove(&key));
            }
            if let Some(h) = holds.get_mut(&key) {
                h.remove(peer);
                if h.is_empty() {
                    holds.remove(&key);
                }
            }
        }
        let held: BTreeSet<u16> = holds.keys().copied().collect();
        assert_eq!(host, held);
    }
    // p2 still holds key 2; its leaving lets it go
    let (keys, _) = a.remove_peer("p2", true);
    for key in keys {
        assert!(host.remove(&key));
    }
    assert!(host.is_empty());
}
