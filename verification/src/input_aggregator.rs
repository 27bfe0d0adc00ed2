use vstd::prelude::*;

use crate::hold_table::{
    drop_peer, freed_by, holders_of, is_held, press, release, release_frees, HoldTable, Holds,
};

verus! {

/// Every code in the map is held by somebody.
pub open spec fn tidy(m: Holds) -> bool {
    forall|c: u16| #[trigger] m.dom().contains(c) ==> m[c] != Set::<Seq<char>>::empty()
}

/// Merges the input of several peers into one input stream: the mouse goes
/// where the last peer moved it, and a key or button is down while any peer
/// holds it. What the methods return tells what to forward.
pub struct InputAggregator {
    mouse_pos: (i32, i32),
    key_states: HoldTable,
    button_states: HoldTable,
}

impl InputAggregator {
    /// The last mouse position any peer sent.
    pub closed spec fn mouse(&self) -> (i32, i32) {
        self.mouse_pos
    }

    /// Which peers hold each key.
    pub closed spec fn keys(&self) -> Holds {
        self.key_states@
    }

    /// Which peers hold each mouse button, by the button's number.
    pub closed spec fn buttons(&self) -> Holds {
        self.button_states@
    }

    pub closed spec fn wf(&self) -> bool {
        &&& self.key_states.wf()
        &&& self.button_states.wf()
        &&& forall|c: u16| #[trigger] self.button_states@.dom().contains(c) ==> c < 256
        &&& tidy(self.key_states@)
        &&& tidy(self.button_states@)
    }

    /// In a well-formed aggregator every key and button in the tables is
    /// held by some peer.
    pub proof fn lemma_wf_tidy(&self)
        requires
            self.wf(),
        ensures
            tidy(self.keys()),
            tidy(self.buttons()),
    {
    }

    /// Nobody holds anything and the mouse is at the origin.
    pub fn new() -> (a: InputAggregator)
        ensures
            a.wf(),
            a.mouse() == (0i32, 0i32),
            a.keys() == Map::<u16, Set<Seq<char>>>::empty(),
            a.buttons() == Map::<u16, Set<Seq<char>>>::empty(),
    {
        InputAggregator { mouse_pos: (0, 0), key_states: HoldTable::new(), button_states: HoldTable::new() }
    }

    /// A peer moves the mouse: the last writer wins, and the move is always
    /// forwarded.
    pub fn handle_mouse_move(&mut self, peer_id: &str, x: i32, y: i32)
        requires
            old(self).wf(),
        ensures
            final(self).wf(),
            final(self).mouse() == (x, y),
            final(self).keys() == old(self).keys(),
            final(self).buttons() == old(self).buttons(),
    {
        self.mouse_pos = (x, y);
    }

    /// A peer presses `key`. True when no peer held it before: only then
    /// does the key go down on the host.
    pub fn handle_key_down(&mut self, peer_id: &str, key: u16) -> (send_down: bool)
        requires
            old(self).wf(),
        ensures
            final(self).wf(),
            final(self).keys() == press(old(self).keys(), key, peer_id@),
            send_down == !is_held(old(self).keys(), key),
            final(self).buttons() == old(self).buttons(),
            final(self).mouse() == old(self).mouse(),
    {
        proof {
            lemma_union_on_press(self.key_states@, key, peer_id@);
        }
        self.key_states.press(key, peer_id)
    }

    /// A peer releases `key`. True when no peer holds it any more: only
    /// then does the key go up on the host.
    pub fn handle_key_up(&mut self, peer_id: &str, key: u16) -> (send_up: bool)
        requires
            old(self).wf(),
        ensures
            final(self).wf(),
            final(self).keys() == release(old(self).keys(), key, peer_id@),
            send_up == release_frees(old(self).keys(), key, peer_id@),
            send_up == (holders_of(old(self).keys(), key) == set![peer_id@]),
            final(self).buttons() == old(self).buttons(),
            final(self).mouse() == old(self).mouse(),
    {
        proof {
            lemma_union_on_release(self.key_states@, key, peer_id@);
            lemma_frees_iff_sole(self.key_states@, key, peer_id@);
        }
        self.key_states.release(key, peer_id)
    }

    /// A peer presses mouse button `button`. True when no peer held it
    /// before.
    pub fn handle_mouse_button_down(&mut self, peer_id: &str, button: u8) -> (send_down: bool)
        requires
            old(self).wf(),
        ensures
            final(self).wf(),
            final(self).buttons() == press(old(self).buttons(), button as u16, peer_id@),
            send_down == !is_held(old(self).buttons(), button as u16),
            final(self).keys() == old(self).keys(),
            final(self).mouse() == old(self).mouse(),
    {
        proof {
            lemma_union_on_press(self.button_states@, button as u16, peer_id@);
        }
        self.button_states.press(button as u16, peer_id)
    }

    /// A peer releases mouse button `button`. True when no peer holds it
    /// any more.
    pub fn handle_mouse_button_up(&mut self, peer_id: &str, button: u8) -> (send_up: bool)
        requires
            old(self).wf(),
        ensures
            final(self).wf(),
            final(self).buttons() == release(old(self).buttons(), button as u16, peer_id@),
            send_up == release_frees(old(self).buttons(), button as u16, peer_id@),
            send_up == (holders_of(old(self).buttons(), button as u16) == set![peer_id@]),
            final(self).keys() == old(self).keys(),
            final(self).mouse() == old(self).mouse(),
    {
        proof {
            lemma_union_on_release(self.button_states@, button as u16, peer_id@);
            lemma_frees_iff_sole(self.button_states@, button as u16, peer_id@);
        }
        self.button_states.release(button as u16, peer_id)
    }

    /// A peer disconnects: it holds nothing any more, and the keys and
    /// buttons it was the last to hold leave the tables. They are returned,
    /// to go up on the host, while the host stream is up (`stream_present`);
    /// without a stream there is nothing to send them to.
    pub fn remove_peer(&mut self, peer_id: &str, stream_present: bool) -> (released: (
        Vec<u16>,
        Vec<u8>,
    ))
        requires
            old(self).wf(),
        ensures
            final(self).wf(),
            final(self).keys() == drop_peer(old(self).keys(), peer_id@),
            final(self).buttons() == drop_peer(old(self).buttons(), peer_id@),
            tidy(final(self).keys()),
            tidy(final(self).buttons()),
            final(self).mouse() == old(self).mouse(),
            released.0@.no_duplicates(),
            released.1@.no_duplicates(),
            forall|c: u16| #[trigger]
                released.0@.contains(c) <==> stream_present && freed_by(old(self).keys(), c, peer_id@),
            forall|b: u8| #[trigger]
                released.1@.contains(b) <==> stream_present && freed_by(
                    old(self).buttons(),
                    b as u16,
                    peer_id@,
                ),
    {
        proof {
            lemma_union_on_leave(self.key_states@, peer_id@);
            lemma_union_on_leave(self.button_states@, peer_id@);
        }
        let keys = self.key_states.remove_peer(peer_id);
        let buttons = self.button_states.remove_peer(peer_id);
        if !stream_present {
            return (Vec::new(), Vec::new());
        }
        let ghost old_buttons = old(self).buttons();
        proof {
            assert forall|j: int| 0 <= j < buttons@.len() implies #[trigger] buttons@[j] < 256 by {
                assert(buttons@.contains(buttons@[j]));
                assert(freed_by(old_buttons, buttons@[j], peer_id@));
            }
        }
        let mut button_codes: Vec<u8> = Vec::new();
        let mut i: usize = 0;
        while i < buttons.len()
            invariant
                i <= buttons@.len(),
                button_codes@.len() == i,
                forall|j: int| 0 <= j < buttons@.len() ==> #[trigger] buttons@[j] < 256,
                forall|j: int| 0 <= j < i ==> #[trigger] button_codes@[j] as u16 == buttons@[j],
            decreases buttons@.len() - i,
        {
            button_codes.push(buttons[i] as u8);
            i = i + 1;
        }
        proof {
            assert forall|b: u8| #[trigger] button_codes@.contains(b) <==> buttons@.contains(b as u16) by {
                if button_codes@.contains(b) {
                    let j = choose|j: int| 0 <= j < button_codes@.len() && button_codes@[j] == b;
                    assert(buttons@[j] == b as u16);
                }
                if buttons@.contains(b as u16) {
                    let j = choose|j: int| 0 <= j < buttons@.len() && buttons@[j] == b as u16;
                    assert(button_codes@[j] as u16 == b as u16);
                    assert(button_codes@[j] == b);
                }
            }
            assert forall|x: int, y: int|
                0 <= x < button_codes@.len() && 0 <= y < button_codes@.len() && x != y implies button_codes@[x]
                != button_codes@[y] by {
                assert(buttons@[x] != buttons@[y]);
            }
        }
        (keys, button_codes)
    }
}

/// When every held code has a holder, a release lets go of a code exactly
/// when the releasing peer is its only holder.
pub proof fn lemma_frees_iff_sole(m: Holds, code: u16, peer: Seq<char>)
    requires
        tidy(m),
    ensures
        release_frees(m, code, peer) == (holders_of(m, code) == set![peer]),
{
    if m.dom().contains(code) {
        let h = m[code];
        if h.remove(peer) == Set::<Seq<char>>::empty() {
            assert(h != Set::<Seq<char>>::empty());
            assert(h =~= set![peer]) by {
                if !h.contains(peer) {
                    assert(h =~= h.remove(peer));
                }
                assert forall|y: Seq<char>| h.contains(y) implies y == peer by {
                    if y != peer {
                        assert(h.remove(peer).contains(y));
                    }
                }
            }
        } else if h == set![peer] {
            assert(h.remove(peer) =~= Set::<Seq<char>>::empty());
        }
    } else {
        assert(set![peer].contains(peer));
    }
}

/// Pressing a key and letting it go again, by a peer that did not hold
/// it, leaves the holds as they were, as long as every held key has a
/// holder.
pub proof fn lemma_press_release_restores(m: Holds, code: u16, peer: Seq<char>)
    requires
        tidy(m),
        !holders_of(m, code).contains(peer),
    ensures
        release(press(m, code, peer), code, peer) == m,
        release_frees(press(m, code, peer), code, peer) == !is_held(m, code),
{
    let h = holders_of(m, code);
    assert(h.insert(peer).remove(peer) =~= h);
    if m.dom().contains(code) {
        assert(m.insert(code, h) =~= m);
    } else {
        assert(m.remove(code) =~= m);
    }
}

/// Two peers on one key: the key goes down with the first press only, and
/// up with the last release only, whatever order the peers let go in.
pub proof fn lemma_shared_key(m: Holds, code: u16, a: Seq<char>, b: Seq<char>)
    requires
        tidy(m),
        !is_held(m, code),
        a != b,
    ensures
        !is_held(m, code),
        is_held(press(m, code, a), code),
        !release_frees(press(press(m, code, a), code, b), code, a),
        release_frees(release(press(press(m, code, a), code, b), code, a), code, b),
        release(release(press(press(m, code, a), code, b), code, a), code, b) == m,
{
    let m1 = press(m, code, a);
    let m2 = press(m1, code, b);
    assert(holders_of(m, code) =~= Set::<Seq<char>>::empty());
    assert(m1[code] =~= set![a]);
    assert(holders_of(m1, code) != Set::<Seq<char>>::empty()) by {
        assert(m1[code].contains(a));
    }
    assert(m2[code] =~= set![a, b]);
    assert(m2[code].remove(a) =~= set![b]);
    assert(m2[code].remove(a) != Set::<Seq<char>>::empty()) by {
        assert(m2[code].remove(a).contains(b));
    }
    let m3 = release(m2, code, a);
    assert(m3[code].remove(b) =~= Set::<Seq<char>>::empty());
    assert(m3.remove(code) =~= m) by {
        assert(!m.dom().contains(code));
    }
}

/// After a peer leaves with the stream up, it holds nothing, and every
/// code left is still held by somebody if that was so before.
pub proof fn lemma_leave_clears(m: Holds, peer: Seq<char>)
    ensures
        forall|c: u16| #[trigger]
            drop_peer(m, peer).dom().contains(c) ==> !drop_peer(m, peer)[c].contains(
                peer,
            ),
        tidy(m) ==> tidy(drop_peer(m, peer)),
{
    let d = drop_peer(m, peer);
    if tidy(m) {
        assert forall|c: u16| #[trigger] d.dom().contains(c) implies d[c] != Set::<Seq<char>>::empty() by {
            if d[c] == Set::<Seq<char>>::empty() {
                assert(m[c] != Set::<Seq<char>>::empty());
                if m[c].contains(peer) {
                    assert(freed_by(m, c, peer));
                } else {
                    assert(m[c].remove(peer) =~= m[c]);
                }
            }
        }
    }
}

/// A peer that presses a key and then leaves with the stream up leaves the
/// holds as its leaving alone would have.
pub proof fn lemma_press_then_leave(m: Holds, code: u16, peer: Seq<char>)
    requires
        tidy(m),
    ensures
        drop_peer(press(m, code, peer), peer) == drop_peer(m, peer),
{
    let p = press(m, code, peer);
    let l = drop_peer(p, peer);
    let r = drop_peer(m, peer);
    assert forall|c: u16| #[trigger] l.dom().contains(c) == r.dom().contains(c) by {
        if c == code {
            let h = holders_of(m, code);
            assert(p[c] == h.insert(peer));
            assert(h.insert(peer).remove(peer) =~= h.remove(peer));
            if m.dom().contains(c) {
                assert(m[c] != Set::<Seq<char>>::empty());
                if !m[c].contains(peer) {
                    assert(m[c].remove(peer) =~= m[c]);
                }
            } else {
                assert(h.remove(peer) =~= Set::<Seq<char>>::empty());
            }
        }
    }
    assert forall|c: u16| l.dom().contains(c) implies #[trigger] l[c] == r[c] by {
        if c == code {
            let h = holders_of(m, code);
            assert(h.insert(peer).remove(peer) =~= h.remove(peer));
        }
    }
    assert(l =~= r);
}

/// The codes that are down on the host: those that some peer holds.
pub open spec fn held_codes(m: Holds) -> Set<u16> {
    Set::new(|c: u16| is_held(m, c))
}

/// A press keeps the host in step with the peers: the code goes down, and
/// the down event is forwarded exactly when it was not down before.
pub proof fn lemma_union_on_press(m: Holds, code: u16, peer: Seq<char>)
    requires
        tidy(m),
    ensures
        tidy(press(m, code, peer)),
        held_codes(press(m, code, peer)) == held_codes(m).insert(code),
        !is_held(m, code) <==> !held_codes(m).contains(code),
{
    let p = press(m, code, peer);
    assert(p[code].contains(peer));
    assert forall|c: u16| #[trigger] p.dom().contains(c) implies p[c] != Set::<Seq<char>>::empty() by {
        if c == code {
            assert(p[c].contains(peer));
        }
    }
    assert(held_codes(p) =~= held_codes(m).insert(code)) by {
        assert(is_held(p, code));
        assert forall|c: u16| c != code implies holders_of(p, c) == holders_of(m, c) by {}
    }
}

/// A release keeps the host in step with the peers: the up event is
/// forwarded exactly when the code stops being held, and then only for a
/// code that was down.
pub proof fn lemma_union_on_release(m: Holds, code: u16, peer: Seq<char>)
    requires
        tidy(m),
    ensures
        tidy(release(m, code, peer)),
        held_codes(release(m, code, peer)) == (if release_frees(m, code, peer) {
            held_codes(m).remove(code)
        } else {
            held_codes(m)
        }),
        release_frees(m, code, peer) ==> held_codes(m).contains(code),
{
    let r = release(m, code, peer);
    if m.dom().contains(code) {
        assert(m[code] != Set::<Seq<char>>::empty());
        assert(is_held(m, code));
    }
    assert forall|c: u16| #[trigger] r.dom().contains(c) implies r[c] != Set::<Seq<char>>::empty() by {}
    if release_frees(m, code, peer) {
        assert(held_codes(r) =~= held_codes(m).remove(code)) by {
            assert(!is_held(r, code)) by {
                assert(holders_of(r, code) =~= Set::<Seq<char>>::empty());
            }
            assert forall|c: u16| c != code implies holders_of(r, c) == holders_of(m, c) by {}
        }
    } else {
        assert(held_codes(r) =~= held_codes(m)) by {
            assert forall|c: u16| c != code implies holders_of(r, c) == holders_of(m, c) by {}
            if m.dom().contains(code) {
                assert(r[code] == m[code].remove(peer));
                assert(is_held(r, code));
            }
        }
    }
}

/// A peer leaving while the stream is up keeps the host in step with the
/// others: the codes it was the last to hold go up, and nothing else does.
pub proof fn lemma_union_on_leave(m: Holds, peer: Seq<char>)
    requires
        tidy(m),
    ensures
        tidy(drop_peer(m, peer)),
        held_codes(drop_peer(m, peer)) == held_codes(m).difference(
            Set::new(|c: u16| freed_by(m, c, peer)),
        ),
        forall|c: u16| #[trigger] freed_by(m, c, peer) ==> held_codes(m).contains(c),
{
    lemma_leave_clears(m, peer);
    let d = drop_peer(m, peer);
    let freed = Set::new(|c: u16| freed_by(m, c, peer));
    assert forall|c: u16| #[trigger] freed_by(m, c, peer) implies held_codes(m).contains(c) by {
        assert(m[c].contains(peer));
    }
    assert(held_codes(d) =~= held_codes(m).difference(freed)) by {
        assert forall|c: u16| held_codes(d).contains(c) <==> #[trigger] held_codes(m).difference(freed).contains(c) by {
            if m.dom().contains(c) {
                assert(m[c] != Set::<Seq<char>>::empty());
                if !freed_by(m, c, peer) {
                    assert(d.dom().contains(c));
                    assert(d[c] != Set::<Seq<char>>::empty());
                }
            }
        }
    }
}

/// A peer leaving does not touch what the other peers hold.
pub proof fn lemma_leave_spares_others(
    m: Holds,
    peer: Seq<char>,
    other: Seq<char>,
    code: u16,
)
    requires
        other != peer,
    ensures
        holders_of(drop_peer(m, peer), code).contains(other) == holders_of(
            m,
            code,
        ).contains(other),
{
    if m.dom().contains(code) && m[code].contains(other) {
        assert(m[code].remove(peer).contains(other));
    }
}

} // verus!
