use vstd::prelude::*;

use crate::keyed_table::KeyedTable;

verus! {

/// Which peers hold an input down: a map from an input code (a key or a
/// mouse button) to the set of ids of the peers that hold it.
pub type Holds = Map<u16, Set<Seq<char>>>;

/// The peers that hold `code` in `m`; none when `code` is not in `m`.
pub open spec fn holders_of(m: Holds, code: u16) -> Set<Seq<char>> {
    if m.dom().contains(code) {
        m[code]
    } else {
        Set::empty()
    }
}

/// `code` is held by at least one peer.
pub open spec fn is_held(m: Holds, code: u16) -> bool {
    holders_of(m, code) != Set::<Seq<char>>::empty()
}

/// `peer` presses `code`.
pub open spec fn press(m: Holds, code: u16, peer: Seq<char>) -> Holds {
    m.insert(code, holders_of(m, code).insert(peer))
}

/// `peer` releases `code`: the code leaves the map once nobody holds it.
pub open spec fn release(m: Holds, code: u16, peer: Seq<char>) -> Holds {
    if m.dom().contains(code) {
        if m[code].remove(peer) == Set::<Seq<char>>::empty() {
            m.remove(code)
        } else {
            m.insert(code, m[code].remove(peer))
        }
    } else {
        m
    }
}

/// Releasing `code` by `peer` lets go of the last hold on it.
pub open spec fn release_frees(m: Holds, code: u16, peer: Seq<char>) -> bool {
    m.dom().contains(code) && m[code].remove(peer) == Set::<Seq<char>>::empty()
}

/// `peer` held `code` and was the last one to.
pub open spec fn freed_by(m: Holds, code: u16, peer: Seq<char>) -> bool {
    &&& m.dom().contains(code)
    &&& m[code].contains(peer)
    &&& m[code].remove(peer) == Set::<Seq<char>>::empty()
}

/// `peer` leaves: it holds nothing any more, and the codes it was the last
/// to hold leave the map.
pub open spec fn drop_peer(m: Holds, peer: Seq<char>) -> Holds {
    Map::new(
        |c: u16| m.dom().contains(c) && !freed_by(m, c, peer),
        |c: u16| m[c].remove(peer),
    )
}

/// The map that a list of `(code, holders)` pairs describes.
pub open spec fn map_of(s: Seq<(u16, Set<Seq<char>>)>) -> Holds
    decreases s.len(),
{
    if s.len() == 0 {
        Map::empty()
    } else {
        map_of(s.drop_last()).insert(s.last().0, s.last().1)
    }
}

pub open spec fn codes_of(s: Seq<(u16, Set<Seq<char>>)>) -> Seq<u16> {
    Seq::new(s.len(), |i: int| s[i].0)
}

pub proof fn lemma_map_of_dom(s: Seq<(u16, Set<Seq<char>>)>)
    ensures
        map_of(s).dom() == codes_of(s).to_set(),
    decreases s.len(),
{
    if s.len() > 0 {
        lemma_map_of_dom(s.drop_last());
        assert(codes_of(s).to_set() =~= codes_of(s.drop_last()).to_set().insert(s.last().0)) by {
            assert forall|c: u16| #[trigger] codes_of(s).to_set().contains(c) implies codes_of(
                s.drop_last(),
            ).to_set().insert(s.last().0).contains(c) by {
                let i = choose|i: int| 0 <= i < codes_of(s).len() && codes_of(s)[i] == c;
                if i < s.len() - 1 {
                    assert(codes_of(s.drop_last())[i] == c);
                }
            }
            assert forall|c: u16| #[trigger] codes_of(s.drop_last()).to_set().insert(
                s.last().0,
            ).contains(c) implies codes_of(s).to_set().contains(c) by {
                if c == s.last().0 {
                    assert(codes_of(s)[s.len() - 1] == c);
                } else {
                    let i = choose|i: int|
                        0 <= i < codes_of(s.drop_last()).len() && codes_of(s.drop_last())[i] == c;
                    assert(codes_of(s)[i] == c);
                }
            }
        }
    }
}

pub proof fn lemma_map_of_index(s: Seq<(u16, Set<Seq<char>>)>, i: int)
    requires
        codes_of(s).no_duplicates(),
        0 <= i < s.len(),
    ensures
        map_of(s).dom().contains(s[i].0),
        map_of(s)[s[i].0] == s[i].1,
    decreases s.len(),
{
    if i < s.len() - 1 {
        let t = s.drop_last();
        assert(codes_of(t).no_duplicates()) by {
            assert forall|a: int, b: int|
                0 <= a < codes_of(t).len() && 0 <= b < codes_of(t).len() && a != b implies codes_of(
                t,
            )[a] != codes_of(t)[b] by {
                assert(codes_of(s)[a] != codes_of(s)[b]);
            }
        }
        lemma_map_of_index(t, i);
        assert(codes_of(s)[i] != codes_of(s)[s.len() - 1]);
    }
}

pub proof fn lemma_map_of_remove(s: Seq<(u16, Set<Seq<char>>)>, i: int)
    requires
        codes_of(s).no_duplicates(),
        0 <= i < s.len(),
    ensures
        map_of(s.remove(i)) == map_of(s).remove(s[i].0),
        codes_of(s.remove(i)).no_duplicates(),
    decreases s.len(),
{
    let r = s.remove(i);
    assert(codes_of(r).no_duplicates()) by {
        assert forall|a: int, b: int|
            0 <= a < codes_of(r).len() && 0 <= b < codes_of(r).len() && a != b implies codes_of(
            r,
        )[a] != codes_of(r)[b] by {
            let a2 = if a < i { a } else { a + 1 };
            let b2 = if b < i { b } else { b + 1 };
            assert(codes_of(s)[a2] != codes_of(s)[b2]);
        }
    }
    let t = s.drop_last();
    if i == s.len() - 1 {
        assert(r =~= t);
        lemma_map_of_dom(t);
        assert(!codes_of(t).to_set().contains(s[i].0)) by {
            if codes_of(t).to_set().contains(s[i].0) {
                let j = choose|j: int| 0 <= j < codes_of(t).len() && codes_of(t)[j] == s[i].0;
                assert(codes_of(s)[j] == codes_of(s)[i]);
            }
        }
        assert(map_of(s).remove(s[i].0) =~= map_of(t));
    } else {
        assert(codes_of(t).no_duplicates()) by {
            assert forall|a: int, b: int|
                0 <= a < codes_of(t).len() && 0 <= b < codes_of(t).len() && a != b implies codes_of(
                t,
            )[a] != codes_of(t)[b] by {
                assert(codes_of(s)[a] != codes_of(s)[b]);
            }
        }
        lemma_map_of_remove(t, i);
        assert(r.drop_last() =~= t.remove(i));
        assert(r.last() == s.last());
        assert(codes_of(s)[i] != codes_of(s)[s.len() - 1]);
        assert(map_of(r) =~= map_of(s).remove(s[i].0));
    }
}

/// The entries a list of pairs keeps when `peer` leaves.
pub open spec fn drop_peer_seq(
    s: Seq<(u16, Set<Seq<char>>)>,
    peer: Seq<char>,
) -> Seq<(u16, Set<Seq<char>>)>
    decreases s.len(),
{
    if s.len() == 0 {
        Seq::empty()
    } else {
        let rest = drop_peer_seq(s.drop_last(), peer);
        let e = s.last();
        if e.1.contains(peer) && e.1.remove(peer) == Set::<Seq<char>>::empty() {
            rest
        } else {
            rest.push((e.0, e.1.remove(peer)))
        }
    }
}

/// The codes, in list order, that `peer` was the last to hold.
pub open spec fn freed_seq(s: Seq<(u16, Set<Seq<char>>)>, peer: Seq<char>) -> Seq<u16>
    decreases s.len(),
{
    if s.len() == 0 {
        Seq::empty()
    } else {
        let rest = freed_seq(s.drop_last(), peer);
        let e = s.last();
        if e.1.contains(peer) && e.1.remove(peer) == Set::<Seq<char>>::empty() {
            rest.push(e.0)
        } else {
            rest
        }
    }
}

proof fn lemma_no_dup_prefix(s: Seq<(u16, Set<Seq<char>>)>)
    requires
        codes_of(s).no_duplicates(),
        s.len() > 0,
    ensures
        codes_of(s.drop_last()).no_duplicates(),
        !codes_of(s.drop_last()).to_set().contains(s.last().0),
        !map_of(s.drop_last()).dom().contains(s.last().0),
{
    let t = s.drop_last();
    assert forall|a: int, b: int|
        0 <= a < codes_of(t).len() && 0 <= b < codes_of(t).len() && a != b implies codes_of(t)[a]
        != codes_of(t)[b] by {
        assert(codes_of(s)[a] != codes_of(s)[b]);
    }
    if codes_of(t).to_set().contains(s.last().0) {
        let j = choose|j: int| 0 <= j < codes_of(t).len() && codes_of(t)[j] == s.last().0;
        assert(codes_of(s)[j] == codes_of(s)[s.len() - 1]);
    }
    lemma_map_of_dom(t);
}

/// The list that stays behind when `peer` leaves describes `drop_peer`, and
/// the codes it frees are those it was the last to hold.
pub proof fn lemma_drop_peer_seq(s: Seq<(u16, Set<Seq<char>>)>, peer: Seq<char>)
    requires
        codes_of(s).no_duplicates(),
    ensures
        map_of(drop_peer_seq(s, peer)) == drop_peer(map_of(s), peer),
        codes_of(drop_peer_seq(s, peer)).to_set().subset_of(codes_of(s).to_set()),
        codes_of(drop_peer_seq(s, peer)).no_duplicates(),
        freed_seq(s, peer).no_duplicates(),
        forall|c: u16| #[trigger]
            freed_seq(s, peer).contains(c) <==> freed_by(map_of(s), c, peer),
    decreases s.len(),
{
    let d = drop_peer_seq(s, peer);
    if s.len() == 0 {
        assert(drop_peer(map_of(s), peer) =~= Map::empty());
        assert(codes_of(d).to_set() =~= Set::empty());
    } else {
        let t = s.drop_last();
        let e = s.last();
        lemma_no_dup_prefix(s);
        lemma_drop_peer_seq(t, peer);
        let dt = drop_peer_seq(t, peer);
        let m = map_of(t);
        assert(map_of(s) == m.insert(e.0, e.1));
        lemma_map_of_dom(dt);
        lemma_map_of_dom(t);
        if e.1.contains(peer) && e.1.remove(peer) == Set::<Seq<char>>::empty() {
            assert(d == dt);
            assert(map_of(d) =~= drop_peer(map_of(s), peer));
        } else {
            assert(d == dt.push((e.0, e.1.remove(peer))));
            assert(d.drop_last() =~= dt);
            assert(map_of(d) =~= drop_peer(map_of(s), peer));
            assert(codes_of(d) =~= codes_of(dt).push(e.0));
            assert(!codes_of(dt).to_set().contains(e.0));
            assert(codes_of(d).no_duplicates()) by {
                assert forall|a: int, b: int|
                    0 <= a < codes_of(d).len() && 0 <= b < codes_of(d).len() && a != b implies codes_of(
                    d,
                )[a] != codes_of(d)[b] by {
                    if a == codes_of(d).len() - 1 {
                        assert(codes_of(dt).contains(codes_of(d)[b]));
                    } else if b == codes_of(d).len() - 1 {
                        assert(codes_of(dt).contains(codes_of(d)[a]));
                    }
                }
            }
            lemma_map_of_dom(d);
            assert(map_of(d).dom() =~= map_of(dt).dom().insert(e.0));
        }
        assert(codes_of(s).to_set() =~= codes_of(t).to_set().insert(e.0)) by {
            lemma_map_of_dom(s);
        }
        let f = freed_seq(s, peer);
        let ft = freed_seq(t, peer);
        assert forall|c: u16| #[trigger] f.contains(c) <==> freed_by(map_of(s), c, peer) by {
            if c != e.0 {
                if ft.contains(c) {
                    let j = choose|j: int| 0 <= j < ft.len() && ft[j] == c;
                    assert(f[j] == c);
                }
                if f.contains(c) {
                    let j = choose|j: int| 0 <= j < f.len() && f[j] == c;
                    assert(j < ft.len());
                    assert(ft[j] == c);
                }
                assert(f.contains(c) <==> ft.contains(c));
            } else {
                assert(!freed_by(m, c, peer));
                if e.1.contains(peer) && e.1.remove(peer) == Set::<Seq<char>>::empty() {
                    assert(f[f.len() - 1] == c);
                }
            }
        }
        if e.1.contains(peer) && e.1.remove(peer) == Set::<Seq<char>>::empty() {
            assert(f == ft.push(e.0));
            assert(!ft.contains(e.0));
            assert forall|a: int, b: int| 0 <= a < f.len() && 0 <= b < f.len() && a != b implies f[a]
                != f[b] by {
                if a == f.len() - 1 {
                    assert(ft.contains(f[b]));
                } else if b == f.len() - 1 {
                    assert(ft.contains(f[a]));
                }
            }
        }
    }
}

struct HoldEntry {
    code: u16,
    holders: KeyedTable<()>,
}

/// Which peers hold each input code down.
pub struct HoldTable {
    entries: Vec<HoldEntry>,
}

impl HoldTable {
    /// The entries as `(code, holders)` pairs, in the table's order.
    pub closed spec fn pairs(&self) -> Seq<(u16, Set<Seq<char>>)> {
        Seq::new(self.entries@.len(), |i: int| (self.entries@[i].code, self.entries@[i].holders@.dom()))
    }

    /// No code occurs twice and every holder set is well formed.
    pub closed spec fn wf(&self) -> bool {
        &&& codes_of(self.pairs()).no_duplicates()
        &&& forall|i: int| 0 <= i < self.entries@.len() ==> (#[trigger] self.entries@[i]).holders.wf()
    }
}

impl View for HoldTable {
    type V = Holds;

    closed spec fn view(&self) -> Holds {
        map_of(self.pairs())
    }
}

impl HoldTable {
    /// A table where nobody holds anything.
    pub fn new() -> (t: HoldTable)
        ensures
            t.wf(),
            t@ == Map::<u16, Set<Seq<char>>>::empty(),
    {
        let t = HoldTable { entries: Vec::new() };
        assert(t.pairs() =~= Seq::<(u16, Set<Seq<char>>)>::empty());
        t
    }

    fn position(&self, code: u16) -> (r: Option<usize>)
        requires
            self.wf(),
        ensures
            match r {
                Some(i) => i < self.entries@.len() && self.entries@[i as int].code == code,
                None => !self@.dom().contains(code),
            },
    {
        let mut i: usize = 0;
        while i < self.entries.len()
            invariant
                i <= self.entries@.len(),
                forall|j: int| 0 <= j < i ==> self.entries@[j].code != code,
            decreases self.entries@.len() - i,
        {
            if self.entries[i].code == code {
                return Some(i);
            }
            i = i + 1;
        }
        proof {
            lemma_map_of_dom(self.pairs());
            if codes_of(self.pairs()).to_set().contains(code) {
                let j = choose|j: int| 0 <= j < codes_of(self.pairs()).len() && codes_of(self.pairs())[j] == code;
                assert(self.entries@[j].code == code);
            }
        }
        None
    }

    /// Takes the entry at `i` out, keeping the table well formed.
    fn take_at(&mut self, i: usize) -> (e: HoldEntry)
        requires
            old(self).wf(),
            i < old(self).entries@.len(),
        ensures
            final(self).wf(),
            e.holders.wf(),
            final(self)@ == old(self)@.remove(e.code),
            old(self)@.dom().contains(e.code),
            old(self)@[e.code] == e.holders@.dom(),
            e == old(self).entries@[i as int],
    {
        let ghost s = self.pairs();
        proof {
            lemma_map_of_remove(s, i as int);
            lemma_map_of_index(s, i as int);
        }
        let e = self.entries.remove(i);
        proof {
            assert(self.pairs() =~= s.remove(i as int));
            assert forall|j: int| 0 <= j < self.entries@.len() implies (#[trigger] self.entries@[j]).holders.wf() by {
                let j2 = if j < i { j } else { j + 1 };
                assert(self.entries@[j] == old(self).entries@[j2]);
            }
        }
        e
    }

    /// Puts an entry whose code is not in the table at the end.
    fn put(&mut self, e: HoldEntry)
        requires
            old(self).wf(),
            e.holders.wf(),
            !old(self)@.dom().contains(e.code),
        ensures
            final(self).wf(),
            final(self)@ == old(self)@.insert(e.code, e.holders@.dom()),
    {
        let ghost s = self.pairs();
        let ghost entry = (e.code, e.holders@.dom());
        proof {
            lemma_map_of_dom(s);
        }
        self.entries.push(e);
        proof {
            assert(self.pairs() =~= s.push(entry));
            assert(self.pairs().drop_last() =~= s);
            assert(codes_of(self.pairs()) =~= codes_of(s).push(entry.0));
            assert forall|a: int, b: int|
                0 <= a < codes_of(self.pairs()).len() && 0 <= b < codes_of(self.pairs()).len() && a != b
                implies codes_of(self.pairs())[a] != codes_of(self.pairs())[b] by {
                if a == s.len() {
                    assert(codes_of(s).contains(codes_of(self.pairs())[b]));
                } else if b == s.len() {
                    assert(codes_of(s).contains(codes_of(self.pairs())[a]));
                }
            }
            assert forall|j: int| 0 <= j < self.entries@.len() implies (#[trigger] self.entries@[j]).holders.wf() by {
                if j < s.len() {
                    assert(self.entries@[j] == old(self).entries@[j]);
                }
            }
        }
    }

    /// `peer` presses `code`; true when nobody held it before.
    pub fn press(&mut self, code: u16, peer: &str) -> (first: bool)
        requires
            old(self).wf(),
        ensures
            final(self).wf(),
            final(self)@ == press(old(self)@, code, peer@),
            first == !is_held(old(self)@, code),
    {
        match self.position(code) {
            Some(i) => {
                let mut e = self.take_at(i);
                let first = e.holders.is_empty();
                proof {
                    if first {
                        assert(e.holders@.dom() =~= Set::<Seq<char>>::empty());
                    } else if e.holders@.dom() == Set::<Seq<char>>::empty() {
                        assert(e.holders@ =~= Map::<Seq<char>, ()>::empty());
                    }
                }
                e.holders.insert(peer.to_owned(), ());
                self.put(e);
                proof {
                    assert(self@ =~= press(old(self)@, code, peer@));
                }
                first
            },
            None => {
                let mut holders = KeyedTable::new();
                holders.insert(peer.to_owned(), ());
                proof {
                    assert(holders@.dom() =~= Set::<Seq<char>>::empty().insert(peer@));
                }
                self.put(HoldEntry { code, holders });
                true
            },
        }
    }

    /// `peer` releases `code`; true when that lets go of the last hold.
    pub fn release(&mut self, code: u16, peer: &str) -> (freed: bool)
        requires
            old(self).wf(),
        ensures
            final(self).wf(),
            final(self)@ == release(old(self)@, code, peer@),
            freed == release_frees(old(self)@, code, peer@),
    {
        match self.position(code) {
            Some(i) => {
                let mut e = self.take_at(i);
                e.holders.remove(peer);
                if e.holders.is_empty() {
                    proof {
                        assert(e.holders@.dom() =~= Set::<Seq<char>>::empty());
                    }
                    true
                } else {
                    proof {
                        if e.holders@.dom() == Set::<Seq<char>>::empty() {
                            assert(e.holders@ =~= Map::<Seq<char>, ()>::empty());
                        }
                    }
                    self.put(e);
                    proof {
                        assert(self@ =~= release(old(self)@, code, peer@));
                    }
                    false
                }
            },
            None => false,
        }
    }

    /// `peer` leaves. The codes it was the last to hold leave the table and
    /// are returned.
    pub fn remove_peer(&mut self, peer: &str) -> (freed: Vec<u16>)
        requires
            old(self).wf(),
        ensures
            final(self).wf(),
            final(self)@ == drop_peer(old(self)@, peer@),
            freed@.no_duplicates(),
            forall|c: u16| #[trigger] freed@.contains(c) <==> freed_by(old(self)@, c, peer@),
    {
        let ghost s = self.pairs();
        let mut rest: Vec<HoldEntry> = Vec::new();
        core::mem::swap(&mut rest, &mut self.entries);
        let ghost all = rest@;
        let total = rest.len();
        let mut freed: Vec<u16> = Vec::new();
        let mut k: usize = 0;
        assert(self.pairs() =~= drop_peer_seq(s.subrange(0, 0), peer@));
        while rest.len() > 0
            invariant
                k + rest@.len() == all.len(),
                all.len() == total,
                rest@ == all.subrange(k as int, all.len() as int),
                s.len() == all.len(),
                forall|j: int| 0 <= j < all.len() ==> s[j] == (#[trigger] all[j].code, all[j].holders@.dom()),
                forall|j: int| 0 <= j < all.len() ==> (#[trigger] all[j]).holders.wf(),
                self.pairs() == drop_peer_seq(s.subrange(0, k as int), peer@),
                freed@ == freed_seq(s.subrange(0, k as int), peer@),
                forall|j: int| 0 <= j < self.entries@.len() ==> (#[trigger] self.entries@[j]).holders.wf(),
            decreases rest@.len(),
        {
            let ghost before = self.pairs();
            let mut e = rest.remove(0);
            assert(e == all[k as int]);
            let ghost h = e.holders@.dom();
            let had = e.holders.remove(peer).is_some();
            let now_empty = e.holders.is_empty();
            proof {
                assert(had == h.contains(peer@));
                if now_empty {
                    assert(e.holders@.dom() =~= Set::<Seq<char>>::empty());
                } else if e.holders@.dom() == Set::<Seq<char>>::empty() {
                    assert(e.holders@ =~= Map::<Seq<char>, ()>::empty());
                }
                assert(e.holders@.dom() == h.remove(peer@));
                assert(s.subrange(0, k + 1).drop_last() =~= s.subrange(0, k as int));
                assert(s.subrange(0, k + 1).last() == s[k as int]);
            }
            if had && now_empty {
                freed.push(e.code);
            } else {
                self.entries.push(e);
            }
            proof {
                assert(self.pairs() =~= drop_peer_seq(s.subrange(0, k + 1), peer@));
                assert(rest@ =~= all.subrange(k + 1, all.len() as int));
            }
            k = k + 1;
        }
        proof {
            assert(s.subrange(0, k as int) =~= s);
            lemma_drop_peer_seq(s, peer@);
        }
        freed
    }
}

} // verus!
