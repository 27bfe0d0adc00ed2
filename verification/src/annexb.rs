use vstd::prelude::*;
use core::ops::Range;

verus! {

/// A three-byte start code `00 00 01` begins at index `i` of `s`.
pub open spec fn sc3_at(s: Seq<u8>, i: int) -> bool {
    &&& 0 <= i
    &&& i + 3 <= s.len()
    &&& s[i] == 0
    &&& s[i + 1] == 0
    &&& s[i + 2] == 1
}

/// `i` is the first index at or after `from` where a start code begins.
pub open spec fn is_first_sc3(s: Seq<u8>, from: int, i: int) -> bool {
    &&& from <= i
    &&& sc3_at(s, i)
    &&& forall|j: int| from <= j < i ==> !#[trigger] sc3_at(s, j)
}

/// The first index at or after `from` where a start code begins, or -1.
pub open spec fn first_sc3(s: Seq<u8>, from: int) -> int {
    if exists|i: int| is_first_sc3(s, from, i) {
        choose|i: int| is_first_sc3(s, from, i)
    } else {
        -1
    }
}

/// Where the start code whose `00 00 01` sits at `i` begins: one byte
/// earlier when a zero precedes it (the four-byte form `00 00 00 01`).
pub open spec fn code_start_of(s: Seq<u8>, i: int) -> int {
    if i >= 1 && s[i - 1] == 0 {
        i - 1
    } else {
        i
    }
}

/// Where a payload that starts at `payload_start` ends, given that the next
/// `00 00 01` sits at `j`: the zero before it belongs to a four-byte code.
pub open spec fn payload_end_of(s: Seq<u8>, payload_start: int, j: int) -> int {
    if j - 1 >= payload_start && s[j - 1] == 0 {
        j - 1
    } else {
        j
    }
}

/// The bounds `(code_start, payload_start, payload_end)` of the first
/// complete unit in the buffered bytes `s`. A unit is complete when the next
/// start code has arrived, or, at the end of the stream, when its start code
/// has.
pub open spec fn next_unit(s: Seq<u8>, at_end: bool) -> Option<(int, int, int)> {
    let i = first_sc3(s, 0);
    if i < 0 {
        None
    } else {
        let ps = i + 3;
        let j = first_sc3(s, ps);
        if j >= 0 {
            Some((code_start_of(s, i), ps, payload_end_of(s, ps, j)))
        } else if at_end {
            Some((code_start_of(s, i), ps, s.len() as int))
        } else {
            None
        }
    }
}

/// The buffered bytes after one split: everything up to the end of the
/// unit is consumed; without a unit, the end of the stream drops the rest.
pub open spec fn after_split(s: Seq<u8>, at_end: bool) -> Seq<u8> {
    match next_unit(s, at_end) {
        Some(u) => s.skip(u.2),
        None => if at_end {
            Seq::empty()
        } else {
            s
        },
    }
}

pub proof fn lemma_first_sc3_unique(s: Seq<u8>, from: int, i: int)
    requires
        is_first_sc3(s, from, i),
    ensures
        first_sc3(s, from) == i,
{
    let k = choose|k: int| is_first_sc3(s, from, k);
    assert(is_first_sc3(s, from, k));
    if k < i {
        assert(!sc3_at(s, k));
    } else if i < k {
        assert(!sc3_at(s, i));
    }
}

pub proof fn lemma_first_sc3_none(s: Seq<u8>, from: int)
    requires
        forall|j: int| from <= j ==> !#[trigger] sc3_at(s, j),
    ensures
        first_sc3(s, from) == -1,
{
    if exists|i: int| is_first_sc3(s, from, i) {
        let k = choose|k: int| is_first_sc3(s, from, k);
        assert(sc3_at(s, k));
    }
}

pub proof fn lemma_first_sc3_found(s: Seq<u8>, from: int)
    requires
        first_sc3(s, from) >= 0,
    ensures
        is_first_sc3(s, from, first_sc3(s, from)),
{
}

/// The bounds of a unit lie inside the buffer, in order, with the start
/// code taking three or four bytes.
pub proof fn lemma_next_unit_bounds(s: Seq<u8>, at_end: bool)
    requires
        next_unit(s, at_end) is Some,
    ensures
        ({
            let u = next_unit(s, at_end)->0;
            &&& 0 <= u.0
            &&& u.0 + 3 <= u.1 <= u.0 + 4
            &&& u.1 <= u.2 <= s.len()
        }),
{
    lemma_first_sc3_found(s, 0);
    let i = first_sc3(s, 0);
    let j = first_sc3(s, i + 3);
    if j >= 0 {
        lemma_first_sc3_found(s, i + 3);
    }
}

/// Every unit that splitting `s` to the end of the stream hands out, in
/// order, as its bytes and the length of its start code.
pub open spec fn split_all(s: Seq<u8>) -> Seq<(Seq<u8>, int)>
    decreases s.len(),
{
    match next_unit(s, true) {
        None => Seq::empty(),
        Some(u) => if 0 < u.2 <= s.len() {
            seq![(s.subrange(u.0, u.2), u.1 - u.0)] + split_all(s.skip(u.2))
        } else {
            Seq::empty()
        },
    }
}

/// Splitting at the end of the stream, call after call: each call hands out
/// the next unit of `split_all` and leaves the bytes whose units are the
/// rest; once there is none, nothing is left buffered.
pub proof fn lemma_split_step(s: Seq<u8>)
    ensures
        next_unit(s, true) is None <==> split_all(s).len() == 0,
        next_unit(s, true) is None ==> after_split(s, true) == Seq::<u8>::empty(),
        next_unit(s, true) matches Some(u) ==> {
            &&& split_all(s)[0] == (s.subrange(u.0, u.2), u.1 - u.0)
            &&& split_all(after_split(s, true)) == split_all(s).drop_first()
        },
{
    if let Some(u) = next_unit(s, true) {
        lemma_next_unit_bounds(s, true);
        let x = (s.subrange(u.0, u.2), u.1 - u.0);
        let rest = split_all(s.skip(u.2));
        assert(split_all(s) == seq![x] + rest);
        assert((seq![x] + rest).drop_first() =~= rest);
    }
}

/// How long the start code in front of a unit is.
#[derive(Clone, Copy, Debug, PartialEq, Eq)]
pub enum StartCode {
    /// `00 00 01`
    ThreeBytes,
    /// `00 00 00 01`
    FourBytes,
}

/// One unit of an Annex B byte stream, with its start code. The ranges
/// index into `full`.
pub struct AnnexBUnit {
    pub full: Vec<u8>,
    pub start_code: StartCode,
    pub start_code_range: Range<usize>,
    pub payload_range: Range<usize>,
}

impl AnnexBUnit {
    /// The unit holds exactly `bytes`, and its start code takes
    /// `code_len` bytes.
    pub open spec fn describes(&self, bytes: Seq<u8>, code_len: int) -> bool {
        &&& self.full@ == bytes
        &&& (code_len == 3 || code_len == 4)
        &&& code_len <= bytes.len()
        &&& self.start_code_range.start == 0
        &&& self.start_code_range.end == code_len
        &&& self.payload_range.start == code_len
        &&& self.payload_range.end == bytes.len()
        &&& (self.start_code == StartCode::FourBytes <==> code_len == 4)
    }
}

/// Splits a growing buffer of Annex B bytes into units.
pub struct AnnexBSplitter {
    buffer: Vec<u8>,
    capacity: usize,
}

/// Searches `buf` for the first start code at or after `from`.
fn find_start_code(buf: &Vec<u8>, from: usize) -> (r: Option<usize>)
    ensures
        match r {
            Some(i) => is_first_sc3(buf@, from as int, i as int),
            None => forall|j: int| from <= j ==> !#[trigger] sc3_at(buf@, j),
        },
{
    let n = buf.len();
    if n < 3 || from > n - 3 {
        return None;
    }
    let mut i = from;
    while i <= n - 3
        invariant
            n == buf@.len(),
            n >= 3,
            from <= i,
            i <= n - 2,
            forall|j: int| from <= j < i ==> !#[trigger] sc3_at(buf@, j),
        decreases n - i,
    {
        if buf[i] == 0 && buf[i + 1] == 0 && buf[i + 2] == 1 {
            return Some(i);
        }
        i = i + 1;
    }
    None
}

impl AnnexBSplitter {
    /// The bytes received and not yet handed out as a unit.
    pub closed spec fn buffered(&self) -> Seq<u8> {
        self.buffer@
    }

    /// How many bytes the buffer was sized for when the splitter was made.
    pub closed spec fn capacity(&self) -> usize {
        self.capacity
    }

    /// An empty splitter whose buffer first reserves `capacity` bytes.
    pub fn new(capacity: usize) -> (s: AnnexBSplitter)
        ensures
            s.buffered() == Seq::<u8>::empty(),
            s.capacity() == capacity,
    {
        AnnexBSplitter { buffer: Vec::with_capacity(capacity), capacity }
    }

    /// Appends bytes read from the stream.
    pub fn feed(&mut self, data: &[u8])
        ensures
            final(self).buffered() == old(self).buffered() + data@,
            final(self).capacity() == old(self).capacity(),
    {
        let ghost start = self.buffer@;
        let mut k: usize = 0;
        while k < data.len()
            invariant
                k <= data@.len(),
                self.buffer@ == start + data@.subrange(0, k as int),
                self.capacity == old(self).capacity,
            decreases data@.len() - k,
        {
            self.buffer.push(data[k]);
            k = k + 1;
            assert(self.buffer@ =~= start + data@.subrange(0, k as int));
        }
        assert(data@.subrange(0, data@.len() as int) =~= data@);
    }

    /// Drops everything buffered, for a new stream.
    pub fn reset(&mut self)
        ensures
            final(self).buffered() == Seq::<u8>::empty(),
            final(self).capacity() == old(self).capacity(),
    {
        self.buffer.clear();
    }

    /// Hands out the first complete unit, if there is one. `at_end` tells
    /// that the stream has ended, so that the last unit is complete too.
    pub fn next(&mut self, at_end: bool) -> (r: Option<AnnexBUnit>)
        ensures
            final(self).buffered() == after_split(old(self).buffered(), at_end),
            match next_unit(old(self).buffered(), at_end) {
                None => r is None,
                Some(u) => r matches Some(unit) && unit.describes(
                    old(self).buffered().subrange(u.0, u.2),
                    u.1 - u.0,
                ),
            },
    {
        let ghost s = self.buffer@;
        let n = self.buffer.len();
        let first = find_start_code(&self.buffer, 0);
        match first {
            None => {
                proof {
                    lemma_first_sc3_none(s, 0);
                    assert(first_sc3(s, 0) == -1);
                    assert(next_unit(s, at_end) is None);
                }
                if at_end {
                    self.buffer.clear();
                }
                None
            },
            Some(i) => {
                proof {
                    lemma_first_sc3_unique(s, 0, i as int);
                }
                let ps = i + 3;
                let second = find_start_code(&self.buffer, ps);
                let pe = match second {
                    Some(j) => {
                        proof {
                            lemma_first_sc3_unique(s, ps as int, j as int);
                        }
                        if j - 1 >= ps && self.buffer[j - 1] == 0 {
                            j - 1
                        } else {
                            j
                        }
                    },
                    None => {
                        proof {
                            lemma_first_sc3_none(s, ps as int);
                        }
                        if at_end {
                            n
                        } else {
                            return None;
                        }
                    },
                };
                let cs = if i >= 1 && self.buffer[i - 1] == 0 {
                    i - 1
                } else {
                    i
                };
                proof {
                    lemma_next_unit_bounds(s, at_end);
                }
                let rest = self.buffer.split_off(pe);
                let mut head = rest;
                core::mem::swap(&mut head, &mut self.buffer);
                let full = head.split_off(cs);
                let code_len = ps - cs;
                let start_code = if code_len == 4 {
                    StartCode::FourBytes
                } else {
                    StartCode::ThreeBytes
                };
                let payload_end = pe - cs;
                let unit = AnnexBUnit {
                    full,
                    start_code,
                    start_code_range: Range { start: 0, end: code_len },
                    payload_range: Range { start: code_len, end: payload_end },
                };
                proof {
                    let u = next_unit(s, at_end)->0;
                    assert(u == (cs as int, ps as int, pe as int));
                    assert(unit.full@ =~= s.subrange(u.0, u.2));
                    assert(unit.describes(s.subrange(u.0, u.2), u.1 - u.0));
                }
                Some(unit)
            },
        }
    }
}

} // verus!
