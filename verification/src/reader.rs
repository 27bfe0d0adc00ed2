use vstd::prelude::*;
use core::ops::Range;

use crate::annexb::{
    after_split, first_sc3, is_first_sc3, lemma_first_sc3_found, lemma_first_sc3_none,
    lemma_first_sc3_unique, lemma_next_unit_bounds, next_unit, sc3_at, split_all, AnnexBSplitter,
    StartCode,
};
use crate::h264::{header_of, lemma_header_bits, NalHeader, NalUnitType};

verus! {

/// The payload of a unit is empty, or its header marks supplemental
/// enhancement information: the reader passes over such units.
pub open spec fn skipped(s: Seq<u8>, u: (int, int, int)) -> bool {
    u.1 >= u.2 || header_of(s[u.1]).nal_unit_type == NalUnitType::Sei
}

/// One read of the reader from the buffered bytes `s`: the first unit that
/// is not skipped, as its bytes and the length of its start code, and the
/// bytes left buffered after it.
pub open spec fn nal_step(s: Seq<u8>, at_end: bool) -> (Option<(Seq<u8>, int)>, Seq<u8>)
    decreases s.len(),
{
    match next_unit(s, at_end) {
        None => (None, after_split(s, at_end)),
        Some(u) => if 0 < u.2 <= s.len() {
            if skipped(s, u) {
                nal_step(s.skip(u.2), at_end)
            } else {
                (Some((s.subrange(u.0, u.2), u.1 - u.0)), s.skip(u.2))
            }
        } else {
            (None, s)
        },
    }
}

/// One NAL unit with its start code and header. The ranges index into
/// `full`.
pub struct Nal {
    pub payload_range: Range<usize>,
    pub header: NalHeader,
    pub header_range: Range<usize>,
    pub start_code: StartCode,
    pub start_code_range: Range<usize>,
    pub full: Vec<u8>,
}

impl Nal {
    /// The unit holds exactly `bytes`, its start code takes `code_len`
    /// bytes, one header byte follows, then the payload to the end.
    pub open spec fn describes(&self, bytes: Seq<u8>, code_len: int) -> bool {
        &&& self.full@ == bytes
        &&& (code_len == 3 || code_len == 4)
        &&& code_len < bytes.len()
        &&& self.start_code_range.start == 0
        &&& self.start_code_range.end == code_len
        &&& self.header_range.start == code_len
        &&& self.header_range.end == code_len + 1
        &&& self.payload_range.start == code_len + 1
        &&& self.payload_range.end == bytes.len()
        &&& self.header == header_of(bytes[code_len])
        &&& (self.start_code == StartCode::FourBytes <==> code_len == 4)
    }
}

/// Reads H.264 NAL units out of an Annex B byte stream, passing over
/// supplemental enhancement information.
pub struct H264Reader {
    annex_b: AnnexBSplitter,
    frame_count: usize,
}

impl H264Reader {
    /// The bytes received and not yet handed out.
    pub closed spec fn buffered(&self) -> Seq<u8> {
        self.annex_b.buffered()
    }

    /// How many bytes the buffer was sized for when the reader was made.
    pub closed spec fn capacity(&self) -> usize {
        self.annex_b.capacity()
    }

    /// A reader with nothing buffered, whose buffer first reserves
    /// `capacity` bytes.
    pub fn new(capacity: usize) -> (r: H264Reader)
        ensures
            r.buffered() == Seq::<u8>::empty(),
            r.capacity() == capacity,
    {
        H264Reader { annex_b: AnnexBSplitter::new(capacity), frame_count: 0 }
    }

    /// Appends bytes read from the stream.
    pub fn feed(&mut self, data: &[u8])
        ensures
            final(self).buffered() == old(self).buffered() + data@,
            final(self).capacity() == old(self).capacity(),
    {
        self.annex_b.feed(data);
    }

    /// Forgets what was buffered, to read a new stream.
    pub fn reset(&mut self)
        ensures
            final(self).buffered() == Seq::<u8>::empty(),
            final(self).capacity() == old(self).capacity(),
    {
        self.annex_b.reset();
    }

    /// The next NAL unit that is not supplemental enhancement information,
    /// once it is complete; `at_end` tells that the stream has ended.
    pub fn next_nal(&mut self, at_end: bool) -> (r: Option<Nal>)
        ensures
            final(self).buffered() == nal_step(old(self).buffered(), at_end).1,
            match nal_step(old(self).buffered(), at_end).0 {
                None => r is None,
                Some(found) => r matches Some(nal) && nal.describes(found.0, found.1),
            },
            r matches Some(nal) ==> nal.header.nal_unit_type != NalUnitType::Sei,
    {
        let ghost start = self.annex_b.buffered();
        loop
            invariant
                start == old(self).annex_b.buffered(),
                nal_step(self.annex_b.buffered(), at_end) == nal_step(start, at_end),
            decreases self.annex_b.buffered().len(),
        {
            let ghost s = self.annex_b.buffered();
            let unit = self.annex_b.next(at_end);
            match unit {
                None => {
                    return None;
                },
                Some(unit) => {
                    let ghost u = next_unit(s, at_end)->0;
                    proof {
                        lemma_next_unit_bounds(s, at_end);
                    }
                    if unit.payload_range.start < unit.payload_range.end {
                        let at = unit.payload_range.start;
                        let header = NalHeader::parse([unit.full[at]]);
                        proof {
                            assert(unit.full@[at as int] == s[u.1]);
                            assert(0 < u.2 <= s.len());
                        }
                        if !header.nal_unit_type.is_sei() {
                            let code_len = unit.payload_range.start;
                            let end = unit.payload_range.end;
                            let nal = Nal {
                                payload_range: Range { start: code_len + 1, end },
                                header,
                                header_range: Range { start: code_len, end: code_len + 1 },
                                start_code: unit.start_code,
                                start_code_range: unit.start_code_range,
                                full: unit.full,
                            };
                            proof {
                                assert(!skipped(s, u));
                                assert(nal_step(s, at_end) == (
                                    Some((s.subrange(u.0, u.2), u.1 - u.0)),
                                    s.skip(u.2),
                                ));
                            }
                            return Some(nal);
                        }
                    }
                },
            }
        }
    }
}

/// The four-byte start code `00 00 00 01`.
pub open spec fn four_byte_code() -> Seq<u8> {
    seq![0u8, 0u8, 0u8, 1u8]
}

/// A NAL unit that can stand in an Annex B stream as it is: it has a header
/// byte, holds no start code and does not end in a zero byte.
pub open spec fn well_framed(nal: Seq<u8>) -> bool {
    &&& nal.len() >= 1
    &&& nal.last() != 0
    &&& forall|j: int| !#[trigger] sc3_at(nal, j)
}

/// The Annex B stream that puts a four-byte start code in front of each unit.
pub open spec fn encode_stream(nals: Seq<Seq<u8>>) -> Seq<u8>
    decreases nals.len(),
{
    if nals.len() == 0 {
        Seq::empty()
    } else {
        four_byte_code() + nals[0] + encode_stream(nals.drop_first())
    }
}

/// The index of the first unit that is not supplemental enhancement
/// information.
pub open spec fn first_visible(nals: Seq<Seq<u8>>) -> Option<int>
    decreases nals.len(),
{
    if nals.len() == 0 {
        None
    } else if header_of(nals[0][0]).nal_unit_type != NalUnitType::Sei {
        Some(0)
    } else {
        match first_visible(nals.drop_first()) {
            Some(k) => Some(k + 1),
            None => None,
        }
    }
}

pub proof fn lemma_first_visible_bounds(nals: Seq<Seq<u8>>)
    ensures
        first_visible(nals) matches Some(k) ==> 0 <= k < nals.len()
            && header_of(nals[k][0]).nal_unit_type != NalUnitType::Sei,
    decreases nals.len(),
{
    if nals.len() > 0 {
        lemma_first_visible_bounds(nals.drop_first());
    }
}

/// A well-framed unit behind a four-byte start code is split off whole,
/// whether the next unit's four-byte start code follows it or the stream
/// ends after it.
pub proof fn lemma_split_framed(nal: Seq<u8>, rest: Seq<u8>, at_end: bool)
    requires
        well_framed(nal),
        (rest.len() == 0 && at_end) || (rest.len() >= 4 && rest.subrange(0, 4)
            == four_byte_code()),
    ensures
        next_unit(four_byte_code() + nal + rest, at_end) == Some(
            (0int, 4int, 4 + nal.len() as int),
        ),
{
    let s = four_byte_code() + nal + rest;
    let l: int = 4 + nal.len() as int;
    assert(s[0] == 0 && s[1] == 0 && s[2] == 0 && s[3] == 1);
    assert(sc3_at(s, 1));
    assert(!sc3_at(s, 0));
    assert(is_first_sc3(s, 0, 1));
    lemma_first_sc3_unique(s, 0, 1);
    assert forall|j: int| 4 <= j < l + 1 implies !#[trigger] sc3_at(s, j) by {
        if sc3_at(s, j) {
            if j + 3 <= l {
                assert(s[j] == nal[j - 4] && s[j + 1] == nal[j - 3] && s[j + 2] == nal[j - 2]);
                assert(sc3_at(nal, j - 4));
            } else if j == l - 2 {
                assert(s[j + 1] == nal.last());
            } else if j == l - 1 {
                assert(s[j] == nal.last());
            } else {
                assert(j == l);
                assert(s[l] == rest[0] && s[l + 2] == rest[2]);
                assert(rest.subrange(0, 4)[2] == 0);
            }
        }
    }
    if rest.len() == 0 {
        assert(s.len() == l);
        assert forall|j: int| 4 <= j implies !#[trigger] sc3_at(s, j) by {
            if j >= l + 1 {
                assert(j + 3 > s.len());
            }
        }
        lemma_first_sc3_none(s, 4);
    } else {
        assert(rest.subrange(0, 4)[1] == rest[1]);
        assert(rest.subrange(0, 4)[2] == rest[2]);
        assert(rest.subrange(0, 4)[3] == rest[3]);
        assert(rest.subrange(0, 4)[0] == rest[0]);
        assert(s[l] == rest[0] && s[l + 1] == rest[1] && s[l + 2] == rest[2] && s[l + 3]
            == rest[3]);
        assert(sc3_at(s, l + 1));
        assert(is_first_sc3(s, 4, l + 1));
        lemma_first_sc3_unique(s, 4, l + 1);
        assert(s[l] == 0);
    }
}

pub proof fn lemma_encode_stream_head(nals: Seq<Seq<u8>>)
    requires
        nals.len() >= 1,
    ensures
        encode_stream(nals) == four_byte_code() + nals[0] + encode_stream(nals.drop_first()),
        nals.len() >= 2 ==> encode_stream(nals.drop_first()).len() >= 4
            && encode_stream(nals.drop_first()).subrange(0, 4) == four_byte_code(),
{
    if nals.len() >= 2 {
        let tail = nals.drop_first();
        let e = four_byte_code() + tail[0] + encode_stream(tail.drop_first());
        assert(encode_stream(tail) == e);
        assert(e.subrange(0, 4) =~= four_byte_code());
    }
}

/// Reading a stream of well-framed units to its end gives back the first
/// unit that is not supplemental enhancement information, behind its
/// four-byte start code, and leaves the stream of the units after it.
pub proof fn lemma_read_framed(nals: Seq<Seq<u8>>)
    requires
        forall|i: int| 0 <= i < nals.len() ==> well_framed(#[trigger] nals[i]),
    ensures
        nal_step(encode_stream(nals), true) == match first_visible(nals) {
            None => (None::<(Seq<u8>, int)>, Seq::<u8>::empty()),
            Some(k) => (
                Some((four_byte_code() + nals[k], 4int)),
                encode_stream(nals.skip(k + 1)),
            ),
        },
    decreases nals.len(),
{
    let s = encode_stream(nals);
    if nals.len() == 0 {
        assert forall|j: int| 0 <= j implies !#[trigger] sc3_at(s, j) by {}
        lemma_first_sc3_none(s, 0);
    } else {
        let p = nals[0];
        let tail = nals.drop_first();
        let rest = encode_stream(tail);
        lemma_encode_stream_head(nals);
        assert(well_framed(p));
        lemma_split_framed(p, rest, true);
        let l: int = 4 + p.len() as int;
        assert(s.skip(l) =~= rest);
        assert(s[4] == p[0]);
        assert(s.subrange(0, l) =~= four_byte_code() + p);
        if header_of(p[0]).nal_unit_type != NalUnitType::Sei {
            assert(nals.skip(1) =~= tail);
        } else {
            assert forall|i: int| 0 <= i < tail.len() implies well_framed(#[trigger] tail[i]) by {
                assert(tail[i] == nals[i + 1]);
            }
            lemma_read_framed(tail);
            lemma_first_visible_bounds(tail);
            match first_visible(tail) {
                Some(k) => {
                    assert(tail[k] == nals[k + 1]);
                    assert(tail.skip(k + 1) =~= nals.skip(k + 2));
                },
                None => {},
            }
        }
    }
}

/// Bytes that arrive after a unit is complete do not change where it lies.
proof fn lemma_next_unit_extend(s: Seq<u8>, t: Seq<u8>, at_end: bool)
    requires
        next_unit(s, false) is Some,
    ensures
        next_unit(s + t, at_end) == next_unit(s, false),
{
    let st = s + t;
    lemma_first_sc3_found(s, 0);
    let i = first_sc3(s, 0);
    let j = first_sc3(s, i + 3);
    lemma_first_sc3_found(s, i + 3);
    assert forall|p: int| p + 3 <= s.len() implies #[trigger] sc3_at(st, p) == sc3_at(s, p) by {
        if 0 <= p {
            assert(st[p] == s[p] && st[p + 1] == s[p + 1] && st[p + 2] == s[p + 2]);
        }
    }
    assert(sc3_at(st, i));
    assert forall|p: int| 0 <= p < i implies !#[trigger] sc3_at(st, p) by {
        assert(!sc3_at(s, p));
    }
    assert(is_first_sc3(st, 0, i));
    lemma_first_sc3_unique(st, 0, i);
    assert(sc3_at(st, j));
    assert forall|p: int| i + 3 <= p < j implies !#[trigger] sc3_at(st, p) by {
        assert(!sc3_at(s, p));
    }
    assert(is_first_sc3(st, i + 3, j));
    lemma_first_sc3_unique(st, i + 3, j);
    if i >= 1 {
        assert(st[i - 1] == s[i - 1]);
    }
    assert(st[j - 1] == s[j - 1]);
}

/// Reading does not depend on how the stream was cut into pieces: a unit
/// that is complete in what has arrived is the unit that more bytes give,
/// with those bytes left behind it; and when none is complete yet, the
/// units passed over so far are the ones reading all the bytes would pass
/// over.
pub proof fn lemma_read_extend(s: Seq<u8>, t: Seq<u8>, at_end: bool)
    ensures
        nal_step(s, false).0 is Some ==> nal_step(s + t, at_end) == (
            nal_step(s, false).0,
            nal_step(s, false).1 + t,
        ),
        nal_step(s, false).0 is None ==> nal_step(s + t, at_end) == nal_step(
            nal_step(s, false).1 + t,
            at_end,
        ),
    decreases s.len(),
{
    match next_unit(s, false) {
        None => {},
        Some(u) => {
            let st = s + t;
            lemma_next_unit_extend(s, t, at_end);
            lemma_next_unit_bounds(s, false);
            assert(st.skip(u.2) =~= s.skip(u.2) + t);
            if u.1 < u.2 {
                assert(st[u.1] == s[u.1]);
            }
            if skipped(s, u) {
                lemma_read_extend(s.skip(u.2), t, at_end);
            } else {
                assert(st.subrange(u.0, u.2) =~= s.subrange(u.0, u.2));
            }
        },
    }
}

/// A unit, as its bytes and the length of its start code, that the reader
/// hands out: it has a header byte, and the header is not supplemental
/// enhancement information.
pub open spec fn visible(x: (Seq<u8>, int)) -> bool {
    &&& x.1 < x.0.len()
    &&& header_of(x.0[x.1]).nal_unit_type != NalUnitType::Sei
}

/// The units of `xs` that the reader hands out, in order.
pub open spec fn visible_units(xs: Seq<(Seq<u8>, int)>) -> Seq<(Seq<u8>, int)>
    decreases xs.len(),
{
    if xs.len() == 0 {
        Seq::empty()
    } else if visible(xs[0]) {
        seq![xs[0]] + visible_units(xs.drop_first())
    } else {
        visible_units(xs.drop_first())
    }
}

/// Reading to the end of the stream, call after call, hands out exactly
/// the units the splitter hands out, less those without a header byte and
/// those that are supplemental enhancement information, in the same order:
/// each call gives the next of them and leaves the bytes holding the rest,
/// and once there is none, nothing is left buffered.
pub proof fn lemma_read_step(s: Seq<u8>)
    ensures
        nal_step(s, true).0 is None <==> visible_units(split_all(s)).len() == 0,
        nal_step(s, true).0 is None ==> nal_step(s, true).1 == Seq::<u8>::empty(),
        nal_step(s, true).0 matches Some(x) ==> {
            &&& x == visible_units(split_all(s))[0]
            &&& visible_units(split_all(nal_step(s, true).1)) == visible_units(
                split_all(s),
            ).drop_first()
        },
    decreases s.len(),
{
    match next_unit(s, true) {
        None => {},
        Some(u) => {
            lemma_next_unit_bounds(s, true);
            let x = (s.subrange(u.0, u.2), u.1 - u.0);
            let rest = s.skip(u.2);
            let r = split_all(rest);
            assert(split_all(s) == seq![x] + r);
            assert((seq![x] + r)[0] == x);
            assert((seq![x] + r).drop_first() =~= r);
            if u.1 < u.2 {
                assert(x.0[x.1] == s[u.1]);
            }
            assert(skipped(s, u) == !visible(x));
            if skipped(s, u) {
                lemma_read_step(rest);
            } else {
                let v = visible_units(r);
                assert((seq![x] + v)[0] == x);
                assert((seq![x] + v).drop_first() =~= v);
            }
        },
    }
}

/// The reader passes over a unit exactly when it has no header byte or its
/// header's five-bit type code is 6 (supplemental enhancement
/// information); every other unit is handed out.
pub proof fn lemma_visible_by_code(x: (Seq<u8>, int))
    ensures
        visible(x) <==> (x.1 < x.0.len() && (x.0[x.1] & 0x1fu8) != 6),
{
    if x.1 < x.0.len() {
        lemma_header_bits(x.0[x.1]);
    }
}

} // verus!
