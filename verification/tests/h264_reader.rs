use moonlight_web::annexb::{AnnexBSplitter, StartCode};
use moonlight_web::h264::{NalHeader, NalUnitType};
use moonlight_web::reader::H264Reader;

fn payload(nal: &moonlight_web::reader::Nal) -> Vec<u8> {
    nal.full[nal.payload_range.clone()].to_vec()
}

#[test]
fn header_fields_are_split_from_the_byte() {
    let h = NalHeader::parse([0x65]);
    assert!(!h.forbidden_zero_bit);
    assert_eq!(h.nal_ref_idc, 3);
    assert_eq!(h.nal_unit_type, NalUnitType::CodedSliceIDR);

    let h = NalHeader::parse([0x41]);
    assert_eq!(h.nal_ref_idc, 2);
    assert_eq!(h.nal_unit_type, NalUnitType::CodedSliceNonIDR);

    let h = NalHeader::parse([0x67]);
    assert_eq!(h.nal_unit_type, NalUnitType::Sps);
    let h = NalHeader::parse([0x68]);
    assert_eq!(h.nal_unit_type, NalUnitType::Pps);
    let h = NalHeader::parse([0x06]);
    assert_eq!(h.nal_ref_idc, 0);
    assert_eq!(h.nal_unit_type, NalUnitType::Sei);

    let h = NalHeader::parse([0x80 | 0x11]);
    assert!(h.forbidden_zero_bit);
    assert_eq!(h.nal_unit_type, NalUnitType::Reserved(17));
    let h = NalHeader::parse([0x00]);
    assert_eq!(h.nal_unit_type, NalUnitType::Unspecified(0));
    let h = NalHeader::parse([0x1f]);
    assert_eq!(h.nal_unit_type, NalUnitType::Unspecified(31));
}

#[test]
fn reader_yields_units_in_order_and_skips_sei() {
    let mut r = H264Reader::new(64);
    // SPS, SEI, IDR slice, each behind a four-byte start code
    r.feed(&[0, 0, 0, 1, 0x67, 0xAA, 0xBB, 0, 0, 0, 1, 0x06, 0x05, 0x01, 0, 0, 0, 1, 0x65, 0x11, 0x22]);

    let sps = r.next_nal(false).expect("sps is complete");
    assert_eq!(sps.header.nal_unit_type, NalUnitType::Sps);
    assert_eq!(sps.start_code, StartCode::FourBytes);
    assert_eq!(sps.start_code_range, 0..4);
    assert_eq!(sps.header_range, 4..5);
    assert_eq!(payload(&sps), vec![0xAA, 0xBB]);
    assert_eq!(sps.full, vec![0, 0, 0, 1, 0x67, 0xAA, 0xBB]);

    // the SEI is complete and skipped, the slice is not complete yet
    assert!(r.next_nal(false).is_none());

    let idr = r.next_nal(true).expect("the stream has ended");
    assert_eq!(idr.header.nal_unit_type, NalUnitType::CodedSliceIDR);
    assert_eq!(payload(&idr), vec![0x11, 0x22]);
    assert!(r.next_nal(true).is_none());
}

#[test]
fn three_byte_start_codes_and_leading_garbage() {
    let mut r = H264Reader::new(0);
    r.feed(&[9, 9, 0, 0, 1, 0x41, 7, 0, 0, 1, 0x41, 8]);
    let a = r.next_nal(false).unwrap();
    assert_eq!(a.start_code, StartCode::ThreeBytes);
    assert_eq!(a.full, vec![0, 0, 1, 0x41, 7]);
    assert_eq!(payload(&a), vec![7]);
    assert!(r.next_nal(false).is_none());
    let b = r.next_nal(true).unwrap();
    assert_eq!(b.full, vec![0, 0, 1, 0x41, 8]);
}

#[test]
fn units_split_across_feeds() {
    let mut r = H264Reader::new(8);
    r.feed(&[0, 0, 0, 1, 0x68, 1, 2]);
    assert!(r.next_nal(false).is_none());
    r.feed(&[3, 0, 0]);
    assert!(r.next_nal(false).is_none());
    r.feed(&[0, 1, 0x65]);
    let pps = r.next_nal(false).unwrap();
    assert_eq!(pps.header.nal_unit_type, NalUnitType::Pps);
    assert_eq!(payload(&pps), vec![1, 2, 3]);
}

#[test]
fn empty_units_are_passed_over() {
    let mut r = H264Reader::new(8);
    r.feed(&[0, 0, 1, 0, 0, 1, 0x67, 5]);
    let sps = r.next_nal(true).unwrap();
    assert_eq!(sps.header.nal_unit_type, NalUnitType::Sps);
    assert_eq!(payload(&sps), vec![5]);
}

#[test]
fn garbage_without_start_code_is_dropped_at_the_end() {
    let mut r = H264Reader::new(8);
    r.feed(&[1, 2, 3, 4]);
    assert!(r.next_nal(false).is_none());
    assert!(r.next_nal(true).is_none());
    r.feed(&[0, 0, 1, 0x41, 1]);
    let n = r.next_nal(true).unwrap();
    assert_eq!(n.full, vec![0, 0, 1, 0x41, 1]);
}

#[test]
fn reset_forgets_the_buffer() {
    let mut r = H264Reader::new(8);
    r.feed(&[0, 0, 0, 1, 0x67, 1]);
    r.reset();
    assert!(r.next_nal(true).is_none());
    r.feed(&[0, 0, 0, 1, 0x68, 2]);
    assert_eq!(r.next_nal(true).unwrap().header.nal_unit_type, NalUnitType::Pps);
}

#[test]
fn framed_stream_reads_back() {
    let nals: Vec<Vec<u8>> = vec![vec![0x67, 1, 2], vec![0x06, 3], vec![0x68, 4], vec![0x65, 0, 5]];
    let mut stream = Vec::new();
    for n in &nals {
        stream.extend_from_slice(&[0, 0, 0, 1]);
        stream.extend_from_slice(n);
    }
    let mut r = H264Reader::new(stream.len());
    r.feed(&stream);
    let mut got = Vec::new();
    while let Some(n) = r.next_nal(true) {
        got.push(n.full[4..].to_vec());
    }
    assert_eq!(got, vec![nals[0].clone(), nals[2].clone(), nals[3].clone()]);
}

#[test]
fn splitter_hands_out_units_with_their_start_codes() {
    let mut s = AnnexBSplitter::new(16);
    s.feed(&[0, 0, 1, 0x09, 0xF0, 0, 0, 0, 1, 0x67]);
    let u = s.next(false).unwrap();
    assert_eq!(u.full, vec![0, 0, 1, 0x09, 0xF0]);
    assert_eq!(u.start_code, StartCode::ThreeBytes);
    assert_eq!(u.payload_range, 3..5);
    assert!(s.next(false).is_none());
    let v = s.next(true).unwrap();
    assert_eq!(v.full, vec![0, 0, 0, 1, 0x67]);
    assert_eq!(v.start_code_range, 0..4);
    s.reset();
    assert!(s.next(true).is_none());
}

#[test]
fn reading_does_not_depend_on_how_the_stream_is_cut() {
    let stream: Vec<u8> = vec![
        7, 0, 0, 0, 1, 0x67, 1, 2, 0, 0, 1, 0x06, 9, 0, 0, 0, 1, 0x68, 3, 0, 0, 1, 0x65, 4, 0, 5,
    ];
    let read_all = |chunk: usize| {
        let mut r = H264Reader::new(8);
        let mut got: Vec<Vec<u8>> = Vec::new();
        for piece in stream.chunks(chunk) {
            r.feed(piece);
            while let Some(n) = r.next_nal(false) {
                got.push(n.full.clone());
            }
        }
        while let Some(n) = r.next_nal(true) {
            got.push(n.full.clone());
        }
        got
    };
    let whole = read_all(stream.len());
    assert_eq!(
        whole,
        vec![vec![0, 0, 0, 1, 0x67, 1, 2], vec![0, 0, 0, 1, 0x68, 3], vec![0, 0, 1, 0x65, 4, 0, 5]]
    );
    for chunk in 1..stream.len() {
        assert_eq!(read_all(chunk), whole);
    }
}

#[test]
fn reader_gives_the_splitters_units_without_sei_or_empty_ones() {
    let stream: Vec<u8> = vec![
        0, 0, 1, 0x09, 0xF0, 0, 0, 1, 0, 0, 0, 1, 0x06, 7, 0, 0, 1, 0x41, 8, 0, 0, 0, 1, 0x65, 9,
    ];
    let mut s = AnnexBSplitter::new(4);
    s.feed(&stream);
    let mut expected = Vec::new();
    while let Some(u) = s.next(true) {
        let code = u.payload_range.start;
        if code < u.full.len() && u.full[code] & 0x1f != 6 {
            expected.push(u.full);
        }
    }
    let mut r = H264Reader::new(4);
    r.feed(&stream);
    let mut got = Vec::new();
    while let Some(n) = r.next_nal(true) {
        got.push(n.full);
    }
    assert_eq!(got.len(), 3);
    assert_eq!(got, expected);
}
