//! The index locator: reverse-encoded LEB128 boundary cases and round trips.

use repak::varint::{leb128_usize, make_index_locator, parse_locator, read_uleb, write_uleb};
use std::io::Cursor;

fn prep(offset: u64) -> (Vec<u8>, u64) {
    let mut buf = make_index_locator(offset);
    buf.reverse();
    let check = leb128::read::unsigned(&mut Cursor::new(&buf)).unwrap();
    buf.reverse();
    (buf, check)
}

// 127 - 1b
// 127+1 - 2b
// 127+2 - 2b
// So the end offset is 129 (127 index size + 2 locator size)
#[test]
fn locator_edgecase_1() {
    let (buf, check) = prep(127);
    assert_eq!(buf, vec![0x01, 0x81]);
    assert_eq!(check, 129);
}

// 2-octet VLQ (0xFF7F) is 0b_11_1111_1111_1111 = 0x3FFF = 16383
// 16383 - 2b
// 16383+2 - 3b
// 16383+3 - 3b
// So the end offset is 16386 (16383 index size + 3 locator size)
#[test]
fn locator_edgecase_2() {
    let (buf, check) = prep(16383);
    assert_eq!(buf, vec![0x01, 0x80, 0x82]);
    assert_eq!(check, 16386);
}

// 3-octet VLQ (0xFF_FF_7F) is 0b_1_1111_1111_1111_1111_1111 = 0x1FFFFF = 2097151
// 2097151 - 3b
// 2097151+3 - 4b
// 2097151+4 - 4b
// So the end offset is 2097155 (2097151 index size + 4 locator size)
#[test]
fn locator_edgecase_3() {
    let (buf, check) = prep(2097151);
    assert_eq!(buf, vec![0x01, 0x80, 0x80, 0x83]);
    assert_eq!(check, 2097155);
}

#[test]
fn locator_parses_from_padded_tail() {
    // the locator sits at the end of a longer tail, as in a real archive
    for offset in [0u64, 1, 9, 127, 128, 16383, 2097151] {
        let loc = make_index_locator(offset);
        let mut tail = vec![0xAAu8; 10 - loc.len()];
        tail.extend_from_slice(&loc);
        let l = parse_locator(&tail).unwrap();
        let mut fwd = loc.clone();
        fwd.reverse();
        let direct = leb128::read::unsigned(&mut Cursor::new(&fwd)).unwrap();
        assert_eq!(l, direct);
    }
}

#[test]
fn uleb_roundtrip_matches_reference() {
    for v in [0u64, 1, 127, 128, 300, 16383, 16384, u64::MAX] {
        let mut ours = Vec::new();
        write_uleb(&mut ours, v);
        let mut theirs = Vec::new();
        leb128::write::unsigned(&mut theirs, v).unwrap();
        assert_eq!(ours, theirs);
        assert_eq!(ours.len(), leb128_usize(v));
        let mut pos = 0usize;
        assert_eq!(read_uleb(&ours, &mut pos).unwrap(), v);
        assert_eq!(pos, ours.len());
    }
}

#[test]
fn uleb_read_rejects_malformed() {
    // unterminated
    let mut pos = 0usize;
    assert!(matches!(read_uleb(&[0x80, 0x80], &mut pos), Err(repak::Error::Leb128)));
    // too wide for 64 bits: eleven continuation bytes
    let mut pos = 0usize;
    let wide = [0x80u8, 0x80, 0x80, 0x80, 0x80, 0x80, 0x80, 0x80, 0x80, 0x80, 0x01];
    assert!(matches!(read_uleb(&wide, &mut pos), Err(repak::Error::Leb128)));
    // empty
    let mut pos = 0usize;
    assert!(matches!(read_uleb(&[], &mut pos), Err(repak::Error::Leb128)));
}
