//! The transform pipeline and directory behaviors that cross several calls.

use repak::checksum::ChecksumKind;
use repak::index::{IndexEntry, IndexHeader};
use repak::io::{Deser, Ser};
use repak::{AppendOptions, Error, create, open};

fn hex(bytes: &[u8]) -> String {
    bytes.iter().map(|b| format!("{:02x}", b)).collect()
}

#[test]
fn sha3_digest_matches_reference_vector() {
    // SHA3-512 of the 100 bytes 0x00..0x63, pinned so that the digest
    // stage cannot silently degrade into something else
    let data: Vec<u8> = (0u8..100).collect();
    let mut eng = create("a.pak").unwrap();
    let options = AppendOptions {
        checksum: Some(ChecksumKind::SHA3),
        compression: None,
        encryption: None,
    };
    eng.append(String::from("d"), data, options).unwrap();
    let bytes = eng.save(&Vec::new()).unwrap();

    // the digest sits in the re-parsed directory
    let l = repak::varint::parse_locator(&bytes[bytes.len() - 10..]).unwrap();
    let mut pos = bytes.len() - l as usize;
    let index = IndexHeader::deser(&bytes, &mut pos).unwrap();
    let digest = &index.entries[0].checksum.as_ref().unwrap().checksums[0].payload;
    assert_eq!(digest.len(), 64);
    assert_eq!(
        hex(digest),
        "6286a3e2a02236f45739be74f1d1d83cc55c7dca0018f852ac52b5f5ed9b3d17\
         28fa4eb2087e87f16fbbdd64abef783f1953f20d06cf271b8f2fce2a3beb76ff"
    );
}

#[test]
fn non_ascii_names_roundtrip() {
    let mut eng = create("a.pak").unwrap();
    eng.append(String::from("héllo/wörld"), vec![1], AppendOptions::default()).unwrap();
    let bytes = eng.save(&Vec::new()).unwrap();
    let eng2 = open("a.pak", Some(&bytes), None).unwrap();
    let entry = eng2.lookup(String::from("héllo/wörld")).unwrap().unwrap();
    assert_eq!(entry.name(), "héllo/wörld");
    assert!(eng2.lookup(String::from("hello/world")).unwrap().is_none());
}

#[test]
fn names_are_stored_in_byte_order() {
    let mut eng = create("a.pak").unwrap();
    eng.append(String::from("zeta"), vec![1], AppendOptions::default()).unwrap();
    eng.append(String::from("alpha"), vec![2], AppendOptions::default()).unwrap();
    eng.append(String::from("mid"), vec![3], AppendOptions::default()).unwrap();
    let bytes = eng.save(&Vec::new()).unwrap();
    let l = repak::varint::parse_locator(&bytes[bytes.len() - 10..]).unwrap();
    let mut pos = bytes.len() - l as usize;
    let index = IndexHeader::deser(&bytes, &mut pos).unwrap();
    let names: Vec<&str> = index.entries.iter().map(|e| e.name.as_str()).collect();
    assert_eq!(names, vec!["alpha", "mid", "zeta"]);
    // offsets still reflect append order
    assert_eq!(index.entries[0].offset, 1);
    assert_eq!(index.entries[1].offset, 2);
    assert_eq!(index.entries[2].offset, 0);
}

#[test]
fn open_keeps_last_duplicate_like_a_map() {
    // a hand-built directory with two entries under one name: inserting in
    // file order, the later one replaces the earlier one
    let h = IndexHeader {
        count: 2,
        entries: vec![
            IndexEntry {
                offset: 0,
                size: 1,
                name: String::from("dup"),
                encryption: None,
                compression: None,
                checksum: None,
            },
            IndexEntry {
                offset: 7,
                size: 2,
                name: String::from("dup"),
                encryption: None,
                compression: None,
                checksum: None,
            },
        ],
        checksum: repak::checksum::ChecksumHeader::default(),
    };
    let mut sidecar = Vec::new();
    h.ser(&mut sidecar);
    let eng = open("a.pak", Some(&Vec::new()), Some(&sidecar)).unwrap();
    let entry = eng.lookup(String::from("dup")).unwrap().unwrap();
    assert_eq!(entry.offset(), 7);
    assert_eq!(entry.size(), 2);
}

#[test]
fn empty_archive_roundtrip() {
    let eng = create("a.pak").unwrap();
    let bytes = eng.save(&Vec::new()).unwrap();
    // magic, version, reserved, zero count, one locator byte
    assert_eq!(&bytes[0..5], b"REPAK");
    assert_eq!(bytes.len(), 10);
    let eng2 = open("a.pak", Some(&bytes), None).unwrap();
    assert!(eng2.lookup(String::from("anything")).unwrap().is_none());
    assert_eq!(eng2.save(&bytes).unwrap(), bytes);
}

#[test]
fn incompressible_deflate_falls_back_to_stored() {
    // deflate output for a tiny distinct-byte payload is longer than the
    // payload; the entry must fall back to raw storage so that the next
    // payload's reserved range stays untouched
    let first = vec![1u8, 2, 3, 4, 5, 6, 7, 8];
    let second = vec![0xAAu8; 4];
    let mut eng = create("a.pak").unwrap();
    let options = AppendOptions {
        checksum: None,
        compression: Some(repak::CompressionAlgorithm::Deflate),
        encryption: None,
    };
    eng.append(String::from("small"), first.clone(), options).unwrap();
    eng.append(String::from("next"), second.clone(), AppendOptions::default()).unwrap();
    let bytes = eng.save(&Vec::new()).unwrap();
    // the raw payloads sit intact in their reserved ranges
    assert_eq!(&bytes[0..8], &first[..]);
    assert_eq!(&bytes[8..12], &second[..]);

    let eng2 = open("a.pak", Some(&bytes), None).unwrap();
    let small = eng2.lookup(String::from("small")).unwrap().unwrap();
    assert_eq!(small.read_payload(&bytes).unwrap(), first);
    let next = eng2.lookup(String::from("next")).unwrap().unwrap();
    assert_eq!(next.read_payload(&bytes).unwrap(), second);

    // the directory records the fallback
    let l = repak::varint::parse_locator(&bytes[bytes.len() - 10..]).unwrap();
    let mut pos = bytes.len() - l as usize;
    let index = IndexHeader::deser(&bytes, &mut pos).unwrap();
    let entry = index.entries.iter().find(|e| e.name == "small").unwrap();
    assert_eq!(
        entry.compression.as_ref().unwrap().algorithm,
        repak::CompressionAlgorithm::Stored
    );
}

#[test]
fn payload_size_mismatch_is_deser() {
    // a deflate entry whose recorded size disagrees with what inflates
    let data = b"xyxyxyxyxyxyxyxy".to_vec();
    let mut eng = create("a.pak").unwrap();
    let options = AppendOptions {
        checksum: None,
        compression: Some(repak::CompressionAlgorithm::Deflate),
        encryption: None,
    };
    eng.append(String::from("p"), data, options).unwrap();
    let bytes = eng.save(&Vec::new()).unwrap();
    // rewrite the directory with a wrong size field
    let l = repak::varint::parse_locator(&bytes[bytes.len() - 10..]).unwrap();
    let mut pos = bytes.len() - l as usize;
    let payload_region = bytes[..pos].to_vec();
    let mut index = IndexHeader::deser(&bytes, &mut pos).unwrap();
    index.entries[0].size = 3;
    let mut tampered = payload_region;
    let index_start = tampered.len();
    index.ser(&mut tampered);
    let locator = repak::varint::make_index_locator((tampered.len() - index_start) as u64);
    tampered.extend_from_slice(&locator);

    let eng2 = open("a.pak", Some(&tampered), None).unwrap();
    let entry = eng2.lookup(String::from("p")).unwrap().unwrap();
    match entry.read_payload(&tampered) {
        Err(Error::Deser(m)) => assert_eq!(m, "Payload size mismatch"),
        other => panic!("expected Deser, got {:?}", other),
    }
}
