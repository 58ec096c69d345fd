//! The archive engine end to end: create, append, save, reopen, extract.

use repak::{AppendOptions, ChecksumKind, CompressionAlgorithm, Error, create, open};

#[test]
fn create_append_save_reopen_extract() {
    let mut eng = create("a.pak").unwrap();
    eng.append(String::from("x"), vec![0x01, 0x02, 0x03], AppendOptions::default())
        .unwrap();
    let bytes = eng.save(&Vec::new()).unwrap();
    // the engine is unchanged by a save: a second save produces the same file
    assert_eq!(eng.save(&Vec::new()).unwrap(), bytes);

    let eng2 = open("a.pak", Some(&bytes), None).unwrap();
    let entry = eng2.lookup(String::from("x")).unwrap().expect("entry must be present");
    assert_eq!(entry.offset(), 0);
    assert_eq!(entry.size(), 3);
    assert_eq!(entry.read_payload(&bytes).unwrap(), vec![0x01, 0x02, 0x03]);
}

#[test]
fn duplicate_append_fails() {
    let mut eng = create("a.pak").unwrap();
    eng.append(String::from("x"), vec![1], AppendOptions::default()).unwrap();
    match eng.append(String::from("x"), vec![2], AppendOptions::default()) {
        Err(Error::AlreadyExists(n)) => assert_eq!(n, "x"),
        other => panic!("expected AlreadyExists, got {:?}", other),
    }
}

#[test]
fn open_missing_file() {
    match open("gone.pak", None, None) {
        Err(Error::FileNotFound(p)) => assert_eq!(p, "gone.pak"),
        other => panic!("expected FileNotFound, got {:?}", other),
    }
}

/// An attached archive with no payloads: the index starts at byte zero and
/// the locator closes the file.
fn attached_archive_of_index(index_bytes: &[u8]) -> Vec<u8> {
    let mut file = index_bytes.to_vec();
    let locator = repak::varint::make_index_locator(index_bytes.len() as u64);
    file.extend_from_slice(&locator);
    file
}

#[test]
fn open_bad_magic() {
    let file = attached_archive_of_index(b"XEPAK\x01\x00\x00\x00");
    assert_ne!(&file[0..5], b"REPAK");
    match open("a.pak", Some(&file), None) {
        Err(Error::Deser(m)) => assert_eq!(m, "Not a REPAK archive"),
        other => panic!("expected Deser, got {:?}", other),
    }
}

#[test]
fn open_bad_version() {
    let file = attached_archive_of_index(b"REPAK\x02\x00\x00\x00");
    match open("a.pak", Some(&file), None) {
        Err(Error::Deser(m)) => assert_eq!(m, "Unsupported REPAK version 0x02"),
        other => panic!("expected Deser, got {:?}", other),
    }
}

#[test]
fn open_bad_reserved() {
    let file = attached_archive_of_index(b"REPAK\x01\x00\x01\x00");
    match open("a.pak", Some(&file), None) {
        Err(Error::Deser(m)) => assert_eq!(m, "Reserved field is not zero"),
        other => panic!("expected Deser, got {:?}", other),
    }
}

#[test]
fn open_sidecar_bad_magic() {
    let sidecar = b"NOPAK\x01\x00\x00\x00".to_vec();
    match open("a.pak", Some(&Vec::new()), Some(&sidecar)) {
        Err(Error::Deser(m)) => assert_eq!(m, "Not a REPAK archive"),
        other => panic!("expected Deser, got {:?}", other),
    }
}

#[test]
fn open_sidecar_directory() {
    // save always writes an attached archive; the index alone is a sidecar
    let mut eng = create("a.pak").unwrap();
    eng.append(String::from("n"), vec![9, 9], AppendOptions::default()).unwrap();
    let bytes = eng.save(&Vec::new()).unwrap();
    // the locator says how far from the end the index starts; its own
    // bytes are the forward encoding's length
    let l = repak::varint::parse_locator(&bytes[bytes.len() - 10..]).unwrap();
    let locator_len = repak::varint::leb128_usize(l);
    let sidecar = bytes[bytes.len() - l as usize..bytes.len() - locator_len].to_vec();
    let eng2 = open("a.pak", Some(&bytes), Some(&sidecar)).unwrap();
    let entry = eng2.lookup(String::from("n")).unwrap().expect("entry must be present");
    assert_eq!(entry.size(), 2);
}

#[test]
fn open_too_short_is_io() {
    let file = vec![0u8; 9];
    assert!(matches!(open("a.pak", Some(&file), None), Err(Error::Io(_))));
}

#[test]
fn open_malformed_locator_is_leb128() {
    // reversed tail decodes from a continuation byte with no terminator
    let file = vec![0x80u8; 16];
    assert!(matches!(open("a.pak", Some(&file), None), Err(Error::Leb128)));
}

#[test]
fn open_huge_locator_is_offset_too_large() {
    // locator value 2^63: ten forward bytes, written reversed
    let mut fwd = Vec::new();
    leb128::write::unsigned(&mut fwd, 1u64 << 63).unwrap();
    fwd.reverse();
    let mut file = vec![0u8; 16];
    let n = file.len();
    file[n - fwd.len()..].copy_from_slice(&fwd);
    assert!(matches!(
        open("a.pak", Some(&file), None),
        Err(Error::OffsetTooLarge)
    ));
}

#[test]
fn open_locator_past_start_is_io() {
    // locator value 1000 in a 16-byte file
    let mut fwd = Vec::new();
    leb128::write::unsigned(&mut fwd, 1000u64).unwrap();
    fwd.reverse();
    let mut file = vec![0u8; 16];
    let n = file.len();
    file[n - fwd.len()..].copy_from_slice(&fwd);
    assert!(matches!(open("a.pak", Some(&file), None), Err(Error::Io(_))));
}

#[test]
fn save_after_open_is_byte_identical() {
    let mut eng = create("a.pak").unwrap();
    eng.append(String::from("beta"), vec![1, 2, 3, 4], AppendOptions::default()).unwrap();
    eng.append(String::from("alpha"), vec![5, 6], AppendOptions::default()).unwrap();
    let bytes = eng.save(&Vec::new()).unwrap();
    let eng2 = open("a.pak", Some(&bytes), None).unwrap();
    let bytes2 = eng2.save(&bytes).unwrap();
    assert_eq!(bytes, bytes2);
}

#[test]
fn append_after_open_preserves_old_payloads() {
    let mut eng = create("a.pak").unwrap();
    eng.append(String::from("one"), vec![11, 22], AppendOptions::default()).unwrap();
    let bytes = eng.save(&Vec::new()).unwrap();

    let mut eng2 = open("a.pak", Some(&bytes), None).unwrap();
    eng2.append(String::from("two"), vec![33], AppendOptions::default()).unwrap();
    let bytes2 = eng2.save(&bytes).unwrap();

    let eng3 = open("a.pak", Some(&bytes2), None).unwrap();
    let one = eng3.lookup(String::from("one")).unwrap().unwrap();
    assert_eq!(one.read_payload(&bytes2).unwrap(), vec![11, 22]);
    let two = eng3.lookup(String::from("two")).unwrap().unwrap();
    assert_eq!(two.offset(), 2);
    assert_eq!(two.read_payload(&bytes2).unwrap(), vec![33]);
}

#[test]
fn lookup_absent_name_is_none() {
    let mut eng = create("a.pak").unwrap();
    eng.append(String::from("x"), vec![1], AppendOptions::default()).unwrap();
    assert!(eng.lookup(String::from("y")).unwrap().is_none());
    assert!(eng.lookup(String::from("x")).unwrap().is_some());
}

#[test]
fn checksum_detects_corruption() {
    let data: Vec<u8> = (0u8..100).collect();
    let mut eng = create("a.pak").unwrap();
    let options = AppendOptions {
        checksum: Some(ChecksumKind::SHA3),
        compression: None,
        encryption: None,
    };
    eng.append(String::from("payload"), data.clone(), options).unwrap();
    let bytes = eng.save(&Vec::new()).unwrap();

    let eng2 = open("a.pak", Some(&bytes), None).unwrap();
    let entry = eng2.lookup(String::from("payload")).unwrap().unwrap();
    assert_eq!(entry.read_payload(&bytes).unwrap(), data);

    let mut corrupt = bytes.clone();
    corrupt[10] ^= 0xFF;
    // the directory is untouched, only a payload byte changed
    let eng3 = open("a.pak", Some(&corrupt), None).unwrap();
    let entry = eng3.lookup(String::from("payload")).unwrap().unwrap();
    match entry.read_payload(&corrupt) {
        Err(Error::Deser(m)) => assert_eq!(m, "Checksum mismatch"),
        other => panic!("expected a checksum mismatch, got {:?}", other),
    }
}

#[test]
fn deflate_payload_roundtrip() {
    let data: Vec<u8> = b"abababababababababababababab".to_vec();
    let mut eng = create("a.pak").unwrap();
    let options = AppendOptions {
        checksum: Some(ChecksumKind::SHA3),
        compression: Some(CompressionAlgorithm::Deflate),
        encryption: None,
    };
    eng.append(String::from("z"), data.clone(), options).unwrap();
    let bytes = eng.save(&Vec::new()).unwrap();

    let eng2 = open("a.pak", Some(&bytes), None).unwrap();
    let entry = eng2.lookup(String::from("z")).unwrap().unwrap();
    assert_eq!(entry.size(), data.len() as u64);
    assert_eq!(entry.read_payload(&bytes).unwrap(), data);
}

#[test]
fn unsupported_compression_is_rejected() {
    let mut eng = create("a.pak").unwrap();
    let options = AppendOptions {
        checksum: None,
        compression: Some(CompressionAlgorithm::Zstd),
        encryption: None,
    };
    match eng.append(String::from("x"), vec![1], options) {
        Err(Error::Deser(_)) => {},
        other => panic!("expected Deser, got {:?}", other),
    }
    // the failed append left nothing behind
    assert!(eng.lookup(String::from("x")).unwrap().is_none());
}

#[test]
fn encryption_slot_roundtrip() {
    // the reserved encryption stage records its header and changes nothing
    let mut eng = create("a.pak").unwrap();
    let options = AppendOptions {
        checksum: None,
        compression: None,
        encryption: Some(repak::EncryptionAlgorithm::NotImplementedYet),
    };
    eng.append(String::from("e"), vec![8, 9], options).unwrap();
    let bytes = eng.save(&Vec::new()).unwrap();
    assert_eq!(&bytes[0..2], &[8, 9]);
    let eng2 = open("a.pak", Some(&bytes), None).unwrap();
    let entry = eng2.lookup(String::from("e")).unwrap().unwrap();
    assert_eq!(entry.read_payload(&bytes).unwrap(), vec![8, 9]);
}

#[test]
fn stored_compression_keeps_bytes() {
    let mut eng = create("a.pak").unwrap();
    let options = AppendOptions {
        checksum: None,
        compression: Some(CompressionAlgorithm::Stored),
        encryption: None,
    };
    eng.append(String::from("s"), vec![4, 5, 6], options).unwrap();
    let bytes = eng.save(&Vec::new()).unwrap();
    assert_eq!(&bytes[0..3], &[4, 5, 6]);
    let eng2 = open("a.pak", Some(&bytes), None).unwrap();
    let entry = eng2.lookup(String::from("s")).unwrap().unwrap();
    assert_eq!(entry.read_payload(&bytes).unwrap(), vec![4, 5, 6]);
}
