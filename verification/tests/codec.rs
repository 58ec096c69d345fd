//! Wire codecs of the header types: serialize, read back, and the tag maps.

use repak::Error;
use repak::checksum::{Checksum, ChecksumHeader, ChecksumKind};
use repak::compress::{CompressionAlgorithm, CompressionHeader};
use repak::encrypt::{EncryptionAlgorithm, EncryptionHeader};
use repak::index::{IndexEntry, IndexHeader};
use repak::io::{Deser, Ser};

#[test]
fn checksum_kind_tags_roundtrip() {
    for (tag, kind) in [
        (1u64, ChecksumKind::SHA3),
        (2, ChecksumKind::K12),
        (3, ChecksumKind::BLAKE3),
        (4, ChecksumKind::Xxhash3),
        (5, ChecksumKind::MetroHash),
        (6, ChecksumKind::SeaHash),
        (7, ChecksumKind::CityHash),
    ] {
        assert_eq!(ChecksumKind::try_from(tag).unwrap(), kind);
        assert_eq!(kind.as_u64(), tag);
    }
}

#[test]
fn checksum_kind_unknown_tag_message() {
    match ChecksumKind::try_from(0) {
        Err(Error::Deser(m)) => assert_eq!(m, "Unknown checksum kind: 0"),
        other => panic!("expected a deserialization error, got {:?}", other),
    }
    match ChecksumKind::try_from(42) {
        Err(Error::Deser(m)) => assert_eq!(m, "Unknown checksum kind: 42"),
        other => panic!("expected a deserialization error, got {:?}", other),
    }
}

#[test]
fn compression_algorithm_tags_roundtrip() {
    for (tag, alg) in [
        (0u64, CompressionAlgorithm::Stored),
        (1, CompressionAlgorithm::Deflate),
        (2, CompressionAlgorithm::Bzip),
        (3, CompressionAlgorithm::Zstd),
        (4, CompressionAlgorithm::Lzma),
        (5, CompressionAlgorithm::Lz4),
        (6, CompressionAlgorithm::Fsst),
    ] {
        assert_eq!(CompressionAlgorithm::try_from(tag).unwrap(), alg);
        assert_eq!(alg.as_u64(), tag);
    }
    match CompressionAlgorithm::try_from(7) {
        Err(Error::Deser(m)) => assert_eq!(m, "Unknown compression algorithm: 7"),
        other => panic!("expected a deserialization error, got {:?}", other),
    }
}

#[test]
fn encryption_algorithm_tags_roundtrip() {
    assert_eq!(
        EncryptionAlgorithm::try_from(0).unwrap(),
        EncryptionAlgorithm::NotImplementedYet
    );
    assert_eq!(EncryptionAlgorithm::NotImplementedYet.as_u64(), 0);
    match EncryptionAlgorithm::try_from(1) {
        Err(Error::Deser(m)) => assert_eq!(m, "Unknown encryption algorithm: 1"),
        other => panic!("expected a deserialization error, got {:?}", other),
    }
}

#[test]
fn checksum_header_roundtrip() {
    let h = ChecksumHeader {
        size: 66,
        count: 1,
        checksums: vec![Checksum { kind: ChecksumKind::SHA3, payload: vec![7u8; 64] }],
    };
    let mut out = Vec::new();
    h.ser(&mut out);
    // size, count, then kind and 64 digest bytes
    assert_eq!(out[0], 66);
    assert_eq!(out[1], 1);
    assert_eq!(out[2], 1);
    assert_eq!(out.len(), 3 + 64);
    let mut pos = 0usize;
    let back = ChecksumHeader::deser(&out, &mut pos).unwrap();
    assert_eq!(pos, out.len());
    assert_eq!(back.size, 66);
    assert_eq!(back.count, 1);
    assert_eq!(back.checksums.len(), 1);
    assert_eq!(back.checksums[0].kind, ChecksumKind::SHA3);
    assert_eq!(back.checksums[0].payload, vec![7u8; 64]);
}

#[test]
fn compression_header_roundtrip() {
    let h = CompressionHeader {
        size: 1,
        algorithm: CompressionAlgorithm::Deflate,
        payload: Vec::new(),
    };
    let mut out = Vec::new();
    h.ser(&mut out);
    assert_eq!(out, vec![1, 1]);
    let mut pos = 0usize;
    let back = CompressionHeader::deser(&out, &mut pos).unwrap();
    assert_eq!(pos, 2);
    assert_eq!(back.size, 1);
    assert_eq!(back.algorithm, CompressionAlgorithm::Deflate);
    assert!(back.payload.is_empty());
}

#[test]
fn encryption_header_roundtrip() {
    let h = EncryptionHeader {
        algorithm: EncryptionAlgorithm::NotImplementedYet,
        size: 1,
        payload: Vec::new(),
    };
    let mut out = Vec::new();
    h.ser(&mut out);
    assert_eq!(out, vec![1, 0]);
    let mut pos = 0usize;
    let back = EncryptionHeader::deser(&out, &mut pos).unwrap();
    assert_eq!(pos, 2);
    assert_eq!(back.algorithm, EncryptionAlgorithm::NotImplementedYet);
    assert_eq!(back.size, 1);
}

#[test]
fn index_entry_roundtrip_raw() {
    let e = IndexEntry {
        offset: 300,
        size: 3,
        name: String::from("asset/x"),
        encryption: None,
        compression: None,
        checksum: None,
    };
    let mut out = Vec::new();
    e.ser(&mut out);
    // offset(2) size(1) flags(1) name_len(1) name(7)
    assert_eq!(out.len(), 2 + 1 + 1 + 1 + 7);
    assert_eq!(out[3], 0); // flag byte
    assert_eq!(&out[5..], b"asset/x");
    let mut pos = 0usize;
    let back = IndexEntry::deser(&out, &mut pos).unwrap();
    assert_eq!(pos, out.len());
    assert_eq!(back.offset, 300);
    assert_eq!(back.size, 3);
    assert_eq!(back.name, "asset/x");
    assert!(back.encryption.is_none());
    assert!(back.compression.is_none());
    assert!(back.checksum.is_none());
}

#[test]
fn index_entry_roundtrip_with_subheaders() {
    let e = IndexEntry {
        offset: 0,
        size: 100,
        name: String::from("n"),
        encryption: Some(EncryptionHeader {
            algorithm: EncryptionAlgorithm::NotImplementedYet,
            size: 1,
            payload: Vec::new(),
        }),
        compression: Some(CompressionHeader {
            size: 1,
            algorithm: CompressionAlgorithm::Deflate,
            payload: Vec::new(),
        }),
        checksum: Some(ChecksumHeader {
            size: 66,
            count: 1,
            checksums: vec![Checksum { kind: ChecksumKind::SHA3, payload: vec![0u8; 64] }],
        }),
    };
    let mut out = Vec::new();
    e.ser(&mut out);
    assert_eq!(out[2], 7); // all three flag bits
    let mut pos = 0usize;
    let back = IndexEntry::deser(&out, &mut pos).unwrap();
    assert_eq!(pos, out.len());
    assert_eq!(back.name, "n");
    assert!(back.encryption.is_some());
    assert_eq!(
        back.compression.as_ref().unwrap().algorithm,
        CompressionAlgorithm::Deflate
    );
    assert_eq!(back.checksum.as_ref().unwrap().checksums[0].payload, vec![0u8; 64]);
}

#[test]
fn index_entry_invalid_utf8_name() {
    // offset 0, size 0, flags 0, name of two bytes that are not UTF-8
    let bytes = vec![0u8, 0, 0, 2, 0xFF, 0xFE];
    let mut pos = 0usize;
    assert!(matches!(
        IndexEntry::deser(&bytes, &mut pos),
        Err(Error::InvalidUtf8)
    ));
}

#[test]
fn index_header_roundtrip() {
    let h = IndexHeader {
        count: 1,
        entries: vec![IndexEntry {
            offset: 0,
            size: 5,
            name: String::from("a"),
            encryption: None,
            compression: None,
            checksum: None,
        }],
        checksum: ChecksumHeader::default(),
    };
    let mut out = Vec::new();
    h.ser(&mut out);
    assert_eq!(&out[0..5], b"REPAK");
    assert_eq!(out[5], 1);
    assert_eq!(&out[6..8], &[0, 0]);
    assert_eq!(out[8], 1);
    let mut pos = 0usize;
    let back = IndexHeader::deser(&out, &mut pos).unwrap();
    assert_eq!(pos, out.len());
    assert_eq!(back.count, 1);
    assert_eq!(back.entries.len(), 1);
    assert_eq!(back.entries[0].name, "a");
    assert_eq!(back.entries[0].size, 5);
}

#[test]
fn index_header_truncated_is_io() {
    let mut pos = 0usize;
    assert!(matches!(
        IndexHeader::deser(b"REP", &mut pos),
        Err(Error::Io(_))
    ));
}
