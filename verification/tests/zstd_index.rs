//! The compressed-index path: an index that opens with the zstd magic is
//! transparently decompressed and read.

use repak::index::IndexHeader;
use repak::io::{Deser, Ser};
use repak::{AppendOptions, Error, create, open};
use ruzstd::encoding::{CompressionLevel, compress_to_vec};

/// The bytes of the directory a save wrote, and the payload region before
/// it, split via the locator.
fn split_archive(bytes: &[u8]) -> (Vec<u8>, Vec<u8>) {
    let l = repak::varint::parse_locator(&bytes[bytes.len() - 10..]).unwrap();
    let locator_len = repak::varint::leb128_usize(l);
    let index_start = bytes.len() - l as usize;
    let index_end = bytes.len() - locator_len;
    (bytes[..index_start].to_vec(), bytes[index_start..index_end].to_vec())
}

#[test]
fn open_compressed_sidecar() {
    let mut eng = create("a.pak").unwrap();
    eng.append(String::from("x"), vec![1, 2, 3], AppendOptions::default()).unwrap();
    let bytes = eng.save(&Vec::new()).unwrap();
    let (_payloads, index_bytes) = split_archive(&bytes);

    let compressed = compress_to_vec(index_bytes.as_slice(), CompressionLevel::Fastest);
    assert_eq!(&compressed[..4], &[0x28, 0xB5, 0x2F, 0xFD]);

    let eng2 = open("a.pak", Some(&bytes), Some(&compressed)).unwrap();
    let entry = eng2.lookup(String::from("x")).unwrap().expect("entry must be present");
    assert_eq!(entry.offset(), 0);
    assert_eq!(entry.size(), 3);
    assert_eq!(entry.read_payload(&bytes).unwrap(), vec![1, 2, 3]);
}

#[test]
fn open_compressed_attached() {
    // an attached archive whose directory is a zstd frame: the locator
    // covers the compressed bytes, and the decoder ignores what follows
    // the frame
    let mut eng = create("a.pak").unwrap();
    eng.append(String::from("n"), vec![7, 8], AppendOptions::default()).unwrap();
    let bytes = eng.save(&Vec::new()).unwrap();
    let (payloads, index_bytes) = split_archive(&bytes);

    let compressed = compress_to_vec(index_bytes.as_slice(), CompressionLevel::Fastest);
    let mut file = payloads;
    file.extend_from_slice(&compressed);
    file.extend_from_slice(&repak::varint::make_index_locator(compressed.len() as u64));

    let eng2 = open("a.pak", Some(&file), None).unwrap();
    let entry = eng2.lookup(String::from("n")).unwrap().expect("entry must be present");
    assert_eq!(entry.read_payload(&file).unwrap(), vec![7, 8]);
}

#[test]
fn open_invalid_zstd_frame_is_deser() {
    let sidecar = vec![0x28u8, 0xB5, 0x2F, 0xFD, 0xFF, 0xFF, 0xFF, 0xFF, 0xFF];
    match open("a.pak", Some(&Vec::new()), Some(&sidecar)) {
        Err(Error::Deser(m)) => assert_eq!(m, "Invalid compressed index"),
        other => panic!("expected Deser, got {:?}", other),
    }
}

#[test]
fn compressed_index_rejections_keep_their_causes() {
    // a frame that decodes, but to bytes that are not a REPAK directory
    let compressed = compress_to_vec(b"XEPAK\x01\x00\x00\x00".as_slice(), CompressionLevel::Fastest);
    match open("a.pak", Some(&Vec::new()), Some(&compressed)) {
        Err(Error::Deser(m)) => assert_eq!(m, "Not a REPAK archive"),
        other => panic!("expected Deser, got {:?}", other),
    }
}

#[test]
fn compressed_index_roundtrips_through_deser() {
    let h = IndexHeader {
        count: 1,
        entries: vec![repak::index::IndexEntry {
            offset: 0,
            size: 5,
            name: String::from("a"),
            encryption: None,
            compression: None,
            checksum: None,
        }],
        checksum: repak::checksum::ChecksumHeader::default(),
    };
    let mut plain = Vec::new();
    h.ser(&mut plain);
    let compressed = compress_to_vec(plain.as_slice(), CompressionLevel::Fastest);
    let mut pos = 0usize;
    let back = IndexHeader::deser(&compressed, &mut pos).unwrap();
    // a compressed directory consumes the whole source
    assert_eq!(pos, compressed.len());
    assert_eq!(back.count, 1);
    assert_eq!(back.entries[0].name, "a");
    assert_eq!(back.entries[0].size, 5);
}
