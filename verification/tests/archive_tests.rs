use peridot_archive::compress::CompressionMethod;
use peridot_archive::entries::{
    read_asset_entries, write_asset_entries, AssetEntryHeadingPair, EntryTable,
};
use peridot_archive::par::{read_file_header, ArchiveRead, ArchiveWrite};
use peridot_archive::ParError;

fn build_archive(method: CompressionMethod) -> ArchiveWrite {
    let mut a = ArchiveWrite::new(method);
    a.add(String::from("a.bin"), &[0x01, 0x02]);
    a.add(String::from("bb/c.bin"), &[]);
    a.add(String::from("d"), &[0xff; 1000]);
    a
}

fn check_round_trip(method: CompressionMethod, verify: bool) {
    let bytes = build_archive(method).write().unwrap();
    let reader = ArchiveRead::from_bytes(bytes.as_slice(), verify).unwrap();
    assert_eq!(
        reader.read_bin("a.bin").unwrap(),
        Some(vec![0x01u8, 0x02])
    );
    assert_eq!(reader.read_bin("bb/c.bin").unwrap(), Some(Vec::new()));
    assert_eq!(reader.read_bin("d").unwrap(), Some(vec![0xffu8; 1000]));
    assert_eq!(reader.read_bin("missing").unwrap(), None);
}

#[test]
fn round_trip_uncompressed() {
    check_round_trip(CompressionMethod::Uncompressed, false);
    check_round_trip(CompressionMethod::Uncompressed, true);
}

#[test]
fn round_trip_zlib() {
    check_round_trip(CompressionMethod::Zlib(0), false);
    check_round_trip(CompressionMethod::Zlib(0), true);
}

#[test]
fn round_trip_lz4() {
    check_round_trip(CompressionMethod::Lz4(0), false);
    check_round_trip(CompressionMethod::Lz4(0), true);
}

#[test]
fn round_trip_zstd11() {
    check_round_trip(CompressionMethod::Zstd11(0), false);
    check_round_trip(CompressionMethod::Zstd11(0), true);
}

#[test]
fn empty_archive_round_trips() {
    let a = ArchiveWrite::new(CompressionMethod::Uncompressed);
    let bytes = a.write().unwrap();
    let reader = ArchiveRead::from_bytes(bytes.as_slice(), true).unwrap();
    assert_eq!(reader.read_bin("anything").unwrap(), None);
    assert_eq!(reader.entries().len(), 0);
}

#[test]
fn flipping_any_body_byte_fails_integrity_check() {
    let bytes = build_archive(CompressionMethod::Uncompressed).write().unwrap();
    // The uncompressed header is the signature plus the checksum.
    let body_start = 8;
    for i in body_start..bytes.len() {
        let mut mutated = bytes.clone();
        mutated[i] ^= 0xff;
        let r = ArchiveRead::from_bytes(mutated.as_slice(), true);
        match r {
            Err(ParError::IntegrityCheckFailed) => {},
            other => panic!("byte {} flip not caught: {:?}", i, other.is_ok()),
        }
    }
}

#[test]
fn flipping_compressed_body_byte_fails_integrity_check() {
    let bytes = build_archive(CompressionMethod::Zstd11(0)).write().unwrap();
    // A compressed header adds the eight-byte declared size.
    let body_start = 16;
    for i in body_start..bytes.len() {
        let mut mutated = bytes.clone();
        mutated[i] ^= 0xff;
        let r = ArchiveRead::from_bytes(mutated.as_slice(), true);
        match r {
            Err(ParError::IntegrityCheckFailed) => {},
            other => panic!("byte {} flip not caught: {:?}", i, other.is_ok()),
        }
    }
}

#[test]
fn uncompressed_layout_is_exact() {
    let mut a = ArchiveWrite::new(CompressionMethod::Uncompressed);
    a.add(String::from("a"), &[7]);
    let bytes = a.write().unwrap();
    // Body: entry count, byte length and relative offset little-endian,
    // name length, name, then the blob content.
    let mut body: Vec<u8> = vec![1];
    body.extend_from_slice(&1u64.to_le_bytes());
    body.extend_from_slice(&0u64.to_le_bytes());
    body.push(1);
    body.push(b'a');
    body.push(7);
    let crc = crc::Crc::<u32>::new(&crc::CRC_32_ISO_HDLC).checksum(&body);
    let mut expected: Vec<u8> = vec![b'p', b'a', b'r', b' '];
    expected.extend_from_slice(&crc.to_le_bytes());
    expected.extend_from_slice(&body);
    assert_eq!(bytes, expected);
}

#[test]
fn duplicate_names_keep_last_written_bytes() {
    let mut a = ArchiveWrite::new(CompressionMethod::Uncompressed);
    let dup_first = a.add(String::from("x"), &[1, 2, 3]);
    let dup_second = a.add(String::from("x"), &[9, 8]);
    assert!(!dup_first);
    assert!(dup_second);
    assert_eq!(a.1.len(), 1);
    let bytes = a.write().unwrap();
    let reader = ArchiveRead::from_bytes(bytes.as_slice(), true).unwrap();
    assert_eq!(reader.entries().len(), 1);
    assert_eq!(reader.read_bin("x").unwrap(), Some(vec![9u8, 8]));
}

#[test]
fn unrecognized_signature_is_rejected() {
    let bytes = [b'p', b'a', b'r', b'?', 0, 0, 0, 0];
    assert!(matches!(
        ArchiveRead::from_bytes(&bytes, false),
        Err(ParError::UnsupportedFormat)
    ));
    let bytes2 = [b'q', b'a', b'r', b' ', 0, 0, 0, 0];
    assert!(matches!(
        ArchiveRead::from_bytes(&bytes2, false),
        Err(ParError::UnsupportedFormat)
    ));
}

#[test]
fn short_input_is_truncated() {
    let bytes = [b'p', b'a', b'r'];
    assert!(matches!(
        ArchiveRead::from_bytes(&bytes, false),
        Err(ParError::Truncated)
    ));
    // A compressed signature without its declared-size field.
    let bytes2 = [b'p', b'a', b'r', b'd', 1, 2, 3];
    assert!(matches!(
        ArchiveRead::from_bytes(&bytes2, false),
        Err(ParError::Truncated)
    ));
}

#[test]
fn entry_count_overrunning_input_is_corrupt() {
    // An uncompressed archive whose body declares five entries and ends.
    let mut bytes = vec![b'p', b'a', b'r', b' '];
    let body = [5u8];
    let crc = crc::Crc::<u32>::new(&crc::CRC_32_ISO_HDLC).checksum(&body);
    bytes.extend_from_slice(&crc.to_le_bytes());
    bytes.extend_from_slice(&body);
    assert!(matches!(
        ArchiveRead::from_bytes(bytes.as_slice(), true),
        Err(ParError::Corrupt)
    ));
}

#[test]
fn header_reports_method_and_checksum() {
    let bytes = build_archive(CompressionMethod::Lz4(0)).write().unwrap();
    let ((method, _crc), pos) = read_file_header(bytes.as_slice(), 0).unwrap();
    assert!(matches!(method, CompressionMethod::Lz4(_)));
    assert_eq!(pos, 16);
    match method {
        CompressionMethod::Lz4(declared) => {
            // The declared size is the body length before compression.
            assert!(declared > 1000);
        },
        _ => panic!("wrong method"),
    }
}

#[test]
fn entry_table_reserializes_byte_identically() {
    let mut t = EntryTable::new();
    t.insert(
        String::from("first"),
        AssetEntryHeadingPair { byte_length: 10, relative_offset: 0 },
    );
    t.insert(
        String::from("second"),
        AssetEntryHeadingPair { byte_length: 4, relative_offset: 10 },
    );
    let mut bytes: Vec<u8> = Vec::new();
    write_asset_entries(&t, &mut bytes);
    let (parsed, used) = read_asset_entries(bytes.as_slice(), 0).unwrap();
    assert_eq!(used, bytes.len());
    let mut again: Vec<u8> = Vec::new();
    write_asset_entries(&parsed, &mut again);
    assert_eq!(bytes, again);
}

#[test]
fn entry_table_lookup_and_order() {
    let mut t = EntryTable::new();
    t.insert(
        String::from("n1"),
        AssetEntryHeadingPair { byte_length: 1, relative_offset: 0 },
    );
    t.insert(
        String::from("n2"),
        AssetEntryHeadingPair { byte_length: 2, relative_offset: 1 },
    );
    assert_eq!(t.len(), 2);
    assert_eq!(t.name_at(0).as_str(), "n1");
    assert_eq!(t.heading_at(1).byte_length, 2);
    assert_eq!(t.get("n2").unwrap().relative_offset, 1);
    assert!(t.get("n3").is_none());
}

#[test]
fn non_utf8_entry_name_is_corrupt() {
    // One entry whose name bytes are not UTF-8.
    let mut body: Vec<u8> = vec![1];
    body.extend_from_slice(&[0u8; 16]);
    body.push(2);
    body.extend_from_slice(&[0xff, 0xfe]);
    let mut bytes = vec![b'p', b'a', b'r', b' '];
    let crc = crc::Crc::<u32>::new(&crc::CRC_32_ISO_HDLC).checksum(&body);
    bytes.extend_from_slice(&crc.to_le_bytes());
    bytes.extend_from_slice(&body);
    assert!(matches!(
        ArchiveRead::from_bytes(bytes.as_slice(), false),
        Err(ParError::Corrupt)
    ));
}

#[test]
fn blob_range_past_body_is_truncated() {
    // A table entry that points one byte past the stored content.
    let mut t = EntryTable::new();
    t.insert(
        String::from("z"),
        AssetEntryHeadingPair { byte_length: 5, relative_offset: 0 },
    );
    let mut body: Vec<u8> = Vec::new();
    write_asset_entries(&t, &mut body);
    body.extend_from_slice(&[1, 2, 3, 4]);
    let mut bytes = vec![b'p', b'a', b'r', b' '];
    let crc = crc::Crc::<u32>::new(&crc::CRC_32_ISO_HDLC).checksum(&body);
    bytes.extend_from_slice(&crc.to_le_bytes());
    bytes.extend_from_slice(&body);
    let reader = ArchiveRead::from_bytes(bytes.as_slice(), true).unwrap();
    assert_eq!(reader.read_bin("z"), Err(ParError::Truncated));
}
