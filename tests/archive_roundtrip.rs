use resource_lib::archive::{
    assemble_archive, decode_entry, open_header, parse_header, read_entry, ArchiveIndex,
};
use resource_lib::index_serialization::IndexSerializer;
use resource_lib::resource_library::{
    ByteStream, CompressionLevel, ResourceError, ResourceLibraryWriter,
};

const FINGERPRINT: [u8; 10] = [0x67, 0xD7, 0x70, 0x3A, 0x54, 0x3D, 0xDB, 0xF5, 0x17, 0x95];

fn open_bytes(bytes: &[u8]) -> Result<ArchiveIndex, ResourceError> {
    let header = open_header(&bytes[..bytes.len().min(26)], bytes.len() as u64)?;
    let end = (26 + header.index_len as usize).min(bytes.len());
    ArchiveIndex::parse(&header, &bytes[26..end])
}

fn read_path(bytes: &[u8], index: &ArchiveIndex, path: &str) -> Result<Box<[u8]>, ResourceError> {
    let (start, len) = index.locate(path)?;
    let start = (start as usize).min(bytes.len());
    let end = (start + len as usize).min(bytes.len());
    read_entry(&bytes[start..end], len)
}

fn stage_text() -> ResourceLibraryWriter {
    let mut lib = ResourceLibraryWriter::new();
    lib.write_stream("test/a.txt".to_owned(), ByteStream::from(b"Test file A".to_vec())).unwrap();
    lib.write_stream("test/b.txt".to_owned(), ByteStream::from(b"Test file B ".to_vec())).unwrap();
    lib.write_stream("test/c.txt".to_owned(), ByteStream::from(b"Test file C  ".to_vec())).unwrap();
    lib
}

fn pseudo_random(n: usize, seed: u64) -> Vec<u8> {
    let mut x = seed;
    let mut out = Vec::with_capacity(n);
    for _ in 0..n {
        x = x.wrapping_mul(6364136223846793005).wrapping_add(1442695040888963407);
        out.push((x >> 33) as u8);
    }
    out
}

#[test]
fn concrete_scenario_fastest() {
    let mut lib = ResourceLibraryWriter::new();
    lib.write_stream("a.txt".to_owned(), ByteStream::from(b"Test file A".to_vec())).unwrap();
    lib.write_stream("b.txt".to_owned(), ByteStream::from(b"Test file B ".to_vec())).unwrap();
    lib.write_stream("c.txt".to_owned(), ByteStream::from(b"Test file C  ".to_vec())).unwrap();
    let bytes = lib.write_to_bytes(CompressionLevel::Fastest).unwrap();
    let index = open_bytes(&bytes).unwrap();
    let data = read_path(&bytes, &index, "b.txt").unwrap();
    assert_eq!(&data[..], b"Test file B ");
    assert_eq!(data.len(), 12);
    assert_eq!(&index.get_all_files()[..], &["a.txt", "b.txt", "c.txt"]);
}

#[test]
fn listing_matches_stage() {
    let mut lib = stage_text();
    let bytes = lib.write_to_bytes(CompressionLevel::Fast).unwrap();
    let index = open_bytes(&bytes).unwrap();
    let debug1 = format!("{:?}", lib.get_all_files());
    let debug2 = format!("{:?}", index.get_all_files());
    assert_eq!(debug1, debug2);
}

#[test]
fn round_trip_every_level() {
    let levels = [
        CompressionLevel::Fastest,
        CompressionLevel::Fast,
        CompressionLevel::Normal,
        CompressionLevel::Maximum,
        CompressionLevel::Ultra,
    ];
    let contents: Vec<(&str, Vec<u8>)> = vec![
        ("empty", Vec::new()),
        ("dir/one", vec![1]),
        ("dir/text", b"hello hello hello hello".to_vec()),
        ("z", pseudo_random(5000, 7)),
    ];
    for level in levels {
        let mut lib = ResourceLibraryWriter::new();
        for (p, c) in &contents {
            lib.write_stream(p.to_string(), ByteStream::from(c.clone())).unwrap();
        }
        let bytes = lib.write_to_bytes(level).unwrap();
        let index = open_bytes(&bytes).unwrap();
        for (p, c) in &contents {
            assert_eq!(&read_path(&bytes, &index, p).unwrap()[..], &c[..]);
        }
        // The stage keeps its resources after a flush.
        for (p, c) in &contents {
            assert_eq!(&lib.read_data(p).unwrap()[..], &c[..]);
        }
    }
}

#[test]
fn large_entry_round_trip() {
    let big = pseudo_random(3 * 1024 * 1024, 42);
    let mut lib = stage_text();
    lib.write_stream("test/testfile.png".to_owned(), ByteStream::from(big.clone())).unwrap();
    let bytes = lib.write_to_bytes(CompressionLevel::Fastest).unwrap();
    let index = open_bytes(&bytes).unwrap();
    assert_eq!(&read_path(&bytes, &index, "test/testfile.png").unwrap()[..], &big[..]);
    assert_eq!(&read_path(&bytes, &index, "test/b.txt").unwrap()[..], b"Test file B ");
    assert_eq!(lib.read_data("test/b.txt").unwrap(), read_path(&bytes, &index, "test/b.txt").unwrap());
}

#[test]
fn small_entries_at_ultra() {
    let mut lib = stage_text();
    let bytes = lib.write_to_bytes(CompressionLevel::Ultra).unwrap();
    let index = open_bytes(&bytes).unwrap();
    assert_eq!(&read_path(&bytes, &index, "test/c.txt").unwrap()[..], b"Test file C  ");
}

#[test]
fn header_layout() {
    let mut lib = stage_text();
    let bytes = lib.write_to_bytes(CompressionLevel::Fast).unwrap();
    assert_eq!(&bytes[..10], &FINGERPRINT);
    let index_len = u64::from_be_bytes(bytes[10..18].try_into().unwrap());
    let data_len = u64::from_be_bytes(bytes[18..26].try_into().unwrap());
    assert_eq!(26 + index_len + data_len, bytes.len() as u64);
    let header = parse_header(&bytes[..26]).unwrap();
    assert_eq!(header.index_len, index_len);
    assert_eq!(header.data_len, data_len);
    // Offsets are contiguous from zero and lengths cover the data block.
    let entries = resource_lib::index_serialization::index_from_bytes(&bytes[26..26 + index_len as usize]).unwrap();
    let mut expected = 0u64;
    for (_, offset, length) in entries.iter() {
        assert_eq!(*offset, expected);
        expected += *length;
    }
    assert_eq!(expected, data_len);
    // Payloads are compressed, not the raw bytes.
    let first = &bytes[26 + index_len as usize..26 + (index_len + entries[0].2) as usize];
    assert_ne!(first, b"Test file A");
}

#[test]
fn sorted_index_and_lookup() {
    let mut lib = ResourceLibraryWriter::new();
    for p in ["m", "b", "z", "a", "k"] {
        lib.write_stream(p.to_owned(), ByteStream::from(p.as_bytes().to_vec())).unwrap();
    }
    let bytes = lib.write_to_bytes(CompressionLevel::Fast).unwrap();
    let index = open_bytes(&bytes).unwrap();
    assert_eq!(&index.get_all_files()[..], &["a", "b", "k", "m", "z"]);
    for p in ["a", "k", "z"] {
        assert_eq!(&read_path(&bytes, &index, p).unwrap()[..], p.as_bytes());
    }
    assert!(matches!(index.locate("c"), Err(ResourceError::NotFound(_))));
    assert!(matches!(index.locate("zz"), Err(ResourceError::NotFound(_))));
    assert!(matches!(index.locate(""), Err(ResourceError::NotFound(_))));
    assert!(matches!(index.locate("a?"), Err(ResourceError::InvalidPath(_))));
}

#[test]
fn altered_fingerprint_rejected() {
    let mut lib = stage_text();
    let mut bytes = lib.write_to_bytes(CompressionLevel::Fast).unwrap();
    bytes[3] ^= 0xFF;
    assert!(matches!(parse_header(&bytes[..26]), Err(ResourceError::FormatError(_))));
    assert!(matches!(open_bytes(&bytes), Err(ResourceError::FormatError(_))));
}

#[test]
fn truncated_archive_rejected() {
    let mut lib = stage_text();
    let bytes = lib.write_to_bytes(CompressionLevel::Fast).unwrap();
    // Short header.
    assert!(matches!(parse_header(&bytes[..20]), Err(ResourceError::FormatError(_))));
    // Shorter than the declared data.
    assert!(matches!(open_bytes(&bytes[..bytes.len() - 1]), Err(ResourceError::FormatError(_))));
    // Shorter than the declared index.
    let header = parse_header(&bytes[..26]).unwrap();
    assert!(matches!(header.check_length(30), Err(ResourceError::FormatError(_))));
    let short = &bytes[26..26 + header.index_len as usize - 1];
    assert!(matches!(ArchiveIndex::parse(&header, short), Err(ResourceError::FormatError(_))));
}

#[test]
fn unsorted_index_rejected() {
    let index = vec![("b".to_owned(), 0u64, 0u64), ("a".to_owned(), 0, 0)];
    let mut ser = IndexSerializer::new();
    ser.serialize_index(&index).unwrap();
    let block = ser.take();
    let header = resource_lib::archive::ArchiveHeader { index_len: block.len() as u64, data_len: 0 };
    assert!(matches!(ArchiveIndex::parse(&header, &block), Err(ResourceError::FormatError(_))));
    let dup = vec![("a".to_owned(), 0u64, 0u64), ("a".to_owned(), 0, 0)];
    let mut ser = IndexSerializer::new();
    ser.serialize_index(&dup).unwrap();
    let block = ser.take();
    let header = resource_lib::archive::ArchiveHeader { index_len: block.len() as u64, data_len: 0 };
    assert!(matches!(ArchiveIndex::parse(&header, &block), Err(ResourceError::FormatError(_))));
}

#[test]
fn malformed_index_rejected() {
    let header = resource_lib::archive::ArchiveHeader { index_len: 3, data_len: 0 };
    assert!(matches!(ArchiveIndex::parse(&header, &[0, 0, 1]), Err(ResourceError::FormatError(_))));
}

#[test]
fn corrupt_payload_is_codec_error() {
    assert!(matches!(decode_entry(&[1, 2, 3, 4, 5]), Err(ResourceError::CodecError)));
}

#[test]
fn assemble_exact_layout() {
    let paths = ["p", "q"];
    let payloads = vec![vec![9u8, 8, 7], vec![6u8]];
    let bytes = assemble_archive(&paths, &payloads).unwrap();
    let mut expected = FINGERPRINT.to_vec();
    // Index: count, then ("p", 0, 3) and ("q", 3, 1).
    let mut index = Vec::new();
    index.extend_from_slice(&2u64.to_be_bytes());
    for (p, o, l) in [("p", 0u64, 3u64), ("q", 3, 1)] {
        index.extend_from_slice(&1u64.to_be_bytes());
        index.extend_from_slice(p.as_bytes());
        index.extend_from_slice(&o.to_be_bytes());
        index.extend_from_slice(&l.to_be_bytes());
    }
    expected.extend_from_slice(&(index.len() as u64).to_be_bytes());
    expected.extend_from_slice(&4u64.to_be_bytes());
    expected.extend_from_slice(&index);
    expected.extend_from_slice(&[9, 8, 7, 6]);
    assert_eq!(bytes, expected);
}

#[test]
fn assemble_empty_archive() {
    let bytes = assemble_archive(&[], &[]).unwrap();
    let mut expected = FINGERPRINT.to_vec();
    expected.extend_from_slice(&8u64.to_be_bytes());
    expected.extend_from_slice(&0u64.to_be_bytes());
    expected.extend_from_slice(&0u64.to_be_bytes());
    assert_eq!(bytes, expected);
    let index = open_bytes(&bytes).unwrap();
    assert!(index.get_all_files().is_empty());
}

#[test]
fn empty_stage_gives_bare_archive() {
    let mut lib = ResourceLibraryWriter::new();
    let bytes = lib.write_to_bytes(CompressionLevel::Normal).unwrap();
    let mut expected = FINGERPRINT.to_vec();
    expected.extend_from_slice(&8u64.to_be_bytes());
    expected.extend_from_slice(&0u64.to_be_bytes());
    expected.extend_from_slice(&0u64.to_be_bytes());
    assert_eq!(bytes.len(), 34);
    assert_eq!(bytes, expected);
}

#[test]
fn short_entry_read_is_format_error() {
    let mut lib = stage_text();
    let bytes = lib.write_to_bytes(CompressionLevel::Fast).unwrap();
    let index = open_bytes(&bytes).unwrap();
    let (start, len) = index.locate("test/c.txt").unwrap();
    let start = start as usize;
    let cut = &bytes[start..start + len as usize - 1];
    assert!(matches!(read_entry(cut, len), Err(ResourceError::FormatError(_))));
    // Extra bytes after the entry are not part of it.
    let whole = &bytes[start..];
    assert_eq!(&read_entry(whole, len).unwrap()[..], b"Test file C  ");
}

#[test]
fn open_header_checks_fingerprint_and_length() {
    let mut lib = stage_text();
    let bytes = lib.write_to_bytes(CompressionLevel::Fast).unwrap();
    let n = bytes.len() as u64;
    assert!(open_header(&bytes[..26], n).is_ok());
    assert!(matches!(open_header(&bytes[..26], n - 1), Err(ResourceError::FormatError(_))));
    assert!(matches!(open_header(&bytes[..12], 12), Err(ResourceError::FormatError(_))));
    let mut altered = bytes[..26].to_vec();
    altered[0] = 0;
    assert!(matches!(open_header(&altered, n), Err(ResourceError::FormatError(_))));
}

#[test]
fn corrupt_entry_fails_alone() {
    let mut lib = stage_text();
    let mut bytes = lib.write_to_bytes(CompressionLevel::Fast).unwrap();
    let index = open_bytes(&bytes).unwrap();
    let (start, len) = index.locate("test/a.txt").unwrap();
    for b in &mut bytes[start as usize..(start + len) as usize] {
        *b ^= 0x5A;
    }
    assert!(matches!(read_path(&bytes, &index, "test/a.txt"), Err(ResourceError::CodecError)));
    assert_eq!(&read_path(&bytes, &index, "test/b.txt").unwrap()[..], b"Test file B ");
    assert_eq!(
        read_path(&bytes, &index, "test/b.txt").unwrap(),
        read_path(&bytes, &index, "test/b.txt").unwrap()
    );
}
