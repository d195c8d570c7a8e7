use zipstream::serve_range::{serve, ContentRange};
use zipstream::stream_range::{Range, Segment, StreamRange};
use zipstream::zip::{Layout, LayoutError, Locator, Manifest, Member, Region};

fn member(name: &str, size: u64, crc: u32) -> Member {
    Member {
        name: name.as_bytes().to_vec(),
        size,
        crc,
        locator: Locator {
            bucket: "test-bucket".to_string(),
            key: name.to_string(),
            version: None,
        },
    }
}

fn manifest(members: Vec<Member>) -> Manifest {
    Manifest { filename: "archive.zip".to_string(), members }
}

fn render(segs: &[Segment], bodies: &[Vec<u8>]) -> Vec<u8> {
    let mut out: Vec<u8> = Vec::new();
    for s in segs {
        match s {
            Segment::Bytes(v) => out.extend_from_slice(v),
            Segment::BodyRead { member_index, range } => {
                out.extend_from_slice(&bodies[*member_index][range.start as usize..range.end as usize])
            }
        }
    }
    out
}

#[test]
fn test_layout_totality() {
    // "a.txt": header 30 + 5 = 35, body 3; "b/c.bin": header 30 + 7 = 37, body 5;
    // central entries 46 + 5 = 51 and 46 + 7 = 53; end record 22.
    let m = manifest(vec![member("a.txt", 3, 1), member("b/c.bin", 5, 2)]);
    let layout = Layout::build(m).unwrap();
    assert_eq!(layout.total_len, 35 + 3 + 37 + 5 + 51 + 53 + 22);
    assert_eq!(layout.cd_offset, 35 + 3 + 37 + 5);
    assert_eq!(layout.cd_size, 51 + 53);
    assert_eq!(layout.regions.len(), 3 * 2 + 1);

    // The regions partition [0, total_len): no gaps, no overlaps.
    let mut expected_offset: u64 = 0;
    for r in &layout.regions {
        match r {
            Region::Const { offset, bytes } => {
                assert_eq!(*offset, expected_offset);
                expected_offset += bytes.len() as u64;
            }
            Region::Body { offset, size, .. } => {
                assert_eq!(*offset, expected_offset);
                expected_offset += *size;
            }
        }
    }
    assert_eq!(expected_offset, layout.total_len);
}

#[test]
fn test_zip_bytes_exact() {
    // One member "a", stored, 2-byte body, crc 0xDEADBEEF.
    let m = manifest(vec![member("a", 2, 0xDEADBEEF)]);
    let layout = Layout::build(m).unwrap();
    assert_eq!(layout.total_len, 31 + 2 + 47 + 22);

    let bodies = vec![b"hi".to_vec()];
    let provider = StreamRange::Zip(layout);
    let total = provider.len();
    assert_eq!(total, 102);
    let segs = provider.stream_range(Range { start: 0, end: total });
    let stream = render(&segs, &bodies);

    let mut expected: Vec<u8> = Vec::new();
    // local file header
    expected.extend_from_slice(&[0x50, 0x4b, 0x03, 0x04]); // signature
    expected.extend_from_slice(&[20, 0]); // version needed: 2.0
    expected.extend_from_slice(&[0x00, 0x08]); // flags: UTF-8 names
    expected.extend_from_slice(&[0, 0]); // method: store
    expected.extend_from_slice(&[0, 0]); // mod time 00:00:00
    expected.extend_from_slice(&[0x21, 0x00]); // mod date 1980-01-01
    expected.extend_from_slice(&[0xEF, 0xBE, 0xAD, 0xDE]); // crc
    expected.extend_from_slice(&[2, 0, 0, 0]); // compressed size
    expected.extend_from_slice(&[2, 0, 0, 0]); // uncompressed size
    expected.extend_from_slice(&[1, 0]); // name length
    expected.extend_from_slice(&[0, 0]); // extra length
    expected.extend_from_slice(b"a");
    // body
    expected.extend_from_slice(b"hi");
    // central directory entry
    expected.extend_from_slice(&[0x50, 0x4b, 0x01, 0x02]); // signature
    expected.extend_from_slice(&[20, 0]); // version made by
    expected.extend_from_slice(&[20, 0]); // version needed
    expected.extend_from_slice(&[0x00, 0x08]); // flags
    expected.extend_from_slice(&[0, 0]); // method
    expected.extend_from_slice(&[0, 0]); // time
    expected.extend_from_slice(&[0x21, 0x00]); // date
    expected.extend_from_slice(&[0xEF, 0xBE, 0xAD, 0xDE]); // crc
    expected.extend_from_slice(&[2, 0, 0, 0]); // compressed
    expected.extend_from_slice(&[2, 0, 0, 0]); // uncompressed
    expected.extend_from_slice(&[1, 0]); // name length
    expected.extend_from_slice(&[0, 0]); // extra length
    expected.extend_from_slice(&[0, 0]); // comment length
    expected.extend_from_slice(&[0, 0]); // disk number start
    expected.extend_from_slice(&[0, 0]); // internal attributes
    expected.extend_from_slice(&[0, 0, 0, 0]); // external attributes
    expected.extend_from_slice(&[0, 0, 0, 0]); // local header offset
    expected.extend_from_slice(b"a");
    // end of central directory
    expected.extend_from_slice(&[0x50, 0x4b, 0x05, 0x06]); // signature
    expected.extend_from_slice(&[0, 0]); // disk
    expected.extend_from_slice(&[0, 0]); // cd disk
    expected.extend_from_slice(&[1, 0]); // entries on disk
    expected.extend_from_slice(&[1, 0]); // entries total
    expected.extend_from_slice(&[47, 0, 0, 0]); // cd size
    expected.extend_from_slice(&[33, 0, 0, 0]); // cd offset
    expected.extend_from_slice(&[0, 0]); // comment length

    assert_eq!(stream.len() as u64, total);
    assert_eq!(stream, expected);
}

#[test]
fn test_zip_range_fidelity() {
    let m = manifest(vec![member("a.txt", 3, 7), member("b.txt", 4, 8)]);
    let layout = Layout::build(m).unwrap();
    let bodies = vec![b"one".to_vec(), b"twoX".to_vec()];
    let provider = StreamRange::Zip(layout);
    let total = provider.len();
    let full = render(&provider.stream_range(Range { start: 0, end: total }), &bodies);
    assert_eq!(full.len() as u64, total);
    for (a, b) in [(0u64, 0u64), (0, 10), (30, 40), (34, 39), (0, total), (total - 1, total)] {
        let part = render(&provider.stream_range(Range { start: a, end: b }), &bodies);
        assert_eq!(part, full[a as usize..b as usize].to_vec());
    }
}

#[test]
fn test_zip64_threshold() {
    // A single 5 GiB member forces ZIP64 extras and the ZIP64 end records.
    let size: u64 = 5 * 1024 * 1024 * 1024;
    let m = manifest(vec![member("big", size, 42)]);
    let layout = Layout::build(m).unwrap();
    // local header: 30 + 3 + 20-byte ZIP64 extra
    // central entry: 46 + 3 + (4 + 16)-byte ZIP64 extra (both sizes)
    // end: 56 + 20 + 22 (ZIP64 end record, locator, end record)
    assert_eq!(layout.total_len, 53 + size + 69 + 98);
    assert_eq!(layout.regions.len(), 4);

    match &layout.regions[0] {
        Region::Const { offset, bytes } => {
            assert_eq!(*offset, 0);
            assert_eq!(bytes.len(), 53);
            assert_eq!(&bytes[0..4], &[0x50, 0x4b, 0x03, 0x04]);
            assert_eq!(&bytes[4..6], &[45, 0]); // version needed: 4.5
            assert_eq!(&bytes[18..22], &[0xFF, 0xFF, 0xFF, 0xFF]); // sizes escaped
            assert_eq!(&bytes[28..30], &[20, 0]); // extra length
            // ZIP64 extra: tag 1, 16 data bytes, uncompressed + compressed size
            assert_eq!(&bytes[33..37], &[1, 0, 16, 0]);
            assert_eq!(&bytes[37..45], &size.to_le_bytes());
            assert_eq!(&bytes[45..53], &size.to_le_bytes());
        }
        _ => panic!("expected a constant region"),
    }
    match &layout.regions[2] {
        Region::Const { bytes, .. } => {
            assert_eq!(bytes.len(), 69);
            assert_eq!(&bytes[0..4], &[0x50, 0x4b, 0x01, 0x02]);
            assert_eq!(&bytes[49..53], &[1, 0, 16, 0]); // ZIP64 extra with two sizes
        }
        _ => panic!("expected a constant region"),
    }
    match &layout.regions[3] {
        Region::Const { bytes, .. } => {
            assert_eq!(bytes.len(), 98);
            assert_eq!(&bytes[0..4], &[0x50, 0x4b, 0x06, 0x06]); // ZIP64 end record
            assert_eq!(&bytes[56..60], &[0x50, 0x4b, 0x06, 0x07]); // ZIP64 locator
            assert_eq!(&bytes[76..80], &[0x50, 0x4b, 0x05, 0x06]); // end record
        }
        _ => panic!("expected a constant region"),
    }
}

#[test]
fn test_empty_manifest_rejected() {
    let m = manifest(vec![]);
    assert!(matches!(Layout::build(m), Err(LayoutError::EmptyManifest)));
}

#[test]
fn test_invalid_names_rejected() {
    let m = manifest(vec![member("a\0b", 1, 0)]);
    assert!(matches!(Layout::build(m), Err(LayoutError::InvalidName)));
    let m = manifest(vec![member("/abs", 1, 0)]);
    assert!(matches!(Layout::build(m), Err(LayoutError::InvalidName)));
    let m = manifest(vec![member("", 1, 0)]);
    assert!(matches!(Layout::build(m), Err(LayoutError::InvalidName)));
}

#[test]
fn test_layout_too_large() {
    let m = manifest(vec![member("a", u64::MAX, 0), member("b", u64::MAX, 0)]);
    assert!(matches!(Layout::build(m), Err(LayoutError::LayoutTooLarge)));
}

#[test]
fn test_duplicate_names_preserved() {
    let m = manifest(vec![member("same", 1, 1), member("same", 1, 2)]);
    let layout = Layout::build(m).unwrap();
    assert_eq!(layout.members.len(), 2);
    assert_eq!(layout.regions.len(), 7);
}

#[test]
fn test_overlong_name_rejected() {
    // A name too long for the 16-bit name-length field.
    let m = manifest(vec![member(&"x".repeat(0x10000), 1, 0)]);
    assert!(matches!(Layout::build(m), Err(LayoutError::InvalidName)));
}

#[test]
fn test_serve_zip_range_end_to_end() {
    let m = manifest(vec![member("a.txt", 3, 7), member("b.txt", 4, 8)]);
    let layout = Layout::build(m).unwrap();
    let etag = layout.etag.clone();
    let bodies = vec![b"one".to_vec(), b"twoX".to_vec()];
    let provider = StreamRange::Zip(layout);
    let total = provider.len();
    let full = render(&provider.stream_range(Range { start: 0, end: total }), &bodies);

    let (plan, segs) = serve(
        &provider,
        Some("bytes=20-60"),
        Some(&etag.clone()),
        "application/zip".to_string(),
        etag,
        "archive.zip",
    );
    assert_eq!(plan.status, 206);
    assert_eq!(plan.content_length, 41);
    assert_eq!(plan.content_range, Some(ContentRange { first: 20, last: 60, total }));
    assert_eq!(render(&segs, &bodies), full[20..61].to_vec());
}
