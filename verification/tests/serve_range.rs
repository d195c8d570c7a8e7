use zipstream::serve_range::{parse_range, response_plan, serve, ContentRange};
use zipstream::stream_range::{Range, Segment, StreamRange};

fn render(segs: &[Segment], bodies: &[Vec<u8>]) -> Vec<u8> {
    let mut out: Vec<u8> = Vec::new();
    for s in segs {
        match s {
            Segment::Bytes(v) => out.extend_from_slice(v),
            Segment::BodyRead { member_index, range } => {
                out.extend_from_slice(&bodies[*member_index][range.start as usize..range.end as usize])
            }
        }
    }
    out
}

#[test]
fn test_range() {
    assert_eq!(parse_range("lines=0-10", 1000), Err("invalid range unit"));

    assert_eq!(parse_range("bytes=500-", 1000), Ok(Some(Range { start: 500, end: 1000 })));
    assert_eq!(parse_range("bytes=2000-", 1000), Ok(None));

    assert_eq!(parse_range("bytes=-100", 1000), Ok(Some(Range { start: 900, end: 1000 })));
    assert_eq!(parse_range("bytes=-2000", 1000), Ok(None));

    assert_eq!(parse_range("bytes=100-200", 1000), Ok(Some(Range { start: 100, end: 201 })));
    assert_eq!(parse_range("bytes=500-999", 1000), Ok(Some(Range { start: 500, end: 1000 })));
    assert_eq!(parse_range("bytes=500-1000", 1000), Ok(None));
    assert_eq!(parse_range("bytes=200-100", 1000), Ok(None));
    assert_eq!(parse_range("bytes=1500-2000", 1000), Ok(None));

    assert_eq!(parse_range("bytes=", 1000), Err("invalid range"));
    assert_eq!(parse_range("bytes=a-", 1000), Err("invalid range number"));
    assert_eq!(parse_range("bytes=a-b", 1000), Err("invalid range number"));
    assert_eq!(parse_range("bytes=-b", 1000), Err("invalid range number"));
}

#[test]
fn test_range_multiple_and_trim() {
    assert_eq!(parse_range("bytes=0-1,5-6", 1000), Ok(None));
    assert_eq!(parse_range("bytes= 10-19 ", 1000), Ok(Some(Range { start: 10, end: 20 })));
}

#[test]
fn test_base_hyper_response() {
    let data = StreamRange::Memory(b"0123456789".to_vec());

    let (plan, segs) = serve(
        &data,
        None,
        None,
        "application/test".to_string(),
        "ETAG".to_string(),
        "foo.zip",
    );

    assert_eq!(plan.status, 200);
    assert_eq!(plan.content_type, "application/test");
    assert_eq!(plan.content_disposition, "attachment; filename=\"foo.zip\"");
    assert_eq!(plan.etag, "ETAG");
    assert_eq!(plan.content_length, 10);
    assert_eq!(plan.content_range, None);
    assert_eq!(render(&segs, &[]), b"0123456789".to_vec());
}

#[test]
fn test_range_hyper_response() {
    let data = StreamRange::Memory(b"0123456789".to_vec());

    let (plan, segs) = serve(
        &data,
        Some("bytes=4-8"),
        Some("ETAG"),
        "application/test".to_string(),
        "ETAG".to_string(),
        "foo.zip",
    );

    assert_eq!(plan.status, 206);
    assert_eq!(plan.content_type, "application/test");
    assert_eq!(plan.etag, "ETAG");
    assert_eq!(plan.content_length, 5);
    assert_eq!(plan.content_range, Some(ContentRange { first: 4, last: 8, total: 10 }));
    assert_eq!(render(&segs, &[]), b"45678".to_vec());
}

#[test]
fn test_bad_if_range_hyper_response() {
    let data = StreamRange::Memory(b"0123456789".to_vec());

    let (plan, segs) = serve(
        &data,
        Some("bytes=4-8"),
        Some("WRONG"),
        "application/test".to_string(),
        "ETAG".to_string(),
        "foo.zip",
    );

    assert_eq!(plan.status, 200);
    assert_eq!(plan.content_length, 10);
    assert_eq!(plan.content_range, None);
    assert_eq!(render(&segs, &[]), b"0123456789".to_vec());
}

#[test]
fn test_parse_error_serves_full() {
    let plan = response_plan(
        Some("lines=0-10"),
        None,
        "application/zip".to_string(),
        "\"t\"".to_string(),
        "a.zip",
        1000,
    );
    assert_eq!(plan.status, 200);
    assert_eq!(plan.content_length, 1000);
    assert_eq!(plan.range, Range { start: 0, end: 1000 });
}

#[test]
fn test_memory_slice_fidelity() {
    let content: Vec<u8> = (0u8..200u8).collect();
    let data = StreamRange::Memory(content.clone());
    let full = data.stream_range(Range { start: 0, end: 200 });
    let full_bytes = render(&full, &[]);
    for (a, b) in [(0u64, 0u64), (0, 200), (3, 17), (199, 200), (57, 58)] {
        let part = data.stream_range(Range { start: a, end: b });
        assert_eq!(render(&part, &[]), full_bytes[a as usize..b as usize].to_vec());
    }
}

#[test]
fn test_range_empty_suffix() {
    // The last zero bytes: a legal, empty range.
    assert_eq!(parse_range("bytes=-0", 1000), Ok(Some(Range { start: 1000, end: 1000 })));
}
