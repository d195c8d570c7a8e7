use zipstream::etag::compute_etag;
use zipstream::upstream::{dispatch, upstream_uri, GatewayAction, UpstreamEvent};
use zipstream::zip::{Layout, Locator, Manifest, Member};
use zipstream::Config;

fn member(name: &str, size: u64, crc: u32) -> Member {
    Member {
        name: name.as_bytes().to_vec(),
        size,
        crc,
        locator: Locator {
            bucket: "test-bucket".to_string(),
            key: name.to_string(),
            version: None,
        },
    }
}

fn manifest(members: Vec<Member>) -> Manifest {
    Manifest { filename: "archive.zip".to_string(), members }
}

#[test]
fn test_etag_stable() {
    let a = manifest(vec![member("a", 3, 7), member("b", 4, 8)]);
    let b = manifest(vec![member("a", 3, 7), member("b", 4, 8)]);
    assert_eq!(compute_etag(&a), compute_etag(&b));

    let tag = compute_etag(&a);
    assert_eq!(tag.len(), 18);
    assert!(tag.starts_with('"') && tag.ends_with('"'));
    assert!(tag[1..17].chars().all(|c| c.is_ascii_hexdigit()));

    // The layout carries the manifest's tag.
    let layout = Layout::build(a).unwrap();
    assert_eq!(layout.etag, tag);
}

#[test]
fn test_etag_sensitive() {
    let base = manifest(vec![member("a", 3, 7), member("b", 4, 8)]);
    let tag = compute_etag(&base);

    let renamed = manifest(vec![member("a2", 3, 7), member("b", 4, 8)]);
    assert_ne!(compute_etag(&renamed), tag);

    let resized = manifest(vec![member("a", 4, 7), member("b", 4, 8)]);
    assert_ne!(compute_etag(&resized), tag);

    let new_crc = manifest(vec![member("a", 3, 9), member("b", 4, 8)]);
    assert_ne!(compute_etag(&new_crc), tag);

    let reordered = manifest(vec![member("b", 4, 8), member("a", 3, 7)]);
    assert_ne!(compute_etag(&reordered), tag);

    let moved = manifest(vec![
        Member {
            name: b"a".to_vec(),
            size: 3,
            crc: 7,
            locator: Locator {
                bucket: "other-bucket".to_string(),
                key: "a".to_string(),
                version: None,
            },
        },
        member("b", 4, 8),
    ]);
    assert_ne!(compute_etag(&moved), tag);

    let versioned = manifest(vec![
        Member {
            name: b"a".to_vec(),
            size: 3,
            crc: 7,
            locator: Locator {
                bucket: "test-bucket".to_string(),
                key: "a".to_string(),
                version: Some("v1".to_string()),
            },
        },
        member("b", 4, 8),
    ]);
    assert_ne!(compute_etag(&versioned), tag);

    let other_archive_name = Manifest {
        filename: "other.zip".to_string(),
        members: vec![member("a", 3, 7), member("b", 4, 8)],
    };
    assert_ne!(compute_etag(&other_archive_name), tag);
}

fn config(upstream: &str, strip: &str) -> Config {
    Config {
        upstream: upstream.to_string(),
        strip_prefix: strip.to_string(),
        via_zip_stream_header_value: "true".to_string(),
    }
}

#[test]
fn test_upstream_uri() {
    let c = config("http://up.example", "");
    assert_eq!(upstream_uri(&c, "/a/b?x=1"), Ok("http://up.example/a/b?x=1".to_string()));

    let c = config("http://up.example", "/zips");
    assert_eq!(upstream_uri(&c, "/zips/a"), Ok("http://up.example/a".to_string()));
    assert_eq!(upstream_uri(&c, "/other/a"), Err("Path does not match configured prefix"));
}

#[test]
fn test_dispatch() {
    assert!(matches!(
        dispatch(UpstreamEvent::ConnectFailed),
        GatewayAction::Fail(503, "Upstream connection failed")
    ));
    assert!(matches!(
        dispatch(UpstreamEvent::BodyFailed),
        GatewayAction::Fail(503, "Upstream request failed")
    ));
    assert!(matches!(dispatch(UpstreamEvent::Passthrough), GatewayAction::ForwardUpstream));
    match dispatch(UpstreamEvent::Archive(manifest(vec![member("a", 1, 0)]))) {
        GatewayAction::Stream(l) => assert_eq!(l.total_len, 31 + 1 + 47 + 22),
        _ => panic!("expected a stream action"),
    }
    assert!(matches!(
        dispatch(UpstreamEvent::Archive(manifest(vec![]))),
        GatewayAction::Fail(502, "Invalid archive manifest")
    ));
}
