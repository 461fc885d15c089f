use brioche_cache::models::HashId;
use brioche_cache::upstream::{
    content_length_hint, header_is_text, parse_u64, upstream_url, UpstreamResource,
};

fn fake_hash_id(n: u64) -> HashId {
    let bytes = n.to_be_bytes();
    let mut hash_bytes = [0; HashId::LEN];
    hash_bytes[(HashId::LEN - bytes.len())..].copy_from_slice(&bytes);
    HashId::from_bytes(hash_bytes)
}

#[test]
fn upstream_paths() {
    let id = fake_hash_id(0x1234);
    let hex = id.to_hex_string();
    assert_eq!(UpstreamResource::Chunk { chunk_id: id }.path(), format!("chunks/{hex}.zst"));
    assert_eq!(
        UpstreamResource::Artifact { artifact_id: id }.path(),
        format!("artifacts/{hex}.bar.zst")
    );
    assert_eq!(
        UpstreamResource::ProjectSource { project_id: id }.path(),
        format!("projects/{hex}/source.json")
    );
    assert_eq!(
        UpstreamResource::BakeOutput { recipe_id: id }.path(),
        format!("bakes/{hex}/output.json")
    );
}

#[test]
fn upstream_url_joins_to_base() {
    let id = fake_hash_id(1);
    let hex = id.to_hex_string();
    let chunk = UpstreamResource::Chunk { chunk_id: id };
    assert_eq!(
        upstream_url("http://127.0.0.1:1234", &chunk).unwrap(),
        format!("http://127.0.0.1:1234/chunks/{hex}.zst")
    );
    assert_eq!(
        upstream_url("https://example.com/cache/", &chunk).unwrap(),
        format!("https://example.com/cache/chunks/{hex}.zst")
    );
    // Without a trailing slash the last segment is replaced.
    assert_eq!(
        upstream_url("https://example.com/cache", &chunk).unwrap(),
        format!("https://example.com/chunks/{hex}.zst")
    );
    assert!(upstream_url("not a url", &chunk).is_err());
}

#[test]
fn parse_u64_text() {
    assert_eq!(parse_u64(b"123"), Some(123));
    assert_eq!(parse_u64(b"+5"), Some(5));
    assert_eq!(parse_u64(b"0"), Some(0));
    assert_eq!(parse_u64(b"007"), Some(7));
    assert_eq!(parse_u64(b"18446744073709551615"), Some(u64::MAX));
    assert_eq!(parse_u64(b"18446744073709551616"), None);
    assert_eq!(parse_u64(b"99999999999999999999x"), None);
    assert_eq!(parse_u64(b" 5"), None);
    assert_eq!(parse_u64(b"-5"), None);
    assert_eq!(parse_u64(b"+"), None);
    assert_eq!(parse_u64(b""), None);
    assert_eq!(parse_u64(b"12a"), None);
    for text in ["0", "42", "+17", "18446744073709551615", "18446744073709551616", "x", ""] {
        assert_eq!(parse_u64(text.as_bytes()), text.parse::<u64>().ok());
    }
}

#[test]
fn content_length_header() {
    let exact = |bytes: &[u8]| content_length_hint(Some(bytes)).map(|h| (h.lower(), h.upper()));
    assert_eq!(exact(b"42"), Some((42, Some(42))));
    assert_eq!(exact(b"+5"), Some((5, Some(5))));
    assert_eq!(exact(b"many"), None);
    assert_eq!(exact(b"4\xff2"), None);
    assert_eq!(exact(b"4 2"), None);
    assert!(content_length_hint(None).is_none());
    assert!(header_is_text(b"a b\tc~"));
    assert!(!header_is_text(b"a\x7f"));
    assert!(!header_is_text(b"\n"));
}
