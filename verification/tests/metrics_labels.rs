use envoy::mcp::{encode, trim_base_url};
use envoy::metrics::{is_id_segment, normalize_path, status_class};

#[test]
fn test_normalize_path_root() {
    assert_eq!(normalize_path("/"), "/");
}

#[test]
fn test_normalize_path_static() {
    assert_eq!(normalize_path("/agents"), "/agents");
    assert_eq!(normalize_path("/health"), "/health");
    assert_eq!(normalize_path("/atheneum/events"), "/atheneum/events");
}

#[test]
fn test_normalize_path_numeric_id() {
    assert_eq!(normalize_path("/agents/42"), "/agents/:id");
    assert_eq!(normalize_path("/messages/123"), "/messages/:id");
}

#[test]
fn test_normalize_path_named_id() {
    assert_eq!(normalize_path("/agents/id1118"), "/agents/:id");
    assert_eq!(normalize_path("/agents/id1.2"), "/agents/:id");
}

#[test]
fn test_normalize_path_mixed() {
    assert_eq!(normalize_path("/agents/id5/messages/42/ack"), "/agents/:id/messages/:id/ack");
}

#[test]
fn test_is_id_segment() {
    assert!(is_id_segment("42"));
    assert!(is_id_segment("0"));
    assert!(is_id_segment("id1118"));
    assert!(is_id_segment("id1"));
    assert!(!is_id_segment("agents"));
    assert!(!is_id_segment("health"));
    assert!(!is_id_segment("ack"));
}

#[test]
fn test_is_id_segment_uuid() {
    assert!(is_id_segment("338b8adc-6c08-4664-af1d-69300e7c576a"));
    assert!(is_id_segment("550e8400-e29b-41d4-a716-446655440000"));
    assert!(!is_id_segment("not-a-uuid"));
    assert!(!is_id_segment("short"));
}

#[test]
fn test_normalize_path_uuid() {
    assert_eq!(
        normalize_path("/atheneum/sessions/338b8adc-6c08-4664-af1d-69300e7c576a"),
        "/atheneum/sessions/:id"
    );
    assert_eq!(
        normalize_path("/atheneum/sessions/338b8adc-6c08-4664-af1d-69300e7c576a/handover"),
        "/atheneum/sessions/:id/handover"
    );
}

#[test]
fn normalize_path_is_idempotent_on_examples() {
    for p in ["/", "", "//agents//42/", "/agents/id5/messages/42/ack", "/x/:id"] {
        let once = normalize_path(p);
        assert_eq!(normalize_path(&once), once);
    }
    assert_eq!(normalize_path(""), "/");
    assert_eq!(normalize_path("//agents//42/"), "/agents/:id");
}

#[test]
fn u64_overflow_segment_is_not_numeric_id() {
    assert!(is_id_segment("18446744073709551615"));
    assert!(!is_id_segment("18446744073709551616"));
    assert!(is_id_segment("+7"));
}

#[test]
fn status_classes() {
    assert_eq!(status_class(200), "2xx");
    assert_eq!(status_class(404), "4xx");
    assert_eq!(status_class(503), "5xx");
}

#[test]
fn encode_passes_through_safe_strings() {
    assert_eq!(encode("hello-123_world.txt"), "hello-123_world.txt");
}

#[test]
fn encode_escapes_special_chars() {
    assert_eq!(encode("a b&c"), "a%20b%26c");
    assert_eq!(encode("two words"), "two%20words");
}

#[test]
fn encode_escapes_multibyte_utf8() {
    assert_eq!(encode("é"), "%C3%A9");
    assert_eq!(encode("~a/b"), "~a%2Fb");
}

#[test]
fn base_url_trailing_slash_is_trimmed() {
    assert_eq!(trim_base_url("http://localhost:9876/"), "http://localhost:9876");
    assert_eq!(trim_base_url("http://localhost:9876//"), "http://localhost:9876");
    assert_eq!(trim_base_url("http://localhost:9876"), "http://localhost:9876");
}

#[test]
fn words_starting_with_id_are_not_ids() {
    assert!(!is_id_segment("identity"));
    assert!(!is_id_segment("idle"));
    assert!(!is_id_segment("id"));
    assert!(!is_id_segment("id1."));
    assert!(!is_id_segment("id1..2"));
    assert!(is_id_segment("id42"));
    assert!(is_id_segment("id1.2"));
    assert_eq!(normalize_path("/agents/identity"), "/agents/identity");
    assert_eq!(normalize_path("/agents/id7.3/messages"), "/agents/:id/messages");
}

#[test]
fn labels_have_one_leading_slash_and_no_empty_segments() {
    assert_eq!(normalize_path("//agents//id7/"), "/agents/:id");
    assert_eq!(normalize_path(""), "/");
    assert_eq!(normalize_path("///"), "/");
    let q = normalize_path("/a//b/c/");
    assert_eq!(q, "/a/b/c");
    assert!(!q.contains("//"));
}

fn pct_decode(s: &str) -> Vec<u8> {
    let b = s.as_bytes();
    let mut out = Vec::new();
    let mut i = 0;
    while i < b.len() {
        if b[i] == b'%' && i + 2 < b.len() {
            let h = |c: u8| (c as char).to_digit(16).unwrap() as u8;
            out.push(h(b[i + 1]) * 16 + h(b[i + 2]));
            i += 3;
        } else {
            out.push(b[i]);
            i += 1;
        }
    }
    out
}

#[test]
fn encoding_decodes_back() {
    for s in ["a b", "100%", "ünïcödé/?&=", "plain-text_1.2~"] {
        let e = encode(s);
        assert_eq!(pct_decode(&e), s.as_bytes());
    }
    assert_eq!(encode("a b"), "a%20b");
    assert_eq!(encode("100%"), "100%25");
}
