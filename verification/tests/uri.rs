use proxylab::message::Uri;
use proxylab::uri::{parse_uri, uri_from_parts, URI_PATTERN};

fn uri(host: &str, port: u16, path: &str) -> Uri {
    Uri { host: host.to_string(), port, path: path.to_string() }
}

fn parts(u: &Uri) -> (String, u16, String) {
    (u.host.clone(), u.port, u.path.clone())
}

#[test]
fn absolute_uri_with_port_and_no_host_header() {
    let u = parse_uri("http://h:8080/x", "").unwrap();
    assert_eq!(parts(&u), ("h".to_string(), 8080, "/x".to_string()));
}

#[test]
fn path_only_target_takes_the_host_header() {
    let u = parse_uri("/x", "h").unwrap();
    assert_eq!(parts(&u), ("h".to_string(), 80, "/x".to_string()));
}

#[test]
fn target_without_scheme() {
    let u = parse_uri("example.org:81/a/b?c=d", "other").unwrap();
    assert_eq!(parts(&u), ("example.org".to_string(), 81, "/a/b?c=d".to_string()));
    let u = parse_uri("example.org/", "other").unwrap();
    assert_eq!(parts(&u), ("example.org".to_string(), 80, "/".to_string()));
}

#[test]
fn default_host_may_name_a_port() {
    let u = parse_uri("/index.html", "127.0.0.1:9000").unwrap();
    assert_eq!(parts(&u), ("127.0.0.1".to_string(), 9000, "/index.html".to_string()));
}

#[test]
fn port_that_cannot_be_read_is_80() {
    assert_eq!(parse_uri("http://h:x/p", "").unwrap().port, 80);
    assert_eq!(parse_uri("http://h:/p", "").unwrap().port, 80);
    assert_eq!(parse_uri("http://h:65536/p", "").unwrap().port, 80);
    assert_eq!(parse_uri("http://h:65535/p", "").unwrap().port, 65535);
    assert_eq!(parse_uri("http://h:+81/p", "").unwrap().port, 81);
}

#[test]
fn second_colon_ends_the_port() {
    let u = parse_uri("http://h:81:82/p", "").unwrap();
    assert_eq!(parts(&u), ("h".to_string(), 81, "/p".to_string()));
}

#[test]
fn target_without_a_path_is_no_uri() {
    assert!(parse_uri("nopath", "h").is_none());
    assert!(parse_uri("", "h").is_none());
    assert!(parse_uri("host:80", "h").is_none());
}

#[test]
fn scheme_without_authority_falls_back_to_the_whole_text() {
    let u = parse_uri("http://host", "").unwrap();
    assert_eq!(parts(&u), ("http".to_string(), 80, "//host".to_string()));
}

#[test]
fn trailing_whitespace_is_not_part_of_the_path() {
    let u = parse_uri("/x \t\r\n", "h").unwrap();
    assert_eq!(u.path, "/x");
    let u = parse_uri("/a b  ", "h").unwrap();
    assert_eq!(u.path, "/a b");
}

#[test]
fn empty_default_host_gives_an_empty_host() {
    let u = parse_uri("/x", "").unwrap();
    assert_eq!(parts(&u), ("".to_string(), 80, "/x".to_string()));
}

#[test]
fn uri_from_parts_splits_the_authority() {
    let u = uri_from_parts(Some("h:8080"), Some("/x"), "d").unwrap();
    assert_eq!(parts(&u), ("h".to_string(), 8080, "/x".to_string()));
    let u = uri_from_parts(Some(""), Some("/x"), "d:81").unwrap();
    assert_eq!(parts(&u), ("d".to_string(), 81, "/x".to_string()));
    let u = uri_from_parts(None, Some("/x"), "d").unwrap();
    assert_eq!(parts(&u), ("d".to_string(), 80, "/x".to_string()));
    assert!(uri_from_parts(Some("h"), None, "d").is_none());
    let u = uri_from_parts(Some(":81"), Some("/"), "d").unwrap();
    assert_eq!(parts(&u), ("".to_string(), 81, "/".to_string()));
}

#[test]
fn canonical_text_leaves_port_80_out() {
    assert_eq!(uri("h", 80, "/x").to_string(), "http://h/x");
    assert_eq!(uri("h", 8080, "/x").to_string(), "http://h:8080/x");
    assert_eq!(uri("example.org", 1, "/").to_string(), "http://example.org:1/");
    assert_eq!(uri("h", 65535, "/a/b").to_string(), "http://h:65535/a/b");
}

#[test]
fn uris_are_equal_when_their_canonical_texts_are() {
    assert_eq!(uri("h", 80, "/x"), uri("h", 80, "/x"));
    assert_ne!(uri("h", 80, "/x"), uri("h", 81, "/x"));
    assert_ne!(uri("h", 80, "/x"), uri("h", 80, "/y"));
    assert_eq!(uri("a:81", 80, "/"), uri("a", 81, "/"));
    assert_eq!(uri("h", 80, "/x/y"), uri("h/x", 80, "/y"));
}

#[test]
fn canonical_text_reads_back() {
    for u in [uri("h", 80, "/x"), uri("h", 8080, "/x"), uri("example.org", 443, "/a/b?c=d")] {
        let back = parse_uri(&u.to_string(), "other").unwrap();
        assert_eq!(parts(&back), parts(&u));
    }
}

#[test]
fn the_pattern_is_the_documented_one() {
    assert_eq!(URI_PATTERN, r"^(?:http://)?(.*?)(/.*?)\s*$");
}

#[test]
fn clone_keeps_the_fields() {
    let u = uri("h", 8080, "/x");
    assert_eq!(parts(&u.clone()), parts(&u));
}
