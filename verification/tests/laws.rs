use proxylab::laws::{header_line, one_word, request_round_trips};
use proxylab::message::{Request, Uri};
use proxylab::reader::read_request;
use proxylab::writer::request;

fn make(method: &str, host: &str, port: u16, path: &str, version: &str, headers: &[&str]) -> Request {
    Request {
        method: method.to_string(),
        uri: Uri { host: host.to_string(), port, path: path.to_string() },
        version: version.to_string(),
        headers: headers.iter().map(|s| s.to_string()).collect(),
    }
}

fn reads_back(req: &Request) -> bool {
    match read_request(&request(req)) {
        Ok(r) => {
            r.method == req.method
                && r.uri.host == req.uri.host
                && r.uri.port == req.uri.port
                && r.uri.path == req.uri.path
                && r.version == req.version
                && r.headers == req.headers
        }
        Err(_) => false,
    }
}

#[test]
fn one_word_has_no_white_space() {
    assert!(one_word("GET"));
    assert!(one_word("http://h:8080/x?y=1"));
    assert!(!one_word(""));
    assert!(!one_word("a b"));
    assert!(!one_word(" a"));
    assert!(!one_word("a\n"));
    assert!(!one_word("a\u{3000}b"));
}

#[test]
fn header_line_is_trimmed_and_on_one_line() {
    assert!(header_line("Host: h"));
    assert!(header_line("X"));
    assert!(header_line("A:  b   c"));
    assert!(!header_line(""));
    assert!(!header_line(" Host: h"));
    assert!(!header_line("Host: h "));
    assert!(!header_line("Host: h\r"));
    assert!(!header_line("A: b\nB: c"));
}

#[test]
fn requests_that_round_trip_are_read_back() {
    let cases = [
        make("GET", "h", 80, "/", "HTTP/1.0", &["Host: h"]),
        make("GET", "h", 8080, "/x", "HTTP/1.0", &["Host: h:8080", "Accept: */*"]),
        make("GET", "example.com", 80, "/a/b?c=d", "HTTP/1.1", &[]),
        make("HEAD", "h", 1, "/", "HTTP/1.0", &["Accept: a, b", "Host: other"]),
        make("GET", "h", 65535, "//x//", "HTTP/1.0", &["A: b"]),
        make("GET", "", 80, "/", "HTTP/1.0", &[]),
    ];
    for req in cases.iter() {
        assert!(request_round_trips(req), "{:?}", req);
        assert!(reads_back(req), "{:?}", req);
    }
}

#[test]
fn requests_that_do_not_round_trip_are_told_apart() {
    let cases = [
        make("", "h", 80, "/", "HTTP/1.0", &[]),
        make("GET it", "h", 80, "/", "HTTP/1.0", &[]),
        make("GET", "h", 80, "/", "", &[]),
        make("GET", "h", 80, "/", "HTTP/1.0 x", &[]),
        make("GET", "h", 80, "/a b", "HTTP/1.0", &[]),
        make("GET", "h h", 80, "/", "HTTP/1.0", &[]),
        make("GET", "h", 80, "/", "HTTP/1.0", &["Host: h "]),
        make("GET", "h", 80, "/", "HTTP/1.0", &[""]),
        make("GET", "h", 80, "/", "HTTP/1.0", &["A: b\nC: d"]),
        make("GET", "h", 80, "/", "HTTP/1.0", &["Host:"]),
        make("GET", "h:1", 80, "/", "HTTP/1.0", &[]),
        make("GET", "h/x", 80, "/", "HTTP/1.0", &[]),
        make("GET", "h", 80, "", "HTTP/1.0", &[]),
        make("GET", "h", 80, "x", "HTTP/1.0", &[]),
    ];
    for req in cases.iter() {
        assert!(!request_round_trips(req), "{:?}", req);
        assert!(!reads_back(req), "{:?}", req);
    }
}
