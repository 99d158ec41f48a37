use proxylab::message::{HttpError, Request, Response, Uri};
use proxylab::number::parse_number;
use proxylab::reader::{
    assemble_request, find_framing, find_host, header_of, join_from, length_of, line_end,
    number_error_name, print_requesthdrs, read_headers, read_request, read_response, Fed,
    RequestReader, ResponseReader, Want,
};
use proxylab::wire::{Framing, EARLY_EOF};

fn strings(items: &[&str]) -> Vec<String> {
    items.iter().map(|s| s.to_string()).collect()
}

fn error_detail(e: HttpError) -> String {
    match e {
        HttpError::Error(d) => d,
        other => panic!("not a plain error: {:?}", other),
    }
}

#[test]
fn request_with_absolute_uri_and_no_host_header() {
    let r = read_request(b"GET http://h:8080/x HTTP/1.0\r\n\r\n").unwrap();
    assert_eq!(r.method, "GET");
    assert_eq!(r.uri.host, "h");
    assert_eq!(r.uri.port, 8080);
    assert_eq!(r.uri.path, "/x");
    assert_eq!(r.version, "HTTP/1.0");
    assert_eq!(r.headers, Vec::<String>::new());
}

#[test]
fn request_with_path_and_host_header() {
    let r = read_request(b"GET /x HTTP/1.0\r\nHost: h\r\n\r\n").unwrap();
    assert_eq!(r.uri.host, "h");
    assert_eq!(r.uri.port, 80);
    assert_eq!(r.uri.path, "/x");
    assert_eq!(r.headers, strings(&["Host: h"]));
}

#[test]
fn request_keeps_its_headers_in_order() {
    let r = read_request(
        b"GET /a HTTP/1.1\r\nHost: example.org:81\r\n  Accept: */*  \r\nX-Empty:\r\n\r\nignored",
    )
    .unwrap();
    assert_eq!(r.uri.host, "example.org");
    assert_eq!(r.uri.port, 81);
    assert_eq!(r.headers, strings(&["Host: example.org:81", "Accept: */*", "X-Empty:"]));
    assert_eq!(r.version, "HTTP/1.1");
}

#[test]
fn first_host_header_counts() {
    let r = read_request(b"GET /x HTTP/1.0\r\nHost: first\r\nHost: second\r\n\r\n").unwrap();
    assert_eq!(r.uri.host, "first");
}

#[test]
fn bare_line_feeds_end_lines_too() {
    let r = read_request(b"GET /x HTTP/1.0\nHost: h\n\n").unwrap();
    assert_eq!(r.uri.host, "h");
    assert_eq!(r.headers, strings(&["Host: h"]));
}

#[test]
fn request_may_end_without_an_empty_line() {
    let r = read_request(b"GET /x HTTP/1.0\r\nHost: h").unwrap();
    assert_eq!(r.headers, strings(&["Host: h"]));
}

#[test]
fn extra_words_on_the_request_line_fail() {
    for input in [
        &b"GET /x HTTP/1.0 extra\r\nHost: h\r\n\r\n"[..],
        b"GET /x HTTP/1.0 a b\r\nHost: h\r\n\r\n",
        b"GET http://h/x y HTTP/1.0\r\n\r\n",
    ] {
        let e = read_request(input).unwrap_err();
        assert_eq!(e, HttpError::Error("request line parsing failed".to_string()));
    }
}

#[test]
fn request_line_of_three_words_may_have_blanks_around_them() {
    let r = read_request(b"  GET \t /x   HTTP/1.0  \r\nHost: h\r\n\r\n").unwrap();
    assert_eq!(r.method, "GET");
    assert_eq!(r.uri.path, "/x");
    assert_eq!(r.version, "HTTP/1.0");
}

#[test]
fn request_line_with_too_few_words_fails() {
    for input in [&b""[..], b"\r\n", b"GET\r\n\r\n", b"GET /x\r\nHost: h\r\n\r\n"] {
        let e = read_request(input).unwrap_err();
        assert_eq!(e, HttpError::Error("request line parsing failed".to_string()));
    }
}

#[test]
fn request_line_that_is_not_utf8_fails() {
    let e = read_request(b"GET /\xff HTTP/1.0\r\n\r\n").unwrap_err();
    let d = error_detail(e);
    assert!(d.starts_with("decode request failed: "), "{}", d);
    assert!(d.len() > "decode request failed: ".len());
}

#[test]
fn header_that_is_not_utf8_is_kept_with_replacements() {
    let r = read_request(b"GET /x HTTP/1.0\r\nHost: h\r\nX: a\xffb\r\n\r\n").unwrap();
    assert_eq!(r.headers, strings(&["Host: h", "X: a\u{fffd}b"]));
}

#[test]
fn host_header_without_a_value_fails() {
    let e = read_request(b"GET /x HTTP/1.0\r\nHost:\r\n\r\n").unwrap_err();
    assert_eq!(e, HttpError::Error("parse host failed".to_string()));
    let e = read_request(b"GET /x HTTP/1.0\r\nHost:h\r\n\r\n").unwrap_err();
    assert_eq!(e, HttpError::Error("parse host failed".to_string()));
}

#[test]
fn target_without_a_path_fails() {
    let e = read_request(b"GET nopath HTTP/1.0\r\nHost: h\r\n\r\n").unwrap_err();
    assert_eq!(e, HttpError::Error("parse uri failed".to_string()));
}

#[test]
fn response_with_a_length() {
    let r = read_response(b"HTTP/1.0 200 OK\r\nContent-Length: 5\r\n\r\nhello and more").unwrap();
    assert_eq!(
        r,
        Response {
            version: "HTTP/1.0".to_string(),
            status: 200,
            reason: "OK".to_string(),
            headers: strings(&["Content-Length: 5"]),
            content: b"hello".to_vec(),
        }
    );
}

#[test]
fn response_reason_is_joined_by_single_spaces() {
    let r = read_response(b"HTTP/1.1  404   Not \t Found \r\n\r\n").unwrap();
    assert_eq!(r.status, 404);
    assert_eq!(r.reason, "Not Found");
    let r = read_response(b"HTTP/1.1 204\r\n\r\n").unwrap();
    assert_eq!(r.reason, "");
    assert_eq!(r.content, Vec::<u8>::new());
}

#[test]
fn response_without_framing_has_no_body() {
    let r = read_response(b"HTTP/1.0 200 OK\r\nServer: x\r\n\r\nbody").unwrap();
    assert_eq!(r.content, Vec::<u8>::new());
    assert_eq!(r.headers, strings(&["Server: x"]));
}

#[test]
fn chunked_body_is_put_together() {
    let r = read_response(
        b"HTTP/1.1 200 OK\r\nTransfer-Encoding: chunked\r\n\r\n2\r\nab\r\n1\r\nc\r\n0\r\n\r\n",
    )
    .unwrap();
    assert_eq!(r.content, b"abc".to_vec());
    assert_eq!(r.headers, strings(&["Transfer-Encoding: chunked"]));
}

#[test]
fn single_zero_chunk_gives_an_empty_body() {
    let r = read_response(b"HTTP/1.1 200 OK\r\nTransfer-Encoding: chunked\r\n\r\n0\r\n\r\n").unwrap();
    assert_eq!(r.content, Vec::<u8>::new());
}

#[test]
fn chunk_sizes_are_hexadecimal() {
    let mut input = b"HTTP/1.1 200 OK\r\nTransfer-Encoding: chunked\r\n\r\n1a\r\n".to_vec();
    input.extend_from_slice(&[b'x'; 26]);
    input.extend_from_slice(b"\r\n  A  \r\n0123456789\r\n0\r\n");
    let r = read_response(&input).unwrap();
    assert_eq!(r.content.len(), 36);
    assert_eq!(&r.content[26..], b"0123456789");
}

#[test]
fn chunk_data_may_hold_line_feeds() {
    let r = read_response(
        b"HTTP/1.1 200 OK\r\nTransfer-Encoding: chunked\r\n\r\n4\r\na\r\nb\r\n0\r\n",
    )
    .unwrap();
    assert_eq!(r.content, b"a\r\nb".to_vec());
}

#[test]
fn trailers_are_not_read() {
    let r = read_response(
        b"HTTP/1.1 200 OK\r\nTransfer-Encoding: chunked\r\n\r\n1\r\nz\r\n0\r\nX-Trailer: 1\r\n\r\n",
    )
    .unwrap();
    assert_eq!(r.content, b"z".to_vec());
}

#[test]
fn chunk_size_that_cannot_be_read_fails() {
    let e = read_response(b"HTTP/1.1 200 OK\r\nTransfer-Encoding: chunked\r\n\r\nxyz\r\n").unwrap_err();
    assert_eq!(e, HttpError::Error("chunk size parsing failed: ParseIntError { kind: InvalidDigit }".to_string()));
    let e = read_response(b"HTTP/1.1 200 OK\r\nTransfer-Encoding: chunked\r\n\r\n").unwrap_err();
    assert_eq!(e, HttpError::Error("chunk size parsing failed: ParseIntError { kind: Empty }".to_string()));
    let e = read_response(b"HTTP/1.1 200 OK\r\nTransfer-Encoding: chunked\r\n\r\n5;ext\r\nhello\r\n0\r\n")
        .unwrap_err();
    assert_eq!(e, HttpError::Error("chunk size parsing failed: ParseIntError { kind: InvalidDigit }".to_string()));
    let e = read_response(
        b"HTTP/1.1 200 OK\r\nTransfer-Encoding: chunked\r\n\r\nfffffffffffffffffffff\r\n",
    )
    .unwrap_err();
    assert_eq!(e, HttpError::Error("chunk size parsing failed: ParseIntError { kind: PosOverflow }".to_string()));
}

#[test]
fn chunk_that_is_cut_short_fails() {
    let e = read_response(b"HTTP/1.1 200 OK\r\nTransfer-Encoding: chunked\r\n\r\n5\r\nab").unwrap_err();
    assert_eq!(e, HttpError::Error("chunk reading failed: Custom { kind: UnexpectedEof, error: \"early eof\" }".to_string()));
}

#[test]
fn body_that_is_cut_short_fails() {
    let e = read_response(b"HTTP/1.0 200 OK\r\nContent-Length: 6\r\n\r\nhello").unwrap_err();
    assert_eq!(e, HttpError::Error("content reading failed: Custom { kind: UnexpectedEof, error: \"early eof\" }".to_string()));
}

#[test]
fn length_that_cannot_be_read_fails() {
    for header in ["Content-Length: x", "Content-Length:", "Content-Length:5", "Content-Length: -1"] {
        let input = format!("HTTP/1.0 200 OK\r\n{}\r\n\r\nhello", header);
        let e = read_response(input.as_bytes()).unwrap_err();
        assert_eq!(e, HttpError::Error("parse content length failed".to_string()), "{}", header);
    }
}

#[test]
fn length_goes_before_chunks_wherever_it_stands() {
    let r = read_response(
        b"HTTP/1.1 200 OK\r\nContent-Length: 3\r\nTransfer-Encoding: chunked\r\n\r\n2\r\nab\r\n0\r\n",
    )
    .unwrap();
    assert_eq!(r.content, b"2\r\n".to_vec());
    let r = read_response(
        b"HTTP/1.1 200 OK\r\nTransfer-Encoding: chunked\r\nContent-Length: 3\r\n\r\n2\r\nab\r\n0\r\n",
    )
    .unwrap();
    assert_eq!(r.content, b"2\r\n".to_vec());
}

#[test]
fn last_length_counts() {
    let r = read_response(b"HTTP/1.0 200 OK\r\nContent-Length: 1\r\nContent-Length: 2\r\n\r\nabc").unwrap();
    assert_eq!(r.content, b"ab".to_vec());
}

#[test]
fn status_line_that_cannot_be_read_fails() {
    for input in [&b""[..], b"HTTP/1.0\r\n\r\n", b"HTTP/1.0 abc OK\r\n\r\n", b"HTTP/1.0 70000 OK\r\n\r\n"] {
        let e = read_response(input).unwrap_err();
        assert_eq!(e, HttpError::Error("status line parsing failed".to_string()));
    }
    let e = read_response(b"HTTP/1.0 \xff 200\r\n\r\n").unwrap_err();
    assert!(error_detail(e).starts_with("decode request failed: "));
}

#[test]
fn find_framing_follows_the_headers() {
    assert_eq!(find_framing(&strings(&[])), Ok(Framing::Nothing));
    assert_eq!(find_framing(&strings(&["Server: x"])), Ok(Framing::Nothing));
    assert_eq!(find_framing(&strings(&["Content-Length: 12"])), Ok(Framing::Fixed(12)));
    assert_eq!(find_framing(&strings(&["Content-Length:  12  trailing"])), Ok(Framing::Fixed(12)));
    assert_eq!(find_framing(&strings(&["Transfer-Encoding: chunked"])), Ok(Framing::Chunked));
    assert_eq!(find_framing(&strings(&["Transfer-Encoding: gzip"])), Ok(Framing::Nothing));
    assert_eq!(find_framing(&strings(&["transfer-encoding: chunked"])), Ok(Framing::Nothing));
    assert_eq!(
        find_framing(&strings(&["Transfer-Encoding: chunked", "Content-Length: x"])),
        Err(HttpError::Error("parse content length failed".to_string()))
    );
}

#[test]
fn length_of_reads_the_second_word() {
    assert_eq!(length_of("Content-Length: 5"), Some(5));
    assert_eq!(length_of("Content-Length: +5"), Some(5));
    assert_eq!(length_of("Content-Length:"), None);
    assert_eq!(length_of("Content-Length: five"), None);
    assert_eq!(length_of("Content-Length: 99999999999999999999999999"), None);
}

#[test]
fn find_host_reads_the_second_word_of_the_first_host_header() {
    assert_eq!(find_host(&strings(&[])), Ok("".to_string()));
    assert_eq!(find_host(&strings(&["Accept: x", "Host: h:81 extra"])), Ok("h:81".to_string()));
    assert_eq!(find_host(&strings(&["host: h"])), Ok("".to_string()));
    assert_eq!(
        find_host(&strings(&["Host:", "Host: h"])),
        Err(HttpError::Error("parse host failed".to_string()))
    );
}

#[test]
fn assemble_request_puts_the_parts_together() {
    let r = assemble_request("GET".to_string(), "/x", "HTTP/1.0".to_string(), strings(&["Host: h:81"]))
        .unwrap();
    assert_eq!(
        r,
        Request {
            method: "GET".to_string(),
            uri: Uri { host: "h".to_string(), port: 81, path: "/x".to_string() },
            version: "HTTP/1.0".to_string(),
            headers: strings(&["Host: h:81"]),
        }
    );
    let e = assemble_request("GET".to_string(), "x", "HTTP/1.0".to_string(), strings(&[])).unwrap_err();
    assert_eq!(e, HttpError::Error("parse uri failed".to_string()));
}

#[test]
fn header_of_decodes_and_trims() {
    assert_eq!(header_of(b"  Host: h \r\n"), "Host: h");
    assert_eq!(header_of(b"\r\n"), "");
    assert_eq!(header_of(b""), "");
    assert_eq!(header_of(b"a\xffb\n"), "a\u{fffd}b");
    assert_eq!(header_of("é: ü\r\n".as_bytes()), "é: ü");
}

#[test]
fn join_from_joins_the_rest() {
    let w = strings(&["HTTP/1.0", "404", "Not", "Found"]);
    assert_eq!(join_from(&w, 2), "Not Found");
    assert_eq!(join_from(&w, 3), "Found");
    assert_eq!(join_from(&w, 4), "");
    assert_eq!(join_from(&w, 9), "");
    assert_eq!(join_from(&w, 0), "HTTP/1.0 404 Not Found");
}

#[test]
fn line_end_finds_the_end_of_the_line() {
    let input = b"ab\ncd\n\nef";
    assert_eq!(line_end(input, 0), 3);
    assert_eq!(line_end(input, 1), 3);
    assert_eq!(line_end(input, 3), 6);
    assert_eq!(line_end(input, 6), 7);
    assert_eq!(line_end(input, 7), 9);
    assert_eq!(line_end(input, 9), 9);
}

#[test]
fn read_headers_gives_the_block_and_its_size() {
    let (h, n) = read_headers(b"A: 1\r\n B: 2 \r\n\r\nbody");
    assert_eq!(h, strings(&["A: 1", "B: 2"]));
    assert_eq!(n, 16);
    let (h, n) = read_headers(b"\r\nbody");
    assert_eq!(h, Vec::<String>::new());
    assert_eq!(n, 2);
    let (h, n) = read_headers(b"A: 1");
    assert_eq!(h, strings(&["A: 1"]));
    assert_eq!(n, 4);
    let (h, n) = read_headers(b"");
    assert_eq!(h, Vec::<String>::new());
    assert_eq!(n, 0);
}

#[test]
fn print_requesthdrs_stops_at_the_empty_line() {
    assert_eq!(print_requesthdrs(&strings(&["a", "b", "", "c"])), strings(&["a", "b"]));
    assert_eq!(print_requesthdrs(&strings(&["", "c"])), Vec::<String>::new());
    assert_eq!(print_requesthdrs(&strings(&["a"])), strings(&["a"]));
    assert_eq!(print_requesthdrs(&strings(&[])), Vec::<String>::new());
}

#[test]
fn request_reader_is_fed_line_by_line() {
    let reader = RequestReader::new();
    assert_eq!(reader.want(), Want::Line);
    let reader = match reader.feed(b"GET /x HTTP/1.0\r\n".to_vec()) {
        Fed::More(r) => r,
        _ => panic!("the request line does not end a request"),
    };
    assert_eq!(reader.want(), Want::Line);
    let reader = match reader.feed(b"Host: h\r\n".to_vec()) {
        Fed::More(r) => r,
        _ => panic!("a header does not end a request"),
    };
    match reader.feed(b"\r\n".to_vec()) {
        Fed::Done(r) => {
            assert_eq!(r.uri.host, "h");
            assert_eq!(r.headers, strings(&["Host: h"]));
        }
        _ => panic!("the empty line ends a request"),
    }
}

#[test]
fn request_reader_names_the_read_that_failed() {
    let reader = RequestReader::new();
    assert_eq!(reader.fail("Kind(TimedOut)"), HttpError::Error("read failed: Kind(TimedOut)".to_string()));
    let reader = match reader.feed(b"GET /x HTTP/1.0\r\n".to_vec()) {
        Fed::More(r) => r,
        _ => panic!("the request line does not end a request"),
    };
    assert_eq!(reader.fail("x"), HttpError::Error("header reading failed: x".to_string()));
}

fn more(f: Fed<ResponseReader, Response>) -> ResponseReader {
    match f {
        Fed::More(r) => r,
        Fed::Done(_) => panic!("done too early"),
        Fed::Failed(e) => panic!("failed: {:?}", e),
    }
}

#[test]
fn response_reader_asks_for_the_body() {
    let reader = ResponseReader::new();
    assert_eq!(reader.want(), Want::Line);
    assert_eq!(reader.fail("x"), HttpError::Error("read failed: x".to_string()));
    let reader = more(reader.feed(b"HTTP/1.0 200 OK\r\n".to_vec()));
    assert_eq!(reader.want(), Want::Line);
    assert_eq!(reader.fail("x"), HttpError::Error("header reading failed: x".to_string()));
    let reader = more(reader.feed(b"Content-Length: 5\r\n".to_vec()));
    let reader = more(reader.feed(b"\r\n".to_vec()));
    assert_eq!(reader.want(), Want::Exact(5));
    assert_eq!(reader.fail("x"), HttpError::Error("content reading failed: x".to_string()));
    match reader.feed(b"hello".to_vec()) {
        Fed::Done(r) => assert_eq!(r.content, b"hello".to_vec()),
        _ => panic!("the body ends a response"),
    }
}

#[test]
fn response_reader_walks_through_chunks() {
    let reader = more(ResponseReader::new().feed(b"HTTP/1.1 200 OK\r\n".to_vec()));
    let reader = more(reader.feed(b"Transfer-Encoding: chunked\r\n".to_vec()));
    let reader = more(reader.feed(b"\r\n".to_vec()));
    assert_eq!(reader.want(), Want::Line);
    assert_eq!(reader.fail("x"), HttpError::Error("chunk size reading failed: x".to_string()));
    let reader = more(reader.feed(b"3\r\n".to_vec()));
    assert_eq!(reader.want(), Want::Exact(3));
    assert_eq!(reader.fail("x"), HttpError::Error("chunk reading failed: x".to_string()));
    let reader = more(reader.feed(b"abc".to_vec()));
    assert_eq!(reader.want(), Want::Line);
    assert_eq!(reader.fail("x"), HttpError::Error("chunk footer reading failed: x".to_string()));
    let reader = more(reader.feed(b"\r\n".to_vec()));
    assert_eq!(reader.want(), Want::Line);
    match reader.feed(b"0\r\n".to_vec()) {
        Fed::Done(r) => assert_eq!(r.content, b"abc".to_vec()),
        _ => panic!("the zero chunk ends a response"),
    }
}

#[test]
fn response_with_length_zero_is_done_after_the_headers() {
    let reader = more(ResponseReader::new().feed(b"HTTP/1.0 304 Not Modified\r\n".to_vec()));
    let reader = more(reader.feed(b"Content-Length: 0\r\n".to_vec()));
    match reader.feed(b"\r\n".to_vec()) {
        Fed::Done(r) => {
            assert_eq!(r.content, Vec::<u8>::new());
            assert_eq!(r.reason, "Not Modified");
        }
        _ => panic!("nothing is left to read"),
    }
}

#[test]
fn number_error_texts_are_those_of_the_standard_library() {
    for s in ["", "+", "-1", "xyz", "5;ext", " 5", "fffffffffffffffffffff", "10000000000000000"] {
        let ours = parse_number(s, 16, usize::MAX as u64).unwrap_err();
        let theirs = usize::from_str_radix(s, 16).unwrap_err();
        assert_eq!(number_error_name(ours), format!("{:?}", theirs), "{:?}", s);
    }
    for s in ["", "x", "65536", "99999999999999999999999"] {
        let ours = parse_number(s, 10, 65535).unwrap_err();
        let theirs = s.parse::<u16>().unwrap_err();
        assert_eq!(number_error_name(ours), format!("{:?}", theirs), "{:?}", s);
    }
}

#[test]
fn cause_of_a_short_read_is_written_as_the_io_error() {
    let e = std::io::Error::new(std::io::ErrorKind::UnexpectedEof, "early eof");
    assert_eq!(EARLY_EOF, format!("{:?}", e));
}
