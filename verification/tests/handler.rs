use proxylab::cache::Cache;
use proxylab::handler::{
    conclude, content_type, handle_proxy, plan, same_text, serve_static, static_file,
    static_reply, FileProbe, Plan,
};
use proxylab::message::{get_filetype, FileType, HttpError, Request, Response, Uri};
use proxylab::reader::read_request;
use proxylab::writer::{client_error, response};

fn strings(items: &[&str]) -> Vec<String> {
    items.iter().map(|s| s.to_string()).collect()
}

fn uri(path: &str) -> Uri {
    Uri { host: "127.0.0.1".to_string(), port: 8000, path: path.to_string() }
}

fn ok(headers: &[&str], content: &[u8]) -> Response {
    Response {
        version: "HTTP/1.0".to_string(),
        status: 200,
        reason: "OK".to_string(),
        headers: strings(headers),
        content: content.to_vec(),
    }
}

const GET_A: &[u8] = b"GET http://127.0.0.1:8000/a HTTP/1.0\r\nHost: 127.0.0.1:8000\r\n\r\n";

#[test]
fn texts_are_compared_as_a_whole() {
    assert!(same_text("GET", "GET"));
    assert!(!same_text("GET", "GE"));
    assert!(!same_text("GE", "GET"));
    assert!(!same_text("get", "GET"));
    assert!(same_text("", ""));
}

#[test]
fn miss_then_hit() {
    let mut cache = Cache::new();
    let reply = b"HTTP/1.0 200 OK\r\nContent-Length: 5\r\n\r\nhello";
    let first = handle_proxy(&mut cache, GET_A, &vec![None], reply);
    assert_eq!(first, b"HTTP/1.0 200 OK\r\nContent-Length: 5\r\n\r\nhello".to_vec());
    assert_eq!(cache.len(), 1);
    let second = handle_proxy(&mut cache, GET_A, &vec![], b"");
    assert_eq!(second, first);
    assert_eq!(cache.len(), 1);
}

#[test]
fn chunked_response_goes_out_with_a_length() {
    let mut cache = Cache::new();
    let reply = b"HTTP/1.1 200 OK\r\nTransfer-Encoding: chunked\r\n\r\n2\r\nab\r\n1\r\nc\r\n0\r\n\r\n";
    let out = handle_proxy(&mut cache, GET_A, &vec![None], reply);
    assert_eq!(out, b"HTTP/1.1 200 OK\r\nContent-Length: 3\r\n\r\nabc".to_vec());
    assert_eq!(cache.lookup(&uri("/a")).unwrap().content, b"abc".to_vec());
}

#[test]
fn too_large_response_is_served_and_not_cached() {
    let mut cache = Cache::new();
    let mut reply = b"HTTP/1.0 200 OK\r\nContent-Length: 200001\r\n\r\n".to_vec();
    reply.extend_from_slice(&vec![b'x'; 200_001]);
    let out = handle_proxy(&mut cache, GET_A, &vec![None], &reply);
    assert_eq!(out, reply);
    assert_eq!(cache.len(), 0);
    let again = handle_proxy(&mut cache, GET_A, &vec![], b"");
    assert_eq!(again, client_error(&HttpError::Error("empty socket addrs".to_string())));
}

#[test]
fn other_methods_are_not_implemented() {
    let mut cache = Cache::new();
    let out = handle_proxy(&mut cache, b"POST /x HTTP/1.0\r\nHost: h\r\n\r\n", &vec![None], b"");
    assert_eq!(out, client_error(&HttpError::NotImplemented("POST".to_string())));
    let text = String::from_utf8(out).unwrap();
    assert!(text.starts_with("HTTP/1.0 501 NotImplemented\r\n"));
    assert!(text.contains("<b>501: NotImplemented</b>\r\n<p>The requested method is not implemented: POST\r\n"));
    assert_eq!(cache.len(), 0);
}

#[test]
fn host_that_does_not_connect_is_a_400() {
    let mut cache = Cache::new();
    let out = handle_proxy(
        &mut cache,
        b"GET http://no.such.host.invalid./ HTTP/1.0\r\nHost: no.such.host.invalid\r\n\r\n",
        &vec![Some("refused".to_string())],
        b"",
    );
    let text = String::from_utf8(out).unwrap();
    assert!(text.starts_with("HTTP/1.0 400 Error\r\n"));
    assert!(text.contains("<p>Error occured: connecting failed: refused\r\n"));
    assert_eq!(cache.len(), 0);
}

#[test]
fn request_that_cannot_be_read_is_a_400() {
    let mut cache = Cache::new();
    let out = handle_proxy(&mut cache, b"GET\r\n\r\n", &vec![None], b"");
    assert_eq!(out, client_error(&HttpError::Error("request line parsing failed".to_string())));
}

#[test]
fn plan_answers_from_the_cache() {
    let mut cache = Cache::new();
    cache.insert(&uri("/a"), ok(&["Content-Length: 2"], b"hi"));
    match plan(read_request(GET_A), &cache) {
        Plan::Reply(b) => assert_eq!(b, response(&ok(&["Content-Length: 2"], b"hi"))),
        Plan::Fetch(_) => panic!("the cache holds the response"),
    }
    match plan(read_request(b"GET http://127.0.0.1:8000/b HTTP/1.0\r\n\r\n"), &cache) {
        Plan::Fetch(r) => assert_eq!(r.uri.path, "/b"),
        Plan::Reply(_) => panic!("the cache does not hold the response"),
    }
    match plan(Err(HttpError::Error("x".to_string())), &cache) {
        Plan::Reply(b) => assert_eq!(b, client_error(&HttpError::Error("x".to_string()))),
        Plan::Fetch(_) => panic!("there is nothing to ask for"),
    }
}

#[test]
fn conclude_offers_the_response_to_the_cache() {
    let mut cache = Cache::new();
    let out = conclude(&mut cache, &uri("/a"), Ok(ok(&["Content-Length: 2"], b"hi")));
    assert_eq!(out, response(&ok(&["Content-Length: 2"], b"hi")));
    assert_eq!(cache.lookup(&uri("/a")), Some(ok(&["Content-Length: 2"], b"hi")));
    let out = conclude(&mut cache, &uri("/b"), Err(HttpError::Error("x".to_string())));
    assert_eq!(out, client_error(&HttpError::Error("x".to_string())));
    assert!(cache.lookup(&uri("/b")).is_none());
    assert_eq!(cache.len(), 1);
}

#[test]
fn file_types_go_by_the_ending() {
    assert_eq!(get_filetype("./index.html"), FileType::Html);
    assert_eq!(get_filetype("a.jpg"), FileType::Jpg);
    assert_eq!(get_filetype("a.png"), FileType::Png);
    assert_eq!(get_filetype("a.gif"), FileType::Gif);
    assert_eq!(get_filetype("a.txt"), FileType::PlainText);
    assert_eq!(get_filetype("a.html.bak"), FileType::PlainText);
    assert_eq!(get_filetype("a.HTML"), FileType::PlainText);
    assert_eq!(get_filetype(".html"), FileType::Html);
    assert_eq!(get_filetype(""), FileType::PlainText);
}

#[test]
fn content_types_by_file_type() {
    assert_eq!(content_type(FileType::Html), "text/html");
    assert_eq!(content_type(FileType::Jpg), "image/jpg");
    assert_eq!(content_type(FileType::Png), "image/png");
    assert_eq!(content_type(FileType::Gif), "image/gif");
    assert_eq!(content_type(FileType::PlainText), "text/plain");
}

fn get(path: &str, method: &str) -> Request {
    Request {
        method: method.to_string(),
        uri: Uri { host: "h".to_string(), port: 80, path: path.to_string() },
        version: "HTTP/1.0".to_string(),
        headers: Vec::new(),
    }
}

#[test]
fn static_file_is_the_path_below_the_working_directory() {
    assert_eq!(static_file(&get("/a/b.html", "GET")), Ok("./a/b.html".to_string()));
    assert_eq!(static_file(&get("/", "GET")), Ok("./".to_string()));
    assert_eq!(static_file(&get("/a", "PUT")), Err(HttpError::NotImplemented("PUT".to_string())));
}

#[test]
fn serve_static_gives_the_file() {
    let r = serve_static("./a.png", FileProbe::Found(vec![1, 2, 3])).unwrap();
    assert_eq!(
        r,
        Response {
            version: "HTTP/1.0".to_string(),
            status: 200,
            reason: "OK".to_string(),
            headers: strings(&["Content-Type: image/png", "Content-Length: 3"]),
            content: vec![1, 2, 3],
        }
    );
    let r = serve_static("./notes", FileProbe::Found(Vec::new())).unwrap();
    assert_eq!(r.headers, strings(&["Content-Type: text/plain", "Content-Length: 0"]));
}

#[test]
fn serve_static_names_what_went_wrong() {
    assert_eq!(serve_static("./a", FileProbe::Missing), Err(HttpError::NotFound("./a".to_string())));
    assert_eq!(serve_static("./a", FileProbe::Denied), Err(HttpError::Forbidden("./a".to_string())));
    assert_eq!(serve_static("./a", FileProbe::Directory), Err(HttpError::IsDirectory("./a".to_string())));
}

#[test]
fn static_reply_is_the_bytes_for_the_client() {
    assert_eq!(
        static_reply("./a.html", FileProbe::Found(b"<p>".to_vec())),
        b"HTTP/1.0 200 OK\r\nContent-Type: text/html\r\nContent-Length: 3\r\n\r\n<p>".to_vec()
    );
    assert_eq!(
        static_reply("./d", FileProbe::Directory),
        client_error(&HttpError::IsDirectory("./d".to_string()))
    );
    assert_eq!(
        static_reply("./m", FileProbe::Missing),
        client_error(&HttpError::NotFound("./m".to_string()))
    );
}
