//! What a connection handler decides, in the proxy and in the server of
//! static files: whether to answer at once or to ask the origin, what goes
//! into the cache, and the bytes that go back to the client.

use crate::cache::{Cache, CacheState};
use crate::message::{
    get_filetype, file_type_of, FileType, HttpError, HttpErrorView, Request, RequestView, Response,
    ResponseView, Uri,
};
use crate::number::{decimal, to_decimal};
use crate::origin::{attempts_view, exchanged, request_server, ExchangeView};
use crate::reader::{read_request, request_result_view, response_result_view};
use crate::text::{lines_view, starts_with};
use crate::wire::request_of;
use crate::writer::{client_error, error_response, response, response_bytes};
use vstd::prelude::*;
use vstd::string::*;

verus! {

/// Tells whether two texts are the same.
pub fn same_text(a: &str, b: &str) -> (r: bool)
    ensures
        r == (a@ == b@),
{
    let r = starts_with(a, b) && starts_with(b, a);
    proof {
        if r {
            assert(a@ =~= b@);
        }
    }
    r
}

/// What the handler does about a request.
pub enum Plan {
    /// Answer with these bytes.
    Reply(Vec<u8>),
    /// Ask the origin for this request.
    Fetch(Request),
}

/// A [`Plan`] over sequences.
pub enum PlanView {
    Reply(Seq<u8>),
    Fetch(RequestView),
}

impl View for Plan {
    type V = PlanView;

    open spec fn view(&self) -> PlanView {
        match self {
            Plan::Reply(b) => PlanView::Reply(b@),
            Plan::Fetch(r) => PlanView::Fetch(r@),
        }
    }
}

/// The plan for a request that was read, or could not be. A request that
/// could not be read and one with another method than `GET` are answered
/// with the error; a request that the cache holds a response for is answered
/// with that response; any other goes to the origin.
pub open spec fn planned(parsed: Result<RequestView, HttpErrorView>, cache: CacheState) -> PlanView {
    match parsed {
        Err(e) => PlanView::Reply(response_bytes(error_response(e))),
        Ok(req) => if req.method != "GET"@ {
            PlanView::Reply(response_bytes(error_response(HttpErrorView::NotImplemented(req.method))))
        } else {
            match cache.lookup(req.uri.canonical()) {
                Some(resp) => PlanView::Reply(response_bytes(resp)),
                None => PlanView::Fetch(req),
            }
        },
    }
}

/// Decides what to do about a request. The cache is only read: a hit does
/// not change the order in which responses leave it.
pub fn plan(parsed: Result<Request, HttpError>, cache: &Cache) -> (p: Plan)
    ensures
        p@ == planned(request_result_view(parsed), cache@),
{
    match parsed {
        Err(e) => Plan::Reply(client_error(&e)),
        Ok(req) => {
            if !same_text(req.method.as_str(), "GET") {
                let e = HttpError::NotImplemented(req.method);
                Plan::Reply(client_error(&e))
            } else {
                match cache.lookup(&req.uri) {
                    Some(resp) => Plan::Reply(response(&resp)),
                    None => Plan::Fetch(req),
                }
            }
        },
    }
}

/// The bytes that answer a request that went to the origin.
pub open spec fn concluded(fetched: Result<ResponseView, HttpErrorView>) -> Seq<u8> {
    match fetched {
        Ok(resp) => response_bytes(resp),
        Err(e) => response_bytes(error_response(e)),
    }
}

/// The cache after a request went to the origin: what came back is offered
/// to it; a failure leaves it as it was.
pub open spec fn cache_after(
    cache: CacheState,
    key: Seq<char>,
    fetched: Result<ResponseView, HttpErrorView>,
) -> CacheState {
    match fetched {
        Ok(resp) => cache.insert(key, resp),
        Err(_) => cache,
    }
}

/// Ends the handling of a request that went to the origin: offers the
/// response to the cache and gives the bytes for the client.
pub fn conclude(cache: &mut Cache, uri: &Uri, fetched: Result<Response, HttpError>) -> (out: Vec<u8>)
    requires
        old(cache).wf(),
    ensures
        final(cache).wf(),
        final(cache)@ == cache_after(old(cache)@, uri@.canonical(), response_result_view(fetched)),
        out@ == concluded(response_result_view(fetched)),
{
    match fetched {
        Err(e) => client_error(&e),
        Ok(resp) => {
            let out = response(&resp);
            cache.insert(uri, resp);
            out
        },
    }
}

/// The response part of an exchange that may have failed.
pub open spec fn fetched_view(x: Result<ExchangeView, HttpErrorView>) -> Result<
    ResponseView,
    HttpErrorView,
> {
    match x {
        Ok(x) => Ok(x.response),
        Err(e) => Err(e),
    }
}

/// What the proxy answers to the request that `input` holds, given what
/// dialing the origin and reading from it would give.
pub open spec fn proxied(
    cache: CacheState,
    input: Seq<u8>,
    attempts: Seq<Option<Seq<char>>>,
    reply: Seq<u8>,
) -> (Seq<u8>, CacheState) {
    match planned(request_of(input), cache) {
        PlanView::Reply(b) => (b, cache),
        PlanView::Fetch(req) => {
            let fetched = fetched_view(exchanged(req, attempts, reply));
            (concluded(fetched), cache_after(cache, req.uri.canonical(), fetched))
        },
    }
}

/// Handles one connection of the proxy over plain values: `input` holds what
/// the client sends; `attempts` and `reply` tell how dialing the origin ends
/// and what it sends back, and are looked at only where the origin is asked.
/// Gives the bytes for the client.
pub fn handle_proxy(
    cache: &mut Cache,
    input: &[u8],
    attempts: &Vec<Option<String>>,
    reply: &[u8],
) -> (out: Vec<u8>)
    requires
        old(cache).wf(),
    ensures
        final(cache).wf(),
        (out@, final(cache)@) == proxied(old(cache)@, input@, attempts_view(attempts@), reply@),
{
    match plan(read_request(input), cache) {
        Plan::Reply(b) => b,
        Plan::Fetch(req) => {
            let fetched = match request_server(&req, attempts, reply) {
                Ok(x) => Ok(x.response),
                Err(e) => Err(e),
            };
            conclude(cache, &req.uri, fetched)
        },
    }
}

/// What was found where a file was asked for.
#[derive(Debug)]
pub enum FileProbe {
    /// A file with this content.
    Found(Vec<u8>),
    /// Nothing.
    Missing,
    /// Something that may not be read.
    Denied,
    /// A directory.
    Directory,
}

/// A [`FileProbe`] over sequences.
pub enum FileProbeView {
    Found(Seq<u8>),
    Missing,
    Denied,
    Directory,
}

impl View for FileProbe {
    type V = FileProbeView;

    open spec fn view(&self) -> FileProbeView {
        match self {
            FileProbe::Found(c) => FileProbeView::Found(c@),
            FileProbe::Missing => FileProbeView::Missing,
            FileProbe::Denied => FileProbeView::Denied,
            FileProbe::Directory => FileProbeView::Directory,
        }
    }
}

/// The name of a kind of content in a header.
pub open spec fn content_type_text(t: FileType) -> Seq<char> {
    match t {
        FileType::Gif => "image/gif"@,
        FileType::Html => "text/html"@,
        FileType::Jpg => "image/jpg"@,
        FileType::PlainText => "text/plain"@,
        FileType::Png => "image/png"@,
    }
}

/// The name of a kind of content in a header.
pub fn content_type(t: FileType) -> (s: &'static str)
    ensures
        s@ == content_type_text(t),
{
    match t {
        FileType::Gif => "image/gif",
        FileType::Html => "text/html",
        FileType::Jpg => "image/jpg",
        FileType::PlainText => "text/plain",
        FileType::Png => "image/png",
    }
}

/// The file that a request asks for: its path below the working directory,
/// and only for the method `GET`.
pub open spec fn static_target(req: RequestView) -> Result<Seq<char>, HttpErrorView> {
    if req.method != "GET"@ {
        Err(HttpErrorView::NotImplemented(req.method))
    } else {
        Ok("."@ + req.uri.path)
    }
}

/// The view of a file name that may have failed.
pub open spec fn name_result_view(r: Result<String, HttpError>) -> Result<Seq<char>, HttpErrorView> {
    match r {
        Ok(x) => Ok(x@),
        Err(e) => Err(e@),
    }
}

/// The name of the file that `req` asks for.
pub fn static_file(req: &Request) -> (r: Result<String, HttpError>)
    ensures
        name_result_view(r) == static_target(req@),
{
    if !same_text(req.method.as_str(), "GET") {
        Err(HttpError::NotImplemented(req.method.clone()))
    } else {
        let mut name = ".".to_owned();
        name.append(req.uri.path.as_str());
        Ok(name)
    }
}

/// The response that serves a file, or the error for what stands in its
/// place.
pub open spec fn served(filename: Seq<char>, probe: FileProbeView) -> Result<
    ResponseView,
    HttpErrorView,
> {
    match probe {
        FileProbeView::Missing => Err(HttpErrorView::NotFound(filename)),
        FileProbeView::Denied => Err(HttpErrorView::Forbidden(filename)),
        FileProbeView::Directory => Err(HttpErrorView::IsDirectory(filename)),
        FileProbeView::Found(content) => Ok(
            ResponseView {
                version: "HTTP/1.0"@,
                status: 200,
                reason: "OK"@,
                headers: seq![
                    "Content-Type: "@ + content_type_text(file_type_of(filename)),
                    "Content-Length: "@ + decimal(content.len()),
                ],
                content,
            },
        ),
    }
}

/// Serves the file `filename`, given what was found under that name: a file
/// goes out with its kind of content, by the ending of its name, and its
/// length; anything else is an error that names the file.
pub fn serve_static(filename: &str, probe: FileProbe) -> (r: Result<Response, HttpError>)
    ensures
        response_result_view(r) == served(filename@, probe@),
{
    match probe {
        FileProbe::Missing => Err(HttpError::NotFound(filename.to_owned())),
        FileProbe::Denied => Err(HttpError::Forbidden(filename.to_owned())),
        FileProbe::Directory => Err(HttpError::IsDirectory(filename.to_owned())),
        FileProbe::Found(content) => {
            let mut kind = "Content-Type: ".to_owned();
            kind.append(content_type(get_filetype(filename)));
            let size = to_decimal(content.len() as u64);
            let mut length = "Content-Length: ".to_owned();
            length.append(size.as_str());
            let mut headers: Vec<String> = Vec::new();
            headers.push(kind);
            headers.push(length);
            let r = Response {
                version: "HTTP/1.0".to_owned(),
                status: 200,
                reason: "OK".to_owned(),
                headers,
                content,
            };
            assert(lines_view(r.headers@) =~= served(filename@, probe@)->Ok_0.headers);
            Ok(r)
        },
    }
}

/// The bytes that answer a request for a file, given what was found.
pub fn static_reply(filename: &str, probe: FileProbe) -> (out: Vec<u8>)
    ensures
        out@ == concluded(served(filename@, probe@)),
{
    match serve_static(filename, probe) {
        Ok(resp) => response(&resp),
        Err(e) => client_error(&e),
    }
}

} // verus!
