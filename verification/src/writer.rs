//! The message writer and the error responder: the bytes that a request, a
//! response or an error puts on the wire.

use crate::message::{HttpError, HttpErrorView, Request, RequestView, Response, ResponseView};
use crate::number::{decimal, to_decimal};
use crate::text::lines_view;
use vstd::prelude::*;
use vstd::string::*;
use vstd::utf8::encode_utf8;

verus! {

/// Each header followed by CR LF, in order.
pub open spec fn header_lines(headers: Seq<Seq<char>>) -> Seq<char>
    decreases headers.len(),
{
    if headers.len() == 0 {
        Seq::empty()
    } else {
        header_lines(headers.drop_last()) + headers.last() + "\r\n"@
    }
}

/// The text of a request: the request line with the address in its canonical
/// form, the headers, and an empty line.
pub open spec fn request_text(r: RequestView) -> Seq<char> {
    r.method + " "@ + r.uri.canonical() + " "@ + r.version + "\r\n"@ + header_lines(r.headers)
        + "\r\n"@
}

/// The bytes of a request on the wire.
pub open spec fn request_bytes(r: RequestView) -> Seq<u8> {
    encode_utf8(request_text(r))
}

/// The text before the payload of a response: the status line, the headers,
/// and an empty line.
pub open spec fn response_head(r: ResponseView) -> Seq<char> {
    r.version + " "@ + decimal(r.status as nat) + " "@ + r.reason + "\r\n"@ + header_lines(
        r.headers,
    ) + "\r\n"@
}

/// The bytes of a response on the wire.
pub open spec fn response_bytes(r: ResponseView) -> Seq<u8> {
    encode_utf8(response_head(r)) + r.content
}

/// Appends each header and a CR LF to `s`.
fn append_headers(s: &mut String, headers: &Vec<String>)
    ensures
        final(s)@ == old(s)@ + header_lines(lines_view(headers@)),
{
    let ghost start = s@;
    let ghost hs = lines_view(headers@);
    let mut i: usize = 0;
    assert(hs.take(0) =~= Seq::<Seq<char>>::empty());
    assert(s@ =~= start + header_lines(hs.take(0)));
    while i < headers.len()
        invariant
            i <= headers@.len(),
            hs == lines_view(headers@),
            s@ == start + header_lines(hs.take(i as int)),
        decreases headers@.len() - i,
    {
        let ghost next = hs.take(i + 1);
        proof {
            assert(next.drop_last() =~= hs.take(i as int));
            assert(next.last() == headers@[i as int]@);
        }
        s.append(headers[i].as_str());
        s.append("\r\n");
        assert(s@ =~= start + header_lines(next));
        i += 1;
    }
    assert(hs.take(headers@.len() as int) =~= hs);
}

/// The bytes that send `req`: the request line in absolute form, the headers
/// as they stand, and an empty line. A request has no body.
pub fn request(req: &Request) -> (out: Vec<u8>)
    ensures
        out@ == request_bytes(req@),
{
    let mut s = req.method.clone();
    s.append(" ");
    let target = req.uri.to_string();
    s.append(target.as_str());
    s.append(" ");
    s.append(req.version.as_str());
    s.append("\r\n");
    append_headers(&mut s, &req.headers);
    s.append("\r\n");
    assert(s@ =~= request_text(req@));
    s.as_str().as_bytes_vec()
}

/// The bytes that send `resp`: the status line, the headers as they stand,
/// an empty line, and the payload.
pub fn response(resp: &Response) -> (out: Vec<u8>)
    ensures
        out@ == response_bytes(resp@),
{
    let mut s = resp.version.clone();
    s.append(" ");
    let status = to_decimal(resp.status as u64);
    s.append(status.as_str());
    s.append(" ");
    s.append(resp.reason.as_str());
    s.append("\r\n");
    append_headers(&mut s, &resp.headers);
    s.append("\r\n");
    assert(s@ =~= response_head(resp@));
    let mut out = s.as_str().as_bytes_vec();
    out.extend_from_slice(resp.content.as_slice());
    assert(out@ =~= response_bytes(resp@));
    out
}

/// The status that reports an error.
pub open spec fn error_status(e: HttpErrorView) -> u16 {
    match e {
        HttpErrorView::Error(_) => 400,
        HttpErrorView::Forbidden(_) => 403,
        HttpErrorView::IsDirectory(_) => 403,
        HttpErrorView::NotFound(_) => 404,
        HttpErrorView::NotImplemented(_) => 501,
    }
}

/// The short name of an error, which is the reason on the status line.
pub open spec fn error_name(e: HttpErrorView) -> Seq<char> {
    match e {
        HttpErrorView::Error(_) => "Error"@,
        HttpErrorView::Forbidden(_) => "Forbidden"@,
        HttpErrorView::IsDirectory(_) => "Forbidden"@,
        HttpErrorView::NotFound(_) => "NotFound"@,
        HttpErrorView::NotImplemented(_) => "NotImplemented"@,
    }
}

/// What an error says of itself.
pub open spec fn error_explanation(e: HttpErrorView) -> Seq<char> {
    match e {
        HttpErrorView::Error(_) => "Error occured"@,
        HttpErrorView::Forbidden(_) => "The requested file is forbidden"@,
        HttpErrorView::IsDirectory(_) => "The requested file is a directory"@,
        HttpErrorView::NotFound(_) => "The requested file is not found"@,
        HttpErrorView::NotImplemented(_) => "The requested method is not implemented"@,
    }
}

/// The detail that an error carries.
pub open spec fn error_detail(e: HttpErrorView) -> Seq<char> {
    match e {
        HttpErrorView::Error(d) => d,
        HttpErrorView::Forbidden(d) => d,
        HttpErrorView::IsDirectory(d) => d,
        HttpErrorView::NotFound(d) => d,
        HttpErrorView::NotImplemented(d) => d,
    }
}

/// The page that shows an error.
pub open spec fn error_body(e: HttpErrorView) -> Seq<char> {
    "<html><head><title>Mini Error</title></head><body bgcolor=ffffff>\r\n<b>"@ + decimal(
        error_status(e) as nat,
    ) + ": "@ + error_name(e) + "</b>\r\n<p>"@ + error_explanation(e) + ": "@ + error_detail(e)
        + "\r\n<hr><em>Mini Web server</em></body></html>\r\n"@
}

/// The response that reports an error: its status and name on the status
/// line, the page as payload, and the two headers that describe the payload.
pub open spec fn error_response(e: HttpErrorView) -> ResponseView {
    let content = encode_utf8(error_body(e));
    ResponseView {
        version: "HTTP/1.0"@,
        status: error_status(e),
        reason: error_name(e),
        headers: seq![
            "Content-Type: text/html"@,
            "Content-Length: "@ + decimal(content.len()),
        ],
        content,
    }
}

/// The response that reports `e`.
pub fn error_page(e: &HttpError) -> (r: Response)
    ensures
        r@ == error_response(e@),
{
    let (status, name, explanation, detail): (u16, &str, &str, &str) = match e {
        HttpError::Error(d) => (400, "Error", "Error occured", d.as_str()),
        HttpError::Forbidden(d) => (403, "Forbidden", "The requested file is forbidden", d.as_str()),
        HttpError::IsDirectory(d) => (
            403,
            "Forbidden",
            "The requested file is a directory",
            d.as_str(),
        ),
        HttpError::NotFound(d) => (404, "NotFound", "The requested file is not found", d.as_str()),
        HttpError::NotImplemented(d) => (
            501,
            "NotImplemented",
            "The requested method is not implemented",
            d.as_str(),
        ),
    };
    let code = to_decimal(status as u64);
    let mut body = "<html><head><title>Mini Error</title></head><body bgcolor=ffffff>\r\n<b>".to_owned();
    body.append(code.as_str());
    body.append(": ");
    body.append(name);
    body.append("</b>\r\n<p>");
    body.append(explanation);
    body.append(": ");
    body.append(detail);
    body.append("\r\n<hr><em>Mini Web server</em></body></html>\r\n");
    assert(body@ =~= error_body(e@));
    let content = body.as_str().as_bytes_vec();
    let size = to_decimal(content.len() as u64);
    let mut length = "Content-Length: ".to_owned();
    length.append(size.as_str());
    let mut headers: Vec<String> = Vec::new();
    headers.push("Content-Type: text/html".to_owned());
    headers.push(length);
    let r = Response {
        version: "HTTP/1.0".to_owned(),
        status,
        reason: name.to_owned(),
        headers,
        content,
    };
    assert(lines_view(r.headers@) =~= error_response(e@).headers);
    r
}

/// The bytes that report `e` to the client: a status line with the error's
/// status and name, the headers of an HTML payload, and the page that names
/// the error and its detail.
pub fn client_error(e: &HttpError) -> (out: Vec<u8>)
    ensures
        out@ == response_bytes(error_response(e@)),
{
    let page = error_page(e);
    response(&page)
}

} // verus!
