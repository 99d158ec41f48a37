//! The values that travel through the proxy: addresses, requests, responses
//! and the errors that end a connection, each with its mathematical view.

use crate::number::{decimal, to_decimal};
use crate::text::{compare_text, ends_with, lines_view, text_order};
use std::cmp::Ordering;
use vstd::prelude::*;
use vstd::std_specs::cmp::{PartialEqSpecImpl, PartialOrdSpecImpl};
use vstd::string::*;

verus! {

/// Why a request could not be served. Each variant carries a free-form detail.
#[derive(Debug, PartialEq, Eq)]
pub enum HttpError {
    /// The requested file is a directory.
    IsDirectory(String),
    /// The requested file may not be read.
    Forbidden(String),
    /// The requested file does not exist.
    NotFound(String),
    /// The request's method is not served.
    NotImplemented(String),
    /// Any failure of reading, decoding or parsing.
    Error(String),
}

/// An [`HttpError`] with its detail as a sequence of characters.
pub enum HttpErrorView {
    IsDirectory(Seq<char>),
    Forbidden(Seq<char>),
    NotFound(Seq<char>),
    NotImplemented(Seq<char>),
    Error(Seq<char>),
}

impl View for HttpError {
    type V = HttpErrorView;

    open spec fn view(&self) -> HttpErrorView {
        match self {
            HttpError::IsDirectory(d) => HttpErrorView::IsDirectory(d@),
            HttpError::Forbidden(d) => HttpErrorView::Forbidden(d@),
            HttpError::NotFound(d) => HttpErrorView::NotFound(d@),
            HttpError::NotImplemented(d) => HttpErrorView::NotImplemented(d@),
            HttpError::Error(d) => HttpErrorView::Error(d@),
        }
    }
}

impl Clone for HttpError {
    fn clone(&self) -> (r: Self)
        ensures
            r@ == self@,
    {
        match self {
            HttpError::IsDirectory(d) => HttpError::IsDirectory(d.clone()),
            HttpError::Forbidden(d) => HttpError::Forbidden(d.clone()),
            HttpError::NotFound(d) => HttpError::NotFound(d.clone()),
            HttpError::NotImplemented(d) => HttpError::NotImplemented(d.clone()),
            HttpError::Error(d) => HttpError::Error(d.clone()),
        }
    }
}

/// The kind of content that a file name stands for.
#[derive(Debug, Clone, Copy, PartialEq, Eq, Structural)]
pub enum FileType {
    Html,
    Jpg,
    Png,
    Gif,
    PlainText,
}

/// Where a request goes: a host, a port and a path.
#[derive(Debug)]
pub struct Uri {
    pub host: String,
    pub port: u16,
    pub path: String,
}

/// A [`Uri`] over sequences of characters.
pub struct UriView {
    pub host: Seq<char>,
    pub port: u16,
    pub path: Seq<char>,
}

impl UriView {
    /// The host with the port behind it, where the port is not 80.
    pub open spec fn authority(self) -> Seq<char> {
        if self.port == 80 {
            self.host
        } else {
            self.host + ":"@ + decimal(self.port as nat)
        }
    }

    /// The canonical text of the address: `http://`, the authority, the path.
    /// Two addresses are the same address when their canonical texts agree.
    pub open spec fn canonical(self) -> Seq<char> {
        "http://"@ + self.authority() + self.path
    }
}

impl View for Uri {
    type V = UriView;

    open spec fn view(&self) -> UriView {
        UriView { host: self.host@, port: self.port, path: self.path@ }
    }
}

impl Clone for Uri {
    fn clone(&self) -> (r: Self)
        ensures
            r@ == self@,
    {
        Uri { host: self.host.clone(), port: self.port, path: self.path.clone() }
    }
}

impl Uri {
    /// The canonical text of the address.
    pub fn to_string(&self) -> (s: String)
        ensures
            s@ == self@.canonical(),
    {
        let mut s = "http://".to_owned();
        s.append(self.host.as_str());
        if self.port != 80 {
            s.append(":");
            let port = to_decimal(self.port as u64);
            s.append(port.as_str());
        }
        s.append(self.path.as_str());
        assert(s@ =~= self@.canonical());
        s
    }
}

impl PartialEq for Uri {
    fn eq(&self, other: &Uri) -> (r: bool) {
        self.to_string() == other.to_string()
    }
}

impl PartialEqSpecImpl for Uri {
    open spec fn obeys_eq_spec() -> bool {
        true
    }

    open spec fn eq_spec(&self, other: &Uri) -> bool {
        self@.canonical() == other@.canonical()
    }
}

impl Eq for Uri {

}

impl PartialOrd for Uri {
    fn partial_cmp(&self, other: &Uri) -> (r: Option<Ordering>) {
        let a = self.to_string();
        let b = other.to_string();
        let c = compare_text(a.as_str(), b.as_str());
        if c < 0 {
            Some(Ordering::Less)
        } else if c == 0 {
            Some(Ordering::Equal)
        } else {
            Some(Ordering::Greater)
        }
    }
}

impl PartialOrdSpecImpl for Uri {
    open spec fn obeys_partial_cmp_spec() -> bool {
        true
    }

    open spec fn partial_cmp_spec(&self, other: &Uri) -> Option<Ordering> {
        let c = text_order(self@.canonical(), other@.canonical());
        if c < 0 {
            Some(Ordering::Less)
        } else if c == 0 {
            Some(Ordering::Equal)
        } else {
            Some(Ordering::Greater)
        }
    }
}

/// A request as the client sent it. It has no body.
#[derive(Debug, PartialEq, Eq)]
pub struct Request {
    pub method: String,
    pub uri: Uri,
    pub version: String,
    /// The header lines in the order read, trimmed, without line ends.
    pub headers: Vec<String>,
}

/// A [`Request`] over sequences.
pub struct RequestView {
    pub method: Seq<char>,
    pub uri: UriView,
    pub version: Seq<char>,
    pub headers: Seq<Seq<char>>,
}

impl View for Request {
    type V = RequestView;

    open spec fn view(&self) -> RequestView {
        RequestView {
            method: self.method@,
            uri: self.uri@,
            version: self.version@,
            headers: lines_view(self.headers@),
        }
    }
}

/// A copy of `lines`.
pub fn clone_lines(lines: &Vec<String>) -> (r: Vec<String>)
    ensures
        lines_view(r@) == lines_view(lines@),
{
    let mut r: Vec<String> = Vec::new();
    let mut i: usize = 0;
    while i < lines.len()
        invariant
            i <= lines@.len(),
            r@.len() == i,
            forall|j: int| 0 <= j < i ==> r@[j]@ == lines@[j]@,
        decreases lines@.len() - i,
    {
        r.push(lines[i].clone());
        i += 1;
    }
    assert(lines_view(r@) =~= lines_view(lines@));
    r
}

/// A copy of `bytes`.
pub fn clone_bytes(bytes: &Vec<u8>) -> (r: Vec<u8>)
    ensures
        r@ == bytes@,
{
    let mut r: Vec<u8> = Vec::new();
    r.extend_from_slice(bytes.as_slice());
    assert(r@ =~= bytes@);
    r
}

impl Clone for Request {
    fn clone(&self) -> (r: Self)
        ensures
            r@ == self@,
    {
        Request {
            method: self.method.clone(),
            uri: self.uri.clone(),
            version: self.version.clone(),
            headers: clone_lines(&self.headers),
        }
    }
}

/// A response: status line, header lines and payload.
#[derive(Debug, PartialEq, Eq)]
pub struct Response {
    pub version: String,
    pub status: u16,
    pub reason: String,
    /// The header lines in the order read, trimmed, without line ends.
    pub headers: Vec<String>,
    pub content: Vec<u8>,
}

/// A [`Response`] over sequences.
pub struct ResponseView {
    pub version: Seq<char>,
    pub status: u16,
    pub reason: Seq<char>,
    pub headers: Seq<Seq<char>>,
    pub content: Seq<u8>,
}

impl View for Response {
    type V = ResponseView;

    open spec fn view(&self) -> ResponseView {
        ResponseView {
            version: self.version@,
            status: self.status,
            reason: self.reason@,
            headers: lines_view(self.headers@),
            content: self.content@,
        }
    }
}

impl Clone for Response {
    fn clone(&self) -> (r: Self)
        ensures
            r@ == self@,
    {
        Response {
            version: self.version.clone(),
            status: self.status,
            reason: self.reason.clone(),
            headers: clone_lines(&self.headers),
            content: clone_bytes(&self.content),
        }
    }
}

/// The lines that record a request: the method, the path and the version,
/// the headers, and an empty line.
pub open spec fn request_log(r: RequestView) -> Seq<Seq<char>> {
    seq!["request: "@ + r.method + " "@ + r.uri.path + " "@ + r.version] + r.headers + seq![
        Seq::empty(),
    ]
}

/// The lines that record a response: the status line, the headers, the size
/// of the payload, and an empty line.
pub open spec fn response_log(r: ResponseView) -> Seq<Seq<char>> {
    seq!["response: "@ + r.version + " "@ + decimal(r.status as nat) + " "@ + r.reason]
        + r.headers + seq!["content size: "@ + decimal(r.content.len()), Seq::empty()]
}

impl Request {
    /// The lines that record the request.
    pub fn log(&self) -> (lines: Vec<String>)
        ensures
            lines_view(lines@) == request_log(self@),
    {
        let mut first = "request: ".to_owned();
        first.append(self.method.as_str());
        first.append(" ");
        first.append(self.uri.path.as_str());
        first.append(" ");
        first.append(self.version.as_str());
        let mut lines: Vec<String> = Vec::new();
        lines.push(first);
        let mut headers = clone_lines(&self.headers);
        let ghost middle = lines_view(headers@);
        let ghost start = lines_view(lines@);
        lines.append(&mut headers);
        lines.push(String::new());
        assert(lines_view(lines@) =~= start + middle + seq![Seq::<char>::empty()]);
        assert(lines_view(lines@) =~= request_log(self@));
        lines
    }
}

impl Response {
    /// The lines that record the response.
    pub fn log(&self) -> (lines: Vec<String>)
        ensures
            lines_view(lines@) == response_log(self@),
    {
        let status = to_decimal(self.status as u64);
        let mut first = "response: ".to_owned();
        first.append(self.version.as_str());
        first.append(" ");
        first.append(status.as_str());
        first.append(" ");
        first.append(self.reason.as_str());
        let size = to_decimal(self.content.len() as u64);
        let mut last = "content size: ".to_owned();
        last.append(size.as_str());
        let mut lines: Vec<String> = Vec::new();
        lines.push(first);
        let mut headers = clone_lines(&self.headers);
        let ghost middle = lines_view(headers@);
        let ghost start = lines_view(lines@);
        let ghost size_line = last@;
        lines.append(&mut headers);
        lines.push(last);
        lines.push(String::new());
        assert(lines_view(lines@) =~= start + middle + seq![size_line, Seq::<char>::empty()]);
        assert(lines_view(lines@) =~= response_log(self@));
        lines
    }
}

/// The kind of content that the name's ending stands for.
pub open spec fn file_type_of(filename: Seq<char>) -> FileType {
    if ".html"@.is_suffix_of(filename) {
        FileType::Html
    } else if ".jpg"@.is_suffix_of(filename) {
        FileType::Jpg
    } else if ".png"@.is_suffix_of(filename) {
        FileType::Png
    } else if ".gif"@.is_suffix_of(filename) {
        FileType::Gif
    } else {
        FileType::PlainText
    }
}

/// The kind of content that `filename` stands for, by its ending.
pub fn get_filetype(filename: &str) -> (t: FileType)
    ensures
        t == file_type_of(filename@),
{
    if ends_with(filename, ".html") {
        FileType::Html
    } else if ends_with(filename, ".jpg") {
        FileType::Jpg
    } else if ends_with(filename, ".png") {
        FileType::Png
    } else if ends_with(filename, ".gif") {
        FileType::Gif
    } else {
        FileType::PlainText
    }
}

} // verus!
