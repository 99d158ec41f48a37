//! The message reader. A reader never touches a stream: it says what it wants
//! read next, a line or a number of bytes, and is fed what was read. Whoever
//! owns the stream runs that loop. The two functions that read from memory
//! run it over a slice of bytes.

use crate::message::{HttpError, HttpErrorView, Request, RequestView, Response, ResponseView};
use crate::number::{parse_number, NumberError};
use crate::text::{
    contains, join_spaced, lines_view, split_words, starts_with, trimmed, words,
};
use crate::uri::parse_uri;
use crate::wire::{
    after_headers, after_line, body_of, chunked_body, decode_lossy, decode_strict, failure,
    first_line, framing, header_block, header_text, host_of, lemma_empty_text, lemma_line_len,
    length_value, line_len, number_error_text, request_of, response_of, with_body, with_target,
    Framing, EARLY_EOF,
};
use vstd::prelude::*;
use vstd::slice::{slice_subrange, slice_to_vec};
use vstd::string::*;

verus! {

/// What a reader wants read from the stream next.
#[derive(Debug, Clone, Copy, PartialEq, Eq, Structural)]
pub enum Want {
    /// The bytes up to and with the next line feed, or to the end of the
    /// stream.
    Line,
    /// Exactly this many bytes.
    Exact(usize),
}

/// What became of a reader that was fed.
pub enum Fed<R, T> {
    /// The reader goes on.
    More(R),
    /// The message is complete.
    Done(T),
    /// The message cannot be read.
    Failed(HttpError),
}

/// `data` is what a read of kind `want` gives on `stream`.
pub open spec fn is_read(want: Want, stream: Seq<u8>, data: Seq<u8>) -> bool {
    match want {
        Want::Line => data == first_line(stream),
        Want::Exact(n) => n <= stream.len() && data == stream.take(n as int),
    }
}

/// The error with the given context and cause.
pub fn failure_of(context: &str, cause: &str) -> (e: HttpError)
    ensures
        e@ == failure(context@, cause@),
{
    let mut s = context.to_owned();
    s.append(": ");
    s.append(cause);
    assert(s@ =~= context@ + ": "@ + cause@);
    HttpError::Error(s)
}

/// The error with the given detail.
pub fn error_of(detail: &str) -> (e: HttpError)
    ensures
        e@ == HttpErrorView::Error(detail@),
{
    HttpError::Error(detail.to_owned())
}

/// The text of a [`NumberError`] inside an error's context.
pub fn number_error_name(e: NumberError) -> (t: &'static str)
    ensures
        t@ == number_error_text(e),
{
    match e {
        NumberError::Empty => "ParseIntError { kind: Empty }",
        NumberError::InvalidDigit => "ParseIntError { kind: InvalidDigit }",
        NumberError::Overflow => "ParseIntError { kind: PosOverflow }",
    }
}

/// The words of `w` from index `from` on, joined by single spaces.
pub fn join_from(w: &Vec<String>, from: usize) -> (s: String)
    ensures
        s@ == join_spaced(
            if from <= w@.len() {
                lines_view(w@).skip(from as int)
            } else {
                Seq::empty()
            },
        ),
{
    let mut s = String::new();
    if from >= w.len() {
        assert(lines_view(w@).skip(w@.len() as int) =~= Seq::<Seq<char>>::empty());
        return s;
    }
    let ghost parts = lines_view(w@).skip(from as int);
    let mut i: usize = from;
    assert(parts.take(0) =~= Seq::<Seq<char>>::empty());
    while i < w.len()
        invariant
            from <= i <= w@.len(),
            parts == lines_view(w@).skip(from as int),
            s@ == join_spaced(parts.take(i - from)),
        decreases w@.len() - i,
    {
        let ghost before = parts.take(i - from);
        let ghost after = parts.take(i - from + 1);
        proof {
            reveal_strlit(" ");
            assert(after.drop_last() =~= before);
            assert(after.last() == w@[i as int]@);
            assert(" "@ =~= seq![' ']);
        }
        if i > from {
            s.append(" ");
        }
        s.append(w[i].as_str());
        assert(s@ =~= join_spaced(after)) by {
            if i > from {
                assert(after.len() > 1);
            } else {
                assert(after.len() == 1);
                assert(before.len() == 0);
                assert(join_spaced(before) =~= Seq::<char>::empty());
            }
        }
        i += 1;
    }
    assert(parts.take(w@.len() - from) =~= parts);
    s
}

/// The header that a line holds.
pub fn header_of(line: &[u8]) -> (h: String)
    ensures
        h@ == header_text(line@),
{
    let text = decode_lossy(line);
    trimmed(text.as_str())
}

/// The view of a framing that may have failed.
pub open spec fn framing_view(r: Result<Framing, HttpError>) -> Result<Framing, HttpErrorView> {
    match r {
        Ok(f) => Ok(f),
        Err(e) => Err(e@),
    }
}

/// The length that a length header names.
pub fn length_of(header: &str) -> (n: Option<usize>)
    ensures
        n == length_value(header@),
{
    let w = split_words(header);
    if w.len() >= 2 {
        assert(lines_view(w@)[1] == w@[1]@);
        match parse_number(w[1].as_str(), 10, usize::MAX as u64) {
            Ok(v) => Some(v as usize),
            Err(_) => None,
        }
    } else {
        None
    }
}

/// The framing that `headers` ask for.
pub fn find_framing(headers: &Vec<String>) -> (r: Result<Framing, HttpError>)
    ensures
        framing_view(r) == framing(lines_view(headers@)),
{
    let ghost hs = lines_view(headers@);
    let mut f = Framing::Nothing;
    let mut i: usize = 0;
    assert(hs.take(0) =~= Seq::<Seq<char>>::empty());
    while i < headers.len()
        invariant
            i <= headers@.len(),
            hs == lines_view(headers@),
            framing(hs.take(i as int)) == Ok::<Framing, HttpErrorView>(f),
        decreases headers@.len() - i,
    {
        let ghost next = hs.take(i + 1);
        proof {
            assert(next.drop_last() =~= hs.take(i as int));
            assert(next.last() == headers@[i as int]@);
        }
        let h = headers[i].as_str();
        if starts_with(h, "Content-Length:") {
            match length_of(h) {
                Some(n) => {
                    f = Framing::Fixed(n);
                },
                None => {
                    proof {
                        lemma_framing_error_sticks(hs, i + 1);
                    }
                    return Err(error_of("parse content length failed"));
                },
            }
        } else if starts_with(h, "Transfer-Encoding:") && contains(h, "chunked") {
            match f {
                Framing::Fixed(_) => {},
                _ => {
                    f = Framing::Chunked;
                },
            }
        }
        i += 1;
    }
    assert(hs.take(headers@.len() as int) =~= hs);
    Ok(f)
}

/// Once the framing of a prefix of the headers fails, so does that of all.
pub proof fn lemma_framing_error_sticks(hs: Seq<Seq<char>>, k: int)
    requires
        0 <= k <= hs.len(),
        framing(hs.take(k)) is Err,
    ensures
        framing(hs) == framing(hs.take(k)),
    decreases hs.len() - k,
{
    if k < hs.len() {
        assert(hs.take(k + 1).drop_last() =~= hs.take(k));
        lemma_framing_error_sticks(hs, k + 1);
    } else {
        assert(hs.take(k) =~= hs);
    }
}

/// Where a response reader stands.
#[derive(Debug, Clone, Copy, PartialEq, Eq, Structural)]
pub enum ResponsePhase {
    /// Before the status line.
    StatusLine,
    /// In the header block.
    Headers,
    /// Before a body of known length.
    Body,
    /// Before the line that gives a chunk's size.
    ChunkSize,
    /// Before the bytes of a chunk.
    ChunkData,
    /// Before the line that ends a chunk.
    ChunkEnd,
}

/// Reads one response from a stream that it is fed piece by piece.
#[derive(Debug)]
pub struct ResponseReader {
    pub phase: ResponsePhase,
    pub version: String,
    pub status: u16,
    pub reason: String,
    pub headers: Vec<String>,
    pub content: Vec<u8>,
    /// The number of bytes that the body or the chunk at hand still needs.
    pub pending: usize,
}

/// `content` followed by the rest of a body, if there is one.
pub open spec fn continued(content: Seq<u8>, rest: Result<Seq<u8>, HttpErrorView>) -> Result<
    Seq<u8>,
    HttpErrorView,
> {
    match rest {
        Ok(b) => Ok(content + b),
        Err(e) => Err(e),
    }
}

/// The view of what a response reader became.
pub open spec fn response_fed(r: Fed<ResponseReader, Response>, rest: Seq<u8>) -> Result<
    ResponseView,
    HttpErrorView,
> {
    match r {
        Fed::More(m) => m.outcome(rest),
        Fed::Done(x) => Ok(x@),
        Fed::Failed(e) => Err(e@),
    }
}

/// The view of a response that may have failed.
pub open spec fn response_result_view(r: Result<Response, HttpError>) -> Result<
    ResponseView,
    HttpErrorView,
> {
    match r {
        Ok(x) => Ok(x@),
        Err(e) => Err(e@),
    }
}

impl ResponseReader {
    /// What the reader wants read next.
    pub open spec fn wanted(&self) -> Want {
        match self.phase {
            ResponsePhase::Body => Want::Exact(self.pending),
            ResponsePhase::ChunkData => Want::Exact(self.pending),
            _ => Want::Line,
        }
    }

    /// What names the read at hand in an error.
    pub open spec fn context(&self) -> Seq<char> {
        match self.phase {
            ResponsePhase::StatusLine => "read failed"@,
            ResponsePhase::Headers => "header reading failed"@,
            ResponsePhase::Body => "content reading failed"@,
            ResponsePhase::ChunkSize => "chunk size reading failed"@,
            ResponsePhase::ChunkData => "chunk reading failed"@,
            ResponsePhase::ChunkEnd => "chunk footer reading failed"@,
        }
    }

    /// A bound on the number of reads of nothing that the reader will still
    /// ask for.
    pub open spec fn rank(&self) -> nat {
        match self.phase {
            ResponsePhase::StatusLine => 5,
            ResponsePhase::Headers => 4,
            ResponsePhase::ChunkData => 3,
            ResponsePhase::ChunkEnd => 2,
            ResponsePhase::ChunkSize => 1,
            ResponsePhase::Body => 1,
        }
    }

    /// The response with the reader's head and the given body.
    pub open spec fn finish(&self, body: Result<Seq<u8>, HttpErrorView>) -> Result<
        ResponseView,
        HttpErrorView,
    > {
        with_body(self.version@, self.status, self.reason@, lines_view(self.headers@), body)
    }

    /// What the read ends with, if `rest` is what the stream still holds.
    pub open spec fn outcome(&self, rest: Seq<u8>) -> Result<ResponseView, HttpErrorView> {
        match self.phase {
            ResponsePhase::StatusLine => response_of(rest),
            ResponsePhase::Headers => {
                let all = lines_view(self.headers@) + header_block(rest);
                with_body(
                    self.version@,
                    self.status,
                    self.reason@,
                    all,
                    body_of(all, after_headers(rest)),
                )
            },
            ResponsePhase::Body => self.finish(
                if self.pending <= rest.len() {
                    Ok(rest.take(self.pending as int))
                } else {
                    Err(failure("content reading failed"@, EARLY_EOF@))
                },
            ),
            ResponsePhase::ChunkSize => self.finish(continued(self.content@, chunked_body(rest))),
            ResponsePhase::ChunkData => self.finish(
                if rest.len() < self.pending {
                    Err(failure("chunk reading failed"@, EARLY_EOF@))
                } else {
                    continued(
                        self.content@ + rest.take(self.pending as int),
                        chunked_body(after_line(rest.skip(self.pending as int))),
                    )
                },
            ),
            ResponsePhase::ChunkEnd => self.finish(
                continued(self.content@, chunked_body(after_line(rest))),
            ),
        }
    }

    /// A reader at the start of a response. It has read nothing: it stands
    /// before the status line and holds no part of a response yet.
    pub fn new() -> (r: ResponseReader)
        ensures
            r.phase == ResponsePhase::StatusLine,
            r.version@ == Seq::<char>::empty(),
            r.status == 0,
            r.reason@ == Seq::<char>::empty(),
            r.headers@ == Seq::<String>::empty(),
            r.content@ == Seq::<u8>::empty(),
            r.pending == 0,
            r.wanted() == Want::Line,
            forall|s: Seq<u8>| #[trigger] r.outcome(s) == response_of(s),
    {
        ResponseReader {
            phase: ResponsePhase::StatusLine,
            version: String::new(),
            status: 0,
            reason: String::new(),
            headers: Vec::new(),
            content: Vec::new(),
            pending: 0,
        }
    }

    /// What the reader wants read next.
    pub fn want(&self) -> (w: Want)
        ensures
            w == self.wanted(),
    {
        match self.phase {
            ResponsePhase::Body => Want::Exact(self.pending),
            ResponsePhase::ChunkData => Want::Exact(self.pending),
            _ => Want::Line,
        }
    }

    /// The error that ends the read when the stream fails with `cause`.
    pub fn fail(&self, cause: &str) -> (e: HttpError)
        ensures
            e@ == failure(self.context(), cause@),
    {
        let context = match self.phase {
            ResponsePhase::StatusLine => "read failed",
            ResponsePhase::Headers => "header reading failed",
            ResponsePhase::Body => "content reading failed",
            ResponsePhase::ChunkSize => "chunk size reading failed",
            ResponsePhase::ChunkData => "chunk reading failed",
            ResponsePhase::ChunkEnd => "chunk footer reading failed",
        };
        failure_of(context, cause)
    }

    fn feed_status(self, data: Vec<u8>) -> (r: Fed<ResponseReader, Response>)
        requires
            self.phase == ResponsePhase::StatusLine,
        ensures
            forall|stream: Seq<u8>| #[trigger]
                is_read(self.wanted(), stream, data@) ==> self.outcome(stream) == response_fed(
                    r,
                    stream.skip(data@.len() as int),
                ),
            r is More ==> r->More_0.rank() < self.rank(),
    {
        let ghost line = data@;
        match decode_strict(data) {
            Err(t) => Fed::Failed(failure_of("decode request failed", t.as_str())),
            Ok(text) => {
                let w = split_words(text.as_str());
                if w.len() < 2 {
                    return Fed::Failed(error_of("status line parsing failed"));
                }
                assert(lines_view(w@)[0] == w@[0]@);
                assert(lines_view(w@)[1] == w@[1]@);
                match parse_number(w[1].as_str(), 10, 0xFFFF) {
                    Err(_) => Fed::Failed(error_of("status line parsing failed")),
                    Ok(v) => {
                        let next = ResponseReader {
                            phase: ResponsePhase::Headers,
                            version: w[0].clone(),
                            status: v as u16,
                            reason: join_from(&w, 2),
                            headers: Vec::new(),
                            content: Vec::new(),
                            pending: 0,
                        };
                        proof {
                            assert(lines_view(next.headers@) =~= Seq::<Seq<char>>::empty());
                            assert forall|stream: Seq<u8>| #[trigger]
                                is_read(self.wanted(), stream, line) implies self.outcome(stream)
                                == next.outcome(stream.skip(line.len() as int)) by {
                                let rest = after_line(stream);
                                lemma_line_len(stream);
                                assert(stream.skip(line.len() as int) == rest);
                                assert(lines_view(next.headers@) + header_block(rest)
                                    =~= header_block(rest));
                            }
                        }
                        Fed::More(next)
                    },
                }
            },
        }
    }

    fn feed_header(self, data: Vec<u8>) -> (r: Fed<ResponseReader, Response>)
        requires
            self.phase == ResponsePhase::Headers,
        ensures
            forall|stream: Seq<u8>| #[trigger]
                is_read(self.wanted(), stream, data@) ==> self.outcome(stream) == response_fed(
                    r,
                    stream.skip(data@.len() as int),
                ),
            data@.len() == 0 && r is More ==> r->More_0.rank() < self.rank(),
    {
        let ghost line = data@;
        let ghost old_headers = lines_view(self.headers@);
        let h = header_of(data.as_slice());
        proof {
            lemma_empty_text();
            if line.len() == 0 {
                assert(line =~= Seq::<u8>::empty());
            }
        }
        if h.as_str().is_empty() {
            let found = find_framing(&self.headers);
            proof {
                assert forall|stream: Seq<u8>| #[trigger]
                    is_read(self.wanted(), stream, line) implies header_block(stream)
                    == Seq::<Seq<char>>::empty() && after_headers(stream) == stream.skip(
                    line.len() as int,
                ) && old_headers + header_block(stream) == old_headers by {
                    lemma_line_len(stream);
                    assert(old_headers + Seq::<Seq<char>>::empty() =~= old_headers);
                }
            }
            match found {
                Err(e) => Fed::Failed(e),
                Ok(Framing::Fixed(n)) => {
                    if n == 0 {
                        let done = Response {
                            version: self.version,
                            status: self.status,
                            reason: self.reason,
                            headers: self.headers,
                            content: Vec::new(),
                        };
                        proof {
                            assert forall|stream: Seq<u8>| #[trigger]
                                is_read(self.wanted(), stream, line) implies self.outcome(stream)
                                == Ok::<ResponseView, HttpErrorView>(done@) by {
                                let rest = stream.skip(line.len() as int);
                                assert(rest.take(0) =~= done.content@);
                            }
                        }
                        Fed::Done(done)
                    } else {
                        let next = ResponseReader {
                            phase: ResponsePhase::Body,
                            version: self.version,
                            status: self.status,
                            reason: self.reason,
                            headers: self.headers,
                            content: Vec::new(),
                            pending: n,
                        };
                        Fed::More(next)
                    }
                },
                Ok(Framing::Chunked) => {
                    let next = ResponseReader {
                        phase: ResponsePhase::ChunkSize,
                        version: self.version,
                        status: self.status,
                        reason: self.reason,
                        headers: self.headers,
                        content: Vec::new(),
                        pending: 0,
                    };
                    proof {
                        assert forall|stream: Seq<u8>| #[trigger]
                            is_read(self.wanted(), stream, line) implies self.outcome(stream)
                            == next.outcome(stream.skip(line.len() as int)) by {
                            let rest = stream.skip(line.len() as int);
                            match chunked_body(rest) {
                                Ok(b) => {
                                    assert(next.content@ + b =~= b);
                                },
                                Err(_) => {},
                            }
                        }
                    }
                    Fed::More(next)
                },
                Ok(Framing::Nothing) => {
                    let done = Response {
                        version: self.version,
                        status: self.status,
                        reason: self.reason,
                        headers: self.headers,
                        content: Vec::new(),
                    };
                    assert(done.content@ =~= Seq::<u8>::empty());
                    Fed::Done(done)
                },
            }
        } else {
            let ghost text = h@;
            let mut headers = self.headers;
            headers.push(h);
            let next = ResponseReader {
                phase: ResponsePhase::Headers,
                version: self.version,
                status: self.status,
                reason: self.reason,
                headers,
                content: self.content,
                pending: self.pending,
            };
            proof {
                assert(lines_view(next.headers@) =~= old_headers.push(text));
                assert forall|stream: Seq<u8>| #[trigger]
                    is_read(self.wanted(), stream, line) implies self.outcome(stream)
                    == next.outcome(stream.skip(line.len() as int)) by {
                    lemma_line_len(stream);
                    let rest = after_line(stream);
                    assert(stream.len() > 0);
                    assert(header_block(stream) == seq![text] + header_block(rest));
                    assert(after_headers(stream) == after_headers(rest));
                    assert(old_headers + (seq![text] + header_block(rest)) =~= old_headers.push(
                        text,
                    ) + header_block(rest));
                }
            }
            Fed::More(next)
        }
    }

    fn feed_body(self, data: Vec<u8>) -> (r: Fed<ResponseReader, Response>)
        requires
            self.phase == ResponsePhase::Body,
        ensures
            forall|stream: Seq<u8>| #[trigger]
                is_read(self.wanted(), stream, data@) ==> self.outcome(stream) == response_fed(
                    r,
                    stream.skip(data@.len() as int),
                ),
            !(r is More),
    {
        Fed::Done(
            Response {
                version: self.version,
                status: self.status,
                reason: self.reason,
                headers: self.headers,
                content: data,
            },
        )
    }

    fn feed_chunk_size(self, data: Vec<u8>) -> (r: Fed<ResponseReader, Response>)
        requires
            self.phase == ResponsePhase::ChunkSize,
        ensures
            forall|stream: Seq<u8>| #[trigger]
                is_read(self.wanted(), stream, data@) ==> self.outcome(stream) == response_fed(
                    r,
                    stream.skip(data@.len() as int),
                ),
            data@.len() == 0 ==> !(r is More),
    {
        let ghost line = data@;
        let h = header_of(data.as_slice());
        proof {
            lemma_empty_text();
            if line.len() == 0 {
                assert(line =~= Seq::<u8>::empty());
            }
        }
        match parse_number(h.as_str(), 16, usize::MAX as u64) {
            Err(e) => Fed::Failed(failure_of("chunk size parsing failed", number_error_name(e))),
            Ok(v) => {
                if v == 0 {
                    let done = Response {
                        version: self.version,
                        status: self.status,
                        reason: self.reason,
                        headers: self.headers,
                        content: self.content,
                    };
                    assert(done.content@ + Seq::<u8>::empty() =~= done.content@);
                    Fed::Done(done)
                } else {
                    let next = ResponseReader {
                        phase: ResponsePhase::ChunkData,
                        version: self.version,
                        status: self.status,
                        reason: self.reason,
                        headers: self.headers,
                        content: self.content,
                        pending: v as usize,
                    };
                    proof {
                        assert forall|stream: Seq<u8>| #[trigger]
                            is_read(self.wanted(), stream, line) implies self.outcome(stream)
                            == next.outcome(stream.skip(line.len() as int)) by {
                            lemma_line_len(stream);
                            let rest = after_line(stream);
                            let n = v as int;
                            if rest.len() >= n {
                                match chunked_body(after_line(rest.skip(n))) {
                                    Ok(b) => {
                                        assert(self.content@ + (rest.take(n) + b) =~= (
                                        self.content@ + rest.take(n)) + b);
                                    },
                                    Err(_) => {},
                                }
                            }
                        }
                    }
                    Fed::More(next)
                }
            },
        }
    }

    fn feed_chunk_data(self, data: Vec<u8>) -> (r: Fed<ResponseReader, Response>)
        requires
            self.phase == ResponsePhase::ChunkData,
        ensures
            forall|stream: Seq<u8>| #[trigger]
                is_read(self.wanted(), stream, data@) ==> self.outcome(stream) == response_fed(
                    r,
                    stream.skip(data@.len() as int),
                ),
            r is More ==> r->More_0.rank() < self.rank(),
    {
        let ghost chunk = data@;
        let ghost before = self.content@;
        let mut content = self.content;
        let mut data = data;
        content.append(&mut data);
        let next = ResponseReader {
            phase: ResponsePhase::ChunkEnd,
            version: self.version,
            status: self.status,
            reason: self.reason,
            headers: self.headers,
            content,
            pending: 0,
        };
        assert(next.content@ =~= before + chunk);
        Fed::More(next)
    }

    fn feed_chunk_end(self, data: Vec<u8>) -> (r: Fed<ResponseReader, Response>)
        requires
            self.phase == ResponsePhase::ChunkEnd,
        ensures
            forall|stream: Seq<u8>| #[trigger]
                is_read(self.wanted(), stream, data@) ==> self.outcome(stream) == response_fed(
                    r,
                    stream.skip(data@.len() as int),
                ),
            r is More ==> r->More_0.rank() < self.rank(),
    {
        let next = ResponseReader {
            phase: ResponsePhase::ChunkSize,
            version: self.version,
            status: self.status,
            reason: self.reason,
            headers: self.headers,
            content: self.content,
            pending: 0,
        };
        proof {
            assert forall|stream: Seq<u8>| #[trigger]
                is_read(self.wanted(), stream, data@) implies self.outcome(stream) == next.outcome(
                stream.skip(data@.len() as int),
            ) by {
                lemma_line_len(stream);
            }
        }
        Fed::More(next)
    }

    /// Takes what was read. Where `data` is what the wanted read gives on a
    /// stream, the reader that comes back ends, on the rest of that stream,
    /// with what this reader ends with on all of it. A reader that is fed
    /// nothing and goes on has a smaller rank.
    pub fn feed(self, data: Vec<u8>) -> (r: Fed<ResponseReader, Response>)
        ensures
            forall|stream: Seq<u8>| #[trigger]
                is_read(self.wanted(), stream, data@) ==> self.outcome(stream) == response_fed(
                    r,
                    stream.skip(data@.len() as int),
                ),
            data@.len() == 0 && r is More ==> r->More_0.rank() < self.rank(),
    {
        match self.phase {
            ResponsePhase::StatusLine => self.feed_status(data),
            ResponsePhase::Headers => self.feed_header(data),
            ResponsePhase::Body => self.feed_body(data),
            ResponsePhase::ChunkSize => self.feed_chunk_size(data),
            ResponsePhase::ChunkData => self.feed_chunk_data(data),
            ResponsePhase::ChunkEnd => self.feed_chunk_end(data),
        }
    }
}

/// Index just behind the first line of `input` from `pos` on.
pub fn line_end(input: &[u8], pos: usize) -> (end: usize)
    requires
        pos <= input@.len(),
    ensures
        pos <= end <= input@.len(),
        end - pos == line_len(input@.skip(pos as int)),
{
    let mut end = pos;
    while end < input.len() && input[end] != 0x0A
        invariant
            pos <= end <= input@.len(),
            forall|j: int| pos <= j < end ==> #[trigger] input@[j] != 0x0A,
        decreases input@.len() - end,
    {
        end += 1;
    }
    let found = end < input.len();
    if found {
        end += 1;
    }
    proof {
        let s = input@.skip(pos as int);
        let k = end - pos;
        lemma_line_len_is(s, k as nat, found);
    }
    end
}

/// The first line of `s` has `k` bytes where none of the first `k - 1` is a
/// line feed and the last one is, or `s` ends there.
pub proof fn lemma_line_len_is(s: Seq<u8>, k: nat, found: bool)
    requires
        k <= s.len(),
        found ==> k >= 1 && s[k - 1] == 0x0A && forall|j: int|
            0 <= j < k - 1 ==> #[trigger] s[j] != 0x0A,
        !found ==> k == s.len() && forall|j: int| 0 <= j < k ==> #[trigger] s[j] != 0x0A,
    ensures
        line_len(s) == k,
    decreases s.len(),
{
    if s.len() > 0 && s[0] != 0x0A {
        let r = s.drop_first();
        assert forall|j: int| 0 <= j < k - 1 - (if found {
            1int
        } else {
            0int
        }) implies #[trigger] r[j] != 0x0A by {
            assert(r[j] == s[j + 1]);
        }
        if found {
            assert(r[k - 2] == s[k - 1]);
        }
        lemma_line_len_is(r, (k - 1) as nat, found);
    }
}

/// A stream that ends before the bytes that the reader wants ends the read
/// with the error for a short read.
pub proof fn lemma_short_read(reader: ResponseReader, rest: Seq<u8>)
    requires
        match reader.wanted() {
            Want::Exact(n) => rest.len() < n,
            Want::Line => false,
        },
    ensures
        reader.outcome(rest) == Err::<ResponseView, HttpErrorView>(
            failure(reader.context(), EARLY_EOF@),
        ),
{
}

/// Reads the response that `input` begins with, as a stream that ends where
/// `input` ends.
#[verifier::rlimit(40)]
pub fn read_response(input: &[u8]) -> (r: Result<Response, HttpError>)
    ensures
        response_result_view(r) == response_of(input@),
{
    let mut reader = ResponseReader::new();
    let mut pos: usize = 0;
    assert(input@.skip(0) =~= input@);
    loop
        invariant
            pos <= input@.len(),
            response_of(input@) == reader.outcome(input@.skip(pos as int)),
        decreases input@.len() - pos, reader.rank(),
    {
        let ghost stream = input@.skip(pos as int);
        let end = match reader.want() {
            Want::Line => line_end(input, pos),
            Want::Exact(n) => {
                if n > input.len() - pos {
                    proof {
                        lemma_short_read(reader, stream);
                    }
                    return Err(reader.fail(EARLY_EOF));
                }
                pos + n
            },
        };
        let data = slice_to_vec(slice_subrange(input, pos, end));
        proof {
            assert(data@ =~= stream.take(end - pos));
            assert(is_read(reader.wanted(), stream, data@));
            assert(stream.skip(data@.len() as int) =~= input@.skip(end as int));
        }
        match reader.feed(data) {
            Fed::More(next) => {
                reader = next;
                pos = end;
            },
            Fed::Done(x) => {
                return Ok(x);
            },
            Fed::Failed(e) => {
                return Err(e);
            },
        }
    }
}

/// Reads the header block that `input` begins with. Gives the headers and the
/// number of bytes that the block takes, the line that ends it included.
pub fn read_headers(input: &[u8]) -> (r: (Vec<String>, usize))
    ensures
        lines_view(r.0@) == header_block(input@),
        r.1 <= input@.len(),
        input@.skip(r.1 as int) == after_headers(input@),
{
    let mut headers: Vec<String> = Vec::new();
    let mut pos: usize = 0;
    assert(input@.skip(0) =~= input@);
    assert(lines_view(headers@) =~= Seq::<Seq<char>>::empty());
    loop
        invariant
            pos <= input@.len(),
            header_block(input@) == lines_view(headers@) + header_block(input@.skip(pos as int)),
            after_headers(input@) == after_headers(input@.skip(pos as int)),
        decreases input@.len() - pos,
    {
        let ghost stream = input@.skip(pos as int);
        let ghost before = lines_view(headers@);
        let end = line_end(input, pos);
        let h = header_of(slice_subrange(input, pos, end));
        proof {
            lemma_empty_text();
            lemma_line_len(stream);
            assert(input@.subrange(pos as int, end as int) =~= first_line(stream));
            assert(after_line(stream) =~= input@.skip(end as int));
            if stream.len() == 0 {
                assert(first_line(stream) =~= Seq::<u8>::empty());
            }
        }
        if h.as_str().is_empty() {
            assert(before + Seq::<Seq<char>>::empty() =~= before);
            return (headers, end);
        }
        let ghost text = h@;
        headers.push(h);
        proof {
            assert(lines_view(headers@) =~= before.push(text));
            assert(before + (seq![text] + header_block(after_line(stream))) =~= before.push(text)
                + header_block(after_line(stream)));
        }
        pos = end;
    }
}

/// Where a request reader stands.
#[derive(Debug, Clone, Copy, PartialEq, Eq, Structural)]
pub enum RequestPhase {
    /// Before the request line.
    RequestLine,
    /// In the header block.
    Headers,
}

/// Reads one request from a stream that it is fed line by line.
#[derive(Debug)]
pub struct RequestReader {
    pub phase: RequestPhase,
    pub method: String,
    pub target: String,
    pub version: String,
    pub headers: Vec<String>,
}

/// The view of what a request reader became.
pub open spec fn request_fed(r: Fed<RequestReader, Request>, rest: Seq<u8>) -> Result<
    RequestView,
    HttpErrorView,
> {
    match r {
        Fed::More(m) => m.outcome(rest),
        Fed::Done(x) => Ok(x@),
        Fed::Failed(e) => Err(e@),
    }
}

/// The view of a request that may have failed.
pub open spec fn request_result_view(r: Result<Request, HttpError>) -> Result<
    RequestView,
    HttpErrorView,
> {
    match r {
        Ok(x) => Ok(x@),
        Err(e) => Err(e@),
    }
}

/// The view of a host that may have failed.
pub open spec fn host_result_view(r: Result<String, HttpError>) -> Result<Seq<char>, HttpErrorView> {
    match r {
        Ok(x) => Ok(x@),
        Err(e) => Err(e@),
    }
}

/// The host that `headers` name.
pub fn find_host(headers: &Vec<String>) -> (r: Result<String, HttpError>)
    ensures
        host_result_view(r) == host_of(lines_view(headers@)),
{
    let ghost hs = lines_view(headers@);
    let mut i: usize = 0;
    assert(hs.skip(0) =~= hs);
    while i < headers.len()
        invariant
            i <= headers@.len(),
            hs == lines_view(headers@),
            host_of(hs) == host_of(hs.skip(i as int)),
        decreases headers@.len() - i,
    {
        let ghost rest = hs.skip(i as int);
        assert(rest[0] == headers@[i as int]@);
        assert(rest.drop_first() =~= hs.skip(i + 1));
        let h = headers[i].as_str();
        if starts_with(h, "Host:") {
            let w = split_words(h);
            if w.len() >= 2 {
                assert(lines_view(w@)[1] == w@[1]@);
                return Ok(w[1].clone());
            } else {
                return Err(error_of("parse host failed"));
            }
        }
        i += 1;
    }
    assert(hs.skip(headers@.len() as int) =~= Seq::<Seq<char>>::empty());
    Ok(String::new())
}

/// Puts a request together from its line and its headers: the host comes from
/// the headers, the address from the target and the host.
pub fn assemble_request(method: String, target: &str, version: String, headers: Vec<String>) -> (r:
    Result<Request, HttpError>)
    ensures
        request_result_view(r) == with_target(
            method@,
            target@,
            version@,
            lines_view(headers@),
        ),
{
    match find_host(&headers) {
        Err(e) => Err(e),
        Ok(host) => match parse_uri(target, host.as_str()) {
            None => Err(error_of("parse uri failed")),
            Some(uri) => Ok(Request { method, uri, version, headers }),
        },
    }
}

impl RequestReader {
    /// What names the read at hand in an error.
    pub open spec fn context(&self) -> Seq<char> {
        match self.phase {
            RequestPhase::RequestLine => "read failed"@,
            RequestPhase::Headers => "header reading failed"@,
        }
    }

    /// A bound on the number of reads of nothing that the reader will still
    /// ask for.
    pub open spec fn rank(&self) -> nat {
        match self.phase {
            RequestPhase::RequestLine => 2,
            RequestPhase::Headers => 1,
        }
    }

    /// What the read ends with, if `rest` is what the stream still holds.
    pub open spec fn outcome(&self, rest: Seq<u8>) -> Result<RequestView, HttpErrorView> {
        match self.phase {
            RequestPhase::RequestLine => request_of(rest),
            RequestPhase::Headers => with_target(
                self.method@,
                self.target@,
                self.version@,
                lines_view(self.headers@) + header_block(rest),
            ),
        }
    }

    /// A reader at the start of a request. It has read nothing: it stands
    /// before the request line and holds no part of a request yet.
    pub fn new() -> (r: RequestReader)
        ensures
            r.phase == RequestPhase::RequestLine,
            r.method@ == Seq::<char>::empty(),
            r.target@ == Seq::<char>::empty(),
            r.version@ == Seq::<char>::empty(),
            r.headers@ == Seq::<String>::empty(),
            forall|s: Seq<u8>| #[trigger] r.outcome(s) == request_of(s),
    {
        RequestReader {
            phase: RequestPhase::RequestLine,
            method: String::new(),
            target: String::new(),
            version: String::new(),
            headers: Vec::new(),
        }
    }

    /// What the reader wants read next: always a line.
    pub fn want(&self) -> (w: Want)
        ensures
            w == Want::Line,
    {
        Want::Line
    }

    /// The error that ends the read when the stream fails with `cause`.
    pub fn fail(&self, cause: &str) -> (e: HttpError)
        ensures
            e@ == failure(self.context(), cause@),
    {
        let context = match self.phase {
            RequestPhase::RequestLine => "read failed",
            RequestPhase::Headers => "header reading failed",
        };
        failure_of(context, cause)
    }

    fn feed_line(self, data: Vec<u8>) -> (r: Fed<RequestReader, Request>)
        requires
            self.phase == RequestPhase::RequestLine,
        ensures
            forall|stream: Seq<u8>| #[trigger]
                is_read(Want::Line, stream, data@) ==> self.outcome(stream) == request_fed(
                    r,
                    stream.skip(data@.len() as int),
                ),
            r is More ==> r->More_0.rank() < self.rank(),
    {
        let ghost line = data@;
        match decode_strict(data) {
            Err(t) => Fed::Failed(failure_of("decode request failed", t.as_str())),
            Ok(text) => {
                let w = split_words(text.as_str());
                if w.len() != 3 {
                    return Fed::Failed(error_of("request line parsing failed"));
                }
                assert(lines_view(w@)[0] == w@[0]@);
                assert(lines_view(w@)[1] == w@[1]@);
                assert(lines_view(w@)[2] == w@[2]@);
                let next = RequestReader {
                    phase: RequestPhase::Headers,
                    method: w[0].clone(),
                    target: w[1].clone(),
                    version: w[2].clone(),
                    headers: Vec::new(),
                };
                proof {
                    assert(lines_view(next.headers@) =~= Seq::<Seq<char>>::empty());
                    assert forall|stream: Seq<u8>| #[trigger]
                        is_read(Want::Line, stream, line) implies self.outcome(stream)
                        == next.outcome(stream.skip(line.len() as int)) by {
                        let rest = after_line(stream);
                        lemma_line_len(stream);
                        assert(stream.skip(line.len() as int) == rest);
                        assert(lines_view(next.headers@) + header_block(rest) =~= header_block(
                            rest,
                        ));
                    }
                }
                Fed::More(next)
            },
        }
    }

    fn feed_header(self, data: Vec<u8>) -> (r: Fed<RequestReader, Request>)
        requires
            self.phase == RequestPhase::Headers,
        ensures
            forall|stream: Seq<u8>| #[trigger]
                is_read(Want::Line, stream, data@) ==> self.outcome(stream) == request_fed(
                    r,
                    stream.skip(data@.len() as int),
                ),
            data@.len() == 0 ==> !(r is More),
    {
        let ghost line = data@;
        let ghost old_headers = lines_view(self.headers@);
        let h = header_of(data.as_slice());
        proof {
            lemma_empty_text();
            if line.len() == 0 {
                assert(line =~= Seq::<u8>::empty());
            }
        }
        if h.as_str().is_empty() {
            proof {
                assert forall|stream: Seq<u8>| #[trigger]
                    is_read(Want::Line, stream, line) implies old_headers + header_block(stream)
                    == old_headers by {
                    assert(old_headers + Seq::<Seq<char>>::empty() =~= old_headers);
                }
            }
            match assemble_request(self.method, self.target.as_str(), self.version, self.headers) {
                Ok(request) => Fed::Done(request),
                Err(e) => Fed::Failed(e),
            }
        } else {
            let ghost text = h@;
            let mut headers = self.headers;
            headers.push(h);
            let next = RequestReader {
                phase: RequestPhase::Headers,
                method: self.method,
                target: self.target,
                version: self.version,
                headers,
            };
            proof {
                assert(lines_view(next.headers@) =~= old_headers.push(text));
                assert forall|stream: Seq<u8>| #[trigger]
                    is_read(Want::Line, stream, line) implies self.outcome(stream)
                    == next.outcome(stream.skip(line.len() as int)) by {
                    lemma_line_len(stream);
                    let rest = after_line(stream);
                    assert(stream.len() > 0);
                    assert(header_block(stream) == seq![text] + header_block(rest));
                    assert(old_headers + (seq![text] + header_block(rest)) =~= old_headers.push(
                        text,
                    ) + header_block(rest));
                }
            }
            Fed::More(next)
        }
    }

    /// Takes the line that was read. Where `data` is the first line of a
    /// stream, the reader that comes back ends, on the rest of that stream,
    /// with what this reader ends with on all of it. A reader that is fed
    /// nothing and goes on has a smaller rank.
    pub fn feed(self, data: Vec<u8>) -> (r: Fed<RequestReader, Request>)
        ensures
            forall|stream: Seq<u8>| #[trigger]
                is_read(Want::Line, stream, data@) ==> self.outcome(stream) == request_fed(
                    r,
                    stream.skip(data@.len() as int),
                ),
            data@.len() == 0 && r is More ==> r->More_0.rank() < self.rank(),
    {
        match self.phase {
            RequestPhase::RequestLine => self.feed_line(data),
            RequestPhase::Headers => self.feed_header(data),
        }
    }
}

/// Reads the request that `input` begins with, as a stream that ends where
/// `input` ends.
pub fn read_request(input: &[u8]) -> (r: Result<Request, HttpError>)
    ensures
        request_result_view(r) == request_of(input@),
{
    let mut reader = RequestReader::new();
    let mut pos: usize = 0;
    assert(input@.skip(0) =~= input@);
    loop
        invariant
            pos <= input@.len(),
            request_of(input@) == reader.outcome(input@.skip(pos as int)),
        decreases input@.len() - pos, reader.rank(),
    {
        let ghost stream = input@.skip(pos as int);
        let end = line_end(input, pos);
        let data = slice_to_vec(slice_subrange(input, pos, end));
        proof {
            assert(data@ =~= stream.take(end - pos));
            assert(is_read(Want::Line, stream, data@));
            assert(stream.skip(data@.len() as int) =~= input@.skip(end as int));
        }
        match reader.feed(data) {
            Fed::More(next) => {
                reader = next;
                pos = end;
            },
            Fed::Done(x) => {
                return Ok(x);
            },
            Fed::Failed(e) => {
                return Err(e);
            },
        }
    }
}

/// The lines that stand before the first empty line of `lines`.
pub open spec fn leading_lines(lines: Seq<Seq<char>>) -> Seq<Seq<char>>
    decreases lines.len(),
{
    if lines.len() == 0 || lines[0].len() == 0 {
        Seq::empty()
    } else {
        seq![lines[0]] + leading_lines(lines.drop_first())
    }
}

/// The request headers to print: the lines up to the first empty one.
pub fn print_requesthdrs(lines: &Vec<String>) -> (out: Vec<String>)
    ensures
        lines_view(out@) == leading_lines(lines_view(lines@)),
{
    let ghost ls = lines_view(lines@);
    let mut out: Vec<String> = Vec::new();
    let mut i: usize = 0;
    assert(ls.skip(0) =~= ls);
    assert(lines_view(out@) =~= Seq::<Seq<char>>::empty());
    while i < lines.len()
        invariant
            i <= lines@.len(),
            ls == lines_view(lines@),
            leading_lines(ls) == lines_view(out@) + leading_lines(ls.skip(i as int)),
        decreases lines@.len() - i,
    {
        let ghost rest = ls.skip(i as int);
        let ghost before = lines_view(out@);
        assert(rest[0] == lines@[i as int]@);
        assert(rest.drop_first() =~= ls.skip(i + 1));
        if lines[i].as_str().is_empty() {
            assert(before + Seq::<Seq<char>>::empty() =~= before);
            return out;
        }
        out.push(lines[i].clone());
        proof {
            assert(lines_view(out@) =~= before.push(rest[0]));
            assert(before + (seq![rest[0]] + leading_lines(rest.drop_first())) =~= before.push(
                rest[0],
            ) + leading_lines(rest.drop_first()));
        }
        i += 1;
    }
    assert(ls.skip(lines@.len() as int) =~= Seq::<Seq<char>>::empty());
    assert(lines_view(out@) + Seq::<Seq<char>>::empty() =~= lines_view(out@));
    out
}

} // verus!
