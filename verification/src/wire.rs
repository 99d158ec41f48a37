//! The grammar of messages on the wire, as functions of the bytes of a stream:
//! lines, the status and request lines, the header block, the framing that
//! the headers ask for, and the two kinds of body.

use crate::message::{HttpErrorView, RequestView, ResponseView};
use crate::number::{numeral, NumberError};
use crate::text::{has_substring, join_spaced, trim, words};
use crate::uri::parsed_uri;
use vstd::prelude::*;
use vstd::utf8::{decode_utf8, valid_utf8};

verus! {

/// The cause of a read that the end of the stream cut short, as the I/O
/// error for it is written out.
pub const EARLY_EOF: &'static str = "Custom { kind: UnexpectedEof, error: \"early eof\" }";

/// The text that stands for bytes which are not UTF-8: every malformed run
/// replaced by U+FFFD, the rest decoded.
pub uninterp spec fn replaced_text(bytes: Seq<u8>) -> Seq<char>;

/// How the standard library describes why bytes are not UTF-8.
pub uninterp spec fn utf8_error_text(bytes: Seq<u8>) -> Seq<char>;

/// The text of `bytes`, whatever they hold.
pub open spec fn lossy_text(bytes: Seq<u8>) -> Seq<char> {
    if valid_utf8(bytes) {
        decode_utf8(bytes)
    } else {
        replaced_text(bytes)
    }
}

/// `String::from_utf8`, with the error turned into its `Debug` text. The
/// call succeeds exactly on well-formed UTF-8 and then gives the characters
/// that the bytes encode; its error text is only named.
#[verifier::external_body]
pub(crate) fn decode_strict(bytes: Vec<u8>) -> (r: Result<String, String>)
    ensures
        valid_utf8(bytes@) ==> r is Ok && r->Ok_0@ == decode_utf8(bytes@),
        !valid_utf8(bytes@) ==> r is Err && r->Err_0@ == utf8_error_text(bytes@),
{
    String::from_utf8(bytes).map_err(|e| format!("{:?}", e))
}

/// `String::from_utf8_lossy`. On well-formed UTF-8 it gives the characters
/// that the bytes encode; what it makes of other bytes is only named.
#[verifier::external_body]
pub(crate) fn decode_lossy(bytes: &[u8]) -> (s: String)
    ensures
        valid_utf8(bytes@) ==> s@ == decode_utf8(bytes@),
        !valid_utf8(bytes@) ==> s@ == replaced_text(bytes@),
{
    String::from_utf8_lossy(bytes).into_owned()
}

/// Length of the first line of `s`: up to and with its first line feed, or
/// all of `s` where it has none.
pub open spec fn line_len(s: Seq<u8>) -> nat
    decreases s.len(),
{
    if s.len() == 0 {
        0
    } else if s[0] == 0x0A {
        1
    } else {
        1 + line_len(s.drop_first())
    }
}

/// The first line of `s`, with its line feed.
pub open spec fn first_line(s: Seq<u8>) -> Seq<u8> {
    s.take(line_len(s) as int)
}

/// What follows the first line of `s`.
pub open spec fn after_line(s: Seq<u8>) -> Seq<u8> {
    s.skip(line_len(s) as int)
}

pub proof fn lemma_line_len(s: Seq<u8>)
    ensures
        line_len(s) <= s.len(),
        s.len() > 0 ==> line_len(s) >= 1,
        forall|i: int| 0 <= i < line_len(s) - 1 ==> #[trigger] s[i] != 0x0A,
        line_len(s) < s.len() ==> s[line_len(s) - 1] == 0x0A,
    decreases s.len(),
{
    if s.len() > 0 && s[0] != 0x0A {
        let r = s.drop_first();
        lemma_line_len(r);
        assert forall|i: int| 0 <= i < line_len(s) - 1 implies #[trigger] s[i] != 0x0A by {
            if i > 0 {
                assert(s[i] == r[i - 1]);
            }
        }
        if line_len(s) < s.len() {
            assert(s[line_len(s) - 1] == r[line_len(r) - 1]);
        }
    }
}

/// Bytes that are no bytes at all hold no text.
pub proof fn lemma_empty_text()
    ensures
        valid_utf8(Seq::<u8>::empty()),
        lossy_text(Seq::<u8>::empty()) == Seq::<char>::empty(),
        header_text(Seq::<u8>::empty()) == Seq::<char>::empty(),
{
    let e = Seq::<u8>::empty();
    assert(valid_utf8(e));
    assert(decode_utf8(e) =~= Seq::<char>::empty());
}

/// The error that stands for any failure of reading, decoding or parsing.
pub open spec fn failure(context: Seq<char>, cause: Seq<char>) -> HttpErrorView {
    HttpErrorView::Error(context + ": "@ + cause)
}

/// The text of a [`NumberError`] inside an error's context: that of the
/// standard library's error for the same fault.
pub open spec fn number_error_text(e: NumberError) -> Seq<char> {
    match e {
        NumberError::Empty => "ParseIntError { kind: Empty }"@,
        NumberError::InvalidDigit => "ParseIntError { kind: InvalidDigit }"@,
        NumberError::Overflow => "ParseIntError { kind: PosOverflow }"@,
    }
}

/// The three parts of a request line: method, target and version. The line
/// holds these three words and no other.
pub open spec fn request_line(line: Seq<u8>) -> Result<
    (Seq<char>, Seq<char>, Seq<char>),
    HttpErrorView,
> {
    if !valid_utf8(line) {
        Err(failure("decode request failed"@, utf8_error_text(line)))
    } else {
        let w = words(decode_utf8(line));
        if w.len() == 3 {
            Ok((w[0], w[1], w[2]))
        } else {
            Err(HttpErrorView::Error("request line parsing failed"@))
        }
    }
}

/// The three parts of a status line: the version, the status, and the reason,
/// which is the rest of the words joined by single spaces.
pub open spec fn status_line(line: Seq<u8>) -> Result<(Seq<char>, u16, Seq<char>), HttpErrorView> {
    if !valid_utf8(line) {
        Err(failure("decode request failed"@, utf8_error_text(line)))
    } else {
        let w = words(decode_utf8(line));
        if w.len() >= 2 && numeral(w[1], 10, 0xFFFF) is Ok {
            Ok((w[0], numeral(w[1], 10, 0xFFFF)->Ok_0 as u16, join_spaced(w.skip(2))))
        } else {
            Err(HttpErrorView::Error("status line parsing failed"@))
        }
    }
}

/// The header that a line holds: its text without the white space around it.
pub open spec fn header_text(line: Seq<u8>) -> Seq<char> {
    trim(lossy_text(line))
}

/// The headers at the start of `s`: one for each line up to the first line
/// that holds nothing but white space, or to the end of `s`.
pub open spec fn header_block(s: Seq<u8>) -> Seq<Seq<char>>
    decreases s.len(),
{
    let h = header_text(first_line(s));
    if s.len() == 0 || h.len() == 0 {
        Seq::empty()
    } else {
        proof {
            lemma_line_len(s);
        }
        seq![h] + header_block(after_line(s))
    }
}

/// What follows the header block of `s` and the line that ends it.
pub open spec fn after_headers(s: Seq<u8>) -> Seq<u8>
    decreases s.len(),
{
    let h = header_text(first_line(s));
    if s.len() == 0 || h.len() == 0 {
        after_line(s)
    } else {
        proof {
            lemma_line_len(s);
        }
        after_headers(after_line(s))
    }
}

/// How the length of a body is told.
#[derive(Debug, Clone, Copy, PartialEq, Eq, Structural)]
pub enum Framing {
    /// The body has this many bytes.
    Fixed(usize),
    /// The body comes in chunks, each behind its size.
    Chunked,
    /// The headers name no body.
    Nothing,
}

/// A header that gives the length of the body.
pub open spec fn is_length_header(h: Seq<char>) -> bool {
    "Content-Length:"@.is_prefix_of(h)
}

/// A header that asks for a body in chunks.
pub open spec fn is_chunked_header(h: Seq<char>) -> bool {
    "Transfer-Encoding:"@.is_prefix_of(h) && has_substring(h, "chunked"@)
}

/// A header that frames the body, in either way.
pub open spec fn is_framing_header(h: Seq<char>) -> bool {
    is_length_header(h) || is_chunked_header(h)
}

/// The length that a length header names: its second word, in decimal.
pub open spec fn length_value(h: Seq<char>) -> Option<usize> {
    let w = words(h);
    if w.len() >= 2 && numeral(w[1], 10, usize::MAX as nat) is Ok {
        Some(numeral(w[1], 10, usize::MAX as nat)->Ok_0 as usize)
    } else {
        None
    }
}

/// The framing that `headers` ask for. A length header goes before one that
/// asks for chunks, wherever the two stand; of several length headers the
/// last counts, and each of them has to name a length.
pub open spec fn framing(headers: Seq<Seq<char>>) -> Result<Framing, HttpErrorView>
    decreases headers.len(),
{
    if headers.len() == 0 {
        Ok(Framing::Nothing)
    } else {
        match framing(headers.drop_last()) {
            Err(e) => Err(e),
            Ok(f) => {
                let h = headers.last();
                if is_length_header(h) {
                    match length_value(h) {
                        Some(n) => Ok(Framing::Fixed(n)),
                        None => Err(HttpErrorView::Error("parse content length failed"@)),
                    }
                } else if is_chunked_header(h) && !(f is Fixed) {
                    Ok(Framing::Chunked)
                } else {
                    Ok(f)
                }
            },
        }
    }
}

/// The size that a chunk's first line names, in hexadecimal.
pub open spec fn chunk_size(line: Seq<u8>) -> Result<nat, NumberError> {
    numeral(header_text(line), 16, usize::MAX as nat)
}

/// The body that the chunks at the start of `s` make up: each chunk is a
/// line with its size, that many bytes, and a line that ends it; a chunk of
/// size zero ends the body, and what follows it is not read.
pub open spec fn chunked_body(s: Seq<u8>) -> Result<Seq<u8>, HttpErrorView>
    decreases s.len(),
{
    match chunk_size(first_line(s)) {
        Err(e) => Err(failure("chunk size parsing failed"@, number_error_text(e))),
        Ok(n) => {
            let r = after_line(s);
            if n == 0 {
                Ok(Seq::empty())
            } else if r.len() < n {
                Err(failure("chunk reading failed"@, EARLY_EOF@))
            } else {
                proof {
                    lemma_line_len(s);
                    lemma_line_len(r.skip(n as int));
                }
                match chunked_body(after_line(r.skip(n as int))) {
                    Err(e) => Err(e),
                    Ok(b) => Ok(r.take(n as int) + b),
                }
            }
        },
    }
}

/// The body of a message with `headers` that is followed by `s`.
pub open spec fn body_of(headers: Seq<Seq<char>>, s: Seq<u8>) -> Result<Seq<u8>, HttpErrorView> {
    match framing(headers) {
        Err(e) => Err(e),
        Ok(Framing::Fixed(n)) => if n <= s.len() {
            Ok(s.take(n as int))
        } else {
            Err(failure("content reading failed"@, EARLY_EOF@))
        },
        Ok(Framing::Chunked) => chunked_body(s),
        Ok(Framing::Nothing) => Ok(Seq::empty()),
    }
}

/// The response with the given head, if `body` is one.
pub open spec fn with_body(
    version: Seq<char>,
    status: u16,
    reason: Seq<char>,
    headers: Seq<Seq<char>>,
    body: Result<Seq<u8>, HttpErrorView>,
) -> Result<ResponseView, HttpErrorView> {
    match body {
        Err(e) => Err(e),
        Ok(content) => Ok(ResponseView { version, status, reason, headers, content }),
    }
}

/// The response that the stream `s` begins with.
pub open spec fn response_of(s: Seq<u8>) -> Result<ResponseView, HttpErrorView> {
    match status_line(first_line(s)) {
        Err(e) => Err(e),
        Ok((version, status, reason)) => {
            let r = after_line(s);
            let headers = header_block(r);
            with_body(version, status, reason, headers, body_of(headers, after_headers(r)))
        },
    }
}

/// The host that `headers` name: the second word of the first header that
/// begins with `Host:`, and the empty text where there is no such header.
pub open spec fn host_of(headers: Seq<Seq<char>>) -> Result<Seq<char>, HttpErrorView>
    decreases headers.len(),
{
    if headers.len() == 0 {
        Ok(Seq::empty())
    } else if "Host:"@.is_prefix_of(headers[0]) {
        let w = words(headers[0]);
        if w.len() >= 2 {
            Ok(w[1])
        } else {
            Err(HttpErrorView::Error("parse host failed"@))
        }
    } else {
        host_of(headers.drop_first())
    }
}

/// The request with the given line and headers.
pub open spec fn with_target(
    method: Seq<char>,
    target: Seq<char>,
    version: Seq<char>,
    headers: Seq<Seq<char>>,
) -> Result<RequestView, HttpErrorView> {
    match host_of(headers) {
        Err(e) => Err(e),
        Ok(host) => match parsed_uri(target, host) {
            None => Err(HttpErrorView::Error("parse uri failed"@)),
            Some(uri) => Ok(RequestView { method, uri, version, headers }),
        },
    }
}

/// The request that the stream `s` begins with.
pub open spec fn request_of(s: Seq<u8>) -> Result<RequestView, HttpErrorView> {
    match request_line(first_line(s)) {
        Err(e) => Err(e),
        Ok((method, target, version)) => with_target(
            method,
            target,
            version,
            header_block(after_line(s)),
        ),
    }
}

} // verus!
