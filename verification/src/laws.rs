//! What holds of the grammar: how words, trimming and numerals behave on
//! texts that the writer produces, and from there that reading gives back
//! what was written. For requests, whose address goes through a regular
//! expression, a function tells of a given request whether it is one that
//! reading gives back.

use crate::number::{decimal, digit_char, digit_of, numeral, scan_digits, NumberError};
use crate::text::{
    chars_of, is_space, is_whitespace, join_spaced, lemma_trim_end_take, lemma_trim_start_skip, lemma_word_len_bound,
    lemma_word_len_run, trim, trim_end, trim_start, word_len, words,
};
use crate::reader::{find_host, lemma_line_len_is};
use crate::handler::same_text;
use crate::message::{HttpErrorView, Request, RequestView, ResponseView, UriView};
use crate::wire::{
    after_headers, after_line, first_line, framing, header_block, header_text, response_of,
    status_line, Framing,
};
use crate::origin::{kept_headers, length_header, normalized};
use crate::wire::{is_chunked_header, is_framing_header, is_length_header, length_value};
use crate::uri::{lemma_colon_index, parse_uri, parsed_uri, uri_of_groups, uri_of_parts};
use crate::wire::{host_of, request_of, with_target};
use crate::writer::{header_lines, request_bytes, request_text, response_bytes, response_head};
use vstd::prelude::*;
use vstd::string::*;
use vstd::utf8::{
    encode_scalar, encode_utf8, encode_utf8_decode_utf8, encode_utf8_valid_utf8,
    has_width_1_encoding, last_continuation_byte, leading_byte_width_1, leading_byte_width_2,
    leading_byte_width_3, leading_byte_width_4, second_last_continuation_byte,
    third_last_continuation_byte,
};

verus! {

/// A text that is one word: not empty, and free of white space.
pub open spec fn is_word(w: Seq<char>) -> bool {
    w.len() > 0 && forall|i: int| 0 <= i < w.len() ==> !is_space(#[trigger] w[i])
}

/// A text of white space alone.
pub open spec fn is_blank(s: Seq<char>) -> bool {
    forall|i: int| 0 <= i < s.len() ==> is_space(#[trigger] s[i])
}

/// A text that trimming leaves as it is, and that is not empty.
pub open spec fn is_trimmed(h: Seq<char>) -> bool {
    h.len() > 0 && !is_space(h[0]) && !is_space(h.last())
}

/// A text without a line feed.
pub open spec fn is_one_line(s: Seq<char>) -> bool {
    forall|i: int| 0 <= i < s.len() ==> #[trigger] s[i] != '\n'
}

/// Two texts can be put together without merging a word of the one with a
/// word of the other.
pub open spec fn parts_cleanly(a: Seq<char>, b: Seq<char>) -> bool {
    a.len() == 0 || b.len() == 0 || is_space(a.last()) || is_space(b[0])
}

/// The words of two texts that part cleanly are the words of the one, then
/// the words of the other.
pub proof fn lemma_words_concat(a: Seq<char>, b: Seq<char>)
    requires
        parts_cleanly(a, b),
    ensures
        words(a + b) == words(a) + words(b),
    decreases a.len(),
{
    let ab = a + b;
    if a.len() == 0 {
        assert(ab =~= b);
        assert(words(a) + words(b) =~= words(b));
    } else if is_space(a[0]) {
        assert(ab[0] == a[0]);
        assert(ab.drop_first() =~= a.drop_first() + b);
        if a.len() > 1 {
            assert(a.drop_first().last() == a.last());
        }
        lemma_words_concat(a.drop_first(), b);
    } else {
        assert(ab[0] == a[0]);
        lemma_word_len_bound(a);
        let n = word_len(a) as int;
        assert forall|j: int| 0 <= j < n implies !is_space(#[trigger] ab[j]) by {
            assert(ab[j] == a[j]);
        }
        if n < ab.len() {
            if n < a.len() {
                assert(ab[n] == a[n]);
            } else {
                assert(n == a.len());
                assert(!is_space(a[n - 1]));
                assert(a.last() == a[n - 1]);
                assert(ab[n] == b[0]);
            }
        }
        lemma_word_len_run(ab, n);
        assert(ab.take(n) =~= a.take(n));
        assert(ab.skip(n) =~= a.skip(n) + b);
        if a.skip(n).len() > 0 {
            assert(a.skip(n).last() == a.last());
        }
        lemma_words_concat(a.skip(n), b);
        assert(words(a) == seq![a.take(n)] + words(a.skip(n)));
        assert(words(ab) == seq![ab.take(n)] + words(ab.skip(n)));
        assert(seq![a.take(n)] + (words(a.skip(n)) + words(b)) =~= (seq![a.take(n)] + words(
            a.skip(n),
        )) + words(b));
    }
}

/// A word is its own only word.
pub proof fn lemma_words_of_word(w: Seq<char>)
    requires
        is_word(w),
    ensures
        words(w) == seq![w],
{
    lemma_word_len_run(w, w.len() as int);
    let n = word_len(w) as int;
    assert(!is_space(w[0]));
    assert(w.take(n) =~= w);
    assert(w.skip(n) =~= Seq::<char>::empty());
    assert(words(w.skip(n)) =~= Seq::<Seq<char>>::empty());
    assert(words(w) == seq![w.take(n)] + words(w.skip(n)));
    assert(seq![w] + Seq::<Seq<char>>::empty() =~= seq![w]);
}

/// White space holds no word.
pub proof fn lemma_words_of_blank(s: Seq<char>)
    requires
        is_blank(s),
    ensures
        words(s) == Seq::<Seq<char>>::empty(),
    decreases s.len(),
{
    if s.len() > 0 {
        let r = s.drop_first();
        assert forall|i: int| 0 <= i < r.len() implies is_space(#[trigger] r[i]) by {
            assert(r[i] == s[i + 1]);
        }
        lemma_words_of_blank(r);
    }
}

/// Every word of a text is a word.
pub proof fn lemma_words_are_words(s: Seq<char>)
    ensures
        forall|i: int| 0 <= i < words(s).len() ==> is_word(#[trigger] words(s)[i]),
    decreases s.len(),
{
    if s.len() == 0 {
        assert(words(s).len() == 0);
    } else if is_space(s[0]) {
        lemma_words_are_words(s.drop_first());
        assert(words(s) == words(s.drop_first()));
    } else {
        lemma_word_len_bound(s);
        let n = word_len(s) as int;
        lemma_words_are_words(s.skip(n));
        let first = s.take(n);
        assert(is_word(first)) by {
            assert forall|i: int| 0 <= i < first.len() implies !is_space(#[trigger] first[i]) by {
                assert(first[i] == s[i]);
            }
        }
        let w = words(s);
        assert(w == seq![first] + words(s.skip(n)));
        assert forall|i: int| 0 <= i < w.len() implies is_word(#[trigger] w[i]) by {
            if i > 0 {
                assert(w[i] == words(s.skip(n))[i - 1]);
            }
        }
    }
}

/// Words joined by single spaces hold no line feed, and their words are the
/// words that were joined.
pub proof fn lemma_join(parts: Seq<Seq<char>>)
    requires
        forall|i: int| 0 <= i < parts.len() ==> is_word(#[trigger] parts[i]),
    ensures
        is_one_line(join_spaced(parts)),
        words(join_spaced(parts)) == parts,
        parts.len() > 0 ==> join_spaced(parts).len() > 0 && !is_space(join_spaced(parts).last()),
    decreases parts.len(),
{
    if parts.len() == 0 {
    } else if parts.len() == 1 {
        lemma_words_of_word(parts[0]);
        assert(parts =~= seq![parts[0]]);
        let w = parts[0];
        assert(w.last() == w[w.len() - 1]);
        assert forall|i: int| 0 <= i < w.len() implies #[trigger] w[i] != '\n' by {
            assert(!is_space(w[i]));
        }
    } else {
        let front = parts.drop_last();
        let last = parts.last();
        assert forall|i: int| 0 <= i < front.len() implies is_word(#[trigger] front[i]) by {
            assert(front[i] == parts[i]);
        }
        lemma_join(front);
        let a = join_spaced(front);
        let sp = seq![' '];
        let j = join_spaced(parts);
        assert(j == a + sp + last);
        assert(is_word(last));
        assert(j.last() == last[last.len() - 1]);
        assert forall|i: int| 0 <= i < j.len() implies #[trigger] j[i] != '\n' by {
            if i < a.len() {
                assert(j[i] == a[i]);
            } else if i == a.len() {
                assert(j[i] == ' ');
            } else {
                assert(j[i] == last[i - a.len() - 1]);
                assert(!is_space(last[i - a.len() - 1]));
            }
        }
        assert(is_space(sp[0]));
        assert(is_blank(sp));
        lemma_words_of_blank(sp);
        lemma_words_of_word(last);
        assert((a + sp).last() == ' ');
        lemma_words_concat(a + sp, last);
        assert(sp.last() == ' ');
        lemma_words_concat(a, sp);
        assert(words(j) =~= parts);
    }
}

/// Trimming takes the white space behind a trimmed text away, and nothing
/// else.
pub proof fn lemma_trim_tail(h: Seq<char>, tail: Seq<char>)
    requires
        is_trimmed(h),
        is_blank(tail),
    ensures
        trim(h + tail) == h,
{
    let s = h + tail;
    assert(s[0] == h[0]);
    assert(trim_start(s) == s);
    assert forall|j: int| h.len() <= j < s.len() implies is_space(#[trigger] s[j]) by {
        assert(s[j] == tail[j - h.len()]);
    }
    lemma_trim_end_take(s, h.len() as int);
    assert(s.take(h.len() as int) =~= h);
    assert(trim_end(h) == h);
}

/// Trimming leaves nothing of white space.
pub proof fn lemma_trim_blank(s: Seq<char>)
    requires
        is_blank(s),
    ensures
        trim(s) == Seq::<char>::empty(),
{
    lemma_trim_start_skip(s, s.len() as int);
    assert(s.skip(s.len() as int) =~= Seq::<char>::empty());
}

/// A numeral in decimal is a word of digits, and reads as the number that it
/// writes.
pub proof fn lemma_decimal(n: nat, max: nat)
    ensures
        is_word(decimal(n)),
        forall|i: int|
            0 <= i < decimal(n).len() ==> 0x30 <= (#[trigger] decimal(n)[i]) as u32 <= 0x39,
        n <= max ==> scan_digits(decimal(n), 10, max) == Ok::<nat, NumberError>(n),
        n <= max ==> numeral(decimal(n), 10, max) == Ok::<nat, NumberError>(n),
    decreases n,
{
    let s = decimal(n);
    if n < 10 {
        let c = digit_char(n);
        assert(c as u32 == n + 0x30);
        assert(s =~= seq![c]);
        assert(s.drop_last() =~= Seq::<char>::empty());
        assert(s.last() == c);
        assert(digit_of(c, 10) == Some(n));
        assert(scan_digits(s.drop_last(), 10, max) == Ok::<nat, NumberError>(0));
        if n <= max {
            assert(scan_digits(s, 10, max) == Ok::<nat, NumberError>(n));
        }
    } else {
        let front = decimal(n / 10);
        let c = digit_char(n % 10);
        lemma_decimal(n / 10, max);
        assert(c as u32 == n % 10 + 0x30);
        assert(s == front.push(c));
        assert(s.drop_last() =~= front);
        assert(s.last() == c);
        assert(digit_of(c, 10) == Some(n % 10));
        assert forall|i: int| 0 <= i < s.len() implies 0x30 <= (#[trigger] s[i]) as u32
            <= 0x39 by {
            if i < front.len() {
                assert(s[i] == front[i]);
            }
        }
        assert(s[0] == front[0]);
        if n <= max {
            assert((n / 10) * 10 + n % 10 == n);
            assert(scan_digits(s, 10, max) == Ok::<nat, NumberError>(n));
        }
    }
    assert(s[0] != '+');
    assert(s.len() > 0);
}

/// The encoding of two texts, one behind the other, is the encoding of the
/// one, then that of the other.
pub proof fn lemma_encode_concat(a: Seq<char>, b: Seq<char>)
    ensures
        encode_utf8(a + b) == encode_utf8(a) + encode_utf8(b),
    decreases a.len(),
{
    if a.len() == 0 {
        assert(a + b =~= b);
        assert(encode_utf8(a) + encode_utf8(b) =~= encode_utf8(b));
    } else {
        let ab = a + b;
        assert(ab[0] == a[0]);
        assert(ab.drop_first() =~= a.drop_first() + b);
        lemma_encode_concat(a.drop_first(), b);
        assert(encode_scalar(a[0] as u32) + (encode_utf8(a.drop_first()) + encode_utf8(b))
            =~= (encode_scalar(a[0] as u32) + encode_utf8(a.drop_first())) + encode_utf8(b));
    }
}

proof fn lemma_scalar_bytes(c: u32)
    by (bit_vector)
    requires
        c != 0x0A,
    ensures
        has_width_1_encoding(c) ==> leading_byte_width_1(c) != 0x0Au8,
        leading_byte_width_2(c) != 0x0Au8,
        leading_byte_width_3(c) != 0x0Au8,
        leading_byte_width_4(c) != 0x0Au8,
        last_continuation_byte(c) != 0x0Au8,
        second_last_continuation_byte(c) != 0x0Au8,
        third_last_continuation_byte(c) != 0x0Au8,
{
}

/// The encoding of a text without a line feed holds no byte that is one.
pub proof fn lemma_encode_one_line(s: Seq<char>)
    requires
        is_one_line(s),
    ensures
        forall|j: int| 0 <= j < encode_utf8(s).len() ==> #[trigger] encode_utf8(s)[j] != 0x0A,
    decreases s.len(),
{
    if s.len() > 0 {
        let r = s.drop_first();
        assert forall|i: int| 0 <= i < r.len() implies #[trigger] r[i] != '\n' by {
            assert(r[i] == s[i + 1]);
        }
        lemma_encode_one_line(r);
        let c = s[0] as u32;
        assert(c != 0x0A) by {
            vstd::utf8::char_u32_cast(s[0], c);
            vstd::utf8::char_u32_cast('\n', 0x0Au32);
        }
        lemma_scalar_bytes(c);
        let first = encode_scalar(c);
        let e = encode_utf8(s);
        assert(e == first + encode_utf8(r));
        assert forall|j: int| 0 <= j < e.len() implies #[trigger] e[j] != 0x0A by {
            if j < first.len() {
                assert(e[j] == first[j]);
            } else {
                assert(e[j] == encode_utf8(r)[j - first.len()]);
            }
        }
    }
}

/// The end of a line is white space, and two bytes on the wire.
pub proof fn lemma_line_end()
    ensures
        "\r\n"@ == seq!['\r', '\n'],
        is_blank("\r\n"@),
        encode_utf8("\r\n"@) == seq![0x0Du8, 0x0Au8],
{
    reveal_strlit("\r\n");
    let s = "\r\n"@;
    assert(s =~= seq!['\r', '\n']);
    assert(s.drop_first() =~= seq!['\n']);
    assert(s.drop_first().drop_first() =~= Seq::<char>::empty());
    assert(leading_byte_width_1(0x0Du32) == 0x0Du8) by (bit_vector);
    assert(leading_byte_width_1(0x0Au32) == 0x0Au8) by (bit_vector);
    assert(encode_utf8(s.drop_first().drop_first()) =~= Seq::<u8>::empty());
    assert(encode_utf8(s.drop_first()) =~= seq![0x0Au8]);
    assert(encode_utf8(s) =~= seq![0x0Du8, 0x0Au8]);
}

/// The first line of a stream that begins with the encoding of a text
/// without a line feed and the end of a line is that encoding, and the rest
/// of the stream follows it.
pub proof fn lemma_first_line(t: Seq<char>, rest: Seq<u8>)
    requires
        is_one_line(t),
    ensures
        first_line(encode_utf8(t + "\r\n"@) + rest) == encode_utf8(t + "\r\n"@),
        after_line(encode_utf8(t + "\r\n"@) + rest) == rest,
        encode_utf8(t + "\r\n"@).len() > 0,
{
    lemma_line_end();
    lemma_encode_concat(t, "\r\n"@);
    lemma_encode_one_line(t);
    let head = encode_utf8(t + "\r\n"@);
    let body = encode_utf8(t);
    let stream = head + rest;
    let k = head.len();
    assert(head == body + seq![0x0Du8, 0x0Au8]);
    assert(stream[k - 1] == 0x0A);
    assert forall|j: int| 0 <= j < k - 1 implies #[trigger] stream[j] != 0x0A by {
        if j < body.len() {
            assert(stream[j] == body[j]);
        } else {
            assert(stream[j] == 0x0D);
        }
    }
    lemma_line_len_is(stream, k, true);
    assert(stream.take(k as int) =~= head);
    assert(stream.skip(k as int) =~= rest);
}

/// A header as the reader gives it: trimmed, not empty, on one line.
pub open spec fn is_header_line(h: Seq<char>) -> bool {
    is_trimmed(h) && is_one_line(h)
}

/// A reason as the reader gives it: words with single spaces between them.
pub open spec fn is_reason(s: Seq<char>) -> bool {
    s == join_spaced(words(s))
}

/// The headers on the wire, from the front: the first, the end of its line,
/// and the rest.
pub proof fn lemma_header_lines_front(hs: Seq<Seq<char>>)
    requires
        hs.len() > 0,
    ensures
        header_lines(hs) == hs[0] + "\r\n"@ + header_lines(hs.drop_first()),
    decreases hs.len(),
{
    let crlf = "\r\n"@;
    if hs.len() == 1 {
        assert(hs.drop_last() =~= Seq::<Seq<char>>::empty());
        assert(hs.drop_first() =~= Seq::<Seq<char>>::empty());
        assert(hs.last() == hs[0]);
        assert(header_lines(hs) =~= hs[0] + crlf + header_lines(hs.drop_first()));
    } else {
        let front = hs.drop_last();
        let tail = hs.drop_first();
        lemma_header_lines_front(front);
        assert(front[0] == hs[0]);
        assert(tail.drop_last() =~= front.drop_first());
        assert(tail.last() == hs.last());
        assert(header_lines(tail) == header_lines(tail.drop_last()) + tail.last() + crlf);
        assert(header_lines(hs) =~= hs[0] + crlf + header_lines(tail));
    }
}

/// A line that was written holds the header that was written, and the line
/// that ends the headers holds none.
pub proof fn lemma_header_text(h: Seq<char>)
    ensures
        is_header_line(h) ==> header_text(encode_utf8(h + "\r\n"@)) == h,
        header_text(encode_utf8("\r\n"@)) == Seq::<char>::empty(),
{
    lemma_line_end();
    let crlf = "\r\n"@;
    encode_utf8_valid_utf8(crlf);
    encode_utf8_decode_utf8(crlf);
    lemma_trim_blank(crlf);
    if is_header_line(h) {
        encode_utf8_valid_utf8(h + crlf);
        encode_utf8_decode_utf8(h + crlf);
        lemma_trim_tail(h, crlf);
    }
}

/// Reading the headers that were written gives them back, and leaves what
/// follows them.
pub proof fn lemma_header_block(hs: Seq<Seq<char>>, rest: Seq<u8>)
    requires
        forall|i: int| 0 <= i < hs.len() ==> is_header_line(#[trigger] hs[i]),
    ensures
        header_block(encode_utf8(header_lines(hs) + "\r\n"@) + rest) == hs,
        after_headers(encode_utf8(header_lines(hs) + "\r\n"@) + rest) == rest,
    decreases hs.len(),
{
    let crlf = "\r\n"@;
    let stream = encode_utf8(header_lines(hs) + crlf) + rest;
    lemma_line_end();
    if hs.len() == 0 {
        let none = Seq::<char>::empty();
        assert(header_lines(hs) + crlf =~= none + crlf);
        lemma_first_line(none, rest);
        assert(none + crlf =~= crlf);
        lemma_header_text(none);
        assert(hs =~= Seq::<Seq<char>>::empty());
    } else {
        let h = hs[0];
        let tail = hs.drop_first();
        lemma_header_lines_front(hs);
        assert forall|i: int| 0 <= i < tail.len() implies is_header_line(#[trigger] tail[i]) by {
            assert(tail[i] == hs[i + 1]);
        }
        lemma_header_block(tail, rest);
        let more = encode_utf8(header_lines(tail) + crlf) + rest;
        assert(header_lines(hs) + crlf =~= (h + crlf) + (header_lines(tail) + crlf));
        lemma_encode_concat(h + crlf, header_lines(tail) + crlf);
        assert(stream =~= encode_utf8(h + crlf) + more);
        lemma_first_line(h, more);
        lemma_header_text(h);
        assert(header_block(stream) == seq![h] + header_block(more));
        assert(seq![h] + tail =~= hs);
    }
}

/// The text of a status line, without the end of the line.
pub open spec fn status_text(version: Seq<char>, status: u16, reason: Seq<char>) -> Seq<char> {
    version + " "@ + decimal(status as nat) + " "@ + reason
}

/// Reading the status line that was written gives back what was written.
pub proof fn lemma_status_line(version: Seq<char>, status: u16, reason: Seq<char>)
    requires
        is_word(version),
        is_reason(reason),
    ensures
        is_one_line(status_text(version, status, reason)),
        status_line(encode_utf8(status_text(version, status, reason) + "\r\n"@)) == Ok::<
            (Seq<char>, u16, Seq<char>),
            HttpErrorView,
        >((version, status, reason)),
{
    reveal_strlit(" ");
    lemma_line_end();
    let crlf = "\r\n"@;
    let sp = " "@;
    assert(sp =~= seq![' ']);
    assert(is_blank(sp));
    let dec = decimal(status as nat);
    lemma_decimal(status as nat, 0xFFFF);
    lemma_words_are_words(reason);
    lemma_join(words(reason));
    let st = status_text(version, status, reason);
    assert forall|i: int| 0 <= i < st.len() implies #[trigger] st[i] != '\n' by {
        if i < version.len() {
            assert(st[i] == version[i]);
            assert(!is_space(version[i]));
        } else if i < version.len() + 1 {
            assert(st[i] == ' ');
        } else if i < version.len() + 1 + dec.len() {
            assert(st[i] == dec[i - version.len() - 1]);
        } else if i < version.len() + 1 + dec.len() + 1 {
            assert(st[i] == ' ');
        } else {
            assert(st[i] == reason[i - version.len() - dec.len() - 2]);
        }
    }
    let line = st + crlf;
    let t1 = reason + crlf;
    let t2 = sp + t1;
    let t3 = dec + t2;
    let t4 = sp + t3;
    let t5 = version + t4;
    assert(line =~= t5);
    lemma_words_of_blank(crlf);
    lemma_words_of_blank(sp);
    lemma_words_of_word(dec);
    lemma_words_of_word(version);
    assert(is_space(crlf[0]));
    lemma_words_concat(reason, crlf);
    assert(sp.last() == ' ');
    lemma_words_concat(sp, t1);
    assert(t2[0] == ' ');
    lemma_words_concat(dec, t2);
    lemma_words_concat(sp, t3);
    assert(t4[0] == ' ');
    lemma_words_concat(version, t4);
    let w = words(line);
    assert(w =~= seq![version, dec] + words(reason));
    assert(w.skip(2) =~= words(reason));
    encode_utf8_valid_utf8(line);
    encode_utf8_decode_utf8(line);
}

/// Reading a response that was written gives the response back: where its
/// version is one word, its reason is words with single spaces between them,
/// its headers are trimmed lines, and the headers give the length of the
/// payload.
pub proof fn lemma_response_round_trip(r: ResponseView)
    requires
        is_word(r.version),
        is_reason(r.reason),
        forall|i: int| 0 <= i < r.headers.len() ==> is_header_line(#[trigger] r.headers[i]),
        r.content.len() <= usize::MAX,
        framing(r.headers) == Ok::<Framing, HttpErrorView>(
            Framing::Fixed(r.content.len() as usize),
        ),
    ensures
        response_of(response_bytes(r)) == Ok::<ResponseView, HttpErrorView>(r),
{
    let crlf = "\r\n"@;
    let st = status_text(r.version, r.status, r.reason);
    let hl = header_lines(r.headers);
    lemma_status_line(r.version, r.status, r.reason);
    assert(response_head(r) =~= (st + crlf) + (hl + crlf));
    lemma_encode_concat(st + crlf, hl + crlf);
    let rest = encode_utf8(hl + crlf) + r.content;
    let stream = response_bytes(r);
    assert(stream =~= encode_utf8(st + crlf) + rest);
    lemma_first_line(st, rest);
    lemma_header_block(r.headers, r.content);
    assert(r.content.take(r.content.len() as int) =~= r.content);
}

/// Headers of which none frames the body name no body.
pub proof fn lemma_framing_none(hs: Seq<Seq<char>>)
    requires
        forall|i: int| 0 <= i < hs.len() ==> !is_framing_header(#[trigger] hs[i]),
    ensures
        framing(hs) == Ok::<Framing, HttpErrorView>(Framing::Nothing),
    decreases hs.len(),
{
    if hs.len() > 0 {
        let front = hs.drop_last();
        assert forall|i: int| 0 <= i < front.len() implies !is_framing_header(
            #[trigger] front[i],
        ) by {
            assert(front[i] == hs[i]);
        }
        lemma_framing_none(front);
        assert(hs.last() == hs[hs.len() - 1]);
    }
}

/// The headers that are kept are headers that were there, and none of them
/// frames the body.
pub proof fn lemma_kept_headers(hs: Seq<Seq<char>>)
    ensures
        forall|i: int|
            0 <= i < kept_headers(hs).len() ==> !is_framing_header(#[trigger] kept_headers(hs)[i])
                && hs.contains(kept_headers(hs)[i]),
    decreases hs.len(),
{
    if hs.len() > 0 {
        let front = hs.drop_last();
        lemma_kept_headers(front);
        let k = kept_headers(hs);
        assert forall|i: int| 0 <= i < k.len() implies !is_framing_header(#[trigger] k[i])
            && hs.contains(k[i]) by {
            if i < kept_headers(front).len() {
                let h = kept_headers(front)[i];
                assert(k[i] == h);
                assert(front.contains(h));
                let j = choose|j: int| 0 <= j < front.len() && front[j] == h;
                assert(hs[j] == h);
            } else {
                assert(k[i] == hs.last());
                assert(hs[hs.len() - 1] == hs.last());
            }
        }
    }
}

/// The header that gives a length is a trimmed line that gives this length,
/// and does not ask for chunks.
pub proof fn lemma_length_header(n: nat)
    requires
        n <= usize::MAX,
    ensures
        is_header_line(length_header(n)),
        is_length_header(length_header(n)),
        !is_chunked_header(length_header(n)),
        length_value(length_header(n)) == Some(n as usize),
{
    reveal_strlit("Content-Length: ");
    reveal_strlit("Content-Length:");
    reveal_strlit("Transfer-Encoding:");
    let key = "Content-Length:"@;
    let prefix = "Content-Length: "@;
    let dec = decimal(n);
    let h = length_header(n);
    lemma_decimal(n, usize::MAX as nat);
    assert(key =~= seq![
        'C',
        'o',
        'n',
        't',
        'e',
        'n',
        't',
        '-',
        'L',
        'e',
        'n',
        'g',
        't',
        'h',
        ':',
    ]);
    let sp = seq![' '];
    assert(prefix =~= key + sp);
    assert(h =~= key + (sp + dec));
    assert(h.subrange(0, key.len() as int) =~= key);
    assert(h[0] == 'C');
    assert("Transfer-Encoding:"@[0] == 'T');
    assert(!"Transfer-Encoding:"@.is_prefix_of(h)) by {
        if "Transfer-Encoding:"@.is_prefix_of(h) {
            assert(h.subrange(0, "Transfer-Encoding:"@.len() as int)[0] == h[0]);
        }
    }
    assert(is_word(key)) by {
        assert forall|i: int| 0 <= i < key.len() implies !is_space(#[trigger] key[i]) by {
            if i == 0 {
            } else if i == 1 {
            } else if i == 2 {
            } else if i == 3 {
            } else if i == 4 {
            } else if i == 5 {
            } else if i == 6 {
            } else if i == 7 {
            } else if i == 8 {
            } else if i == 9 {
            } else if i == 10 {
            } else if i == 11 {
            } else if i == 12 {
            } else if i == 13 {
            } else {
            }
        }
    }
    assert(is_blank(sp));
    lemma_words_of_word(key);
    lemma_words_of_word(dec);
    lemma_words_of_blank(sp);
    assert(sp.last() == ' ');
    lemma_words_concat(sp, dec);
    assert((sp + dec)[0] == ' ');
    lemma_words_concat(key, sp + dec);
    assert(words(h) =~= seq![key, dec]);
    assert(h.last() == dec[dec.len() - 1]);
    assert forall|i: int| 0 <= i < h.len() implies #[trigger] h[i] != '\n' by {
        if i < key.len() {
            assert(h[i] == key[i]);
            assert(!is_space(key[i]));
        } else if i == key.len() {
            assert(h[i] == ' ');
        } else {
            assert(h[i] == dec[i - key.len() - 1]);
        }
    }
}

/// After normalization exactly one header gives a length, it stands last and
/// gives the length of the payload, and no header asks for chunks: the
/// headers frame the payload as it is.
pub proof fn lemma_normalized_framing(r: ResponseView)
    requires
        r.content.len() <= usize::MAX,
    ensures
        normalized(r).headers.len() > 0,
        forall|i: int|
            0 <= i < normalized(r).headers.len() ==> (is_length_header(
                #[trigger] normalized(r).headers[i],
            ) <==> i == normalized(r).headers.len() - 1),
        length_value(normalized(r).headers.last()) == Some(r.content.len() as usize),
        forall|i: int|
            0 <= i < normalized(r).headers.len() ==> !is_chunked_header(
                #[trigger] normalized(r).headers[i],
            ),
        framing(normalized(r).headers) == Ok::<Framing, HttpErrorView>(
            Framing::Fixed(r.content.len() as usize),
        ),
        normalized(r).content == r.content,
{
    let kept = kept_headers(r.headers);
    let hs = normalized(r).headers;
    lemma_kept_headers(r.headers);
    lemma_length_header(r.content.len());
    assert(hs.drop_last() =~= kept);
    assert forall|i: int| 0 <= i < kept.len() implies !is_framing_header(#[trigger] kept[i]) by {}
    lemma_framing_none(kept);
    assert forall|i: int| 0 <= i < hs.len() implies (is_length_header(#[trigger] hs[i]) <==> i
        == hs.len() - 1) && !is_chunked_header(hs[i]) by {
        if i < kept.len() {
            assert(hs[i] == kept[i]);
            assert(!is_framing_header(kept[i]));
        }
    }
}

/// Reading a normalized response that was written gives it back: where its
/// version is one word, its reason is words with single spaces between them,
/// and its headers are trimmed lines.
pub proof fn lemma_normalized_round_trip(r: ResponseView)
    requires
        is_word(r.version),
        is_reason(r.reason),
        forall|i: int| 0 <= i < r.headers.len() ==> is_header_line(#[trigger] r.headers[i]),
        r.content.len() <= usize::MAX,
    ensures
        response_of(response_bytes(normalized(r))) == Ok::<ResponseView, HttpErrorView>(
            normalized(r),
        ),
{
    let n = normalized(r);
    let kept = kept_headers(r.headers);
    lemma_kept_headers(r.headers);
    lemma_length_header(r.content.len());
    lemma_normalized_framing(r);
    assert forall|i: int| 0 <= i < n.headers.len() implies is_header_line(
        #[trigger] n.headers[i],
    ) by {
        if i < kept.len() {
            assert(n.headers[i] == kept[i]);
            assert(r.headers.contains(kept[i]));
            let j = choose|j: int| 0 <= j < r.headers.len() && r.headers[j] == kept[i];
            assert(is_header_line(r.headers[j]));
        }
    }
    lemma_response_round_trip(n);
}

/// Splitting the authority of an address gives its host and port back: where
/// the host is not empty and holds no colon.
pub proof fn lemma_uri_round_trip(u: UriView, default_host: Seq<char>)
    requires
        u.host.len() > 0,
        forall|i: int| 0 <= i < u.host.len() ==> #[trigger] u.host[i] != ':',
    ensures
        uri_of_parts(Some(u.authority()), Some(u.path), default_host) == Some(u),
{
    let a = u.authority();
    if u.port == 80 {
        lemma_colon_index(a, a.len() as int);
        assert(a.take(a.len() as int) =~= a);
    } else {
        reveal_strlit(":");
        let colon = ":"@;
        assert(colon =~= seq![':']);
        let dec = decimal(u.port as nat);
        lemma_decimal(u.port as nat, 0xFFFF);
        let k = u.host.len() as int;
        assert(a == u.host + colon + dec);
        assert forall|j: int| 0 <= j < k implies #[trigger] a[j] != ':' by {
            assert(a[j] == u.host[j]);
        }
        assert(a[k] == ':');
        lemma_colon_index(a, k);
        assert(a.take(k) =~= u.host);
        let rest = a.skip(k + 1);
        assert(rest =~= dec);
        assert forall|j: int| 0 <= j < dec.len() implies #[trigger] dec[j] != ':' by {
            assert(0x30 <= dec[j] as u32 <= 0x39);
        }
        lemma_colon_index(dec, dec.len() as int);
        assert(dec.take(dec.len() as int) =~= dec);
    }
}

/// Any match whose groups are the authority and the path that an address
/// was written from stands for that address: where the host is not empty and
/// holds no colon.
pub proof fn lemma_uri_of_groups(
    u: UriView,
    default_host: Seq<char>,
    groups: Seq<Option<Seq<char>>>,
)
    requires
        u.host.len() > 0,
        forall|i: int| 0 <= i < u.host.len() ==> #[trigger] u.host[i] != ':',
        groups.len() > 2,
        groups[1] == Some(u.authority()),
        groups[2] == Some(u.path),
    ensures
        uri_of_groups(Some(groups), default_host) == Some(u),
{
    lemma_uri_round_trip(u, default_host);
}

/// A request in the form that the reader gives: method, address and version
/// are one word each, the headers are trimmed lines, and reading the text of
/// the address, with the host that the headers name, gives the address.
pub open spec fn is_read_form(req: RequestView) -> bool {
    &&& is_word(req.method)
    &&& is_word(req.uri.canonical())
    &&& is_word(req.version)
    &&& forall|i: int| 0 <= i < req.headers.len() ==> is_header_line(#[trigger] req.headers[i])
    &&& match host_of(req.headers) {
        Ok(host) => parsed_uri(req.uri.canonical(), host) == Some(req.uri),
        Err(_) => false,
    }
}

/// Reading a request that was written finds its method, its version and its
/// headers as they were, and the text of its address as the target: where
/// method, address and version are one word each and the headers are trimmed
/// lines.
pub proof fn lemma_written_request(req: RequestView)
    requires
        is_word(req.method),
        is_word(req.uri.canonical()),
        is_word(req.version),
        forall|i: int| 0 <= i < req.headers.len() ==> is_header_line(#[trigger] req.headers[i]),
    ensures
        request_of(request_bytes(req)) == with_target(
            req.method,
            req.uri.canonical(),
            req.version,
            req.headers,
        ),
{
    reveal_strlit(" ");
    lemma_line_end();
    let crlf = "\r\n"@;
    let sp = " "@;
    assert(sp =~= seq![' ']);
    assert(is_blank(sp));
    let target = req.uri.canonical();
    let st = req.method + sp + target + sp + req.version;
    assert forall|i: int| 0 <= i < st.len() implies #[trigger] st[i] != '\n' by {
        if i < req.method.len() {
            assert(st[i] == req.method[i]);
            assert(!is_space(req.method[i]));
        } else if i < req.method.len() + 1 {
            assert(st[i] == ' ');
        } else if i < req.method.len() + 1 + target.len() {
            assert(st[i] == target[i - req.method.len() - 1]);
            assert(!is_space(target[i - req.method.len() - 1]));
        } else if i < req.method.len() + 1 + target.len() + 1 {
            assert(st[i] == ' ');
        } else {
            assert(st[i] == req.version[i - req.method.len() - target.len() - 2]);
            assert(!is_space(req.version[i - req.method.len() - target.len() - 2]));
        }
    }
    let line = st + crlf;
    let t1 = req.version + crlf;
    let t2 = sp + t1;
    let t3 = target + t2;
    let t4 = sp + t3;
    let t5 = req.method + t4;
    assert(line =~= t5);
    lemma_words_of_blank(crlf);
    lemma_words_of_blank(sp);
    lemma_words_of_word(req.version);
    lemma_words_of_word(target);
    lemma_words_of_word(req.method);
    assert(is_space(crlf[0]));
    lemma_words_concat(req.version, crlf);
    assert(sp.last() == ' ');
    lemma_words_concat(sp, t1);
    assert(t2[0] == ' ');
    lemma_words_concat(target, t2);
    lemma_words_concat(sp, t3);
    assert(t4[0] == ' ');
    lemma_words_concat(req.method, t4);
    let w = words(line);
    assert(w =~= seq![req.method, target, req.version]);
    encode_utf8_valid_utf8(line);
    encode_utf8_decode_utf8(line);
    let hl = header_lines(req.headers);
    assert(request_text(req) =~= (st + crlf) + (hl + crlf));
    lemma_encode_concat(st + crlf, hl + crlf);
    let none = Seq::<u8>::empty();
    let rest = encode_utf8(hl + crlf) + none;
    assert(rest =~= encode_utf8(hl + crlf));
    let stream = request_bytes(req);
    assert(stream =~= encode_utf8(st + crlf) + rest);
    lemma_first_line(st, rest);
    lemma_header_block(req.headers, none);
}

/// Reading a request that was written gives the request back, where the
/// request is in the form that the reader gives.
pub proof fn lemma_request_round_trip(req: RequestView)
    requires
        is_read_form(req),
    ensures
        request_of(request_bytes(req)) == Ok::<RequestView, HttpErrorView>(req),
{
    lemma_written_request(req);
}

/// Tells whether `s` is one word.
pub fn one_word(s: &str) -> (b: bool)
    ensures
        b == is_word(s@),
{
    let cs = chars_of(s);
    if cs.len() == 0 {
        return false;
    }
    let mut i: usize = 0;
    while i < cs.len()
        invariant
            i <= cs@.len(),
            cs@ == s@,
            forall|j: int| 0 <= j < i ==> !is_space(#[trigger] cs@[j]),
        decreases cs@.len() - i,
    {
        if is_whitespace(cs[i]) {
            return false;
        }
        i += 1;
    }
    true
}

/// Tells whether `s` is a header as the reader gives one.
pub fn header_line(s: &str) -> (b: bool)
    ensures
        b == is_header_line(s@),
{
    let cs = chars_of(s);
    let n = cs.len();
    if n == 0 || is_whitespace(cs[0]) || is_whitespace(cs[n - 1]) {
        return false;
    }
    let mut i: usize = 0;
    while i < n
        invariant
            i <= n,
            n == cs@.len(),
            cs@ == s@,
            forall|j: int| 0 <= j < i ==> #[trigger] cs@[j] != '\n',
        decreases n - i,
    {
        if cs[i] == '\n' {
            return false;
        }
        i += 1;
    }
    true
}

/// Tells whether `req` is in the form that the reader gives, by reading the
/// text of its address. Such a request, once written, is read back as it is.
pub fn request_round_trips(req: &Request) -> (ok: bool)
    ensures
        ok == is_read_form(req@),
        ok ==> request_of(request_bytes(req@)) == Ok::<RequestView, HttpErrorView>(req@),
{
    let target = req.uri.to_string();
    if !one_word(req.method.as_str()) || !one_word(target.as_str()) || !one_word(
        req.version.as_str(),
    ) {
        return false;
    }
    let mut i: usize = 0;
    while i < req.headers.len()
        invariant
            i <= req.headers@.len(),
            forall|j: int| 0 <= j < i ==> is_header_line(#[trigger] req@.headers[j]),
        decreases req.headers@.len() - i,
    {
        if !header_line(req.headers[i].as_str()) {
            assert(!is_header_line(req@.headers[i as int]));
            return false;
        }
        i += 1;
    }
    let host = match find_host(&req.headers) {
        Ok(host) => host,
        Err(_) => {
            return false;
        },
    };
    let ok = match parse_uri(target.as_str(), host.as_str()) {
        None => false,
        Some(u) => same_text(u.host.as_str(), req.uri.host.as_str()) && u.port == req.uri.port
            && same_text(u.path.as_str(), req.uri.path.as_str()),
    };
    proof {
        if ok {
            lemma_request_round_trip(req@);
        }
    }
    ok
}

} // verus!
