//! Request targets. A target is taken apart by a regular expression into an
//! authority and a path; the authority is then split into host and port.

use crate::message::{Uri, UriView};
use crate::number::{numeral, parse_number};
use crate::text::chars_of;
use regex::Regex;
use vstd::prelude::*;
use vstd::string::*;

verus! {

/// The shape of a request target: an optional `http://`, the authority (as
/// short as can be), the path from a `/` on, and trailing white space.
pub const URI_PATTERN: &'static str = "^(?:http://)?(.*?)(/.*?)\\s*$";

/// What the regular expression `pattern` captures in `text`: for the leftmost
/// match, the text of each group in the order of the opening parentheses, the
/// whole match first, and `None` for a group that took no part. `None` where
/// `pattern` is no regular expression or matches nowhere in `text`.
pub uninterp spec fn regex_captures(pattern: Seq<char>, text: Seq<char>) -> Option<
    Seq<Option<Seq<char>>>,
>;

/// The groups of a match over sequences of characters.
pub open spec fn groups_view(groups: Option<Vec<Option<String>>>) -> Option<
    Seq<Option<Seq<char>>>,
> {
    match groups {
        None => None,
        Some(g) => Some(
            Seq::new(
                g@.len(),
                |i: int|
                    match g@[i] {
                        Some(s) => Some(s@),
                        None => None,
                    },
            ),
        ),
    }
}

/// Compiles `pattern` with `regex::Regex::new` and matches it against `text`
/// with `Regex::captures`; the groups are read with `Captures::iter` and
/// `Match::as_str`. Nothing is claimed of the outcome but that it is the one
/// named [`regex_captures`]: the same pattern and text give the same groups.
#[verifier::external_body]
fn captures(pattern: &str, text: &str) -> (groups: Option<Vec<Option<String>>>)
    ensures
        groups_view(groups) == regex_captures(pattern@, text@),
{
    match Regex::new(pattern) {
        Ok(re) => re.captures(text).map(
            |found| found.iter().map(|group| group.map(|m| m.as_str().to_string())).collect(),
        ),
        Err(_) => None,
    }
}

/// Index of the first `:` in `s`, or its length where it has none.
pub open spec fn colon_index(s: Seq<char>) -> nat
    decreases s.len(),
{
    if s.len() == 0 || s[0] == ':' {
        0
    } else {
        1 + colon_index(s.drop_first())
    }
}

/// What stands before the first `:` of an authority.
pub open spec fn host_part(authority: Seq<char>) -> Seq<char> {
    authority.take(colon_index(authority) as int)
}

/// What stands between the first `:` of an authority and the next, or its
/// end; `None` where it has no `:`.
pub open spec fn port_part(authority: Seq<char>) -> Option<Seq<char>> {
    let c = colon_index(authority) as int;
    if c < authority.len() {
        let rest = authority.skip(c + 1);
        Some(rest.take(colon_index(rest) as int))
    } else {
        None
    }
}

/// The port that an authority names: 80 where it names none that can be read.
pub open spec fn port_of(authority: Seq<char>) -> u16 {
    match port_part(authority) {
        Some(p) => match numeral(p, 10, 0xFFFF) {
            Ok(v) => v as u16,
            Err(_) => 80,
        },
        None => 80,
    }
}

/// The address that a captured authority and path stand for. An authority
/// that is absent or empty gives way to `default_host`; without a path there
/// is no address.
pub open spec fn uri_of_parts(
    authority: Option<Seq<char>>,
    path: Option<Seq<char>>,
    default_host: Seq<char>,
) -> Option<UriView> {
    match path {
        None => None,
        Some(p) => {
            let a = match authority {
                Some(a) => if a.len() > 0 {
                    a
                } else {
                    default_host
                },
                None => default_host,
            };
            Some(UriView { host: host_part(a), port: port_of(a), path: p })
        },
    }
}

/// The address that the groups of a match stand for: the first group is the
/// authority, the second the path.
pub open spec fn uri_of_groups(
    groups: Option<Seq<Option<Seq<char>>>>,
    default_host: Seq<char>,
) -> Option<UriView> {
    match groups {
        None => None,
        Some(g) => uri_of_parts(
            if g.len() > 1 {
                g[1]
            } else {
                None
            },
            if g.len() > 2 {
                g[2]
            } else {
                None
            },
            default_host,
        ),
    }
}

/// The address that a request target stands for.
pub open spec fn parsed_uri(target: Seq<char>, default_host: Seq<char>) -> Option<UriView> {
    uri_of_groups(regex_captures(URI_PATTERN@, target), default_host)
}

/// The view of an address that may be absent.
pub open spec fn uri_option_view(u: Option<Uri>) -> Option<UriView> {
    match u {
        Some(u) => Some(u@),
        None => None,
    }
}

/// The view of a text that may be absent.
pub open spec fn text_option_view(t: Option<&str>) -> Option<Seq<char>> {
    match t {
        Some(t) => Some(t@),
        None => None,
    }
}

pub proof fn lemma_colon_index(s: Seq<char>, k: int)
    requires
        0 <= k <= s.len(),
        forall|j: int| 0 <= j < k ==> #[trigger] s[j] != ':',
        k < s.len() ==> s[k] == ':',
    ensures
        colon_index(s) == k,
    decreases k,
{
    if k > 0 {
        let r = s.drop_first();
        assert forall|j: int| 0 <= j < k - 1 implies #[trigger] r[j] != ':' by {
            assert(r[j] == s[j + 1]);
        }
        if k - 1 < r.len() {
            assert(r[k - 1] == s[k]);
        }
        lemma_colon_index(r, k - 1);
    }
}

/// Index of the first `:` in `cs` at or after `from`, or the length.
fn find_colon(cs: &Vec<char>, from: usize) -> (k: usize)
    requires
        from <= cs@.len(),
    ensures
        from <= k <= cs@.len(),
        k - from == colon_index(cs@.skip(from as int)),
{
    let mut k = from;
    while k < cs.len() && cs[k] != ':'
        invariant
            from <= k <= cs@.len(),
            forall|j: int| from <= j < k ==> #[trigger] cs@[j] != ':',
        decreases cs@.len() - k,
    {
        k += 1;
    }
    proof {
        let s = cs@.skip(from as int);
        assert forall|j: int| 0 <= j < k - from implies #[trigger] s[j] != ':' by {
            assert(s[j] == cs@[from + j]);
        }
        if k - from < s.len() {
            assert(s[k - from] == cs@[k as int]);
        }
        lemma_colon_index(s, k - from);
    }
    k
}

/// Builds the address from what was captured of a request target: the
/// authority, split at `:` into host and port, and the path.
pub fn uri_from_parts(authority: Option<&str>, path: Option<&str>, default_host: &str) -> (r:
    Option<Uri>)
    ensures
        uri_option_view(r) == uri_of_parts(
            text_option_view(authority),
            text_option_view(path),
            default_host@,
        ),
{
    let p = match path {
        Some(p) => p,
        None => {
            return None;
        },
    };
    let a: &str = match authority {
        Some(a) => if a.unicode_len() > 0 {
            a
        } else {
            default_host
        },
        None => default_host,
    };
    let cs = chars_of(a);
    let n = cs.len();
    assert(cs@.skip(0) =~= a@);
    let c = find_colon(&cs, 0);
    let host = a.substring_char(0, c).to_owned();
    let port: u16 = if c < n {
        let d = find_colon(&cs, c + 1);
        assert(a@.skip(c + 1).take(d - (c + 1)) =~= a@.subrange(c + 1, d as int));
        match parse_number(a.substring_char(c + 1, d), 10, 0xFFFF) {
            Ok(v) => v as u16,
            Err(_) => 80,
        }
    } else {
        80
    };
    Some(Uri { host, port, path: p.to_owned() })
}

/// Reads a request target. It may be `http://host[:port]/path`,
/// `host[:port]/path` or `/path`; `default_host` stands in for an authority
/// that the target does not name.
pub fn parse_uri(uri: &str, default_host: &str) -> (r: Option<Uri>)
    ensures
        uri_option_view(r) == parsed_uri(uri@, default_host@),
{
    match captures(URI_PATTERN, uri) {
        None => None,
        Some(groups) => {
            let authority: Option<&str> = if groups.len() > 1 {
                match &groups[1] {
                    Some(s) => Some(s.as_str()),
                    None => None,
                }
            } else {
                None
            };
            let path: Option<&str> = if groups.len() > 2 {
                match &groups[2] {
                    Some(s) => Some(s.as_str()),
                    None => None,
                }
            } else {
                None
            };
            uri_from_parts(authority, path, default_host)
        },
    }
}

} // verus!
