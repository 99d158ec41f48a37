//! Text primitives that the message grammar is built from: white space,
//! trimming, splitting into words, prefixes and substrings. Each executable
//! function works on `&str` and is specified over the characters of its
//! arguments.

use vstd::prelude::*;
use vstd::string::*;

verus! {

/// The characters that separate words: the code points with the Unicode
/// property `White_Space`.
pub open spec fn is_space(c: char) -> bool {
    let u = c as u32;
    ||| 0x09 <= u <= 0x0D
    ||| u == 0x20
    ||| u == 0x85
    ||| u == 0xA0
    ||| u == 0x1680
    ||| 0x2000 <= u <= 0x200A
    ||| u == 0x2028
    ||| u == 0x2029
    ||| u == 0x202F
    ||| u == 0x205F
    ||| u == 0x3000
}

/// `s` without its leading white space.
pub open spec fn trim_start(s: Seq<char>) -> Seq<char>
    decreases s.len(),
{
    if s.len() > 0 && is_space(s[0]) {
        trim_start(s.drop_first())
    } else {
        s
    }
}

/// `s` without its trailing white space.
pub open spec fn trim_end(s: Seq<char>) -> Seq<char>
    decreases s.len(),
{
    if s.len() > 0 && is_space(s.last()) {
        trim_end(s.drop_last())
    } else {
        s
    }
}

/// `s` without leading and trailing white space.
pub open spec fn trim(s: Seq<char>) -> Seq<char> {
    trim_end(trim_start(s))
}

/// Length of the longest prefix of `s` that holds no white space.
pub open spec fn word_len(s: Seq<char>) -> nat
    decreases s.len(),
{
    if s.len() > 0 && !is_space(s[0]) {
        1 + word_len(s.drop_first())
    } else {
        0
    }
}

/// The words of `s`: its maximal runs of characters that are not white space,
/// in order.
pub open spec fn words(s: Seq<char>) -> Seq<Seq<char>>
    decreases s.len(),
{
    if s.len() == 0 {
        Seq::empty()
    } else if is_space(s[0]) {
        words(s.drop_first())
    } else {
        let n = word_len(s) as int;
        if 0 < n <= s.len() {
            seq![s.take(n)] + words(s.skip(n))
        } else {
            Seq::empty()
        }
    }
}

/// `parts` joined by single spaces.
pub open spec fn join_spaced(parts: Seq<Seq<char>>) -> Seq<char>
    decreases parts.len(),
{
    if parts.len() == 0 {
        Seq::empty()
    } else if parts.len() == 1 {
        parts[0]
    } else {
        join_spaced(parts.drop_last()) + seq![' '] + parts.last()
    }
}

/// `needle` occurs in `s` as a contiguous run.
pub open spec fn has_substring(s: Seq<char>, needle: Seq<char>) -> bool {
    exists|i: int| occurs_at(s, needle, i)
}

/// `needle` occurs in `s` at index `i`.
pub open spec fn occurs_at(s: Seq<char>, needle: Seq<char>, i: int) -> bool {
    0 <= i && i + needle.len() <= s.len() && s.subrange(i, i + needle.len()) == needle
}

/// The views of a sequence of strings.
pub open spec fn lines_view(v: Seq<String>) -> Seq<Seq<char>> {
    Seq::new(v.len(), |i: int| v[i]@)
}

pub proof fn lemma_word_len_bound(s: Seq<char>)
    ensures
        word_len(s) <= s.len(),
        s.len() > 0 && !is_space(s[0]) ==> word_len(s) >= 1,
        forall|i: int| 0 <= i < word_len(s) ==> !is_space(#[trigger] s[i]),
        word_len(s) < s.len() ==> is_space(s[word_len(s) as int]),
    decreases s.len(),
{
    if s.len() > 0 && !is_space(s[0]) {
        let r = s.drop_first();
        lemma_word_len_bound(r);
        assert forall|i: int| 0 <= i < word_len(s) implies !is_space(#[trigger] s[i]) by {
            if i > 0 {
                assert(s[i] == r[i - 1]);
            }
        }
        if word_len(s) < s.len() {
            assert(s[word_len(s) as int] == r[word_len(r) as int]);
        }
    }
}

/// Tells whether `c` is white space.
pub fn is_whitespace(c: char) -> (b: bool)
    ensures
        b == is_space(c),
{
    let u: u32 = c as u32;
    (0x09 <= u && u <= 0x0D) || u == 0x20 || u == 0x85 || u == 0xA0 || u == 0x1680 || (0x2000 <= u
        && u <= 0x200A) || u == 0x2028 || u == 0x2029 || u == 0x202F || u == 0x205F || u == 0x3000
}

/// The characters of `s`, for access by index.
pub fn chars_of(s: &str) -> (v: Vec<char>)
    ensures
        v@ == s@,
{
    let mut v: Vec<char> = Vec::new();
    for c in it: s.chars()
        invariant
            v@ == it.seq().take(it.index()),
            it.seq() == s@,
    {
        v.push(c);
    }
    v
}

pub proof fn lemma_trim_start_skip(s: Seq<char>, i: int)
    requires
        0 <= i <= s.len(),
        forall|j: int| 0 <= j < i ==> is_space(#[trigger] s[j]),
    ensures
        trim_start(s) == trim_start(s.skip(i)),
    decreases i,
{
    if i > 0 {
        let r = s.drop_first();
        assert forall|j: int| 0 <= j < i - 1 implies is_space(#[trigger] r[j]) by {
            assert(r[j] == s[j + 1]);
        }
        lemma_trim_start_skip(r, i - 1);
        assert(r.skip(i - 1) =~= s.skip(i));
    } else {
        assert(s.skip(0) =~= s);
    }
}

pub proof fn lemma_trim_end_take(s: Seq<char>, i: int)
    requires
        0 <= i <= s.len(),
        forall|j: int| i <= j < s.len() ==> is_space(#[trigger] s[j]),
    ensures
        trim_end(s) == trim_end(s.take(i)),
    decreases s.len() - i,
{
    if i < s.len() {
        let r = s.drop_last();
        assert forall|j: int| i <= j < r.len() implies is_space(#[trigger] r[j]) by {
            assert(r[j] == s[j]);
        }
        lemma_trim_end_take(r, i);
        assert(r.take(i) =~= s.take(i));
    } else {
        assert(s.take(i) =~= s);
    }
}

/// `s` without leading and trailing white space.
pub fn trimmed(s: &str) -> (t: String)
    ensures
        t@ == trim(s@),
{
    let cs = chars_of(s);
    let n = cs.len();
    let mut a: usize = 0;
    while a < n && is_whitespace(cs[a])
        invariant
            a <= n,
            n == cs@.len(),
            forall|j: int| 0 <= j < a ==> is_space(#[trigger] cs@[j]),
        decreases n - a,
    {
        a += 1;
    }
    let mut b: usize = n;
    while b > a && is_whitespace(cs[b - 1])
        invariant
            a <= b <= n,
            n == cs@.len(),
            forall|j: int| b <= j < n ==> is_space(#[trigger] cs@[j]),
        decreases b,
    {
        b -= 1;
    }
    proof {
        let full = s@;
        let t0 = full.skip(a as int);
        lemma_trim_start_skip(full, a as int);
        assert(trim_start(full) == t0) by {
            if a < n {
                assert(t0[0] == full[a as int]);
            }
        }
        assert forall|j: int| b - a <= j < t0.len() implies is_space(#[trigger] t0[j]) by {
            assert(t0[j] == full[j + a]);
        }
        lemma_trim_end_take(t0, b - a);
        let t1 = t0.take(b - a);
        assert(trim_end(t1) == t1) by {
            if b > a {
                assert(t1.last() == full[b - 1]);
            }
        }
        assert(t1 =~= full.subrange(a as int, b as int));
    }
    s.substring_char(a, b).to_owned()
}

pub proof fn lemma_word_len_run(s: Seq<char>, n: int)
    requires
        0 <= n <= s.len(),
        forall|j: int| 0 <= j < n ==> !is_space(#[trigger] s[j]),
        n < s.len() ==> is_space(s[n]),
    ensures
        word_len(s) == n,
    decreases n,
{
    if n > 0 {
        let r = s.drop_first();
        assert forall|j: int| 0 <= j < n - 1 implies !is_space(#[trigger] r[j]) by {
            assert(r[j] == s[j + 1]);
        }
        if n - 1 < r.len() {
            assert(r[n - 1] == s[n]);
        }
        lemma_word_len_run(r, n - 1);
    }
}

/// The words of `s`, in order.
pub fn split_words(s: &str) -> (out: Vec<String>)
    ensures
        lines_view(out@) == words(s@),
{
    let cs = chars_of(s);
    let n = cs.len();
    let mut out: Vec<String> = Vec::new();
    let mut i: usize = 0;
    assert(s@.skip(0) =~= s@);
    assert(lines_view(out@) =~= Seq::<Seq<char>>::empty());
    while i < n
        invariant
            i <= n,
            n == cs@.len(),
            cs@ == s@,
            words(s@) == lines_view(out@) + words(s@.skip(i as int)),
        decreases n - i,
    {
        let ghost rest = s@.skip(i as int);
        assert(rest[0] == s@[i as int]);
        if is_whitespace(cs[i]) {
            assert(rest.drop_first() =~= s@.skip(i + 1));
            i += 1;
        } else {
            let start = i;
            while i < n && !is_whitespace(cs[i])
                invariant
                    start <= i <= n,
                    n == cs@.len(),
                    cs@ == s@,
                    forall|j: int| start <= j < i ==> !is_space(#[trigger] s@[j]),
                decreases n - i,
            {
                i += 1;
            }
            let ghost len = i - start;
            proof {
                assert forall|j: int| 0 <= j < len implies !is_space(#[trigger] rest[j]) by {
                    assert(rest[j] == s@[start + j]);
                }
                if len < rest.len() {
                    assert(rest[len] == s@[i as int]);
                }
                lemma_word_len_run(rest, len);
                assert(rest.take(len) =~= s@.subrange(start as int, i as int));
                assert(rest.skip(len) =~= s@.skip(i as int));
            }
            let ghost before = lines_view(out@);
            let word = s.substring_char(start, i).to_owned();
            out.push(word);
            assert(lines_view(out@) =~= before + seq![rest.take(len)]);
            assert(words(rest) == seq![rest.take(len)] + words(rest.skip(len)));
            assert(words(s@) =~= lines_view(out@) + words(s@.skip(i as int)));
        }
    }
    assert(s@.skip(n as int) =~= Seq::<char>::empty());
    out
}

/// Tells whether `s` begins with `prefix`.
pub fn starts_with(s: &str, prefix: &str) -> (b: bool)
    ensures
        b == prefix@.is_prefix_of(s@),
{
    let cs = chars_of(s);
    let ps = chars_of(prefix);
    if ps.len() > cs.len() {
        return false;
    }
    let mut i: usize = 0;
    while i < ps.len()
        invariant
            i <= ps@.len() <= cs@.len(),
            cs@ == s@,
            ps@ == prefix@,
            forall|j: int| 0 <= j < i ==> cs@[j] == ps@[j],
        decreases ps@.len() - i,
    {
        if cs[i] != ps[i] {
            assert(s@.subrange(0, prefix@.len() as int)[i as int] != prefix@[i as int]);
            return false;
        }
        i += 1;
    }
    assert(s@.subrange(0, prefix@.len() as int) =~= prefix@);
    true
}

/// Tells whether `s` ends with `suffix`.
pub fn ends_with(s: &str, suffix: &str) -> (b: bool)
    ensures
        b == suffix@.is_suffix_of(s@),
{
    let cs = chars_of(s);
    let ps = chars_of(suffix);
    if ps.len() > cs.len() {
        return false;
    }
    let off = cs.len() - ps.len();
    let mut i: usize = 0;
    while i < ps.len()
        invariant
            i <= ps@.len() <= cs@.len(),
            off == cs@.len() - ps@.len(),
            cs@.len() <= usize::MAX,
            cs@ == s@,
            ps@ == suffix@,
            forall|j: int| 0 <= j < i ==> cs@[off + j] == ps@[j],
        decreases ps@.len() - i,
    {
        if cs[off + i] != ps[i] {
            assert(s@.subrange(off as int, s@.len() as int)[i as int] != suffix@[i as int]);
            return false;
        }
        i += 1;
    }
    assert(s@.subrange(off as int, s@.len() as int) =~= suffix@);
    true
}

/// Tells whether `needle` occurs in `s`.
pub fn contains(s: &str, needle: &str) -> (b: bool)
    ensures
        b == has_substring(s@, needle@),
{
    let cs = chars_of(s);
    let ns = chars_of(needle);
    if ns.len() > cs.len() {
        assert forall|i: int| !occurs_at(s@, needle@, i) by {}
        return false;
    }
    let last = cs.len() - ns.len();
    let mut i: usize = 0;
    while i <= last
        invariant
            i <= last + 1,
            last == cs@.len() - ns@.len(),
            cs@.len() <= usize::MAX,
            cs@ == s@,
            ns@ == needle@,
            forall|k: int| 0 <= k < i ==> !occurs_at(s@, needle@, k),
        decreases last + 1 - i,
    {
        let mut j: usize = 0;
        let mut same = true;
        while j < ns.len()
            invariant_except_break
                same,
            invariant
                j <= ns@.len(),
                i <= last,
                last == cs@.len() - ns@.len(),
                cs@.len() <= usize::MAX,
                forall|k: int| 0 <= k < j ==> cs@[i + k] == ns@[k],
            ensures
                same ==> j == ns@.len() && forall|k: int| 0 <= k < j ==> cs@[i + k] == ns@[k],
                !same ==> j < ns@.len() && cs@[i + j] != ns@[j as int],
            decreases ns@.len() - j,
        {
            if cs[i + j] != ns[j] {
                same = false;
                break ;
            }
            j += 1;
        }
        if same {
            assert(s@.subrange(i as int, i + needle@.len()) =~= needle@);
            assert(occurs_at(s@, needle@, i as int));
            return true;
        }
        assert(!occurs_at(s@, needle@, i as int)) by {
            assert(s@.subrange(i as int, i + needle@.len())[j as int] != needle@[j as int]);
        }
        i += 1;
    }
    assert forall|k: int| !occurs_at(s@, needle@, k) by {}
    false
}

/// The order of two texts, decided by the first character in which they
/// differ, or by their lengths where the one begins the other: negative where
/// `a` comes first, zero where they are the same, positive where `b` comes
/// first.
pub open spec fn text_order(a: Seq<char>, b: Seq<char>) -> int
    decreases a.len(),
{
    if a.len() == 0 {
        if b.len() == 0 {
            0
        } else {
            -1
        }
    } else if b.len() == 0 {
        1
    } else if a[0] == b[0] {
        text_order(a.drop_first(), b.drop_first())
    } else if (a[0] as u32) < (b[0] as u32) {
        -1
    } else {
        1
    }
}

/// Two texts that begin alike are ordered as what follows in them.
pub proof fn lemma_text_order_skip(a: Seq<char>, b: Seq<char>, k: int)
    requires
        0 <= k <= a.len(),
        k <= b.len(),
        forall|j: int| 0 <= j < k ==> a[j] == b[j],
    ensures
        text_order(a, b) == text_order(a.skip(k), b.skip(k)),
    decreases k,
{
    if k > 0 {
        let ra = a.drop_first();
        let rb = b.drop_first();
        assert(a[0] == b[0]);
        assert forall|j: int| 0 <= j < k - 1 implies ra[j] == rb[j] by {
            assert(ra[j] == a[j + 1]);
            assert(rb[j] == b[j + 1]);
        }
        lemma_text_order_skip(ra, rb, k - 1);
        assert(ra.skip(k - 1) =~= a.skip(k));
        assert(rb.skip(k - 1) =~= b.skip(k));
    } else {
        assert(a.skip(0) =~= a);
        assert(b.skip(0) =~= b);
    }
}

/// The order of two texts: -1, 0 or 1.
pub fn compare_text(a: &str, b: &str) -> (r: i8)
    ensures
        r == text_order(a@, b@),
{
    let x = chars_of(a);
    let y = chars_of(b);
    let mut i: usize = 0;
    while i < x.len() && i < y.len()
        invariant
            i <= x@.len(),
            i <= y@.len(),
            x@ == a@,
            y@ == b@,
            forall|j: int| 0 <= j < i ==> x@[j] == y@[j],
        decreases x@.len() - i,
    {
        let c: u32 = x[i] as u32;
        let d: u32 = y[i] as u32;
        if c != d {
            proof {
                lemma_text_order_skip(a@, b@, i as int);
                assert(a@.skip(i as int)[0] == x@[i as int]);
                assert(b@.skip(i as int)[0] == y@[i as int]);
            }
            if c < d {
                return -1;
            } else {
                return 1;
            }
        }
        proof {
            vstd::utf8::char_u32_cast(x@[i as int], c);
            vstd::utf8::char_u32_cast(y@[i as int], d);
        }
        i += 1;
    }
    proof {
        lemma_text_order_skip(a@, b@, i as int);
    }
    if i < x.len() {
        1
    } else if i < y.len() {
        -1
    } else {
        0
    }
}

} // verus!
