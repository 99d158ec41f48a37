//! Unsigned numerals: reading them in a given radix and writing them in
//! decimal.

use crate::text::chars_of;
use vstd::prelude::*;
use vstd::string::*;

verus! {

/// Why a text is not a numeral that fits.
#[derive(Debug, Clone, Copy, PartialEq, Eq, Structural)]
pub enum NumberError {
    /// The text is empty.
    Empty,
    /// A character is no digit of the radix, or a sign stands alone.
    InvalidDigit,
    /// The value is above the limit.
    Overflow,
}

/// The value of `c` as a digit in `radix`: `0`-`9`, then the letters in either
/// case from ten on.
pub open spec fn digit_of(c: char, radix: nat) -> Option<nat> {
    let u = c as u32;
    let v: int = if 0x30 <= u <= 0x39 {
        u - 0x30
    } else if 0x61 <= u <= 0x7A {
        u - 0x61 + 10
    } else if 0x41 <= u <= 0x5A {
        u - 0x41 + 10
    } else {
        -1
    };
    if 0 <= v < radix {
        Some(v as nat)
    } else {
        None
    }
}

/// Reads `s` as a run of digits, most significant first. The first
/// character, from the left, that is no digit or that takes the value above
/// `max` decides the error.
pub open spec fn scan_digits(s: Seq<char>, radix: nat, max: nat) -> Result<nat, NumberError>
    decreases s.len(),
{
    if s.len() == 0 {
        Ok(0)
    } else {
        match scan_digits(s.drop_last(), radix, max) {
            Err(e) => Err(e),
            Ok(v) => match digit_of(s.last(), radix) {
                None => Err(NumberError::InvalidDigit),
                Some(d) => if v * radix + d > max {
                    Err(NumberError::Overflow)
                } else {
                    Ok(v * radix + d)
                },
            },
        }
    }
}

/// Reads `s` as an unsigned numeral: an optional `+`, then one digit or more,
/// and nothing else.
pub open spec fn numeral(s: Seq<char>, radix: nat, max: nat) -> Result<nat, NumberError> {
    if s.len() == 0 {
        Err(NumberError::Empty)
    } else {
        let digits = if s[0] == '+' {
            s.drop_first()
        } else {
            s
        };
        if digits.len() == 0 {
            Err(NumberError::InvalidDigit)
        } else {
            scan_digits(digits, radix, max)
        }
    }
}

/// The character that writes the digit `d`.
pub open spec fn digit_char(d: nat) -> char {
    ((d + 0x30) as u8) as char
}

/// `n` in decimal, without sign or leading zeros.
pub open spec fn decimal(n: nat) -> Seq<char>
    decreases n,
{
    if n < 10 {
        seq![digit_char(n)]
    } else {
        decimal(n / 10).push(digit_char(n % 10))
    }
}

/// The value of one digit, if `c` is a digit of `radix`.
pub fn digit_value(c: char, radix: u32) -> (v: Option<u32>)
    requires
        2 <= radix <= 36,
    ensures
        match digit_of(c, radix as nat) {
            Some(d) => v == Some(d as u32) && d < radix,
            None => v is None,
        },
{
    let u: u32 = c as u32;
    let d: u32 = if 0x30 <= u && u <= 0x39 {
        u - 0x30
    } else if 0x61 <= u && u <= 0x7A {
        u - 0x61 + 10
    } else if 0x41 <= u && u <= 0x5A {
        u - 0x41 + 10
    } else {
        return None;
    };
    if d < radix {
        Some(d)
    } else {
        None
    }
}

proof fn lemma_scan_step(s: Seq<char>, i: int, radix: nat, max: nat)
    requires
        0 <= i < s.len(),
    ensures
        scan_digits(s.take(i + 1), radix, max) == match scan_digits(s.take(i), radix, max) {
            Err(e) => Err(e),
            Ok(v) => match digit_of(s[i], radix) {
                None => Err(NumberError::InvalidDigit),
                Some(d) => if v * radix + d > max {
                    Err(NumberError::Overflow)
                } else {
                    Ok(v * radix + d)
                },
            },
        },
{
    assert(s.take(i + 1).drop_last() =~= s.take(i));
    assert(s.take(i + 1).last() == s[i]);
}

/// Reads `s` as an unsigned numeral in `radix` that is at most `max`.
pub fn parse_number(s: &str, radix: u32, max: u64) -> (r: Result<u64, NumberError>)
    requires
        2 <= radix <= 36,
    ensures
        match numeral(s@, radix as nat, max as nat) {
            Ok(v) => r == Ok::<u64, NumberError>(v as u64) && v <= max,
            Err(e) => r == Err::<u64, NumberError>(e),
        },
{
    let cs = chars_of(s);
    let n = cs.len();
    if n == 0 {
        return Err(NumberError::Empty);
    }
    let start: usize = if cs[0] == '+' {
        1
    } else {
        0
    };
    if start == n {
        assert(s@.drop_first().len() == 0);
        return Err(NumberError::InvalidDigit);
    }
    let ghost digits = s@.skip(start as int);
    assert(digits =~= if s@[0] == '+' {
        s@.drop_first()
    } else {
        s@
    });
    let mut acc: u64 = 0;
    let mut i: usize = start;
    assert(digits.take(0) =~= Seq::<char>::empty());
    assert(numeral(s@, radix as nat, max as nat) == scan_digits(digits, radix as nat, max as nat));
    while i < n
        invariant
            start <= i <= n,
            n == cs@.len(),
            cs@ == s@,
            digits == s@.skip(start as int),
            numeral(s@, radix as nat, max as nat) == scan_digits(digits, radix as nat, max as nat),
            2 <= radix <= 36,
            acc <= max,
            scan_digits(digits.take(i - start), radix as nat, max as nat) == Ok::<nat, NumberError>(
                acc as nat,
            ),
        decreases n - i,
    {
        proof {
            lemma_scan_step(digits, i - start, radix as nat, max as nat);
            assert(digits[i - start] == s@[i as int]);
        }
        let ghost next = digits.take(i - start + 1);
        match digit_value(cs[i], radix) {
            None => {
                proof {
                    lemma_scan_error_sticks(digits, i - start + 1, radix as nat, max as nat);
                }
                return Err(NumberError::InvalidDigit);
            },
            Some(d) => {
                assert(acc * radix <= u64::MAX * 36) by (nonlinear_arith)
                    requires
                        acc <= u64::MAX,
                        radix <= 36,
                ;
                let wide: u128 = (acc as u128) * (radix as u128) + (d as u128);
                if wide > max as u128 {
                    proof {
                        lemma_scan_error_sticks(digits, i - start + 1, radix as nat, max as nat);
                    }
                    return Err(NumberError::Overflow);
                }
                acc = wide as u64;
            },
        }
        i += 1;
    }
    assert(digits.take(n - start) =~= digits);
    Ok(acc)
}

/// Once a prefix of `s` fails to scan, `s` fails in the same way.
pub proof fn lemma_scan_error_sticks(s: Seq<char>, k: int, radix: nat, max: nat)
    requires
        0 <= k <= s.len(),
        scan_digits(s.take(k), radix, max) is Err,
    ensures
        scan_digits(s, radix, max) == scan_digits(s.take(k), radix, max),
    decreases s.len() - k,
{
    if k < s.len() {
        lemma_scan_step(s, k, radix, max);
        lemma_scan_error_sticks(s, k + 1, radix, max);
    } else {
        assert(s.take(k) =~= s);
    }
}

/// The text of one decimal digit.
fn digit_text(d: u64) -> (t: &'static str)
    requires
        d < 10,
    ensures
        t@ == seq![digit_char(d as nat)],
{
    proof {
        reveal_strlit("0");
        reveal_strlit("1");
        reveal_strlit("2");
        reveal_strlit("3");
        reveal_strlit("4");
        reveal_strlit("5");
        reveal_strlit("6");
        reveal_strlit("7");
        reveal_strlit("8");
        reveal_strlit("9");
    }
    let t = match d {
        0 => "0",
        1 => "1",
        2 => "2",
        3 => "3",
        4 => "4",
        5 => "5",
        6 => "6",
        7 => "7",
        8 => "8",
        _ => "9",
    };
    assert(t@ =~= seq![digit_char(d as nat)]);
    t
}

/// `n` in decimal.
pub fn to_decimal(n: u64) -> (s: String)
    ensures
        s@ == decimal(n as nat),
    decreases n,
{
    if n < 10 {
        digit_text(n).to_owned()
    } else {
        let mut s = to_decimal(n / 10);
        s.append(digit_text(n % 10));
        assert(s@ =~= decimal(n as nat));
        s
    }
}

} // verus!
