//! Small text utilities: decimal rendering of numbers and newline trimming.

use vstd::prelude::*;

verus! {

/// The character of a decimal digit `d` (`0 <= d < 10`).
pub open spec fn digit_char(d: int) -> char {
    (0x30 + d) as char
}

/// The decimal representation of `n`, most significant digit first, without
/// leading zeros (and `"0"` for zero).
pub open spec fn decimal(n: nat) -> Seq<char>
    decreases n,
{
    if n < 10 {
        seq![digit_char(n as int)]
    } else {
        decimal(n / 10).push(digit_char((n % 10) as int))
    }
}

/// Appends `c` to `s` (`String::push`).
#[verifier::external_body]
pub(crate) fn push_char(s: &mut String, c: char)
    ensures
        final(s)@ == old(s)@.push(c),
{
    s.push(c);
}

/// Appends the decimal representation of `n` to `s`.
pub fn push_decimal(s: &mut String, n: usize)
    ensures
        final(s)@ == old(s)@ + decimal(n as nat),
    decreases n,
{
    if n >= 10 {
        push_decimal(s, n / 10);
    }
    let d: u8 = (n % 10) as u8;
    let c: char = (0x30u8 + d) as char;
    push_char(s, c);
    proof {
        assert(c == digit_char((n % 10) as int));
    }
}

/// A `String` holding `prefix` followed by the decimal representation of `n`.
pub fn text_with_number(prefix: &str, n: usize) -> (r: String)
    ensures
        r@ == prefix@ + decimal(n as nat),
{
    let mut s = String::from_str(prefix);
    push_decimal(&mut s, n);
    s
}

/// Appends the characters of `s` to `chars`, in order.
pub(crate) fn push_chars(chars: &mut Vec<char>, s: &str)
    ensures
        final(chars)@ == old(chars)@ + s@,
{
    let ghost start = chars@;
    for c in it: s.chars()
        invariant
            it.seq() == s@,
            chars@ == start + s@.take(it.index() as int),
    {
        chars.push(c);
        proof {
            assert(s@.take(it.index() + 1) == s@.take(it.index() as int).push(c));
        }
    }
    proof {
        assert(s@.take(s@.len() as int) == s@);
    }
}

/// `s` with one trailing `"\n"` or `"\r\n"` removed, if it ends with one.
pub open spec fn trimmed_line(s: Seq<char>) -> Seq<char> {
    if s.len() > 0 && s.last() == '\n' {
        let t = s.drop_last();
        if t.len() > 0 && t.last() == '\r' {
            t.drop_last()
        } else {
            t
        }
    } else {
        s
    }
}

/// Strips a single trailing `\n` (or `\r\n`) from `s` if present.
///
/// Shells append a newline to `echo` output and heredocs; removing exactly
/// one keeps such input from being refused for a character outside the
/// alphabet.
pub fn trim_trailing_newline(s: &str) -> (r: &str)
    ensures
        r@ == trimmed_line(s@),
{
    let len = s.unicode_len();
    if len > 0 && s.get_char(len - 1) == '\n' {
        if len > 1 && s.get_char(len - 2) == '\r' {
            s.substring_char(0, len - 2)
        } else {
            s.substring_char(0, len - 1)
        }
    } else {
        s
    }
}

} // verus!
