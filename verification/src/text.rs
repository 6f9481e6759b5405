//! Character-level helpers shared by the protocol codec and the commands:
//! building strings one character at a time, decimal numerals, and
//! comparisons of command words.
use vstd::prelude::*;

verus! {

/// `String::push` (std): appends one character at the end of the string.
/// The contract claims exactly that: the new contents are the old ones
/// followed by `ch`, as std's documentation says.
pub assume_specification[ String::push ](s: &mut String, ch: char)
    ensures
        final(s)@ == old(s)@.push(ch),
;

/// The character that a received byte stands for: the byte read as a
/// Latin-1 code point (`b as char`).
pub open spec fn byte_char(b: u8) -> char {
    b as char
}

/// The character that a received byte stands for.
pub fn char_of_byte(b: u8) -> (c: char)
    ensures
        c == byte_char(b),
{
    b as char
}

/// The character of the decimal digit `d` (for `d < 10`).
pub open spec fn digit_char(d: nat) -> char {
    (48 + d) as char
}

/// The decimal numeral of `n`, most significant digit first, without
/// leading zeros (`"0"` for zero).
pub open spec fn decimal(n: nat) -> Seq<char>
    decreases n,
{
    if n < 10 {
        seq![digit_char(n)]
    } else {
        decimal(n / 10).push(digit_char(n % 10))
    }
}

/// Appends the decimal numeral of `n` to `s`.
pub fn push_decimal(s: &mut String, n: usize)
    ensures
        final(s)@ == old(s)@ + decimal(n as nat),
    decreases n,
{
    if n >= 10 {
        push_decimal(s, n / 10);
    }
    let d: u8 = (n % 10) as u8;
    let c: char = (48u8 + d) as char;
    s.push(c);
    proof {
        assert(c == digit_char((n % 10) as nat));
    }
}

/// A fresh string holding the text of a literal.
pub fn owned(lit: &str) -> (s: String)
    ensures
        s@ == lit@,
{
    String::from_str(lit)
}

/// Whether a string holds exactly the text of a literal.
pub fn same_text(s: &String, lit: &str) -> (b: bool)
    ensures
        b == (s@ == lit@),
{
    let other = String::from_str(lit);
    *s == other
}

/// A character mapped to lower case where it is an ASCII capital letter,
/// and kept otherwise.
pub open spec fn lower_char(c: char) -> char {
    if 'A' <= c && c <= 'Z' {
        ((c as u32) + 32) as char
    } else {
        c
    }
}

/// A word with its ASCII capital letters mapped to lower case.
pub open spec fn lower_word(w: Seq<char>) -> Seq<char> {
    w.map_values(|c: char| lower_char(c))
}

/// Whether `w`, with its ASCII capitals mapped to lower case, is the
/// lower-case literal `lit`.
pub fn matches_lower(w: &String, lit: &str) -> (b: bool)
    ensures
        b == (lower_word(w@) == lit@),
{
    let target = String::from_str(lit);
    let mut lowered = String::new();
    let text = w.as_str();
    let n = text.unicode_len();
    let mut i: usize = 0;
    while i < n
        invariant
            text@ == w@,
            n == w@.len(),
            0 <= i <= n,
            lowered@ == lower_word(w@.subrange(0, i as int)),
        decreases n - i,
    {
        let c = text.get_char(i);
        let l: char = if 'A' <= c && c <= 'Z' {
            ((c as u8) + 32) as char
        } else {
            c
        };
        lowered.push(l);
        assert(lower_word(w@.subrange(0, i + 1)) =~= lower_word(w@.subrange(0, i as int)).push(l));
        i = i + 1;
    }
    assert(w@.subrange(0, n as int) =~= w@);
    lowered == target
}

} // verus!
