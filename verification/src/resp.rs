//! The wire protocol: reading a received buffer into tagged elements, and
//! writing tagged elements back as protocol text.
//!
//! An element is a pair of a type tag (`"SimpleString"`, `"SimpleError"`,
//! `"SimpleInteger"`, `"BulkString"`, `"Null"`, `"Bool"`) and its words.
//! A frame is a pair of the tag `"Array"` and the elements it holds.
use vstd::prelude::*;
use vstd::utf8::encode_utf8;
use crate::text::{byte_char, char_of_byte, decimal, owned, push_decimal, same_text};

verus! {

/// An element: its type tag and its words.
pub type Pair = (String, Vec<String>);

/// A frame: the tag `"Array"` and its elements.
pub type Frame = (String, Vec<Pair>);

/// The mathematical value of an element.
pub type SPair = (Seq<char>, Seq<Seq<char>>);

/// The mathematical value of a frame.
pub type SFrame = (Seq<char>, Seq<SPair>);

/// The carriage return byte.
pub open spec fn cr() -> u8 {
    13
}

/// The line feed byte.
pub open spec fn lf() -> u8 {
    10
}

/// The word read from position `i` on, after `word` has been read: bytes are
/// taken as characters until a carriage return (which must be followed by a
/// line feed) or the end of the buffer; a zero byte ends a word that has
/// begun and is skipped before one has. `None` where a carriage return is not
/// followed by a line feed, or where a line feed comes without a carriage
/// return before it.
pub open spec fn scan_word(buf: Seq<u8>, i: int, word: Seq<char>) -> Option<Seq<char>>
    decreases buf.len() - i,
{
    if i >= buf.len() {
        Some(word)
    } else if buf[i] == cr() {
        if i + 1 < buf.len() && buf[i + 1] == lf() {
            Some(word)
        } else {
            None
        }
    } else if buf[i] == lf() {
        None
    } else if buf[i] == 0 {
        if word.len() > 0 {
            Some(word)
        } else {
            scan_word(buf, i + 1, word)
        }
    } else {
        scan_word(buf, i + 1, word.push(byte_char(buf[i])))
    }
}

/// As `scan_word`, for an integer: a sign (`+` or `-`) is taken only at the
/// start position `start`; a sign anywhere else gives `None`, as does a line
/// feed without a carriage return before it.
pub open spec fn scan_integer(buf: Seq<u8>, start: int, i: int, word: Seq<char>) -> Option<Seq<char>>
    decreases buf.len() - i,
{
    if i >= buf.len() {
        Some(word)
    } else if buf[i] == 43u8 || buf[i] == 45u8 {
        if i == start {
            scan_integer(buf, start, i + 1, word.push(byte_char(buf[i])))
        } else {
            None
        }
    } else if buf[i] == cr() {
        if i + 1 < buf.len() && buf[i + 1] == lf() {
            Some(word)
        } else {
            None
        }
    } else if buf[i] == lf() {
        None
    } else if buf[i] == 0 {
        if word.len() > 0 {
            Some(word)
        } else {
            scan_integer(buf, start, i + 1, word)
        }
    } else {
        scan_integer(buf, start, i + 1, word.push(byte_char(buf[i])))
    }
}

/// The position just past the first line ending at or after `i`. `None` where
/// a zero byte or the end of the buffer comes first, where a carriage return
/// is not followed by a line feed, or where a line feed comes without a
/// carriage return before it.
pub open spec fn line_end(buf: Seq<u8>, i: int) -> Option<int>
    decreases buf.len() - i,
{
    if i >= buf.len() {
        None
    } else if buf[i] == cr() {
        if i + 1 < buf.len() && buf[i + 1] == lf() {
            Some(i + 2)
        } else {
            None
        }
    } else if buf[i] == 0 || buf[i] == lf() {
        None
    } else {
        line_end(buf, i + 1)
    }
}

/// A line ending at `i` ends no sooner than two bytes on, and within the
/// buffer.
pub proof fn lemma_line_end_bounds(buf: Seq<u8>, i: int)
    ensures
        line_end(buf, i) matches Some(j) ==> i + 2 <= j <= buf.len(),
    decreases buf.len() - i,
{
    if i < buf.len() && buf[i] != cr() && buf[i] != 0 {
        lemma_line_end_bounds(buf, i + 1);
    }
}

/// The position just past the line ending at or after `i`, or the end of the
/// buffer where none comes first.
pub open spec fn after_line(buf: Seq<u8>, i: int) -> int {
    match line_end(buf, i) {
        Some(j) => j,
        None => buf.len() as int,
    }
}

/// The element with tag `tag` and the single word `w`, where there is one.
pub open spec fn tagged(tag: Seq<char>, w: Option<Seq<char>>) -> Option<SPair> {
    match w {
        Some(w) => Some((tag, seq![w])),
        None => None,
    }
}

/// The value of a simple string or error whose line starts at `k`: the rest
/// of the line (see `scan_word`), or nothing where a zero byte stands at `k`.
pub open spec fn line_word(buf: Seq<u8>, k: int) -> Option<Seq<char>> {
    if 0 <= k < buf.len() && buf[k] == 0 {
        Some(seq![])
    } else {
        scan_word(buf, k, seq![])
    }
}

/// The value of an integer whose line starts at `k`: the rest of the line,
/// a sign allowed first (see `scan_integer`), or nothing where a zero byte
/// stands at `k`.
pub open spec fn line_integer(buf: Seq<u8>, k: int) -> Option<Seq<char>> {
    if 0 <= k < buf.len() && buf[k] == 0 {
        Some(seq![])
    } else {
        scan_integer(buf, k, k, seq![])
    }
}

/// The bytes that begin an element: `+` (simple string), `-` (simple error),
/// `:` (integer), `$` (bulk string), `_` (null) and `#` (boolean).
pub open spec fn is_type_byte(b: u8) -> bool {
    b == 43u8 || b == 45u8 || b == 58u8 || b == 36u8 || b == 95u8 || b == 35u8
}

/// The element read from the bytes that follow the type byte at position `i`:
/// a simple string, error or integer is the rest of its line; a bulk string is
/// the line after its length line; a null is `_` and a line ending; a boolean
/// is the one character after `#`.
pub open spec fn element_value(buf: Seq<u8>, i: int) -> Option<SPair> {
    let b = buf[i];
    if b == 43u8 {
        tagged("SimpleString"@, line_word(buf, i + 1))
    } else if b == 45u8 {
        tagged("SimpleError"@, line_word(buf, i + 1))
    } else if b == 58u8 {
        tagged("SimpleInteger"@, line_integer(buf, i + 1))
    } else if b == 36u8 {
        match line_end(buf, i + 1) {
            Some(j) => tagged("BulkString"@, scan_word(buf, j, seq![])),
            None => None,
        }
    } else if b == 95u8 {
        if i + 2 < buf.len() && buf[i + 1] == cr() && buf[i + 2] == lf() {
            Some(null_pair())
        } else {
            None
        }
    } else {
        if i + 1 < buf.len() {
            Some(("Bool"@, seq![seq![byte_char(buf[i + 1])]]))
        } else {
            None
        }
    }
}

/// Where reading goes on after the element whose type byte stands at `i`:
/// past the line ending of its last line (for a bulk string, the line of its
/// data), or at the end of the buffer where that line has none; after a
/// boolean, past its character, unless that is a zero byte, a carriage return
/// or a line feed, which is then read as any byte between elements.
pub open spec fn element_end(buf: Seq<u8>, i: int) -> int {
    let b = buf[i];
    if b == 36u8 {
        match line_end(buf, i + 1) {
            Some(j) => after_line(buf, j),
            None => buf.len() as int,
        }
    } else if b == 95u8 {
        i + 3
    } else if b == 35u8 {
        if buf[i + 1] == 0 || buf[i + 1] == cr() || buf[i + 1] == lf() {
            i + 1
        } else {
            i + 2
        }
    } else {
        after_line(buf, i + 1)
    }
}

/// Reading always moves past an element that could be read.
pub proof fn lemma_element_end_after(buf: Seq<u8>, i: int)
    requires
        0 <= i < buf.len(),
        is_type_byte(buf[i]),
        element_value(buf, i) is Some,
    ensures
        i < element_end(buf, i) <= buf.len(),
{
    lemma_line_end_bounds(buf, i + 1);
    if let Some(j) = line_end(buf, i + 1) {
        lemma_line_end_bounds(buf, j);
    }
}

/// The null element.
pub open spec fn null_pair() -> SPair {
    ("Null"@, seq![""@])
}

/// Whether all bytes of `ds` are decimal digits.
pub open spec fn all_digits(ds: Seq<u8>) -> bool {
    forall|k: int| 0 <= k < ds.len() ==> 48u8 <= #[trigger] ds[k] <= 57u8
}

/// The number that the decimal digits `ds` stand for.
pub open spec fn digits_value(ds: Seq<u8>) -> nat
    decreases ds.len(),
{
    if ds.len() == 0 {
        0
    } else {
        digits_value(ds.drop_last()) * 10 + (ds.last() - 48) as nat
    }
}

/// The element count announced by a `*` whose digits start at position `k`,
/// and the position past its line: the digits up to the line ending, at least
/// one, standing for a number that fits in a `usize`.
pub open spec fn array_count(buf: Seq<u8>, k: int) -> Option<(nat, int)> {
    match line_end(buf, k) {
        Some(j) => {
            let ds = buf.subrange(k, j - 2);
            if ds.len() > 0 && all_digits(ds) && digits_value(ds) <= usize::MAX {
                Some((digits_value(ds), j))
            } else {
                None
            }
        },
        None => None,
    }
}

/// The frames read so far, with the open frame `cur` closed if it holds
/// anything.
pub open spec fn close_frame(frames: Seq<SFrame>, cur: Seq<SPair>) -> Seq<SFrame> {
    if cur.len() > 0 {
        frames.push(("Array"@, cur))
    } else {
        frames
    }
}

/// Adds an element: inside an array (`left` elements still announced) it
/// joins the open frame, which closes with the last announced element;
/// outside any array it makes a frame of its own.
pub open spec fn add_element(frames: Seq<SFrame>, cur: Seq<SPair>, left: int, p: SPair) -> (
    Seq<SFrame>,
    Seq<SPair>,
    int,
) {
    if left > 1 {
        (frames, cur.push(p), left - 1)
    } else if left == 1 {
        (frames.push(("Array"@, cur.push(p))), seq![], 0)
    } else {
        (frames.push(("Array"@, seq![p])), cur, 0)
    }
}

/// The frames read from position `i` on, with `frames` read so far, the open
/// frame `cur`, and `left` the number of elements of the open array still to
/// come (0 outside any array).
///
/// An array (`*` and its count) groups the elements that follow; an element
/// outside any array makes a frame of its own. After an element, reading goes
/// on past its last line, so the bytes of its data are never taken for type
/// bytes. Other bytes between elements are passed over; a zero byte ends the
/// reading, and an array cut short by it keeps the elements read. `None` where
/// reading stops with an error: a carriage return not followed by a line feed
/// or a line feed not preceded by a carriage return, a `*` inside an array or
/// with a malformed count, or an element that cannot be read.
pub open spec fn scan_frames(buf: Seq<u8>, i: int, frames: Seq<SFrame>, cur: Seq<SPair>, left: int) -> Option<
    Seq<SFrame>,
>
    decreases buf.len() - i,
{
    if i < 0 {
        None
    } else if i >= buf.len() || buf[i] == 0 {
        Some(close_frame(frames, cur))
    } else if is_type_byte(buf[i]) {
        match element_value(buf, i) {
            Some(p) => {
                let (f2, c2, l2) = add_element(frames, cur, left, p);
                proof {
                    lemma_element_end_after(buf, i);
                }
                scan_frames(buf, element_end(buf, i), f2, c2, l2)
            },
            None => None,
        }
    } else if buf[i] == 42u8 {
        if left > 0 {
            None
        } else {
            match array_count(buf, i + 1) {
                Some((n, j)) => {
                    proof {
                        lemma_line_end_bounds(buf, i + 1);
                    }
                    scan_frames(buf, j, frames, cur, n as int)
                },
                None => None,
            }
        }
    } else if buf[i] == cr() {
        if i + 1 < buf.len() && buf[i + 1] == lf() {
            scan_frames(buf, i + 1, frames, cur, left)
        } else {
            None
        }
    } else if buf[i] == lf() {
        if i >= 1 && buf[i - 1] == cr() {
            scan_frames(buf, i + 1, frames, cur, left)
        } else {
            None
        }
    } else {
        scan_frames(buf, i + 1, frames, cur, left)
    }
}

/// The frames that `redis_to_array` reads from a buffer; `None` where it stops
/// with an error.
pub open spec fn redis_frames(buf: Seq<u8>) -> Option<Seq<SFrame>> {
    scan_frames(buf, 0, seq![], seq![], 0)
}

/// Reads a word (see `scan_word`) from position `debut` on; `None` where a
/// carriage return is not followed by a line feed or a line feed comes alone.
pub fn buffer_to_string(buf: &Vec<u8>, debut: usize) -> (word: Option<String>)
    ensures
        word.deep_view() == scan_word(buf@, debut as int, seq![]),
{
    let length = buf.len();
    let mut word = String::new();
    let mut i = debut;
    while i < length
        invariant
            length == buf@.len(),
            scan_word(buf@, i as int, word@) == scan_word(buf@, debut as int, seq![]),
        decreases length - i,
    {
        let b = buf[i];
        if b == 13 {
            if i + 1 < length && buf[i + 1] == 10 {
                return Some(word);
            } else {
                return None;
            }
        } else if b == 10 {
            return None;
        } else if b == 0 {
            if !word.as_str().is_empty() {
                return Some(word);
            }
        } else {
            word.push(char_of_byte(b));
        }
        i = i + 1;
    }
    Some(word)
}

/// Reads an integer word (see `scan_integer`) from position `debut` on;
/// `None` where a sign stands past `debut` or a carriage return is not
/// followed by a line feed.
pub fn buffer_to_string_integer(buf: &Vec<u8>, debut: usize) -> (word: Option<String>)
    ensures
        word.deep_view() == scan_integer(buf@, debut as int, debut as int, seq![]),
{
    let length = buf.len();
    let mut word = String::new();
    let mut i = debut;
    while i < length
        invariant
            length == buf@.len(),
            scan_integer(buf@, debut as int, i as int, word@) == scan_integer(
                buf@,
                debut as int,
                debut as int,
                seq![],
            ),
        decreases length - i,
    {
        let b = buf[i];
        if b == 43 || b == 45 {
            if i == debut {
                word.push(char_of_byte(b));
            } else {
                return None;
            }
        } else if b == 13 {
            if i + 1 < length && buf[i + 1] == 10 {
                return Some(word);
            } else {
                return None;
            }
        } else if b == 10 {
            return None;
        } else if b == 0 {
            if !word.as_str().is_empty() {
                return Some(word);
            }
        } else {
            word.push(char_of_byte(b));
        }
        i = i + 1;
    }
    Some(word)
}

/// The position just past the first line ending at or after `debut`; `None`
/// where a zero byte or the end of the buffer comes first or a carriage return
/// is not followed by a line feed.
fn size_to_crlf(buf: &Vec<u8>, debut: usize) -> (end: Option<usize>)
    ensures
        match end {
            Some(e) => line_end(buf@, debut as int) == Some(e as int),
            None => line_end(buf@, debut as int) is None,
        },
{
    let length = buf.len();
    let mut i = debut;
    while i < length
        invariant
            length == buf@.len(),
            line_end(buf@, i as int) == line_end(buf@, debut as int),
        decreases length - i,
    {
        let b = buf[i];
        if b == 13 {
            if i + 1 < length && buf[i + 1] == 10 {
                return Some(i + 2);
            } else {
                return None;
            }
        } else if b == 0 || b == 10 {
            return None;
        }
        i = i + 1;
    }
    None
}

/// An element with the given tag and the single word `w`, if there is one.
fn tagged_pair(tag: &str, w: Option<String>) -> (p: Option<Pair>)
    ensures
        p.deep_view() == tagged(tag@, w.deep_view()),
{
    match w {
        Some(w) => {
            let words = vec![w];
            let p = (owned(tag), words);
            assert(p.1.deep_view() =~= seq![w@]);
            Some(p)
        },
        None => None,
    }
}

/// The simple string whose type byte stands at position `i`: the rest of its
/// line.
fn simple_string(buf: &Vec<u8>, i: usize) -> (p: Option<Pair>)
    requires
        i < buf.len(),
    ensures
        p.deep_view() == tagged("SimpleString"@, line_word(buf@, i + 1)),
{
    if i + 1 < buf.len() && buf[i + 1] == 0 {
        tagged_pair("SimpleString", Some(String::new()))
    } else {
        tagged_pair("SimpleString", buffer_to_string(buf, i + 1))
    }
}

/// The simple error whose type byte stands at position `i`: the rest of its
/// line.
fn simple_error(buf: &Vec<u8>, i: usize) -> (p: Option<Pair>)
    requires
        i < buf.len(),
    ensures
        p.deep_view() == tagged("SimpleError"@, line_word(buf@, i + 1)),
{
    if i + 1 < buf.len() && buf[i + 1] == 0 {
        tagged_pair("SimpleError", Some(String::new()))
    } else {
        tagged_pair("SimpleError", buffer_to_string(buf, i + 1))
    }
}

/// The simple integer whose type byte stands at position `i`: the rest of its
/// line, a sign allowed only first.
fn simple_integer(buf: &Vec<u8>, i: usize) -> (p: Option<Pair>)
    requires
        i < buf.len(),
    ensures
        p.deep_view() == tagged("SimpleInteger"@, line_integer(buf@, i + 1)),
{
    if i + 1 < buf.len() && buf[i + 1] == 0 {
        tagged_pair("SimpleInteger", Some(String::new()))
    } else {
        tagged_pair("SimpleInteger", buffer_to_string_integer(buf, i + 1))
    }
}

/// The bulk string whose type byte stands at position `i`: the line after its
/// length line.
fn bulk_string(buf: &Vec<u8>, i: usize) -> (p: Option<Pair>)
    requires
        i < buf.len(),
    ensures
        p.deep_view() == match line_end(buf@, i + 1) {
            Some(j) => tagged("BulkString"@, scan_word(buf@, j, seq![])),
            None => None,
        },
{
    match size_to_crlf(buf, i + 1) {
        Some(new_i) => tagged_pair("BulkString", buffer_to_string(buf, new_i)),
        None => None,
    }
}

/// A frame tagged `"Array"` holding `elements`.
fn array_frame(elements: Vec<Pair>) -> (f: Frame)
    ensures
        f.deep_view() == ("Array"@, elements.deep_view()),
{
    (owned("Array"), elements)
}

/// The null element.
pub(crate) fn null_element() -> (p: Pair)
    ensures
        p.deep_view() == null_pair(),
{
    let p = (owned("Null"), vec![owned("")]);
    assert(p.1.deep_view() =~= seq![""@]);
    p
}

/// The boolean element whose value is the byte `b` that follows `#`: its
/// word is the character of that byte.
fn bool_element(b: u8) -> (p: Pair)
    ensures
        p.deep_view() == ("Bool"@, seq![seq![byte_char(b)]]),
{
    let mut word = String::new();
    word.push(char_of_byte(b));
    let p = (owned("Bool"), vec![word]);
    assert(p.1.deep_view() =~= seq![seq![byte_char(b)]]);
    p
}

/// The position just past the line ending at or after `k`, or the end of
/// the buffer where none comes first.
fn next_line(buf: &Vec<u8>, k: usize) -> (j: usize)
    ensures
        j == after_line(buf@, k as int),
{
    match size_to_crlf(buf, k) {
        Some(j) => j,
        None => buf.len(),
    }
}

/// The element whose type byte stands at position `i`, and the position
/// where reading goes on after it.
fn element(buf: &Vec<u8>, i: usize) -> (res: Option<(Pair, usize)>)
    requires
        i < buf@.len(),
        is_type_byte(buf@[i as int]),
    ensures
        match res {
            Some((p, j)) => element_value(buf@, i as int) == Some(p.deep_view()) && j
                == element_end(buf@, i as int),
            None => element_value(buf@, i as int) is None,
        },
{
    let length = buf.len();
    let b = buf[i];
    if b == 36 {
        match size_to_crlf(buf, i + 1) {
            Some(j) => match tagged_pair("BulkString", buffer_to_string(buf, j)) {
                Some(p) => Some((p, next_line(buf, j))),
                None => None,
            },
            None => None,
        }
    } else if b == 95 {
        if i + 1 < length && buf[i + 1] == 13 && i + 2 < length && buf[i + 2] == 10 {
            Some((null_element(), i + 3))
        } else {
            None
        }
    } else if b == 35 {
        if i + 1 < length {
            let c = buf[i + 1];
            let next = if c == 0 || c == 13 || c == 10 {
                i + 1
            } else {
                i + 2
            };
            Some((bool_element(c), next))
        } else {
            None
        }
    } else {
        let p = if b == 43 {
            simple_string(buf, i)
        } else if b == 45 {
            simple_error(buf, i)
        } else {
            simple_integer(buf, i)
        };
        match p {
            Some(p) => Some((p, next_line(buf, i + 1))),
            None => None,
        }
    }
}

/// A number is at least the number of any of its leading digits.
proof fn lemma_digits_prefix(ds: Seq<u8>, q: int)
    requires
        0 <= q <= ds.len(),
    ensures
        digits_value(ds.take(q)) <= digits_value(ds),
    decreases ds.len(),
{
    if q < ds.len() {
        assert(ds.drop_last().take(q) =~= ds.take(q));
        lemma_digits_prefix(ds.drop_last(), q);
    } else {
        assert(ds.take(q) =~= ds);
    }
}

/// The element count announced by a `*` whose digits start at position `k`,
/// and the position past its line.
fn array_count_at(buf: &Vec<u8>, k: usize) -> (res: Option<(usize, usize)>)
    ensures
        match res {
            Some((n, j)) => array_count(buf@, k as int) == Some((n as nat, j as int)),
            None => array_count(buf@, k as int) is None,
        },
{
    let j = match size_to_crlf(buf, k) {
        Some(j) => j,
        None => {
            return None;
        },
    };
    proof {
        lemma_line_end_bounds(buf@, k as int);
    }
    let end = j - 2;
    if end <= k {
        return None;
    }
    let ghost ds = buf@.subrange(k as int, end as int);
    let mut acc: usize = 0;
    let mut p: usize = k;
    assert(ds.take(0) =~= Seq::<u8>::empty());
    while p < end
        invariant
            k <= p <= end,
            k < end,
            end == j - 2,
            line_end(buf@, k as int) == Some(j as int),
            end <= buf@.len(),
            ds == buf@.subrange(k as int, end as int),
            all_digits(ds.take(p - k)),
            acc == digits_value(ds.take(p - k)),
        decreases end - p,
    {
        let d = buf[p];
        assert(ds[p - k] == d);
        if d < 48 || d > 57 {
            assert(!(48u8 <= ds[p - k] <= 57u8));
            return None;
        }
        let dd: usize = (d - 48) as usize;
        assert(ds.take(p - k + 1).drop_last() =~= ds.take(p - k));
        assert(ds.take(p - k + 1).last() == d);
        if acc > (usize::MAX - dd) / 10 {
            proof {
                assert(acc * 10 + dd > usize::MAX) by (nonlinear_arith)
                    requires
                        acc > (usize::MAX - dd) / 10,
                        dd <= 9,
                ;
                lemma_digits_prefix(ds, p - k + 1);
            }
            return None;
        }
        proof {
            assert(acc * 10 + dd <= usize::MAX) by (nonlinear_arith)
                requires
                    acc <= (usize::MAX - dd) / 10,
                    dd <= 9,
            ;
        }
        acc = acc * 10 + dd;
        assert forall|q: int| 0 <= q < ds.take(p - k + 1).len() implies 48u8 <= #[trigger] ds.take(
            p - k + 1,
        )[q] <= 57u8 by {
            if q < p - k {
                assert(ds.take(p - k + 1)[q] == ds.take(p - k)[q]);
            }
        }
        p = p + 1;
    }
    assert(ds.take(end - k) =~= ds);
    Some((acc, j))
}

/// Reads a received buffer into frames as `redis_to_array` does, or gives
/// `None` where `redis_to_array` stops with an error (see `scan_frames`).
pub fn checked_redis_to_array(buf: &Vec<u8>) -> (res: Option<Vec<Frame>>)
    ensures
        res.deep_view() == redis_frames(buf@),
{
    let mut grand_vec: Vec<Frame> = Vec::new();
    let mut vec: Vec<Pair> = Vec::new();
    let length = buf.len();
    let mut compteur: usize = 0;
    let mut i: usize = 0;
    assert(grand_vec.deep_view() =~= Seq::<SFrame>::empty());
    assert(vec.deep_view() =~= Seq::<SPair>::empty());
    while i < length
        invariant
            length == buf@.len(),
            i <= length,
            scan_frames(buf@, i as int, grand_vec.deep_view(), vec.deep_view(), compteur as int)
                == redis_frames(buf@),
        ensures
            i >= length || buf@[i as int] == 0,
        decreases length - i,
    {
        let ghost frames0 = grand_vec.deep_view();
        let ghost cur0 = vec.deep_view();
        let b = buf[i];
        if b == 43 || b == 45 || b == 58 || b == 36 || b == 95 || b == 35 {
            match element(buf, i) {
                Some((p, next)) => {
                    let ghost pv = p.deep_view();
                    proof {
                        lemma_element_end_after(buf@, i as int);
                    }
                    if compteur > 1 {
                        vec.push(p);
                        assert(vec.deep_view() =~= cur0.push(pv));
                        compteur = compteur - 1;
                    } else if compteur == 1 {
                        vec.push(p);
                        assert(vec.deep_view() =~= cur0.push(pv));
                        let mut full: Vec<Pair> = Vec::new();
                        std::mem::swap(&mut full, &mut vec);
                        grand_vec.push(array_frame(full));
                        assert(grand_vec.deep_view() =~= frames0.push(("Array"@, cur0.push(pv))));
                        assert(vec.deep_view() =~= Seq::<SPair>::empty());
                        compteur = 0;
                    } else {
                        let mut single: Vec<Pair> = Vec::new();
                        single.push(p);
                        assert(single.deep_view() =~= seq![pv]);
                        grand_vec.push(array_frame(single));
                        assert(grand_vec.deep_view() =~= frames0.push(("Array"@, seq![pv])));
                    }
                    i = next;
                },
                None => {
                    return None;
                },
            }
        } else if b == 42 {
            if compteur > 0 {
                return None;
            }
            match array_count_at(buf, i + 1) {
                Some((n, next)) => {
                    proof {
                        lemma_line_end_bounds(buf@, i + 1);
                    }
                    compteur = n;
                    i = next;
                },
                None => {
                    return None;
                },
            }
        } else if b == 13 {
            if !(i + 1 < length && buf[i + 1] == 10) {
                return None;
            }
            i = i + 1;
        } else if b == 10 {
            if !(i >= 1 && buf[i - 1] == 13) {
                return None;
            }
            i = i + 1;
        } else if b == 0 {
            break;
        } else {
            i = i + 1;
        }
    }
    let ghost frames0 = grand_vec.deep_view();
    let ghost cur0 = vec.deep_view();
    assert(redis_frames(buf@) == Some(close_frame(frames0, cur0)));
    if vec.len() > 0 {
        grand_vec.push(array_frame(vec));
        assert(grand_vec.deep_view() =~= frames0.push(("Array"@, cur0)));
    }
    Some(grand_vec)
}

/// The tags that an element can carry.
pub open spec fn known_tag(t: Seq<char>) -> bool {
    ||| t == "SimpleString"@
    ||| t == "SimpleError"@
    ||| t == "SimpleInteger"@
    ||| t == "Integer"@
    ||| t == "BulkString"@
    ||| t == "Null"@
    ||| t == "Bool"@
}

/// An element that `pair_to_redis` can write: a known tag, and at least one
/// word for a bulk string.
pub open spec fn pair_ok(p: SPair) -> bool {
    known_tag(p.0) && (p.0 == "BulkString"@ ==> p.1.len() >= 1)
}

/// An element as the readers make it: a known tag and exactly one word.
pub open spec fn read_pair(p: SPair) -> bool {
    known_tag(p.0) && p.1.len() == 1
}

/// A frame as the readers make it: tagged `"Array"`, not empty, and made of
/// elements as the readers make them.
pub open spec fn read_frame(f: SFrame) -> bool {
    &&& f.0 == "Array"@
    &&& f.1.len() > 0
    &&& forall|k: int| 0 <= k < f.1.len() ==> #[trigger] read_pair(f.1[k])
}

/// Frames as the readers make them.
pub open spec fn read_frames(fs: Seq<SFrame>) -> bool {
    forall|k: int| 0 <= k < fs.len() ==> #[trigger] read_frame(fs[k])
}

/// Elements read from a type byte have a known tag and one word.
proof fn lemma_element_read(buf: Seq<u8>, i: int)
    requires
        0 <= i < buf.len(),
        is_type_byte(buf[i]),
    ensures
        element_value(buf, i) matches Some(p) ==> read_pair(p),
{
}

/// Adding an element as the readers make it to frames as the readers make
/// them keeps them so.
proof fn lemma_add_element_read(frames: Seq<SFrame>, cur: Seq<SPair>, left: int, p: SPair)
    requires
        read_frames(frames),
        forall|k: int| 0 <= k < cur.len() ==> #[trigger] read_pair(cur[k]),
        read_pair(p),
    ensures
        read_frames(add_element(frames, cur, left, p).0),
        forall|k: int|
            0 <= k < add_element(frames, cur, left, p).1.len() ==> #[trigger] read_pair(
                add_element(frames, cur, left, p).1[k],
            ),
{
    let c2 = cur.push(p);
    assert forall|k: int| 0 <= k < c2.len() implies #[trigger] read_pair(c2[k]) by {
        if k < cur.len() {
            assert(c2[k] == cur[k]);
        }
    }
    let f = if left >= 1 {
        ("Array"@, c2)
    } else {
        ("Array"@, seq![p])
    };
    assert(read_frame(f));
    let f2 = frames.push(f);
    assert forall|k: int| 0 <= k < f2.len() implies #[trigger] read_frame(f2[k]) by {
        if k < frames.len() {
            assert(f2[k] == frames[k]);
        }
    }
}

/// Reading frames from frames and an open frame as the readers make them
/// gives frames as the readers make them.
proof fn lemma_scan_frames_read(buf: Seq<u8>, i: int, frames: Seq<SFrame>, cur: Seq<SPair>, left: int)
    requires
        read_frames(frames),
        forall|k: int| 0 <= k < cur.len() ==> #[trigger] read_pair(cur[k]),
    ensures
        scan_frames(buf, i, frames, cur, left) matches Some(fs) ==> read_frames(fs),
    decreases buf.len() - i,
{
    if i < 0 {
    } else if i >= buf.len() || buf[i] == 0 {
        if cur.len() > 0 {
            let f = ("Array"@, cur);
            assert(read_frame(f));
            assert forall|k: int| 0 <= k < frames.push(f).len() implies #[trigger] read_frame(
                frames.push(f)[k],
            ) by {
                if k < frames.len() {
                    assert(frames.push(f)[k] == frames[k]);
                }
            }
        }
    } else if is_type_byte(buf[i]) {
        lemma_element_read(buf, i);
        if let Some(p) = element_value(buf, i) {
            lemma_element_end_after(buf, i);
            lemma_add_element_read(frames, cur, left, p);
            let (f2, c2, l2) = add_element(frames, cur, left, p);
            lemma_scan_frames_read(buf, element_end(buf, i), f2, c2, l2);
        }
    } else if buf[i] == 42u8 {
        if left <= 0 {
            if let Some((n, j)) = array_count(buf, i + 1) {
                lemma_line_end_bounds(buf, i + 1);
                lemma_scan_frames_read(buf, j, frames, cur, n as int);
            }
        }
    } else {
        lemma_scan_frames_read(buf, i + 1, frames, cur, left);
    }
}

/// The frames read from any buffer are frames as the readers make them.
pub proof fn lemma_redis_frames_read(buf: Seq<u8>)
    ensures
        redis_frames(buf) matches Some(fs) ==> read_frames(fs),
{
    lemma_scan_frames_read(buf, 0, seq![], seq![], 0);
}

/// Converts a received buffer into frames: each frame is tagged `"Array"`
/// and holds elements, each a type tag and its single word.
///
/// The buffer is read element by element (see `scan_frames`): `+`, `-` and
/// `:` start a simple string, error or integer whose word is the rest of the
/// line, `$` a bulk string whose word is the line after its length line, `_`
/// a null and `#` a boolean whose word is the character that follows; `*` and
/// a decimal count announce an array of that many elements, which make one
/// frame, and an element outside any array makes a frame of its own. Reading
/// goes on after each element's last line, so data is never taken for type
/// bytes. A zero byte ends the buffer.
pub fn redis_to_array(buf: &Vec<u8>) -> (frames: Vec<Frame>)
    requires
        redis_frames(buf@) is Some,
    ensures
        redis_frames(buf@) == Some(frames.deep_view()),
        read_frames(frames.deep_view()),
{
    proof {
        lemma_scan_frames_read(buf@, 0, seq![], seq![], 0);
    }
    match checked_redis_to_array(buf) {
        Some(frames) => frames,
        None => Vec::new(),
    }
}

/// The elements of an inline command read from position `i` on, with
/// `pairs` read so far and `word` the word being read: words are separated by
/// single spaces and end at a carriage return, a line feed, a zero byte or the
/// end of the buffer; each word becomes a simple string.
pub open spec fn inline_pairs(buf: Seq<u8>, i: int, pairs: Seq<SPair>, word: Seq<char>) -> Seq<SPair>
    decreases buf.len() - i,
{
    if i < 0 || i >= buf.len() || buf[i] == cr() || buf[i] == lf() || buf[i] == 0 {
        pairs.push(("SimpleString"@, seq![word]))
    } else if buf[i] == 32u8 {
        inline_pairs(buf, i + 1, pairs.push(("SimpleString"@, seq![word])), seq![])
    } else {
        inline_pairs(buf, i + 1, pairs, word.push(byte_char(buf[i])))
    }
}

/// The frames that `inline_redis` reads from a buffer: one frame with the
/// words of the first line.
pub open spec fn inline_frames(buf: Seq<u8>) -> Seq<SFrame> {
    seq![("Array"@, inline_pairs(buf, 0, seq![], seq![]))]
}

/// An inline command gives at least one element, each as the readers make
/// them.
proof fn lemma_inline_pairs_read(buf: Seq<u8>, i: int, pairs: Seq<SPair>, word: Seq<char>)
    requires
        forall|k: int| 0 <= k < pairs.len() ==> #[trigger] read_pair(pairs[k]),
    ensures
        inline_pairs(buf, i, pairs, word).len() > 0,
        forall|k: int|
            0 <= k < inline_pairs(buf, i, pairs, word).len() ==> #[trigger] read_pair(
                inline_pairs(buf, i, pairs, word)[k],
            ),
    decreases buf.len() - i,
{
    let p = ("SimpleString"@, seq![word]);
    let p2 = pairs.push(p);
    assert forall|k: int| 0 <= k < p2.len() implies #[trigger] read_pair(p2[k]) by {
        if k < pairs.len() {
            assert(p2[k] == pairs[k]);
        }
    }
    if i < 0 || i >= buf.len() || buf[i] == cr() || buf[i] == lf() || buf[i] == 0 {
    } else if buf[i] == 32u8 {
        lemma_inline_pairs_read(buf, i + 1, p2, seq![]);
    } else {
        lemma_inline_pairs_read(buf, i + 1, pairs, word.push(byte_char(buf[i])));
    }
}

/// A simple string holding `word`.
fn simple_word(word: String) -> (p: Pair)
    ensures
        p.deep_view() == ("SimpleString"@, seq![word@]),
{
    let p = (owned("SimpleString"), vec![word]);
    assert(p.1.deep_view() =~= seq![word@]);
    p
}

/// Reads an inline command (words separated by spaces on the first line)
/// into one frame of simple strings.
pub fn inline_redis(buf: &Vec<u8>) -> (frames: Vec<Frame>)
    ensures
        frames.deep_view() == inline_frames(buf@),
        read_frames(frames.deep_view()),
{
    let mut vec: Vec<Pair> = Vec::new();
    let length = buf.len();
    let mut string = String::new();
    let mut i: usize = 0;
    assert(vec.deep_view() =~= Seq::<SPair>::empty());
    while i < length
        invariant
            length == buf@.len(),
            i <= length,
            inline_pairs(buf@, i as int, vec.deep_view(), string@) == inline_pairs(
                buf@,
                0,
                seq![],
                seq![],
            ),
        ensures
            i >= length || buf@[i as int] == cr() || buf@[i as int] == lf() || buf@[i as int]
                == 0,
        decreases length - i,
    {
        let b = buf[i];
        if b == 32 {
            let ghost cur0 = vec.deep_view();
            let mut word = String::new();
            std::mem::swap(&mut word, &mut string);
            let p = simple_word(word);
            let ghost pv = p.deep_view();
            vec.push(p);
            assert(vec.deep_view() =~= cur0.push(pv));
        } else if b == 13 || b == 10 || b == 0 {
            break;
        } else {
            string.push(char_of_byte(b));
        }
        i = i + 1;
    }
    let ghost cur0 = vec.deep_view();
    let p = simple_word(string);
    let ghost pv = p.deep_view();
    vec.push(p);
    assert(vec.deep_view() =~= cur0.push(pv));
    let mut grand_vec: Vec<Frame> = Vec::new();
    grand_vec.push(array_frame(vec));
    assert(grand_vec.deep_view() =~= inline_frames(buf@));
    proof {
        lemma_inline_pairs_read(buf@, 0, seq![], seq![]);
        assert(read_frame(grand_vec.deep_view()[0]));
    }
    grand_vec
}

/// The number of bytes of the UTF-8 encoding of a word.
pub open spec fn utf8_len(w: Seq<char>) -> nat {
    (encode_utf8(w).len() as usize) as nat
}

/// The protocol text of an element: the type byte, the words one after the
/// other, and a line ending (an integer may be tagged `"SimpleInteger"` or
/// `"Integer"`); a bulk string is written as its length in bytes,
/// a line ending, its first word and a line ending; a null as `_` and a line
/// ending.
pub open spec fn encode_pair(p: SPair) -> Seq<char> {
    if p.0 == "SimpleString"@ {
        "+"@ + p.1.flatten_alt() + "\r\n"@
    } else if p.0 == "SimpleError"@ {
        "-"@ + p.1.flatten_alt() + "\r\n"@
    } else if p.0 == "SimpleInteger"@ || p.0 == "Integer"@ {
        ":"@ + p.1.flatten_alt() + "\r\n"@
    } else if p.0 == "BulkString"@ {
        "$"@ + decimal(utf8_len(p.1[0])) + "\r\n"@ + p.1[0] + "\r\n"@
    } else if p.0 == "Null"@ {
        "_\r\n"@
    } else {
        "#"@ + p.1.flatten_alt() + "\r\n"@
    }
}

/// The protocol text of several elements, one after the other.
pub open spec fn encode_pairs(ps: Seq<SPair>) -> Seq<char>
    decreases ps.len(),
{
    if ps.len() == 0 {
        seq![]
    } else {
        encode_pairs(ps.drop_last()) + encode_pair(ps.last())
    }
}

/// Appends all `words` to `out`, one after the other.
fn push_words(out: &mut String, words: &Vec<String>)
    ensures
        final(out)@ == old(out)@ + words.deep_view().flatten_alt(),
{
    let ghost start = out@;
    let ghost ws = words.deep_view();
    let mut i: usize = 0;
    while i < words.len()
        invariant
            ws == words.deep_view(),
            i <= words.len(),
            out@ == start + ws.take(i as int).flatten_alt(),
        decreases words.len() - i,
    {
        out.append(words[i].as_str());
        proof {
            assert(ws.take(i + 1).drop_last() =~= ws.take(i as int));
            assert(ws[i as int] == words[i as int]@);
        }
        i = i + 1;
    }
    assert(ws.take(words.len() as int) =~= ws);
}

/// Appends the protocol text of the element `entry` to `out`.
fn push_pair(out: &mut String, entry: &Pair)
    requires
        pair_ok(entry.deep_view()),
    ensures
        final(out)@ == old(out)@ + encode_pair(entry.deep_view()),
{
    let ghost start = out@;
    let ghost p = entry.deep_view();
    let ghost ws = entry.1.deep_view();
    if same_text(&entry.0, "SimpleString") {
        out.append("+");
        push_words(out, &entry.1);
        out.append("\r\n");
        assert(out@ =~= start + encode_pair(p));
    } else if same_text(&entry.0, "SimpleError") {
        out.append("-");
        push_words(out, &entry.1);
        out.append("\r\n");
        assert(out@ =~= start + encode_pair(p));
    } else if same_text(&entry.0, "SimpleInteger") || same_text(&entry.0, "Integer") {
        out.append(":");
        push_words(out, &entry.1);
        out.append("\r\n");
        assert(out@ =~= start + encode_pair(p));
    } else if same_text(&entry.0, "BulkString") {
        out.append("$");
        let word = entry.1[0].as_str();
        assert(ws[0] == word@);
        push_decimal(out, word.len());
        out.append("\r\n");
        out.append(word);
        out.append("\r\n");
        assert(out@ =~= start + encode_pair(p));
    } else if same_text(&entry.0, "Null") {
        out.append("_\r\n");
        assert(out@ =~= start + encode_pair(p));
    } else {
        out.append("#");
        push_words(out, &entry.1);
        out.append("\r\n");
        assert(out@ =~= start + encode_pair(p));
    }
}

/// Converts an element into its protocol text, e.g. `("SimpleInteger",
/// ["25"])` into `":25\r\n"`.
pub fn pair_to_redis(entry: (String, Vec<String>)) -> (text: String)
    requires
        pair_ok(entry.deep_view()),
    ensures
        text@ == encode_pair(entry.deep_view()),
{
    let mut retour = String::new();
    push_pair(&mut retour, &entry);
    assert(retour@ =~= encode_pair(entry.deep_view()));
    retour
}

/// Appends the protocol text of the elements at positions `from` (included)
/// to `to` (excluded) of `elements`.
fn push_pairs(out: &mut String, elements: &Vec<Pair>, from: usize, to: usize)
    requires
        from <= to <= elements.len(),
        forall|k: int| from <= k < to ==> #[trigger] pair_ok(elements.deep_view()[k]),
    ensures
        final(out)@ == old(out)@ + encode_pairs(elements.deep_view().subrange(from as int, to as int)),
{
    let ghost start = out@;
    let ghost es = elements.deep_view();
    let mut i: usize = from;
    assert(es.subrange(from as int, from as int) =~= Seq::<SPair>::empty());
    while i < to
        invariant
            es == elements.deep_view(),
            from <= i <= to <= elements.len(),
            forall|k: int| from <= k < to ==> #[trigger] pair_ok(es[k]),
            out@ == start + encode_pairs(es.subrange(from as int, i as int)),
        decreases to - i,
    {
        assert(pair_ok(es[i as int]));
        push_pair(out, &elements[i]);
        proof {
            assert(es.subrange(from as int, i + 1).drop_last() =~= es.subrange(from as int, i as int));
            assert(es.subrange(from as int, i + 1).last() == es[i as int]);
        }
        i = i + 1;
    }
}

/// The protocol text of an array holding `elements`: `*`, the count, a line
/// ending, and the text of each element.
pub open spec fn encode_array(elements: Seq<SPair>) -> Seq<char> {
    "*"@ + decimal(elements.len()) + "\r\n"@ + encode_pairs(elements)
}

/// Converts the elements at positions 1 to `taille - 1` of `string_array`
/// (position 0 holds the command word) into the protocol text of an array.
pub fn array_to_redis(string_array: &Vec<(String, Vec<String>)>, taille: usize) -> (text: String)
    requires
        1 <= taille <= string_array.len(),
        forall|k: int| 1 <= k < taille ==> #[trigger] pair_ok(string_array.deep_view()[k]),
    ensures
        text@ == encode_array(string_array.deep_view().subrange(1, taille as int)),
{
    let mut retour = owned("*");
    push_decimal(&mut retour, taille - 1);
    retour.append("\r\n");
    push_pairs(&mut retour, string_array, 1, taille);
    assert(retour@ =~= encode_array(string_array.deep_view().subrange(1, taille as int)));
    retour
}

/// Converts the first `taille` elements of `string_array` into the protocol
/// text of an array.
pub fn array_to_redis_get(string_array: &Vec<(String, Vec<String>)>, taille: usize) -> (text: String)
    requires
        taille <= string_array.len(),
        forall|k: int| 0 <= k < taille ==> #[trigger] pair_ok(string_array.deep_view()[k]),
    ensures
        text@ == encode_array(string_array.deep_view().subrange(0, taille as int)),
{
    let mut retour = owned("*");
    push_decimal(&mut retour, taille);
    retour.append("\r\n");
    push_pairs(&mut retour, string_array, 0, taille);
    assert(retour@ =~= encode_array(string_array.deep_view().subrange(0, taille as int)));
    retour
}

} // verus!
