//! Properties that relate the commands to one another and the reader to the
//! writer.
use vstd::prelude::*;
use crate::commands::{
    all_ok, del_keys, del_reply, del_targets, dispatch, get_gather, get_reply, key_of, keys_named,
    ping_reply, request_frames, serve, set_reply, set_store, Answer,
};
use crate::resp::{
    add_element, after_line, array_count, close_frame, element_end, element_value, is_type_byte,
    line_end, redis_frames, scan_frames, scan_integer, scan_word, SFrame,
};
use crate::text::{lower_char, lower_word};
use crate::resp::{encode_array, encode_pair, encode_pairs, null_pair, pair_ok, read_pair, SPair};
use crate::text::{byte_char, decimal, digit_char};

verus! {

/// Every element that the readers make (`redis_to_array`, `inline_redis`)
/// can be written back by `pair_to_redis`.
pub proof fn lemma_read_pair_writable(p: SPair)
    requires
        read_pair(p),
    ensures
        pair_ok(p),
{
}

/// GET after SET: once SET has put values under a key, GET of that key
/// answers with those values: the single value itself, or the values as an
/// array.
pub proof fn lemma_get_after_set(m: Map<Seq<char>, Seq<SPair>>, set_args: Seq<SPair>, get_args: Seq<SPair>)
    requires
        set_args.len() >= 3,
        set_args[1].1.len() >= 1,
        all_ok(set_args, 2),
        get_args.len() == 2,
        get_args[1].1.len() >= 1,
        key_of(get_args[1]) == key_of(set_args[1]),
    ensures
        get_reply(set_store(m, set_args), get_args) == Some(
            if set_args.len() == 3 {
                encode_pair(set_args[2])
            } else {
                encode_array(set_args.subrange(2, set_args.len() as int))
            },
        ),
{
    let v = set_args.subrange(2, set_args.len() as int);
    let m2 = set_store(m, set_args);
    assert(m2.contains_key(key_of(get_args[1])));
    assert(m2[key_of(get_args[1])] == v);
    if set_args.len() == 3 {
        assert(v[0] == set_args[2]);
    } else {
        assert forall|k: int| 0 <= k < v.len() implies #[trigger] pair_ok(v[k]) by {
            assert(v[k] == set_args[k + 2]);
        }
    }
}

/// SET of one key leaves GET of any other key unchanged.
pub proof fn lemma_set_keeps_other_keys(m: Map<Seq<char>, Seq<SPair>>, set_args: Seq<SPair>, get_args: Seq<SPair>)
    requires
        set_args.len() >= 3,
        get_args.len() == 2,
        get_args[1].1.len() >= 1,
        key_of(get_args[1]) != key_of(set_args[1]),
    ensures
        get_reply(set_store(m, set_args), get_args) == get_reply(m, get_args),
{
    let k = key_of(get_args[1]);
    let m2 = set_store(m, set_args);
    assert(m2.contains_key(k) == m.contains_key(k));
    if m.contains_key(k) {
        assert(m2[k] == m[k]);
    }
}

/// DEL after SET: deleting the key that SET has just filled removes one key,
/// and GET of the key then answers with a null.
pub proof fn lemma_del_after_set(
    m: Map<Seq<char>, Seq<SPair>>,
    set_args: Seq<SPair>,
    del_args: Seq<SPair>,
    get_args: Seq<SPair>,
)
    requires
        set_args.len() >= 3,
        del_args.len() == 2,
        get_args.len() == 2,
        get_args[1].1.len() >= 1,
        key_of(del_args[1]) == key_of(set_args[1]),
        key_of(get_args[1]) == key_of(set_args[1]),
    ensures
        del_reply(set_store(m, set_args), del_args) == ":1\r\n"@,
        get_reply(del_keys(set_store(m, set_args), del_targets(del_args)).0, get_args) == Some(
            "_\r\n"@,
        ),
{
    let m2 = set_store(m, set_args);
    let ks = del_targets(del_args);
    assert(ks =~= seq![key_of(set_args[1])]);
    assert(ks.drop_last() =~= Seq::<Seq<char>>::empty());
    assert(m2.contains_key(key_of(set_args[1])));
    assert(del_keys(m2, ks.drop_last()) == (m2, 0nat));
    assert(ks.last() == key_of(set_args[1]));
    assert(del_keys(m2, ks).1 == 1);
    reveal_strlit(":");
    reveal_strlit("\r\n");
    reveal_strlit(":1\r\n");
    assert(decimal(1) =~= seq![digit_char(1)]);
    assert(del_reply(m2, del_args) =~= ":1\r\n"@);
    assert(!del_keys(m2, ks).0.contains_key(key_of(get_args[1])));
}

/// DEL of a list of keys removes exactly the listed keys, and answers with
/// the number of distinct listed keys that the store held.
pub proof fn lemma_del_counts_distinct_held_keys(m: Map<Seq<char>, Seq<SPair>>, ks: Seq<Seq<char>>)
    requires
        m.dom().finite(),
    ensures
        del_keys(m, ks).0 == m.remove_keys(ks.to_set()),
        del_keys(m, ks).1 == m.dom().intersect(ks.to_set()).len(),
    decreases ks.len(),
{
    broadcast use vstd::set::group_set_axioms;
    broadcast use vstd::set_lib::group_set_lib_default;
    broadcast use vstd::seq_lib::group_seq_properties;

    if ks.len() == 0 {
        assert(ks.to_set() =~= Set::<Seq<char>>::empty());
        assert(m.remove_keys(ks.to_set()) =~= m);
        assert(m.dom().intersect(ks.to_set()) =~= Set::<Seq<char>>::empty());
    } else {
        let rest = ks.drop_last();
        let k = ks.last();
        lemma_del_counts_distinct_held_keys(m, rest);
        let s0 = rest.to_set();
        assert(ks.to_set() =~= s0.insert(k)) by {
            assert(ks =~= rest.push(k));
            assert forall|x: Seq<char>| ks.to_set().contains(x) == s0.insert(k).contains(x) by {
                if ks.to_set().contains(x) {
                    let i = choose|i: int| 0 <= i < ks.len() && ks[i] == x;
                    if i < rest.len() {
                        assert(rest[i] == x);
                    }
                }
                if s0.contains(x) {
                    let i = choose|i: int| 0 <= i < rest.len() && rest[i] == x;
                    assert(ks[i] == x);
                }
                if x == k {
                    assert(ks[ks.len() - 1] == x);
                }
            }
        }
        let (m1, c1) = del_keys(m, rest);
        let d = m.dom();
        let i0 = d.intersect(s0);
        assert(d.intersect(s0.insert(k)).finite());
        if m1.contains_key(k) {
            assert(d.contains(k) && !s0.contains(k));
            assert(m1.remove(k) =~= m.remove_keys(s0.insert(k)));
            assert(d.intersect(s0.insert(k)) =~= i0.insert(k));
            assert(!i0.contains(k));
        } else {
            assert(m1 =~= m.remove_keys(s0.insert(k)));
            assert(d.intersect(s0.insert(k)) =~= i0);
        }
    }
}

/// Only SET and DEL change the store: a request whose command word is
/// neither (or that cannot be read) leaves the store as it was.
pub proof fn lemma_only_set_and_del_write(m: Map<Seq<char>, Seq<SPair>>, data: Seq<u8>)
    requires
        request_frames(data) matches Some(fs) ==> ({
            let w = lower_word(key_of(fs[0].1[0]));
            w != "set"@ && w != "del"@
        }),
    ensures
        serve(m, data).0 == m,
{
}

/// Command dispatch ignores the case of ASCII letters in the command word:
/// two requests that differ only in the command word, with the same word
/// once ASCII capitals are lowered, give the same store and the same answer.
pub proof fn lemma_dispatch_ignores_case(m: Map<Seq<char>, Seq<SPair>>, e1: Seq<SPair>, e2: Seq<SPair>)
    requires
        e1.len() == e2.len(),
        e1.len() >= 1,
        e1.subrange(1, e1.len() as int) == e2.subrange(1, e2.len() as int),
        lower_word(key_of(e1[0])) == lower_word(key_of(e2[0])),
    ensures
        dispatch(m, e1) == dispatch(m, e2),
{
    let n = e1.len() as int;
    assert forall|q: int| 1 <= q < n implies e1[q] == e2[q] by {
        assert(e1[q] == e1.subrange(1, n)[q - 1]);
        assert(e2[q] == e2.subrange(1, n)[q - 1]);
    }
    assert(ping_reply(e1) == ping_reply(e2));
    assert(set_reply(e1) == set_reply(e2));
    if n >= 3 {
        assert(e1.subrange(2, n) =~= e2.subrange(2, n));
    }
    assert(set_store(m, e1) == set_store(m, e2));
    assert(get_reply(m, e1) == get_reply(m, e2));
    assert(del_targets(e1) == del_targets(e2));
    assert(del_reply(m, e1) == del_reply(m, e2));
}

/// The integer reader and the word reader read alike from `i` on when no
/// sign stands after the start position.
proof fn lemma_integer_word_from(buf: Seq<u8>, start: int, i: int, w: Seq<char>)
    requires
        0 <= start <= i,
        forall|k: int| start < k < buf.len() ==> buf[k] != 43u8 && buf[k] != 45u8,
    ensures
        scan_integer(buf, start, i, w) == scan_word(buf, i, w),
    decreases buf.len() - i,
{
    if i < buf.len() && buf[i] != 13u8 && !(buf[i] == 0 && w.len() > 0) {
        if buf[i] == 0 {
            lemma_integer_word_from(buf, start, i + 1, w);
        } else {
            lemma_integer_word_from(buf, start, i + 1, w.push(crate::text::byte_char(buf[i])));
        }
    }
}

/// The integer reader reads as the word reader when no sign follows the
/// start position: it gives the same word, and fails on the same buffers.
pub proof fn lemma_integer_reader_is_word_reader(buf: Seq<u8>, start: int)
    requires
        0 <= start,
        forall|k: int| start < k < buf.len() ==> buf[k] != 43u8 && buf[k] != 45u8,
    ensures
        scan_integer(buf, start, start, seq![]) == scan_word(buf, start, seq![]),
{
    lemma_integer_word_from(buf, start, start, seq![]);
}

/// A buffer followed by `k` zero bytes, as a fixed-size receive buffer
/// holds a shorter message.
pub open spec fn zero_padded(buf: Seq<u8>, k: nat) -> Seq<u8> {
    buf + Seq::new(k, |_j: int| 0u8)
}

proof fn lemma_pad_bytes(buf: Seq<u8>, k: nat)
    ensures
        zero_padded(buf, k).len() == buf.len() + k,
        forall|j: int| 0 <= j < buf.len() ==> #[trigger] zero_padded(buf, k)[j] == buf[j],
        forall|j: int| buf.len() <= j < buf.len() + k ==> #[trigger] zero_padded(buf, k)[j] == 0u8,
{
}

proof fn lemma_pad_word(buf: Seq<u8>, k: nat, i: int, w: Seq<char>)
    requires
        0 <= i,
    ensures
        scan_word(zero_padded(buf, k), i, w) == scan_word(buf, i, w),
    decreases zero_padded(buf, k).len() - i,
{
    lemma_pad_bytes(buf, k);
    let p = zero_padded(buf, k);
    if i < p.len() {
        if p[i] == 0 {
            lemma_pad_word(buf, k, i + 1, w);
        } else if p[i] != 13u8 {
            lemma_pad_word(buf, k, i + 1, w.push(crate::text::byte_char(p[i])));
        }
    }
}

proof fn lemma_pad_integer(buf: Seq<u8>, k: nat, start: int, i: int, w: Seq<char>)
    requires
        0 <= i,
    ensures
        scan_integer(zero_padded(buf, k), start, i, w) == scan_integer(buf, start, i, w),
    decreases zero_padded(buf, k).len() - i,
{
    lemma_pad_bytes(buf, k);
    let p = zero_padded(buf, k);
    if i < p.len() {
        if p[i] == 0 {
            lemma_pad_integer(buf, k, start, i + 1, w);
        } else if p[i] != 13u8 {
            lemma_pad_integer(buf, k, start, i + 1, w.push(crate::text::byte_char(p[i])));
        }
    }
}

proof fn lemma_pad_line_end(buf: Seq<u8>, k: nat, i: int)
    requires
        0 <= i,
    ensures
        line_end(zero_padded(buf, k), i) == line_end(buf, i),
    decreases zero_padded(buf, k).len() - i,
{
    lemma_pad_bytes(buf, k);
    let p = zero_padded(buf, k);
    if i < p.len() && p[i] != 0 && p[i] != 13u8 {
        lemma_pad_line_end(buf, k, i + 1);
    }
}

proof fn lemma_pad_after_line(buf: Seq<u8>, k: nat, i: int)
    requires
        0 <= i,
    ensures
        after_line(zero_padded(buf, k), i) == after_line(buf, i) || (after_line(buf, i)
            == buf.len() && after_line(zero_padded(buf, k), i) >= buf.len()),
{
    lemma_pad_line_end(buf, k, i);
}

proof fn lemma_pad_tail(buf: Seq<u8>, k: nat, i: int, f: Seq<SFrame>, c: Seq<SPair>, l: int)
    requires
        buf.len() <= i,
    ensures
        scan_frames(zero_padded(buf, k), i, f, c, l) == Some(close_frame(f, c)),
{
    lemma_pad_bytes(buf, k);
}

proof fn lemma_pad_scan(buf: Seq<u8>, k: nat, i: int, f: Seq<SFrame>, c: Seq<SPair>, l: int)
    requires
        0 <= i,
        scan_frames(buf, i, f, c, l) is Some,
    ensures
        scan_frames(zero_padded(buf, k), i, f, c, l) == scan_frames(buf, i, f, c, l),
    decreases buf.len() - i,
{
    lemma_pad_bytes(buf, k);
    let p = zero_padded(buf, k);
    if i >= buf.len() {
        lemma_pad_tail(buf, k, i, f, c, l);
    } else if buf[i] == 0 {
    } else if is_type_byte(buf[i]) {
        let b = buf[i];
        lemma_pad_word(buf, k, i + 1, seq![]);
        lemma_pad_integer(buf, k, i + 1, i + 1, seq![]);
        lemma_pad_line_end(buf, k, i + 1);
        crate::resp::lemma_line_end_bounds(buf, i + 1);
        if let Some(j) = line_end(buf, i + 1) {
            lemma_pad_word(buf, k, j, seq![]);
            lemma_pad_after_line(buf, k, j);
        }
        lemma_pad_after_line(buf, k, i + 1);
        assert(element_value(p, i) == element_value(buf, i));
        let pv = element_value(buf, i)->0;
        crate::resp::lemma_element_end_after(buf, i);
        let (f2, c2, l2) = add_element(f, c, l, pv);
        let jb = element_end(buf, i);
        let jp = element_end(p, i);
        assert(jp == jb || (jb == buf.len() && jp >= buf.len()));
        assert(scan_frames(buf, i, f, c, l) == scan_frames(buf, jb, f2, c2, l2));
        assert(scan_frames(p, i, f, c, l) == scan_frames(p, jp, f2, c2, l2));
        if jb < buf.len() {
            lemma_pad_scan(buf, k, jb, f2, c2, l2);
        } else {
            lemma_pad_tail(buf, k, jp, f2, c2, l2);
        }
    } else if buf[i] == 42u8 {
        lemma_pad_line_end(buf, k, i + 1);
        if let Some(j) = line_end(buf, i + 1) {
            crate::resp::lemma_line_end_bounds(buf, i + 1);
            assert(p.subrange(i + 1, j - 2) =~= buf.subrange(i + 1, j - 2));
        }
        assert(array_count(p, i + 1) == array_count(buf, i + 1));
        if let Some((n, j)) = array_count(buf, i + 1) {
            crate::resp::lemma_line_end_bounds(buf, i + 1);
            lemma_pad_scan(buf, k, j, f, c, n as int);
        }
    } else {
        lemma_pad_scan(buf, k, i + 1, f, c, l);
    }
}

/// Zero bytes after a message change nothing: a buffer that can be read
/// reads the same with any number of zero bytes after it.
pub proof fn lemma_zero_padding_changes_nothing(buf: Seq<u8>, k: nat)
    requires
        redis_frames(buf) is Some,
    ensures
        redis_frames(zero_padded(buf, k)) == redis_frames(buf),
{
    lemma_pad_scan(buf, k, 0, seq![], seq![], 0);
}

/// The characters that bytes stand for.
pub open spec fn text_of(bytes: Seq<u8>) -> Seq<char> {
    bytes.map_values(|b: u8| byte_char(b))
}

/// The decimal digits of `n` as bytes, most significant first.
pub open spec fn decimal_bytes(n: nat) -> Seq<u8>
    decreases n,
{
    if n < 10 {
        seq![(48 + n) as u8]
    } else {
        decimal_bytes(n / 10).push((48 + n % 10) as u8)
    }
}

/// The protocol bytes of a bulk string holding the bytes `s`: `$`, the
/// length, a line ending, the bytes and a line ending.
pub open spec fn bulk_bytes(s: Seq<u8>) -> Seq<u8> {
    seq![36u8] + decimal_bytes(s.len()) + seq![13u8, 10u8] + s + seq![13u8, 10u8]
}

proof fn lemma_decimal_bytes(n: nat)
    ensures
        text_of(decimal_bytes(n)) == decimal(n),
        decimal_bytes(n).len() > 0,
        forall|k: int| 0 <= k < decimal_bytes(n).len() ==> 48u8 <= #[trigger] decimal_bytes(n)[k] <= 57u8,
    decreases n,
{
    if n < 10 {
        assert(text_of(decimal_bytes(n)) =~= decimal(n));
    } else {
        lemma_decimal_bytes(n / 10);
        let d = (48 + n % 10) as u8;
        assert(byte_char(d) == digit_char(n % 10));
        assert(text_of(decimal_bytes(n)) =~= text_of(decimal_bytes(n / 10)).push(byte_char(d)));
        assert forall|k: int| 0 <= k < decimal_bytes(n).len() implies 48u8 <= #[trigger] decimal_bytes(
            n,
        )[k] <= 57u8 by {
            if k < decimal_bytes(n / 10).len() {
                assert(decimal_bytes(n)[k] == decimal_bytes(n / 10)[k]);
            }
        }
    }
}

/// A line of bytes other than carriage returns, line feeds and zeros, from `i` to a line
/// ending at `e`, ends at `e + 2`.
proof fn lemma_run_line_end(buf: Seq<u8>, i: int, e: int)
    requires
        0 <= i <= e,
        e + 1 < buf.len(),
        forall|k: int| i <= k < e ==> #[trigger] buf[k] != 13u8 && buf[k] != 10u8 && buf[k] != 0u8,
        buf[e] == 13u8,
        buf[e + 1] == 10u8,
    ensures
        line_end(buf, i) == Some(e + 2),
    decreases e - i,
{
    if i < e {
        lemma_run_line_end(buf, i + 1, e);
    }
}

/// The word read from such a line is its bytes' characters.
proof fn lemma_run_word(buf: Seq<u8>, i: int, e: int, w: Seq<char>)
    requires
        0 <= i <= e,
        e + 1 < buf.len(),
        forall|k: int| i <= k < e ==> #[trigger] buf[k] != 13u8 && buf[k] != 10u8 && buf[k] != 0u8,
        buf[e] == 13u8,
        buf[e + 1] == 10u8,
    ensures
        scan_word(buf, i, w) == Some(w + text_of(buf.subrange(i, e))),
    decreases e - i,
{
    if i < e {
        lemma_run_word(buf, i + 1, e, w.push(byte_char(buf[i])));
        assert(w.push(byte_char(buf[i])) + text_of(buf.subrange(i + 1, e)) =~= w + text_of(
            buf.subrange(i, e),
        ));
    } else {
        assert(w + text_of(buf.subrange(i, e)) =~= w);
    }
}

/// Writing a bulk string and reading it back gives it back: for bytes that
/// are ASCII and neither zeros nor line-ending bytes, `pair_to_redis` writes the
/// bulk string of their characters as the protocol bytes of a bulk string,
/// and those bytes, announced as an array of one element, read back as that
/// bulk string.
pub proof fn lemma_bulk_string_round_trip(s: Seq<u8>)
    requires
        s.len() <= usize::MAX,
        forall|k: int| 0 <= k < s.len() ==> 0u8 < #[trigger] s[k] < 128u8 && s[k] != 13u8 && s[k] != 10u8,
    ensures
        encode_pair(("BulkString"@, seq![text_of(s)])) == text_of(bulk_bytes(s)),
        redis_frames(seq![42u8, 49u8, 13u8, 10u8] + bulk_bytes(s)) == Some(
            seq![("Array"@, seq![("BulkString"@, seq![text_of(s)])])],
        ),
{
    let w = text_of(s);
    let n = s.len();
    let db = decimal_bytes(n);
    lemma_decimal_bytes(n);
    let dl = db.len() as int;
    // The text of the written bulk string.
    assert(vstd::utf8::is_ascii_chars(w)) by {
        assert forall|i: int| 0 <= i < w.len() implies '\0' <= #[trigger] w[i] <= '\u{7f}' by {
            assert(w[i] == byte_char(s[i]));
        }
    }
    vstd::utf8::is_ascii_chars_encode_utf8(w);
    reveal_strlit("$");
    reveal_strlit("\r\n");
    reveal_strlit("SimpleString");
    reveal_strlit("SimpleError");
    reveal_strlit("SimpleInteger");
    reveal_strlit("Integer");
    reveal_strlit("BulkString");
    assert(crate::resp::utf8_len(w) == n);
    assert("BulkString"@[0] != "SimpleString"@[0]);
    assert("BulkString"@[0] != "SimpleError"@[0]);
    assert("BulkString"@[0] != "SimpleInteger"@[0]);
    assert("BulkString"@[0] != "Integer"@[0]);
    assert(seq![w][0] == w);
    assert(encode_pair(("BulkString"@, seq![w])) == "$"@ + decimal(n) + "\r\n"@ + w + "\r\n"@);
    assert(text_of(bulk_bytes(s)) =~= "$"@ + decimal(n) + "\r\n"@ + w + "\r\n"@);
    // Reading it back.
    let b = seq![42u8, 49u8, 13u8, 10u8] + bulk_bytes(s);
    let j = 7 + dl;
    assert(b.len() == 9 + dl + n);
    assert forall|k: int| 0 <= k < dl implies #[trigger] b[5 + k] == db[k] by {}
    assert forall|k: int| 0 <= k < n implies #[trigger] b[j + k] == s[k] by {}
    assert(b[0] == 42u8 && b[1] == 49u8 && b[2] == 13u8 && b[3] == 10u8 && b[4] == 36u8);
    assert(b[5 + dl] == 13u8 && b[6 + dl] == 10u8);
    assert(b[j + n] == 13u8 && b[j + n + 1] == 10u8);
    lemma_run_line_end(b, 1, 2);
    assert(b.subrange(1, 2) =~= seq![49u8]);
    assert(seq![49u8].drop_last() =~= Seq::<u8>::empty());
    assert(crate::resp::digits_value(Seq::<u8>::empty()) == 0);
    assert(seq![49u8].last() == 49u8);
    assert(crate::resp::digits_value(seq![49u8]) == 1);
    assert(array_count(b, 1) == Some((1nat, 4int)));
    assert forall|k: int| 5 <= k < 5 + dl implies #[trigger] b[k] != 13u8 && b[k] != 10u8 && b[k] != 0u8 by {
        assert(b[5 + (k - 5)] == db[k - 5]);
    }
    lemma_run_line_end(b, 5, 5 + dl);
    assert forall|k: int| j <= k < j + n implies #[trigger] b[k] != 13u8 && b[k] != 10u8 && b[k] != 0u8 by {
        assert(b[j + (k - j)] == s[k - j]);
    }
    lemma_run_word(b, j, j + n, seq![]);
    assert(b.subrange(j, j + n) =~= s);
    assert(Seq::<char>::empty() + w =~= w);
    lemma_run_line_end(b, j, j + n);
    let p = ("BulkString"@, seq![w]);
    assert(element_value(b, 4) == Some(p));
    assert(element_end(b, 4) == b.len());
    assert(scan_frames(b, 4, seq![], seq![], 1) == scan_frames(
        b,
        b.len() as int,
        seq![("Array"@, seq![p])],
        seq![],
        0,
    ));
    assert(scan_frames(b, 0, seq![], seq![], 0) == scan_frames(b, 4, seq![], seq![], 1));
}

/// Serving ignores the case of ASCII letters in the command word: two
/// received buffers whose first frames differ only in the command word, with
/// the same word once ASCII capitals are lowered, give the same store and the
/// same answer.
pub proof fn lemma_serve_ignores_case(m: Map<Seq<char>, Seq<SPair>>, d1: Seq<u8>, d2: Seq<u8>)
    requires
        request_frames(d1) is Some,
        request_frames(d2) is Some,
        request_frames(d1)->0.len() > 0,
        request_frames(d2)->0.len() > 0,
        ({
            let e1 = request_frames(d1)->0[0].1;
            let e2 = request_frames(d2)->0[0].1;
            &&& e1.len() == e2.len()
            &&& e1.len() >= 1
            &&& e1.subrange(1, e1.len() as int) == e2.subrange(1, e2.len() as int)
            &&& lower_word(key_of(e1[0])) == lower_word(key_of(e2[0]))
        }),
    ensures
        serve(m, d1) == serve(m, d2),
{
    lemma_dispatch_ignores_case(m, request_frames(d1)->0[0].1, request_frames(d2)->0[0].1);
}

/// Lowering a command word maps each ASCII capital letter `A` to `Z` to its
/// lower-case letter (its code point plus 32) and keeps every other character.
pub proof fn lemma_lower_char_maps_capitals(c: char)
    ensures
        'A' <= c <= 'Z' ==> lower_char(c) as u32 == c as u32 + 32,
        'A' <= c <= 'Z' ==> 'a' <= lower_char(c) <= 'z',
        !('A' <= c <= 'Z') ==> lower_char(c) == c,
{
}

/// SAVE written in any mix of upper and lower case is the SAVE command.
pub proof fn lemma_save_in_any_case(m: Map<Seq<char>, Seq<SPair>>, elems: Seq<SPair>)
    requires
        elems.len() >= 1,
        elems[0].1.len() >= 1,
        key_of(elems[0]).len() == 4,
        key_of(elems[0])[0] == 's' || key_of(elems[0])[0] == 'S',
        key_of(elems[0])[1] == 'a' || key_of(elems[0])[1] == 'A',
        key_of(elems[0])[2] == 'v' || key_of(elems[0])[2] == 'V',
        key_of(elems[0])[3] == 'e' || key_of(elems[0])[3] == 'E',
    ensures
        dispatch(m, elems) == (m, Answer::Save),
{
    let w = key_of(elems[0]);
    reveal_strlit("ping");
    reveal_strlit("stop");
    reveal_strlit("set");
    reveal_strlit("get");
    reveal_strlit("del");
    reveal_strlit("save");
    lemma_lower_char_maps_capitals(w[0]);
    lemma_lower_char_maps_capitals(w[1]);
    lemma_lower_char_maps_capitals(w[2]);
    lemma_lower_char_maps_capitals(w[3]);
    let l = lower_word(w);
    assert(l =~= seq!['s', 'a', 'v', 'e']);
    assert(l[0] != "ping"@[0]);
    assert(l[1] != "stop"@[1]);
    assert(l.len() != "set"@.len());
    assert(l.len() != "get"@.len());
    assert(l.len() != "del"@.len());
    assert(l == "save"@);
}

/// GET of a single key gathers that key's elements, or exactly one null
/// where the store does not hold the key.
pub proof fn lemma_get_gather_single(m: Map<Seq<char>, Seq<SPair>>, k: SPair)
    ensures
        get_gather(m, seq![k]) == if m.contains_key(key_of(k)) {
            m[key_of(k)]
        } else {
            seq![null_pair()]
        },
{
    assert(seq![k].drop_last() =~= Seq::<SPair>::empty());
    assert(get_gather(m, Seq::<SPair>::empty()) == Seq::<SPair>::empty());
    let r = if m.contains_key(key_of(k)) {
        m[key_of(k)]
    } else {
        seq![null_pair()]
    };
    assert(Seq::<SPair>::empty() + r =~= r);
}

/// What GET gathers for two lists of keys, one after the other, is what it
/// gathers for the first list followed by what it gathers for the second.
pub proof fn lemma_get_gather_concat(m: Map<Seq<char>, Seq<SPair>>, a: Seq<SPair>, b: Seq<SPair>)
    ensures
        get_gather(m, a + b) == get_gather(m, a) + get_gather(m, b),
    decreases b.len(),
{
    if b.len() == 0 {
        assert(a + b =~= a);
        assert(get_gather(m, a) + Seq::<SPair>::empty() =~= get_gather(m, a));
    } else {
        lemma_get_gather_concat(m, a, b.drop_last());
        assert((a + b).drop_last() =~= a + b.drop_last());
        assert((a + b).last() == b.last());
    }
}

/// `k` copies of the protocol text of a null.
pub open spec fn nulls_text(k: nat) -> Seq<char>
    decreases k,
{
    if k == 0 {
        seq![]
    } else {
        nulls_text((k - 1) as nat) + "_\r\n"@
    }
}

proof fn lemma_null_text()
    ensures
        encode_pair(null_pair()) == "_\r\n"@,
        pair_ok(null_pair()),
{
    reveal_strlit("Null");
    reveal_strlit("SimpleString");
    reveal_strlit("SimpleError");
    reveal_strlit("SimpleInteger");
    reveal_strlit("Integer");
    reveal_strlit("BulkString");
    assert("Null"@[0] != "SimpleString"@[0]);
    assert("Null"@[0] != "SimpleError"@[0]);
    assert("Null"@[0] != "SimpleInteger"@[0]);
    assert("Null"@[0] != "Integer"@[0]);
    assert("Null"@[0] != "BulkString"@[0]);
}

proof fn lemma_gather_unheld(m: Map<Seq<char>, Seq<SPair>>, ks: Seq<SPair>)
    requires
        forall|i: int| 0 <= i < ks.len() ==> !m.contains_key(#[trigger] key_of(ks[i])),
    ensures
        get_gather(m, ks) == Seq::new(ks.len(), |_i: int| null_pair()),
    decreases ks.len(),
{
    if ks.len() > 0 {
        let r = ks.drop_last();
        assert forall|i: int| 0 <= i < r.len() implies !m.contains_key(#[trigger] key_of(r[i])) by {
            assert(r[i] == ks[i]);
        }
        lemma_gather_unheld(m, r);
        assert(!m.contains_key(key_of(ks[ks.len() - 1])));
        assert(get_gather(m, ks) =~= Seq::new(ks.len(), |_i: int| null_pair()));
    }
}

proof fn lemma_encode_nulls(k: nat)
    ensures
        encode_pairs(Seq::new(k, |_i: int| null_pair())) == nulls_text(k),
    decreases k,
{
    lemma_null_text();
    if k > 0 {
        lemma_encode_nulls((k - 1) as nat);
        assert(Seq::new(k, |_i: int| null_pair()).drop_last() =~= Seq::new(
            (k - 1) as nat,
            |_i: int| null_pair(),
        ));
    }
}

/// GET of several keys none of which the store holds answers with an array
/// of exactly one null per key.
pub proof fn lemma_get_unheld_keys_gives_nulls(m: Map<Seq<char>, Seq<SPair>>, arr: Seq<SPair>)
    requires
        arr.len() >= 3,
        keys_named(arr, 1),
        forall|k: int| 1 <= k < arr.len() ==> !m.contains_key(#[trigger] key_of(arr[k])),
    ensures
        get_reply(m, arr) == Some(
            "*"@ + decimal((arr.len() - 1) as nat) + "\r\n"@ + nulls_text((arr.len() - 1) as nat),
        ),
{
    let ks = arr.subrange(1, arr.len() as int);
    assert forall|i: int| 0 <= i < ks.len() implies !m.contains_key(#[trigger] key_of(ks[i])) by {
        assert(ks[i] == arr[i + 1]);
    }
    lemma_gather_unheld(m, ks);
    let g = get_gather(m, ks);
    lemma_null_text();
    assert(all_ok(g, 0));
    lemma_encode_nulls(ks.len());
}

/// PING answers with `+PONG` alone, its one argument written back, or, with
/// several arguments, an array whose count is the number of arguments and
/// which holds every argument's text in order.
pub proof fn lemma_ping_echoes_every_argument(arr: Seq<SPair>)
    requires
        arr.len() >= 1,
    ensures
        arr.len() == 1 ==> ping_reply(arr) == "+PONG\r\n"@,
        arr.len() == 2 ==> ping_reply(arr) == encode_pair(arr[1]),
        arr.len() >= 3 ==> ping_reply(arr) == "*"@ + decimal((arr.len() - 1) as nat) + "\r\n"@
            + encode_pairs(arr.subrange(1, arr.len() as int)),
{
}

/// The keys that the elements of a request name after its command word.
pub open spec fn named_keys(arr: Seq<SPair>) -> Set<Seq<char>> {
    Set::new(|x: Seq<char>| exists|k: int| 1 <= k < arr.len() && key_of(#[trigger] arr[k]) == x)
}

/// DEL removes every key named after the command word and no other, keeps
/// what the other keys hold, and answers with the number of distinct named
/// keys that the store held.
pub proof fn lemma_del_removes_every_named_key(m: Map<Seq<char>, Seq<SPair>>, arr: Seq<SPair>)
    requires
        m.dom().finite(),
        arr.len() >= 2,
    ensures
        forall|k: int|
            1 <= k < arr.len() ==> !del_keys(m, del_targets(arr)).0.contains_key(
                #[trigger] key_of(arr[k]),
            ),
        forall|x: Seq<char>|
            !named_keys(arr).contains(x) ==> (del_keys(m, del_targets(arr)).0.contains_key(x)
                == m.contains_key(x) && (m.contains_key(x) ==> del_keys(m, del_targets(arr)).0[x]
                == m[x])),
        del_reply(m, arr) == ":"@ + decimal(m.dom().intersect(named_keys(arr)).len()) + "\r\n"@,
{
    let ts = del_targets(arr);
    lemma_del_counts_distinct_held_keys(m, ts);
    assert(ts.to_set() =~= named_keys(arr)) by {
        assert forall|x: Seq<char>| ts.to_set().contains(x) implies named_keys(arr).contains(x) by {
            let i = choose|i: int| 0 <= i < ts.len() && ts[i] == x;
            assert(key_of(arr[i + 1]) == x);
        }
        assert forall|x: Seq<char>| named_keys(arr).contains(x) implies ts.to_set().contains(x) by {
            let k = choose|k: int| 1 <= k < arr.len() && key_of(#[trigger] arr[k]) == x;
            assert(ts[k - 1] == x);
        }
    }
    assert forall|k: int| 1 <= k < arr.len() implies !del_keys(m, ts).0.contains_key(
        #[trigger] key_of(arr[k]),
    ) by {
        assert(named_keys(arr).contains(key_of(arr[k])));
    }
}

/// SET always ends its answer with `+OK`, and with a key and at least one
/// value answers exactly `+OK`; the key then holds the values (the elements
/// after it), every other key keeps what it held, and without a key and a
/// value the store is left as it was.
pub proof fn lemma_set_answers_ok_and_stores_values(m: Map<Seq<char>, Seq<SPair>>, arr: Seq<SPair>)
    ensures
        set_reply(arr).len() >= 5,
        set_reply(arr).subrange(set_reply(arr).len() - 5, set_reply(arr).len() as int) == "+OK\r\n"@,
        arr.len() >= 3 ==> set_reply(arr) == "+OK\r\n"@,
        arr.len() >= 3 ==> set_store(m, arr).contains_key(key_of(arr[1])) && set_store(m, arr)[key_of(
            arr[1],
        )] == arr.subrange(2, arr.len() as int),
        arr.len() >= 3 ==> forall|x: Seq<char>|
            x != key_of(arr[1]) ==> (set_store(m, arr).contains_key(x) == m.contains_key(x) && (
            m.contains_key(x) ==> set_store(m, arr)[x] == m[x])),
        arr.len() < 3 ==> set_store(m, arr) == m,
{
    reveal_strlit("+OK\r\n");
    let r = set_reply(arr);
    let ok = "+OK\r\n"@;
    if arr.len() < 3 {
        let pre = if arr.len() == 0 {
            "-Error (Should not be reachable))\r\n"@
        } else if arr.len() == 1 {
            "-ERROR: No key given\r\n"@
        } else {
            "-ERROR: Key cannot be NULL\r\n"@
        };
        assert(r == pre + ok);
        assert(r.subrange(r.len() - 5, r.len() as int) =~= ok);
    } else {
        assert(r.subrange(r.len() - 5, r.len() as int) =~= ok);
    }
}

/// GET of one key answers with a null where the store does not hold the
/// key, with the key's single element where it holds one, and with its
/// elements as an array where it holds several.
pub proof fn lemma_get_single_key(m: Map<Seq<char>, Seq<SPair>>, arr: Seq<SPair>)
    requires
        arr.len() == 2,
        arr[1].1.len() >= 1,
    ensures
        !m.contains_key(key_of(arr[1])) ==> get_reply(m, arr) == Some("_\r\n"@),
        m.contains_key(key_of(arr[1])) && m[key_of(arr[1])].len() == 1 && pair_ok(
            m[key_of(arr[1])][0],
        ) ==> get_reply(m, arr) == Some(encode_pair(m[key_of(arr[1])][0])),
        m.contains_key(key_of(arr[1])) && m[key_of(arr[1])].len() != 1 && all_ok(
            m[key_of(arr[1])],
            0,
        ) ==> get_reply(m, arr) == Some(
            "*"@ + decimal(m[key_of(arr[1])].len()) + "\r\n"@ + encode_pairs(m[key_of(arr[1])]),
        ),
{
}

/// DEL without a key removes nothing and answers with an error line and a
/// count of zero.
pub proof fn lemma_del_without_key(m: Map<Seq<char>, Seq<SPair>>, arr: Seq<SPair>)
    requires
        arr.len() < 2,
    ensures
        del_keys(m, del_targets(arr)).0 == m,
        arr.len() == 0 ==> del_reply(m, arr) == "-Error (Should not be reachable))\r\n"@ + ":0\r\n"@,
        arr.len() == 1 ==> del_reply(m, arr) == "-ERROR: No key given\r\n"@ + ":0\r\n"@,
{
    reveal_strlit(":");
    reveal_strlit("\r\n");
    reveal_strlit(":0\r\n");
    assert(decimal(0) =~= seq![digit_char(0)]);
    assert(":"@ + decimal(0) + "\r\n"@ =~= ":0\r\n"@);
}

/// The protocol text of an element with one word: `+`, `-`, `:` or `#`
/// followed by the word and a line ending for a simple string, error,
/// integer or boolean; `$`, the word's length in bytes, a line ending, the
/// word and a line ending for a bulk string; `_` and a line ending for a
/// null.
pub proof fn lemma_encode_pair_shape(tag: Seq<char>, w: Seq<char>)
    requires
        pair_ok((tag, seq![w])),
    ensures
        tag == "SimpleString"@ ==> encode_pair((tag, seq![w])) == "+"@ + w + "\r\n"@,
        tag == "SimpleError"@ ==> encode_pair((tag, seq![w])) == "-"@ + w + "\r\n"@,
        tag == "SimpleInteger"@ || tag == "Integer"@ ==> encode_pair((tag, seq![w])) == ":"@ + w
            + "\r\n"@,
        tag == "Bool"@ ==> encode_pair((tag, seq![w])) == "#"@ + w + "\r\n"@,
        tag == "BulkString"@ ==> encode_pair((tag, seq![w])) == "$"@ + decimal(
            crate::resp::utf8_len(w),
        ) + "\r\n"@ + w + "\r\n"@,
        tag == "Null"@ ==> encode_pair((tag, seq![w])) == "_\r\n"@,
{
    reveal_strlit("SimpleString");
    reveal_strlit("SimpleError");
    reveal_strlit("SimpleInteger");
    reveal_strlit("Integer");
    reveal_strlit("BulkString");
    reveal_strlit("Null");
    reveal_strlit("Bool");
    assert(seq![w].drop_last() =~= Seq::<Seq<char>>::empty());
    assert(Seq::<Seq<char>>::empty().flatten_alt() =~= Seq::<char>::empty());
    assert(seq![w].flatten_alt() =~= w);
    let ts = seq!["SimpleString"@, "SimpleError"@, "SimpleInteger"@, "Integer"@, "BulkString"@, "Null"@, "Bool"@];
    assert("SimpleString"@[6] != "SimpleError"@[6]);
    assert("SimpleString"@[6] != "SimpleInteger"@[6]);
    assert("SimpleError"@[6] != "SimpleInteger"@[6]);
    assert("SimpleString"@[0] != "Integer"@[0] && "SimpleString"@[0] != "BulkString"@[0]);
    assert("SimpleString"@[0] != "Null"@[0] && "SimpleString"@[0] != "Bool"@[0]);
    assert("SimpleError"@[0] != "Integer"@[0] && "SimpleError"@[0] != "BulkString"@[0]);
    assert("SimpleError"@[0] != "Null"@[0] && "SimpleError"@[0] != "Bool"@[0]);
    assert("SimpleInteger"@[0] != "BulkString"@[0] && "SimpleInteger"@[0] != "Null"@[0]);
    assert("SimpleInteger"@[0] != "Bool"@[0] && "Integer"@[0] != "BulkString"@[0]);
    assert("Integer"@[0] != "Null"@[0] && "Integer"@[0] != "Bool"@[0]);
    assert("BulkString"@[1] != "Bool"@[1] && "BulkString"@[0] != "Null"@[0]);
    assert("Null"@[0] != "Bool"@[0]);
}

/// Writing a simple string or error and reading it back gives it back: for
/// a word of ASCII bytes that are neither zeros nor line-ending bytes, the
/// written element, announced as an array of one element, reads back as that
/// element.
pub proof fn lemma_simple_line_round_trip(t: u8, s: Seq<u8>)
    requires
        t == 43u8 || t == 45u8,
        forall|k: int| 0 <= k < s.len() ==> 0u8 < #[trigger] s[k] < 128u8 && s[k] != 13u8 && s[k] != 10u8,
    ensures
        redis_frames(seq![42u8, 49u8, 13u8, 10u8, t] + s + seq![13u8, 10u8]) == Some(
            seq![
                ("Array"@, seq![(if t == 43u8 { "SimpleString"@ } else { "SimpleError"@ }, seq![text_of(s)])]),
            ],
        ),
{
    let b = seq![42u8, 49u8, 13u8, 10u8, t] + s + seq![13u8, 10u8];
    let n = s.len() as int;
    assert(b.len() == 7 + n);
    assert forall|k: int| 0 <= k < n implies #[trigger] b[5 + k] == s[k] by {}
    assert(b[0] == 42u8 && b[1] == 49u8 && b[2] == 13u8 && b[3] == 10u8 && b[4] == t);
    assert(b[5 + n] == 13u8 && b[6 + n] == 10u8);
    lemma_run_line_end(b, 1, 2);
    assert(b.subrange(1, 2) =~= seq![49u8]);
    assert(seq![49u8].drop_last() =~= Seq::<u8>::empty());
    assert(crate::resp::digits_value(Seq::<u8>::empty()) == 0);
    assert(seq![49u8].last() == 49u8);
    assert(array_count(b, 1) == Some((1nat, 4int)));
    assert forall|k: int| 5 <= k < 5 + n implies #[trigger] b[k] != 13u8 && b[k] != 10u8 && b[k] != 0u8 by {
        assert(b[5 + (k - 5)] == s[k - 5]);
    }
    lemma_run_word(b, 5, 5 + n, seq![]);
    assert(b.subrange(5, 5 + n) =~= s);
    assert(Seq::<char>::empty() + text_of(s) =~= text_of(s));
    lemma_run_line_end(b, 5, 5 + n);
    let tag = if t == 43u8 { "SimpleString"@ } else { "SimpleError"@ };
    let p = (tag, seq![text_of(s)]);
    assert(b[5] != 0u8);
    assert(element_value(b, 4) == Some(p));
    assert(element_end(b, 4) == b.len());
    assert(scan_frames(b, 4, seq![], seq![], 1) == scan_frames(
        b,
        b.len() as int,
        seq![("Array"@, seq![p])],
        seq![],
        0,
    ));
    assert(scan_frames(b, 0, seq![], seq![], 0) == scan_frames(b, 4, seq![], seq![], 1));
}

} // verus!
