//! The commands of the server (PING, SET, GET, DEL, SAVE and the answer to
//! anything else), each computing its reply and its change to the store, and
//! the choice of the command for a received buffer.
use vstd::prelude::*;
use crate::resp::{
    null_element, Pair, SFrame, SPair, array_to_redis, array_to_redis_get, checked_redis_to_array,
    encode_array, encode_pair, inline_frames, inline_redis, null_pair, pair_ok, pair_to_redis,
    read_pair, redis_frames,
};
use crate::store::Store;
use crate::text::{decimal, lower_word, matches_lower, owned, push_decimal, same_text};

verus! {

/// The reply of PING to the elements `arr` of a request (`arr[0]` is the
/// command word): `+PONG` alone, the one argument written back, or the
/// arguments written back as an array.
pub open spec fn ping_reply(arr: Seq<SPair>) -> Seq<char> {
    if arr.len() == 1 {
        "+PONG\r\n"@
    } else if arr.len() == 2 {
        encode_pair(arr[1])
    } else {
        encode_array(arr.subrange(1, arr.len() as int))
    }
}

/// The key named by an element: its first word.
pub open spec fn key_of(p: SPair) -> Seq<char> {
    p.1[0]
}

/// Whether the elements at positions `from` to the end all name a key.
pub open spec fn keys_named(arr: Seq<SPair>, from: int) -> bool {
    forall|k: int| from <= k < arr.len() ==> (#[trigger] arr[k]).1.len() >= 1
}

/// The reply of SET: an error line where the key or the value is missing,
/// always followed by `+OK`.
pub open spec fn set_reply(arr: Seq<SPair>) -> Seq<char> {
    if arr.len() == 0 {
        "-Error (Should not be reachable))\r\n"@ + "+OK\r\n"@
    } else if arr.len() == 1 {
        "-ERROR: No key given\r\n"@ + "+OK\r\n"@
    } else if arr.len() == 2 {
        "-ERROR: Key cannot be NULL\r\n"@ + "+OK\r\n"@
    } else {
        "+OK\r\n"@
    }
}

/// The store after SET: with a key and at least one value, the key holds the
/// values (the elements from position 2 on), in place of what it held.
pub open spec fn set_store(m: Map<Seq<char>, Seq<SPair>>, arr: Seq<SPair>) -> Map<
    Seq<char>,
    Seq<SPair>,
> {
    if arr.len() >= 3 {
        m.insert(key_of(arr[1]), arr.subrange(2, arr.len() as int))
    } else {
        m
    }
}

/// The elements that GET with several keys gathers for the keys named by
/// the elements `ks`, in order: each key's elements, or a null for a key the
/// store does not hold.
pub open spec fn get_gather(m: Map<Seq<char>, Seq<SPair>>, ks: Seq<SPair>) -> Seq<SPair>
    decreases ks.len(),
{
    if ks.len() == 0 {
        seq![]
    } else {
        let k = key_of(ks.last());
        get_gather(m, ks.drop_last()) + if m.contains_key(k) {
            m[k]
        } else {
            seq![null_pair()]
        }
    }
}

/// Whether all elements of `ps` from position `from` on can be written.
pub open spec fn all_ok(ps: Seq<SPair>, from: int) -> bool {
    forall|k: int| from <= k < ps.len() ==> #[trigger] pair_ok(ps[k])
}

/// The reply of GET, or `None` where GET stops with an error (a key element
/// without a word, or held elements that cannot be written). With one key:
/// its single element, its elements as an array, or a null (`_`) when the
/// store does not hold it. With several: the elements gathered for the keys
/// (a null for each key not held), as an array.
pub open spec fn get_reply(m: Map<Seq<char>, Seq<SPair>>, arr: Seq<SPair>) -> Option<Seq<char>> {
    if arr.len() == 0 {
        Some("-Error (Should not be reachable))\r\n"@)
    } else if arr.len() == 1 {
        Some("-ERROR: No key given\r\n"@)
    } else if arr.len() == 2 {
        if arr[1].1.len() == 0 {
            None
        } else if m.contains_key(key_of(arr[1])) {
            let v = m[key_of(arr[1])];
            if v.len() == 1 {
                if pair_ok(v[0]) {
                    Some(encode_pair(v[0]))
                } else {
                    None
                }
            } else if all_ok(v, 0) {
                Some(encode_array(v))
            } else {
                None
            }
        } else {
            Some("_\r\n"@)
        }
    } else {
        let g = get_gather(m, arr.subrange(1, arr.len() as int));
        if keys_named(arr, 1) && all_ok(g, 0) {
            Some(encode_array(g))
        } else {
            None
        }
    }
}

/// The store and the number of keys removed after removing the keys `ks` one
/// after the other from `m`.
pub open spec fn del_keys(m: Map<Seq<char>, Seq<SPair>>, ks: Seq<Seq<char>>) -> (Map<
    Seq<char>,
    Seq<SPair>,
>, nat)
    decreases ks.len(),
{
    if ks.len() == 0 {
        (m, 0)
    } else {
        let (m1, c1) = del_keys(m, ks.drop_last());
        if m1.contains_key(ks.last()) {
            (m1.remove(ks.last()), c1 + 1)
        } else {
            (m1, c1)
        }
    }
}

/// The keys that DEL names: the first words of the elements after the
/// command word.
pub open spec fn del_targets(arr: Seq<SPair>) -> Seq<Seq<char>> {
    if arr.len() >= 2 {
        arr.subrange(1, arr.len() as int).map_values(|p: SPair| key_of(p))
    } else {
        seq![]
    }
}

/// The reply of DEL: an error line where no key is given, then the number
/// of keys removed as an integer.
pub open spec fn del_reply(m: Map<Seq<char>, Seq<SPair>>, arr: Seq<SPair>) -> Seq<char> {
    let count = ":"@ + decimal(del_keys(m, del_targets(arr)).1) + "\r\n"@;
    if arr.len() == 0 {
        "-Error (Should not be reachable))\r\n"@ + count
    } else if arr.len() == 1 {
        "-ERROR: No key given\r\n"@ + count
    } else {
        count
    }
}

/// A copy of a list of words.
fn clone_words(words: &Vec<String>) -> (c: Vec<String>)
    ensures
        c.deep_view() == words.deep_view(),
{
    let mut c: Vec<String> = Vec::new();
    let mut i: usize = 0;
    while i < words.len()
        invariant
            i <= words.len(),
            c.deep_view() == words.deep_view().take(i as int),
        decreases words.len() - i,
    {
        let ghost c0 = c.deep_view();
        let w = words[i].clone();
        assert(w@ == words.deep_view()[i as int]);
        c.push(w);
        assert(c.deep_view() =~= c0.push(words.deep_view()[i as int]));
        assert(c.deep_view() =~= words.deep_view().take(i + 1));
        i = i + 1;
    }
    assert(words.deep_view().take(words.len() as int) =~= words.deep_view());
    c
}

/// A copy of an element.
fn clone_pair(p: &Pair) -> (c: Pair)
    ensures
        c.deep_view() == p.deep_view(),
{
    (p.0.clone(), clone_words(&p.1))
}

/// A copy of the elements of `arr` from position `from` on.
fn clone_from(arr: &Vec<Pair>, from: usize) -> (c: Vec<Pair>)
    requires
        from <= arr.len(),
    ensures
        c.deep_view() == arr.deep_view().subrange(from as int, arr.len() as int),
{
    let mut c: Vec<Pair> = Vec::new();
    let mut i: usize = from;
    assert(c.deep_view() =~= arr.deep_view().subrange(from as int, from as int));
    while i < arr.len()
        invariant
            from <= i <= arr.len(),
            c.deep_view() == arr.deep_view().subrange(from as int, i as int),
        decreases arr.len() - i,
    {
        let ghost c0 = c.deep_view();
        let p = clone_pair(&arr[i]);
        assert(p.deep_view() == arr.deep_view()[i as int]);
        c.push(p);
        assert(c.deep_view() =~= c0.push(arr.deep_view()[i as int]));
        assert(c.deep_view() =~= arr.deep_view().subrange(from as int, i + 1));
        i = i + 1;
    }
    c
}

/// Answers PING: `+PONG` without arguments, the argument written back when
/// there is one, the arguments as an array when there are several.
pub fn command_ping(string_array: &Vec<(String, Vec<String>)>) -> (reply: String)
    requires
        string_array.len() >= 1,
        all_ok(string_array.deep_view(), 1),
    ensures
        reply@ == ping_reply(string_array.deep_view()),
{
    let ghost arr = string_array.deep_view();
    let n = string_array.len();
    if n == 1 {
        owned("+PONG\r\n")
    } else if n == 2 {
        assert(pair_ok(arr[1]));
        pair_to_redis(clone_pair(&string_array[1]))
    } else {
        array_to_redis(string_array, n)
    }
}

/// Answers SET: with a key and values, the key holds the values (the
/// elements after the key) in place of what it held; the reply is `+OK`,
/// after an error line where the key or the value is missing.
pub fn command_set(weird_array: &Vec<(String, Vec<String>)>, store: &mut Store) -> (reply: String)
    requires
        weird_array.len() >= 3 ==> weird_array.deep_view()[1].1.len() >= 1,
    ensures
        reply@ == set_reply(weird_array.deep_view()),
        final(store)@ == set_store(old(store)@, weird_array.deep_view()),
{
    let ghost arr = weird_array.deep_view();
    let n = weird_array.len();
    let mut reply = String::new();
    if n == 0 {
        reply.append("-Error (Should not be reachable))\r\n");
    } else if n == 1 {
        reply.append("-ERROR: No key given\r\n");
    } else if n == 2 {
        reply.append("-ERROR: Key cannot be NULL\r\n");
    } else {
        let key = weird_array[1].1[0].clone();
        assert(key@ == key_of(arr[1]));
        let value = clone_from(weird_array, 2);
        store.insert(key, value);
    }
    reply.append("+OK\r\n");
    assert(reply@ =~= set_reply(arr));
    reply
}

/// Whether an element can be written by `pair_to_redis`.
pub fn pair_is_ok(p: &Pair) -> (ok: bool)
    ensures
        ok == pair_ok(p.deep_view()),
{
    if same_text(&p.0, "BulkString") {
        p.1.len() >= 1
    } else {
        same_text(&p.0, "SimpleString") || same_text(&p.0, "SimpleError") || same_text(
            &p.0,
            "SimpleInteger",
        ) || same_text(&p.0, "Integer") || same_text(&p.0, "Null") || same_text(&p.0, "Bool")
    }
}

/// Whether all elements of `ps` from position `from` on can be written.
fn pairs_are_ok(ps: &Vec<Pair>, from: usize) -> (ok: bool)
    ensures
        ok == all_ok(ps.deep_view(), from as int),
{
    let mut i: usize = from;
    while i < ps.len()
        invariant
            from <= i,
            forall|k: int| from <= k < i ==> #[trigger] pair_ok(ps.deep_view()[k]),
        decreases ps.len() - i,
    {
        if !pair_is_ok(&ps[i]) {
            assert(ps.deep_view()[i as int] == ps[i as int].deep_view());
            return false;
        }
        i = i + 1;
    }
    true
}

/// Answers GET as `command_get` does, or gives `None` where `command_get`
/// stops with an error (see `get_reply`).
pub fn checked_command_get(string_array: &Vec<(String, Vec<String>)>, store: &Store) -> (reply:
    Option<String>)
    ensures
        reply.deep_view() == get_reply(store@, string_array.deep_view()),
{
    let ghost arr = string_array.deep_view();
    let ghost m = store@;
    let n = string_array.len();
    if n == 0 {
        Some(owned("-Error (Should not be reachable))\r\n"))
    } else if n == 1 {
        Some(owned("-ERROR: No key given\r\n"))
    } else if n == 2 {
        if string_array[1].1.len() == 0 {
            return None;
        }
        match store.get(&string_array[1].1[0]) {
            Some(valeur) => {
                if valeur.len() == 1 {
                    if pair_is_ok(&valeur[0]) {
                        Some(pair_to_redis(clone_pair(&valeur[0])))
                    } else {
                        None
                    }
                } else {
                    if pairs_are_ok(valeur, 0) {
                        let text = array_to_redis_get(valeur, valeur.len());
                        assert(valeur.deep_view().subrange(0, valeur.len() as int) =~= valeur.deep_view());
                        Some(text)
                    } else {
                        None
                    }
                }
            },
            None => Some(owned("_\r\n")),
        }
    } else {
        let mut vec: Vec<Pair> = Vec::new();
        let ghost ks = arr.subrange(1, n as int);
        let mut i: usize = 1;
        assert(vec.deep_view() =~= get_gather(m, ks.take(0)));
        while i < n
            invariant
                n == arr.len(),
                n >= 3,
                arr == string_array.deep_view(),
                ks == arr.subrange(1, n as int),
                m == store@,
                1 <= i <= n,
                vec.deep_view() == get_gather(m, ks.take(i - 1)),
                forall|q: int| 1 <= q < i ==> (#[trigger] arr[q]).1.len() >= 1,
            decreases n - i,
        {
            assert(arr[i as int] == string_array[i as int].deep_view());
            if string_array[i].1.len() == 0 {
                assert(arr[i as int].1.len() == 0);
                assert(!keys_named(arr, 1));
                return None;
            }
            let ghost before = vec.deep_view();
            assert(ks.take(i as int).drop_last() =~= ks.take(i - 1));
            assert(ks.take(i as int).last() == arr[i as int]);
            match store.get(&string_array[i].1[0]) {
                Some(valeur) => {
                    let mut j: usize = 0;
                    while j < valeur.len()
                        invariant
                            j <= valeur.len(),
                            vec.deep_view() == before + valeur.deep_view().take(j as int),
                        decreases valeur.len() - j,
                    {
                        let ghost v0 = vec.deep_view();
                        let p = clone_pair(&valeur[j]);
                        assert(p.deep_view() == valeur.deep_view()[j as int]);
                        vec.push(p);
                        assert(vec.deep_view() =~= v0.push(valeur.deep_view()[j as int]));
                        assert(vec.deep_view() =~= before + valeur.deep_view().take(j + 1));
                        j = j + 1;
                    }
                    assert(valeur.deep_view().take(valeur.len() as int) =~= valeur.deep_view());
                },
                None => {
                    let p = null_element();
                    vec.push(p);
                    assert(vec.deep_view() =~= before + seq![null_pair()]);
                },
            }
            i = i + 1;
        }
        assert(ks.take(n - 1) =~= ks);
        if pairs_are_ok(&vec, 0) {
            let text = array_to_redis_get(&vec, vec.len());
            assert(vec.deep_view().subrange(0, vec.len() as int) =~= vec.deep_view());
            Some(text)
        } else {
            None
        }
    }
}

/// Answers GET: with one key, its single element, its elements as an array,
/// or a null (`_`) when the store does not hold it; with several keys, the
/// elements held under each key in turn (a null for a key not held), as an
/// array.
pub fn command_get(string_array: &Vec<(String, Vec<String>)>, store: &Store) -> (reply: String)
    requires
        get_reply(store@, string_array.deep_view()) is Some,
    ensures
        get_reply(store@, string_array.deep_view()) == Some(reply@),
{
    match checked_command_get(string_array, store) {
        Some(reply) => reply,
        None => String::new(),
    }
}

/// Answers DEL: removes each key named after the command word and replies
/// with the number of keys removed, after an error line where no key is
/// given.
pub fn command_del(string_array: &Vec<(String, Vec<String>)>, store: &mut Store) -> (reply: String)
    requires
        keys_named(string_array.deep_view(), 1),
    ensures
        reply@ == del_reply(old(store)@, string_array.deep_view()),
        final(store)@ == del_keys(old(store)@, del_targets(string_array.deep_view())).0,
{
    let ghost arr = string_array.deep_view();
    let ghost m0 = store@;
    let ghost ts = del_targets(arr);
    let n = string_array.len();
    let mut elt_enleves: usize = 0;
    let mut reply = String::new();
    if n == 0 {
        reply.append("-Error (Should not be reachable))\r\n");
    } else if n == 1 {
        reply.append("-ERROR: No key given\r\n");
    } else {
        let mut i: usize = 1;
        assert(ts.take(0) =~= Seq::<Seq<char>>::empty());
        while i < n
            invariant
                n == arr.len(),
                n >= 2,
                arr == string_array.deep_view(),
                ts == del_targets(arr),
                keys_named(arr, 1),
                1 <= i <= n,
                elt_enleves < i,
                (store@, elt_enleves as nat) == del_keys(m0, ts.take(i - 1)),
            decreases n - i,
        {
            assert(ts[i - 1] == key_of(arr[i as int]));
            assert(ts.take(i as int).drop_last() =~= ts.take(i - 1));
            assert((arr[i as int]).1.len() >= 1);
            if store.remove(&string_array[i].1[0]) {
                elt_enleves = elt_enleves + 1;
            }
            i = i + 1;
        }
        assert(ts.take(n - 1) =~= ts);
    }
    reply.append(":");
    push_decimal(&mut reply, elt_enleves);
    reply.append("\r\n");
    assert(reply@ =~= del_reply(m0, arr));
    reply
}

/// Answers SAVE once the store has been written out (`saved`) or not.
pub fn command_save(saved: bool) -> (reply: String)
    ensures
        reply@ == if saved {
            "+OK\r\n"@
        } else {
            "-ERROR: couldn't save!\r\n"@
        },
{
    if saved {
        owned("+OK\r\n")
    } else {
        owned("-ERROR: couldn't save!\r\n")
    }
}

/// Answers a command that the server does not handle.
pub fn trash() -> (reply: String)
    ensures
        reply@ == "-ERROR: This command is not handled atm.\r\n"@,
{
    owned("-ERROR: This command is not handled atm.\r\n")
}

/// What the connection does after a request.
pub enum Outcome {
    /// Send this reply.
    Reply(String),
    /// Close the connection (STOP).
    Disconnect,
    /// Write the store out, then answer with `command_save`.
    Save,
    /// The request cannot be served: the connection's handler gives up.
    Fault,
}

/// The mathematical value of an `Outcome`.
pub enum Answer {
    Reply(Seq<char>),
    Disconnect,
    Save,
    Fault,
}

impl View for Outcome {
    type V = Answer;

    open spec fn view(&self) -> Answer {
        match self {
            Outcome::Reply(text) => Answer::Reply(text@),
            Outcome::Disconnect => Answer::Disconnect,
            Outcome::Save => Answer::Save,
            Outcome::Fault => Answer::Fault,
        }
    }
}

/// The frames of a received buffer: read as protocol frames, or, where
/// that gives none, as an inline command. `None` where reading stops with an
/// error.
pub open spec fn request_frames(data: Seq<u8>) -> Option<Seq<SFrame>> {
    match redis_frames(data) {
        Some(fs) => if fs.len() == 0 {
            Some(inline_frames(data))
        } else {
            Some(fs)
        },
        None => None,
    }
}

/// The store and the answer after a request whose elements are `elems`:
/// the command word (the first word of the first element, compared without
/// regard to the case of ASCII letters) chooses the command, which is given
/// the elements.
pub open spec fn dispatch(m: Map<Seq<char>, Seq<SPair>>, elems: Seq<SPair>) -> (Map<
    Seq<char>,
    Seq<SPair>,
>, Answer) {
    let w = lower_word(key_of(elems[0]));
    if w == "ping"@ {
        (m, Answer::Reply(ping_reply(elems)))
    } else if w == "stop"@ {
        (m, Answer::Disconnect)
    } else if w == "set"@ {
        (set_store(m, elems), Answer::Reply(set_reply(elems)))
    } else if w == "get"@ {
        match get_reply(m, elems) {
            Some(r) => (m, Answer::Reply(r)),
            None => (m, Answer::Fault),
        }
    } else if w == "del"@ {
        (del_keys(m, del_targets(elems)).0, Answer::Reply(del_reply(m, elems)))
    } else if w == "save"@ {
        (m, Answer::Save)
    } else {
        (m, Answer::Reply("-ERROR: This command is not handled atm.\r\n"@))
    }
}

/// The store and the answer after a received buffer: the elements of its
/// first frame are dispatched; a buffer that cannot be read gives a fault.
pub open spec fn serve(m: Map<Seq<char>, Seq<SPair>>, data: Seq<u8>) -> (Map<
    Seq<char>,
    Seq<SPair>,
>, Answer) {
    match request_frames(data) {
        None => (m, Answer::Fault),
        Some(fs) => dispatch(m, fs[0].1),
    }
}

/// Serves one received buffer: reads its frames (as protocol frames, or as
/// an inline command when there are none), chooses the command by its word
/// without regard to the case of ASCII letters, and runs it on the store.
/// STOP asks to close the connection and SAVE to write the store out; a
/// buffer that cannot be read, or a GET that cannot be answered, gives
/// `Outcome::Fault`.
///
/// The words read from a buffer are made of characters below 256, for which
/// comparing ASCII-lower-cased words with the lower-case command names gives
/// the same result as comparing fully lower-cased words.
pub fn handle_request(store: &mut Store, data: &Vec<u8>) -> (outcome: Outcome)
    ensures
        (final(store)@, outcome@) == serve(old(store)@, data@),
{
    let frames = match checked_redis_to_array(data) {
        Some(frames) => frames,
        None => {
            return Outcome::Fault;
        },
    };
    let ghost parsed = frames.deep_view();
    proof {
        crate::resp::lemma_redis_frames_read(data@);
    }
    let frames = if frames.len() == 0 {
        inline_redis(data)
    } else {
        frames
    };
    let ghost fs = frames.deep_view();
    assert(request_frames(data@) == Some(fs));
    assert(fs.len() > 0);
    assert(fs.len() == frames.len());
    assert(crate::resp::read_frame(fs[0]));
    let elements: &Vec<Pair> = &frames[0].1;
    let ghost elems = elements.deep_view();
    assert(elems == fs[0].1);
    assert(read_pair(elems[0]));
    assert(elems[0] == elements[0].deep_view());
    let word: &String = &elements[0].1[0];
    assert(word@ == key_of(elems[0]));
    assert forall|k: int| 1 <= k < elems.len() implies #[trigger] pair_ok(elems[k]) by {
        assert(read_pair(elems[k]));
    }
    assert forall|k: int| 1 <= k < elems.len() implies (#[trigger] elems[k]).1.len() >= 1 by {
        assert(read_pair(elems[k]));
    }
    if matches_lower(word, "ping") {
        Outcome::Reply(command_ping(elements))
    } else if matches_lower(word, "stop") {
        Outcome::Disconnect
    } else if matches_lower(word, "set") {
        Outcome::Reply(command_set(elements, store))
    } else if matches_lower(word, "get") {
        match checked_command_get(elements, store) {
            Some(reply) => Outcome::Reply(reply),
            None => Outcome::Fault,
        }
    } else if matches_lower(word, "del") {
        Outcome::Reply(command_del(elements, store))
    } else if matches_lower(word, "save") {
        Outcome::Save
    } else {
        Outcome::Reply(trash())
    }
}

} // verus!
