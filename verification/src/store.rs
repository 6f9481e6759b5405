//! The key-value store that the commands read and write: each key (a word)
//! holds a list of elements.
use vstd::prelude::*;
use crate::resp::{Pair, SPair};
use crate::json::{json_object_entries, json_object_text, read_json_object, write_json_object};

verus! {

/// The mathematical value of a stored entry: its key and its elements.
pub type SEntry = (Seq<char>, Seq<SPair>);

/// Whether some entry of `s` has the key `k`.
pub open spec fn has_key(s: Seq<SEntry>, k: Seq<char>) -> bool {
    exists|i: int| 0 <= i < s.len() && (#[trigger] s[i]).0 == k
}

/// Whether no two entries of `s` have the same key.
pub open spec fn keys_distinct(s: Seq<SEntry>) -> bool {
    forall|i: int, j: int| 0 <= i < s.len() && 0 <= j < s.len() && i != j ==> (#[trigger] s[i]).0 != (#[trigger] s[j]).0
}

/// The position of an entry of `s` with key `k`.
pub open spec fn key_index(s: Seq<SEntry>, k: Seq<char>) -> int {
    choose|i: int| 0 <= i < s.len() && (#[trigger] s[i]).0 == k
}

/// The map from keys to elements that a list of entries stands for.
pub open spec fn map_of(s: Seq<SEntry>) -> Map<Seq<char>, Seq<SPair>> {
    Map::new(|k: Seq<char>| has_key(s, k), |k: Seq<char>| s[key_index(s, k)].1)
}

/// The map that results from inserting the entries of `es` into `m` in
/// order, a later entry replacing an earlier one with the same key.
pub open spec fn insert_all(m: Map<Seq<char>, Seq<SPair>>, es: Seq<SEntry>) -> Map<Seq<char>, Seq<SPair>>
    decreases es.len(),
{
    if es.len() == 0 {
        m
    } else {
        insert_all(m, es.drop_last()).insert(es.last().0, es.last().1)
    }
}

/// With distinct keys, each entry's key maps to that entry's elements.
proof fn lemma_map_of_index(s: Seq<SEntry>, i: int)
    requires
        keys_distinct(s),
        0 <= i < s.len(),
    ensures
        map_of(s).contains_key(s[i].0),
        map_of(s)[s[i].0] == s[i].1,
{
    assert(has_key(s, s[i].0));
    let j = key_index(s, s[i].0);
    assert(s[j].0 == s[i].0);
}

/// The map of a list of entries has finitely many keys.
proof fn lemma_map_of_dom_finite(s: Seq<SEntry>)
    ensures
        map_of(s).dom().finite(),
{
    let ks = s.map_values(|e: SEntry| e.0);
    let keys = ks.to_set();
    assert(map_of(s).dom() =~= keys) by {
        assert forall|k: Seq<char>| map_of(s).dom().contains(k) implies keys.contains(k) by {
            let i = choose|i: int| 0 <= i < s.len() && (#[trigger] s[i]).0 == k;
            assert(ks[i] == k);
        }
        assert forall|k: Seq<char>| keys.contains(k) implies map_of(s).dom().contains(k) by {
            let i = choose|i: int| 0 <= i < ks.len() && (#[trigger] ks[i]) == k;
            assert(s[i].0 == k);
        }
    }
    vstd::seq_lib::seq_to_set_is_finite(ks);
}

/// Adding an entry with a new key adds that key to the map.
proof fn lemma_map_of_push(s: Seq<SEntry>, e: SEntry)
    requires
        keys_distinct(s),
        !has_key(s, e.0),
    ensures
        keys_distinct(s.push(e)),
        map_of(s.push(e)) == map_of(s).insert(e.0, e.1),
{
    let t = s.push(e);
    assert forall|i: int, j: int|
        0 <= i < t.len() && 0 <= j < t.len() && i != j implies (#[trigger] t[i]).0 != (
    #[trigger] t[j]).0 by {
        if i < s.len() && j < s.len() {
            assert(t[i] == s[i] && t[j] == s[j]);
        } else if i < s.len() {
            assert(t[i] == s[i]);
        } else {
            assert(t[j] == s[j]);
        }
    }
    assert forall|k: Seq<char>| #[trigger] has_key(t, k) == (has_key(s, k) || k == e.0) by {
        if has_key(s, k) {
            let i = choose|i: int| 0 <= i < s.len() && (#[trigger] s[i]).0 == k;
            assert(t[i] == s[i]);
        }
        if k == e.0 {
            assert(t[s.len() as int] == e);
        }
        if has_key(t, k) {
            let i = choose|i: int| 0 <= i < t.len() && (#[trigger] t[i]).0 == k;
            if i < s.len() {
                assert(t[i] == s[i]);
            }
        }
    }
    assert forall|k: Seq<char>| #[trigger] map_of(t).contains_key(k) implies map_of(t)[k] == map_of(
        s,
    ).insert(e.0, e.1)[k] by {
        if k == e.0 {
            lemma_map_of_index(t, s.len() as int);
        } else {
            let i = choose|i: int| 0 <= i < s.len() && (#[trigger] s[i]).0 == k;
            assert(t[i] == s[i]);
            lemma_map_of_index(t, i);
            lemma_map_of_index(s, i);
        }
    }
    assert(map_of(t) =~= map_of(s).insert(e.0, e.1));
}

/// With distinct keys, inserting the entries in order into an empty map
/// gives the map that the entries stand for.
proof fn lemma_insert_all_map_of(s: Seq<SEntry>)
    requires
        keys_distinct(s),
    ensures
        insert_all(Map::empty(), s) == map_of(s),
    decreases s.len(),
{
    if s.len() == 0 {
        assert(map_of(s) =~= Map::<Seq<char>, Seq<SPair>>::empty());
    } else {
        let r = s.drop_last();
        let e = s.last();
        assert(keys_distinct(r)) by {
            assert forall|i: int, j: int|
                0 <= i < r.len() && 0 <= j < r.len() && i != j implies (#[trigger] r[i]).0 != (
            #[trigger] r[j]).0 by {
                assert(r[i] == s[i] && r[j] == s[j]);
            }
        }
        assert(!has_key(r, e.0)) by {
            if has_key(r, e.0) {
                let i = choose|i: int| 0 <= i < r.len() && (#[trigger] r[i]).0 == e.0;
                assert(r[i] == s[i]);
                assert(s[s.len() - 1] == e);
            }
        }
        lemma_insert_all_map_of(r);
        lemma_map_of_push(r, e);
        assert(r.push(e) =~= s);
    }
}

/// Replacing the elements of an entry replaces them in the map.
proof fn lemma_map_of_update(s: Seq<SEntry>, i: int, v: Seq<SPair>)
    requires
        keys_distinct(s),
        0 <= i < s.len(),
    ensures
        keys_distinct(s.update(i, (s[i].0, v))),
        map_of(s.update(i, (s[i].0, v))) == map_of(s).insert(s[i].0, v),
{
    let k0 = s[i].0;
    let t = s.update(i, (k0, v));
    assert forall|a: int, b: int|
        0 <= a < t.len() && 0 <= b < t.len() && a != b implies (#[trigger] t[a]).0 != (
    #[trigger] t[b]).0 by {
        assert(t[a].0 == s[a].0 && t[b].0 == s[b].0);
    }
    assert forall|k: Seq<char>| #[trigger] has_key(t, k) == has_key(s, k) by {
        if has_key(s, k) {
            let j = choose|j: int| 0 <= j < s.len() && (#[trigger] s[j]).0 == k;
            assert(t[j].0 == s[j].0);
        }
        if has_key(t, k) {
            let j = choose|j: int| 0 <= j < t.len() && (#[trigger] t[j]).0 == k;
            assert(t[j].0 == s[j].0);
        }
    }
    assert forall|k: Seq<char>| #[trigger] map_of(t).contains_key(k) implies map_of(t)[k] == map_of(
        s,
    ).insert(k0, v)[k] by {
        let j = choose|j: int| 0 <= j < s.len() && (#[trigger] s[j]).0 == k;
        assert(t[j].0 == s[j].0);
        lemma_map_of_index(t, j);
        lemma_map_of_index(s, j);
    }
    lemma_map_of_index(s, i);
    assert(map_of(t) =~= map_of(s).insert(k0, v));
}

/// Removing an entry removes its key from the map.
proof fn lemma_map_of_remove(s: Seq<SEntry>, i: int)
    requires
        keys_distinct(s),
        0 <= i < s.len(),
    ensures
        keys_distinct(s.remove(i)),
        map_of(s.remove(i)) == map_of(s).remove(s[i].0),
{
    let k0 = s[i].0;
    let t = s.remove(i);
    assert forall|a: int, b: int|
        0 <= a < t.len() && 0 <= b < t.len() && a != b implies (#[trigger] t[a]).0 != (
    #[trigger] t[b]).0 by {
        let sa = if a < i { a } else { a + 1 };
        let sb = if b < i { b } else { b + 1 };
        assert(t[a] == s[sa] && t[b] == s[sb]);
    }
    assert forall|k: Seq<char>| #[trigger] has_key(t, k) == (has_key(s, k) && k != k0) by {
        if has_key(s, k) && k != k0 {
            let j = choose|j: int| 0 <= j < s.len() && (#[trigger] s[j]).0 == k;
            if j < i {
                assert(t[j] == s[j]);
            } else {
                assert(t[j - 1] == s[j]);
            }
        }
        if has_key(t, k) {
            let j = choose|j: int| 0 <= j < t.len() && (#[trigger] t[j]).0 == k;
            let sj = if j < i { j } else { j + 1 };
            assert(t[j] == s[sj]);
        }
    }
    assert forall|k: Seq<char>| #[trigger] map_of(t).contains_key(k) implies map_of(t)[k] == map_of(
        s,
    ).remove(k0)[k] by {
        let j = choose|j: int| 0 <= j < t.len() && (#[trigger] t[j]).0 == k;
        let sj = if j < i { j } else { j + 1 };
        assert(t[j] == s[sj]);
        lemma_map_of_index(t, j);
        lemma_map_of_index(s, sj);
    }
    assert(map_of(t) =~= map_of(s).remove(k0));
}

/// The key-value store: a list of entries with pairwise distinct keys.
pub struct Store {
    entries: Vec<(String, Vec<Pair>)>,
}

impl View for Store {
    type V = Map<Seq<char>, Seq<SPair>>;

    open spec fn view(&self) -> Map<Seq<char>, Seq<SPair>> {
        map_of(self.listing())
    }
}

/// Why the store could not be written out as JSON text.
pub enum SaveError {
    /// `serde_json` reported an error while writing.
    Encoding,
}

impl Store {
    /// The entries of the store, in the order in which the store keeps them.
    pub closed spec fn listing(&self) -> Seq<SEntry> {
        self.entries.deep_view()
    }

    #[verifier::type_invariant]
    closed spec fn wf(self) -> bool {
        keys_distinct(self.entries.deep_view())
    }

    /// An empty store.
    pub fn new() -> (store: Store)
        ensures
            store@ == Map::<Seq<char>, Seq<SPair>>::empty(),
    {
        let store = Store { entries: Vec::new() };
        assert(store.entries.deep_view() =~= Seq::<SEntry>::empty());
        assert(store@ =~= Map::<Seq<char>, Seq<SPair>>::empty());
        store
    }

    /// The store's keys form a finite set.
    pub proof fn lemma_finite(&self)
        ensures
            self@.dom().finite(),
    {
        lemma_map_of_dom_finite(self.entries.deep_view());
    }

    /// The position of the entry with key `key`, if there is one.
    fn find(&self, key: &String) -> (pos: Option<usize>)
        ensures
            match pos {
                Some(i) => i < self.entries.len() && self.entries.deep_view()[i as int].0 == key@,
                None => !has_key(self.entries.deep_view(), key@),
            },
    {
        let ghost es = self.entries.deep_view();
        let mut i: usize = 0;
        while i < self.entries.len()
            invariant
                es == self.entries.deep_view(),
                i <= self.entries.len(),
                forall|j: int| 0 <= j < i ==> (#[trigger] es[j]).0 != key@,
            decreases self.entries.len() - i,
        {
            assert(es[i as int].0 == self.entries[i as int].0@);
            if self.entries[i].0 == *key {
                return Some(i);
            }
            i = i + 1;
        }
        None
    }

    /// The elements held under `key`, if the store holds the key.
    pub fn get(&self, key: &String) -> (value: Option<&Vec<Pair>>)
        ensures
            match value {
                Some(v) => self@.contains_key(key@) && v.deep_view() == self@[key@],
                None => !self@.contains_key(key@),
            },
    {
        proof {
            use_type_invariant(self);
        }
        match self.find(key) {
            Some(i) => {
                proof {
                    lemma_map_of_index(self.entries.deep_view(), i as int);
                }
                Some(&self.entries[i].1)
            },
            None => None,
        }
    }

    /// Puts `value` under `key`, in place of what the key held before.
    pub fn insert(&mut self, key: String, value: Vec<Pair>)
        ensures
            final(self)@ == old(self)@.insert(key@, value.deep_view()),
    {
        proof {
            use_type_invariant(&*self);
        }
        let ghost es = self.entries.deep_view();
        let ghost kv = key@;
        let ghost vv = value.deep_view();
        match self.find(&key) {
            Some(i) => {
                proof {
                    lemma_map_of_update(es, i as int, vv);
                }
                let mut entries: Vec<(String, Vec<Pair>)> = Vec::new();
                std::mem::swap(&mut entries, &mut self.entries);
                entries.set(i, (key, value));
                assert(entries.deep_view() =~= es.update(i as int, (es[i as int].0, vv)));
                self.entries = entries;
            },
            None => {
                proof {
                    lemma_map_of_push(es, (kv, vv));
                }
                let mut entries: Vec<(String, Vec<Pair>)> = Vec::new();
                std::mem::swap(&mut entries, &mut self.entries);
                entries.push((key, value));
                assert(entries.deep_view() =~= es.push((kv, vv)));
                self.entries = entries;
            },
        }
    }

    /// Removes `key` and what it holds; tells whether the store held it.
    pub fn remove(&mut self, key: &String) -> (removed: bool)
        ensures
            removed == old(self)@.contains_key(key@),
            final(self)@ == old(self)@.remove(key@),
    {
        proof {
            use_type_invariant(&*self);
        }
        let ghost es = self.entries.deep_view();
        match self.find(key) {
            Some(i) => {
                proof {
                    lemma_map_of_remove(es, i as int);
                    lemma_map_of_index(es, i as int);
                }
                let mut entries: Vec<(String, Vec<Pair>)> = Vec::new();
                std::mem::swap(&mut entries, &mut self.entries);
                let _old = entries.remove(i);
                assert(entries.deep_view() =~= es.remove(i as int));
                self.entries = entries;
                true
            },
            None => {
                assert(self@ =~= old(self)@.remove(key@));
                false
            },
        }
    }

    /// The store as JSON text: one object whose members are the keys, each
    /// holding its list of elements, in the store's order. The text reads
    /// back as this store.
    pub fn to_json(&self) -> (res: Result<Vec<u8>, SaveError>)
        ensures
            res is Ok,
            res matches Ok(text) ==> text@ == json_object_text(self.listing()),
            res matches Ok(text) ==> (json_object_entries(text@) matches Some(es) && insert_all(
                Map::empty(),
                es,
            ) == self@),
    {
        proof {
            use_type_invariant(self);
            lemma_insert_all_map_of(self.entries.deep_view());
        }
        match write_json_object(&self.entries) {
            Ok(text) => Ok(text),
            Err(_e) => Err(SaveError::Encoding),
        }
    }

    /// The store that JSON text holds: the members of a JSON object, each a
    /// key and its list of elements; `None` where the text is not such an
    /// object.
    pub fn from_json(text: &Vec<u8>) -> (res: Option<Store>)
        ensures
            match json_object_entries(text@) {
                Some(es) => res matches Some(store) && store@ == insert_all(Map::empty(), es),
                None => res is None,
            },
    {
        let mut store = Store::new();
        match read_json_object(text) {
            Ok(entries) => {
                let ghost es = entries.deep_view();
                let n = entries.len();
                let mut entries = entries;
                let mut rev: Vec<(String, Vec<Pair>)> = Vec::new();
                while entries.len() > 0
                    invariant
                        n == es.len(),
                        entries.len() + rev.len() == n,
                        entries.deep_view() == es.take(entries.len() as int),
                        forall|j: int| 0 <= j < rev.len() ==> #[trigger] rev.deep_view()[j] == es[n - 1 - j],
                    decreases entries.len(),
                {
                    let ghost before = entries.deep_view();
                    let ghost rev0 = rev.deep_view();
                    match entries.pop() {
                        Some(e) => {
                            assert(e.deep_view() == before.last());
                            rev.push(e);
                            assert(rev.deep_view() =~= rev0.push(before.last()));
                            assert(entries.deep_view() =~= es.take(entries.len() as int));
                        },
                        None => {},
                    }
                }
                let mut k: usize = 0;
                assert(es.take(0) =~= Seq::<SEntry>::empty());
                while rev.len() > 0
                    invariant
                        n == es.len(),
                        k + rev.len() == n,
                        forall|j: int| 0 <= j < rev.len() ==> #[trigger] rev.deep_view()[j] == es[n - 1 - j],
                        store@ == insert_all(Map::empty(), es.take(k as int)),
                    decreases rev.len(),
                {
                    let ghost rev0 = rev.deep_view();
                    match rev.pop() {
                        Some(e) => {
                            assert(e.deep_view() == rev0[rev0.len() - 1]);
                            assert(rev0[rev0.len() - 1] == es[n - 1 - (rev0.len() - 1)]);
                            assert(e.deep_view() == es[k as int]);
                            assert(es.take(k + 1).drop_last() =~= es.take(k as int));
                            store.insert(e.0, e.1);
                            k = k + 1;
                            assert forall|j: int| 0 <= j < rev.len() implies #[trigger] rev.deep_view()[j] == es[n - 1 - j] by {
                                assert(rev.deep_view()[j] == rev0[j]);
                            }
                        },
                        None => {},
                    }
                }
                assert(es.take(n as int) =~= es);
                Some(store)
            },
            Err(_e) => None,
        }
    }

    /// A store read from JSON text: the members of the JSON object, or an
    /// empty store where the text is not such an object.
    pub fn load(text: &Vec<u8>) -> (store: Store)
        ensures
            store@ == match json_object_entries(text@) {
                Some(es) => insert_all(Map::empty(), es),
                None => Map::empty(),
            },
    {
        match Store::from_json(text) {
            Some(store) => store,
            None => Store::new(),
        }
    }
}

} // verus!
