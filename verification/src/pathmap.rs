//! Maps keyed by repository paths, held as entries in increasing path order.

use vstd::prelude::*;
use vstd::utf8::encode_utf8;

use crate::entry::{
    bytes_less, bytes_lt, lemma_bytes_lt_irreflexive, lemma_bytes_lt_total, lemma_bytes_lt_transitive,
};

verus! {

/// The order of paths: lexicographic on their UTF-8 bytes, which is how `str` compares.
pub open spec fn path_lt(a: Seq<char>, b: Seq<char>) -> bool {
    bytes_lt(encode_utf8(a), encode_utf8(b))
}

/// `s` is in strictly increasing path order (so no path occurs twice).
pub open spec fn strictly_sorted(s: Seq<Seq<char>>) -> bool {
    forall|i: int, j: int| 0 <= i < j < s.len() ==> path_lt(#[trigger] s[i], #[trigger] s[j])
}

/// No path comes before itself.
pub proof fn lemma_path_lt_irreflexive(a: Seq<char>)
    ensures
        !path_lt(a, a),
{
    lemma_bytes_lt_irreflexive(encode_utf8(a));
}

/// Two different paths are ordered one way, and never both ways.
pub proof fn lemma_path_lt_total(a: Seq<char>, b: Seq<char>)
    ensures
        a != b ==> path_lt(a, b) || path_lt(b, a),
        !(path_lt(a, b) && path_lt(b, a)),
{
    lemma_bytes_lt_total(encode_utf8(a), encode_utf8(b));
    if encode_utf8(a) == encode_utf8(b) {
        vstd::utf8::encode_utf8_decode_utf8(a);
        vstd::utf8::encode_utf8_decode_utf8(b);
    }
}

/// The path order is transitive.
pub proof fn lemma_path_lt_transitive(a: Seq<char>, b: Seq<char>, c: Seq<char>)
    requires
        path_lt(a, b),
        path_lt(b, c),
    ensures
        path_lt(a, c),
{
    lemma_bytes_lt_transitive(encode_utf8(a), encode_utf8(b), encode_utf8(c));
}

/// Whether path `a` comes before path `b`.
pub fn path_less(a: &str, b: &str) -> (r: bool)
    ensures
        r == path_lt(a@, b@),
{
    bytes_less(a.as_bytes(), b.as_bytes())
}

/// A map from paths to values. Its entries are kept in increasing path order, so each
/// path occurs once and a lookup is a binary search.
pub struct PathMap<V> {
    entries: Vec<(String, V)>,
}

/// The paths of `entries`, in order.
pub open spec fn entry_keys<V>(entries: Seq<(String, V)>) -> Seq<Seq<char>> {
    entries.map_values(|e: (String, V)| e.0@)
}

/// The values of `entries`, in order.
pub open spec fn entry_values<V>(entries: Seq<(String, V)>) -> Seq<V> {
    entries.map_values(|e: (String, V)| e.1)
}

/// The map that the entries `entries` stand for.
pub open spec fn entries_map<V>(entries: Seq<(String, V)>) -> Map<Seq<char>, V> {
    Map::new(
        |k: Seq<char>| entry_keys(entries).contains(k),
        |k: Seq<char>| entry_values(entries)[entry_keys(entries).index_of(k)],
    )
}

impl<V> PathMap<V> {
    /// The paths of the map, in increasing order.
    pub closed spec fn key_seq(self) -> Seq<Seq<char>> {
        entry_keys(self.entries@)
    }

    /// The values of the map, in the order of their paths.
    pub closed spec fn value_seq(self) -> Seq<V> {
        entry_values(self.entries@)
    }

    #[verifier::type_invariant]
    closed spec fn inv(self) -> bool {
        strictly_sorted(entry_keys(self.entries@))
    }
}

impl<V> View for PathMap<V> {
    type V = Map<Seq<char>, V>;

    closed spec fn view(&self) -> Map<Seq<char>, V> {
        entries_map(self.entries@)
    }
}

/// In sorted entries, the entry at `i` is what the map holds for its path.
proof fn lemma_entries_map_at<V>(entries: Seq<(String, V)>, i: int)
    requires
        strictly_sorted(entry_keys(entries)),
        0 <= i < entries.len(),
    ensures
        entries_map(entries).contains_key(entries[i].0@),
        entries_map(entries)[entries[i].0@] == entries[i].1,
{
    let keys = entry_keys(entries);
    let k = entries[i].0@;
    assert(keys[i] == k);
    assert(keys.contains(k));
    let j = keys.index_of(k);
    assert(0 <= j < keys.len() && keys[j] == k);
    if j != i {
        lemma_path_lt_irreflexive(k);
        if j < i {
            assert(path_lt(keys[j], keys[i]));
        } else {
            assert(path_lt(keys[i], keys[j]));
        }
    }
}

/// The map of sorted entries holds exactly the paths of the entries.
proof fn lemma_entries_map_keys<V>(entries: Seq<(String, V)>)
    requires
        strictly_sorted(entry_keys(entries)),
    ensures
        forall|i: int|
            0 <= i < entries.len() ==> #[trigger] entries_map(entries).contains_key(entries[i].0@)
                && entries_map(entries)[entries[i].0@] == entries[i].1,
        forall|k: Seq<char>|
            #[trigger] entries_map(entries).contains_key(k) ==> exists|i: int|
                0 <= i < entries.len() && entries[i].0@ == k,
{
    assert forall|i: int| 0 <= i < entries.len() implies #[trigger] entries_map(entries).contains_key(
        entries[i].0@,
    ) && entries_map(entries)[entries[i].0@] == entries[i].1 by {
        lemma_entries_map_at(entries, i);
    }
    assert forall|k: Seq<char>| #[trigger] entries_map(entries).contains_key(k) implies exists|i: int|
        0 <= i < entries.len() && entries[i].0@ == k by {
        let i = entry_keys(entries).index_of(k);
        assert(entry_keys(entries)[i] == k);
    }
}

/// Binary search of `k` in sorted entries: its index, or where it would be inserted.
fn search_entries<V>(entries: &Vec<(String, V)>, k: &str) -> (r: Result<usize, usize>)
    requires
        strictly_sorted(entry_keys(entries@)),
    ensures
        match r {
            Ok(i) => i < entries@.len() && entries@[i as int].0@ == k@,
            Err(i) => i <= entries@.len() && (forall|j: int|
                0 <= j < i ==> path_lt(#[trigger] entries@[j].0@, k@)) && (forall|j: int|
                i <= j < entries@.len() ==> path_lt(k@, #[trigger] entries@[j].0@)),
        },
{
    let ghost keys = entry_keys(entries@);
    let mut lo: usize = 0;
    let mut hi: usize = entries.len();
    while lo < hi
        invariant
            0 <= lo <= hi <= entries@.len(),
            keys == entry_keys(entries@),
            strictly_sorted(keys),
            forall|j: int| 0 <= j < lo ==> path_lt(#[trigger] entries@[j].0@, k@),
            forall|j: int| hi <= j < entries@.len() ==> path_lt(k@, #[trigger] entries@[j].0@),
        decreases hi - lo,
    {
        let mid = lo + (hi - lo) / 2;
        let mk = entries[mid].0.as_str();
        assert(keys[mid as int] == entries@[mid as int].0@);
        if path_less(mk, k) {
            assert forall|j: int| 0 <= j < mid + 1 implies path_lt(#[trigger] entries@[j].0@, k@) by {
                if j < mid {
                    assert(keys[j] == entries@[j].0@);
                    assert(path_lt(keys[j], keys[mid as int]));
                    lemma_path_lt_transitive(entries@[j].0@, mk@, k@);
                }
            }
            lo = mid + 1;
        } else if path_less(k, mk) {
            assert forall|j: int| mid <= j < entries@.len() implies path_lt(k@, #[trigger] entries@[j].0@) by {
                if j > mid {
                    assert(keys[j] == entries@[j].0@);
                    assert(path_lt(keys[mid as int], keys[j]));
                    lemma_path_lt_transitive(k@, mk@, entries@[j].0@);
                }
            }
            hi = mid;
        } else {
            proof {
                lemma_path_lt_total(mk@, k@);
            }
            return Ok(mid);
        }
    }
    Err(lo)
}

impl<V> PathMap<V> {
    /// An empty map.
    pub fn new() -> (r: PathMap<V>)
        ensures
            r@ == Map::<Seq<char>, V>::empty(),
            r.key_seq().len() == 0,
    {
        let r = PathMap { entries: Vec::new() };
        assert(r@ =~= Map::<Seq<char>, V>::empty());
        r
    }

    /// Number of entries, and how they make up the map: the `i`-th path is held with the
    /// `i`-th value, every held path is one of them, and they are in increasing order.
    pub fn size(&self) -> (r: usize)
        ensures
            r == self.key_seq().len(),
            r == self.value_seq().len(),
            strictly_sorted(self.key_seq()),
            forall|i: int|
                0 <= i < r ==> #[trigger] self@.contains_key(self.key_seq()[i]) && self@[self.key_seq()[i]]
                    == self.value_seq()[i],
            forall|k: Seq<char>|
                #[trigger] self@.contains_key(k) ==> exists|i: int| 0 <= i < r && self.key_seq()[i] == k,
    {
        proof {
            use_type_invariant(self);
            lemma_entries_map_keys(self.entries@);
            assert forall|i: int| 0 <= i < self.entries@.len() implies #[trigger] self@.contains_key(
                self.key_seq()[i],
            ) && self@[self.key_seq()[i]] == self.value_seq()[i] by {
                assert(self.key_seq()[i] == self.entries@[i].0@);
            }
            assert forall|k: Seq<char>| #[trigger] self@.contains_key(k) implies exists|i: int|
                0 <= i < self.entries@.len() && self.key_seq()[i] == k by {
                let i = choose|i: int| 0 <= i < self.entries@.len() && self.entries@[i].0@ == k;
                assert(self.key_seq()[i] == k);
            }
        }
        self.entries.len()
    }

    /// Whether the map is empty.
    pub fn is_empty(&self) -> (r: bool)
        ensures
            r == (self@ == Map::<Seq<char>, V>::empty()),
    {
        proof {
            use_type_invariant(self);
            lemma_entries_map_keys(self.entries@);
            if self.entries@.len() == 0 {
                assert(self@ =~= Map::<Seq<char>, V>::empty());
            } else {
                assert(self@.contains_key(self.entries@[0].0@));
            }
        }
        self.entries.len() == 0
    }

    /// The `i`-th path and its value.
    pub fn entry(&self, i: usize) -> (r: (&String, &V))
        requires
            i < self.key_seq().len(),
        ensures
            r.0@ == self.key_seq()[i as int],
            *r.1 == self.value_seq()[i as int],
            self@.contains_key(r.0@),
            self@[r.0@] == *r.1,
    {
        proof {
            use_type_invariant(self);
            lemma_entries_map_at(self.entries@, i as int);
        }
        let e = &self.entries[i];
        (&e.0, &e.1)
    }

    /// Whether `k` is in the map.
    pub fn contains_key(&self, k: &str) -> (r: bool)
        ensures
            r == self@.contains_key(k@),
    {
        proof {
            use_type_invariant(self);
            lemma_entries_map_keys(self.entries@);
        }
        match search_entries(&self.entries, k) {
            Ok(_) => true,
            Err(i) => {
                proof {
                    if self@.contains_key(k@) {
                        let j = choose|j: int| 0 <= j < self.entries@.len() && self.entries@[j].0@ == k@;
                        lemma_path_lt_irreflexive(k@);
                        if j < i {
                            assert(path_lt(self.entries@[j].0@, k@));
                        } else {
                            assert(path_lt(k@, self.entries@[j].0@));
                        }
                    }
                }
                false
            },
        }
    }

    /// The value held for `k`, if any.
    pub fn get(&self, k: &str) -> (r: Option<&V>)
        ensures
            r matches Some(v) ==> self@.contains_key(k@) && *v == self@[k@],
            r is None ==> !self@.contains_key(k@),
    {
        proof {
            use_type_invariant(self);
            lemma_entries_map_keys(self.entries@);
        }
        match search_entries(&self.entries, k) {
            Ok(i) => Some(&self.entries[i].1),
            Err(i) => {
                proof {
                    if self@.contains_key(k@) {
                        let j = choose|j: int| 0 <= j < self.entries@.len() && self.entries@[j].0@ == k@;
                        lemma_path_lt_irreflexive(k@);
                        if j < i {
                            assert(path_lt(self.entries@[j].0@, k@));
                        } else {
                            assert(path_lt(k@, self.entries@[j].0@));
                        }
                    }
                }
                None
            },
        }
    }

    /// Sets the value of `k` to `v`, replacing any value it had.
    pub fn insert(&mut self, k: String, v: V)
        ensures
            final(self)@ == old(self)@.insert(k@, v),
    {
        proof {
            use_type_invariant(&*self);
        }
        let mut entries: Vec<(String, V)> = Vec::new();
        std::mem::swap(&mut entries, &mut self.entries);
        let ghost old_entries = entries@;
        let ghost kv = k@;
        proof {
            lemma_entries_map_keys(old_entries);
        }
        match search_entries(&entries, k.as_str()) {
            Ok(i) => {
                let _ = entries.remove(i);
                entries.insert(i, (k, v));
                proof {
                    assert(entry_keys(entries@) =~= entry_keys(old_entries));
                    lemma_entries_map_keys(entries@);
                    assert forall|j: int| 0 <= j < entries@.len() && j != i implies entries@[j]
                        == old_entries[j] by {}
                    assert(entries_map(entries@) =~= entries_map(old_entries).insert(kv, v)) by {
                        assert forall|key: Seq<char>| #[trigger] entries_map(entries@).contains_key(key)
                            == entries_map(old_entries).insert(kv, v).contains_key(key) by {
                            if entries_map(old_entries).contains_key(key) {
                                let j = choose|j: int| 0 <= j < old_entries.len() && old_entries[j].0@ == key;
                                assert(entries@[j].0@ == key);
                            }
                            if entries_map(entries@).contains_key(key) {
                                let j = choose|j: int| 0 <= j < entries@.len() && entries@[j].0@ == key;
                                assert(old_entries[j].0@ == key);
                            }
                        }
                        assert forall|key: Seq<char>| #[trigger] entries_map(entries@).contains_key(key)
                            implies entries_map(entries@)[key] == entries_map(old_entries).insert(kv, v)[key] by {
                            let j = choose|j: int| 0 <= j < entries@.len() && entries@[j].0@ == key;
                            if j != i {
                                assert(old_entries[j].0@ == key);
                                assert(key != kv) by {
                                    lemma_path_lt_irreflexive(key);
                                    if j < i {
                                        assert(path_lt(entry_keys(old_entries)[j], entry_keys(old_entries)[i as int]));
                                    } else {
                                        assert(path_lt(entry_keys(old_entries)[i as int], entry_keys(old_entries)[j]));
                                    }
                                }
                            }
                        }
                    }
                }
                self.entries = entries;
            },
            Err(i) => {
                entries.insert(i, (k, v));
                proof {
                    let keys = entry_keys(entries@);
                    assert forall|a: int, b: int| 0 <= a < b < keys.len() implies path_lt(
                        #[trigger] keys[a],
                        #[trigger] keys[b],
                    ) by {
                        let ok = entry_keys(old_entries);
                        if b < i {
                            assert(keys[a] == ok[a] && keys[b] == ok[b]);
                        } else if a > i {
                            assert(keys[a] == ok[a - 1] && keys[b] == ok[b - 1]);
                        } else if a == i {
                            assert(keys[b] == old_entries[b - 1].0@);
                        } else if b == i {
                            assert(keys[a] == old_entries[a].0@);
                        } else {
                            assert(keys[a] == old_entries[a].0@);
                            assert(keys[b] == old_entries[b - 1].0@);
                            lemma_path_lt_transitive(keys[a], kv, keys[b]);
                        }
                    }
                    lemma_entries_map_keys(entries@);
                    assert(entries_map(entries@) =~= entries_map(old_entries).insert(kv, v)) by {
                        assert forall|key: Seq<char>| #[trigger] entries_map(entries@).contains_key(key)
                            == entries_map(old_entries).insert(kv, v).contains_key(key) by {
                            if entries_map(old_entries).contains_key(key) {
                                let j = choose|j: int| 0 <= j < old_entries.len() && old_entries[j].0@ == key;
                                if j < i {
                                    assert(entries@[j].0@ == key);
                                } else {
                                    assert(entries@[j + 1].0@ == key);
                                }
                            }
                            if key == kv {
                                assert(entries@[i as int].0@ == key);
                            }
                            if entries_map(entries@).contains_key(key) {
                                let j = choose|j: int| 0 <= j < entries@.len() && entries@[j].0@ == key;
                                if j < i {
                                    assert(old_entries[j].0@ == key);
                                } else if j > i {
                                    assert(old_entries[j - 1].0@ == key);
                                }
                            }
                        }
                        assert forall|key: Seq<char>| #[trigger] entries_map(entries@).contains_key(key)
                            implies entries_map(entries@)[key] == entries_map(old_entries).insert(kv, v)[key] by {
                            let j = choose|j: int| 0 <= j < entries@.len() && entries@[j].0@ == key;
                            if j < i {
                                assert(old_entries[j].0@ == key);
                                assert(key != kv) by {
                                    lemma_path_lt_irreflexive(key);
                                }
                            } else if j > i {
                                assert(old_entries[j - 1].0@ == key);
                                assert(key != kv) by {
                                    lemma_path_lt_irreflexive(key);
                                }
                            }
                        }
                    }
                }
                self.entries = entries;
            },
        }
    }

    /// Removes `k` from the map, if it is there.
    pub fn remove(&mut self, k: &str)
        ensures
            final(self)@ == old(self)@.remove(k@),
    {
        proof {
            use_type_invariant(&*self);
        }
        let mut entries: Vec<(String, V)> = Vec::new();
        std::mem::swap(&mut entries, &mut self.entries);
        let ghost old_entries = entries@;
        proof {
            lemma_entries_map_keys(old_entries);
        }
        match search_entries(&entries, k) {
            Ok(i) => {
                let _ = entries.remove(i);
                proof {
                    let keys = entry_keys(entries@);
                    let ok = entry_keys(old_entries);
                    assert forall|a: int, b: int| 0 <= a < b < keys.len() implies path_lt(
                        #[trigger] keys[a],
                        #[trigger] keys[b],
                    ) by {
                        let a2 = if a < i { a } else { a + 1 };
                        let b2 = if b < i { b } else { b + 1 };
                        assert(keys[a] == ok[a2] && keys[b] == ok[b2]);
                    }
                    lemma_entries_map_keys(entries@);
                    assert(entries_map(entries@) =~= entries_map(old_entries).remove(k@)) by {
                        assert forall|key: Seq<char>| #[trigger] entries_map(entries@).contains_key(key)
                            == entries_map(old_entries).remove(k@).contains_key(key) by {
                            if entries_map(old_entries).contains_key(key) && key != k@ {
                                let j = choose|j: int| 0 <= j < old_entries.len() && old_entries[j].0@ == key;
                                if j < i {
                                    assert(entries@[j].0@ == key);
                                } else {
                                    assert(j != i);
                                    assert(entries@[j - 1].0@ == key);
                                }
                            }
                            if entries_map(entries@).contains_key(key) {
                                let j = choose|j: int| 0 <= j < entries@.len() && entries@[j].0@ == key;
                                let j2 = if j < i { j } else { j + 1 };
                                assert(old_entries[j2].0@ == key);
                                assert(key != k@) by {
                                    lemma_path_lt_irreflexive(key);
                                    if j2 < i {
                                        assert(path_lt(ok[j2], ok[i as int]));
                                    } else {
                                        assert(path_lt(ok[i as int], ok[j2]));
                                    }
                                }
                            }
                        }
                        assert forall|key: Seq<char>| #[trigger] entries_map(entries@).contains_key(key)
                            implies entries_map(entries@)[key] == entries_map(old_entries).remove(k@)[key] by {
                            let j = choose|j: int| 0 <= j < entries@.len() && entries@[j].0@ == key;
                            let j2 = if j < i { j } else { j + 1 };
                            assert(old_entries[j2].0@ == key);
                        }
                    }
                }
                self.entries = entries;
            },
            Err(i) => {
                proof {
                    if entries_map(old_entries).contains_key(k@) {
                        let j = choose|j: int| 0 <= j < old_entries.len() && old_entries[j].0@ == k@;
                        lemma_path_lt_irreflexive(k@);
                        if j < i {
                            assert(path_lt(old_entries[j].0@, k@));
                        } else {
                            assert(path_lt(k@, old_entries[j].0@));
                        }
                    }
                    assert(entries_map(old_entries) =~= entries_map(old_entries).remove(k@));
                }
                self.entries = entries;
            },
        }
    }
}

} // verus!
