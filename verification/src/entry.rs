//! Files tracked by Git, with the date of their last change, and their scheduling order.

use vstd::prelude::*;

use vstd::multiset::Multiset;

use crate::day::Day;

verus! {

broadcast use vstd::seq_lib::group_to_multiset_ensures;

/// File in the Git repository
#[derive(Debug)]
pub struct FileEntry {
    date: Day,
    blob_hash: Vec<u8>,
    path: String,
}

impl FileEntry {
    /// Date of the last modification (commit) of the file.
    pub closed spec fn date_of(self) -> Day {
        self.date
    }

    /// Bytes of the object id of the file's blob.
    pub closed spec fn hash_of(self) -> Seq<u8> {
        self.blob_hash@
    }

    /// Path of the file relative to the repository root.
    pub closed spec fn path_of(self) -> Seq<char> {
        self.path@
    }

    /// A file entry from its last modification date, blob object id and path.
    pub fn new(date: Day, blob_hash: Vec<u8>, path: String) -> (r: FileEntry)
        ensures
            r.date_of() == date,
            r.hash_of() == blob_hash@,
            r.path_of() == path@,
    {
        FileEntry { date, blob_hash, path }
    }

    /// Returns the date of the last modification (commit) for this file
    pub fn get_date(&self) -> (r: Day)
        ensures
            r == self.date_of(),
    {
        self.date
    }

    /// Returns the path relative to the Git repo root
    pub fn get_path(&self) -> (r: &str)
        ensures
            r@ == self.path_of(),
    {
        self.path.as_str()
    }

    /// Returns the object id of the file's blob, as bytes
    pub fn get_blob_hash(&self) -> (r: &[u8])
        ensures
            r@ == self.hash_of(),
    {
        self.blob_hash.as_slice()
    }
}

/// Lexicographic order on byte strings (a proper prefix comes first).
pub open spec fn bytes_lt(a: Seq<u8>, b: Seq<u8>) -> bool
    decreases a.len(),
{
    if a.len() == 0 {
        b.len() > 0
    } else if b.len() == 0 {
        false
    } else if a[0] != b[0] {
        a[0] < b[0]
    } else {
        bytes_lt(a.drop_first(), b.drop_first())
    }
}

/// The scheduling order: older modification date first, then smaller blob object id.
pub open spec fn key_lt(a: FileEntry, b: FileEntry) -> bool {
    ||| a.date_of()@ < b.date_of()@
    ||| a.date_of()@ == b.date_of()@ && bytes_lt(a.hash_of(), b.hash_of())
}

/// Whether `a` and `b` have the same scheduling key (date and blob object id).
pub open spec fn key_eq(a: FileEntry, b: FileEntry) -> bool {
    a.date_of()@ == b.date_of()@ && a.hash_of() == b.hash_of()
}

/// `s` is ordered by the scheduling order (ties in any order).
pub open spec fn key_sorted(s: Seq<FileEntry>) -> bool {
    forall|i: int, j: int| 0 <= i < j < s.len() ==> !key_lt(#[trigger] s[j], #[trigger] s[i])
}

/// Where a stable insertion puts `e` into `s`: after every element that does not follow it.
pub open spec fn insert_pos(s: Seq<FileEntry>, e: FileEntry) -> int
    decreases s.len(),
{
    if s.len() == 0 {
        0
    } else if key_lt(e, s.last()) {
        insert_pos(s.drop_last(), e)
    } else {
        s.len() as int
    }
}

/// The stable sort of `s` by the scheduling order: elements with equal keys keep their order.
pub open spec fn sort_entries(s: Seq<FileEntry>) -> Seq<FileEntry>
    decreases s.len(),
{
    if s.len() == 0 {
        s
    } else {
        let t = sort_entries(s.drop_last());
        t.insert(insert_pos(t, s.last()), s.last())
    }
}

pub(crate) proof fn lemma_bytes_lt_irreflexive(a: Seq<u8>)
    ensures
        !bytes_lt(a, a),
    decreases a.len(),
{
    if a.len() > 0 {
        lemma_bytes_lt_irreflexive(a.drop_first());
    }
}

pub(crate) proof fn lemma_bytes_lt_total(a: Seq<u8>, b: Seq<u8>)
    ensures
        a != b ==> bytes_lt(a, b) || bytes_lt(b, a),
        !(bytes_lt(a, b) && bytes_lt(b, a)),
    decreases a.len(),
{
    if a.len() > 0 && b.len() > 0 {
        lemma_bytes_lt_total(a.drop_first(), b.drop_first());
        if a[0] == b[0] && a.drop_first() == b.drop_first() {
            assert(a =~= seq![a[0]] + a.drop_first());
            assert(b =~= seq![b[0]] + b.drop_first());
        }
    } else if a.len() == 0 && b.len() == 0 {
        assert(a =~= b);
    }
}

pub(crate) proof fn lemma_bytes_lt_transitive(a: Seq<u8>, b: Seq<u8>, c: Seq<u8>)
    requires
        bytes_lt(a, b),
        bytes_lt(b, c),
    ensures
        bytes_lt(a, c),
    decreases a.len(),
{
    if a.len() > 0 && b.len() > 0 && c.len() > 0 {
        if a[0] == b[0] && b[0] == c[0] {
            lemma_bytes_lt_transitive(a.drop_first(), b.drop_first(), c.drop_first());
        }
    }
}

/// The scheduling order is a strict weak order.
pub proof fn lemma_key_order()
    ensures
        forall|a: FileEntry| !key_lt(a, a),
        forall|a: FileEntry, b: FileEntry| #[trigger] key_lt(a, b) ==> !key_lt(b, a),
        forall|a: FileEntry, b: FileEntry, c: FileEntry|
            #[trigger] key_lt(a, b) && #[trigger] key_lt(b, c) ==> key_lt(a, c),
        forall|a: FileEntry, b: FileEntry|
            !(#[trigger] key_lt(a, b)) && !key_lt(b, a) <==> key_eq(a, b),
        forall|a: FileEntry, b: FileEntry, c: FileEntry|
            #[trigger] key_lt(a, c) ==> #[trigger] key_lt(a, b) || #[trigger] key_lt(b, c),
{
    assert forall|a: FileEntry| !key_lt(a, a) by {
        lemma_bytes_lt_irreflexive(a.hash_of());
    }
    assert forall|a: FileEntry, b: FileEntry| #[trigger] key_lt(a, b) implies !key_lt(b, a) by {
        lemma_bytes_lt_total(a.hash_of(), b.hash_of());
    }
    assert forall|a: FileEntry, b: FileEntry, c: FileEntry|
        #[trigger] key_lt(a, b) && #[trigger] key_lt(b, c) implies key_lt(a, c) by {
        if a.date_of()@ == b.date_of()@ && b.date_of()@ == c.date_of()@ {
            lemma_bytes_lt_transitive(a.hash_of(), b.hash_of(), c.hash_of());
        }
    }
    assert forall|a: FileEntry, b: FileEntry|
        !(#[trigger] key_lt(a, b)) && !key_lt(b, a) <==> key_eq(a, b) by {
        lemma_bytes_lt_total(a.hash_of(), b.hash_of());
        lemma_bytes_lt_irreflexive(a.hash_of());
    }
    assert forall|a: FileEntry, b: FileEntry, c: FileEntry|
        #[trigger] key_lt(a, c) implies #[trigger] key_lt(a, b) || #[trigger] key_lt(b, c) by {
        lemma_bytes_lt_total(a.hash_of(), b.hash_of());
        if a.date_of()@ == b.date_of()@ && b.date_of()@ == c.date_of()@ && a.hash_of() != b.hash_of()
            && bytes_lt(b.hash_of(), a.hash_of()) {
            lemma_bytes_lt_transitive(b.hash_of(), a.hash_of(), c.hash_of());
        }
    }
}

/// Inserting at `insert_pos` keeps a sorted sequence sorted, and places the element after its equals.
pub(crate) proof fn lemma_insert_pos(s: Seq<FileEntry>, e: FileEntry)
    requires
        key_sorted(s),
    ensures
        0 <= insert_pos(s, e) <= s.len(),
        forall|i: int| 0 <= i < insert_pos(s, e) ==> !key_lt(e, #[trigger] s[i]),
        forall|i: int| insert_pos(s, e) <= i < s.len() ==> key_lt(e, #[trigger] s[i]),
        key_sorted(s.insert(insert_pos(s, e), e)),
    decreases s.len(),
{
    lemma_key_order();
    if s.len() > 0 {
        let p = insert_pos(s, e);
        let last = s.last();
        if key_lt(e, last) {
            let s2 = s.drop_last();
            assert forall|i: int, j: int| 0 <= i < j < s2.len() implies !key_lt(#[trigger] s2[j], #[trigger] s2[i]) by {
                assert(s2[j] == s[j] && s2[i] == s[i]);
            }
            lemma_insert_pos(s2, e);
            assert forall|i: int| 0 <= i < p implies !key_lt(e, #[trigger] s[i]) by {
                assert(s2[i] == s[i]);
            }
            assert forall|i: int| p <= i < s.len() implies key_lt(e, #[trigger] s[i]) by {
                if i < s.len() - 1 {
                    assert(s2[i] == s[i]);
                }
            }
        } else {
            assert forall|i: int| 0 <= i < p implies !key_lt(e, #[trigger] s[i]) by {
                if i < s.len() - 1 {
                    assert(!key_lt(s[s.len() - 1], s[i]));
                    if key_lt(e, s[i]) {
                        assert(key_lt(e, last) || key_lt(last, s[i]));
                    }
                }
            }
        }
    }
    let p = insert_pos(s, e);
    let t = s.insert(p, e);
    s.insert_ensures(p, e);
    assert forall|i: int, j: int| 0 <= i < j < t.len() implies !key_lt(#[trigger] t[j], #[trigger] t[i]) by {
        if j < p {
            assert(t[i] == s[i] && t[j] == s[j]);
        } else if j == p {
            assert(t[i] == s[i]);
        } else if i < p {
            assert(t[i] == s[i] && t[j] == s[j - 1]);
        } else if i == p {
            assert(t[j] == s[j - 1]);
            assert(key_lt(e, s[j - 1]));
        } else {
            assert(t[j] == s[j - 1] && t[i] == s[i - 1]);
        }
    }
}

/// The stable sort is sorted and is a permutation of its input.
pub proof fn lemma_sort_entries(s: Seq<FileEntry>)
    ensures
        key_sorted(sort_entries(s)),
        sort_entries(s).to_multiset() =~= s.to_multiset(),
        sort_entries(s).len() == s.len(),
    decreases s.len(),
{
    if s.len() > 0 {
        let t = sort_entries(s.drop_last());
        lemma_sort_entries(s.drop_last());
        lemma_insert_pos(t, s.last());
        let p = insert_pos(t, s.last());
        let u = t.insert(p, s.last());
        t.insert_ensures(p, s.last());
        assert(u.remove(p) =~= t);
        assert(s.drop_last().push(s.last()) =~= s);
    }
}

/// No entry occurs twice, and no two entries share a scheduling key (modification date and
/// blob object id).
pub open spec fn distinct_keys(m: Multiset<FileEntry>) -> bool {
    &&& forall|a: FileEntry| #[trigger] m.count(a) <= 1
    &&& forall|a: FileEntry, b: FileEntry|
        #[trigger] m.contains(a) && #[trigger] m.contains(b) && key_eq(a, b) ==> a == b
}

/// An element of a sequence is in its multiset.
proof fn lemma_in_multiset(s: Seq<FileEntry>, i: int)
    requires
        0 <= i < s.len(),
    ensures
        s.to_multiset().contains(s[i]),
        s.to_multiset().count(s[i]) == s.remove(i).to_multiset().count(s[i]) + 1,
{
    broadcast use vstd::multiset::group_multiset_axioms;
    s.to_multiset_ensures();
}

/// An element of a sequence's multiset is in the sequence.
proof fn lemma_from_multiset(s: Seq<FileEntry>, a: FileEntry)
    requires
        s.to_multiset().contains(a),
    ensures
        exists|i: int| 0 <= i < s.len() && s[i] == a,
{
    broadcast use vstd::multiset::group_multiset_axioms;
    if !s.contains(a) {
        lemma_not_in_multiset(s, a);
    }
}

proof fn lemma_not_in_multiset(s: Seq<FileEntry>, a: FileEntry)
    requires
        !s.contains(a),
    ensures
        s.to_multiset().count(a) == 0,
    decreases s.len(),
{
    broadcast use vstd::multiset::group_multiset_axioms;
    if s.len() > 0 {
        let t = s.drop_last();
        assert(t.push(s.last()) =~= s);
        t.to_multiset_ensures();
        assert(!t.contains(a)) by {
            if t.contains(a) {
                let i = choose|i: int| 0 <= i < t.len() && t[i] == a;
                assert(s[i] == a);
            }
        }
        lemma_not_in_multiset(t, a);
    }
}

/// Two sorted arrangements of the same entries with distinct keys are the same sequence.
proof fn lemma_sorted_unique(t1: Seq<FileEntry>, t2: Seq<FileEntry>)
    requires
        key_sorted(t1),
        key_sorted(t2),
        t1.to_multiset() == t2.to_multiset(),
        distinct_keys(t1.to_multiset()),
    ensures
        t1 == t2,
    decreases t1.len(),
{
    broadcast use vstd::multiset::group_multiset_axioms;
    lemma_key_order();
    t1.to_multiset_ensures();
    t2.to_multiset_ensures();
    if t1.len() == 0 {
        assert(t2.len() == 0);
        assert(t1 =~= t2);
    } else {
        assert(t2.len() == t1.len());
        let x = t1[0];
        let y = t2[0];
        lemma_in_multiset(t1, 0);
        lemma_in_multiset(t2, 0);
        lemma_from_multiset(t2, x);
        lemma_from_multiset(t1, y);
        let j = choose|j: int| 0 <= j < t2.len() && t2[j] == x;
        let i = choose|i: int| 0 <= i < t1.len() && t1[i] == y;
        if i > 0 {
            assert(!key_lt(t1[i], t1[0]));
        }
        if j > 0 {
            assert(!key_lt(t2[j], t2[0]));
        }
        assert(!key_lt(y, x) && !key_lt(x, y));
        assert(key_eq(x, y));
        assert(x == y);
        let r1 = t1.remove(0);
        let r2 = t2.remove(0);
        assert(r1 =~= t1.drop_first());
        assert(r2 =~= t2.drop_first());
        assert(r1.to_multiset() =~= r2.to_multiset());
        assert forall|a: int, b: int| 0 <= a < b < r1.len() implies !key_lt(#[trigger] r1[b], #[trigger] r1[a]) by {
            assert(r1[a] == t1[a + 1] && r1[b] == t1[b + 1]);
        }
        assert forall|a: int, b: int| 0 <= a < b < r2.len() implies !key_lt(#[trigger] r2[b], #[trigger] r2[a]) by {
            assert(r2[a] == t2[a + 1] && r2[b] == t2[b + 1]);
        }
        let m1 = r1.to_multiset();
        assert(distinct_keys(m1)) by {
            assert forall|a: FileEntry| #[trigger] m1.count(a) <= 1 by {
                assert(m1.count(a) <= t1.to_multiset().count(a));
            }
            assert forall|a: FileEntry, b: FileEntry|
                #[trigger] m1.contains(a) && #[trigger] m1.contains(b) && key_eq(a, b) implies a == b by {
                assert(t1.to_multiset().contains(a) && t1.to_multiset().contains(b));
            }
        }
        lemma_sorted_unique(r1, r2);
        assert(t1 =~= t2) by {
            assert forall|k: int| 0 <= k < t1.len() implies t1[k] == t2[k] by {
                if k > 0 {
                    assert(t1[k] == r1[k - 1] && t2[k] == r2[k - 1]);
                }
            }
        }
    }
}

/// The scheduling order does not depend on the order of the input: entries with distinct
/// keys sort the same way whatever order they come in.
pub proof fn law_sort_ignores_input_order(s1: Seq<FileEntry>, s2: Seq<FileEntry>)
    requires
        s1.to_multiset() == s2.to_multiset(),
        distinct_keys(s1.to_multiset()),
    ensures
        sort_entries(s1) == sort_entries(s2),
{
    lemma_sort_entries(s1);
    lemma_sort_entries(s2);
    lemma_sorted_unique(sort_entries(s1), sort_entries(s2));
}

/// Whether `a` precedes `b` in lexicographic byte order.
pub fn bytes_less(a: &[u8], b: &[u8]) -> (r: bool)
    ensures
        r == bytes_lt(a@, b@),
{
    let mut i: usize = 0;
    assert(a@.skip(0) =~= a@ && b@.skip(0) =~= b@);
    while i < a.len() && i < b.len()
        invariant
            0 <= i <= a@.len(),
            i <= b@.len(),
            bytes_lt(a@, b@) == bytes_lt(a@.skip(i as int), b@.skip(i as int)),
        decreases a@.len() - i,
    {
        if a[i] != b[i] {
            return a[i] < b[i];
        }
        assert(a@.skip(i as int).drop_first() =~= a@.skip(i + 1));
        assert(b@.skip(i as int).drop_first() =~= b@.skip(i + 1));
        i += 1;
    }
    i < b.len()
}

/// Whether `a` comes strictly before `b` in the scheduling order.
pub fn key_less(a: &FileEntry, b: &FileEntry) -> (r: bool)
    ensures
        r == key_lt(*a, *b),
{
    let da = a.date.epoch_day();
    let db = b.date.epoch_day();
    if da != db {
        da < db
    } else {
        bytes_less(a.blob_hash.as_slice(), b.blob_hash.as_slice())
    }
}

/// Sorts entries by (date, blob object id), keeping the input order between equal keys.
pub fn sort_by_key(entries: Vec<FileEntry>) -> (r: Vec<FileEntry>)
    ensures
        r@ == sort_entries(entries@),
        key_sorted(r@),
        r@.to_multiset() =~= entries@.to_multiset(),
{
    let ghost input = entries@;
    let mut entries = entries;
    let mut sorted: Vec<FileEntry> = Vec::new();
    let n = entries.len();
    let mut taken: usize = 0;
    while taken < n
        invariant
            taken <= n == input.len(),
            entries@ == input.skip(taken as int),
            sorted@ == sort_entries(input.take(taken as int)),
        decreases n - taken,
    {
        let e = entries.remove(0);
        proof {
            lemma_sort_entries(input.take(taken as int));
            assert(input.take(taken + 1).drop_last() =~= input.take(taken as int));
            assert(entries@ =~= input.skip(taken + 1));
        }
        let ghost t = sorted@;
        let mut j = sorted.len();
        assert(t.take(j as int) =~= t);
        assert(e == input[taken as int]);
        while j > 0 && key_less(&e, &sorted[j - 1])
            invariant
                j <= sorted@.len(),
                sorted@ == t,
                e == input[taken as int],
                insert_pos(t, e) == insert_pos(t.take(j as int), e),
            decreases j,
        {
            assert(t.take(j as int).drop_last() =~= t.take(j - 1));
            j -= 1;
        }
        proof {
            if j > 0 {
                assert(t.take(j as int).last() == t[j - 1]);
            }
        }
        sorted.insert(j, e);
        taken += 1;
    }
    proof {
        lemma_sort_entries(input);
        assert(input.take(n as int) =~= input);
    }
    sorted
}

} // verus!
