//! Cycle schedule computation.

use vstd::prelude::*;
use vstd::multiset::Multiset;

use crate::day::{in_day_range, Day, MAX_DAY};
use crate::entry::{distinct_keys, insert_pos, key_lt, key_sorted, sort_by_key, sort_entries, FileEntry};
use crate::params::ScheduleParams;

verus! {

broadcast use vstd::seq_lib::group_to_multiset_ensures;

/// The files scheduled for one date.
#[derive(Debug)]
pub struct ScheduledChunk {
    /// The scheduled date.
    pub date: Day,
    /// The files to edit on that date, in scheduling order.
    pub files: Vec<FileEntry>,
}

/// The schedule could not be computed: a date fell outside the supported range.
#[derive(Debug, PartialEq, Eq)]
pub struct ScheduleOverflow;

/// `ceil(a / b)` for `b > 0`.
pub open spec fn ceil_div(a: int, b: int) -> int {
    (a + b - 1) / b
}

/// A schedule's chunks are in increasing date order, on supported dates, and none is empty.
pub open spec fn chunks_wf(v: Seq<ScheduledChunk>) -> bool {
    &&& forall|i: int, j: int| 0 <= i < j < v.len() ==> (#[trigger] v[i]).date@ < (#[trigger] v[j]).date@
    &&& forall|i: int| 0 <= i < v.len() ==> in_day_range((#[trigger] v[i]).date@)
    &&& forall|i: int| 0 <= i < v.len() ==> (#[trigger] v[i]).files@.len() > 0
}

/// Whether some chunk of `v` is on day `d`.
pub open spec fn has_day(v: Seq<ScheduledChunk>, d: int) -> bool {
    exists|i: int| 0 <= i < v.len() && (#[trigger] v[i]).date@ == d
}

/// The schedule as a map from dates to the files scheduled on them.
pub open spec fn chunk_map(v: Seq<ScheduledChunk>) -> Map<int, Seq<FileEntry>> {
    Map::new(
        |d: int| has_day(v, d),
        |d: int| v[choose|i: int| 0 <= i < v.len() && (#[trigger] v[i]).date@ == d].files@,
    )
}

/// Number of files scheduled on day `d`.
pub open spec fn count_at(m: Map<int, Seq<FileEntry>>, d: int) -> int {
    if m.contains_key(d) {
        m[d].len() as int
    } else {
        0
    }
}

/// `m` with `e` appended to the files of day `d`.
pub open spec fn add_to(m: Map<int, Seq<FileEntry>>, d: int, e: FileEntry) -> Map<int, Seq<FileEntry>> {
    m.insert(d, if m.contains_key(d) { m[d].push(e) } else { seq![e] })
}

/// Days from `today` until `e` is due again (its last change plus a cycle); zero when overdue.
pub open spec fn days_ahead(e: FileEntry, today: int, cycle: int) -> int {
    let diff = e.date_of()@ + cycle - today;
    if diff >= 0 {
        diff
    } else {
        0
    }
}

/// The first grid step `k` at or after `k` (and below `limit`) whose date
/// `today + k * chunk` has fewer than `max` files, or `limit` when there is none.
pub open spec fn first_free(
    m: Map<int, Seq<FileEntry>>,
    today: int,
    chunk: int,
    max: int,
    k: int,
    limit: int,
) -> int
    decreases limit - k,
{
    if k >= limit || count_at(m, today + k * chunk) < max {
        k
    } else {
        first_free(m, today, chunk, max, k + 1, limit)
    }
}

/// Grid steps past this one are beyond the supported dates.
pub open spec fn step_limit(today: int) -> int {
    MAX_DAY - today + 1
}

/// Places `e` on the first grid date `today + k * chunk`, at or after the day it is due,
/// that holds fewer than `max` files; `None` when a date leaves the supported range.
pub open spec fn place(
    m: Map<int, Seq<FileEntry>>,
    e: FileEntry,
    today: int,
    cycle: int,
    chunk: int,
    max: int,
) -> Option<Map<int, Seq<FileEntry>>> {
    if !in_day_range(e.date_of()@ + cycle) {
        None
    } else {
        let k = first_free(m, today, chunk, max, ceil_div(days_ahead(e, today, cycle), chunk), step_limit(today));
        let d = today + k * chunk;
        if d > MAX_DAY {
            None
        } else {
            Some(add_to(m, d, e))
        }
    }
}

/// Places the entries of `es` one after the other (forward fill).
pub open spec fn fill(
    m: Map<int, Seq<FileEntry>>,
    es: Seq<FileEntry>,
    today: int,
    cycle: int,
    chunk: int,
    max: int,
) -> Option<Map<int, Seq<FileEntry>>>
    decreases es.len(),
{
    if es.len() == 0 {
        Some(m)
    } else {
        match place(m, es[0], today, cycle, chunk, max) {
            None => None,
            Some(m2) => fill(m2, es.drop_first(), today, cycle, chunk, max),
        }
    }
}

// ------------------------------------------------------------------------------------------
// The schedule as a sorted vector of chunks: lookups and updates.

pub(crate) proof fn lemma_chunk_map_at(v: Seq<ScheduledChunk>, i: int)
    requires
        chunks_wf(v),
        0 <= i < v.len(),
    ensures
        chunk_map(v).contains_key(v[i].date@),
        chunk_map(v)[v[i].date@] == v[i].files@,
{
    let d = v[i].date@;
    assert(has_day(v, d));
    let j = choose|j: int| 0 <= j < v.len() && (#[trigger] v[j]).date@ == d;
    if j < i {
        assert(v[j].date@ < v[i].date@);
    } else if j > i {
        assert(v[i].date@ < v[j].date@);
    }
}

proof fn lemma_chunk_map_absent(v: Seq<ScheduledChunk>, d: int)
    requires
        forall|i: int| 0 <= i < v.len() ==> (#[trigger] v[i]).date@ != d,
    ensures
        !chunk_map(v).contains_key(d),
{
}

/// Replacing the files of chunk `i` replaces them in the map.
proof fn lemma_chunk_map_update(v: Seq<ScheduledChunk>, i: int, c: ScheduledChunk)
    requires
        chunks_wf(v),
        0 <= i < v.len(),
        c.date@ == v[i].date@,
        c.files@.len() > 0,
    ensures
        chunks_wf(v.update(i, c)),
        chunk_map(v.update(i, c)) =~= chunk_map(v).insert(c.date@, c.files@),
{
    let w = v.update(i, c);
    assert forall|d: int| #[trigger] chunk_map(w).contains_key(d) <==> chunk_map(v).insert(c.date@, c.files@).contains_key(d) by {
        if has_day(w, d) {
            let j = choose|j: int| 0 <= j < w.len() && (#[trigger] w[j]).date@ == d;
            if j != i {
                assert(v[j].date@ == d);
            }
        }
        if has_day(v, d) {
            let j = choose|j: int| 0 <= j < v.len() && (#[trigger] v[j]).date@ == d;
            assert(w[j].date@ == d);
        }
        if d == c.date@ {
            assert(w[i].date@ == d);
        }
    }
    assert forall|d: int| #[trigger] chunk_map(w).contains_key(d) implies chunk_map(w)[d] == chunk_map(v).insert(c.date@, c.files@)[d] by {
        let j = choose|j: int| 0 <= j < w.len() && (#[trigger] w[j]).date@ == d;
        lemma_chunk_map_at(w, j);
        if j != i {
            assert(v[j] == w[j]);
            lemma_chunk_map_at(v, j);
        }
    }
}

/// Inserting a new chunk at its sorted position adds its day to the map.
pub(crate) proof fn lemma_chunk_map_insert(v: Seq<ScheduledChunk>, i: int, c: ScheduledChunk)
    requires
        chunks_wf(v),
        0 <= i <= v.len(),
        forall|j: int| 0 <= j < i ==> (#[trigger] v[j]).date@ < c.date@,
        forall|j: int| i <= j < v.len() ==> c.date@ < (#[trigger] v[j]).date@,
        in_day_range(c.date@),
        c.files@.len() > 0,
    ensures
        chunks_wf(v.insert(i, c)),
        chunk_map(v.insert(i, c)) =~= chunk_map(v).insert(c.date@, c.files@),
{
    let w = v.insert(i, c);
    v.insert_ensures(i, c);
    assert forall|a: int, b: int| 0 <= a < b < w.len() implies (#[trigger] w[a]).date@ < (#[trigger] w[b]).date@ by {
        if b < i {
        } else if b == i {
        } else if a < i {
            assert(w[b] == v[b - 1]);
        } else if a == i {
            assert(w[b] == v[b - 1]);
        } else {
            assert(w[b] == v[b - 1] && w[a] == v[a - 1]);
        }
    }
    assert forall|a: int| 0 <= a < w.len() implies in_day_range((#[trigger] w[a]).date@) && w[a].files@.len() > 0 by {
        if a > i {
            assert(w[a] == v[a - 1]);
        }
    }
    assert forall|d: int| #[trigger] chunk_map(w).contains_key(d) <==> chunk_map(v).insert(c.date@, c.files@).contains_key(d) by {
        if has_day(w, d) {
            let j = choose|j: int| 0 <= j < w.len() && (#[trigger] w[j]).date@ == d;
            if j < i {
                assert(v[j].date@ == d);
            } else if j > i {
                assert(v[j - 1].date@ == d);
            }
        }
        if has_day(v, d) {
            let j = choose|j: int| 0 <= j < v.len() && (#[trigger] v[j]).date@ == d;
            if j < i {
                assert(w[j].date@ == d);
            } else {
                assert(w[j + 1].date@ == d);
            }
        }
        if d == c.date@ {
            assert(w[i].date@ == d);
        }
    }
    assert forall|d: int| #[trigger] chunk_map(w).contains_key(d) implies chunk_map(w)[d] == chunk_map(v).insert(c.date@, c.files@)[d] by {
        let j = choose|j: int| 0 <= j < w.len() && (#[trigger] w[j]).date@ == d;
        lemma_chunk_map_at(w, j);
        if j < i {
            lemma_chunk_map_at(v, j);
        } else if j > i {
            assert(w[j] == v[j - 1]);
            lemma_chunk_map_at(v, j - 1);
        }
    }
}

/// All files of a schedule, as a multiset.
pub open spec fn scheduled_files(v: Seq<ScheduledChunk>) -> Multiset<FileEntry>
    decreases v.len(),
{
    if v.len() == 0 {
        Multiset::empty()
    } else {
        scheduled_files(v.drop_last()).add(v.last().files@.to_multiset())
    }
}

proof fn lemma_scheduled_files_update(v: Seq<ScheduledChunk>, i: int, c: ScheduledChunk)
    requires
        0 <= i < v.len(),
    ensures
        scheduled_files(v.update(i, c)).add(v[i].files@.to_multiset()) =~= scheduled_files(v).add(c.files@.to_multiset()),
    decreases v.len(),
{
    let w = v.update(i, c);
    assert(scheduled_files(w) == scheduled_files(w.drop_last()).add(w.last().files@.to_multiset()));
    assert(scheduled_files(v) == scheduled_files(v.drop_last()).add(v.last().files@.to_multiset()));
    if i == v.len() - 1 {
        assert(w.drop_last() =~= v.drop_last());
        assert(w.last() == c);
    } else {
        assert(w.drop_last() =~= v.drop_last().update(i, c));
        assert(w.last() == v.last());
        lemma_scheduled_files_update(v.drop_last(), i, c);
        assert(v.drop_last()[i] == v[i]);
    }
    let lhs = scheduled_files(w).add(v[i].files@.to_multiset());
    let rhs = scheduled_files(v).add(c.files@.to_multiset());
    assert forall|x: FileEntry| lhs.count(x) == rhs.count(x) by {
        if i != v.len() - 1 {
            assert(scheduled_files(w.drop_last()).add(v[i].files@.to_multiset()).count(x)
                == scheduled_files(v.drop_last()).add(c.files@.to_multiset()).count(x));
        }
    }
}

pub(crate) proof fn lemma_scheduled_files_insert(v: Seq<ScheduledChunk>, i: int, c: ScheduledChunk)
    requires
        0 <= i <= v.len(),
    ensures
        scheduled_files(v.insert(i, c)) =~= scheduled_files(v).add(c.files@.to_multiset()),
    decreases v.len(),
{
    let w = v.insert(i, c);
    v.insert_ensures(i, c);
    if i == v.len() {
        assert(w.drop_last() =~= v);
    } else {
        assert(w.drop_last() =~= v.drop_last().insert(i, c));
        assert(w.last() == v.last());
        lemma_scheduled_files_insert(v.drop_last(), i, c);
    }
}

/// Index of the first chunk on or after day `d` (binary search).
fn lower_bound(v: &Vec<ScheduledChunk>, d: i64) -> (r: usize)
    requires
        chunks_wf(v@),
    ensures
        r <= v@.len(),
        forall|j: int| 0 <= j < r ==> (#[trigger] v@[j]).date@ < d,
        forall|j: int| r <= j < v@.len() ==> d <= (#[trigger] v@[j]).date@,
{
    let mut lo: usize = 0;
    let mut hi: usize = v.len();
    while lo < hi
        invariant
            lo <= hi <= v@.len(),
            chunks_wf(v@),
            forall|j: int| 0 <= j < lo ==> (#[trigger] v@[j]).date@ < d,
            forall|j: int| hi <= j < v@.len() ==> d <= (#[trigger] v@[j]).date@,
        decreases hi - lo,
    {
        let mid = lo + (hi - lo) / 2;
        if (v[mid].date.epoch_day() as i64) < d {
            assert forall|j: int| 0 <= j <= mid implies (#[trigger] v@[j]).date@ < d by {
                if j < mid {
                    assert(v@[j].date@ < v@[mid as int].date@);
                }
            }
            lo = mid + 1;
        } else {
            assert forall|j: int| mid <= j < v@.len() implies d <= (#[trigger] v@[j]).date@ by {
                if j > mid {
                    assert(v@[mid as int].date@ < v@[j].date@);
                }
            }
            hi = mid;
        }
    }
    lo
}

proof fn lemma_first_free_ge(m: Map<int, Seq<FileEntry>>, today: int, chunk: int, max: int, k: int, limit: int)
    ensures
        first_free(m, today, chunk, max, k, limit) >= k,
    decreases limit - k,
{
    if !(k >= limit || count_at(m, today + k * chunk) < max) {
        lemma_first_free_ge(m, today, chunk, max, k + 1, limit);
    }
}

/// Finds whether day `d` has a chunk: its index (or insertion point) and whether it is there.
fn find_day(v: &Vec<ScheduledChunk>, d: i64) -> (r: (usize, bool))
    requires
        chunks_wf(v@),
    ensures
        r.0 <= v@.len(),
        forall|j: int| 0 <= j < r.0 ==> (#[trigger] v@[j]).date@ < d,
        r.1 ==> r.0 < v@.len() && v@[r.0 as int].date@ == d,
        !r.1 ==> forall|j: int| r.0 <= j < v@.len() ==> d < (#[trigger] v@[j]).date@,
        r.1 == chunk_map(v@).contains_key(d as int),
        r.1 ==> chunk_map(v@)[d as int] == v@[r.0 as int].files@,
{
    let i = lower_bound(v, d);
    let found = i < v.len() && (v[i].date.epoch_day() as i64) == d;
    proof {
        if found {
            lemma_chunk_map_at(v@, i as int);
        } else {
            assert forall|j: int| i <= j < v@.len() implies d < (#[trigger] v@[j]).date@ by {
                if j > i {
                    assert(v@[i as int].date@ < v@[j].date@);
                }
            }
            lemma_chunk_map_absent(v@, d as int);
        }
    }
    (i, found)
}

/// Appends `e` to the files of day `d`, adding a chunk for `d` when there is none.
fn add_entry(v: &mut Vec<ScheduledChunk>, d: Day, e: FileEntry)
    requires
        chunks_wf(old(v)@),
    ensures
        chunks_wf(final(v)@),
        chunk_map(final(v)@) == add_to(chunk_map(old(v)@), d@, e),
        scheduled_files(final(v)@) =~= scheduled_files(old(v)@).insert(e),
{
    let n = d.epoch_day();
    let (i, found) = find_day(v, n as i64);
    if found {
        let mut c = v.remove(i);
        c.files.push(e);
        v.insert(i, c);
        proof {
            assert(v@ =~= old(v)@.update(i as int, c));
            lemma_chunk_map_update(old(v)@, i as int, c);
            lemma_scheduled_files_update(old(v)@, i as int, c);
            let a = old(v)@[i as int].files@.to_multiset();
            assert(c.files@ =~= old(v)@[i as int].files@.push(e));
            assert(c.files@.to_multiset() =~= a.insert(e));
            assert forall|x: FileEntry| scheduled_files(v@).count(x) == scheduled_files(old(v)@).insert(e).count(x) by {
                assert(scheduled_files(v@).add(a).count(x) == scheduled_files(old(v)@).add(c.files@.to_multiset()).count(x));
            }
        }
    } else {
        let mut files: Vec<FileEntry> = Vec::new();
        files.push(e);
        let c = ScheduledChunk { date: d, files };
        assert(c.files@ =~= seq![e]);
        v.insert(i, c);
        proof {
            lemma_chunk_map_insert(old(v)@, i as int, c);
            lemma_scheduled_files_insert(old(v)@, i as int, c);
            assert(c.files@ =~= Seq::<FileEntry>::empty().push(e));
            assert(c.files@.to_multiset() =~= Multiset::<FileEntry>::empty().insert(e));
            assert forall|x: FileEntry| scheduled_files(v@).count(x) == scheduled_files(old(v)@).insert(e).count(x) by {
            }
        }
    }
}

/// Snaps `e` to the earliest grid point `today + k*chunk_days` that has room (see [`place`]).
fn place_entry(
    v: &mut Vec<ScheduledChunk>,
    e: FileEntry,
    today: Day,
    cycle: u16,
    chunk: u16,
    max: usize,
) -> (r: Result<(), ScheduleOverflow>)
    requires
        chunks_wf(old(v)@),
        chunk > 0,
    ensures
        match place(chunk_map(old(v)@), e, today@, cycle as int, chunk as int, max as int) {
            None => r is Err,
            Some(m) => r is Ok && chunks_wf(final(v)@) && chunk_map(final(v)@) == m,
        },
        r is Ok ==> scheduled_files(final(v)@) =~= scheduled_files(old(v)@).insert(e),
{
    let ghost m = chunk_map(v@);
    let earliest = match e.get_date().checked_add_days(cycle as i64) {
        Some(d) => d,
        None => return Err(ScheduleOverflow),
    };
    let t: i64 = today.epoch_day() as i64;
    let diff: i64 = earliest.epoch_day() as i64 - t;
    let ahead: i64 = if diff >= 0 { diff } else { 0 };
    let c: i64 = chunk as i64;
    let mut k: i64 = (ahead + c - 1) / c;
    let limit: i64 = MAX_DAY as i64 - t + 1;
    let ghost k0 = k as int;
    assert(k0 == ceil_div(days_ahead(e, today@, cycle as int), chunk as int));
    assert(0 <= k <= ahead) by (nonlinear_arith)
        requires k == (ahead + c - 1) / (c as int), c > 0, ahead >= 0;
    loop
        invariant
            chunks_wf(v@),
            v@ == old(v)@,
            m == chunk_map(v@),
            t == today@,
            limit == step_limit(t as int),
            c == chunk,
            c > 0,
            0 <= k,
            k <= ahead + 7304484,
            0 <= ahead <= 7304484,
            k0 <= k,
            in_day_range(t as int),
            first_free(m, t as int, c as int, max as int, k0, limit as int)
                == first_free(m, t as int, c as int, max as int, k as int, limit as int),
            in_day_range(e.date_of()@ + cycle),
            place(m, e, today@, cycle as int, chunk as int, max as int)
                == (if t + first_free(m, t as int, c as int, max as int, k0, limit as int) * c > MAX_DAY {
                    None::<Map<int, Seq<FileEntry>>>
                } else {
                    Some(add_to(m, t + first_free(m, t as int, c as int, max as int, k0, limit as int) * c, e))
                }),
        decreases limit + 1 - k,
    {
        assert(0 <= k * c <= (ahead + 7304484) * 65535) by (nonlinear_arith)
            requires 0 <= k <= ahead + 7304484, 0 < c <= 65535, ahead >= 0;
        let day: i64 = t + k * c;
        if day > MAX_DAY as i64 {
            proof {
                lemma_first_free_ge(m, t as int, c as int, max as int, k as int, limit as int);
                let f = first_free(m, t as int, c as int, max as int, k as int, limit as int);
                assert(f * c >= k * c) by (nonlinear_arith)
                    requires f >= k, c > 0;
                assert(t + f * c > MAX_DAY);
                assert(place(m, e, today@, cycle as int, chunk as int, max as int) is None);
            }
            return Err(ScheduleOverflow);
        }
        assert(k < limit) by (nonlinear_arith)
            requires t + k * c <= MAX_DAY, limit == MAX_DAY - t + 1, c >= 1, k >= 0;
        let (i, found) = find_day(v, day);
        let count: usize = if found { v[i].files.len() } else { 0 };
        assert(count == count_at(m, day as int));
        if count < max {
            assert(first_free(m, t as int, c as int, max as int, k as int, limit as int) == k);
            assert(place(m, e, today@, cycle as int, chunk as int, max as int) == Some(add_to(m, day as int, e)));
            let d = Day::from_epoch_day(day as i32).unwrap();
            add_entry(v, d, e);
            return Ok(());
        }
        k = k + 1;
    }
}

/// Places each of `entries`, in order, with [`place_entry`].
fn snap_to_grid(
    entries: Vec<FileEntry>,
    today: Day,
    cycle: u16,
    chunk: u16,
    max: usize,
    v: &mut Vec<ScheduledChunk>,
) -> (r: Result<(), ScheduleOverflow>)
    requires
        chunks_wf(old(v)@),
        chunk > 0,
    ensures
        match fill(chunk_map(old(v)@), entries@, today@, cycle as int, chunk as int, max as int) {
            None => r is Err,
            Some(m) => r is Ok && chunks_wf(final(v)@) && chunk_map(final(v)@) == m,
        },
        r is Ok ==> scheduled_files(final(v)@) =~= scheduled_files(old(v)@).add(entries@.to_multiset()),
{
    let ghost goal = fill(chunk_map(old(v)@), entries@, today@, cycle as int, chunk as int, max as int);
    let mut rest = entries;
    while rest.len() > 0
        invariant
            goal == fill(chunk_map(old(v)@), entries@, today@, cycle as int, chunk as int, max as int),
            chunks_wf(v@),
            chunk > 0,
            goal == fill(chunk_map(v@), rest@, today@, cycle as int, chunk as int, max as int),
            scheduled_files(v@).add(rest@.to_multiset()) =~= scheduled_files(old(v)@).add(entries@.to_multiset()),
        decreases rest@.len(),
    {
        let ghost before = rest@;
        let ghost m_before = chunk_map(v@);
        let ghost sf_before = scheduled_files(v@);
        let e = rest.remove(0);
        assert(rest@ =~= before.drop_first());
        assert(e == before[0]);
        assert(before.remove(0) =~= rest@);
        match place_entry(v, e, today, cycle, chunk, max) {
            Ok(()) => {
                assert(before.to_multiset() =~= rest@.to_multiset().insert(e));
                assert forall|x: FileEntry| scheduled_files(v@).add(rest@.to_multiset()).count(x)
                    == sf_before.add(before.to_multiset()).count(x) by {
                }
            },
            Err(err) => {
                assert(place(m_before, e, today@, cycle as int, chunk as int, max as int) is None);
                assert(goal is None);
                return Err(err);
            },
        }
    }
    Ok(())
}

/// Whether `e` is due on or before `today`: its last change plus one cycle is a supported
/// date no later than `today`.
pub open spec fn is_overdue(e: FileEntry, today: int, cycle: int) -> bool {
    in_day_range(e.date_of()@ + cycle) && e.date_of()@ + cycle <= today
}

/// The overdue entries of `es`, in order.
pub open spec fn overdue_part(es: Seq<FileEntry>, today: int, cycle: int) -> Seq<FileEntry> {
    es.filter(overdue_pred(today, cycle))
}

/// [`is_overdue`] as a predicate.
pub open spec fn overdue_pred(today: int, cycle: int) -> spec_fn(FileEntry) -> bool {
    |e: FileEntry| is_overdue(e, today, cycle)
}

/// The negation of [`is_overdue`] as a predicate.
pub open spec fn not_overdue_pred(today: int, cycle: int) -> spec_fn(FileEntry) -> bool {
    |e: FileEntry| !is_overdue(e, today, cycle)
}

/// The entries of `es` that are not overdue, in order.
pub open spec fn future_part(es: Seq<FileEntry>, today: int, cycle: int) -> Seq<FileEntry> {
    es.filter(not_overdue_pred(today, cycle))
}

/// The overdue entries that backward fill puts on slot `k` (the date `today + k * chunk`):
/// from the end of the slots towards today, `per` entries each, oldest first; slot 0 (today)
/// takes whatever is left.
pub open spec fn segment(ov: Seq<FileEntry>, slots: int, per: int, k: int) -> Seq<FileEntry> {
    let n = ov.len() as int;
    let lo = if (slots - 1 - k) * per < n { (slots - 1 - k) * per } else { n };
    let hi = if k == 0 {
        n
    } else if (slots - k) * per < n {
        (slots - k) * per
    } else {
        n
    };
    ov.subrange(lo, hi)
}

/// The backward fill of the overdue entries `ov` over the slots `from .. slots`.
pub open spec fn backfill(
    ov: Seq<FileEntry>,
    today: int,
    chunk: int,
    slots: int,
    per: int,
    from: int,
) -> Map<int, Seq<FileEntry>> {
    Map::new(
        |d: int|
            exists|j: int|
                from <= j < slots && d == today + j * chunk && (#[trigger] segment(
                    ov,
                    slots,
                    per,
                    j,
                )).len() > 0,
        |d: int| segment(ov, slots, per, (d - today) / chunk),
    )
}

/// The schedule that [`compute_schedule`] computes, or `None` when a date overflows.
///
/// Entries are first put in scheduling order (date, then blob object id; stable).
/// Without `cycle_end`, all of them are forward-filled from `today` with at most
/// `ceil(n / ceil(cycle / chunk))` files per chunk. With `cycle_end`, the overdue ones are
/// backward-filled over the slots before `cycle_end`, and the others are forward-filled.
pub open spec fn schedule_spec(
    entries: Seq<FileEntry>,
    cycle: int,
    chunk: int,
    today: int,
    cycle_end: Option<int>,
) -> Option<Map<int, Seq<FileEntry>>> {
    let sorted = sort_entries(entries);
    let chunks_per_cycle = ceil_div(cycle, chunk);
    match cycle_end {
        None => fill(
            Map::empty(),
            sorted,
            today,
            cycle,
            chunk,
            ceil_div(sorted.len() as int, chunks_per_cycle),
        ),
        Some(end) => {
            let ov = overdue_part(sorted, today, cycle);
            let fu = future_part(sorted, today, cycle);
            let days_to_end = if end - today > 1 { end - today } else { 1 };
            let slots = ceil_div(days_to_end, chunk);
            let per = ceil_div(ov.len() as int, slots);
            fill(
                backfill(ov, today, chunk, slots, per, 0),
                fu,
                today,
                cycle,
                chunk,
                ceil_div(fu.len() as int, chunks_per_cycle),
            )
        },
    }
}

proof fn lemma_grid_step(today: int, chunk: int, j: int)
    requires
        chunk > 0,
    ensures
        (today + j * chunk - today) / chunk == j,
{
    vstd::arithmetic::div_mod::lemma_div_multiples_vanish(j, chunk);
    assert(today + j * chunk - today == chunk * j) by (nonlinear_arith);
}

/// Backward fill over `k ..` is the fill over `k + 1 ..` plus slot `k` (when it gets files).
proof fn lemma_backfill_step(ov: Seq<FileEntry>, today: int, chunk: int, slots: int, per: int, k: int)
    requires
        chunk > 0,
        0 <= k < slots,
    ensures
        backfill(ov, today, chunk, slots, per, k) =~= (if segment(ov, slots, per, k).len() > 0 {
            backfill(ov, today, chunk, slots, per, k + 1).insert(today + k * chunk, segment(ov, slots, per, k))
        } else {
            backfill(ov, today, chunk, slots, per, k + 1)
        }),
{
    let a = backfill(ov, today, chunk, slots, per, k);
    let b = backfill(ov, today, chunk, slots, per, k + 1);
    let dk = today + k * chunk;
    lemma_grid_step(today, chunk, k);
    assert forall|d: int| #[trigger] a.contains_key(d) implies b.contains_key(d) || (d == dk && segment(ov, slots, per, k).len() > 0) by {
        let j = choose|j: int| k <= j < slots && d == today + j * chunk && (#[trigger] segment(ov, slots, per, j)).len() > 0;
        if j != k {
            assert(b.contains_key(d));
        }
    }
    assert forall|d: int| #[trigger] b.contains_key(d) implies a.contains_key(d) && d != dk by {
        let j = choose|j: int| k + 1 <= j < slots && d == today + j * chunk && (#[trigger] segment(ov, slots, per, j)).len() > 0;
        assert(a.contains_key(d));
        assert(j * chunk > k * chunk) by (nonlinear_arith) requires j > k, chunk > 0;
    }
    if segment(ov, slots, per, k).len() > 0 {
        assert(a.contains_key(dk));
    }
}

/// Backward-fills the overdue entries `ov` over the slots `today + k * chunk` (`k < slots`).
fn backfill_overdue(ov: Vec<FileEntry>, today: Day, chunk: u16, slots: usize, per: usize) -> (r: Vec<
    ScheduledChunk,
>)
    requires
        slots >= 1,
        chunk > 0,
        today@ + (slots - 1) * chunk <= MAX_DAY,
    ensures
        chunks_wf(r@),
        chunk_map(r@) == backfill(ov@, today@, chunk as int, slots as int, per as int, 0),
        scheduled_files(r@) =~= ov@.to_multiset(),
{
    let ghost all = ov@;
    let ghost n = ov@.len() as int;
    assert(n == ov.len());
    let mut rest = ov;
    let mut v: Vec<ScheduledChunk> = Vec::new();
    let mut consumed: usize = 0;
    let mut k: usize = slots - 1;
    let t: i64 = today.epoch_day() as i64;
    proof {
        assert(backfill(all, today@, chunk as int, slots as int, per as int, slots as int) =~= Map::empty());
        assert(all.skip(0) =~= all);
    }
    while k > 0
        invariant
            k < slots,
            chunk > 0,
            t == today@,
            today@ + (slots - 1) * chunk <= MAX_DAY,
            crate::day::in_day_range(today@),
            n == all.len(),
            n <= usize::MAX,
            consumed as int == (if (slots - 1 - k) * per < n { (slots - 1 - k) * per } else { n }),
            rest@ == all.skip(consumed as int),
            chunks_wf(v@),
            chunk_map(v@) == backfill(all, today@, chunk as int, slots as int, per as int, k + 1),
            forall|i: int| 0 <= i < v@.len() ==> (#[trigger] v@[i]).date@ > today@ + k * chunk,
            scheduled_files(v@).add(rest@.to_multiset()) =~= all.to_multiset(),
        decreases k,
    {
        let ghost c0 = consumed as int;
        let mut files: Vec<FileEntry> = Vec::new();
        let mut taken: usize = 0;
        while taken < per && rest.len() > 0
            invariant
                taken <= per,
                0 <= c0,
                n == all.len(),
                n <= usize::MAX,
                c0 + taken <= n,
                files@ == all.subrange(c0, c0 + taken),
                rest@ == all.skip(c0 + taken),
                consumed == c0,
                scheduled_files(v@).add(files@.to_multiset()).add(rest@.to_multiset()) =~= all.to_multiset(),
            decreases per - taken,
        {
            let ghost before = rest@;
            let ghost before_files = files@;
            let e = rest.remove(0);
            assert(before.remove(0) =~= rest@);
            assert(before.to_multiset() =~= rest@.to_multiset().insert(e));
            assert(before[0] == all[c0 + taken]);
            assert(e == all[c0 + taken]);
            files.push(e);
            taken += 1;
            assert(files@ =~= all.subrange(c0, c0 + taken));
            assert(rest@ =~= all.skip(c0 + taken));
            assert(files@.to_multiset() =~= before_files.to_multiset().insert(e));
            assert forall|x: FileEntry| scheduled_files(v@).add(files@.to_multiset()).add(rest@.to_multiset()).count(x)
                == all.to_multiset().count(x) by {
                assert(scheduled_files(v@).add(before_files.to_multiset()).add(before.to_multiset()).count(x)
                    == all.to_multiset().count(x));
            }
        }
        consumed = consumed + taken;
        proof {
            assert((slots - k) * per == (slots - 1 - k) * per + per) by (nonlinear_arith);
            assert((slots - 1 - k) * per >= 0) by (nonlinear_arith) requires slots - 1 - k >= 0, per >= 0;
            assert(consumed as int == (if (slots - k) * per < n { (slots - k) * per } else { n }));
            assert(files@ == segment(all, slots as int, per as int, k as int));
            lemma_backfill_step(all, today@, chunk as int, slots as int, per as int, k as int);
            assert(k * chunk <= (slots - 1) * chunk) by (nonlinear_arith) requires k <= slots - 1, chunk > 0;
            assert(k <= k * chunk) by (nonlinear_arith) requires chunk > 0, k >= 0;
        }
        let day = t + (k as i64) * (chunk as i64);
        if files.len() > 0 {
            let d = Day::from_epoch_day(day as i32).unwrap();
            let c = ScheduledChunk { date: d, files };
            let ghost v0 = v@;
            v.insert(0, c);
            proof {
                lemma_chunk_map_insert(v0, 0, c);
                lemma_scheduled_files_insert(v0, 0, c);
            }
        } else {
            assert(files@.to_multiset() =~= Multiset::<FileEntry>::empty());
        }
        proof {
            assert forall|i: int| 0 <= i < v@.len() implies (#[trigger] v@[i]).date@ > today@ + (k - 1) * chunk by {
                assert((k - 1) * chunk < k * chunk) by (nonlinear_arith) requires chunk > 0;
            }
        }
        k = k - 1;
    }
    proof {
        lemma_backfill_step(all, today@, chunk as int, slots as int, per as int, 0);
        assert(rest@ == segment(all, slots as int, per as int, 0));
    }
    if rest.len() > 0 {
        let c = ScheduledChunk { date: today, files: rest };
        let ghost v0 = v@;
        v.insert(0, c);
        proof {
            lemma_chunk_map_insert(v0, 0, c);
            lemma_scheduled_files_insert(v0, 0, c);
        }
    } else {
        assert(rest@.to_multiset() =~= Multiset::<FileEntry>::empty());
    }
    v
}

/// `a / b`, rounded up, as computed by `div_ceil`.
proof fn lemma_ceil_div(a: int, b: int)
    requires
        a >= 0,
        b > 0,
    ensures
        ceil_div(a, b) == a / b + (if a % b != 0 { 1int } else { 0int }),
        (ceil_div(a, b) - 1) * b < a || a == 0,
        ceil_div(a, b) >= 0,
        a > 0 ==> ceil_div(a, b) >= 1,
        ceil_div(a, b) <= a || a == 0,
        ceil_div(a, b) * b >= a,
{
    vstd::arithmetic::div_mod::lemma_fundamental_div_mod(a, b);
    vstd::arithmetic::div_mod::lemma_fundamental_div_mod(a + b - 1, b);
    let q = a / b;
    let r = a % b;
    let q2 = (a + b - 1) / b;
    let r2 = (a + b - 1) % b;
    assert(0 <= r < b && 0 <= r2 < b) by {
        vstd::arithmetic::div_mod::lemma_mod_bound(a, b);
        vstd::arithmetic::div_mod::lemma_mod_bound(a + b - 1, b);
    }
    if r == 0 {
        assert(a + b - 1 == b * q + (b - 1));
        assert(q2 == q) by (nonlinear_arith)
            requires a + b - 1 == b * q2 + r2, a + b - 1 == b * q + (b - 1), 0 <= r2 < b, b > 0;
    } else {
        assert(a + b - 1 == b * (q + 1) + (r - 1)) by (nonlinear_arith)
            requires a == b * q + r;
        assert(q2 == q + 1) by (nonlinear_arith)
            requires a + b - 1 == b * q2 + r2, a + b - 1 == b * (q + 1) + (r - 1), 0 <= r2 < b, 0 <= r - 1 < b, b > 0;
    }
    assert(q >= 0) by (nonlinear_arith) requires a == b * q + r, a >= 0, 0 <= r < b, b > 0;
    assert(q <= a) by (nonlinear_arith) requires a == b * q + r, a >= 0, 0 <= r < b, b > 0;
    assert((q2 - 1) * b < a || a == 0) by (nonlinear_arith)
        requires a + b - 1 == b * q2 + r2, 0 <= r2 < b, b > 0, a >= 0;
    assert(q2 * b >= a) by (nonlinear_arith)
        requires a + b - 1 == b * q2 + r2, 0 <= r2 < b, b > 0;
    if a > 0 {
        assert(q2 >= 1) by (nonlinear_arith)
            requires a + b - 1 == b * q2 + r2, 0 <= r2 < b, b > 0, a > 0;
        assert(q2 <= a) by (nonlinear_arith)
            requires a + b - 1 == b * q2 + r2, 0 <= r2 < b, b > 0, a > 0;
    }
}

/// `ceil(a / b)` on machine integers.
fn div_ceil_usize(a: usize, b: usize) -> (r: usize)
    requires
        b > 0,
    ensures
        r == ceil_div(a as int, b as int),
{
    proof {
        lemma_ceil_div(a as int, b as int);
    }
    if a % b != 0 {
        a / b + 1
    } else {
        a / b
    }
}

/// Splits sorted entries into the overdue ones and the others, keeping their order.
fn partition_overdue(sorted: Vec<FileEntry>, today: Day, cycle: u16) -> (r: (Vec<FileEntry>, Vec<FileEntry>))
    ensures
        r.0@ == overdue_part(sorted@, today@, cycle as int),
        r.1@ == future_part(sorted@, today@, cycle as int),
        r.0@.to_multiset().add(r.1@.to_multiset()) =~= sorted@.to_multiset(),
{
    let ghost all = sorted@;
    let ghost p = overdue_pred(today@, cycle as int);
    let ghost q = not_overdue_pred(today@, cycle as int);
    let mut rest = sorted;
    let mut overdue: Vec<FileEntry> = Vec::new();
    let mut future: Vec<FileEntry> = Vec::new();
    let n = rest.len();
    let mut i: usize = 0;
    proof {
        reveal(Seq::filter);
        assert(all.take(0) =~= Seq::<FileEntry>::empty());
        assert(all.skip(0) =~= all);
    }
    while i < n
        invariant
            i <= n == all.len(),
            rest@ == all.skip(i as int),
            p == overdue_pred(today@, cycle as int),
            q == not_overdue_pred(today@, cycle as int),
            overdue@ == all.take(i as int).filter(p),
            future@ == all.take(i as int).filter(q),
            overdue@.to_multiset().add(future@.to_multiset()).add(rest@.to_multiset()) =~= all.to_multiset(),
        decreases n - i,
    {
        let ghost before = rest@;
        let ghost ov0 = overdue@;
        let ghost fu0 = future@;
        let e = rest.remove(0);
        assert(before.remove(0) =~= rest@);
        assert(before.to_multiset() =~= rest@.to_multiset().insert(e));
        assert(e == all[i as int]);
        proof {
            assert(all.take(i + 1) =~= all.take(i as int).push(e));
            all.take(i as int).lemma_filter_push(e, p);
            all.take(i as int).lemma_filter_push(e, q);
            assert(rest@ =~= all.skip(i + 1));
        }
        let date = e.get_date();
        let due = match date.checked_add_days(cycle as i64) {
            Some(earliest) => earliest.le(today),
            None => false,
        };
        assert(due == is_overdue(e, today@, cycle as int));
        assert(p(e) == due && q(e) == !due);
        if due {
            overdue.push(e);
        } else {
            future.push(e);
        }
        assert forall|x: FileEntry| overdue@.to_multiset().add(future@.to_multiset()).add(rest@.to_multiset()).count(x)
            == all.to_multiset().count(x) by {
            assert(ov0.to_multiset().add(fu0.to_multiset()).add(before.to_multiset()).count(x) == all.to_multiset().count(x));
        }
        i += 1;
    }
    proof {
        assert(all.take(n as int) =~= all);
        assert(rest@.to_multiset() =~= Multiset::<FileEntry>::empty());
    }
    (overdue, future)
}

/// The `Option<Day>` as an optional day number.
pub open spec fn opt_day(d: Option<Day>) -> Option<int> {
    match d {
        Some(x) => Some(x@),
        None => None,
    }
}

/// Schedules the [`FileEntry`]s for the given [`ScheduleParams`]
///
/// When `cycle_end` is `Some`, overdue items are backward-filled: oldest items are
/// assigned to the furthest available slots so that completing today's items does not
/// shift items in future slots. When `cycle_end` is `None`, the existing forward-fill
/// from today is used.
///
/// The result lists the scheduled dates in increasing order, each with its files.
///
/// # Errors
/// Returns an error if the date arithmetic overflows
pub fn compute_schedule(
    entries: Vec<FileEntry>,
    params: ScheduleParams,
    today: Day,
    cycle_end: Option<Day>,
) -> (r: Result<Vec<ScheduledChunk>, ScheduleOverflow>)
    ensures
        match schedule_spec(entries@, params.cycle(), params.chunk(), today@, opt_day(cycle_end)) {
            None => r is Err,
            Some(m) => r is Ok && chunks_wf(r->Ok_0@) && chunk_map(r->Ok_0@) == m,
        },
        r is Ok ==> scheduled_files(r->Ok_0@) =~= entries@.to_multiset(),
{
    let (cycle, chunk) = params.days();
    let ghost spec = schedule_spec(entries@, params.cycle(), params.chunk(), today@, opt_day(cycle_end));
    let sorted = sort_by_key(entries);
    let chunks_per_cycle = div_ceil_usize(cycle as usize, chunk as usize);
    proof {
        lemma_ceil_div(cycle as int, chunk as int);
    }
    let mut v: Vec<ScheduledChunk> = Vec::new();
    assert(chunk_map(v@) =~= Map::empty());
    assert(scheduled_files(v@) =~= Multiset::empty());
    match cycle_end {
        None => {
            let max = div_ceil_usize(sorted.len(), chunks_per_cycle);
            match snap_to_grid(sorted, today, cycle, chunk, max, &mut v) {
                Ok(()) => Ok(v),
                Err(e) => Err(e),
            }
        },
        Some(end) => {
            let (overdue, future) = partition_overdue(sorted, today, cycle);
            let end_day: i32 = end.epoch_day();
            let today_day: i32 = today.epoch_day();
            let diff: i32 = end_day - today_day;
            let days_to_end: usize = if diff > 1 { diff as usize } else { 1 };
            let slots = div_ceil_usize(days_to_end, chunk as usize);
            proof {
                lemma_ceil_div(days_to_end as int, chunk as int);
                assert((slots - 1) * chunk < days_to_end);
            }
            let per = div_ceil_usize(overdue.len(), slots);
            v = backfill_overdue(overdue, today, chunk, slots, per);
            if future.len() > 0 {
                let max = div_ceil_usize(future.len(), chunks_per_cycle);
                match snap_to_grid(future, today, cycle, chunk, max, &mut v) {
                    Ok(()) => Ok(v),
                    Err(e) => Err(e),
                }
            } else {
                assert(future@ =~= Seq::<FileEntry>::empty());
                Ok(v)
            }
        },
    }
}

// ------------------------------------------------------------------------------------------
// Properties of the schedule.

/// Every date of `m` is on the grid `today + k * chunk` (`k >= 0`).
pub open spec fn on_grid(m: Map<int, Seq<FileEntry>>, today: int, chunk: int) -> bool {
    forall|d: int| #[trigger] m.contains_key(d) ==> d >= today && (d - today) % chunk == 0
}

/// No file of `m` is scheduled before `today` or before it is due (last change plus a cycle).
pub open spec fn not_early(m: Map<int, Seq<FileEntry>>, today: int, cycle: int) -> bool {
    forall|d: int, i: int|
        #[trigger] m.contains_key(d) && 0 <= i < m[d].len() ==> d >= today && d >= (#[trigger] m[d][i]).date_of()@ + cycle
}

/// Every date of `m` other than `except` holds at most `cap` files.
pub open spec fn capped(m: Map<int, Seq<FileEntry>>, cap: int, except: Option<int>) -> bool {
    forall|d: int| #[trigger] m.contains_key(d) && Some(d) != except ==> m[d].len() <= cap
}

/// Every date of `m` is a supported date.
pub open spec fn dates_in_range(m: Map<int, Seq<FileEntry>>) -> bool {
    forall|d: int| #[trigger] m.contains_key(d) ==> in_day_range(d)
}

proof fn lemma_first_free_found(m: Map<int, Seq<FileEntry>>, today: int, chunk: int, max: int, k: int, limit: int)
    requires
        k <= limit,
    ensures
        ({
            let f = first_free(m, today, chunk, max, k, limit);
            k <= f <= limit && (f < limit ==> count_at(m, today + f * chunk) < max)
        }),
    decreases limit - k,
{
    if !(k >= limit || count_at(m, today + k * chunk) < max) {
        lemma_first_free_found(m, today, chunk, max, k + 1, limit);
    }
}

/// Placing one entry keeps the schedule on the grid, keeps files from being early, and
/// keeps every date other than `except` within `cap` files when `max <= cap`.
proof fn lemma_place_keeps(
    m: Map<int, Seq<FileEntry>>,
    e: FileEntry,
    today: int,
    cycle: int,
    chunk: int,
    max: int,
    cap: int,
    except: Option<int>,
)
    requires
        chunk > 0,
        in_day_range(today),
        max <= cap,
        on_grid(m, today, chunk),
        not_early(m, today, cycle),
        capped(m, cap, except),
        dates_in_range(m),
        place(m, e, today, cycle, chunk, max) is Some,
    ensures
        ({
            let m2 = place(m, e, today, cycle, chunk, max)->Some_0;
            &&& on_grid(m2, today, chunk)
            &&& not_early(m2, today, cycle)
            &&& capped(m2, cap, except)
            &&& dates_in_range(m2)
        }),
{
    let ahead = days_ahead(e, today, cycle);
    let k0 = ceil_div(ahead, chunk);
    let limit = step_limit(today);
    lemma_ceil_div(ahead, chunk);
    let k = first_free(m, today, chunk, max, k0, limit);
    let d = today + k * chunk;
    let m2 = add_to(m, d, e);
    if k0 <= limit {
        lemma_first_free_found(m, today, chunk, max, k0, limit);
    } else {
        lemma_first_free_ge(m, today, chunk, max, k0, limit);
    }
    assert(k * chunk >= k) by (nonlinear_arith) requires k >= 0, chunk >= 1;
    assert(k < limit);
    assert(count_at(m, d) < max);
    assert(k * chunk >= k0 * chunk) by (nonlinear_arith) requires k >= k0, chunk >= 1;
    assert(k0 * chunk >= ahead);
    assert((d - today) % chunk == 0) by {
        vstd::arithmetic::div_mod::lemma_mod_multiples_basic(k, chunk);
        assert(d - today == k * chunk);
    }
    assert forall|x: int, i: int| #[trigger] m2.contains_key(x) && 0 <= i < m2[x].len() implies x >= today && x >= (#[trigger] m2[x][i]).date_of()@ + cycle by {
        if x == d {
            if m.contains_key(d) && i < m[d].len() {
                assert(m2[x][i] == m[d][i]);
            }
        }
    }
}

/// Forward fill keeps the properties of [`lemma_place_keeps`].
proof fn lemma_fill_keeps(
    m: Map<int, Seq<FileEntry>>,
    es: Seq<FileEntry>,
    today: int,
    cycle: int,
    chunk: int,
    max: int,
    cap: int,
    except: Option<int>,
)
    requires
        chunk > 0,
        in_day_range(today),
        max <= cap,
        on_grid(m, today, chunk),
        not_early(m, today, cycle),
        capped(m, cap, except),
        dates_in_range(m),
        fill(m, es, today, cycle, chunk, max) is Some,
    ensures
        ({
            let m2 = fill(m, es, today, cycle, chunk, max)->Some_0;
            &&& on_grid(m2, today, chunk)
            &&& not_early(m2, today, cycle)
            &&& capped(m2, cap, except)
            &&& dates_in_range(m2)
        }),
    decreases es.len(),
{
    if es.len() > 0 {
        lemma_place_keeps(m, es[0], today, cycle, chunk, max, cap, except);
        let m1 = place(m, es[0], today, cycle, chunk, max)->Some_0;
        lemma_fill_keeps(m1, es.drop_first(), today, cycle, chunk, max, cap, except);
    }
}

/// Forward fill only appends: what `m` had on each date stays first there, and every other
/// file of the result comes from `es`.
proof fn lemma_fill_appends(
    m: Map<int, Seq<FileEntry>>,
    es: Seq<FileEntry>,
    today: int,
    cycle: int,
    chunk: int,
    max: int,
)
    requires
        fill(m, es, today, cycle, chunk, max) is Some,
    ensures
        ({
            let m2 = fill(m, es, today, cycle, chunk, max)->Some_0;
            &&& forall|d: int| #[trigger] m.contains_key(d) ==> m2.contains_key(d) && m[d].len() <= m2[d].len()
                && forall|i: int| 0 <= i < m[d].len() ==> m2[d][i] == m[d][i]
            &&& forall|d: int, i: int|
                #[trigger] m2.contains_key(d) && 0 <= i < m2[d].len() && !(m.contains_key(d) && i < m[d].len())
                    ==> es.contains(#[trigger] m2[d][i])
        }),
    decreases es.len(),
{
    if es.len() > 0 {
        let m1 = place(m, es[0], today, cycle, chunk, max)->Some_0;
        lemma_fill_appends(m1, es.drop_first(), today, cycle, chunk, max);
        let m2 = fill(m, es, today, cycle, chunk, max)->Some_0;
        assert forall|d: int| #[trigger] m.contains_key(d) implies m1.contains_key(d) && m[d].len() <= m1[d].len()
            && forall|i: int| 0 <= i < m[d].len() ==> m1[d][i] == m[d][i] by {
        }
        assert forall|d: int| #[trigger] m.contains_key(d) implies m2.contains_key(d) && m[d].len() <= m2[d].len()
            && forall|i: int| 0 <= i < m[d].len() ==> m2[d][i] == m[d][i] by {
            assert(m1.contains_key(d));
        }
        assert forall|d: int, i: int|
            #[trigger] m2.contains_key(d) && 0 <= i < m2[d].len() && !(m.contains_key(d) && i < m[d].len())
                implies es.contains(#[trigger] m2[d][i]) by {
            if m1.contains_key(d) && i < m1[d].len() {
                assert(m2[d][i] == m1[d][i]);
                assert(m1[d][i] == es[0]);
            } else {
                assert(es.drop_first().contains(m2[d][i]));
                let j = choose|j: int| 0 <= j < es.drop_first().len() && es.drop_first()[j] == m2[d][i];
                assert(es[j + 1] == m2[d][i]);
            }
        }
    }
}

/// The backward fill is on the grid, before `cycle_end`, not early for overdue files, and
/// holds at most `per` files on every slot but today's.
proof fn lemma_backfill_props(
    ov: Seq<FileEntry>,
    today: int,
    cycle: int,
    chunk: int,
    slots: int,
    per: int,
)
    requires
        chunk > 0,
        slots >= 1,
        per >= 0,
        in_day_range(today),
        today + (slots - 1) * chunk <= MAX_DAY,
        forall|i: int| 0 <= i < ov.len() ==> is_overdue(#[trigger] ov[i], today, cycle),
    ensures
        ({
            let m = backfill(ov, today, chunk, slots, per, 0);
            &&& on_grid(m, today, chunk)
            &&& not_early(m, today, cycle)
            &&& capped(m, per, Some(today))
            &&& dates_in_range(m)
            &&& forall|d: int| #[trigger] m.contains_key(d) ==> d <= today + (slots - 1) * chunk
            &&& forall|d: int, i: int| #[trigger] m.contains_key(d) && 0 <= i < m[d].len()
                    ==> ov.contains(#[trigger] m[d][i])
        }),
{
    let m = backfill(ov, today, chunk, slots, per, 0);
    assert forall|d: int| #[trigger] m.contains_key(d) implies d >= today && (d - today) % chunk == 0
        && d <= today + (slots - 1) * chunk && in_day_range(d) && m[d] == segment(ov, slots, per, (d - today) / chunk)
        && 0 <= (d - today) / chunk < slots by {
        let j = choose|j: int| 0 <= j < slots && d == today + j * chunk && (#[trigger] segment(ov, slots, per, j)).len() > 0;
        lemma_grid_step(today, chunk, j);
        assert(j * chunk >= 0) by (nonlinear_arith) requires j >= 0, chunk > 0;
        assert(j * chunk <= (slots - 1) * chunk) by (nonlinear_arith) requires j <= slots - 1, chunk > 0;
        vstd::arithmetic::div_mod::lemma_mod_multiples_basic(j, chunk);
        assert(d - today == j * chunk);
    }
    assert forall|d: int, i: int| #[trigger] m.contains_key(d) && 0 <= i < m[d].len()
        implies ov.contains(#[trigger] m[d][i]) && d >= m[d][i].date_of()@ + cycle by {
        let k = (d - today) / chunk;
        let seg = segment(ov, slots, per, k);
        let n = ov.len() as int;
        let lo = if (slots - 1 - k) * per < n { (slots - 1 - k) * per } else { n };
        assert((slots - 1 - k) * per >= 0) by (nonlinear_arith) requires slots - 1 - k >= 0, per >= 0;
        assert((slots - k) * per >= (slots - 1 - k) * per) by (nonlinear_arith) requires per >= 0;
        assert(seg[i] == ov[lo + i]);
        assert(is_overdue(ov[lo + i], today, cycle));
    }
    assert forall|d: int| #[trigger] m.contains_key(d) && Some(d) != Some(today) implies m[d].len() <= per by {
        let k = (d - today) / chunk;
        let n = ov.len() as int;
        vstd::arithmetic::div_mod::lemma_fundamental_div_mod(d - today, chunk);
        assert((d - today) % chunk == 0);
        if k == 0 {
            assert(chunk * k == 0) by (nonlinear_arith) requires k == 0;
            assert(d == today);
        }
        assert((slots - k) * per == (slots - 1 - k) * per + per) by (nonlinear_arith);
        assert((slots - 1 - k) * per >= 0) by (nonlinear_arith) requires slots - 1 - k >= 0, per >= 0;
    }
}

/// A schedule without a cycle anchor (forward fill from `today`) has every date on the grid
/// `today + k * chunk_days`, never schedules a file before today or before its last change
/// plus one cycle, and holds at most `ceil(n / ceil(cycle_days / chunk_days))` files per
/// date, for `n` entries.
pub proof fn law_forward_fill(entries: Seq<FileEntry>, cycle: int, chunk: int, today: int)
    requires
        0 < chunk <= cycle,
        in_day_range(today),
        schedule_spec(entries, cycle, chunk, today, None) is Some,
    ensures
        ({
            let m = schedule_spec(entries, cycle, chunk, today, None)->Some_0;
            &&& on_grid(m, today, chunk)
            &&& not_early(m, today, cycle)
            &&& capped(m, ceil_div(entries.len() as int, ceil_div(cycle, chunk)), None)
        }),
{
    crate::entry::lemma_sort_entries(entries);
    let sorted = sort_entries(entries);
    let cap = ceil_div(entries.len() as int, ceil_div(cycle, chunk));
    let e = Map::<int, Seq<FileEntry>>::empty();
    lemma_fill_keeps(e, sorted, today, cycle, chunk, cap, cap, None);
}

/// Read date by date, `m` lists its files in scheduling order: the files of each date are in
/// that order, and no file of an earlier date comes after a file of a later date.
pub open spec fn in_key_order(m: Map<int, Seq<FileEntry>>) -> bool {
    &&& forall|d: int| #[trigger] m.contains_key(d) ==> key_sorted(m[d])
    &&& forall|d1: int, d2: int, i1: int, i2: int|
        #![trigger m[d1][i1], m[d2][i2]]
        m.contains_key(d1) && m.contains_key(d2) && d1 < d2 && 0 <= i1 < m[d1].len() && 0 <= i2 < m[d2].len()
            ==> !key_lt(m[d2][i2], m[d1][i1])
}

/// Whether grid step `j` (the date `today + j * chunk`) holds `max` files or more.
spec fn step_full(m: Map<int, Seq<FileEntry>>, today: int, chunk: int, max: int, j: int) -> bool {
    count_at(m, today + j * chunk) >= max
}

/// `first_free` passes over full grid steps only.
proof fn lemma_first_free_skips(m: Map<int, Seq<FileEntry>>, today: int, chunk: int, max: int, k: int, limit: int)
    ensures
        forall|j: int| k <= j < first_free(m, today, chunk, max, k, limit) ==> #[trigger] step_full(m, today, chunk, max, j),
    decreases limit - k,
{
    if !(k >= limit || count_at(m, today + k * chunk) < max) {
        lemma_first_free_skips(m, today, chunk, max, k + 1, limit);
        assert(step_full(m, today, chunk, max, k));
    }
}

/// When the grid steps from `k` up to `last` are all full, `first_free` goes at least as far
/// as `last`.
proof fn lemma_first_free_past_full(
    m: Map<int, Seq<FileEntry>>,
    today: int,
    chunk: int,
    max: int,
    k: int,
    last: int,
    limit: int,
)
    requires
        last <= limit,
        forall|j: int| k <= j < last ==> #[trigger] step_full(m, today, chunk, max, j),
    ensures
        first_free(m, today, chunk, max, k, limit) >= last,
    decreases limit - k,
{
    lemma_first_free_ge(m, today, chunk, max, k, limit);
    if k < last {
        assert(step_full(m, today, chunk, max, k));
        lemma_first_free_past_full(m, today, chunk, max, k + 1, last, limit);
    }
}

/// An entry that does not come before another in scheduling order is due on the same grid
/// step or a later one.
proof fn lemma_due_step_monotone(a: FileEntry, b: FileEntry, today: int, cycle: int, chunk: int)
    requires
        chunk > 0,
        !key_lt(b, a),
    ensures
        ceil_div(days_ahead(a, today, cycle), chunk) <= ceil_div(days_ahead(b, today, cycle), chunk),
{
    let x = days_ahead(a, today, cycle);
    let y = days_ahead(b, today, cycle);
    assert(x <= y);
    vstd::arithmetic::div_mod::lemma_div_is_ordered(x + chunk - 1, y + chunk - 1, chunk);
}

/// Forward fill of entries in scheduling order keeps the schedule in scheduling order: each
/// entry lands on the grid step of the previous one or a later one, because the steps it
/// passes over were already full.
proof fn lemma_fill_in_order(
    m: Map<int, Seq<FileEntry>>,
    es: Seq<FileEntry>,
    today: int,
    cycle: int,
    chunk: int,
    max: int,
    last: int,
    base: int,
)
    requires
        chunk > 0,
        0 <= last <= step_limit(today),
        key_sorted(es),
        in_key_order(m),
        forall|d: int| #[trigger] m.contains_key(d) ==> d <= today + last * chunk,
        forall|j: int| base <= j < last ==> #[trigger] step_full(m, today, chunk, max, j),
        forall|d: int, i: int, x: int|
            #![trigger m[d][i], es[x]]
            m.contains_key(d) && 0 <= i < m[d].len() && 0 <= x < es.len() ==> !key_lt(es[x], m[d][i]),
        forall|x: int| 0 <= x < es.len() ==> base <= ceil_div(days_ahead(#[trigger] es[x], today, cycle), chunk),
        fill(m, es, today, cycle, chunk, max) is Some,
    ensures
        in_key_order(fill(m, es, today, cycle, chunk, max)->Some_0),
    decreases es.len(),
{
    if es.len() > 0 {
        let e = es[0];
        let k0 = ceil_div(days_ahead(e, today, cycle), chunk);
        let limit = step_limit(today);
        let k = first_free(m, today, chunk, max, k0, limit);
        let d = today + k * chunk;
        assert(place(m, e, today, cycle, chunk, max) is Some);
        let m1 = add_to(m, d, e);
        assert(place(m, e, today, cycle, chunk, max) == Some(m1));
        let rest = es.drop_first();
        assert(fill(m, es, today, cycle, chunk, max) == fill(m1, rest, today, cycle, chunk, max));
        // the steps that `e` passes over are full, so it lands at or after `last`
        assert(base <= k0);
        assert forall|j: int| k0 <= j < last implies #[trigger] step_full(m, today, chunk, max, j) by {
            assert(base <= j < last);
        }
        lemma_first_free_past_full(m, today, chunk, max, k0, last, limit);
        lemma_first_free_ge(m, today, chunk, max, k0, limit);
        lemma_first_free_skips(m, today, chunk, max, k0, limit);
        lemma_ceil_div(days_ahead(e, today, cycle), chunk);
        assert(k >= last && k >= k0 && k0 >= 0);
        assert(k <= k * chunk) by (nonlinear_arith) requires k >= 0, chunk >= 1;
        assert(d <= MAX_DAY);
        assert(k <= limit);
        assert(last * chunk <= k * chunk) by (nonlinear_arith) requires last <= k, chunk >= 1;
        // counts only grow
        assert forall|x: int| count_at(m1, x) >= count_at(m, x) by {
            if x == d && m.contains_key(d) {
                assert(m1[d] == m[d].push(e));
            }
        }
        assert forall|j: int| k0 <= j < k implies #[trigger] step_full(m1, today, chunk, max, j) by {
            assert(step_full(m, today, chunk, max, j));
            assert(count_at(m1, today + j * chunk) >= count_at(m, today + j * chunk));
        }
        assert forall|x: int| #[trigger] m1.contains_key(x) implies x <= today + k * chunk by {
            if x != d {
                assert(m.contains_key(x));
            }
        }
        let old_len = if m.contains_key(d) { m[d].len() as int } else { 0int };
        assert(m1[d].len() == old_len + 1 && m1[d][old_len] == e);
        assert forall|i: int| 0 <= i < old_len implies m1[d][i] == m[d][i] by {
            assert(m.contains_key(d));
            assert(m1[d] == m[d].push(e));
        }
        // the schedule stays in scheduling order
        assert forall|x: int| #[trigger] m1.contains_key(x) implies key_sorted(m1[x]) by {
            if x == d {
                assert forall|i: int, j: int| 0 <= i < j < m1[d].len() implies !key_lt(#[trigger] m1[d][j], #[trigger] m1[d][i]) by {
                    if j < old_len {
                        assert(m1[d][i] == m[d][i] && m1[d][j] == m[d][j]);
                        assert(key_sorted(m[d]));
                    } else {
                        assert(m1[d][i] == m[d][i]);
                        assert(!key_lt(es[0], m[d][i]));
                    }
                }
            } else {
                assert(m.contains_key(x));
            }
        }
        assert forall|d1: int, d2: int, i1: int, i2: int|
            m1.contains_key(d1) && m1.contains_key(d2) && d1 < d2 && 0 <= i1 < m1[d1].len() && 0 <= i2 < m1[d2].len()
            implies !key_lt(#[trigger] m1[d2][i2], #[trigger] m1[d1][i1]) by {
            if d1 == d {
                assert(m.contains_key(d2));
                assert(false);
            } else if d2 == d {
                assert(m.contains_key(d1) && m1[d1] == m[d1]);
                if i2 < old_len {
                    assert(m1[d2][i2] == m[d2][i2]);
                    assert(m[d1][i1] == m1[d1][i1]);
                } else {
                    assert(m1[d2][i2] == es[0]);
                    assert(!key_lt(es[0], m[d1][i1]));
                }
            } else {
                assert(m.contains_key(d1) && m1[d1] == m[d1]);
                assert(m.contains_key(d2) && m1[d2] == m[d2]);
                assert(m[d1][i1] == m1[d1][i1] && m[d2][i2] == m1[d2][i2]);
            }
        }
        assert(in_key_order(m1));
        // the remaining entries follow every placed one
        assert forall|y: int, i: int, x: int|
            #![trigger m1[y][i], rest[x]]
            m1.contains_key(y) && 0 <= i < m1[y].len() && 0 <= x < rest.len() implies !key_lt(rest[x], m1[y][i]) by {
            assert(rest[x] == es[x + 1]);
            if y == d && i == old_len {
                assert(m1[y][i] == es[0]);
            } else {
                assert(m.contains_key(y));
                if y == d {
                    assert(m1[y][i] == m[y][i]);
                } else {
                    assert(m1[y] == m[y]);
                }
                assert(!key_lt(es[x + 1], m[y][i]));
            }
        }
        assert forall|x: int| 0 <= x < rest.len() implies k0 <= ceil_div(days_ahead(#[trigger] rest[x], today, cycle), chunk) by {
            assert(rest[x] == es[x + 1]);
            lemma_due_step_monotone(es[0], es[x + 1], today, cycle, chunk);
        }
        assert forall|i: int, j: int| 0 <= i < j < rest.len() implies !key_lt(#[trigger] rest[j], #[trigger] rest[i]) by {
            assert(rest[j] == es[j + 1] && rest[i] == es[i + 1]);
        }
        lemma_fill_in_order(m1, rest, today, cycle, chunk, max, k, k0);
    }
}

/// Without a cycle anchor, files are scheduled from the oldest first: read date by date, the
/// schedule lists its files in scheduling order (older modification date first, then smaller
/// blob object id), so a file changed later never comes before a file changed earlier.
pub proof fn law_oldest_first(entries: Seq<FileEntry>, cycle: int, chunk: int, today: int)
    requires
        0 < chunk <= cycle,
        in_day_range(today),
        schedule_spec(entries, cycle, chunk, today, None) is Some,
    ensures
        in_key_order(schedule_spec(entries, cycle, chunk, today, None)->Some_0),
{
    crate::entry::lemma_sort_entries(entries);
    let sorted = sort_entries(entries);
    let max = ceil_div(sorted.len() as int, ceil_div(cycle, chunk));
    let e = Map::<int, Seq<FileEntry>>::empty();
    assert forall|x: int| 0 <= x < sorted.len() implies 0 <= ceil_div(days_ahead(#[trigger] sorted[x], today, cycle), chunk) by {
        lemma_ceil_div(days_ahead(sorted[x], today, cycle), chunk);
    }
    lemma_fill_in_order(e, sorted, today, cycle, chunk, max, 0, 0);
}

/// Filling `a` and then `b` is filling `a + b`.
proof fn lemma_fill_concat(
    m: Map<int, Seq<FileEntry>>,
    a: Seq<FileEntry>,
    b: Seq<FileEntry>,
    today: int,
    cycle: int,
    chunk: int,
    max: int,
)
    ensures
        fill(m, a + b, today, cycle, chunk, max) == (match fill(m, a, today, cycle, chunk, max) {
            Some(m1) => fill(m1, b, today, cycle, chunk, max),
            None => None,
        }),
    decreases a.len(),
{
    if a.len() == 0 {
        assert(a + b =~= b);
    } else {
        assert((a + b)[0] == a[0]);
        assert((a + b).drop_first() =~= a.drop_first() + b);
        match place(m, a[0], today, cycle, chunk, max) {
            Some(m1) => lemma_fill_concat(m1, a.drop_first(), b, today, cycle, chunk, max),
            None => {},
        }
    }
}

/// Editing a file pushes it later in the schedule: without a cycle anchor, when the file `e`
/// is changed again on a later date (becoming `e2`, a blob not listed before) while the other
/// files `rest` stay as they are, the old schedule lists `e` on the date `d`, and the new
/// schedule lists `e2` on no date earlier than `d`.
pub proof fn law_edit_pushes_later(
    rest: Seq<FileEntry>,
    e: FileEntry,
    e2: FileEntry,
    cycle: int,
    chunk: int,
    today: int,
) -> (d: int)
    requires
        0 < chunk <= cycle,
        in_day_range(today),
        e.date_of()@ < e2.date_of()@,
        !rest.contains(e2),
        schedule_spec(rest.push(e), cycle, chunk, today, None) is Some,
        schedule_spec(rest.push(e2), cycle, chunk, today, None) is Some,
    ensures
        ({
            let m = schedule_spec(rest.push(e), cycle, chunk, today, None)->Some_0;
            let m2 = schedule_spec(rest.push(e2), cycle, chunk, today, None)->Some_0;
            &&& m.contains_key(d) && m[d].contains(e)
            &&& forall|d2: int| #[trigger] m2.contains_key(d2) && m2[d2].contains(e2) ==> d <= d2
        }),
{
    crate::entry::lemma_key_order();
    crate::entry::lemma_sort_entries(rest);
    let t = sort_entries(rest);
    let s1 = rest.push(e);
    let s2 = rest.push(e2);
    assert(s1.drop_last() =~= rest);
    assert(s2.drop_last() =~= rest);
    crate::entry::lemma_sort_entries(s1);
    crate::entry::lemma_sort_entries(s2);
    let p = insert_pos(t, e);
    let p2 = insert_pos(t, e2);
    assert(sort_entries(s1) == t.insert(p, e));
    assert(sort_entries(s2) == t.insert(p2, e2));
    crate::entry::lemma_insert_pos(t, e);
    crate::entry::lemma_insert_pos(t, e2);
    assert(key_lt(e, e2));
    if p2 < p {
        assert(!key_lt(e, t[p2]));
        assert(key_lt(e2, t[p2]));
        assert(false);
    }
    // `e2` is no entry of `rest`, so none of its sorted entries
    assert(!t.contains(e2)) by {
        t.to_multiset_ensures();
        rest.to_multiset_ensures();
        assert(rest.to_multiset().count(e2) == 0);
        assert(t.to_multiset().count(e2) == rest.to_multiset().count(e2));
    }
    let n = t.len() as int;
    let max = ceil_div(n + 1, ceil_div(cycle, chunk));
    let a = t.take(p);
    let mid = t.subrange(p, p2);
    let tail1 = t.skip(p);
    let tail2 = t.skip(p2);
    let rest1 = seq![e] + tail1;
    let rest2 = seq![e2] + tail2;
    assert(t.insert(p, e) =~= a + rest1);
    assert(t.insert(p2, e2) =~= a + (mid + rest2));
    let empty = Map::<int, Seq<FileEntry>>::empty();
    lemma_fill_concat(empty, a, rest1, today, cycle, chunk, max);
    lemma_fill_concat(empty, a, mid + rest2, today, cycle, chunk, max);
    let f = fill(empty, a, today, cycle, chunk, max)->Some_0;
    lemma_fill_appends(empty, a, today, cycle, chunk, max);
    lemma_fill_concat(f, mid, rest2, today, cycle, chunk, max);
    let g = fill(f, mid, today, cycle, chunk, max)->Some_0;
    lemma_fill_appends(f, mid, today, cycle, chunk, max);
    let limit = step_limit(today);
    // the old schedule: `e` lands on grid step `sigma`, past full steps only
    let k0 = ceil_div(days_ahead(e, today, cycle), chunk);
    let sigma = first_free(f, today, chunk, max, k0, limit);
    let d = today + sigma * chunk;
    assert(rest1[0] == e && rest1.drop_first() =~= tail1);
    let m1 = add_to(f, d, e);
    assert(place(f, e, today, cycle, chunk, max) == Some(m1));
    let m = fill(m1, tail1, today, cycle, chunk, max)->Some_0;
    lemma_fill_appends(m1, tail1, today, cycle, chunk, max);
    let old_len = if f.contains_key(d) { f[d].len() as int } else { 0int };
    assert(m1.contains_key(d) && m1[d].len() == old_len + 1 && m1[d][old_len] == e);
    assert(m[d][old_len] == e);
    lemma_first_free_skips(f, today, chunk, max, k0, limit);
    lemma_first_free_ge(f, today, chunk, max, k0, limit);
    lemma_ceil_div(days_ahead(e, today, cycle), chunk);
    assert(sigma <= sigma * chunk) by (nonlinear_arith) requires sigma >= 0, chunk >= 1;
    assert(sigma <= limit);
    // the new schedule: the steps that were full stay full, so `e2` lands no earlier
    let k02 = ceil_div(days_ahead(e2, today, cycle), chunk);
    lemma_due_step_monotone(e, e2, today, cycle, chunk);
    assert forall|x: int| count_at(g, x) >= count_at(f, x) by {
        if f.contains_key(x) {
            assert(g.contains_key(x));
        }
    }
    assert forall|j: int| k02 <= j < sigma implies #[trigger] step_full(g, today, chunk, max, j) by {
        assert(step_full(f, today, chunk, max, j));
        assert(count_at(g, today + j * chunk) >= count_at(f, today + j * chunk));
    }
    lemma_first_free_past_full(g, today, chunk, max, k02, sigma, limit);
    let sigma2 = first_free(g, today, chunk, max, k02, limit);
    let d2 = today + sigma2 * chunk;
    assert(sigma * chunk <= sigma2 * chunk) by (nonlinear_arith) requires sigma <= sigma2, chunk >= 1;
    assert(rest2[0] == e2 && rest2.drop_first() =~= tail2);
    let g1 = add_to(g, d2, e2);
    assert(place(g, e2, today, cycle, chunk, max) == Some(g1));
    let m2 = fill(g1, tail2, today, cycle, chunk, max)->Some_0;
    lemma_fill_appends(g1, tail2, today, cycle, chunk, max);
    // before `e2`, no step holds it
    assert forall|x: int, j: int| g.contains_key(x) && 0 <= j < g[x].len() implies #[trigger] g[x][j] != e2 by {
        if f.contains_key(x) && j < f[x].len() {
            assert(g[x][j] == f[x][j]);
            assert(a.contains(f[x][j]));
            let i = choose|i: int| 0 <= i < a.len() && a[i] == f[x][j];
            assert(t[i] == a[i]);
        } else {
            assert(mid.contains(g[x][j]));
            let i = choose|i: int| 0 <= i < mid.len() && mid[i] == g[x][j];
            assert(t[p + i] == mid[i]);
        }
    }
    assert forall|d3: int| #[trigger] m2.contains_key(d3) && m2[d3].contains(e2) implies d <= d3 by {
        let j = choose|j: int| 0 <= j < m2[d3].len() && m2[d3][j] == e2;
        if g1.contains_key(d3) && j < g1[d3].len() {
            assert(m2[d3][j] == g1[d3][j]);
            if d3 != d2 {
                assert(g1[d3] == g[d3]);
                assert(g[d3][j] != e2);
            }
        } else {
            assert(tail2.contains(m2[d3][j]));
            let i = choose|i: int| 0 <= i < tail2.len() && tail2[i] == m2[d3][j];
            assert(t[p2 + i] == tail2[i]);
        }
    }
    assert(m.contains_key(d) && m[d].contains(e));
    d
}

/// A schedule with a cycle anchor ending on `cycle_end`: every date is on the grid
/// `today + k * chunk_days`; no file is scheduled before today or before its last change
/// plus one cycle; every overdue file lands today or on a slot strictly before `cycle_end`;
/// and every date but today holds at most `max(ceil(overdue / slots), ceil(future /
/// ceil(cycle_days / chunk_days)))` files, where `slots = ceil(max(1, cycle_end - today) /
/// chunk_days)`.
pub proof fn law_backward_fill(entries: Seq<FileEntry>, cycle: int, chunk: int, today: int, cycle_end: int)
    requires
        0 < chunk <= cycle,
        in_day_range(today),
        in_day_range(cycle_end),
        schedule_spec(entries, cycle, chunk, today, Some(cycle_end)) is Some,
    ensures
        ({
            let m = schedule_spec(entries, cycle, chunk, today, Some(cycle_end))->Some_0;
            let sorted = sort_entries(entries);
            let ov = overdue_part(sorted, today, cycle);
            let fu = future_part(sorted, today, cycle);
            let days_to_end = if cycle_end - today > 1 { cycle_end - today } else { 1 };
            let slots = ceil_div(days_to_end, chunk);
            let per = ceil_div(ov.len() as int, slots);
            let max_future = ceil_div(fu.len() as int, ceil_div(cycle, chunk));
            &&& on_grid(m, today, chunk)
            &&& not_early(m, today, cycle)
            &&& capped(m, if per > max_future { per } else { max_future }, Some(today))
            &&& forall|d: int, i: int| #[trigger] m.contains_key(d) && 0 <= i < m[d].len()
                    && is_overdue(#[trigger] m[d][i], today, cycle) ==> d == today || d < cycle_end
        }),
{
    let sorted = sort_entries(entries);
    let ov = overdue_part(sorted, today, cycle);
    let fu = future_part(sorted, today, cycle);
    let days_to_end = if cycle_end - today > 1 { cycle_end - today } else { 1 };
    let slots = ceil_div(days_to_end, chunk);
    lemma_ceil_div(days_to_end, chunk);
    let per = ceil_div(ov.len() as int, slots);
    lemma_ceil_div(ov.len() as int, slots);
    lemma_ceil_div(cycle, chunk);
    let max_future = ceil_div(fu.len() as int, ceil_div(cycle, chunk));
    let cap = if per > max_future { per } else { max_future };
    assert forall|i: int| 0 <= i < ov.len() implies is_overdue(#[trigger] ov[i], today, cycle) by {
        sorted.lemma_filter_pred(overdue_pred(today, cycle), i);
    }
    assert((slots - 1) * chunk < days_to_end);
    lemma_backfill_props(ov, today, cycle, chunk, slots, per);
    let b = backfill(ov, today, chunk, slots, per, 0);
    lemma_fill_keeps(b, fu, today, cycle, chunk, max_future, cap, Some(today));
    lemma_fill_appends(b, fu, today, cycle, chunk, max_future);
    let m = fill(b, fu, today, cycle, chunk, max_future)->Some_0;
    assert forall|d: int, i: int| #[trigger] m.contains_key(d) && 0 <= i < m[d].len()
        && is_overdue(#[trigger] m[d][i], today, cycle) implies d == today || d < cycle_end by {
        if !(b.contains_key(d) && i < b[d].len()) {
            assert(fu.contains(m[d][i]));
            let j = choose|j: int| 0 <= j < fu.len() && fu[j] == m[d][i];
            sorted.lemma_filter_pred(not_overdue_pred(today, cycle), j);
        } else {
            assert(d <= today + (slots - 1) * chunk);
        }
    }
}

/// The schedule depends only on which files there are, not on the order they are listed in,
/// as long as no two of them share a modification date and blob object id.
pub proof fn law_schedule_ignores_input_order(
    s1: Seq<FileEntry>,
    s2: Seq<FileEntry>,
    cycle: int,
    chunk: int,
    today: int,
    cycle_end: Option<int>,
)
    requires
        s1.to_multiset() == s2.to_multiset(),
        distinct_keys(s1.to_multiset()),
    ensures
        schedule_spec(s1, cycle, chunk, today, cycle_end) == schedule_spec(s2, cycle, chunk, today, cycle_end),
{
    crate::entry::law_sort_ignores_input_order(s1, s2);
}

/// Stability of the backward fill: the slots after today hold only the first
/// `(slots - 1) * per` overdue entries (oldest first), and today's slot takes the rest. So when
/// entries from today's slot leave the overdue list (they were completed) and `per` stays the
/// same, every slot other than today keeps exactly the same files.
pub proof fn law_backfill_stable(
    ov: Seq<FileEntry>,
    ov2: Seq<FileEntry>,
    today: int,
    chunk: int,
    slots: int,
    per: int,
)
    requires
        chunk > 0,
        slots >= 1,
        per >= 0,
        (slots - 1) * per <= ov2.len(),
        (slots - 1) * per <= ov.len(),
        ov2.take((slots - 1) * per) == ov.take((slots - 1) * per),
    ensures
        ({
            let m = backfill(ov, today, chunk, slots, per, 0);
            let m2 = backfill(ov2, today, chunk, slots, per, 0);
            forall|d: int| d != today ==> {
                &&& #[trigger] m.contains_key(d) == m2.contains_key(d)
                &&& m.contains_key(d) ==> m[d] == m2[d]
            }
        }),
{
    let l = (slots - 1) * per;
    assert forall|k: int| 1 <= k < slots implies #[trigger] segment(ov, slots, per, k) == segment(ov2, slots, per, k) by {
        assert((slots - 1 - k) * per >= 0) by (nonlinear_arith) requires slots - 1 - k >= 0, per >= 0;
        assert((slots - k) * per >= (slots - 1 - k) * per) by (nonlinear_arith) requires per >= 0;
        assert((slots - k) * per <= l) by (nonlinear_arith) requires k >= 1, per >= 0, l == (slots - 1) * per;
        let lo = (slots - 1 - k) * per;
        let hi = (slots - k) * per;
        assert(segment(ov, slots, per, k) =~= ov.take(l).subrange(lo, hi));
        assert(segment(ov2, slots, per, k) =~= ov2.take(l).subrange(lo, hi));
    }
    let m = backfill(ov, today, chunk, slots, per, 0);
    let m2 = backfill(ov2, today, chunk, slots, per, 0);
    assert forall|d: int| d != today implies {
        &&& #[trigger] m.contains_key(d) == m2.contains_key(d)
        &&& m.contains_key(d) ==> m[d] == m2[d]
    } by {
        if m.contains_key(d) {
            let j = choose|j: int| 0 <= j < slots && d == today + j * chunk && (#[trigger] segment(ov, slots, per, j)).len() > 0;
            assert(j != 0);
            lemma_grid_step(today, chunk, j);
            assert(segment(ov2, slots, per, j).len() > 0);
            assert(m2.contains_key(d));
            assert(m[d] == segment(ov, slots, per, j));
            assert(m2[d] == segment(ov2, slots, per, j));
        }
        if m2.contains_key(d) {
            let j = choose|j: int| 0 <= j < slots && d == today + j * chunk && (#[trigger] segment(ov2, slots, per, j)).len() > 0;
            assert(j != 0);
            lemma_grid_step(today, chunk, j);
            assert(segment(ov, slots, per, j).len() > 0);
            assert(m.contains_key(d));
        }
    }
}

// ------------------------------------------------------------------------------------------
// Stability of an anchored schedule when today's files are done.

/// `s` is in strictly increasing scheduling order.
pub open spec fn key_increasing(s: Seq<FileEntry>) -> bool {
    forall|i: int, j: int| 0 <= i < j < s.len() ==> key_lt(#[trigger] s[i], #[trigger] s[j])
}

/// A sorted sequence of entries with distinct keys is strictly increasing.
proof fn lemma_sorted_increasing(s: Seq<FileEntry>)
    requires
        key_sorted(s),
        distinct_keys(s.to_multiset()),
    ensures
        key_increasing(s),
{
    broadcast use vstd::multiset::group_multiset_axioms;
    crate::entry::lemma_key_order();
    s.to_multiset_ensures();
    assert forall|i: int, j: int| 0 <= i < j < s.len() implies key_lt(#[trigger] s[i], #[trigger] s[j]) by {
        if !key_lt(s[i], s[j]) {
            assert(!key_lt(s[j], s[i]));
            assert(s.contains(s[i]) && s.contains(s[j]));
            assert(s.to_multiset().contains(s[i]) && s.to_multiset().contains(s[j]));
            assert(s[i] == s[j]);
            let r = s.remove(j);
            r.to_multiset_ensures();
            assert(r[i] == s[i]);
            assert(r.contains(s[i]));
            assert(r.to_multiset() =~= s.to_multiset().remove(s[j]));
            assert(r.to_multiset().count(s[i]) > 0);
            assert(s.to_multiset().count(s[i]) <= 1);
            assert(false);
        }
    }
}

/// Filtering keeps a strictly increasing sequence strictly increasing.
proof fn lemma_filter_increasing(s: Seq<FileEntry>, pred: spec_fn(FileEntry) -> bool)
    requires
        key_increasing(s),
    ensures
        key_increasing(s.filter(pred)),
    decreases s.len(),
{
    reveal(Seq::filter);
    if s.len() > 0 {
        let t = s.drop_last();
        assert forall|i: int, j: int| 0 <= i < j < t.len() implies key_lt(#[trigger] t[i], #[trigger] t[j]) by {
            assert(t[i] == s[i] && t[j] == s[j]);
        }
        lemma_filter_increasing(t, pred);
        let ft = t.filter(pred);
        if pred(s.last()) {
            let f = ft.push(s.last());
            assert(s.filter(pred) == f);
            assert forall|i: int, j: int| 0 <= i < j < f.len() implies key_lt(#[trigger] f[i], #[trigger] f[j]) by {
                if j < ft.len() {
                    assert(f[i] == ft[i] && f[j] == ft[j]);
                } else {
                    assert(f[i] == ft[i]);
                    assert(ft.contains(ft[i]));
                    t.lemma_filter_contains_rev(pred, ft[i]);
                    let k = choose|k: int| 0 <= k < t.len() && t[k] == ft[i];
                    assert(s[k] == t[k]);
                    assert(key_lt(s[k], s[s.len() - 1]));
                }
            }
        }
    }
}

/// Filtering keeps a sequence whose entries all pass.
proof fn lemma_filter_keeps_all(s: Seq<FileEntry>, pred: spec_fn(FileEntry) -> bool)
    requires
        forall|i: int| 0 <= i < s.len() ==> pred(#[trigger] s[i]),
    ensures
        s.filter(pred) == s,
    decreases s.len(),
{
    reveal(Seq::filter);
    if s.len() > 0 {
        lemma_filter_keeps_all(s.drop_last(), pred);
        assert(s.drop_last().push(s.last()) =~= s);
    }
}

/// Filtering drops a sequence whose entries all fail.
proof fn lemma_filter_drops_all(s: Seq<FileEntry>, pred: spec_fn(FileEntry) -> bool)
    requires
        forall|i: int| 0 <= i < s.len() ==> !pred(#[trigger] s[i]),
    ensures
        s.filter(pred) == Seq::<FileEntry>::empty(),
    decreases s.len(),
{
    reveal(Seq::filter);
    if s.len() > 0 {
        lemma_filter_drops_all(s.drop_last(), pred);
    }
}

/// Two strictly increasing sequences, `b` holding only entries of `a` and the first `l`
/// entries of `a`: `b` starts with those `l` entries, up to index `i`.
proof fn lemma_increasing_prefix_upto(a: Seq<FileEntry>, b: Seq<FileEntry>, l: int, i: int)
    requires
        key_increasing(a),
        key_increasing(b),
        0 <= i <= l <= a.len(),
        forall|x: FileEntry| b.contains(x) ==> a.contains(x),
        forall|k: int| 0 <= k < l ==> b.contains(#[trigger] a[k]),
    ensures
        i <= b.len(),
        forall|k: int| 0 <= k < i ==> b[k] == a[k],
    decreases i,
{
    crate::entry::lemma_key_order();
    if i > 0 {
        let h = i - 1;
        lemma_increasing_prefix_upto(a, b, l, h);
        assert(b.contains(a[h]));
        let j = choose|j: int| 0 <= j < b.len() && b[j] == a[h];
        if j < h {
            assert(b[j] == a[j]);
            assert(key_lt(a[j], a[h]));
            assert(false);
        }
        assert(h < b.len());
        assert(b.contains(b[h]));
        assert(a.contains(b[h]));
        let k = choose|k: int| 0 <= k < a.len() && a[k] == b[h];
        if k < h {
            assert(b[k] == a[k]);
            assert(key_lt(b[k], b[h]));
            assert(false);
        }
        if j > h {
            assert(key_lt(b[h], b[j]));
            if k > h {
                assert(key_lt(a[h], a[k]));
            }
            assert(false);
        }
        assert(b[h] == a[h]);
    }
}


/// Number of slots for the overdue files before a cycle that ends on `end`:
/// `ceil(max(1, end - today) / chunk)`.
pub open spec fn overdue_slots(today: int, end: int, chunk: int) -> int {
    ceil_div(if end - today > 1 { end - today } else { 1 }, chunk)
}

/// The overdue files that `m` schedules on day `d`, in their order there.
pub open spec fn overdue_at(m: Map<int, Seq<FileEntry>>, d: int, today: int, cycle: int) -> Seq<FileEntry> {
    if m.contains_key(d) {
        m[d].filter(overdue_pred(today, cycle))
    } else {
        Seq::empty()
    }
}

/// The files of `m` on day `d` (none when `m` has no such day).
pub open spec fn files_at(m: Map<int, Seq<FileEntry>>, d: int) -> Seq<FileEntry> {
    if m.contains_key(d) {
        m[d]
    } else {
        Seq::empty()
    }
}

/// In an anchored schedule, the overdue files of each day are the ones the backward fill
/// put there: the forward fill of the other files only appends files that are not overdue.
proof fn lemma_overdue_at_backfill(
    s: Seq<FileEntry>,
    m: Map<int, Seq<FileEntry>>,
    today: int,
    cycle: int,
    chunk: int,
    slots: int,
    per: int,
    max: int,
)
    requires
        chunk > 0,
        slots >= 1,
        per >= 0,
        fill(
            backfill(s.filter(overdue_pred(today, cycle)), today, chunk, slots, per, 0),
            s.filter(not_overdue_pred(today, cycle)),
            today,
            cycle,
            chunk,
            max,
        ) == Some(m),
    ensures
        forall|d: int|
            #[trigger] overdue_at(m, d, today, cycle) == files_at(
                backfill(s.filter(overdue_pred(today, cycle)), today, chunk, slots, per, 0),
                d,
            ),
{
    let p = overdue_pred(today, cycle);
    let ov = s.filter(p);
    let fu = s.filter(not_overdue_pred(today, cycle));
    let bf = backfill(ov, today, chunk, slots, per, 0);
    lemma_fill_appends(bf, fu, today, cycle, chunk, max);
    assert forall|i: int| 0 <= i < fu.len() implies !p(#[trigger] fu[i]) by {
        s.lemma_filter_pred(not_overdue_pred(today, cycle), i);
    }
    assert forall|d: int| #[trigger] overdue_at(m, d, today, cycle) == files_at(bf, d) by {
        if bf.contains_key(d) {
            let j = choose|j: int| 0 <= j < slots && d == today + j * chunk && (#[trigger] segment(ov, slots, per, j)).len() > 0;
            lemma_grid_step(today, chunk, j);
            let n = ov.len() as int;
            assert((slots - 1 - j) * per >= 0) by (nonlinear_arith) requires slots - 1 - j >= 0, per >= 0;
            assert((slots - j) * per >= (slots - 1 - j) * per) by (nonlinear_arith) requires per >= 0;
            let lo = if (slots - 1 - j) * per < n { (slots - 1 - j) * per } else { n };
            let b = bf[d];
            assert(b == segment(ov, slots, per, j));
            assert forall|i: int| 0 <= i < b.len() implies p(#[trigger] b[i]) by {
                assert(b[i] == ov[lo + i]);
                s.lemma_filter_pred(p, lo + i);
            }
            lemma_filter_keeps_all(b, p);
            let extra = m[d].skip(b.len() as int);
            assert(m[d] =~= b + extra);
            assert forall|i: int| 0 <= i < extra.len() implies !p(#[trigger] extra[i]) by {
                let x = b.len() + i;
                assert(extra[i] == m[d][x]);
                assert(fu.contains(m[d][x]));
                let k = choose|k: int| 0 <= k < fu.len() && fu[k] == m[d][x];
            }
            lemma_filter_drops_all(extra, p);
            Seq::filter_distributes_over_add(b, extra, p);
            assert(extra.filter(p) + b =~= b) by {
                assert(extra.filter(p) =~= Seq::<FileEntry>::empty());
            }
            assert(b.filter(p) + extra.filter(p) =~= b);
        } else if m.contains_key(d) {
            assert forall|i: int| 0 <= i < m[d].len() implies !p(#[trigger] m[d][i]) by {
                assert(!bf.contains_key(d));
                let mf = fill(bf, fu, today, cycle, chunk, max)->Some_0;
                assert(mf == m);
                assert(mf.contains_key(d) && 0 <= i < mf[d].len() && !(bf.contains_key(d) && i < bf[d].len()));
                assert(fu.contains(mf[d][i]));
                let k = choose|k: int| 0 <= k < fu.len() && fu[k] == m[d][i];
            }
            lemma_filter_drops_all(m[d], p);
        }
    }
}

/// Completing today's files never shifts the later slots of an anchored schedule: when some
/// overdue files scheduled today leave the overdue list (they are done, and now due in a
/// later cycle, or gone), while every other overdue file stays listed, no new one becomes
/// overdue and each slot still takes as many, every day but today keeps exactly the same
/// overdue files.
pub proof fn law_done_today_keeps_later_slots(
    entries: Seq<FileEntry>,
    entries2: Seq<FileEntry>,
    cycle: int,
    chunk: int,
    today: int,
    end: int,
)
    requires
        0 < chunk <= cycle,
        distinct_keys(entries.to_multiset()),
        distinct_keys(entries2.to_multiset()),
        schedule_spec(entries, cycle, chunk, today, Some(end)) is Some,
        schedule_spec(entries2, cycle, chunk, today, Some(end)) is Some,
        forall|e: FileEntry| #[trigger] entries2.contains(e) && is_overdue(e, today, cycle) ==> entries.contains(e),
        forall|e: FileEntry|
            #[trigger] entries.contains(e) && is_overdue(e, today, cycle) && !overdue_at(
                schedule_spec(entries, cycle, chunk, today, Some(end))->Some_0,
                today,
                today,
                cycle,
            ).contains(e) ==> entries2.contains(e),
        ceil_div(overdue_part(sort_entries(entries2), today, cycle).len() as int, overdue_slots(today, end, chunk))
            == ceil_div(overdue_part(sort_entries(entries), today, cycle).len() as int, overdue_slots(today, end, chunk)),
    ensures
        ({
            let m = schedule_spec(entries, cycle, chunk, today, Some(end))->Some_0;
            let m2 = schedule_spec(entries2, cycle, chunk, today, Some(end))->Some_0;
            forall|d: int| d != today ==> #[trigger] overdue_at(m2, d, today, cycle) == overdue_at(m, d, today, cycle)
        }),
{
    crate::entry::lemma_key_order();
    crate::entry::lemma_sort_entries(entries);
    crate::entry::lemma_sort_entries(entries2);
    let s = sort_entries(entries);
    let s2 = sort_entries(entries2);
    assert(s.to_multiset() == entries.to_multiset());
    assert(s2.to_multiset() == entries2.to_multiset());
    lemma_sorted_increasing(s);
    lemma_sorted_increasing(s2);
    let p = overdue_pred(today, cycle);
    let ov = s.filter(p);
    let ov2 = s2.filter(p);
    lemma_filter_increasing(s, p);
    lemma_filter_increasing(s2, p);
    let slots = overdue_slots(today, end, chunk);
    lemma_ceil_div(if end - today > 1 { end - today } else { 1 }, chunk);
    let n = ov.len() as int;
    let per = ceil_div(n, slots);
    lemma_ceil_div(n, slots);
    let l = (slots - 1) * per;
    assert(l >= 0) by (nonlinear_arith) requires slots >= 1, per >= 0, l == (slots - 1) * per;
    let m = schedule_spec(entries, cycle, chunk, today, Some(end))->Some_0;
    let m2 = schedule_spec(entries2, cycle, chunk, today, Some(end))->Some_0;
    let cpc = ceil_div(cycle, chunk);
    let fu = s.filter(not_overdue_pred(today, cycle));
    let fu2 = s2.filter(not_overdue_pred(today, cycle));
    let bf = backfill(ov, today, chunk, slots, per, 0);
    let bf2 = backfill(ov2, today, chunk, slots, per, 0);
    assert(fill(bf, fu, today, cycle, chunk, ceil_div(fu.len() as int, cpc)) == Some(m));
    assert(fill(bf2, fu2, today, cycle, chunk, ceil_div(fu2.len() as int, cpc)) == Some(m2));
    lemma_overdue_at_backfill(s, m, today, cycle, chunk, slots, per, ceil_div(fu.len() as int, cpc));
    lemma_overdue_at_backfill(s2, m2, today, cycle, chunk, slots, per, ceil_div(fu2.len() as int, cpc));
    s.to_multiset_ensures();
    s2.to_multiset_ensures();
    entries.to_multiset_ensures();
    entries2.to_multiset_ensures();
    // every overdue file of the new list was overdue before
    assert forall|x: FileEntry| ov2.contains(x) implies ov.contains(x) by {
        s2.lemma_filter_contains_rev(p, x);
        let j = choose|j: int| 0 <= j < ov2.len() && ov2[j] == x;
        s2.lemma_filter_pred(p, j);
        assert(s2.to_multiset().count(x) > 0);
        assert(entries2.contains(x));
        assert(entries.contains(x));
        assert(entries.to_multiset().count(x) > 0);
        assert(s.contains(x));
        let i = choose|i: int| 0 <= i < s.len() && s[i] == x;
        s.lemma_filter_contains(p, i);
    }
    // the overdue files before today's share stay listed
    let l2 = if l < n { l } else { n };
    assert(files_at(bf, today) == segment(ov, slots, per, 0) || files_at(bf, today) == Seq::<FileEntry>::empty()) by {
        if bf.contains_key(today) {
            assert((today - today) / chunk == 0);
        }
    }
    assert forall|k: int| 0 <= k < l2 implies ov2.contains(#[trigger] ov[k]) by {
        let x = ov[k];
        s.lemma_filter_pred(p, k);
        assert(ov.contains(x));
        s.lemma_filter_contains_rev(p, x);
        assert(s.to_multiset().count(x) > 0);
        assert(entries.contains(x));
        let today_files = overdue_at(m, today, today, cycle);
        assert(!today_files.contains(x)) by {
            if today_files.contains(x) {
                let seg = segment(ov, slots, per, 0);
                assert(today_files == seg);
                let i = choose|i: int| 0 <= i < seg.len() && seg[i] == x;
                assert(seg[i] == ov[l2 + i]);
                assert(key_lt(ov[k], ov[l2 + i]));
            }
        }
        assert(entries2.contains(x));
        assert(entries2.to_multiset().count(x) > 0);
        assert(s2.contains(x));
        let i = choose|i: int| 0 <= i < s2.len() && s2[i] == x;
        s2.lemma_filter_contains(p, i);
    }
    lemma_increasing_prefix_upto(ov, ov2, l2, l2);
    if l <= n {
        assert(ov2.take(l) =~= ov.take(l));
        law_backfill_stable(ov, ov2, today, chunk, slots, per);
    } else {
        if ov2.len() > n {
            assert(ov2.contains(ov2[n]));
            let k = choose|k: int| 0 <= k < n && ov[k] == ov2[n];
            assert(ov2[k] == ov[k]);
            assert(key_lt(ov2[k], ov2[n]));
        }
        assert(ov2 =~= ov);
    }
    assert forall|d: int| d != today implies #[trigger] overdue_at(m2, d, today, cycle) == overdue_at(m, d, today, cycle) by {
        assert(overdue_at(m, d, today, cycle) == files_at(bf, d));
        assert(overdue_at(m2, d, today, cycle) == files_at(bf2, d));
    }
}

/// No entry occurs twice in `s`.
pub open spec fn no_repeats(s: Seq<FileEntry>) -> bool {
    forall|i: int, j: int| 0 <= i < j < s.len() ==> #[trigger] s[i] != #[trigger] s[j]
}

/// Where `x` goes in `v` when the first `c` entries of `v` do not follow it and the others do.
proof fn lemma_insert_pos_split(v: Seq<FileEntry>, x: FileEntry, c: int)
    requires
        0 <= c <= v.len(),
        forall|i: int| 0 <= i < c ==> !key_lt(x, #[trigger] v[i]),
        forall|i: int| c <= i < v.len() ==> key_lt(x, #[trigger] v[i]),
    ensures
        insert_pos(v, x) == c,
    decreases v.len(),
{
    if v.len() > 0 && c < v.len() {
        let t = v.drop_last();
        assert forall|i: int| 0 <= i < c implies !key_lt(x, #[trigger] t[i]) by {
            assert(t[i] == v[i]);
        }
        assert forall|i: int| c <= i < t.len() implies key_lt(x, #[trigger] t[i]) by {
            assert(t[i] == v[i]);
        }
        assert(key_lt(x, v[v.len() - 1]));
        lemma_insert_pos_split(t, x, c);
    }
}

/// Filtering keeps a property of every entry.
proof fn lemma_filter_all_from(v: Seq<FileEntry>, p: spec_fn(FileEntry) -> bool, q: spec_fn(FileEntry) -> bool)
    requires
        forall|i: int| 0 <= i < v.len() ==> q(#[trigger] v[i]),
    ensures
        forall|i: int| 0 <= i < v.filter(p).len() ==> q(#[trigger] v.filter(p)[i]),
{
    assert forall|i: int| 0 <= i < v.filter(p).len() implies q(#[trigger] v.filter(p)[i]) by {
        let f = v.filter(p);
        assert(f.contains(f[i]));
        v.lemma_filter_contains_rev(p, f[i]);
        let k = choose|k: int| 0 <= k < v.len() && v[k] == f[i];
    }
}

/// The stable sort and a filter can be taken in either order.
proof fn lemma_sort_filter(s: Seq<FileEntry>, p: spec_fn(FileEntry) -> bool)
    ensures
        sort_entries(s).filter(p) == sort_entries(s.filter(p)),
    decreases s.len(),
{
    reveal(Seq::filter);
    crate::entry::lemma_key_order();
    if s.len() == 0 {
        assert(s.filter(p) =~= s);
    } else {
        let t0 = s.drop_last();
        let x = s.last();
        lemma_sort_filter(t0, p);
        crate::entry::lemma_sort_entries(t0);
        let tt = sort_entries(t0);
        let k = insert_pos(tt, x);
        crate::entry::lemma_insert_pos(tt, x);
        let a = tt.take(k);
        let b = tt.skip(k);
        assert(tt =~= a + b);
        assert(tt.insert(k, x) =~= a + (seq![x] + b));
        Seq::filter_distributes_over_add(a, seq![x] + b, p);
        Seq::filter_distributes_over_add(seq![x], b, p);
        Seq::filter_distributes_over_add(a, b, p);
        assert(seq![x].drop_last() =~= Seq::<FileEntry>::empty());
        let fa = a.filter(p);
        let fb = b.filter(p);
        let u = sort_entries(t0.filter(p));
        assert(u == fa + fb);
        if p(x) {
            assert(seq![x].filter(p) =~= seq![x]);
            assert(s.filter(p) == t0.filter(p).push(x));
            assert(s.filter(p).drop_last() =~= t0.filter(p));
            assert(s.filter(p).last() == x);
            assert forall|i: int| 0 <= i < a.len() implies !key_lt(x, #[trigger] a[i]) by {
                assert(a[i] == tt[i]);
            }
            assert forall|i: int| 0 <= i < b.len() implies key_lt(x, #[trigger] b[i]) by {
                assert(b[i] == tt[k + i]);
            }
            lemma_filter_all_from(a, p, |e: FileEntry| !key_lt(x, e));
            lemma_filter_all_from(b, p, |e: FileEntry| key_lt(x, e));
            assert forall|i: int| 0 <= i < fa.len() implies !key_lt(x, #[trigger] u[i]) by {
                assert(u[i] == fa[i]);
            }
            assert forall|i: int| fa.len() <= i < u.len() implies key_lt(x, #[trigger] u[i]) by {
                assert(u[i] == fb[i - fa.len()]);
            }
            lemma_insert_pos_split(u, x, fa.len() as int);
            assert(sort_entries(s.filter(p)) == u.insert(fa.len() as int, x));
            assert(u.insert(fa.len() as int, x) =~= fa + (seq![x] + fb));
        } else {
            assert(seq![x].drop_last().filter(p) =~= Seq::<FileEntry>::empty());
            assert(seq![x].last() == x);
            assert(seq![x].filter(p) =~= Seq::<FileEntry>::empty());
            assert(s.filter(p) == t0.filter(p));
            assert(fa + (Seq::<FileEntry>::empty() + fb) =~= fa + fb);
        }
        assert(sort_entries(s) == tt.insert(k, x));
    }
}

/// Filtering keeps a sequence without repeats free of repeats.
proof fn lemma_filter_no_repeats(s: Seq<FileEntry>, p: spec_fn(FileEntry) -> bool)
    requires
        no_repeats(s),
    ensures
        no_repeats(s.filter(p)),
    decreases s.len(),
{
    reveal(Seq::filter);
    if s.len() > 0 {
        let t = s.drop_last();
        assert forall|i: int, j: int| 0 <= i < j < t.len() implies #[trigger] t[i] != #[trigger] t[j] by {
            assert(t[i] == s[i] && t[j] == s[j]);
        }
        lemma_filter_no_repeats(t, p);
        let ft = t.filter(p);
        if p(s.last()) {
            let f = ft.push(s.last());
            assert forall|i: int, j: int| 0 <= i < j < f.len() implies #[trigger] f[i] != #[trigger] f[j] by {
                if j == ft.len() {
                    assert(ft.contains(ft[i]));
                    t.lemma_filter_contains_rev(p, ft[i]);
                    let k = choose|k: int| 0 <= k < t.len() && t[k] == ft[i];
                    assert(s[k] == t[k]);
                } else {
                    assert(f[i] == ft[i] && f[j] == ft[j]);
                }
            }
        }
    }
}

/// The stable sort keeps a sequence without repeats free of repeats.
proof fn lemma_sort_no_repeats(s: Seq<FileEntry>)
    requires
        no_repeats(s),
    ensures
        no_repeats(sort_entries(s)),
    decreases s.len(),
{
    if s.len() > 0 {
        let t0 = s.drop_last();
        let x = s.last();
        assert forall|i: int, j: int| 0 <= i < j < t0.len() implies #[trigger] t0[i] != #[trigger] t0[j] by {
            assert(t0[i] == s[i] && t0[j] == s[j]);
        }
        lemma_sort_no_repeats(t0);
        crate::entry::lemma_sort_entries(t0);
        let tt = sort_entries(t0);
        let k = insert_pos(tt, x);
        crate::entry::lemma_insert_pos(tt, x);
        tt.to_multiset_ensures();
        t0.to_multiset_ensures();
        assert(!tt.contains(x)) by {
            if tt.contains(x) {
                assert(tt.to_multiset().count(x) > 0);
                assert(t0.contains(x));
                let j = choose|j: int| 0 <= j < t0.len() && t0[j] == x;
                assert(s[j] == x && s[s.len() - 1] == x);
            }
        }
        let r = tt.insert(k, x);
        assert(sort_entries(s) == r);
        assert forall|i: int, j: int| 0 <= i < j < r.len() implies #[trigger] r[i] != #[trigger] r[j] by {
            if i == k {
                assert(r[j] == tt[j - 1]);
                assert(tt.contains(tt[j - 1]));
            } else if j == k {
                assert(r[i] == tt[i]);
                assert(tt.contains(tt[i]));
            } else {
                let ii = if i < k { i } else { i - 1 };
                let jj = if j < k { j } else { j - 1 };
                assert(r[i] == tt[ii] && r[j] == tt[jj]);
            }
        }
    }
}


/// Completing today's files never shifts the later slots of an anchored schedule, for edits
/// that keep the order of the list: when the overdue files of the new list are those of the
/// old one, in the same order, except some that the old schedule put on today (done, and now
/// due in a later cycle, or gone), no file is listed twice, and each slot still takes as many,
/// every day but today keeps exactly the same overdue files. Files may share a date and blob.
pub proof fn law_done_today_keeps_later_slots_in_order(
    entries: Seq<FileEntry>,
    entries2: Seq<FileEntry>,
    kept: spec_fn(FileEntry) -> bool,
    cycle: int,
    chunk: int,
    today: int,
    end: int,
)
    requires
        0 < chunk <= cycle,
        no_repeats(entries),
        schedule_spec(entries, cycle, chunk, today, Some(end)) is Some,
        schedule_spec(entries2, cycle, chunk, today, Some(end)) is Some,
        entries2.filter(overdue_pred(today, cycle)) == entries.filter(overdue_pred(today, cycle)).filter(kept),
        forall|e: FileEntry|
            #[trigger] entries.contains(e) && is_overdue(e, today, cycle) && !kept(e) ==> overdue_at(
                schedule_spec(entries, cycle, chunk, today, Some(end))->Some_0,
                today,
                today,
                cycle,
            ).contains(e),
        ceil_div(overdue_part(sort_entries(entries2), today, cycle).len() as int, overdue_slots(today, end, chunk))
            == ceil_div(overdue_part(sort_entries(entries), today, cycle).len() as int, overdue_slots(today, end, chunk)),
    ensures
        ({
            let m = schedule_spec(entries, cycle, chunk, today, Some(end))->Some_0;
            let m2 = schedule_spec(entries2, cycle, chunk, today, Some(end))->Some_0;
            forall|d: int| d != today ==> #[trigger] overdue_at(m2, d, today, cycle) == overdue_at(m, d, today, cycle)
        }),
{
    let p = overdue_pred(today, cycle);
    let s = sort_entries(entries);
    let s2 = sort_entries(entries2);
    let ov = s.filter(p);
    let ov2 = s2.filter(p);
    // the overdue files in scheduling order: the new ones are the old ones that were kept
    lemma_sort_filter(entries, p);
    lemma_sort_filter(entries2, p);
    lemma_sort_filter(entries.filter(p), kept);
    assert(ov2 == ov.filter(kept));
    lemma_filter_no_repeats(entries, p);
    lemma_sort_no_repeats(entries.filter(p));
    assert(no_repeats(ov));
    let slots = overdue_slots(today, end, chunk);
    lemma_ceil_div(if end - today > 1 { end - today } else { 1 }, chunk);
    let n = ov.len() as int;
    let per = ceil_div(n, slots);
    lemma_ceil_div(n, slots);
    let l = (slots - 1) * per;
    assert(l >= 0) by (nonlinear_arith) requires slots >= 1, per >= 0, l == (slots - 1) * per;
    let m = schedule_spec(entries, cycle, chunk, today, Some(end))->Some_0;
    let m2 = schedule_spec(entries2, cycle, chunk, today, Some(end))->Some_0;
    let cpc = ceil_div(cycle, chunk);
    let fu = s.filter(not_overdue_pred(today, cycle));
    let fu2 = s2.filter(not_overdue_pred(today, cycle));
    let bf = backfill(ov, today, chunk, slots, per, 0);
    let bf2 = backfill(ov2, today, chunk, slots, per, 0);
    assert(fill(bf, fu, today, cycle, chunk, ceil_div(fu.len() as int, cpc)) == Some(m));
    assert(fill(bf2, fu2, today, cycle, chunk, ceil_div(fu2.len() as int, cpc)) == Some(m2));
    lemma_overdue_at_backfill(s, m, today, cycle, chunk, slots, per, ceil_div(fu.len() as int, cpc));
    lemma_overdue_at_backfill(s2, m2, today, cycle, chunk, slots, per, ceil_div(fu2.len() as int, cpc));
    // the files before today's share are all kept
    let l2 = if l < n { l } else { n };
    assert(files_at(bf, today) == segment(ov, slots, per, 0) || files_at(bf, today) == Seq::<FileEntry>::empty()) by {
        if bf.contains_key(today) {
            assert((today - today) / chunk == 0);
        }
    }
    crate::entry::lemma_sort_entries(entries);
    s.to_multiset_ensures();
    entries.to_multiset_ensures();
    assert forall|a: int| 0 <= a < l2 implies kept(#[trigger] ov[a]) by {
        let x = ov[a];
        s.lemma_filter_pred(p, a);
        assert(ov.contains(x));
        s.lemma_filter_contains_rev(p, x);
        assert(s.to_multiset().count(x) > 0);
        assert(entries.contains(x));
        if !kept(x) {
            let today_files = overdue_at(m, today, today, cycle);
            assert(today_files.contains(x));
            let seg = segment(ov, slots, per, 0);
            assert(today_files == seg);
            let i = choose|i: int| 0 <= i < seg.len() && seg[i] == x;
            assert(seg[i] == ov[l2 + i]);
            assert(ov[a] != ov[l2 + i]);
        }
    }
    let a = ov.take(l2);
    let b = ov.skip(l2);
    assert(ov =~= a + b);
    Seq::filter_distributes_over_add(a, b, kept);
    lemma_filter_keeps_all(a, kept);
    assert(ov2 == a + b.filter(kept));
    if l <= n {
        assert(ov2.take(l) =~= ov.take(l));
        law_backfill_stable(ov, ov2, today, chunk, slots, per);
    } else {
        assert(b =~= Seq::<FileEntry>::empty());
        lemma_filter_drops_all(b, kept);
        assert(ov2 =~= ov);
    }
    assert forall|d: int| d != today implies #[trigger] overdue_at(m2, d, today, cycle) == overdue_at(m, d, today, cycle) by {
        assert(overdue_at(m, d, today, cycle) == files_at(bf, d));
        assert(overdue_at(m2, d, today, cycle) == files_at(bf2, d));
    }
}

} // verus!
