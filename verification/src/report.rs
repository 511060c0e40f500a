//! What the commands print and how they end: listing lines, schedule chunks, the files due
//! now, the check verdict and the hint to anchor the cycle.

use vstd::prelude::*;

use crate::day::{epoch_day_text, in_day_range, Day, MIN_DAY};
use crate::entry::FileEntry;
use crate::params::ScheduleParams;
use crate::schedule::{
    chunk_map, chunks_wf, compute_schedule, count_at, is_overdue, opt_day, schedule_spec,
    scheduled_files, ScheduleOverflow, ScheduledChunk,
};
use crate::text::{decimal, decimal_string};

verus! {

broadcast use vstd::seq_lib::group_to_multiset_ensures;

// ------------------------------------------------------------------------------------------
// Listing and schedule text.

/// The listing line of a file: its date, a space and its path.
pub open spec fn list_line_text(e: FileEntry) -> Seq<char> {
    epoch_day_text(e.date_of()@) + seq![' '] + e.path_of()
}

/// The listing line of a file: `YYYY-MM-DD PATH`.
pub fn list_line(entry: &FileEntry) -> (r: String)
    ensures
        r@ == list_line_text(*entry),
{
    let mut s = entry.get_date().to_iso_string();
    proof {
        reveal_strlit(" ");
    }
    s.append(" ");
    s.append(entry.get_path());
    s
}

/// The lines of the files of a chunk: a tab and the path, each on its own line.
pub open spec fn files_text(files: Seq<FileEntry>) -> Seq<char>
    decreases files.len(),
{
    if files.len() == 0 {
        Seq::empty()
    } else {
        files_text(files.drop_last()) + seq!['\t'] + files.last().path_of() + seq!['\n']
    }
}

/// The text of a chunk: its date and a colon on a line, then its files.
pub open spec fn chunk_text(c: ScheduledChunk) -> Seq<char> {
    epoch_day_text(c.date@) + seq![':', '\n'] + files_text(c.files@)
}

/// The text of a schedule: its chunks one after the other.
pub open spec fn schedule_text(v: Seq<ScheduledChunk>) -> Seq<char>
    decreases v.len(),
{
    if v.len() == 0 {
        Seq::empty()
    } else {
        schedule_text(v.drop_last()) + chunk_text(v.last())
    }
}

/// The text of a chunk.
pub fn render_chunk(chunk: &ScheduledChunk) -> (r: String)
    ensures
        r@ == chunk_text(*chunk),
{
    let mut s = chunk.date.to_iso_string();
    proof {
        reveal_strlit(":\n");
        reveal_strlit("\t");
        reveal_strlit("\n");
    }
    s.append(":\n");
    let ghost head = epoch_day_text(chunk.date@) + seq![':', '\n'];
    assert(s@ =~= head + files_text(chunk.files@.take(0)));
    let mut i: usize = 0;
    while i < chunk.files.len()
        invariant
            i <= chunk.files@.len(),
            head == epoch_day_text(chunk.date@) + seq![':', '\n'],
            s@ == head + files_text(chunk.files@.take(i as int)),
        decreases chunk.files@.len() - i,
    {
        proof {
            reveal_strlit("\t");
            reveal_strlit("\n");
        }
        s.append("\t");
        s.append(chunk.files[i].get_path());
        s.append("\n");
        proof {
            let t = chunk.files@.take(i + 1);
            assert(t.drop_last() =~= chunk.files@.take(i as int));
            assert(t.last() == chunk.files@[i as int]);
            assert(files_text(t) == files_text(chunk.files@.take(i as int)) + seq!['\t'] + chunk.files@[i as int].path_of() + seq!['\n']);
            assert(s@ =~= head + files_text(t));
        }
        i += 1;
    }
    assert(chunk.files@.take(chunk.files@.len() as int) =~= chunk.files@);
    s
}

/// The text of a schedule.
pub fn render_schedule(chunks: &[ScheduledChunk]) -> (r: String)
    ensures
        r@ == schedule_text(chunks@),
{
    let mut s = String::new();
    assert(s@ =~= schedule_text(chunks@.take(0)));
    let mut i: usize = 0;
    while i < chunks.len()
        invariant
            i <= chunks@.len(),
            s@ == schedule_text(chunks@.take(i as int)),
        decreases chunks@.len() - i,
    {
        let text = render_chunk(&chunks[i]);
        s.append(text.as_str());
        proof {
            assert(chunks@.take(i + 1).drop_last() =~= chunks@.take(i as int));
        }
        i += 1;
    }
    assert(chunks@.take(chunks@.len() as int) =~= chunks@);
    s
}

// ------------------------------------------------------------------------------------------
// Files due now.

/// The chunks scheduled on or before `today`, in order.
pub open spec fn due_chunks(v: Seq<ScheduledChunk>, today: int) -> Seq<ScheduledChunk>
    decreases v.len(),
{
    if v.len() == 0 {
        Seq::empty()
    } else {
        let rest = due_chunks(v.drop_last(), today);
        if v.last().date@ <= today {
            rest.push(v.last())
        } else {
            rest
        }
    }
}

/// Keeps the chunks scheduled on or before `today` (what `now` shows).
pub fn take_due_chunks(chunks: Vec<ScheduledChunk>, today: Day) -> (r: Vec<ScheduledChunk>)
    ensures
        r@ == due_chunks(chunks@, today@),
{
    let ghost all = chunks@;
    let mut chunks = chunks;
    let mut out: Vec<ScheduledChunk> = Vec::new();
    let n = chunks.len();
    let mut k: usize = 0;
    while k < n
        invariant
            k <= n == all.len(),
            chunks@ == all.skip(k as int),
            out@ == due_chunks(all.take(k as int), today@),
        decreases n - k,
    {
        let c = chunks.remove(0);
        proof {
            assert(all.take(k + 1).drop_last() =~= all.take(k as int));
            assert(c == all[k as int]);
            assert(chunks@ =~= all.skip(k + 1));
        }
        if c.date.le(today) {
            out.push(c);
        }
        k += 1;
    }
    assert(all.take(n as int) =~= all);
    out
}

/// Number of files of all chunks.
pub open spec fn total_files(v: Seq<ScheduledChunk>) -> int
    decreases v.len(),
{
    if v.len() == 0 {
        0
    } else {
        total_files(v.drop_last()) + v.last().files@.len()
    }
}

/// Number of files of the chunks scheduled on or before `today`.
pub open spec fn due_files(v: Seq<ScheduledChunk>, today: int) -> int
    decreases v.len(),
{
    if v.len() == 0 {
        0
    } else {
        due_files(v.drop_last(), today) + if v.last().date@ <= today {
            v.last().files@.len() as int
        } else {
            0
        }
    }
}

/// Number of files that `m` schedules on the days `lo ..= hi`.
pub open spec fn files_between(m: Map<int, Seq<FileEntry>>, lo: int, hi: int) -> int
    decreases hi - lo + 1,
{
    if hi < lo {
        0
    } else {
        files_between(m, lo, hi - 1) + count_at(m, hi)
    }
}

/// Number of files that schedule `m` has due by `today`.
pub open spec fn files_due(m: Map<int, Seq<FileEntry>>, today: int) -> int {
    files_between(m, MIN_DAY as int, today)
}

proof fn lemma_files_between_insert(m: Map<int, Seq<FileEntry>>, d: int, s: Seq<FileEntry>, lo: int, hi: int)
    requires
        !m.contains_key(d),
    ensures
        files_between(m.insert(d, s), lo, hi) == files_between(m, lo, hi) + if lo <= d <= hi {
            s.len() as int
        } else {
            0
        },
    decreases hi - lo + 1,
{
    if hi >= lo {
        lemma_files_between_insert(m, d, s, lo, hi - 1);
    }
}

proof fn lemma_due_files(v: Seq<ScheduledChunk>, today: int)
    requires
        chunks_wf(v),
    ensures
        due_files(v, today) == files_due(chunk_map(v), today),
        0 <= due_files(v, today) <= total_files(v),
    decreases v.len(),
{
    if v.len() == 0 {
        assert(chunk_map(v) =~= Map::<int, Seq<FileEntry>>::empty());
        lemma_files_between_empty(MIN_DAY as int, today);
    } else {
        let w = v.drop_last();
        let c = v.last();
        assert(chunks_wf(w));
        lemma_due_files(w, today);
        crate::schedule::lemma_chunk_map_insert(w, w.len() as int, c);
        assert(w.insert(w.len() as int, c) =~= v);
        assert(!chunk_map(w).contains_key(c.date@)) by {
            if chunk_map(w).contains_key(c.date@) {
                let j = choose|j: int| 0 <= j < w.len() && (#[trigger] w[j]).date@ == c.date@;
                assert(v[j].date@ < v[v.len() - 1].date@);
            }
        }
        lemma_files_between_insert(chunk_map(w), c.date@, c.files@, MIN_DAY as int, today);
    }
}

proof fn lemma_files_between_empty(lo: int, hi: int)
    ensures
        files_between(Map::<int, Seq<FileEntry>>::empty(), lo, hi) == 0,
    decreases hi - lo + 1,
{
    if hi >= lo {
        lemma_files_between_empty(lo, hi - 1);
    }
}

/// The files of a schedule, counted, are its files as a multiset.
proof fn lemma_total_files(v: Seq<ScheduledChunk>)
    ensures
        total_files(v) == scheduled_files(v).len(),
    decreases v.len(),
{
    if v.len() > 0 {
        lemma_total_files(v.drop_last());
    }
}

proof fn lemma_total_files_prefix(v: Seq<ScheduledChunk>, i: int)
    requires
        0 <= i <= v.len(),
    ensures
        total_files(v.take(i)) <= total_files(v),
        0 <= total_files(v.take(i)),
    decreases v.len(),
{
    if i < v.len() {
        assert(v.drop_last().take(i) =~= v.take(i));
        lemma_total_files_prefix(v.drop_last(), i);
    } else {
        assert(v.take(i) =~= v);
        lemma_total_files_nonneg(v);
    }
}

proof fn lemma_total_files_nonneg(v: Seq<ScheduledChunk>)
    ensures
        total_files(v) >= 0,
    decreases v.len(),
{
    if v.len() > 0 {
        lemma_total_files_nonneg(v.drop_last());
    }
}

/// Number of files of the chunks scheduled on or before `today`.
pub fn count_due_files(chunks: &[ScheduledChunk], today: Day) -> (r: usize)
    requires
        total_files(chunks@) <= usize::MAX,
    ensures
        r == due_files(chunks@, today@),
{
    let mut due: usize = 0;
    let mut i: usize = 0;
    while i < chunks.len()
        invariant
            i <= chunks@.len(),
            total_files(chunks@) <= usize::MAX,
            due == due_files(chunks@.take(i as int), today@),
            0 <= due_files(chunks@.take(i as int), today@) <= total_files(chunks@.take(i as int)),
        decreases chunks@.len() - i,
    {
        proof {
            let t = chunks@.take(i + 1);
            assert(t.drop_last() =~= chunks@.take(i as int));
            lemma_total_files_prefix(chunks@, i + 1);
        }
        if chunks[i].date.le(today) {
            due = due + chunks[i].files.len();
        }
        i += 1;
    }
    assert(chunks@.take(chunks@.len() as int) =~= chunks@);
    due
}

/// `check` counts what `now` shows: the files due by `today` in a schedule are the files of
/// its chunks scheduled on or before `today`.
pub proof fn law_check_counts_what_now_shows(v: Seq<ScheduledChunk>, today: int)
    requires
        chunks_wf(v),
    ensures
        files_due(chunk_map(v), today) == total_files(due_chunks(v, today)),
{
    lemma_due_files(v, today);
    lemma_due_files_total(v, today);
}

proof fn lemma_due_files_total(v: Seq<ScheduledChunk>, today: int)
    ensures
        due_files(v, today) == total_files(due_chunks(v, today)),
    decreases v.len(),
{
    if v.len() > 0 {
        lemma_due_files_total(v.drop_last(), today);
        let rest = due_chunks(v.drop_last(), today);
        if v.last().date@ <= today {
            assert(rest.push(v.last()).drop_last() =~= rest);
        }
    }
}

/// The outcome of `check`: how many files are due now, out of how many.
#[derive(Clone, Copy, Debug, PartialEq, Eq)]
pub struct CheckOutcome {
    /// Files scheduled on or before today.
    pub due: usize,
    /// All listed files.
    pub total: usize,
}

/// Schedules the files and counts those due by `today`.
///
/// # Errors
/// When the schedule's date arithmetic overflows.
pub fn check_files(
    entries: Vec<FileEntry>,
    params: ScheduleParams,
    today: Day,
    cycle_end: Option<Day>,
) -> (r: Result<CheckOutcome, ScheduleOverflow>)
    ensures
        match schedule_spec(entries@, params.cycle(), params.chunk(), today@, opt_day(cycle_end)) {
            None => r is Err,
            Some(m) => r matches Ok(o) && o.total == entries@.len() && o.due == files_due(m, today@),
        },
{
    let total = entries.len();
    let ghost es = entries@;
    match compute_schedule(entries, params, today, cycle_end) {
        Ok(v) => {
            proof {
                lemma_total_files(v@);
                lemma_due_files(v@, today@);
                assert(scheduled_files(v@).len() == es.to_multiset().len());
            }
            let due = count_due_files(v.as_slice(), today);
            Ok(CheckOutcome { due, total })
        },
        Err(e) => Err(e),
    }
}

/// The message of `check`.
pub open spec fn check_text(o: CheckOutcome) -> Seq<char> {
    if o.due > 0 {
        "WARN: Need to update "@ + decimal(o.due as nat) + " file(s) now (of "@ + decimal(o.total as nat)
            + " files total)"@
    } else {
        "PASS: All files up to date"@
    }
}

/// The message of `check` and its exit code: 100 when files are due, 0 otherwise.
pub fn check_message(o: &CheckOutcome) -> (r: (String, i32))
    ensures
        r.0@ == check_text(*o),
        r.1 == (if o.due > 0 {
            100i32
        } else {
            0i32
        }),
{
    if o.due > 0 {
        let mut s = "WARN: Need to update ".to_owned();
        s.append(decimal_string(o.due as u64).as_str());
        s.append(" file(s) now (of ");
        s.append(decimal_string(o.total as u64).as_str());
        s.append(" files total)");
        (s, 100)
    } else {
        ("PASS: All files up to date".to_owned(), 0)
    }
}

// ------------------------------------------------------------------------------------------
// The hint to anchor the cycle.

/// Number of entries of `entries` that are due (overdue) on `today`.
pub open spec fn overdue_count(entries: Seq<FileEntry>, today: int, cycle: int) -> int
    decreases entries.len(),
{
    if entries.len() == 0 {
        0
    } else {
        overdue_count(entries.drop_last(), today, cycle) + if is_overdue(entries.last(), today, cycle) {
            1int
        } else {
            0
        }
    }
}

/// Number of entries due on `today` (their last change plus one cycle is no later).
pub fn count_overdue(entries: &[FileEntry], today: Day, params: ScheduleParams) -> (r: usize)
    ensures
        r == overdue_count(entries@, today@, params.cycle()),
{
    let (cycle, _) = params.days();
    let mut count: usize = 0;
    let mut i: usize = 0;
    while i < entries.len()
        invariant
            i <= entries@.len(),
            cycle == params.cycle(),
            count == overdue_count(entries@.take(i as int), today@, cycle as int),
            count <= i,
        decreases entries@.len() - i,
    {
        proof {
            assert(entries@.take(i + 1).drop_last() =~= entries@.take(i as int));
        }
        match entries[i].get_date().checked_add_days(cycle as i64) {
            Some(earliest) => {
                if earliest.le(today) {
                    count = count + 1;
                }
            },
            None => {},
        }
        i += 1;
    }
    assert(entries@.take(entries@.len() as int) =~= entries@);
    count
}

/// More than half of the files are due today.
pub open spec fn majority_overdue(overdue: int, total: int) -> bool {
    2 * overdue > total
}

/// Whether to hint at anchoring the cycle: more than half of the files are due today.
pub fn needs_anchor_hint(overdue: usize, total: usize) -> (r: bool)
    ensures
        r == majority_overdue(overdue as int, total as int),
{
    overdue > total / 2
}

/// The hint to anchor the cycle.
pub open spec fn anchor_hint_text(overdue: nat, total: nat) -> Seq<char> {
    "hint: "@ + decimal(overdue) + " of "@ + decimal(total)
        + " files due today; run `cycledit init` to stabilize the schedule"@
}

/// The hint to anchor the cycle, with the number of files due today and of all files.
pub fn anchor_hint(overdue: usize, total: usize) -> (r: String)
    ensures
        r@ == anchor_hint_text(overdue as nat, total as nat),
{
    let mut s = "hint: ".to_owned();
    s.append(decimal_string(overdue as u64).as_str());
    s.append(" of ");
    s.append(decimal_string(total as u64).as_str());
    s.append(" files due today; run `cycledit init` to stabilize the schedule");
    s
}

/// A file is counted as due exactly when its last change plus one cycle is a supported date
/// no later than `today`: adding a file changes the count by one when it is so, and not at all
/// otherwise (in particular, a file changed less than one cycle ago is never counted).
pub proof fn law_overdue_count_step(entries: Seq<FileEntry>, e: FileEntry, today: int, cycle: int)
    ensures
        overdue_count(entries.push(e), today, cycle) == overdue_count(entries, today, cycle) + if MIN_DAY
            <= e.date_of()@ + cycle <= crate::day::MAX_DAY && e.date_of()@ + cycle <= today {
            1int
        } else {
            0int
        },
        overdue_count(Seq::<FileEntry>::empty(), today, cycle) == 0,
{
    assert(entries.push(e).drop_last() =~= entries);
}

/// No file changed less than one cycle before `today` is due: when every file's last change
/// plus one cycle is after `today`, none is counted.
pub proof fn law_recent_files_not_overdue(entries: Seq<FileEntry>, today: int, cycle: int)
    requires
        forall|i: int| 0 <= i < entries.len() ==> (#[trigger] entries[i]).date_of()@ + cycle > today,
    ensures
        overdue_count(entries, today, cycle) == 0,
    decreases entries.len(),
{
    if entries.len() > 0 {
        let t = entries.drop_last();
        assert forall|i: int| 0 <= i < t.len() implies (#[trigger] t[i]).date_of()@ + cycle > today by {
            assert(t[i] == entries[i]);
        }
        law_recent_files_not_overdue(t, today, cycle);
        assert(entries.last() == entries[entries.len() - 1]);
    }
}

/// Every file whose last change plus one cycle is a supported date no later than `today` is
/// due: when that holds of all files, all are counted.
pub proof fn law_old_files_all_overdue(entries: Seq<FileEntry>, today: int, cycle: int)
    requires
        forall|i: int|
            0 <= i < entries.len() ==> MIN_DAY <= (#[trigger] entries[i]).date_of()@ + cycle <= today
                && entries[i].date_of()@ + cycle <= crate::day::MAX_DAY,
    ensures
        overdue_count(entries, today, cycle) == entries.len(),
    decreases entries.len(),
{
    if entries.len() > 0 {
        let t = entries.drop_last();
        assert forall|i: int| 0 <= i < t.len() implies MIN_DAY <= (#[trigger] t[i]).date_of()@ + cycle <= today
            && t[i].date_of()@ + cycle <= crate::day::MAX_DAY by {
            assert(t[i] == entries[i]);
        }
        law_old_files_all_overdue(t, today, cycle);
        assert(entries.last() == entries[entries.len() - 1]);
    }
}

} // verus!
