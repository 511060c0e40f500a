use cycledit::anchor::{anchor_file_name, anchor_file_text, anchor_state, malformed_anchor_hint, parse_anchor, AnchorState};
use cycledit::day::Day;
use cycledit::entry::{sort_by_key, FileEntry};
use cycledit::fixture::{diff_ops, parse_fixture, render_block, FixtureFailure, OpKind};
use cycledit::git::{
    any_glob_match, bytes_equal, commit_date, format_prefix_and_name, DateScan,
    EntryKind, HashMapCollector, Metrics, RemainingFilteredCollector, TreeEntry, TreeVisitor,
    TreeWalk, WalkFlow,
};
use cycledit::params::{NonZeroDays, ScheduleParams};
use cycledit::pathmap::{path_less, PathMap};
use cycledit::report::{
    check_files, check_message, list_line, needs_anchor_hint, take_due_chunks, CheckOutcome,
};
use cycledit::schedule::{compute_schedule, ScheduleOverflow};
use cycledit::span::{days_from_length, parse_span_days, SpanDaysError, SpanFailure};
use cycledit::text::decimal_string;

fn date(text: &str) -> Day {
    Day::from_text(text).expect("valid date")
}

fn params(cycle: u16, chunk: u16) -> ScheduleParams {
    ScheduleParams::builder()
        .cycle_days(NonZeroDays::new(cycle).expect("nonzero"))
        .chunk_days(NonZeroDays::new(chunk).expect("nonzero"))
        .expect("chunk fits in cycle")
}

fn entry(date_text: &str, path: &str, hash: u8) -> FileEntry {
    FileEntry::new(date(date_text), vec![hash], path.to_string())
}

fn blobs(items: &[(&str, u8)]) -> PathMap<Vec<u8>> {
    let mut m = PathMap::new();
    for (path, id) in items {
        m.insert(path.to_string(), vec![*id]);
    }
    m
}

// ---------------------------------------------------------------------------- dates (jiff)

#[test]
fn day_from_civil_counts_from_the_epoch() {
    assert_eq!(Day::from_civil(1970, 1, 2).map(Day::epoch_day), Some(1));
    assert_eq!(Day::from_civil(2000, 3, 1).map(Day::epoch_day), Some(11017));
    assert_eq!(Day::from_civil(2023, 2, 29), None);
    assert_eq!(Day::from_civil(2024, 13, 1), None);
}

#[test]
fn day_to_civil_and_text() {
    let d = Day::from_epoch_day(19723).expect("in range");
    assert_eq!(d.to_civil(), (2024, 1, 1));
    assert_eq!(d.to_iso_string(), "2024-01-01");
    assert_eq!(Day::from_epoch_day(0).expect("in range").to_iso_string(), "1970-01-01");
}

#[test]
fn day_from_text_reads_iso_dates() {
    assert_eq!(Day::from_text("2026-01-01").map(Day::epoch_day), Some(20454));
    assert_eq!(Day::from_text("not a date"), None);
}

#[test]
fn day_arithmetic_and_range() {
    let d = date("2024-02-28");
    assert_eq!(d.checked_add_days(2), Some(date("2024-03-01")));
    assert_eq!(date("9999-12-31").checked_add_days(1), None);
    assert_eq!(date("2024-03-01").days_since(d), 2);
    assert!(d.le(d) && d.lt(date("2024-02-29")) && d.same(d));
    assert_eq!(Day::from_epoch_day(2932897), None);
}

#[test]
fn commit_date_is_the_utc_day() {
    assert_eq!(commit_date(0), Some(date("1970-01-01")));
    assert_eq!(commit_date(86_399), Some(date("1970-01-01")));
    assert_eq!(commit_date(86_400), Some(date("1970-01-02")));
    assert_eq!(commit_date(-1), Some(date("1969-12-31")));
    assert_eq!(commit_date(i64::MAX), None);
    assert_eq!(commit_date(i64::MIN), None);
}

// ---------------------------------------------------------------------------- durations

#[test]
fn span_days_depend_on_the_start_date() {
    let leap = parse_span_days("P1Y", date("2024-01-01")).expect("valid");
    let plain = parse_span_days("P1Y", date("2025-01-01")).expect("valid");
    assert_eq!((leap.get(), plain.get()), (366, 365));
    assert_eq!(parse_span_days("7d", date("2025-01-01")).map(NonZeroDays::get), Ok(7));
}

#[test]
fn span_errors() {
    let today = date("2026-01-01");
    assert_eq!(parse_span_days("P0D", today), Err(SpanDaysError::Zero));
    assert_eq!(parse_span_days("-P2D", today), Err(SpanDaysError::Negative(-2)));
    assert_eq!(parse_span_days("P70000D", today), Err(SpanDaysError::TooLarge(70000)));
    assert_eq!(parse_span_days("P9000Y", today), Err(SpanDaysError::Overflow));
    assert_eq!(parse_span_days("soon", today), Err(SpanDaysError::Invalid));
    assert_eq!(days_from_length(Err(SpanFailure::Conversion)), Err(SpanDaysError::Conversion));
    assert_eq!(days_from_length(Ok(65535)).map(NonZeroDays::get), Ok(65535));
}

// ---------------------------------------------------------------------------- schedule

#[test]
fn forward_fill_caps_each_chunk() {
    // 4 files, cycle 14 days in chunks of 7 → at most ceil(4 / 2) = 2 files per chunk.
    let entries = vec![
        entry("2000-01-01", "a", 1),
        entry("2000-01-01", "b", 2),
        entry("2000-01-01", "c", 3),
        entry("2000-01-01", "d", 4),
    ];
    let today = date("2026-01-01");
    let schedule = compute_schedule(entries, params(14, 7), today, None).expect("no overflow");
    let sizes: Vec<usize> = schedule.iter().map(|c| c.files.len()).collect();
    assert_eq!(sizes, vec![2, 2]);
    assert_eq!(schedule[0].date, today);
    assert_eq!(schedule[1].date, date("2026-01-08"));
}

#[test]
fn forward_fill_schedules_oldest_first() {
    // Listed in any order, the files come out date by date in scheduling order: older
    // modification first, then smaller object id; one due far ahead lands last.
    let entries = vec![
        entry("2025-12-20", "recent", 9),
        entry("2000-01-02", "b", 5),
        entry("2000-01-01", "a2", 7),
        entry("2000-01-01", "a1", 3),
        entry("2010-06-01", "c", 1),
    ];
    let today = date("2026-01-01");
    let schedule = compute_schedule(entries, params(28, 7), today, None).expect("no overflow");
    let listed: Vec<(String, &str)> = schedule
        .iter()
        .flat_map(|c| c.files.iter().map(move |f| (c.date.to_iso_string(), f.get_path())))
        .collect();
    assert_eq!(
        listed,
        vec![
            ("2026-01-01".to_string(), "a1"),
            ("2026-01-01".to_string(), "a2"),
            ("2026-01-08".to_string(), "b"),
            ("2026-01-08".to_string(), "c"),
            ("2026-01-22".to_string(), "recent"),
        ]
    );
}

#[test]
fn editing_a_file_pushes_it_later() {
    let today = date("2026-01-01");
    let with = |x: FileEntry| {
        vec![entry("2000-01-01", "a", 1), entry("2000-01-02", "b", 2), entry("2000-01-03", "c", 3), x]
    };
    let dates_of_x = |entries: Vec<FileEntry>| -> Vec<String> {
        let schedule = compute_schedule(entries, params(28, 7), today, None).expect("no overflow");
        schedule
            .iter()
            .filter(|c| c.files.iter().any(|f| f.get_path() == "x"))
            .map(|c| c.date.to_iso_string())
            .collect()
    };
    // one file per chunk: "x", the newest, comes last
    assert_eq!(dates_of_x(with(entry("2000-01-04", "x", 4))), vec!["2026-01-22"]);
    // edited on 2025-12-31, it is due again 28 days later, on the grid step after that
    assert_eq!(dates_of_x(with(entry("2025-12-31", "x", 9))), vec!["2026-01-29"]);
}

#[test]
fn backward_fill_is_stable_when_today_is_done() {
    // 3 overdue files, 3 slots (cycle end 21 days away, chunks of 7), one per slot; the
    // newest lands today and the oldest on the last slot.
    let today = date("2026-01-01");
    let end = Some(date("2026-01-22"));
    let entries = vec![
        entry("2000-01-01", "old", 1),
        entry("2000-01-02", "mid", 2),
        entry("2000-01-03", "new", 3),
    ];
    let before = compute_schedule(entries, params(21, 7), today, end).expect("no overflow");
    let paths: Vec<(String, Vec<&str>)> = before
        .iter()
        .map(|c| (c.date.to_iso_string(), c.files.iter().map(|f| f.get_path()).collect()))
        .collect();
    assert_eq!(
        paths,
        vec![
            ("2026-01-01".to_string(), vec!["new"]),
            ("2026-01-08".to_string(), vec!["mid"]),
            ("2026-01-15".to_string(), vec!["old"]),
        ]
    );
    // "new" was edited today: the other slots keep their files.
    let entries = vec![
        entry("2000-01-01", "old", 1),
        entry("2000-01-02", "mid", 2),
        entry("2026-01-01", "new", 4),
    ];
    let after = compute_schedule(entries, params(21, 7), today, end).expect("no overflow");
    assert_eq!(after[0].date, date("2026-01-08"));
    assert_eq!(after[0].files[0].get_path(), "mid");
    assert_eq!(after[1].date, date("2026-01-15"));
    assert_eq!(after[1].files[0].get_path(), "old");
}

#[test]
fn removing_todays_file_keeps_later_slots() {
    // 4 overdue files over 4 slots (cycle end 28 days away, chunks of 7), one per slot, and
    // one file due later; the newest overdue file, today's, is then deleted.
    let today = date("2026-01-01");
    let end = Some(date("2026-01-29"));
    let listed = |entries: Vec<FileEntry>| -> Vec<(String, Vec<String>)> {
        compute_schedule(entries, params(28, 7), today, end)
            .expect("no overflow")
            .iter()
            .map(|c| (c.date.to_iso_string(), c.files.iter().map(|f| f.get_path().to_string()).collect()))
            .collect()
    };
    let before = listed(vec![
        entry("2000-01-01", "a", 1),
        entry("2000-01-02", "b", 2),
        entry("2000-01-03", "c", 3),
        entry("2000-01-04", "d", 4),
        entry("2025-12-20", "later", 5),
    ]);
    let after = listed(vec![
        entry("2000-01-01", "a", 1),
        entry("2000-01-02", "b", 2),
        entry("2000-01-03", "c", 3),
        entry("2025-12-20", "later", 5),
    ]);
    let row = |d: &str, files: &[&str]| (d.to_string(), files.iter().map(|f| f.to_string()).collect::<Vec<_>>());
    assert_eq!(
        before,
        vec![
            row("2026-01-01", &["d"]),
            row("2026-01-08", &["c"]),
            row("2026-01-15", &["b"]),
            row("2026-01-22", &["a"]),
            row("2026-01-29", &["later"]),
        ]
    );
    assert_eq!(
        after,
        vec![
            row("2026-01-08", &["c"]),
            row("2026-01-15", &["b"]),
            row("2026-01-22", &["a"]),
            row("2026-01-29", &["later"]),
        ]
    );
}

#[test]
fn removing_todays_file_keeps_later_slots_with_shared_blobs() {
    // "a" and "b" share a date and a blob (same content): they keep their listed order.
    let today = date("2026-01-01");
    let end = Some(date("2026-01-29"));
    let listed = |entries: Vec<FileEntry>| -> Vec<(String, Vec<String>)> {
        compute_schedule(entries, params(28, 7), today, end)
            .expect("no overflow")
            .iter()
            .map(|c| (c.date.to_iso_string(), c.files.iter().map(|f| f.get_path().to_string()).collect()))
            .collect()
    };
    let row = |d: &str, f: &str| (d.to_string(), vec![f.to_string()]);
    let before = listed(vec![
        entry("2000-01-01", "a", 1),
        entry("2000-01-01", "b", 1),
        entry("2000-01-02", "c", 2),
        entry("2000-01-03", "d", 3),
    ]);
    assert_eq!(
        before,
        vec![row("2026-01-01", "d"), row("2026-01-08", "c"), row("2026-01-15", "b"), row("2026-01-22", "a")]
    );
    let after =
        listed(vec![entry("2000-01-01", "a", 1), entry("2000-01-01", "b", 1), entry("2000-01-02", "c", 2)]);
    assert_eq!(after, vec![row("2026-01-08", "c"), row("2026-01-15", "b"), row("2026-01-22", "a")]);
}

#[test]
fn anchor_file_reads_back_its_start() {
    for text in ["2026-01-01", "1970-01-01", "9999-12-31", "0001-02-28"] {
        let start = date(text);
        assert_eq!(parse_anchor(&anchor_file_text(start)), Some(start));
    }
    assert!(anchor_file_text(date("2026-01-01")).starts_with("# cycledit cycle anchor — run `cycledit init` to reset\n"));
}

#[test]
fn schedule_overflow_past_the_last_date() {
    let entries = vec![entry("9999-12-01", "late", 1)];
    let result = compute_schedule(entries, params(365, 7), date("2026-01-01"), None);
    assert_eq!(result.err(), Some(ScheduleOverflow));
}

#[test]
fn sort_by_date_then_object_id() {
    let sorted = sort_by_key(vec![
        entry("2001-01-02", "b", 1),
        entry("2001-01-01", "c", 9),
        entry("2001-01-01", "a", 2),
    ]);
    let paths: Vec<&str> = sorted.iter().map(|e| e.get_path()).collect();
    assert_eq!(paths, vec!["a", "c", "b"]);
}

// ---------------------------------------------------------------------------- reports

#[test]
fn check_counts_what_now_shows() {
    let entries = || {
        vec![
            entry("2000-01-01", "a", 1),
            entry("2000-01-01", "b", 2),
            entry("2000-01-01", "c", 3),
            entry("2025-12-20", "d", 4),
        ]
    };
    let today = date("2026-01-01");
    let outcome = check_files(entries(), params(14, 7), today, None).expect("no overflow");
    let schedule = compute_schedule(entries(), params(14, 7), today, None).expect("no overflow");
    let shown: usize = take_due_chunks(schedule, today).iter().map(|c| c.files.len()).sum();
    assert_eq!((outcome.due, outcome.total), (shown, 4));
    assert_eq!(shown, 2);
}

#[test]
fn chunk_exceeds_cycle_message() {
    let err = ScheduleParams::builder()
        .cycle_days(NonZeroDays::new(6).expect("nonzero"))
        .chunk_days(NonZeroDays::new(7).expect("nonzero"))
        .unwrap_err();
    assert_eq!(err.to_text(), "chunk days (7) exceeds cycle days (6)");
}

#[test]
fn check_message_and_exit_code() {
    assert_eq!(
        check_message(&CheckOutcome { due: 2, total: 10 }),
        ("WARN: Need to update 2 file(s) now (of 10 files total)".to_string(), 100)
    );
    assert_eq!(
        check_message(&CheckOutcome { due: 0, total: 10 }),
        ("PASS: All files up to date".to_string(), 0)
    );
}

#[test]
fn anchor_hint_needs_a_strict_majority() {
    assert!(!needs_anchor_hint(2, 4));
    assert!(needs_anchor_hint(3, 4));
    assert!(needs_anchor_hint(2, 3));
    assert!(!needs_anchor_hint(0, 0));
}

#[test]
fn listing_line() {
    assert_eq!(list_line(&entry("2001-05-22", "dir/a.txt", 1)), "2001-05-22 dir/a.txt");
}

#[test]
fn decimal_text() {
    assert_eq!(decimal_string(0), "0");
    assert_eq!(decimal_string(1203), "1203");
    assert_eq!(decimal_string(u64::MAX), "18446744073709551615");
}

// ---------------------------------------------------------------------------- anchor

#[test]
fn anchor_states() {
    let p = params(365, 7);
    let today = date("2026-01-01");
    assert_eq!(anchor_state(None, p, today), AnchorState::Absent);
    assert_eq!(anchor_state(Some("cycle_start: 2025-01-01"), p, today), AnchorState::Malformed);
    assert_eq!(anchor_state(Some("cycle_start = soon"), p, today), AnchorState::Malformed);
    assert_eq!(
        anchor_state(Some("cycle_start = 2025-01-01\n"), p, today),
        AnchorState::Expired(date("2025-01-01"))
    );
    assert_eq!(
        anchor_state(Some("# anchor\n\n  cycle_start=2025-06-01  \n"), p, today),
        AnchorState::Active(date("2026-06-01"))
    );
    assert_eq!(anchor_file_name(), ".cycledit");
    assert!(malformed_anchor_hint().contains("cycledit init"));
}

#[test]
fn anchor_needs_its_assignment_first() {
    assert_eq!(parse_anchor(""), None);
    assert_eq!(parse_anchor("# only a comment\n"), None);
    assert_eq!(parse_anchor("other = 1\ncycle_start = 2025-01-01\n"), None);
    assert_eq!(parse_anchor("\r\n\tcycle_start\t=\t2025-01-01\r\n"), Some(date("2025-01-01")));
}

// ---------------------------------------------------------------------------- paths and maps

#[test]
fn path_map_insert_get_remove() {
    let mut m: PathMap<u32> = PathMap::new();
    assert!(m.is_empty());
    m.insert("b".to_string(), 2);
    m.insert("a".to_string(), 1);
    m.insert("b".to_string(), 3);
    assert_eq!(m.size(), 2);
    assert_eq!(m.get("b"), Some(&3));
    assert_eq!(m.entry(0).0, "a");
    m.remove("a");
    assert!(!m.contains_key("a"));
    assert_eq!(m.get("a"), None);
    m.remove("zzz");
    assert_eq!(m.size(), 1);
}

#[test]
fn paths_order_by_bytes() {
    assert!(path_less("a/b", "a0"));
    assert!(path_less("Z", "a"));
    assert!(!path_less("ab", "ab"));
    assert!(path_less("ab", "abc"));
}

#[test]
fn prefix_and_name() {
    assert_eq!(format_prefix_and_name("", "a.txt"), "a.txt");
    assert_eq!(format_prefix_and_name("dir/sub", "a.txt"), "dir/sub/a.txt");
}

#[test]
fn globs_match_names_and_paths() {
    let globs = vec!["*.txt".to_string(), "docs/**".to_string()];
    assert!(any_glob_match(&globs, "a.txt"));
    assert!(any_glob_match(&globs, "docs/x/y.md"));
    assert!(!any_glob_match(&globs, "a.md"));
    assert!(!any_glob_match(&[], "a.txt"));
}

#[test]
fn bytes_compare() {
    assert!(bytes_equal(&[1, 2], &[1, 2]));
    assert!(!bytes_equal(&[1, 2], &[1, 3]));
    assert!(!bytes_equal(&[1], &[1, 2]));
}

// ---------------------------------------------------------------------------- tree walk

#[test]
fn walk_queues_included_dirs_and_counts() {
    let mut walk = TreeWalk::new(vec![0]);
    let mut metrics = Metrics::new();
    let mut collector = HashMapCollector::new();
    let (prefix, id) = walk.next_tree().expect("root");
    assert_eq!((prefix.as_str(), id), ("", vec![0]));
    let entries = vec![
        TreeEntry { name: "a.txt".to_string(), kind: EntryKind::Blob, object_id: vec![1] },
        TreeEntry { name: "dir".to_string(), kind: EntryKind::Tree, object_id: vec![2] },
        TreeEntry { name: "link".to_string(), kind: EntryKind::Other, object_id: vec![3] },
    ];
    assert!(!walk.visit_entries(&prefix, &entries, &mut collector, &mut metrics));
    let (prefix, id) = walk.next_tree().expect("dir");
    assert_eq!((prefix.as_str(), id), ("dir", vec![2]));
    let entries = vec![TreeEntry { name: "b.txt".to_string(), kind: EntryKind::Blob, object_id: vec![4] }];
    assert!(!walk.visit_entries(&prefix, &entries, &mut collector, &mut metrics));
    assert!(walk.next_tree().is_none());
    metrics.inc_find_object();
    assert_eq!(metrics.counts(), (1, 1, 2));
    assert_eq!(metrics.to_text(), "metrics: find_object_calls=1, visited_dirs=1, visited_files=2");
    let collected = collector.into_map();
    assert_eq!(collected.size(), 2);
    assert_eq!(collected.get("dir/b.txt"), Some(&vec![4]));
}

#[test]
fn remaining_collector_prunes_other_dirs() {
    let remaining = {
        let mut m: PathMap<()> = PathMap::new();
        m.insert("keep/sub/file.txt".to_string(), ());
        m.insert("top.txt".to_string(), ());
        m
    };
    let mut c = RemainingFilteredCollector::new(&remaining);
    assert_eq!(c.is_include_dir("", "keep"), WalkFlow::Continue(true));
    assert_eq!(c.is_include_dir("keep", "sub"), WalkFlow::Continue(true));
    assert_eq!(c.is_include_dir("", "trash"), WalkFlow::Continue(false));
    assert_eq!(c.is_include_dir("keep", "other"), WalkFlow::Continue(false));
    assert_eq!(c.visit_blob("", "top.txt", &[7]), WalkFlow::Continue(()));
    assert_eq!(c.visit_blob("", "gone.txt", &[8]), WalkFlow::Continue(()));
    let m = c.into_map();
    assert_eq!(m.size(), 1);
    assert_eq!(m.get("top.txt"), Some(&vec![7]));
}

// ---------------------------------------------------------------------------- dating

#[test]
fn dated_files_keep_the_newest_date() {
    let head = blobs(&[("a", 1), ("b", 2)]);
    let mut scan = DateScan::new(&head);
    assert!(!scan.is_done());
    // HEAD on 2024-03-01 changed "b"; its parent had "a" and an older "b".
    let parent = blobs(&[("a", 1), ("b", 9)]);
    scan.record_commit(&head, &parent, date("2024-03-01"));
    assert_eq!(scan.remaining().size(), 1);
    assert!(scan.remaining().contains_key("a"));
    // the next commit (2024-02-01) created both; read among the remaining paths its tree
    // holds "a" only, and "b" stays dated 2024-03-01
    let current = blobs(&[("a", 1)]);
    scan.record_commit(&current, &PathMap::new(), date("2024-02-01"));
    assert!(scan.is_done());
    let entries = scan.into_entries();
    let listed: Vec<(String, String)> = entries
        .iter()
        .map(|e| (e.get_path().to_string(), e.get_date().to_iso_string()))
        .collect();
    assert_eq!(
        listed,
        vec![
            ("a".to_string(), "2024-02-01".to_string()),
            ("b".to_string(), "2024-03-01".to_string()),
        ]
    );
}

// ---------------------------------------------------------------------------- fixtures

#[test]
fn diff_ops_in_path_order() {
    let current = blobs(&[("b", 1), ("c", 3), ("d", 4)]);
    let parent = blobs(&[("a", 1), ("c", 2), ("d", 4)]);
    let ops = diff_ops(&current, &parent);
    let listed: Vec<(OpKind, &str)> = ops.iter().map(|op| (op.kind, op.path.as_str())).collect();
    assert_eq!(listed, vec![(OpKind::Remove, "a"), (OpKind::Add, "b"), (OpKind::Add, "c")]);
    assert_eq!(render_block(date("2024-01-15"), &ops), "\n2024-01-15:\n-a\n+b\n+c\n");
    assert_eq!(render_block(date("2024-01-15"), &[]), "");
}

#[test]
fn fixture_errors() {
    let err = |text: &str| parse_fixture(text).unwrap_err();
    let e = err("2024-01-01:\n2024-01-02:\n+a\n");
    assert_eq!((e.failure, e.text.as_str()), (FixtureFailure::NoOps, "2024-01-01"));
    let e = err("2024-01-01:\n+a\n2024-01-02:\n");
    assert_eq!((e.failure, e.text.as_str()), (FixtureFailure::NoOps, "2024-01-02"));
    let e = err("2024-01-01:\n+dir/\n");
    assert_eq!((e.failure, e.text.as_str()), (FixtureFailure::EmptyFilename, "dir/"));
    let e = err("2024-01-01:\n*a\n");
    assert_eq!((e.failure, e.text.as_str()), (FixtureFailure::BadLine, "*a"));
    let e = err("+a\n2024-01-01:\n");
    assert_eq!((e.failure, e.text.as_str()), (FixtureFailure::OpBeforeDate, "+a"));
}

#[test]
fn fixture_reads_back_what_was_written() {
    let ops = diff_ops(&blobs(&[("x/y", 1), ("z", 2)]), &blobs(&[("w", 3)]));
    let text = render_block(date("2024-01-15"), &ops);
    let blocks = parse_fixture(&text).expect("valid");
    assert_eq!(blocks.len(), 1);
    assert_eq!(blocks[0].date, "2024-01-15");
    let read: Vec<(OpKind, &str)> = blocks[0].ops.iter().map(|o| (o.kind, o.path.as_str())).collect();
    assert_eq!(read, vec![(OpKind::Remove, "w"), (OpKind::Add, "x/y"), (OpKind::Add, "z")]);
}
