use cycledit::day::Day;
use cycledit::entry::FileEntry;
use cycledit::params::ScheduleParams;
use cycledit::report::render_schedule;
use cycledit::schedule::compute_schedule;
use cycledit::span::{schedule_params_from_text, ScheduleArgsError, SpanDaysError};

fn date(text: &str) -> Day {
    Day::from_text(text).expect("valid date")
}

fn hex(text: &str) -> Vec<u8> {
    (0..text.len() / 2)
        .map(|i| u8::from_str_radix(&text[2 * i..2 * i + 2], 16).expect("hex"))
        .collect()
}

/// A file as the test fixtures create it: its blob holds `"{date}:{path}"`, and `hash` is
/// that blob's Git object id.
fn file(date_text: &str, path: &str, hash: &str) -> FileEntry {
    FileEntry::new(date(date_text), hex(hash), path.to_string())
}

fn params(cycle: &str, chunk: &str, today: Day) -> ScheduleParams {
    schedule_params_from_text(cycle, chunk, today).expect("valid durations")
}

fn schedule_output(entries: Vec<FileEntry>, cycle: &str, chunk: &str, today: &str) -> String {
    let today = date(today);
    let schedule =
        compute_schedule(entries, params(cycle, chunk, today), today, None).expect("no overflow");
    render_schedule(&schedule)
}

#[test]
fn schedule_error_zero_cycle() {
    let today = date("2026-01-01");
    let err = schedule_params_from_text("P0D", "P7D", today).unwrap_err();
    assert!(matches!(err, ScheduleArgsError::Cycle(SpanDaysError::Zero)));
}

#[test]
fn schedule_error_negative_cycle() {
    let today = date("2026-01-01");
    let err = schedule_params_from_text("-P1D", "P7D", today).unwrap_err();
    assert!(matches!(err, ScheduleArgsError::Cycle(SpanDaysError::Negative(-1))));
}

#[test]
fn schedule_error_large_cycle() {
    let today = date("2026-01-01");
    let err = schedule_params_from_text("P65536D", "P7D", today).unwrap_err();
    assert!(matches!(err, ScheduleArgsError::Cycle(SpanDaysError::TooLarge(65536))));
}

#[test]
fn schedule_error_zero_chunk() {
    let today = date("2026-01-01");
    let err = schedule_params_from_text("P1Y", "P0D", today).unwrap_err();
    assert!(matches!(err, ScheduleArgsError::Chunk(SpanDaysError::Zero)));
}

#[test]
fn schedule_error_large_chunk() {
    let today = date("2026-01-01");
    let err = schedule_params_from_text("P1Y", "P19998Y", today).unwrap_err();
    assert!(matches!(err, ScheduleArgsError::Chunk(SpanDaysError::Overflow)));
}

#[test]
fn schedule_error_invalid_chunk() {
    let today = date("2026-01-01");
    let err = schedule_params_from_text("P1Y", "NOT-a-duration", today).unwrap_err();
    assert!(matches!(err, ScheduleArgsError::Chunk(SpanDaysError::Invalid)));
}

#[test]
fn schedule_error_chunk_exceeds_cycle() {
    let today = date("2026-01-01");
    let err = schedule_params_from_text("P6D", "P7D", today).unwrap_err();
    match err {
        ScheduleArgsError::ChunkExceedsCycle(e) => {
            assert_eq!(e.get_cycle_days().get(), 6);
            assert_eq!(e.get_chunk_days().get(), 7);
        }
        other => panic!("unexpected error {other:?}"),
    }
}

/// All files modified far in the past → all overdue → clamp to today,
/// then schedule across chunks starting from today.
#[test]
fn schedule_all_overdue_lands_in_today() {
    // 3 files all committed 2001-05-22, cycle=1yr, chunk=7d
    // max_per_chunk = ceil(7/365) = 1, so each file gets its own chunk
    let entries = vec![
        file("2001-05-22", "file1.txt", "3f6ac12159e5ed65cbae943fa5bb59280f932bc2"),
        file("2001-05-22", "file2.txt", "26e9e3b7b0110b735888ceba0bb9c7a7f57efd2f"),
        file("2001-05-22", "file3.txt", "474c098b59b54149bbaf7d7ae885dfe2f6feb053"),
    ];
    assert_eq!(
        schedule_output(entries, "P1Y", "P7D", "2026-01-01"),
        "2026-01-01:\n\tfile2.txt\n2026-01-08:\n\tfile1.txt\n2026-01-15:\n\tfile3.txt\n"
    );
}

/// Files with future modification+cycle dates → scheduled in the future.
#[test]
fn schedule_future_dates() {
    // 2026-01-01 is 214d from today → k=ceil(214/7)=31 → grid slot 2026-01-04
    // 2026-07-01 is 395d from today → k=ceil(395/7)=57 → grid slot 2026-07-05
    let entries = vec![
        file("2025-01-01", "file1.txt", "ab8a8fc4d0d02dca2d0d13cc8dcd02d53ab6ec40"),
        file("2025-07-01", "file2.txt", "c4f7dbb930f1ffd5da950aae78de81df726cd3da"),
    ];
    assert_eq!(
        schedule_output(entries, "P1Y", "P7D", "2025-06-01"),
        "2026-01-04:\n\tfile1.txt\n2026-07-05:\n\tfile2.txt\n"
    );
}

/// Custom --cycle and --chunk args.
#[test]
fn schedule_custom_cycle_and_chunk() {
    // earliest 2024-01-31; today = 2023-06-01; days_ahead=244 → k=ceil(244/10)=25 → 2024-02-06
    let entries = vec![file("2024-01-01", "file1.txt", "b0f61714fbd1e415bc98e1054436c9caa198a3df")];
    assert_eq!(
        schedule_output(entries, "P30D", "P10D", "2023-06-01"),
        "2024-02-06:\n\tfile1.txt\n"
    );
}

/// Same-date tiebreaking by blob hash produces deterministic order.
#[test]
fn schedule_same_date_deterministic_order() {
    let entries = vec![
        file("2001-05-22", "aaa.txt", "e607a768d730d580d7d71a2a679eccc311841902"),
        file("2001-05-22", "zzz.txt", "c25e1c5aae0000abf3aa40cced677fa4f7d63e43"),
    ];
    let first = schedule_output(entries, "P1Y", "P7D", "2026-01-01");
    assert_eq!(first, "2026-01-01:\n\tzzz.txt\n2026-01-08:\n\taaa.txt\n");
    // the input order does not matter
    let reversed = vec![
        file("2001-05-22", "zzz.txt", "c25e1c5aae0000abf3aa40cced677fa4f7d63e43"),
        file("2001-05-22", "aaa.txt", "e607a768d730d580d7d71a2a679eccc311841902"),
    ];
    assert_eq!(schedule_output(reversed, "P1Y", "P7D", "2026-01-01"), first);
}

/// Files whose earliest date falls between grid points are snapped to the next grid point,
/// not placed directly at earliest.
#[test]
fn schedule_chunk_alignment() {
    // file_a: earliest = 2026-01-01 (= today) → 2026-01-01
    // file_b: earliest = 2026-01-02 → snap to 2026-01-08
    let entries = vec![
        file("2025-12-25", "file_a.txt", "5cd777ba1904a501961b918f1a7e7f4e79d3b40f"),
        file("2025-12-26", "file_b.txt", "21e8998f28bc0adbd956c3904c03e8009b163afa"),
    ];
    assert_eq!(
        schedule_output(entries, "P7D", "P7D", "2026-01-01"),
        "2026-01-01:\n\tfile_a.txt\n2026-01-08:\n\tfile_b.txt\n"
    );
}

/// Variant with chunk shorter than cycle.
#[test]
fn schedule_chunk_alignment_short_chunk() {
    // grid: 2026-01-01, 2026-01-04, 2026-01-07, …
    let entries = vec![
        file("2025-12-22", "file_a.txt", "425fc85b2e7ce7fc33e639c42547722add0c06ff"),
        file("2025-12-24", "file_b.txt", "b774bba2e228e332b6e6e2e6e6e9ff4708d9490a"),
        file("2025-12-26", "file_c.txt", "1471a8f88d1c712915668aed9fbfa8168622ab1d"),
    ];
    assert_eq!(
        schedule_output(entries, "P7D", "P3D", "2026-01-01"),
        "2026-01-01:\n\tfile_a.txt\n2026-01-04:\n\tfile_b.txt\n2026-01-07:\n\tfile_c.txt\n"
    );
}

/// When chunk capacity is exceeded, overflow spills into next chunk.
#[test]
fn schedule_overflow_to_next_chunk() {
    // cycle=P10D, chunk=P10D: one chunk per cycle, so a chunk holds
    // ceil(entries / ceil(cycle / chunk)) = ceil(2 / 1) = 2 files (the README's bound);
    // both overdue files fit today, the newer blob first.
    let entries = vec![
        file("2001-05-22", "file1.txt", "3f6ac12159e5ed65cbae943fa5bb59280f932bc2"),
        file("2001-05-22", "file2.txt", "26e9e3b7b0110b735888ceba0bb9c7a7f57efd2f"),
    ];
    assert_eq!(
        schedule_output(entries, "P10D", "P10D", "2026-01-01"),
        "2026-01-01:\n\tfile2.txt\n\tfile1.txt\n"
    );
    // with a cycle of two chunks (P20D) a chunk holds ceil(2 / 2) = 1 file, so the second
    // spills into the next chunk
    let entries = vec![
        file("2001-05-22", "file1.txt", "3f6ac12159e5ed65cbae943fa5bb59280f932bc2"),
        file("2001-05-22", "file2.txt", "26e9e3b7b0110b735888ceba0bb9c7a7f57efd2f"),
    ];
    assert_eq!(
        schedule_output(entries, "P20D", "P10D", "2026-01-01"),
        "2026-01-01:\n\tfile2.txt\n2026-01-11:\n\tfile1.txt\n"
    );
}
