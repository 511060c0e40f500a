use cycledit::day::Day;
use cycledit::entry::FileEntry;
use cycledit::report::{
    anchor_hint, check_files, check_message, count_overdue, needs_anchor_hint, render_schedule,
    take_due_chunks,
};
use cycledit::schedule::compute_schedule;
use cycledit::span::schedule_params_from_text;

fn date(text: &str) -> Day {
    Day::from_text(text).expect("valid date")
}

fn hex(text: &str) -> Vec<u8> {
    (0..text.len() / 2)
        .map(|i| u8::from_str_radix(&text[2 * i..2 * i + 2], 16).expect("hex"))
        .collect()
}

/// A file as the test fixtures create it: its blob holds `"{date}:{path}"`, and `hash` is
/// that blob's Git object id.
fn file(date_text: &str, path: &str, hash: &str) -> FileEntry {
    FileEntry::new(date(date_text), hex(hash), path.to_string())
}

/// What `now` prints, without an anchor.
fn now_output(entries: Vec<FileEntry>, cycle: &str, chunk: &str, today: &str) -> String {
    let today = date(today);
    let params = schedule_params_from_text(cycle, chunk, today).expect("valid durations");
    let schedule = compute_schedule(entries, params, today, None).expect("no overflow");
    render_schedule(&take_due_chunks(schedule, today))
}

/// What `check` prints on stdout and its exit code, without an anchor, and the hint on
/// stderr if any.
fn check_output(entries: Vec<FileEntry>, today: &str) -> (String, i32, Option<String>) {
    let today = date(today);
    let params = schedule_params_from_text("P1Y", "P7D", today).expect("valid durations");
    let overdue = count_overdue(&entries, today, params);
    let total = entries.len();
    let hint = if needs_anchor_hint(overdue, total) {
        Some(anchor_hint(overdue, total))
    } else {
        None
    };
    let outcome = check_files(entries, params, today, None).expect("no overflow");
    let (message, code) = check_message(&outcome);
    (message, code, hint)
}

/// `now` shows only chunks whose date <= today.
#[test]
fn now_shows_only_past_and_today_chunks() {
    // file1 modified 2024-01-01 (overdue → clamped to today 2025-06-01)
    // file2 modified 2025-07-01 (future → due 2026-07-01, not shown in `now`)
    let entries = vec![
        file("2024-01-01", "file1.txt", "b0f61714fbd1e415bc98e1054436c9caa198a3df"),
        file("2025-07-01", "file2.txt", "c4f7dbb930f1ffd5da950aae78de81df726cd3da"),
    ];
    assert_eq!(now_output(entries, "P1Y", "P7D", "2025-06-01"), "2025-06-01:\n\tfile1.txt\n");
}

/// `now` produces empty output when nothing is due.
#[test]
fn now_empty_when_nothing_due() {
    // file1 modified recently → due in future
    let entries = vec![file("2025-07-01", "file1.txt", "0ea1d705bdb132662a7212fbb78f38a082ad59e8")];
    assert_eq!(now_output(entries, "P1Y", "P7D", "2025-06-01"), "");
}

/// `check` exits 100 and prints WARN when files are due.
#[test]
fn check_warn_when_files_due() {
    let entries = vec![
        file("2001-05-22", "file1.txt", "3f6ac12159e5ed65cbae943fa5bb59280f932bc2"),
        file("2001-05-22", "file2.txt", "26e9e3b7b0110b735888ceba0bb9c7a7f57efd2f"),
        file("2001-05-22", "file3.txt", "474c098b59b54149bbaf7d7ae885dfe2f6feb053"),
    ];
    let (message, code, hint) = check_output(entries, "2026-01-01");
    assert_eq!(code, 100);
    assert_eq!(
        hint.as_deref(),
        Some("hint: 3 of 3 files due today; run `cycledit init` to stabilize the schedule")
    );
    // ceil(7/365) = 1 per chunk; only the first chunk falls on today (1 of 3 files)
    assert_eq!(message, "WARN: Need to update 1 file(s) now (of 3 files total)");
}

/// `check` exits 0 and prints PASS when nothing is due.
#[test]
fn check_pass_when_nothing_due() {
    let entries = vec![file("2025-07-01", "file1.txt", "0ea1d705bdb132662a7212fbb78f38a082ad59e8")];
    let (message, code, hint) = check_output(entries, "2025-06-01");
    assert_eq!(code, 0);
    assert_eq!(hint, None);
    assert_eq!(message, "PASS: All files up to date");
}

/// The date of "today" drives what is due.
#[test]
fn current_time_zoned_drives_today() {
    // file1 modified 2024-01-01, cycle=P10D (10 days) → due 2024-01-11
    let entry = || vec![file("2024-01-01", "file1.txt", "b0f61714fbd1e415bc98e1054436c9caa198a3df")];
    assert_eq!(now_output(entry(), "P10D", "P7D", "2024-01-10"), "", "should be empty before due date");
    assert_eq!(now_output(entry(), "P10D", "P7D", "2024-01-11"), "2024-01-11:\n\tfile1.txt\n");
}
