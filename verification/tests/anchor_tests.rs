use cycledit::anchor::{
    anchor_file_text, anchor_state, expired_anchor_hint, init_message, parse_anchor, AnchorState,
};
use cycledit::day::Day;
use cycledit::entry::FileEntry;
use cycledit::report::{anchor_hint, count_overdue, needs_anchor_hint, render_schedule};
use cycledit::schedule::compute_schedule;
use cycledit::span::schedule_params_from_text;

fn date(text: &str) -> Day {
    Day::from_text(text).expect("valid date")
}

fn hex(text: &str) -> Vec<u8> {
    (0..text.len() / 2)
        .map(|i| u8::from_str_radix(&text[2 * i..2 * i + 2], 16).expect("hex"))
        .collect()
}

/// A file as the test fixtures create it: its blob holds `"{date}:{path}"`, and `hash` is
/// that blob's Git object id.
fn file(date_text: &str, path: &str, hash: &str) -> FileEntry {
    FileEntry::new(date(date_text), hex(hash), path.to_string())
}

/// What `schedule` prints (stdout, stderr) for the anchor file text `anchor`, as the command
/// decides between backward fill (active anchor) and forward fill with hints.
fn schedule_with_anchor(
    entries: Vec<FileEntry>,
    anchor: Option<&str>,
    cycle: &str,
    today: &str,
) -> (String, String) {
    let today = date(today);
    let params = schedule_params_from_text(cycle, "P7D", today).expect("valid durations");
    let mut stderr = String::new();
    let cycle_end = match anchor_state(anchor, params, today) {
        AnchorState::Active(end) => Some(end),
        state => {
            if let AnchorState::Expired(start) = state {
                stderr.push_str(&expired_anchor_hint(start));
                stderr.push('\n');
            }
            let overdue = count_overdue(&entries, today, params);
            if needs_anchor_hint(overdue, entries.len()) {
                stderr.push_str(&anchor_hint(overdue, entries.len()));
                stderr.push('\n');
            }
            None
        }
    };
    let schedule = compute_schedule(entries, params, today, cycle_end).expect("no overflow");
    (render_schedule(&schedule), stderr)
}

/// No anchor: forward-fill is used and a hint is printed when majority are overdue.
#[test]
fn schedule_no_anchor_hint_when_majority_overdue() {
    // 3 overdue, 1 future → 3/4 > 50% → hint expected
    let entries = vec![
        file("2001-01-01", "file1.txt", "544c1f6eed145074484fe346a14ac1bc0dd601e1"),
        file("2001-01-02", "file2.txt", "fc2a0166ea3897d918da6b57e78bd54882e3c9e9"),
        file("2001-01-03", "file3.txt", "cbce23705cd75e45675cf342fb71f3d6b59d291c"),
        file("2025-12-31", "file4.txt", "b826deaa3c1bc66928f944bfe7fe2ccc7c90c005"),
    ];
    let (stdout, stderr) = schedule_with_anchor(entries, None, "P1Y", "2026-01-01");
    assert!(stderr.contains("cycledit init"), "{stderr}");
    assert_eq!(
        stdout,
        "2026-01-01:\n\tfile1.txt\n2026-01-08:\n\tfile2.txt\n2026-01-15:\n\tfile3.txt\n2026-12-31:\n\tfile4.txt\n"
    );
}

/// `init` writes `cycle_start` with today's date.
#[test]
fn init_writes_cycle_start() {
    let today = date("2026-01-01");
    assert!(init_message(today).contains("2026-01-01"));
    let contents = anchor_file_text(today);
    assert!(contents.contains("cycle_start = 2026-01-01"), "{contents}");
}

/// With an anchor, completing a file in today's chunk leaves future chunks unchanged.
///
/// 5 overdue files, `cycle_start` = today, cycle=P35D, chunk=P7D
///   → `cycle_end` = today + 35d
///   → 5 slots (today, +7, +14, +21, +28), `max_per_slot` = 1
#[test]
fn schedule_anchor_stable_after_completing_today() {
    let today = date("2026-01-01");
    let anchor = anchor_file_text(today);
    let before = vec![
        file("2001-01-01", "file1.txt", "544c1f6eed145074484fe346a14ac1bc0dd601e1"),
        file("2001-01-02", "file2.txt", "fc2a0166ea3897d918da6b57e78bd54882e3c9e9"),
        file("2001-01-03", "file3.txt", "cbce23705cd75e45675cf342fb71f3d6b59d291c"),
        file("2001-01-04", "file4.txt", "e64191cb4f8e493c68d19b08eca8819d081bf2d1"),
        file("2001-01-05", "file5.txt", "88e88065c534899e7630b6d90fb9f2aa9bda0cb6"),
    ];
    let (out1, err1) = schedule_with_anchor(before, Some(&anchor), "P35D", "2026-01-01");
    assert_eq!(err1, "");
    assert_eq!(
        out1,
        "2026-01-01:\n\tfile5.txt\n2026-01-08:\n\tfile4.txt\n2026-01-15:\n\tfile3.txt\n2026-01-22:\n\tfile2.txt\n2026-01-29:\n\tfile1.txt\n"
    );

    // file5 committed today: no longer overdue
    let after = vec![
        file("2001-01-01", "file1.txt", "544c1f6eed145074484fe346a14ac1bc0dd601e1"),
        file("2001-01-02", "file2.txt", "fc2a0166ea3897d918da6b57e78bd54882e3c9e9"),
        file("2001-01-03", "file3.txt", "cbce23705cd75e45675cf342fb71f3d6b59d291c"),
        file("2001-01-04", "file4.txt", "e64191cb4f8e493c68d19b08eca8819d081bf2d1"),
        file("2026-01-01", "file5.txt", "cb993109eb38d0b7feec07659bda99382ae7f918"),
    ];
    let (out2, err2) = schedule_with_anchor(after, Some(&anchor), "P35D", "2026-01-01");
    assert_eq!(err2, "");
    assert_eq!(
        out2,
        "2026-01-08:\n\tfile4.txt\n2026-01-15:\n\tfile3.txt\n2026-01-22:\n\tfile2.txt\n2026-01-29:\n\tfile1.txt\n2026-02-05:\n\tfile5.txt\n"
    );
}

/// An expired anchor falls back to forward fill with a warning.
#[test]
fn schedule_expired_anchor_falls_back_with_warning() {
    let entries = vec![file("2001-01-01", "file1.txt", "544c1f6eed145074484fe346a14ac1bc0dd601e1")];
    let anchor = "# cycledit cycle anchor\ncycle_start = 2020-01-01\n";
    let (stdout, stderr) = schedule_with_anchor(entries, Some(anchor), "P1Y", "2026-01-01");
    assert!(stderr.contains("expired"), "{stderr}");
    assert!(stderr.contains("cycledit init"), "{stderr}");
    assert!(!stdout.is_empty());
}

/// Re-init overwrites an existing anchor: the new text holds the new start only.
#[test]
fn init_overwrites_existing_anchor() {
    let old = "# cycledit cycle anchor\ncycle_start = 2025-06-01\n";
    assert_eq!(parse_anchor(old), Some(date("2025-06-01")));
    let contents = anchor_file_text(date("2026-01-01"));
    assert!(contents.contains("cycle_start = 2026-01-01"), "{contents}");
    assert_eq!(parse_anchor(&contents), Some(date("2026-01-01")));
}
