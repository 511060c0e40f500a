# cycledit

`cycledit` spreads regular edits of the files of a Git repository over a cycle (for example,
changing every password of a password store once a year, a few each week). It lists the files
with the date of the last commit that changed each, and schedules each file one cycle after
that date, in chunks of a few days, so that no chunk holds more than its share.

## Layout

- `src/` is the library, verified with Verus:
  - `schedule.rs`: the schedule (forward fill from today; backward fill of overdue files
    towards the end of an anchored cycle), with its laws;
  - `git.rs`: the decisions of the repository walk (which directories to enter, which blobs
    to collect, which files a commit dates), as state machines fed by the caller;
  - `report.rs`: the text of `list`, `schedule`, `now` and `check`, and the hint to anchor
    the cycle;
  - `anchor.rs`: the cycle anchor file `.cycledit`;
  - `fixture.rs`: the fixture format that describes a history as dated blocks of changes;
  - `span.rs`, `params.rs`, `day.rs`: durations, schedule parameters and dates;
  - `entry.rs`, `pathmap.rs`, `text.rs`: files and their scheduling order, maps keyed by
    path, text helpers.
- `app/main.rs` is the command line: it reads the repository with `gix`, the clock and the
  anchor file, and prints what the library decides.
- `tests/` runs the library on the scenarios of the command's documentation.
