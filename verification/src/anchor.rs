//! The cycle anchor: the start date of the current cycle, kept in `.cycledit` at the root of
//! the repository. With an anchor, overdue files are spread backwards from the end of the
//! cycle, so that finishing today's files leaves the later chunks as they are.
//!
//! The file holds comment lines starting with `#` and one assignment:
//!
//! ```text
//! # cycledit cycle anchor — run `cycledit init` to reset
//! cycle_start = 2026-01-01
//! ```

use vstd::prelude::*;

use crate::day::{date_from_text, epoch_day_text, in_day_range, is_date_char, Day};
use crate::params::ScheduleParams;
use crate::text::{
    chars_of, lemma_split_lines_append, lemma_split_lines_step, lemma_split_one_line, lemma_trim_blank_first,
    lemma_trim_unchanged, line_end, split_lines, trim, trim_range,
};

verus! {

/// Name of the anchor file at the root of the repository.
pub fn anchor_file_name() -> (r: &'static str)
    ensures
        r@ == ".cycledit"@,
{
    ".cycledit"
}

/// The key of the anchor's assignment.
pub open spec fn anchor_key() -> Seq<char> {
    seq!['c', 'y', 'c', 'l', 'e', '_', 's', 't', 'a', 'r', 't']
}

/// The value of a trimmed line `cycle_start = VALUE` (blanks around `=` and the value are
/// dropped), or `None` when the line is no such assignment.
pub open spec fn assignment_value(line: Seq<char>) -> Option<Seq<char>> {
    let k = anchor_key();
    if line.len() >= k.len() && line.take(k.len() as int) == k {
        let rest = trim(line.skip(k.len() as int));
        if rest.len() > 0 && rest[0] == '=' {
            Some(trim(rest.drop_first()))
        } else {
            None
        }
    } else {
        None
    }
}

/// The anchor's value: the first line that is neither blank nor a comment must be the
/// assignment of `cycle_start`.
pub open spec fn anchor_value(lines: Seq<Seq<char>>) -> Option<Seq<char>>
    decreases lines.len(),
{
    if lines.len() == 0 {
        None
    } else {
        let line = trim(lines[0]);
        if line.len() == 0 || line[0] == '#' {
            anchor_value(lines.drop_first())
        } else {
            assignment_value(line)
        }
    }
}

/// The cycle start that the anchor file text `text` holds, as an epoch day.
pub open spec fn anchor_start(text: Seq<char>) -> Option<int> {
    match anchor_value(split_lines(text)) {
        None => None,
        Some(value) => date_from_text(value),
    }
}

/// Whether `chars[a..b]` starts with `key`.
fn starts_with_at(chars: &Vec<char>, a: usize, b: usize, key: &Vec<char>) -> (r: bool)
    requires
        a <= b <= chars@.len(),
    ensures
        r == (b - a >= key@.len() && chars@.subrange(a as int, b as int).take(key@.len() as int) == key@),
{
    if b - a < key.len() {
        return false;
    }
    let mut i: usize = 0;
    while i < key.len()
        invariant
            a <= b <= chars@.len(),
            b - a >= key@.len(),
            i <= key@.len(),
            forall|j: int| 0 <= j < i ==> chars@[a + j] == key@[j],
        decreases key@.len() - i,
    {
        if chars[a + i] != key[i] {
            assert(chars@.subrange(a as int, b as int).take(key@.len() as int)[i as int] != key@[i as int]);
            return false;
        }
        i += 1;
    }
    assert(chars@.subrange(a as int, b as int).take(key@.len() as int) =~= key@);
    true
}

/// The cycle start date that the anchor file text `text` holds, if it holds one.
pub fn parse_anchor(text: &str) -> (r: Option<Day>)
    ensures
        match anchor_start(text@) {
            None => r is None,
            Some(n) => r matches Some(d) && d@ == n,
        },
{
    let chars = chars_of(text);
    let key_text = "cycle_start";
    proof {
        reveal_strlit("cycle_start");
    }
    let key = chars_of(key_text);
    assert(key@ =~= anchor_key());
    let len = chars.len();
    let mut start: usize = 0;
    proof {
        assert(chars@.skip(0) =~= chars@);
    }
    while start < len
        invariant
            chars@ == text@,
            key@ == anchor_key(),
            len == chars@.len(),
            start <= len,
            anchor_value(split_lines(chars@.skip(start as int))) == anchor_value(split_lines(chars@)),
        decreases len - start,
    {
        let end = line_end(&chars, start);
        let ghost line = chars@.subrange(start as int, end as int);
        proof {
            lemma_split_lines_step(chars@, start as int, end as int);
        }
        let ghost rest = if end < len { split_lines(chars@.skip(end + 1)) } else { Seq::empty() };
        proof {
            assert((seq![line] + rest)[0] == line);
            assert((seq![line] + rest).drop_first() =~= rest);
        }
        let (a, b) = trim_range(&chars, start, end);
        let ghost tl = chars@.subrange(a as int, b as int);
        if a < b && chars[a] != '#' {
            // The first line that is neither blank nor a comment decides.
            assert(tl[0] == chars@[a as int]);
            if !starts_with_at(&chars, a, b, &key) {
                return None;
            }
            let k = key.len();
            let (c, d) = trim_range(&chars, a + k, b);
            proof {
                assert(chars@.subrange(a + k, b as int) =~= tl.skip(k as int));
            }
            if c == d || chars[c] != '=' {
                return None;
            }
            let (e, f) = trim_range(&chars, c + 1, d);
            proof {
                assert(chars@.subrange(c as int, d as int).drop_first() =~= chars@.subrange(c + 1, d as int));
            }
            let value = text.substring_char(e, f);
            return Day::from_text(value);
        }
        start = if end < len { end + 1 } else { end };
        proof {
            if end == len {
                assert(chars@.skip(start as int) =~= Seq::<char>::empty());
                assert(split_lines(chars@.skip(start as int)) =~= Seq::<Seq<char>>::empty());
            }
        }
    }
    proof {
        assert(chars@.skip(start as int) =~= Seq::<char>::empty());
        assert(split_lines(chars@.skip(start as int)) =~= Seq::<Seq<char>>::empty());
    }
    None
}

/// The comment line that starts the anchor file.
pub open spec fn anchor_comment() -> Seq<char> {
    "# cycledit cycle anchor — run `cycledit init` to reset"@
}

/// The anchor file text holding the date text `date_text`.
pub open spec fn anchor_file_for(date_text: Seq<char>) -> Seq<char> {
    anchor_comment() + seq!['\n'] + anchor_key() + seq![' ', '=', ' '] + date_text + seq!['\n']
}

/// The anchor file text for a cycle started on `start`.
pub open spec fn anchor_file_spec(start: int) -> Seq<char> {
    anchor_file_for(epoch_day_text(start))
}

/// The anchor file text for a cycle started on `start`; it reads back as a cycle started on
/// `start`.
pub fn anchor_file_text(start: Day) -> (r: String)
    ensures
        r@ == anchor_file_spec(start@),
        anchor_start(r@) == Some(start@),
{
    let mut s = "# cycledit cycle anchor — run `cycledit init` to reset".to_owned();
    proof {
        reveal_strlit("\n");
        reveal_strlit("cycle_start = ");
        assert("cycle_start = "@ =~= anchor_key() + seq![' ', '=', ' ']);
    }
    s.append("\n");
    s.append("cycle_start = ");
    let date_text = start.to_iso_string();
    s.append(date_text.as_str());
    s.append("\n");
    assert(s@ =~= anchor_file_spec(start@));
    proof {
        law_anchor_round_trip(date_text@);
    }
    s
}

/// A written anchor reads back: the anchor file holding a date text (digits and `-`, as
/// dates are printed) has that text as its value, so its cycle start is the date that `jiff`
/// reads from the text.
pub proof fn law_anchor_round_trip(date_text: Seq<char>)
    requires
        date_text.len() > 0,
        forall|i: int| 0 <= i < date_text.len() ==> is_date_char(#[trigger] date_text[i]),
    ensures
        anchor_value(split_lines(anchor_file_for(date_text))) == Some(date_text),
        anchor_start(anchor_file_for(date_text)) == date_from_text(date_text),
{
    reveal_strlit("# cycledit cycle anchor — run `cycledit init` to reset");
    let c = anchor_comment();
    assert(c.len() == 54);
    assert(c[0] == '#');
    assert(c.last() == 't');
    assert forall|j: int| 0 <= j < c.len() implies c[j] != '\n' by {}
    let key = anchor_key();
    let second = key + seq![' ', '=', ' '] + date_text;
    assert forall|j: int| 0 <= j < second.len() implies second[j] != '\n' by {
        if j >= 14 {
            assert(second[j] == date_text[j - 14]);
            assert(is_date_char(date_text[j - 14]));
        }
    }
    let a = c + seq!['\n'];
    let b = second + seq!['\n'];
    assert(anchor_file_for(date_text) =~= a + b);
    lemma_split_lines_append(a, b);
    lemma_split_one_line(c);
    lemma_split_one_line(second);
    let lines = seq![c] + seq![second];
    assert(split_lines(anchor_file_for(date_text)) == lines);
    lemma_trim_unchanged(c);
    assert(lines[0] == c);
    assert(lines.drop_first() =~= seq![second]);
    assert(is_date_char(date_text[date_text.len() - 1]));
    assert(second.last() == date_text.last());
    lemma_trim_unchanged(second);
    assert(seq![second][0] == second);
    assert(second.take(11) =~= key);
    let tail = seq!['=', ' '] + date_text;
    assert(second.skip(11) =~= seq![' '] + tail);
    lemma_trim_blank_first(' ', tail);
    assert(tail.last() == date_text.last());
    lemma_trim_unchanged(tail);
    assert(tail.drop_first() =~= seq![' '] + date_text);
    lemma_trim_blank_first(' ', date_text);
    assert(is_date_char(date_text[0]));
    lemma_trim_unchanged(date_text);
    assert(assignment_value(second) == Some(date_text));
    assert(second[0] == 'c');
    assert(anchor_value(seq![second]) == assignment_value(second));
    assert(anchor_value(lines) == anchor_value(seq![second]));
}

/// What the anchor file says for today's schedule.
#[derive(Clone, Copy, Debug, PartialEq, Eq)]
pub enum AnchorState {
    /// There is no anchor file.
    Absent,
    /// The anchor file holds no readable cycle start, or its cycle ends past the supported dates.
    Malformed,
    /// The cycle that started on this date ended today or earlier.
    Expired(Day),
    /// The cycle ends on this date, after today.
    Active(Day),
}

/// Where a cycle that started on `start` stands on `today`, for a schedule with `params`: it
/// ends one cycle after its start, and has expired when that is today or earlier.
pub fn cycle_state(start: Day, params: ScheduleParams, today: Day) -> (r: AnchorState)
    ensures
        if !in_day_range(start@ + params.cycle()) {
            r is Malformed
        } else if start@ + params.cycle() <= today@ {
            r == AnchorState::Expired(start)
        } else {
            r matches AnchorState::Active(e) && e@ == start@ + params.cycle()
        },
{
    let (cycle, _) = params.days();
    match start.checked_add_days(cycle as i64) {
        None => AnchorState::Malformed,
        Some(end) => if end.le(today) {
            AnchorState::Expired(start)
        } else {
            AnchorState::Active(end)
        },
    }
}

/// What the anchor file (its text, when there is one) says for a schedule with `params` made
/// on `today`.
pub fn anchor_state(file: Option<&str>, params: ScheduleParams, today: Day) -> (r: AnchorState)
    ensures
        file is None ==> r is Absent,
        file matches Some(text) ==> match anchor_start(text@) {
            None => r is Malformed,
            Some(s) => if !in_day_range(s + params.cycle()) {
                r is Malformed
            } else if s + params.cycle() <= today@ {
                r matches AnchorState::Expired(d) && d@ == s
            } else {
                r matches AnchorState::Active(e) && e@ == s + params.cycle()
            },
        },
{
    match file {
        None => AnchorState::Absent,
        Some(text) => match parse_anchor(text) {
            None => AnchorState::Malformed,
            Some(start) => cycle_state(start, params, today),
        },
    }
}

/// The message of `init`.
pub fn init_message(start: Day) -> (r: String)
    ensures
        r@ == "Cycle anchor set: started "@ + epoch_day_text(start@),
{
    let mut s = "Cycle anchor set: started ".to_owned();
    s.append(start.to_iso_string().as_str());
    s
}

/// The hint for an anchor whose cycle has ended.
pub fn expired_anchor_hint(start: Day) -> (r: String)
    ensures
        r@ == "hint: cycle anchor expired (started "@ + epoch_day_text(start@)
            + "); run `cycledit init` to set a new one"@,
{
    let mut s = "hint: cycle anchor expired (started ".to_owned();
    s.append(start.to_iso_string().as_str());
    s.append("); run `cycledit init` to set a new one");
    s
}

/// The hint for an anchor file that cannot be read.
pub fn malformed_anchor_hint() -> (r: String)
    ensures
        r@ == "hint: cannot read the cycle anchor in .cycledit; run `cycledit init` to set a new one"@,
{
    "hint: cannot read the cycle anchor in .cycledit; run `cycledit init` to set a new one".to_owned()
}

} // verus!
