//! Durations given as text (ISO 8601 or `jiff`'s friendly format), measured in days.

use vstd::prelude::*;

use crate::day::{in_day_range, Day};
use crate::params::{ChunkExceedsCycleError, NonZeroDays, ScheduleParams};

verus! {

/// Why a duration text could not be measured in days.
#[derive(Clone, Copy, Debug, PartialEq, Eq)]
pub enum SpanFailure {
    /// The text is not a duration.
    Invalid,
    /// The duration reaches past the supported dates.
    Overflow,
    /// The duration could not be expressed in days.
    Conversion,
}

/// Number of days from `start` to `start` plus the duration `text`, as `jiff` parses the text
/// (`Span`'s `FromStr`), adds it to the date and measures the result in days.
pub uninterp spec fn calendar_span_days(text: Seq<char>, start: int) -> Result<i32, SpanFailure>;

/// Parses `text` as a `jiff::Span`, adds it to the date of epoch day `start` with
/// `Date::checked_add`, and measures the distance with `Date::until` in days. Each failure maps to one variant of
/// [`SpanFailure`]. Claimed: the result is the named [`calendar_span_days`].
#[verifier::external_body]
fn jiff_span_days(text: &str, start: i32) -> (r: Result<i32, SpanFailure>)
    requires
        in_day_range(start as int),
    ensures
        r == calendar_span_days(text@, start as int),
{
    let begin = jiff::civil::Date::constant(1970, 1, 1) + jiff::Span::new().days(start);
    let span: jiff::Span = match text.parse() {
        Ok(span) => span,
        Err(_) => return Err(SpanFailure::Invalid),
    };
    let end = match begin.checked_add(span) {
        Ok(end) => end,
        Err(_) => return Err(SpanFailure::Overflow),
    };
    match begin.until(end) {
        Ok(days) => Ok(days.get_days()),
        Err(_) => Err(SpanFailure::Conversion),
    }
}

/// A duration that is not a usable number of days.
#[derive(Clone, Copy, Debug, PartialEq, Eq)]
pub enum SpanDaysError {
    /// The text is not a duration.
    Invalid,
    /// The duration reaches past the supported dates.
    Overflow,
    /// The duration could not be expressed in days.
    Conversion,
    /// The duration is negative (this many days).
    Negative(i32),
    /// The duration is longer than `u16::MAX` days (this many days).
    TooLarge(i32),
    /// The duration is zero days.
    Zero,
}

/// The number of days a duration stands for, from its measured length.
pub open spec fn days_from_length_spec(length: Result<i32, SpanFailure>) -> Result<u16, SpanDaysError> {
    match length {
        Err(SpanFailure::Invalid) => Err(SpanDaysError::Invalid),
        Err(SpanFailure::Overflow) => Err(SpanDaysError::Overflow),
        Err(SpanFailure::Conversion) => Err(SpanDaysError::Conversion),
        Ok(days) => if days < 0 {
            Err(SpanDaysError::Negative(days))
        } else if days > 65535 {
            Err(SpanDaysError::TooLarge(days))
        } else if days == 0 {
            Err(SpanDaysError::Zero)
        } else {
            Ok(days as u16)
        },
    }
}

/// Checks a measured duration: it must be one day or longer and at most `u16::MAX` days.
pub fn days_from_length(length: Result<i32, SpanFailure>) -> (r: Result<NonZeroDays, SpanDaysError>)
    ensures
        match days_from_length_spec(length) {
            Ok(n) => r matches Ok(d) && d@ == n,
            Err(e) => r == Err::<NonZeroDays, SpanDaysError>(e),
        },
        forall|days: i32| length == Ok::<i32, SpanFailure>(days) && 1 <= days <= 65535 ==> (r matches Ok(d) && d@ == days),
        length == Ok::<i32, SpanFailure>(0) ==> r == Err::<NonZeroDays, SpanDaysError>(SpanDaysError::Zero),
{
    match length {
        Err(SpanFailure::Invalid) => Err(SpanDaysError::Invalid),
        Err(SpanFailure::Overflow) => Err(SpanDaysError::Overflow),
        Err(SpanFailure::Conversion) => Err(SpanDaysError::Conversion),
        Ok(days) => {
            if days < 0 {
                Err(SpanDaysError::Negative(days))
            } else if days > 65535 {
                Err(SpanDaysError::TooLarge(days))
            } else {
                match NonZeroDays::new(days as u16) {
                    Some(d) => Ok(d),
                    None => Err(SpanDaysError::Zero),
                }
            }
        },
    }
}

/// Parses the duration `s` and measures it in days from `ref_date` (so that "P1Y" is 365 or
/// 366 days depending on the year).
///
/// # Errors
/// When `s` is no duration, overflows, or is not between 1 and `u16::MAX` days.
pub fn parse_span_days(s: &str, ref_date: Day) -> (r: Result<NonZeroDays, SpanDaysError>)
    ensures
        match days_from_length_spec(calendar_span_days(s@, ref_date@)) {
            Ok(n) => r matches Ok(d) && d@ == n,
            Err(e) => r == Err::<NonZeroDays, SpanDaysError>(e),
        },
{
    days_from_length(jiff_span_days(s, ref_date.epoch_day()))
}

/// Which schedule argument was not usable, and why.
#[derive(Debug)]
pub enum ScheduleArgsError {
    /// The `--cycle` duration.
    Cycle(SpanDaysError),
    /// The `--chunk` duration.
    Chunk(SpanDaysError),
    /// The chunk is longer than the cycle.
    ChunkExceedsCycle(ChunkExceedsCycleError),
}

/// The schedule parameters from the `--cycle` and `--chunk` durations, measured from `today`.
///
/// # Errors
/// The cycle is checked first, then the chunk, then that the chunk fits in the cycle.
pub fn schedule_params_from_text(cycle: &str, chunk: &str, today: Day) -> (r: Result<
    ScheduleParams,
    ScheduleArgsError,
>)
    ensures
        ({
            let c = days_from_length_spec(calendar_span_days(cycle@, today@));
            let k = days_from_length_spec(calendar_span_days(chunk@, today@));
            match (c, k) {
                (Err(e), _) => r matches Err(ScheduleArgsError::Cycle(e2)) && e2 == e,
                (Ok(_), Err(e)) => r matches Err(ScheduleArgsError::Chunk(e2)) && e2 == e,
                (Ok(cn), Ok(kn)) => if kn <= cn {
                    r matches Ok(p) && p.cycle() == cn && p.chunk() == kn
                } else {
                    r matches Err(ScheduleArgsError::ChunkExceedsCycle(e)) && e.cycle() == cn
                        && e.chunk() == kn
                },
            }
        }),
{
    let cycle_days = match parse_span_days(cycle, today) {
        Ok(d) => d,
        Err(e) => return Err(ScheduleArgsError::Cycle(e)),
    };
    let chunk_days = match parse_span_days(chunk, today) {
        Ok(d) => d,
        Err(e) => return Err(ScheduleArgsError::Chunk(e)),
    };
    match ScheduleParams::builder().cycle_days(cycle_days).chunk_days(chunk_days) {
        Ok(p) => Ok(p),
        Err(e) => Err(ScheduleArgsError::ChunkExceedsCycle(e)),
    }
}

/// Every duration of one day or more, up to `u16::MAX` days, is accepted as that many days
/// (one day, "P1D", included); only zero days is the zero error, a negative length is the
/// negative error and a longer one the too-large error, each with its length; a duration that
/// could not be measured keeps its failure.
pub proof fn law_day_counts_accepted(days: i32)
    ensures
        1 <= days <= 65535 ==> days_from_length_spec(Ok(days)) == Ok::<u16, SpanDaysError>(days as u16),
        days == 0 ==> days_from_length_spec(Ok(days)) == Err::<u16, SpanDaysError>(SpanDaysError::Zero),
        days < 0 ==> days_from_length_spec(Ok(days)) == Err::<u16, SpanDaysError>(SpanDaysError::Negative(days)),
        days > 65535 ==> days_from_length_spec(Ok(days)) == Err::<u16, SpanDaysError>(
            SpanDaysError::TooLarge(days),
        ),
        days_from_length_spec(Err(SpanFailure::Invalid)) == Err::<u16, SpanDaysError>(SpanDaysError::Invalid),
        days_from_length_spec(Err(SpanFailure::Overflow)) == Err::<u16, SpanDaysError>(SpanDaysError::Overflow),
        days_from_length_spec(Err(SpanFailure::Conversion)) == Err::<u16, SpanDaysError>(
            SpanDaysError::Conversion,
        ),
{
}

} // verus!
