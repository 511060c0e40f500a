//! Civil dates, counted in days from the Unix epoch (1970-01-01).

use vstd::prelude::*;

verus! {

/// Epoch day of `-9999-01-01`, the earliest civil date that `jiff` supports.
pub const MIN_DAY: i32 = -4371587;

/// Epoch day of `9999-12-31`, the latest civil date that `jiff` supports.
pub const MAX_DAY: i32 = 2932896;

/// Whether `n` is the epoch day of a supported civil date.
pub open spec fn in_day_range(n: int) -> bool {
    MIN_DAY <= n <= MAX_DAY
}

/// A civil (time zone free) date, held as its number of days since 1970-01-01.
#[derive(Clone, Copy, Debug, PartialEq, Eq, Hash)]
pub struct Day {
    n: i32,
}

impl View for Day {
    type V = int;

    closed spec fn view(&self) -> int {
        self.n as int
    }
}

impl Day {
    #[verifier::type_invariant]
    closed spec fn inv(self) -> bool {
        in_day_range(self.n as int)
    }

    /// The day with epoch number `n`, if `n` is in the supported range.
    pub fn from_epoch_day(n: i32) -> (r: Option<Day>)
        ensures
            r is Some <==> in_day_range(n as int),
            r matches Some(d) ==> d@ == n,
    {
        if MIN_DAY <= n && n <= MAX_DAY {
            Some(Day { n })
        } else {
            None
        }
    }

    /// The number of days since 1970-01-01.
    pub fn epoch_day(self) -> (r: i32)
        ensures
            r == self@,
            in_day_range(r as int),
    {
        proof {
            use_type_invariant(self);
        }
        self.n
    }

    /// The date `days` days later (earlier when negative), or `None` past the supported range.
    pub fn checked_add_days(self, days: i64) -> (r: Option<Day>)
        ensures
            r is Some <==> in_day_range(self@ + days),
            r matches Some(d) ==> d@ == self@ + days,
    {
        proof {
            use_type_invariant(self);
        }
        if days < (MIN_DAY as i64) - (MAX_DAY as i64) || days > (MAX_DAY as i64) - (MIN_DAY as i64) {
            return None;
        }
        let sum: i64 = self.n as i64 + days;
        if (MIN_DAY as i64) <= sum && sum <= (MAX_DAY as i64) {
            Some(Day { n: sum as i32 })
        } else {
            None
        }
    }

    /// Number of days from `other` to `self` (negative when `self` is earlier).
    pub fn days_since(self, other: Day) -> (r: i32)
        ensures
            r == self@ - other@,
    {
        proof {
            use_type_invariant(self);
            use_type_invariant(other);
        }
        self.n - other.n
    }

    /// Whether `self` is on or before `other`.
    pub fn le(self, other: Day) -> (r: bool)
        ensures
            r == (self@ <= other@),
    {
        self.n <= other.n
    }

    /// Whether `self` is strictly before `other`.
    pub fn lt(self, other: Day) -> (r: bool)
        ensures
            r == (self@ < other@),
    {
        self.n < other.n
    }

    /// Whether `self` and `other` are the same date.
    pub fn same(self, other: Day) -> (r: bool)
        ensures
            r == (self@ == other@),
    {
        self.n == other.n
    }
}

/// The epoch day of the Gregorian date `year-month-day`, or `None` when that is no valid date
/// in `jiff`'s range, as `jiff::civil::Date::new` decides.
pub uninterp spec fn civil_epoch_day(year: i16, month: i8, day: i8) -> Option<int>;

/// The Gregorian `(year, month, day)` of epoch day `n`, as `jiff` computes it.
pub uninterp spec fn epoch_day_civil(n: int) -> (i16, i8, i8);

/// The text `jiff` prints for the date of epoch day `n` (`YYYY-MM-DD`).
pub uninterp spec fn epoch_day_text(n: int) -> Seq<char>;

/// The epoch day of the date that `jiff` reads from `text` (`Date`'s `FromStr`), or `None`
/// when it reads none.
pub uninterp spec fn date_from_text(text: Seq<char>) -> Option<int>;

/// Parses `text` with `jiff`'s `FromStr` for `civil::Date` and measures the date in days from
/// 1970-01-01 (a `Date - Date` subtraction, which `jiff` documents never to fail). Claimed: the
/// result is the named [`date_from_text`], and a date that `jiff` reads lies in its range.
#[verifier::external_body]
fn jiff_date_from_text(text: &str) -> (r: Option<i32>)
    ensures
        r matches Some(n) ==> date_from_text(text@) == Some(n as int) && in_day_range(n as int),
        r is None ==> date_from_text(text@) is None,
{
    match text.parse::<jiff::civil::Date>() {
        Ok(date) => Some((date - jiff::civil::Date::constant(1970, 1, 1)).get_days()),
        Err(_) => None,
    }
}

/// Calls `jiff::civil::Date::new` and measures the result in days from 1970-01-01 (a
/// `Date - Date` subtraction, which `jiff` documents never to fail). Claimed: the result is
/// the named [`civil_epoch_day`], and a date that `jiff` accepts lies in its supported range.
#[verifier::external_body]
fn jiff_civil_epoch_day(year: i16, month: i8, day: i8) -> (r: Option<i32>)
    ensures
        r matches Some(n) ==> civil_epoch_day(year, month, day) == Some(n as int) && in_day_range(n as int),
        r is None ==> civil_epoch_day(year, month, day) is None,
{
    match jiff::civil::Date::new(year, month, day) {
        Ok(date) => Some((date - jiff::civil::Date::constant(1970, 1, 1)).get_days()),
        Err(_) => None,
    }
}

/// Adds `n` days to 1970-01-01 with `jiff` (`Date + Span`, which panics only outside the
/// supported range, excluded here) and returns the date's fields. Claimed: the result is the
/// named [`epoch_day_civil`], and converting it back gives `n` (`jiff` documents that adding a
/// span of days and measuring it back in days are inverse).
#[verifier::external_body]
fn jiff_epoch_day_civil(n: i32) -> (r: (i16, i8, i8))
    requires
        in_day_range(n as int),
    ensures
        r == epoch_day_civil(n as int),
        civil_epoch_day(r.0, r.1, r.2) == Some(n as int),
{
    let date = jiff::civil::Date::constant(1970, 1, 1) + jiff::Span::new().days(n);
    (date.year(), date.month(), date.day())
}

/// Whether `c` can occur in a printed date: an ASCII digit or `-`.
pub open spec fn is_date_char(c: char) -> bool {
    c == '-' || c == '0' || c == '1' || c == '2' || c == '3' || c == '4' || c == '5' || c == '6' || c == '7'
        || c == '8' || c == '9'
}

/// Formats the date of epoch day `n` with `jiff`'s `Display` for `Date`. Claimed: the text is
/// the named [`epoch_day_text`]; (as `jiff`'s printer writes an optional `-00`, a padded
/// year, `-`, a padded month, `-` and a padded day) it is made of digits and `-` only; and
/// `jiff`'s `FromStr` for `Date` reads the same date back from it (the ISO 8601 date format
/// that the printer writes is the one the parser reads, as `Date`'s documentation shows).
#[verifier::external_body]
fn jiff_epoch_day_text(n: i32) -> (r: String)
    requires
        in_day_range(n as int),
    ensures
        r@ == epoch_day_text(n as int),
        date_from_text(r@) == Some(n as int),
        r@.len() > 0,
        forall|i: int| 0 <= i < r@.len() ==> is_date_char(#[trigger] r@[i]),
{
    let date = jiff::civil::Date::constant(1970, 1, 1) + jiff::Span::new().days(n);
    format!("{date}")
}

impl Day {
    /// The Gregorian date `year-month-day`, or `None` when it is not a valid, supported date.
    pub fn from_civil(year: i16, month: i8, day: i8) -> (r: Option<Day>)
        ensures
            r matches Some(d) ==> civil_epoch_day(year, month, day) == Some(d@),
            r is None ==> civil_epoch_day(year, month, day) is None,
    {
        match jiff_civil_epoch_day(year, month, day) {
            Some(n) => Some(Day { n }),
            None => None,
        }
    }

    /// The date written in `text` (`YYYY-MM-DD`), if `jiff` reads one.
    pub fn from_text(text: &str) -> (r: Option<Day>)
        ensures
            r matches Some(d) ==> date_from_text(text@) == Some(d@),
            r is None ==> date_from_text(text@) is None,
    {
        match jiff_date_from_text(text) {
            Some(n) => Some(Day { n }),
            None => None,
        }
    }

    /// The Gregorian `(year, month, day)` of this date.
    pub fn to_civil(self) -> (r: (i16, i8, i8))
        ensures
            r == epoch_day_civil(self@),
            civil_epoch_day(r.0, r.1, r.2) == Some(self@),
    {
        proof {
            use_type_invariant(self);
        }
        jiff_epoch_day_civil(self.n)
    }

    /// The date as `YYYY-MM-DD` text.
    pub fn to_iso_string(self) -> (r: String)
        ensures
            r@ == epoch_day_text(self@),
            date_from_text(r@) == Some(self@),
            r@.len() > 0,
            forall|i: int| 0 <= i < r@.len() ==> is_date_char(#[trigger] r@[i]),
    {
        proof {
            use_type_invariant(self);
        }
        jiff_epoch_day_text(self.n)
    }
}

} // verus!
