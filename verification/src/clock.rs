//! Instants, counted in seconds since 1970.

use vstd::prelude::*;

use crate::numbers::{decimal, integer_text};
use crate::text::{push_text, text_of};

verus! {

/// Noon of the first Julian day, the earliest instant of the calendar.
pub const FIRST_INSTANT: i64 = -210866760000;

/// The last second of the year 9999.
pub const LAST_INSTANT: i64 = 253402300799;

/// The instant some seconds from now, if the calendar has it.
pub open spec fn instant_after(now: i64, seconds: i64) -> Option<i64> {
    if FIRST_INSTANT <= now + seconds <= LAST_INSTANT {
        Some((now + seconds) as i64)
    } else {
        None
    }
}

/// The instant some seconds from now, if the calendar has it.
pub fn after(now: i64, seconds: i64) -> (r: Option<i64>)
    ensures
        r == instant_after(now, seconds),
{
    match now.checked_add(seconds) {
        Some(sum) => if FIRST_INSTANT <= sum && sum <= LAST_INSTANT {
            Some(sum)
        } else {
            None
        },
        None => None,
    }
}

/// A year before the first of the calendar, from which days are counted.
pub const BASE_YEAR: i64 = -4800;

/// The days from the first of the base year to the first of 1970.
pub const EPOCH_DAYS: i64 = 2472692;

/// The year has a day more.
pub open spec fn leap(year: int) -> bool {
    year % 4 == 0 && (year % 100 != 0 || year % 400 == 0)
}

pub open spec fn year_days(year: int) -> int {
    if leap(year) {
        366
    } else {
        365
    }
}

pub open spec fn month_days(year: int, month: int) -> int {
    if month == 2 {
        if leap(year) {
            29
        } else {
            28
        }
    } else if month == 4 || month == 6 || month == 9 || month == 11 {
        30
    } else {
        31
    }
}

/// The days before a year, counted from the base year.
pub open spec fn days_to_year(year: int) -> int
    decreases year - BASE_YEAR,
{
    if year <= BASE_YEAR {
        0
    } else {
        days_to_year(year - 1) + year_days(year - 1)
    }
}

/// The days of a year before a month.
pub open spec fn days_to_month(year: int, month: int) -> int
    decreases month,
{
    if month <= 1 {
        0
    } else {
        days_to_month(year, month - 1) + month_days(year, month - 1)
    }
}

/// A second of the calendar.
pub struct Moment {
    pub year: int,
    pub month: int,
    pub day: int,
    pub hour: int,
    pub minute: int,
    pub second: int,
}

impl Moment {
    pub open spec fn wf(self) -> bool {
        &&& BASE_YEAR <= self.year <= 9999
        &&& 1 <= self.month <= 12
        &&& 1 <= self.day <= month_days(self.year, self.month)
        &&& 0 <= self.hour < 24
        &&& 0 <= self.minute < 60
        &&& 0 <= self.second < 60
    }

    /// The days before the moment's own, counted from the base year.
    pub open spec fn days(self) -> int {
        days_to_year(self.year) + days_to_month(self.year, self.month) + self.day - 1
    }

    /// The seconds from 1970 to the moment.
    pub open spec fn instant(self) -> int {
        (self.days() - EPOCH_DAYS) * 86400 + self.hour * 3600 + self.minute * 60 + self.second
    }

    /// Year, month and day between hyphens, and the time between colons.
    pub open spec fn text(self) -> Seq<char> {
        year_text(self.year) + "-"@ + two_digits(self.month) + "-"@ + two_digits(self.day) + " "@
            + two_digits(self.hour) + ":"@ + two_digits(self.minute) + ":"@ + two_digits(
            self.second,
        )
    }
}

pub open spec fn two_digits(n: int) -> Seq<char> {
    seq![(0x30 + n / 10) as char, (0x30 + n % 10) as char]
}

/// Four digits, behind a minus for a year before zero.
pub open spec fn year_text(year: int) -> Seq<char> {
    if year < 0 {
        "-"@ + two_digits(-year / 100) + two_digits(-year % 100)
    } else {
        two_digits(year / 100) + two_digits(year % 100)
    }
}

/// The moment of an instant.
pub open spec fn moment_of(instant: int) -> Moment {
    choose|m: Moment| #[trigger] m.wf() && m.instant() == instant
}

/// The text of an instant.
pub open spec fn utc_of(instant: int) -> Seq<char> {
    moment_of(instant).text()
}

proof fn lemma_years_ascend(a: int, b: int)
    requires
        BASE_YEAR <= a < b,
    ensures
        days_to_year(a) + year_days(a) <= days_to_year(b),
    decreases b - a,
{
    if a < b - 1 {
        lemma_years_ascend(a, b - 1);
    }
}

proof fn lemma_months_ascend(year: int, a: int, b: int)
    requires
        1 <= a < b <= 13,
    ensures
        days_to_month(year, a) + month_days(year, a) <= days_to_month(year, b),
    decreases b,
{
    if a < b - 1 {
        lemma_months_ascend(year, a, b - 1);
    }
}

proof fn lemma_year_is_its_months(year: int)
    ensures
        days_to_month(year, 13) == year_days(year),
{
    reveal_with_fuel(days_to_month, 14);
}

proof fn lemma_day_within_year(m: Moment)
    requires
        m.wf(),
    ensures
        0 <= days_to_month(m.year, m.month) + m.day - 1 < year_days(m.year),
{
    lemma_year_is_its_months(m.year);
    lemma_months_ascend(m.year, m.month, 13);
    if m.month > 1 {
        lemma_months_ascend(m.year, 1, m.month);
    }
}

/// No instant is two moments.
pub proof fn calendar_is_unambiguous(a: Moment, b: Moment)
    requires
        a.wf(),
        b.wf(),
        a.instant() == b.instant(),
    ensures
        a == b,
{
    assert(a.days() == b.days() && a.hour * 3600 + a.minute * 60 + a.second == b.hour * 3600
        + b.minute * 60 + b.second);
    lemma_day_within_year(a);
    lemma_day_within_year(b);
    if a.year < b.year {
        lemma_years_ascend(a.year, b.year);
    } else if b.year < a.year {
        lemma_years_ascend(b.year, a.year);
    }
    if a.month < b.month {
        lemma_months_ascend(a.year, a.month, b.month);
    } else if b.month < a.month {
        lemma_months_ascend(a.year, b.month, a.month);
    }
}

fn count_year(year: i64) -> (r: i64)
    requires
        BASE_YEAR <= year <= 10000,
    ensures
        r == year_days(year as int),
{
    let fourth = year % 4 == 0;
    let hundredth = year % 100 == 0;
    let four_hundredth = year % 400 == 0;
    if fourth && (!hundredth || four_hundredth) {
        366
    } else {
        365
    }
}

fn count_month(year: i64, month: i64) -> (r: i64)
    requires
        BASE_YEAR <= year <= 10000,
        1 <= month <= 12,
    ensures
        r == month_days(year as int, month as int),
{
    if month == 2 {
        count_year(year) - 337
    } else if month == 4 || month == 6 || month == 9 || month == 11 {
        30
    } else {
        31
    }
}

fn push_two(out: &mut Vec<char>, n: i64)
    requires
        0 <= n < 100,
    ensures
        final(out)@ == old(out)@ + two_digits(n as int),
{
    let ghost before = out@;
    let tens: u8 = (n / 10) as u8;
    let ones: u8 = (n % 10) as u8;
    out.push((0x30 + tens) as char);
    out.push((0x30 + ones) as char);
    assert(out@ =~= before + two_digits(n as int));
}

/// How many multiples of a number the years from the base year to another have.
#[verifier::opaque]
spec fn multiples(year: int, k: int) -> int {
    (year - BASE_YEAR + k - 1) / k
}

proof fn lemma_fourth_years(year: int)
    requires
        BASE_YEAR < year,
    ensures
        multiples(year, 4) == multiples(year - 1, 4) + (if (year - 1) % 4 == 0 {
            1int
        } else {
            0
        }),
{
    reveal(multiples);
}

proof fn lemma_hundredth_years(year: int)
    requires
        BASE_YEAR < year,
    ensures
        multiples(year, 100) == multiples(year - 1, 100) + (if (year - 1) % 100 == 0 {
            1int
        } else {
            0
        }),
{
    reveal(multiples);
}

proof fn lemma_four_hundredth_years(year: int)
    requires
        BASE_YEAR < year,
    ensures
        multiples(year, 400) == multiples(year - 1, 400) + (if (year - 1) % 400 == 0 {
            1int
        } else {
            0
        }),
{
    reveal(multiples);
}

proof fn lemma_days_of_years(year: int)
    requires
        BASE_YEAR <= year,
    ensures
        days_to_year(year) == 365 * (year - BASE_YEAR) + multiples(year, 4) - multiples(year, 100)
            + multiples(year, 400),
    decreases year - BASE_YEAR,
{
    if year <= BASE_YEAR {
        reveal(multiples);
    } else {
        lemma_days_of_years(year - 1);
        lemma_fourth_years(year);
        lemma_hundredth_years(year);
        lemma_four_hundredth_years(year);
        assert((year - 1) % 100 == 0 ==> (year - 1) % 4 == 0);
        assert((year - 1) % 400 == 0 ==> (year - 1) % 100 == 0);
    }
}

/// The text of an instant of the calendar.
pub fn utc_text(instant: i64) -> (r: String)
    requires
        FIRST_INSTANT <= instant <= LAST_INSTANT,
    ensures
        r@ == utc_of(instant as int),
{
    let since: i64 = instant + EPOCH_DAYS * 86400;
    let mut days: i64 = since / 86400;
    let rest: i64 = since % 86400;
    let ghost all = days as int;
    let mut year: i64 = BASE_YEAR;
    proof {
        lemma_days_of_years(10000);
        reveal(multiples);
    }
    while days >= count_year(year)
        invariant
            BASE_YEAR <= year <= 9999,
            0 <= days <= 5405588,
            all <= 5405588,
            days_to_year(10000) == 5405589,
            all == days_to_year(year as int) + days,
        decreases days,
    {
        proof {
            if year == 9999 {
                assert(days_to_year(10000) == days_to_year(9999) + year_days(9999));
            }
        }
        days = days - count_year(year);
        year = year + 1;
    }
    let mut month: i64 = 1;
    let ghost in_year = days as int;
    proof {
        lemma_year_is_its_months(year as int);
    }
    while days >= count_month(year, month)
        invariant
            BASE_YEAR <= year <= 9999,
            1 <= month <= 12,
            0 <= days <= 366,
            in_year < year_days(year as int),
            in_year == days_to_month(year as int, month as int) + days,
            days_to_month(year as int, 13) == year_days(year as int),
        decreases days,
    {
        proof {
            if month == 12 {
                assert(days_to_month(year as int, 13) == days_to_month(year as int, 12)
                    + month_days(year as int, 12));
            }
        }
        days = days - count_month(year, month);
        month = month + 1;
    }
    let hour: i64 = rest / 3600;
    let minute: i64 = rest % 3600 / 60;
    let second: i64 = rest % 60;
    let ghost moment = Moment {
        year: year as int,
        month: month as int,
        day: days + 1,
        hour: hour as int,
        minute: minute as int,
        second: second as int,
    };
    let mut out: Vec<char> = Vec::new();
    let size: i64 = if year < 0 {
        out.push('-');
        -year
    } else {
        year
    };
    push_two(&mut out, size / 100);
    push_two(&mut out, size % 100);
    proof {
        reveal_strlit("-");
        assert(out@ =~= year_text(year as int));
    }
    push_text(&mut out, "-");
    push_two(&mut out, month);
    push_text(&mut out, "-");
    push_two(&mut out, days + 1);
    push_text(&mut out, " ");
    push_two(&mut out, hour);
    push_text(&mut out, ":");
    push_two(&mut out, minute);
    push_text(&mut out, ":");
    push_two(&mut out, second);
    proof {
        assert(moment.wf());
        assert(moment.instant() == instant);
        calendar_is_unambiguous(moment_of(instant as int), moment);
        assert(out@ =~= moment.text());
    }
    text_of(out.as_slice())
}

/// How an instant is told: as a moment of the calendar, or beyond it as a number.
pub open spec fn instant_told(instant: int) -> Seq<char> {
    if FIRST_INSTANT <= instant <= LAST_INSTANT {
        utc_of(instant)
    } else {
        integer_text(instant)
    }
}

/// How an instant is told.
pub fn instant_text(instant: i64) -> (r: String)
    ensures
        r@ == instant_told(instant as int),
{
    if FIRST_INSTANT <= instant && instant <= LAST_INSTANT {
        utc_text(instant)
    } else {
        decimal(instant)
    }
}

/// An instant some seconds from now is that many seconds later, and is one of the
/// calendar, whose last second is that of the year 9999.
pub proof fn later_instants_add_up(now: i64, seconds: i64)
    ensures
        instant_after(now, seconds) is Some <==> -210866760000 <= now + seconds <= 253402300799,
        instant_after(now, seconds) matches Some(then) ==> then == now + seconds,
{
}

/// Months have the lengths of the Gregorian calendar.
pub proof fn months_have_their_lengths(year: int, month: int)
    requires
        1 <= month <= 12,
    ensures
        month_days(year, month) == (if month == 2 {
            if year % 400 == 0 || (year % 4 == 0 && year % 100 != 0) {
                29int
            } else {
                28
            }
        } else {
            seq![31int, 28, 31, 30, 31, 30, 31, 31, 30, 31, 30, 31][month - 1]
        }),
{
}

/// Four centuries have 146097 days.
pub proof fn four_centuries_have_their_days(year: int)
    requires
        BASE_YEAR <= year,
    ensures
        days_to_year(year + 400) == days_to_year(year) + 146097,
{
    lemma_days_of_years(year);
    lemma_days_of_years(year + 400);
    reveal(multiples);
}

/// The second after a moment is the next of its minute, or the first of the next
/// minute, hour, day, month or year.
pub proof fn seconds_follow_one_another(m: Moment, next: Moment)
    requires
        m.wf(),
        next.wf(),
        next == (if m.second < 59 {
            Moment { second: m.second + 1, ..m }
        } else if m.minute < 59 {
            Moment { minute: m.minute + 1, second: 0, ..m }
        } else if m.hour < 23 {
            Moment { hour: m.hour + 1, minute: 0, second: 0, ..m }
        } else if m.day < month_days(m.year, m.month) {
            Moment { day: m.day + 1, hour: 0, minute: 0, second: 0, ..m }
        } else if m.month < 12 {
            Moment { month: m.month + 1, day: 1, hour: 0, minute: 0, second: 0, ..m }
        } else {
            Moment { year: m.year + 1, month: 1, day: 1, hour: 0, minute: 0, second: 0 }
        }),
    ensures
        next.instant() == m.instant() + 1,
{
    lemma_year_is_its_months(m.year);
    if m.month == 12 {
        assert(days_to_month(m.year, 13) == days_to_month(m.year, 12) + month_days(m.year, 12));
    }
}

/// Seconds are counted from the start of 1970.
pub proof fn count_starts_in_1970(m: Moment)
    requires
        m.year == 1970,
        m.month == 1,
        m.day == 1,
    ensures
        m.instant() == m.hour * 3600 + m.minute * 60 + m.second,
{
    lemma_days_of_years(1970);
    reveal(multiples);
}

/// A moment is told as four digits of the year and two of everything else, in that order,
/// and an instant that the calendar does not reach as its seconds.
pub proof fn moments_are_told_so(m: Moment, instant: int)
    requires
        m.wf(),
        m.year >= 0,
    ensures
        m.text().len() == 19,
        m.text()[0] as int - 48 == m.year / 1000,
        m.text()[1] as int - 48 == m.year / 100 % 10,
        m.text()[2] as int - 48 == m.year / 10 % 10,
        m.text()[3] as int - 48 == m.year % 10,
        m.text()[4] == '-' && m.text()[7] == '-' && m.text()[10] == ' ',
        m.text()[13] == ':' && m.text()[16] == ':',
        (m.text()[5] as int - 48) * 10 + m.text()[6] as int - 48 == m.month,
        (m.text()[8] as int - 48) * 10 + m.text()[9] as int - 48 == m.day,
        (m.text()[11] as int - 48) * 10 + m.text()[12] as int - 48 == m.hour,
        (m.text()[14] as int - 48) * 10 + m.text()[15] as int - 48 == m.minute,
        (m.text()[17] as int - 48) * 10 + m.text()[18] as int - 48 == m.second,
        -210866760000 <= instant <= 253402300799 ==> instant_told(instant) == utc_of(instant),
        instant < -210866760000 || instant > 253402300799 ==> instant_told(instant) == integer_text(
            instant,
        ),
{
    reveal_strlit("-");
    reveal_strlit(" ");
    reveal_strlit(":");
    assert(m.day <= 31);
    let y = m.year;
    assert(y / 100 / 10 == y / 1000 && y / 100 % 10 == y / 100 - y / 1000 * 10);
    assert(y % 100 / 10 == y / 10 % 10 && y % 100 % 10 == y % 10);
}

} // verus!
