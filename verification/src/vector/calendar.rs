//! Days are those of the Gregorian calendar.

use vstd::prelude::*;

use crate::bytes;
use crate::vector::helpers;
use crate::vector::helpers::ParsedDateTime;
use crate::vector::ParseError;

verus! {

/// The year has a 29th of February.
pub open spec fn is_leap(year: int) -> bool {
    (year % 4 == 0 && year % 100 != 0) || year % 400 == 0
}

/// How many days a month has.
pub open spec fn month_length(year: int, month: int) -> int {
    if month == 2 {
        if is_leap(year) {
            29
        } else {
            28
        }
    } else if month == 4 || month == 6 || month == 9 || month == 11 {
        30
    } else {
        31
    }
}

/// The date is one of the calendar.
pub open spec fn is_date(year: int, month: int, day: int) -> bool {
    1 <= month <= 12 && 1 <= day <= month_length(year, month)
}

/// The date of the next day.
pub open spec fn next_date(year: int, month: int, day: int) -> (int, int, int) {
    if day < month_length(year, month) {
        (year, month, day + 1)
    } else if month < 12 {
        (year, month + 1, 1)
    } else {
        (year + 1, 1, 1)
    }
}

/// A year that is counted from March is a day longer where the next February is.
proof fn lemma_march_year(y: int)
    ensures
        ({
            let before = |x: int|
                (x / 400) * 146_097 + (x % 400) * 365 + (x % 400) / 4 - (x % 400) / 100;
            before(y + 1) - before(y) == if is_leap(y + 1) {
                366int
            } else {
                365
            }
        }),
{
    let (e, r) = (y / 400, y % 400);
    let (f, s) = ((y + 1) / 400, (y + 1) % 400);
    if r < 399 {
        assert(f == e && s == r + 1);
        assert((y + 1) % 4 == s % 4 && (y + 1) % 100 == s % 100);
        assert((r + 1) / 4 == r / 4 + if (r + 1) % 4 == 0 { 1int } else { 0 });
        assert((r + 1) / 100 == r / 100 + if (r + 1) % 100 == 0 { 1int } else { 0 });
    } else {
        assert(f == e + 1 && s == 0);
    }
}

/// Day 0 is the first of January 1970, and every day of the calendar is one more than the day before
/// it, where months have their usual lengths and February has 29 days in years that can be divided by
/// 4 and not by 100, or by 400.
pub proof fn law_days_are_counted_one_by_one(year: int, month: int, day: int)
    requires
        is_date(year, month, day),
    ensures
        ({
            let next = next_date(year, month, day);
            helpers::civil_days(next.0, next.1, next.2) == helpers::civil_days(year, month, day) + 1
        }),
        helpers::civil_days(1970, 1, 1) == 0,
{
    if month == 2 && day >= 28 {
        lemma_march_year(year - 1);
    }
}

/// Days that a month does not have are counted on from its first.
pub proof fn law_days_are_counted_from_the_first(year: int, month: int, day: int)
    ensures
        helpers::civil_days(year, month, day) == helpers::civil_days(year, month, 1) + day - 1,
{
}

/// Five months that start in March or later make 153 days, those behind December too; the month
/// before January is the last December.
pub proof fn law_months_go_on(year: int, month: int, day: int)
    ensures
        month > 2 ==> helpers::civil_days(year, month + 5, day) == helpers::civil_days(
            year,
            month,
            day,
        ) + 153,
        helpers::civil_days(year, 0, day) == helpers::civil_days(year - 1, 12, day),
{
    if month > 2 {
        let s = month - 3;
        assert((153 * (s + 5) + 2) / 5 == (153 * s + 2) / 5 + 153);
    }
}

/// The digit that a byte is.
pub open spec fn digit(b: u8) -> int {
    b - 48
}

/// The text starts with a date and a time: digits at the places of year, month, day, hour and minute,
/// and anything between and behind them.
pub open spec fn has_time(iso: Seq<u8>) -> bool {
    &&& iso.len() >= 16
    &&& forall|k: int|
        0 <= k < 16 && k != 4 && k != 7 && k != 10 && k != 13 ==> 48 <= (#[trigger] iso[k]) <= 57
}

pub open spec fn year_in(iso: Seq<u8>) -> int {
    1000 * digit(iso[0]) + 100 * digit(iso[1]) + 10 * digit(iso[2]) + digit(iso[3])
}

/// The number that two digits spell.
pub open spec fn pair_in(iso: Seq<u8>, at: int) -> int {
    10 * digit(iso[at]) + digit(iso[at + 1])
}

proof fn lemma_pair(iso: Seq<u8>, at: int)
    requires
        0 <= at,
        at + 2 <= iso.len(),
    ensures
        helpers::digits_at(iso, at, 2) <==> bytes::is_digit(iso[at]) && bytes::is_digit(
            iso[at + 1],
        ),
        helpers::digits_at(iso, at, 2) ==> helpers::number_at(iso, at, 2) == pair_in(iso, at),
{
    let t = iso.subrange(at, at + 2);
    assert(t[0] == iso[at] && t[1] == iso[at + 1]);
    if bytes::is_digit(iso[at]) && bytes::is_digit(iso[at + 1]) {
        assert forall|i: int| 0 <= i < t.len() implies bytes::is_digit(#[trigger] t[i]) by {
            assert(i == 0 || i == 1);
        }
        reveal_with_fuel(bytes::digits_value, 3);
    }
    if helpers::digits_at(iso, at, 2) {
        assert(bytes::is_digit(t[0]) && bytes::is_digit(t[1]));
    }
}

proof fn lemma_year(iso: Seq<u8>)
    requires
        4 <= iso.len(),
    ensures
        helpers::digits_at(iso, 0, 4) <==> bytes::is_digit(iso[0]) && bytes::is_digit(iso[1])
            && bytes::is_digit(iso[2]) && bytes::is_digit(iso[3]),
        helpers::digits_at(iso, 0, 4) ==> helpers::number_at(iso, 0, 4) == year_in(iso),
{
    let t = iso.subrange(0, 4);
    assert(t[0] == iso[0] && t[1] == iso[1] && t[2] == iso[2] && t[3] == iso[3]);
    if bytes::is_digit(iso[0]) && bytes::is_digit(iso[1]) && bytes::is_digit(iso[2])
        && bytes::is_digit(iso[3]) {
        assert forall|i: int| 0 <= i < t.len() implies bytes::is_digit(#[trigger] t[i]) by {
            assert(i == 0 || i == 1 || i == 2 || i == 3);
        }
        reveal_with_fuel(bytes::digits_value, 5);
    }
    if helpers::digits_at(iso, 0, 4) {
        assert(bytes::is_digit(t[0]) && bytes::is_digit(t[1]) && bytes::is_digit(t[2])
            && bytes::is_digit(t[3]));
    }
}

/// A text is read as a point in time if and only if it starts with a date and a time.
pub proof fn law_times_are_read_where_they_stand(iso: Seq<u8>)
    ensures
        has_time(iso) <==> helpers::datetime_of(iso) is Ok,
        helpers::datetime_of(iso) matches Err(e) ==> e == ParseError::InvalidValue,
        has_time(iso) ==> ({
            let time = helpers::datetime_of(iso)->Ok_0;
            &&& time.hour == pair_in(iso, 11)
            &&& 0 <= time.day_of_week < 7
            &&& time.epoch_minute == 1440 * helpers::civil_days(
                year_in(iso),
                pair_in(iso, 5),
                pair_in(iso, 8),
            ) + 60 * pair_in(iso, 11) + pair_in(iso, 14)
        }),
{
    if iso.len() >= 16 {
        lemma_year(iso);
        lemma_pair(iso, 5);
        lemma_pair(iso, 8);
        lemma_pair(iso, 11);
        lemma_pair(iso, 14);
        if helpers::datetime_of(iso) is Ok {
            assert forall|k: int|
                0 <= k < 16 && k != 4 && k != 7 && k != 10 && k != 13 implies 48 <= (
            #[trigger] iso[k]) <= 57 by {
                assert(k == 0 || k == 1 || k == 2 || k == 3 || k == 5 || k == 6 || k == 8 || k == 9
                    || k == 11 || k == 12 || k == 14 || k == 15);
            }
        }
    }
}

/// Two points in time, at these minutes of these days, are as far apart as the calendar says, and so
/// are their weekdays; the first of January 1970 is day 0, a Thursday, where Monday is 0.
pub open spec fn follows(
    x: ParsedDateTime,
    y: ParsedDateTime,
    date: (int, int, int),
    other: (int, int, int),
    minute: int,
    other_minute: int,
) -> bool {
    &&& date == other ==> {
        &&& y.epoch_minute - x.epoch_minute == other_minute - minute
        &&& y.day_of_week == x.day_of_week
    }
    &&& next_date(date.0, date.1, date.2) == other ==> {
        &&& y.epoch_minute - x.epoch_minute == 1440 + other_minute - minute
        &&& y.day_of_week == (x.day_of_week + 1) % 7
    }
    &&& date == (1970int, 1int, 1int) ==> x.day_of_week == 3 && x.epoch_minute == minute
}

/// From one day to the next there are 1440 minutes, and the weekday is the next of seven; within a day
/// minutes are counted from midnight; and the first of January 1970 is minute 0, a Thursday, where
/// Monday is 0.
pub proof fn law_times_follow_the_calendar(a: Seq<u8>, b: Seq<u8>)
    requires
        has_time(a),
        has_time(b),
        is_date(year_in(a), pair_in(a, 5), pair_in(a, 8)),
    ensures
        follows(
            helpers::datetime_of(a)->Ok_0,
            helpers::datetime_of(b)->Ok_0,
            (year_in(a), pair_in(a, 5), pair_in(a, 8)),
            (year_in(b), pair_in(b, 5), pair_in(b, 8)),
            60 * pair_in(a, 11) + pair_in(a, 14),
            60 * pair_in(b, 11) + pair_in(b, 14),
        ),
{
    let x = lemma_days_in(a);
    let y = lemma_days_in(b);
    lemma_days_of_dates(a, b, x, y);
    lemma_follows(
        helpers::datetime_of(a)->Ok_0,
        helpers::datetime_of(b)->Ok_0,
        (year_in(a), pair_in(a, 5), pair_in(a, 8)),
        (year_in(b), pair_in(b, 5), pair_in(b, 8)),
        60 * pair_in(a, 11) + pair_in(a, 14),
        60 * pair_in(b, 11) + pair_in(b, 14),
        x,
        y,
    );
}

proof fn lemma_follows(
    x: ParsedDateTime,
    y: ParsedDateTime,
    date: (int, int, int),
    other: (int, int, int),
    minute: int,
    other_minute: int,
    day: int,
    other_day: int,
)
    requires
        x.epoch_minute == 1440 * day + minute,
        y.epoch_minute == 1440 * other_day + other_minute,
        x.day_of_week == (day + 3) % 7,
        y.day_of_week == (other_day + 3) % 7,
        date == other ==> other_day == day,
        next_date(date.0, date.1, date.2) == other ==> other_day == day + 1,
        date == (1970int, 1int, 1int) ==> day == 0,
    ensures
        follows(x, y, date, other, minute, other_minute),
{
}

/// The day of a text's date.
#[verifier::opaque]
spec fn days_in(iso: Seq<u8>) -> int {
    helpers::civil_days(year_in(iso), pair_in(iso, 5), pair_in(iso, 8))
}

proof fn lemma_days_in(iso: Seq<u8>) -> (days: int)
    requires
        has_time(iso),
    ensures
        days == days_in(iso),
        ({
            let time = helpers::datetime_of(iso)->Ok_0;
            &&& time.epoch_minute == 1440 * days + 60 * pair_in(iso, 11) + pair_in(iso, 14)
            &&& time.day_of_week == (days + 3) % 7
        }),
{
    reveal(days_in);
    law_times_are_read_where_they_stand(iso);
    lemma_year(iso);
    lemma_pair(iso, 5);
    lemma_pair(iso, 8);
    days_in(iso)
}

proof fn lemma_days_of_dates(a: Seq<u8>, b: Seq<u8>, x: int, y: int)
    requires
        is_date(year_in(a), pair_in(a, 5), pair_in(a, 8)),
        x == days_in(a),
        y == days_in(b),
    ensures
        ({
            let date = (year_in(a), pair_in(a, 5), pair_in(a, 8));
            let other = (year_in(b), pair_in(b, 5), pair_in(b, 8));
            &&& date == other ==> y == x
            &&& next_date(date.0, date.1, date.2) == other ==> y == x + 1
            &&& date == (1970int, 1int, 1int) ==> x == 0
        }),
{
    reveal(days_in);
    law_days_are_counted_one_by_one(year_in(a), pair_in(a, 5), pair_in(a, 8));
}

} // verus!
