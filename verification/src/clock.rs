//! The wall clock and the local calendar.

use chrono::{Datelike, TimeZone};
use vstd::prelude::*;

use crate::rate;
use crate::stream;
use crate::text;

verus! {

/// Milliseconds of a day.
pub const DAY_MS: i64 = 86_400_000;

/// The calendar is asked about times between minus this and this. The dates of `chrono`
/// reach some two centuries further, so that a local offset never leads out of them.
pub const CALENDAR_LIMIT: i64 = 8_000_000_000_000_000;

/// The calendar is asked about days between minus this and this, counted from the first of
/// January 1970. The dates of `chrono` reach at least two million days further.
pub const DAY_LIMIT: i32 = 93_000_000;

/// At most so many days are taken off a day at once.
pub const STEP_LIMIT: u64 = 1_000_000;

/// How many days the history spans, with today.
pub const HIST_WINDOW_DAYS: i64 = 7;

/// The calendar is asked about the time.
pub open spec fn in_calendar(ts: int) -> bool {
    -CALENDAR_LIMIT <= ts <= CALENDAR_LIMIT
}

/// The calendar is asked about the day.
pub open spec fn in_days(day: int) -> bool {
    -DAY_LIMIT <= day <= DAY_LIMIT
}

/// The day that a time has in universal time, counted from the first of January 1970.
pub open spec fn utc_day(ts: int) -> int {
    ts / (DAY_MS as int)
}

/// A difference between local time and universal time, in seconds. It is less than a day.
pub open spec fn is_offset(seconds: int) -> bool {
    -86_400 < seconds < 86_400
}

/// The day is the date that a time has at some offset, counted from the first of January 1970.
pub open spec fn is_local_day(day: int, ts: int) -> bool {
    exists|o: int| #[trigger] is_offset(o) && day == utc_day(ts + 1000 * o)
}

/// The time is midnight of the day at some offset.
pub open spec fn is_midnight_of(t: int, day: int) -> bool {
    exists|p: int| #[trigger] is_offset(p) && t == day * DAY_MS - 1000 * p
}

/// The time is local midnight of the date so many days before the local date of another time.
/// The offset then and the offset now are both those of the place, and may differ.
pub open spec fn is_local_midnight(t: int, ts: int, days: int) -> bool {
    exists|o: int, p: int|
        #![trigger is_offset(o), is_offset(p)]
        is_offset(o) && is_offset(p) && t == (utc_day(ts + 1000 * o) - days) * DAY_MS - 1000 * p
}

/// How many days a month has in the Gregorian calendar, which is taken to hold at all times.
pub open spec fn month_days(year: int, month: int) -> int {
    if month == 2 {
        if year % 4 == 0 && (year % 100 != 0 || year % 400 == 0) {
            29
        } else {
            28
        }
    } else if month == 4 || month == 6 || month == 9 || month == 11 {
        30
    } else {
        31
    }
}

/// Year, month and day are a date of the calendar.
pub open spec fn is_date(ymd: (i32, u32, u32)) -> bool {
    &&& 1 <= ymd.1 <= 12
    &&& 1 <= ymd.2 <= month_days(ymd.0 as int, ymd.1 as int)
}

/// How many days of a year lie before a month.
pub open spec fn days_before_month(year: int, month: int) -> int
    decreases month,
{
    if month <= 1 {
        0
    } else {
        days_before_month(year, month - 1) + month_days(year, month - 1)
    }
}

/// The day on which a year begins, counted from the first of January 1970. Every fourth year
/// has a day more, but for whole centuries that are no multiple of four.
pub open spec fn year_start(year: int) -> int {
    365 * (year - 1970) + (year - 1) / 4 - (year - 1) / 100 + (year - 1) / 400 - 477
}

/// The day of a date, counted from the first of January 1970.
pub open spec fn day_number(ymd: (i32, u32, u32)) -> int {
    year_start(ymd.0 as int) + days_before_month(ymd.0 as int, ymd.1 as int) + ymd.2 - 1
}

proof fn lemma_multiples(x: int, k: int)
    requires
        k > 1,
    ensures
        x / k - (x - 1) / k == (if x % k == 0 {
            1int
        } else {
            0
        }),
{
    let a = (x - 1) / k;
    let b = (x - 1) % k;
    vstd::arithmetic::div_mod::lemma_fundamental_div_mod(x - 1, k);
    vstd::arithmetic::div_mod::lemma_mod_bound(x - 1, k);
    if b == k - 1 {
        assert(x == (a + 1) * k + 0) by (nonlinear_arith)
            requires
                x - 1 == k * a + b,
                b == k - 1,
        ;
        vstd::arithmetic::div_mod::lemma_fundamental_div_mod_converse(x, k, a + 1, 0);
    } else {
        assert(x == a * k + (b + 1)) by (nonlinear_arith)
            requires
                x - 1 == k * a + b,
        ;
        vstd::arithmetic::div_mod::lemma_fundamental_div_mod_converse(x, k, a, b + 1);
    }
}

proof fn lemma_year(year: int)
    ensures
        year_start(year + 1) == year_start(year) + days_before_month(year, 12) + month_days(year, 12),
        forall|m: int|
            1 <= m <= 12 ==> 0 <= #[trigger] days_before_month(year, m) <= 366 - month_days(year, m),
{
    let l = month_days(year, 2);
    assert(days_before_month(year, 1) == 0);
    assert(days_before_month(year, 2) == 31);
    assert(days_before_month(year, 3) == 31 + l);
    assert(days_before_month(year, 4) == 62 + l);
    assert(days_before_month(year, 5) == 92 + l);
    assert(days_before_month(year, 6) == 123 + l);
    assert(days_before_month(year, 7) == 153 + l);
    assert(days_before_month(year, 8) == 184 + l);
    assert(days_before_month(year, 9) == 215 + l);
    assert(days_before_month(year, 10) == 245 + l);
    assert(days_before_month(year, 11) == 276 + l);
    assert(days_before_month(year, 12) == 306 + l);
    assert forall|m: int| 1 <= m <= 12 implies 0 <= #[trigger] days_before_month(year, m) <= 366
        - month_days(year, m) by {
        assert(m == 1 || m == 2 || m == 3 || m == 4 || m == 5 || m == 6 || m == 7 || m == 8 || m == 9
            || m == 10 || m == 11 || m == 12);
    }
    lemma_multiples(year, 4);
    lemma_multiples(year, 100);
    lemma_multiples(year, 400);
    assert(year % 400 == 0 ==> year % 100 == 0);
    assert(year % 100 == 0 ==> year % 4 == 0);
}

fn month_length(year: i32, month: u32) -> (r: u32)
    ensures
        r == month_days(year as int, month as int),
{
    if month == 2 {
        let y: i64 = year as i64;
        let leap = floor_mod(y, 4) == 0 && (floor_mod(y, 100) != 0 || floor_mod(y, 400) == 0);
        if leap {
            29
        } else {
            28
        }
    } else if month == 4 || month == 6 || month == 9 || month == 11 {
        30
    } else {
        31
    }
}

/// The day of a date, counted from the first of January 1970.
pub fn day_of(ymd: (i32, u32, u32)) -> (r: i64)
    requires
        is_date(ymd),
    ensures
        r == day_number(ymd),
{
    let before: i64 = ymd.0 as i64 - 1;
    let mut day: i64 = 365 * (ymd.0 as i64 - 1970) + floor_div(before, 4) - floor_div(before, 100)
        + floor_div(before, 400) - 477;
    let mut month: u32 = 1;
    while month < ymd.1
        invariant
            1 <= month <= ymd.1 <= 12,
            day == year_start(ymd.0 as int) + days_before_month(ymd.0 as int, month as int),
            -0x100_0000_0000 <= day <= 0x100_0000_0000 + 31 * month,
        decreases ymd.1 - month,
    {
        day = day + month_length(ymd.0, month) as i64;
        month = month + 1;
    }
    day + ymd.2 as i64 - 1
}

/// The next date.
fn date_after(ymd: (i32, u32, u32)) -> (r: (i32, u32, u32))
    requires
        is_date(ymd),
        ymd.0 < i32::MAX,
    ensures
        is_date(r),
        day_number(r) == day_number(ymd) + 1,
{
    proof {
        lemma_year(ymd.0 as int);
        reveal_with_fuel(days_before_month, 2);
    }
    if ymd.2 < month_length(ymd.0, ymd.1) {
        (ymd.0, ymd.1, ymd.2 + 1)
    } else if ymd.1 < 12 {
        (ymd.0, ymd.1 + 1, 1)
    } else {
        (ymd.0 + 1, 1, 1)
    }
}

/// The date before.
fn date_before(ymd: (i32, u32, u32)) -> (r: (i32, u32, u32))
    requires
        is_date(ymd),
        ymd.0 > i32::MIN,
    ensures
        is_date(r),
        day_number(r) == day_number(ymd) - 1,
{
    proof {
        lemma_year(ymd.0 - 1);
        reveal_with_fuel(days_before_month, 2);
    }
    if ymd.2 > 1 {
        (ymd.0, ymd.1, ymd.2 - 1)
    } else if ymd.1 > 1 {
        (ymd.0, ymd.1 - 1, month_length(ymd.0, ymd.1 - 1))
    } else {
        (ymd.0 - 1, 12, 31)
    }
}

/// The date of a day, found from a date that is near it.
fn date_on(near: (i32, u32, u32), day: i32) -> (r: (i32, u32, u32))
    requires
        is_date(near),
    ensures
        is_date(r),
        day_number(r) == day,
{
    let mut ymd = near;
    let mut n: i64 = day_of(near);
    while n < day as i64
        invariant
            is_date(ymd),
            n == day_number(ymd),
        decreases day - n,
    {
        proof {
            lemma_year(ymd.0 as int);
        }
        ymd = date_after(ymd);
        n = n + 1;
    }
    while n > day as i64
        invariant
            is_date(ymd),
            n == day_number(ymd),
            n >= day,
        decreases n - day,
    {
        proof {
            lemma_year(ymd.0 as int);
        }
        ymd = date_before(ymd);
        n = n - 1;
    }
    ymd
}

/// The time now, in milliseconds: `chrono::Utc::now` and `timestamp_millis`. The clock is
/// not before 1970, and what `chrono` can show stays well within the bounds of times here.
#[verifier::external_body]
pub(crate) fn utc_now() -> (r: i64)
    ensures
        0 <= r <= stream::CLOCK_LIMIT,
{
    chrono::Utc::now().timestamp_millis()
}

/// Year, month and day of today at this place: `chrono::Local::now`. They are a date of the
/// calendar, with months and days counted from one. Which date it is depends on the clock and
/// the time zone of the machine.
#[verifier::external_body]
pub(crate) fn local_today() -> (r: (i32, u32, u32))
    ensures
        is_date(r),
{
    let n = chrono::Local::now();
    (n.year(), n.month(), n.day())
}

/// The date that a time has at this place, as a day counted from the first of January 1970:
/// `timestamp_millis_opt` of `chrono::Local` and `date_naive`. Within the limit every time has
/// one: the date in universal time of the time moved by the offset of the place. Which offset
/// that is depends on the time zone of the machine; `chrono::FixedOffset` holds whole seconds,
/// less than a day.
#[verifier::external_body]
pub(crate) fn local_date(ts_ms: i64) -> (r: Option<i32>)
    requires
        in_calendar(ts_ms as int),
    ensures
        r is Some,
        is_local_day(r->0 as int, ts_ms as int),
{
    chrono::Local.timestamp_millis_opt(ts_ms).single().map(|dt| dt.date_naive().to_epoch_days())
}

/// The date so many days before: `chrono::NaiveDate::checked_sub_days`, with dates as days
/// counted from the first of January 1970. Within the limits there is one.
#[verifier::external_body]
pub(crate) fn days_before(day: i32, days: u64) -> (r: Option<i32>)
    requires
        in_days(day as int),
        days <= STEP_LIMIT,
    ensures
        r == Some((day - days) as i32),
{
    chrono::NaiveDate::from_epoch_days(day).and_then(
        |d| d.checked_sub_days(chrono::Days::new(days)),
    ).map(|d| d.to_epoch_days())
}

/// When a date, given as a day counted from the first of January 1970, begins at this place:
/// `and_local_timezone` of `chrono` at midnight. There is no such time, or no single one, where
/// the clocks are changed then. The time is midnight in universal time, moved back by the offset
/// of the place. Which offset that is depends on the time zone of the machine;
/// `chrono::FixedOffset` holds whole seconds, less than a day.
#[verifier::external_body]
pub(crate) fn midnight_of(day: i32) -> (r: Option<i64>)
    requires
        in_days(day as int),
    ensures
        r matches Some(t) ==> is_midnight_of(t as int, day as int),
{
    chrono::NaiveDate::from_epoch_days(day).and_then(
        |d| d.and_time(chrono::NaiveTime::MIN).and_local_timezone(chrono::Local).single(),
    ).map(|d| d.timestamp_millis())
}

/// The start of the day in universal time.
pub open spec fn utc_day_start(ts: int) -> i64 {
    rate::clip_signed(ts - ts % (DAY_MS as int))
}

/// When the day of a time begins: at local midnight, if that is known, else with the day in
/// universal time.
pub fn day_start_from(ts_ms: i64, midnight: Option<i64>) -> (r: i64)
    ensures
        r == (match midnight {
            Some(t) => t,
            None => utc_day_start(ts_ms as int),
        }),
{
    match midnight {
        Some(t) => t,
        None => {
            let m: i64 = floor_mod(ts_ms, DAY_MS);
            rate::clipped_signed(ts_ms as i128 - m as i128)
        },
    }
}

/// When the history begins: at local midnight of its first day, if that is known, else as
/// many days before today as it spans.
pub fn window_start_from(today_start_ms: i64, midnight: Option<i64>) -> (r: i64)
    ensures
        r == (match midnight {
            Some(t) => t,
            None => rate::clip_signed(today_start_ms - (HIST_WINDOW_DAYS - 1) * DAY_MS),
        }),
{
    match midnight {
        Some(t) => t,
        None => rate::clipped_signed(today_start_ms as i128 - 6 * DAY_MS as i128),
    }
}

/// When today began: at local midnight, if that is known, else a day ago.
pub fn today_start_from(now_ms: i64, midnight: Option<i64>) -> (r: i64)
    ensures
        r == (match midnight {
            Some(t) => t,
            None => rate::clip_signed(now_ms - DAY_MS),
        }),
{
    match midnight {
        Some(t) => t,
        None => rate::clipped_signed(now_ms as i128 - DAY_MS as i128),
    }
}

/// Midnight of the local date of a time, if it is known.
fn local_midnight(ts_ms: i64) -> (r: Option<i64>)
    ensures
        r matches Some(t) ==> in_calendar(ts_ms as int) && is_local_midnight(
            t as int,
            ts_ms as int,
            0,
        ),
{
    if -CALENDAR_LIMIT <= ts_ms && ts_ms <= CALENDAR_LIMIT {
        match local_date(ts_ms) {
            Some(day) => {
                let midnight = midnight_of(day);
                proof {
                    if midnight is Some {
                        lemma_local_midnight(midnight->0 as int, day as int, ts_ms as int, 0);
                    }
                }
                midnight
            },
            None => None,
        }
    } else {
        None
    }
}

proof fn lemma_local_midnight(t: int, day: int, ts: int, days: int)
    requires
        is_local_day(day, ts),
        is_midnight_of(t, day - days),
    ensures
        is_local_midnight(t, ts, days),
{
    let o = choose|o: int| #[trigger] is_offset(o) && day == utc_day(ts + 1000 * o);
    let p = choose|p: int| #[trigger] is_offset(p) && t == (day - days) * DAY_MS - 1000 * p;
    assert(is_offset(o) && is_offset(p));
}

/// A time that the clock of the machine can show.
pub open spec fn clock_shows(now: int) -> bool {
    0 <= now <= stream::CLOCK_LIMIT
}

/// The start of today at a time, whatever the time zone: local midnight of its local date, or a
/// day ago, where there is no single such midnight and beyond the calendar.
pub open spec fn starts_today(start: int, now: int) -> bool {
    ||| in_calendar(now) && is_local_midnight(start, now, 0)
    ||| start == rate::clip_signed(now - DAY_MS)
}

/// When today began at this place. Which time it is now, the clock of the machine tells; of
/// that time it is the start of the day.
pub fn today_start_ms() -> (r: i64)
    ensures
        stream::on_clock(r as int),
        exists|now: int| clock_shows(now) && #[trigger] starts_today(r as int, now),
{
    let now: i64 = utc_now();
    let start: i64 = today_start_from(now, local_midnight(now));
    assert(starts_today(start as int, now as int));
    start
}

/// Year, month and day of today at this place.
pub fn today() -> (r: (i32, u32, u32))
    ensures
        is_date(r),
{
    local_today()
}

/// A date as text: year, month and day, with dashes between.
pub open spec fn date_text(ymd: (i32, u32, u32)) -> Seq<char> {
    text::padded_signed(ymd.0 as int, 4) + seq!['-'] + text::zero_padded(
        text::decimal(ymd.1 as nat),
        2,
    ) + seq!['-'] + text::zero_padded(text::decimal(ymd.2 as nat), 2)
}

/// A date as text: year, month and day, with dashes between.
pub fn ymd_str(ymd: (i32, u32, u32)) -> (r: String)
    ensures
        r@ == date_text(ymd),
{
    let mut s = String::new();
    text::push_padded_signed(&mut s, ymd.0, 4);
    s.push('-');
    text::push_padded(&mut s, ymd.1 as u64, 2);
    s.push('-');
    text::push_padded(&mut s, ymd.2 as u64, 2);
    assert(s@ =~= date_text(ymd));
    s
}

/// A quotient rounded down.
pub fn floor_div(x: i64, d: i64) -> (r: i64)
    requires
        d > 1,
    ensures
        r == x / d,
{
    proof {
        let a = x as int;
        let b = d as int;
        assert(-0x8000_0000_0000_0000 <= a / b <= 0x7fff_ffff_ffff_ffff) by (nonlinear_arith)
            requires
                b > 1,
                -0x8000_0000_0000_0000 <= a <= 0x7fff_ffff_ffff_ffff,
        ;
    }
    match x.checked_div_euclid(d) {
        Some(q) => q,
        None => 0,
    }
}

/// What a quotient rounded down leaves.
pub fn floor_mod(x: i64, d: i64) -> (r: i64)
    requires
        d > 1,
    ensures
        r == x % d,
        0 <= r < d,
{
    match x.checked_rem_euclid(d) {
        Some(m) => m,
        None => 0,
    }
}

/// The time now.
pub fn now_ms() -> (r: i64)
    ensures
        0 <= r <= stream::CLOCK_LIMIT,
{
    utc_now()
}

/// The start of the local day of a time, whatever the time zone: local midnight of its local
/// date, or the start of the day in universal time, where there is no single such midnight and
/// beyond the calendar.
pub open spec fn starts_day(start: int, ts: int) -> bool {
    ||| in_calendar(ts) && is_local_midnight(start, ts, 0)
    ||| start == utc_day_start(ts)
}

/// The start of the history on a day, whatever the time zone: local midnight of the date so many
/// days before, or as many days before as the history spans, where there is no single such
/// midnight and beyond the calendar.
pub open spec fn starts_window(start: int, today_start: int) -> bool {
    let back = HIST_WINDOW_DAYS - 1;
    ||| in_calendar(today_start) && is_local_midnight(start, today_start, back)
    ||| start == rate::clip_signed(today_start - back * DAY_MS)
}

/// When the local day of a time begins.
pub fn local_day_start_ms(ts_ms: i64) -> (r: i64)
    ensures
        starts_day(r as int, ts_ms as int),
        in_calendar(ts_ms as int) ==> stream::on_clock(r as int),
{
    day_start_from(ts_ms, local_midnight(ts_ms))
}

/// When the local day of now begins. Which time it is now, the clock of the machine tells; of
/// that time it is the start of the local day.
pub fn local_midnight_utc_ms() -> (r: i64)
    ensures
        stream::on_clock(r as int),
        exists|now: int| clock_shows(now) && #[trigger] starts_day(r as int, now),
{
    let now: i64 = utc_now();
    let start: i64 = local_day_start_ms(now);
    assert(starts_day(start as int, now as int));
    start
}

/// The date is the local date of a time, and the start is that of the same day: its midnight at
/// some offset, or the start of the day in universal time.
pub open spec fn dated(ymd: (i32, u32, u32), start: int, ts: int) -> bool {
    &&& is_local_day(day_number(ymd), ts)
    &&& is_midnight_of(start, day_number(ymd)) || start == utc_day_start(ts)
}

/// The local date of now, and when that day began. Both are of one reading of the clock.
pub fn date_and_start() -> (r: ((i32, u32, u32), i64))
    ensures
        is_date(r.0),
        stream::on_clock(r.1 as int),
        exists|now: int|
            clock_shows(now) && #[trigger] starts_day(r.1 as int, now) && (in_calendar(now)
                ==> dated(r.0, r.1 as int, now)),
{
    let now: i64 = utc_now();
    let today = local_today();
    if now <= CALENDAR_LIMIT {
        match local_date(now) {
            Some(day) => {
                let ymd = date_on(today, day);
                let midnight = midnight_of(day);
                let start: i64 = day_start_from(now, midnight);
                proof {
                    if midnight is Some {
                        lemma_local_midnight(start as int, day as int, now as int, 0);
                    }
                    let r = (ymd, start);
                    assert(dated(r.0, r.1 as int, now as int));
                    assert(clock_shows(now as int) && starts_day(r.1 as int, now as int));
                }
                return (ymd, start);
            },
            None => {},
        }
    }
    let start: i64 = day_start_from(now, None);
    let r = (today, start);
    assert(clock_shows(now as int) && starts_day(r.1 as int, now as int));
    r
}

/// Where a start belongs to a date, they are at most two days apart.
pub proof fn law_date_goes_with_its_start(ymd: (i32, u32, u32), start: int, ts: int)
    requires
        dated(ymd, start, ts),
        in_calendar(ts),
    ensures
        -172_800_000 <= day_number(ymd) * 86_400_000 - start <= 172_800_000,
{
}

/// Days follow each other without a gap: every date has its own day, the next day is that of the
/// next date, and the first of January 1970 is day zero.
pub proof fn law_days_are_counted(ymd: (i32, u32, u32))
    requires
        is_date(ymd),
    ensures
        day_number((1970, 1, 1)) == 0,
        ymd.2 < month_days(ymd.0 as int, ymd.1 as int) ==> day_number(
            (ymd.0, ymd.1, (ymd.2 + 1) as u32),
        ) == day_number(ymd) + 1,
        ymd.2 == month_days(ymd.0 as int, ymd.1 as int) && ymd.1 < 12 ==> day_number(
            (ymd.0, (ymd.1 + 1) as u32, 1),
        ) == day_number(ymd) + 1,
        ymd.2 == 31 && ymd.1 == 12 && ymd.0 < i32::MAX ==> day_number(((ymd.0 + 1) as i32, 1, 1))
            == day_number(ymd) + 1,
{
    lemma_year(ymd.0 as int);
    reveal_with_fuel(days_before_month, 2);
}

/// When the history begins: at the start of the local day so many calendar days before
/// today, not so many milliseconds before, for days differ in length.
pub fn hist_window_cutoff(today_start_ms: i64) -> (r: i64)
    ensures
        starts_window(r as int, today_start_ms as int),
        in_calendar(today_start_ms as int) ==> stream::on_clock(r as int),
{
    let midnight = if -CALENDAR_LIMIT <= today_start_ms && today_start_ms <= CALENDAR_LIMIT {
        match local_date(today_start_ms) {
            Some(today) => match days_before(today, 6) {
                Some(day) => {
                    let midnight = midnight_of(day);
                    proof {
                        if midnight is Some {
                            lemma_local_midnight(
                                midnight->0 as int,
                                today as int,
                                today_start_ms as int,
                                6,
                            );
                        }
                    }
                    midnight
                },
                None => None,
            },
            None => None,
        }
    } else {
        None
    };
    window_start_from(today_start_ms, midnight)
}

/// A day begins before what happens in it, and the day after begins later, but for what the clocks
/// of two places differ by.
pub proof fn law_day_begins_near(start: int, ts: int)
    requires
        in_calendar(ts),
        starts_day(start, ts),
    ensures
        start - 172_800_000 < ts < start + 259_200_000,
{
    if is_local_midnight(start, ts, 0) {
        let (o, p) = choose|o: int, p: int|
            #![trigger is_offset(o), is_offset(p)]
            is_offset(o) && is_offset(p) && start == (utc_day(ts + 1000 * o) - 0) * DAY_MS - 1000 * p;
        assert(utc_day(ts + 1000 * o) == (ts + 1000 * o) / 86_400_000);
    }
}

/// The window of the history begins six days before today, but for what the clocks of two places
/// differ by.
pub proof fn law_window_is_a_week(start: int, today_start: int)
    requires
        in_calendar(today_start),
        starts_window(start, today_start),
    ensures
        today_start - 9 * 86_400_000 < start < today_start - 4 * 86_400_000,
{
    if is_local_midnight(start, today_start, 6) {
        let (o, p) = choose|o: int, p: int|
            #![trigger is_offset(o), is_offset(p)]
            is_offset(o) && is_offset(p) && start == (utc_day(today_start + 1000 * o) - 6) * DAY_MS
                - 1000 * p;
        assert(utc_day(today_start + 1000 * o) == (today_start + 1000 * o) / 86_400_000);
    }
}

/// A date is written as four digits of the year, two of the month and two of the day.
pub proof fn law_date_reads_as_written(ymd: (i32, u32, u32))
    requires
        is_date(ymd),
        0 <= ymd.0 <= 9_999,
    ensures
        date_text(ymd).len() == 10,
        text::u64_read(date_text(ymd).subrange(0, 4)) == Some(ymd.0 as u64),
        date_text(ymd)[4] == '-',
        text::u64_read(date_text(ymd).subrange(5, 7)) == Some(ymd.1 as u64),
        date_text(ymd)[7] == '-',
        text::u64_read(date_text(ymd).subrange(8, 10)) == Some(ymd.2 as u64),
{
    let y = text::zero_padded(text::decimal(ymd.0 as nat), 4);
    let m = text::zero_padded(text::decimal(ymd.1 as nat), 2);
    let d = text::zero_padded(text::decimal(ymd.2 as nat), 2);
    text::law_numbers_are_read_back(ymd.0 as u64, 4);
    text::law_numbers_are_read_back(ymd.1 as u64, 2);
    text::law_numbers_are_read_back(ymd.2 as u64, 2);
    text::lemma_decimal_is_short(ymd.0 as nat);
    text::lemma_decimal_is_short(ymd.1 as nat);
    text::lemma_decimal_is_short(ymd.2 as nat);
    let t = date_text(ymd);
    assert(t.subrange(0, 4) =~= y);
    assert(t.subrange(5, 7) =~= m);
    assert(t.subrange(8, 10) =~= d);
}

} // verus!
