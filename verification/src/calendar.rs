//! Dates of the Gregorian calendar, counted in days and seconds since the start of 1970.

use vstd::prelude::*;

use crate::text::{padded_decimal, push_padded_decimal};

use vstd::arithmetic::div_mod::{lemma_hoist_over_denominator, lemma_mod_multiples_vanish};

verus! {

pub open spec fn is_leap(y: nat) -> bool {
    y % 4 == 0 && (y % 100 != 0 || y % 400 == 0)
}

pub open spec fn year_len(y: nat) -> nat {
    if is_leap(y) {
        366
    } else {
        365
    }
}

pub open spec fn month_len(y: nat, m: nat) -> nat {
    if m == 2 {
        if is_leap(y) {
            29
        } else {
            28
        }
    } else if m == 4 || m == 6 || m == 9 || m == 11 {
        30
    } else {
        31
    }
}

/// The date of day `day` of the months from `m` on in year `y`, counted from zero.
pub open spec fn date_from_month(y: nat, m: nat, day: nat) -> (nat, nat, nat)
    decreases 12 - m,
{
    if m >= 12 || day < month_len(y, m) {
        (y, m, day + 1)
    } else {
        date_from_month(y, m + 1, (day - month_len(y, m)) as nat)
    }
}

/// The date of day `day` of the years from `y` on, counted from zero.
pub open spec fn date_from_year(y: nat, day: nat) -> (nat, nat, nat)
    decreases day,
{
    if day < year_len(y) {
        date_from_month(y, 1, day)
    } else {
        date_from_year(y + 1, (day - year_len(y)) as nat)
    }
}

/// The year, month and day that lie `days` days after the start of 1970.
pub open spec fn date_of(days: nat) -> (nat, nat, nat) {
    date_from_year(1970, days)
}

/// A date that the calendar has.
pub open spec fn is_date(date: (nat, nat, nat)) -> bool {
    &&& 1 <= date.1 <= 12
    &&& 1 <= date.2 <= month_len(date.0, date.1)
}

/// The days before the start of year `y`, from year 0 on.
#[verifier::opaque]
spec fn year_start(y: nat) -> int {
    365 * y + (y + 3) / 4 - (y + 99) / 100 + (y + 399) / 400
}

/// The days of year `y` before the start of month `m`.
spec fn month_start(y: nat, m: nat) -> int
    decreases m,
{
    if m <= 1 {
        0
    } else {
        month_start(y, (m - 1) as nat) + month_len(y, (m - 1) as nat)
    }
}

/// The number of days from the start of year 0 to a date.
spec fn day_number(date: (nat, nat, nat)) -> int {
    year_start(date.0) + month_start(date.0, date.1) + date.2 - 1
}

proof fn lemma_year_step(y: nat)
    ensures
        year_start(y + 1) == year_start(y) + year_len(y),
{
    reveal(year_start);
}

proof fn lemma_month_starts(y: nat)
    ensures
        month_start(y, 1) == 0,
        month_start(y, 2) == 31,
        month_start(y, 3) == 31 + month_len(y, 2),
        month_start(y, 4) == month_start(y, 3) + 31,
        month_start(y, 5) == month_start(y, 3) + 61,
        month_start(y, 6) == month_start(y, 3) + 92,
        month_start(y, 7) == month_start(y, 3) + 122,
        month_start(y, 8) == month_start(y, 3) + 153,
        month_start(y, 9) == month_start(y, 3) + 184,
        month_start(y, 10) == month_start(y, 3) + 214,
        month_start(y, 11) == month_start(y, 3) + 245,
        month_start(y, 12) == month_start(y, 3) + 275,
{
    reveal_with_fuel(month_start, 13);
}

proof fn lemma_date_from_month(y: nat, m: nat, day: nat)
    requires
        1 <= m <= 12,
        month_start(y, m) + day < year_len(y),
    ensures
        is_date(date_from_month(y, m, day)),
        date_from_month(y, m, day).0 == y,
        day_number(date_from_month(y, m, day)) == year_start(y) + month_start(y, m) + day,
    decreases 12 - m,
{
    lemma_month_starts(y);
    if m < 12 && day >= month_len(y, m) {
        lemma_date_from_month(y, m + 1, (day - month_len(y, m)) as nat);
    }
}

proof fn lemma_date_from_year(y: nat, day: nat)
    ensures
        is_date(date_from_year(y, day)),
        day_number(date_from_year(y, day)) == year_start(y) + day,
    decreases day,
{
    lemma_year_step(y);
    if day < year_len(y) {
        lemma_month_starts(y);
        lemma_date_from_month(y, 1, day);
    } else {
        lemma_date_from_year(y + 1, (day - year_len(y)) as nat);
    }
}

proof fn lemma_year_start_grows(y1: nat, y2: nat)
    requires
        y1 < y2,
    ensures
        year_start(y1) + year_len(y1) <= year_start(y2),
    decreases y2 - y1,
{
    lemma_year_step(y1);
    if y1 + 1 < y2 {
        lemma_year_start_grows(y1 + 1, y2);
    }
}

/// No two dates have the same number.
proof fn lemma_day_number_injective(a: (nat, nat, nat), b: (nat, nat, nat))
    requires
        is_date(a),
        is_date(b),
        day_number(a) == day_number(b),
    ensures
        a == b,
{
    lemma_month_starts(a.0);
    lemma_month_starts(b.0);
    if a.0 < b.0 {
        lemma_year_start_grows(a.0, b.0);
    } else if b.0 < a.0 {
        lemma_year_start_grows(b.0, a.0);
    }
}

/// The start of year `y` of a cycle of 400 years that begin in March.
#[verifier::opaque]
spec fn cycle_year_start(y: int) -> int {
    365 * y + y / 4 - y / 100
}

proof fn lemma_year_of_cycle(doe: int, yoe: int)
    requires
        0 <= doe < 146097,
        yoe == (doe - doe / 1460 + doe / 36524 - doe / 146096) / 365,
    ensures
        0 <= yoe < 400,
        cycle_year_start(yoe) <= doe,
        doe < cycle_year_start(yoe + 1) || (yoe == 399 && doe == 146096),
        cycle_year_start(yoe) == 365 * yoe + yoe / 4 - yoe / 100,
{
    reveal(cycle_year_start);
}

/// The calendar repeats every 400 years.
proof fn lemma_cycle(era: nat, k: nat)
    ensures
        year_start(era * 400 + k) == era * 146097 + year_start(k),
        is_leap(era * 400 + k) == is_leap(k),
{
    reveal(year_start);
    let (e, i) = (era as int, k as int);
    lemma_hoist_over_denominator(i + 3, e * 100, 4);
    lemma_hoist_over_denominator(i + 99, e * 4, 100);
    lemma_hoist_over_denominator(i + 399, e, 400);
    lemma_mod_multiples_vanish(e * 100, i, 4);
    lemma_mod_multiples_vanish(e * 4, i, 100);
    lemma_mod_multiples_vanish(e, i, 400);
}

/// The years of one cycle, from March on.
proof fn lemma_first_cycle(yoe: nat)
    requires
        yoe < 400,
    ensures
        year_start(yoe) + 31 + month_len(yoe, 2) == cycle_year_start(yoe as int) + 60,
        is_leap(yoe + 1) <==> (yoe == 399 || cycle_year_start(yoe + 1int) - cycle_year_start(
            yoe as int,
        ) == 366),
        cycle_year_start(yoe + 1int) - cycle_year_start(yoe as int) <= 366,
{
    reveal(year_start);
    reveal(cycle_year_start);
}

/// The start of March in the year that the cycle year `yoe` of cycle `era` begins in.
proof fn lemma_march(era: nat, yoe: nat)
    requires
        yoe < 400,
    ensures
        year_start(era * 400 + yoe) + month_start(era * 400 + yoe, 3) == era * 146097
            + cycle_year_start(yoe as int) + 60,
        month_len(era * 400 + yoe + 1, 2) == 29 <==> (yoe == 399 || cycle_year_start(yoe + 1int)
            - cycle_year_start(yoe as int) == 366),
        cycle_year_start(yoe + 1int) - cycle_year_start(yoe as int) <= 366,
        year_start(era * 400 + yoe + 1) == year_start(era * 400 + yoe) + year_len(era * 400 + yoe),
{
    lemma_month_starts(era * 400 + yoe);
    lemma_cycle(era, yoe);
    lemma_cycle(era, yoe + 1);
    lemma_first_cycle(yoe);
    lemma_year_step(era * 400 + yoe);
}

proof fn lemma_epoch()
    ensures
        year_start(1970) == 719528,
{
    reveal(year_start);
}

/// The year, month and day that lie `days` days after the start of 1970.
pub fn days_to_ymd(days: u32) -> (r: (u32, u32, u32))
    requires
        days <= u32::MAX - 719468,
    ensures
        (r.0 as nat, r.1 as nat, r.2 as nat) == date_of(days as nat),
{
    let shifted: u32 = days + 719468;
    let era: u32 = shifted / 146097;
    let doe: u32 = shifted - era * 146097;
    let yoe: u32 = (doe - doe / 1460 + doe / 36524 - doe / 146096) / 365;
    proof {
        lemma_year_of_cycle(doe as int, yoe as int);
    }
    let y: u32 = yoe + era * 400;
    let doy: u32 = doe - (365 * yoe + yoe / 4 - yoe / 100);
    let mp: u32 = (5 * doy + 2) / 153;
    let d: u32 = doy - (153 * mp + 2) / 5 + 1;
    let m: u32 = if mp < 10 {
        mp + 3
    } else {
        mp - 9
    };
    let year: u32 = if m <= 2 {
        y + 1
    } else {
        y
    };
    proof {
        lemma_epoch();
        lemma_march(era as nat, yoe as nat);
        lemma_month_starts(y as nat);
        lemma_month_starts((y + 1) as nat);
        let date = (year as nat, m as nat, d as nat);
        assert(is_date(date));
        assert(day_number(date) == days + 719528);
        lemma_date_from_year(1970, days as nat);
        lemma_day_number_injective(date, date_of(days as nat));
    }
    (year, m, d)
}

/// A date as text.
pub open spec fn date_text(date: (nat, nat, nat)) -> Seq<char> {
    padded_decimal(date.0, 4) + "-"@ + padded_decimal(date.1, 2) + "-"@ + padded_decimal(date.2, 2)
}

/// A time of day as text.
pub open spec fn clock_text(hour: nat, min: nat, sec: nat) -> Seq<char> {
    padded_decimal(hour, 2) + ":"@ + padded_decimal(min, 2) + ":"@ + padded_decimal(sec, 2)
}

/// The text of the second `secs` seconds after the start of 1970.
pub open spec fn datetime_text(secs: nat) -> Seq<char> {
    date_text(date_of(secs / 86400)) + " "@ + clock_text(
        secs / 3600 % 24,
        secs / 60 % 60,
        secs % 60,
    )
}

/// Appends a date.
fn push_date(out: &mut String, year: u32, month: u32, day: u32)
    ensures
        final(out)@ == old(out)@ + date_text((year as nat, month as nat, day as nat)),
{
    push_padded_decimal(out, year as u64, 4);
    out.append("-");
    push_padded_decimal(out, month as u64, 2);
    out.append("-");
    push_padded_decimal(out, day as u64, 2);
    assert(out@ =~= old(out)@ + date_text((year as nat, month as nat, day as nat)));
}

/// Appends a time of day.
fn push_clock(out: &mut String, hour: u64, min: u64, sec: u64)
    ensures
        final(out)@ == old(out)@ + clock_text(hour as nat, min as nat, sec as nat),
{
    push_padded_decimal(out, hour, 2);
    out.append(":");
    push_padded_decimal(out, min, 2);
    out.append(":");
    push_padded_decimal(out, sec, 2);
    assert(out@ =~= old(out)@ + clock_text(hour as nat, min as nat, sec as nat));
}

/// The days that a time in seconds counts, in 32 bits.
pub open spec fn counted_days(secs: nat) -> nat {
    secs / 86400 % 0x1_0000_0000
}

/// The second that is left of a time whose days are counted in 32 bits.
pub open spec fn counted_second(secs: nat) -> nat {
    counted_days(secs) * 86400 + secs % 86400
}

#[verifier::rlimit(40)]
proof fn lemma_time_parts(secs: u64)
    ensures
        ({
            let t = counted_second(secs as nat);
            &&& t / 86400 == secs / 60 / 60 / 24 % 0x1_0000_0000
            &&& t % 60 == secs % 60
            &&& t / 60 % 60 == secs / 60 % 60
            &&& t / 3600 % 24 == secs / 60 / 60 % 24
            &&& counted_days(secs as nat) == secs / 60 / 60 / 24 % 0x1_0000_0000
        }),
{
    let s = secs as nat;
    let t = counted_days(s) * 86400 + s % 86400;
    let u = s % 86400;
    assert(s / 60 / 60 / 24 == s / 86400);
    assert(t / 86400 == counted_days(s));
    assert(t % 60 == u % 60 && s % 60 == u % 60);
    assert(t / 60 == counted_days(s) * 1440 + u / 60);
    assert(s / 60 == s / 86400 * 1440 + u / 60);
    assert(t / 3600 == counted_days(s) * 24 + u / 3600);
    assert(s / 60 / 60 == s / 86400 * 24 + u / 3600);
}

/// The day, in 32 bits, and the hour, minute and second of the day.
fn time_parts(secs: u64) -> (r: (u32, u64, u64, u64))
    ensures
        ({
            let t = counted_second(secs as nat);
            &&& r.0 == t / 86400
            &&& r.0 == counted_days(secs as nat)
            &&& r.1 == t / 3600 % 24
            &&& r.2 == t / 60 % 60
            &&& r.3 == t % 60
        }),
{
    proof {
        lemma_time_parts(secs);
    }
    let minutes: u64 = secs / 60;
    let hours: u64 = minutes / 60;
    (crate::bytes::low_u32(hours / 24), hours % 24, minutes % 60, secs % 60)
}

/// The text of the second `secs` seconds after the start of 1970. The days are counted in
/// 32 bits.
pub fn unix_secs_to_datetime_string(secs: u64) -> (r: String)
    requires
        counted_days(secs as nat) <= u32::MAX - 719468,
    ensures
        r@ == datetime_text(counted_second(secs as nat)),
{
    let (days, hour, min, sec) = time_parts(secs);
    let (year, month, day) = days_to_ymd(days);
    let mut r: String = String::new();
    push_date(&mut r, year, month, day);
    r.append(" ");
    push_clock(&mut r, hour, min, sec);
    proof {
        assert(r@ =~= date_text(date_of(days as nat)) + " "@ + clock_text(
            hour as nat,
            min as nat,
            sec as nat,
        ));
    }
    r
}

/// `std::time::SystemTime`, opaque.
#[verifier::external_type_specification]
#[verifier::external_body]
pub struct ExSystemTime(std::time::SystemTime);

/// `std::time::SystemTimeError`, opaque: only that there was one counts.
#[verifier::external_type_specification]
#[verifier::external_body]
pub struct ExSystemTimeError(std::time::SystemTimeError);

/// Calls `std::time::SystemTime::now`. Nothing is known of what the clock shows.
#[verifier::external_body]
fn clock() -> (now: std::time::SystemTime) {
    std::time::SystemTime::now()
}

/// Calls `std::time::SystemTime::duration_since` with the start of 1970. Nothing is known
/// of what the clock showed, so nothing is said of the result.
#[verifier::external_body]
fn since_start(now: std::time::SystemTime) -> (r: Result<
    std::time::Duration,
    std::time::SystemTimeError,
>) {
    now.duration_since(std::time::UNIX_EPOCH)
}

/// Calls `std::time::Duration::as_secs`. Nothing is known of how long the clock has run,
/// so nothing is said of the result.
#[verifier::external_body]
fn whole_seconds(elapsed: std::time::Duration) -> (secs: u64) {
    elapsed.as_secs()
}

/// The last second whose days fit the count.
pub const LAST_SECOND: u64 = 371023012339199;

/// The second that a reading of the clock stands for: the start where the clock is set
/// before it, and the last second where the days cannot be counted.
pub open spec fn clock_second(elapsed: Option<u64>) -> nat {
    match elapsed {
        None => 0,
        Some(secs) => if counted_days(secs as nat) <= u32::MAX - 719468 {
            counted_second(secs as nat)
        } else {
            LAST_SECOND as nat
        },
    }
}

/// The text of a reading of the clock: the seconds since the start of 1970, or nothing
/// where the clock is set before it.
pub fn datetime_of_clock(elapsed: Option<u64>) -> (r: String)
    ensures
        r@ == datetime_text(clock_second(elapsed)),
        clock_second(elapsed) <= LAST_SECOND,
{
    let now: u64 = match elapsed {
        Some(secs) => secs,
        None => 0,
    };
    let (days, _, _, _) = time_parts(now);
    let secs: u64 = if days <= u32::MAX - 719468 {
        now
    } else {
        LAST_SECOND
    };
    assert(counted_second(LAST_SECOND as nat) == LAST_SECOND);
    assert(counted_second(0) == 0);
    unix_secs_to_datetime_string(secs)
}

/// The text of the present second, as the clock tells it.
pub fn now_datetime_string() -> (r: String)
    ensures
        exists|secs: u64| secs <= LAST_SECOND && r@ == #[trigger] datetime_text(secs as nat),
{
    let elapsed: Option<u64> = match since_start(clock()) {
        Ok(elapsed) => Some(whole_seconds(elapsed)),
        Err(_) => None,
    };
    let r: String = datetime_of_clock(elapsed);
    proof {
        let secs = clock_second(elapsed) as u64;
        assert(r@ == datetime_text(secs as nat));
    }
    r
}

/// The date that follows `date`: the next day of the month, or the first of the next month,
/// or of the next year.
pub open spec fn next_date(date: (nat, nat, nat)) -> (nat, nat, nat) {
    let (y, m, d) = date;
    if d < month_len(y, m) {
        (y, m, d + 1)
    } else if m < 12 {
        (y, m + 1, 1)
    } else {
        (y + 1, 1, 1)
    }
}

proof fn lemma_next_date(date: (nat, nat, nat))
    requires
        is_date(date),
    ensures
        is_date(next_date(date)),
        day_number(next_date(date)) == day_number(date) + 1,
{
    let (y, m, d) = date;
    lemma_month_starts(y);
    lemma_month_starts(y + 1);
    lemma_year_step(y);
}

/// The first day is the first of January 1970. Every day has a date of the calendar, and
/// the day after it has the date that follows.
pub proof fn law_dates_are_consecutive(days: nat)
    ensures
        date_of(0) == (1970nat, 1nat, 1nat),
        is_date(date_of(days)),
        date_of(days + 1) == next_date(date_of(days)),
{
    lemma_date_from_year(1970, days);
    lemma_date_from_year(1970, days + 1);
    lemma_next_date(date_of(days));
    lemma_day_number_injective(next_date(date_of(days)), date_of(days + 1));
}

/// A date lies before another.
pub open spec fn date_before(a: (nat, nat, nat), b: (nat, nat, nat)) -> bool {
    a.0 < b.0 || (a.0 == b.0 && (a.1 < b.1 || (a.1 == b.1 && a.2 < b.2)))
}

/// A later date has a greater number.
proof fn lemma_day_number_grows(a: (nat, nat, nat), b: (nat, nat, nat))
    requires
        is_date(a),
        is_date(b),
        date_before(a, b),
    ensures
        day_number(a) < day_number(b),
{
    lemma_month_starts(a.0);
    lemma_month_starts(b.0);
    if a.0 < b.0 {
        lemma_year_start_grows(a.0, b.0);
    }
}

/// A later day has a later date.
pub proof fn law_later_days_have_later_dates(a: nat, b: nat)
    requires
        a < b,
    ensures
        date_before(date_of(a), date_of(b)),
{
    lemma_date_from_year(1970, a);
    lemma_date_from_year(1970, b);
    if !date_before(date_of(a), date_of(b)) && date_of(a) != date_of(b) {
        lemma_day_number_grows(date_of(b), date_of(a));
    }
}

/// The year 9999 ends after 2932897 days.
pub proof fn law_years_with_four_digits(days: nat)
    requires
        days < 2932897,
    ensures
        date_of(days).0 < 10000,
{
    reveal(year_start);
    let date = date_of(days);
    lemma_date_from_year(1970, days);
    lemma_month_starts(date.0);
    if date.0 >= 10000 {
        assert(year_start(10000) == 3652425 && year_start(1970) == 719528);
        if date.0 > 10000 {
            lemma_year_start_grows(10000, date.0);
        }
    }
}

/// The months have their days: 31 or 30, and February 28, or 29 in every fourth year, but not in
/// three out of four years that end a century.
pub proof fn law_months_have_their_days(y: nat)
    ensures
        forall|m: nat|
            #[trigger] month_len(y, m) == if m == 2 {
                if y % 400 == 0 || (y % 4 == 0 && y % 100 != 0) {
                    29nat
                } else {
                    28nat
                }
            } else if seq![4nat, 6, 9, 11].contains(m) {
                30nat
            } else {
                31nat
            },
{
    let short = seq![4nat, 6, 9, 11];
    assert(short[0] == 4 && short[1] == 6 && short[2] == 9 && short[3] == 11);
    assert forall|m: nat| short.contains(m) implies m == 4 || m == 6 || m == 9 || m == 11 by {
        let i = choose|i: int| 0 <= i < short.len() && short[i] == m;
    }
}

/// 400 years later a year has the same months, and starts 146097 days later.
#[verifier::rlimit(40)]
proof fn lemma_later_cycle(y: nat, m: nat)
    ensures
        year_start(y + 400) == year_start(y) + 146097,
        month_len(y + 400, m) == month_len(y, m),
        month_start(y + 400, m) == month_start(y, m),
    decreases m,
{
    reveal(year_start);
    assert(is_leap(y + 400) == is_leap(y));
    if m > 1 {
        lemma_later_cycle(y, (m - 1) as nat);
    }
}

/// After 146097 days the dates come again, 400 years later.
pub proof fn law_dates_come_again_after_400_years(days: nat)
    ensures
        ({
            let (y, m, d) = date_of(days);
            date_of(days + 146097) == (y + 400, m, d)
        }),
{
    let (y, m, d) = date_of(days);
    let later = (y + 400, m, d);
    lemma_date_from_year(1970, days);
    lemma_date_from_year(1970, days + 146097);
    lemma_later_cycle(y, m);
    assert(day_number(later) == day_number((y, m, d)) + 146097);
    lemma_day_number_injective(later, date_of(days + 146097));
}

} // verus!
