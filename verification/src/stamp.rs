//! The texts of seconds, up to the end of the year 9999: their form and their order.

use vstd::prelude::*;

use crate::calendar::{
    clock_second, clock_text, counted_second, date_before, date_of, date_text, datetime_text,
    law_dates_are_consecutive, law_later_days_have_later_dates, law_years_with_four_digits,
};
use crate::text::{decimal, digit, padded_decimal};

verus! {

/// The first second after the year 9999.
pub const END_OF_FOUR_DIGITS: u64 = 253402300800;

/// A digit.
pub open spec fn is_digit(c: char) -> bool {
    '0' <= c <= '9'
}

/// The number that the digits at `i` and `i + 1` give.
pub open spec fn two_digits(text: Seq<char>, i: int) -> int {
    10 * (text[i] as int - '0' as int) + (text[i + 1] as int - '0' as int)
}

/// A text of the form `YYYY-MM-DD HH:MM:SS` with a month, a day, an hour, a minute and a
/// second in their ranges.
pub open spec fn is_stamp(text: Seq<char>) -> bool {
    &&& text.len() == 19
    &&& text[4] == '-' && text[7] == '-' && text[10] == ' ' && text[13] == ':' && text[16] == ':'
    &&& forall|i: int|
        0 <= i < 19 && i != 4 && i != 7 && i != 10 && i != 13 && i != 16 ==> is_digit(
            #[trigger] text[i],
        )
    &&& 1 <= two_digits(text, 5) <= 12
    &&& 1 <= two_digits(text, 8) <= 31
    &&& two_digits(text, 11) < 24
    &&& two_digits(text, 14) < 60
    &&& two_digits(text, 17) < 60
}

/// Bytes come before others in the order of the first byte in which they differ.
pub open spec fn bytes_before(a: Seq<u8>, b: Seq<u8>) -> bool {
    exists|k: int|
        #![trigger a[k], b[k]]
        0 <= k < a.len() && k < b.len() && a[k] < b[k] && a.take(k) == b.take(k)
}

/// A number below 100 as two digits.
proof fn lemma_two(n: nat)
    requires
        n < 100,
    ensures
        padded_decimal(n, 2) == seq![digit(n / 10), digit(n % 10)],
{
    reveal_with_fuel(decimal, 3);
    assert(padded_decimal(n, 2) =~= seq![digit(n / 10), digit(n % 10)]);
}

/// A number below 10000 as four digits.
proof fn lemma_four(n: nat)
    requires
        n < 10000,
    ensures
        padded_decimal(n, 4) == seq![
            digit(n / 1000),
            digit(n / 100 % 10),
            digit(n / 10 % 10),
            digit(n % 10),
        ],
{
    reveal_with_fuel(decimal, 5);
    assert(n / 10 / 10 == n / 100 && n / 10 / 10 / 10 == n / 1000);
    assert(padded_decimal(n, 4) =~= seq![
        digit(n / 1000),
        digit(n / 100 % 10),
        digit(n / 10 % 10),
        digit(n % 10),
    ]);
}

/// The characters of a date and a time of day.
#[verifier::opaque]
spec fn stamp(date: (nat, nat, nat), h: nat, m: nat, s: nat) -> Seq<char> {
    seq![
        digit(date.0 / 1000),
        digit(date.0 / 100 % 10),
        digit(date.0 / 10 % 10),
        digit(date.0 % 10),
        '-',
        digit(date.1 / 10),
        digit(date.1 % 10),
        '-',
        digit(date.2 / 10),
        digit(date.2 % 10),
        ' ',
        digit(h / 10),
        digit(h % 10),
        ':',
        digit(m / 10),
        digit(m % 10),
        ':',
        digit(s / 10),
        digit(s % 10),
    ]
}

/// A date of the calendar in the years with four digits.
spec fn plain_date(date: (nat, nat, nat)) -> bool {
    date.0 < 10000 && 1 <= date.1 <= 12 && 1 <= date.2 <= 31
}

proof fn lemma_date_text(date: (nat, nat, nat))
    requires
        plain_date(date),
    ensures
        date_text(date) == stamp(date, 0, 0, 0).take(10),
{
    reveal_strlit("-");
    lemma_four(date.0);
    lemma_two(date.1);
    lemma_two(date.2);
    reveal(stamp);
    assert(date_text(date) =~= stamp(date, 0, 0, 0).take(10));
}

proof fn lemma_clock_text(h: nat, m: nat, s: nat)
    requires
        h < 24,
        m < 60,
        s < 60,
    ensures
        clock_text(h, m, s) == stamp((0, 0, 0), h, m, s).skip(11),
{
    reveal_strlit(":");
    lemma_two(h);
    lemma_two(m);
    lemma_two(s);
    reveal(stamp);
    assert(clock_text(h, m, s) =~= stamp((0, 0, 0), h, m, s).skip(11));
}

/// A stamp is a date, a space and a time of day.
proof fn lemma_stamp_joined(date: (nat, nat, nat), h: nat, m: nat, s: nat)
    ensures
        stamp(date, h, m, s) == stamp(date, 0, 0, 0).take(10) + seq![' '] + stamp(
            (0, 0, 0),
            h,
            m,
            s,
        ).skip(11),
{
    reveal(stamp);
    assert(stamp(date, h, m, s) =~= stamp(date, 0, 0, 0).take(10) + seq![' '] + stamp(
        (0, 0, 0),
        h,
        m,
        s,
    ).skip(11));
}

/// The characters of the text of a second.
proof fn lemma_datetime_text(secs: nat)
    requires
        secs < END_OF_FOUR_DIGITS,
    ensures
        plain_date(date_of(secs / 86400)),
        datetime_text(secs) == stamp(
            date_of(secs / 86400),
            secs / 3600 % 24,
            secs / 60 % 60,
            secs % 60,
        ),
{
    let date = date_of(secs / 86400);
    let (h, m, s) = (secs / 3600 % 24, secs / 60 % 60, secs % 60);
    law_years_with_four_digits(secs / 86400);
    law_dates_are_consecutive(secs / 86400);
    reveal_strlit(" ");
    lemma_date_text(date);
    lemma_clock_text(h, m, s);
    assert(datetime_text(secs) =~= stamp(date, h, m, s)) by {
        lemma_stamp_joined(date, h, m, s);
    }
}

/// The text of a second has the form of a stamp.
proof fn lemma_stamp_form(date: (nat, nat, nat), h: nat, m: nat, s: nat)
    requires
        plain_date(date),
        h < 24,
        m < 60,
        s < 60,
    ensures
        is_stamp(stamp(date, h, m, s)),
        vstd::utf8::is_ascii_chars(stamp(date, h, m, s)),
{
    reveal(stamp);
}

/// The texts differ first at character `k`.
spec fn differs_at(a: Seq<char>, b: Seq<char>, k: int) -> bool {
    0 <= k < a.len() && k < b.len() && a[k] < b[k] && a.take(k) == b.take(k)
}

/// The digits of years are in the order of the years.
proof fn lemma_year_digits(y: nat, z: nat)
    requires
        y < z < 10000,
    ensures
        date_before(
            (y / 1000, y / 100 % 10, y / 10 % 10),
            (z / 1000, z / 100 % 10, z / 10 % 10),
        ) || (y / 10 == z / 10 && y % 10 < z % 10),
{
    assert(y / 100 == 10 * (y / 1000) + y / 100 % 10 && z / 100 == 10 * (z / 1000) + z / 100 % 10);
    assert(y / 10 == 10 * (y / 100) + y / 10 % 10 && z / 10 == 10 * (z / 100) + z / 10 % 10);
}

/// An earlier year comes before.
#[verifier::rlimit(40)]
proof fn lemma_years_in_order(
    a: (nat, nat, nat),
    b: (nat, nat, nat),
    p: (nat, nat, nat),
    q: (nat, nat, nat),
)
    requires
        a.0 < b.0 < 10000,
    ensures
        exists|k: int| differs_at(stamp(a, p.0, p.1, p.2), stamp(b, q.0, q.1, q.2), k),
{
    reveal(stamp);
    lemma_year_digits(a.0, b.0);
    let s = stamp(a, p.0, p.1, p.2);
    let t = stamp(b, q.0, q.1, q.2);
    let k: int = if a.0 / 1000 < b.0 / 1000 {
        0
    } else if a.0 / 100 % 10 < b.0 / 100 % 10 {
        1
    } else if a.0 / 10 % 10 < b.0 / 10 % 10 {
        2
    } else {
        3
    };
    if a.0 / 10 == b.0 / 10 {
        assert(a.0 / 100 == b.0 / 100 && a.0 / 1000 == b.0 / 1000);
    }
    assert(s.take(k) =~= t.take(k));
    assert(differs_at(s, t, k));
}

/// An earlier day of the same year comes before.
proof fn lemma_days_in_order(
    a: (nat, nat, nat),
    b: (nat, nat, nat),
    p: (nat, nat, nat),
    q: (nat, nat, nat),
)
    requires
        plain_date(a),
        plain_date(b),
        a.0 == b.0,
        date_before(a, b),
    ensures
        exists|k: int| differs_at(stamp(a, p.0, p.1, p.2), stamp(b, q.0, q.1, q.2), k),
{
    reveal(stamp);
    let s = stamp(a, p.0, p.1, p.2);
    let t = stamp(b, q.0, q.1, q.2);
    let k: int = if a.1 < b.1 {
        if a.1 / 10 < b.1 / 10 {
            5
        } else {
            6
        }
    } else if a.2 / 10 < b.2 / 10 {
        8
    } else {
        9
    };
    assert(s.take(k) =~= t.take(k));
    assert(differs_at(s, t, k));
}

/// An earlier time of the same day comes before.
proof fn lemma_times_in_order(date: (nat, nat, nat), p: (nat, nat, nat), q: (nat, nat, nat))
    requires
        p.0 < 24 && p.1 < 60 && p.2 < 60,
        q.0 < 24 && q.1 < 60 && q.2 < 60,
        date_before(p, q),
    ensures
        exists|k: int| differs_at(stamp(date, p.0, p.1, p.2), stamp(date, q.0, q.1, q.2), k),
{
    reveal(stamp);
    let s = stamp(date, p.0, p.1, p.2);
    let t = stamp(date, q.0, q.1, q.2);
    let k: int = if p.0 < q.0 {
        if p.0 / 10 < q.0 / 10 {
            11
        } else {
            12
        }
    } else if p.1 < q.1 {
        if p.1 / 10 < q.1 / 10 {
            14
        } else {
            15
        }
    } else if p.2 / 10 < q.2 / 10 {
        17
    } else {
        18
    };
    assert(s.take(k) =~= t.take(k));
    assert(differs_at(s, t, k));
}

/// What differs as plain characters differs as bytes.
proof fn lemma_bytes_in_order(a: Seq<char>, b: Seq<char>, k: int)
    requires
        vstd::utf8::is_ascii_chars(a),
        vstd::utf8::is_ascii_chars(b),
        differs_at(a, b, k),
    ensures
        bytes_before(vstd::utf8::encode_utf8(a), vstd::utf8::encode_utf8(b)),
{
    let (p, q) = (vstd::utf8::encode_utf8(a), vstd::utf8::encode_utf8(b));
    vstd::utf8::is_ascii_chars_encode_utf8(a);
    vstd::utf8::is_ascii_chars_encode_utf8(b);
    assert(p[k] == a[k] as u8 && q[k] == b[k] as u8);
    assert forall|i: int| 0 <= i < k implies p[i] == q[i] by {
        assert(a.take(k)[i] == b.take(k)[i]);
        assert(p[i] == a[i] as u8 && q[i] == b[i] as u8);
    }
    assert(p.take(k) =~= q.take(k));
}

/// The hour, the minute and the second of a day do not depend on the day.
proof fn lemma_day_drops_out(day: nat, u: nat)
    requires
        u < 86400,
    ensures
        (86400 * day + u) / 3600 % 24 == u / 3600,
        (86400 * day + u) / 60 % 60 == u / 60 % 60,
        (86400 * day + u) % 60 == u % 60,
{
    let a = 86400 * day + u;
    assert(a / 3600 == 24 * day + u / 3600);
    assert(a / 60 == 60 * (24 * day) + u / 60);
    assert(a == 60 * (1440 * day) + u);
}

/// The hours, minutes and seconds of a day grow with the second.
proof fn lemma_time_of_day(a: nat, b: nat)
    requires
        a < b,
        a / 86400 == b / 86400,
    ensures
        date_before(
            (a / 3600 % 24, a / 60 % 60, a % 60),
            (b / 3600 % 24, b / 60 % 60, b % 60),
        ),
{
    let day = a / 86400;
    let (u, v) = (a % 86400, b % 86400);
    lemma_day_drops_out(day, u);
    lemma_day_drops_out(day, v);
    assert(a == 86400 * day + u && b == 86400 * day + v);
    assert(u == 3600 * (u / 3600) + 60 * (u / 60 % 60) + u % 60);
    assert(v == 3600 * (v / 3600) + 60 * (v / 60 % 60) + v % 60);
}

/// Up to the end of the year 9999 every second has a text of 19 plain characters of the
/// form `YYYY-MM-DD HH:MM:SS`, and no part of it is lost in the count of the days.
pub proof fn law_texts_are_stamps(secs: nat)
    requires
        secs < END_OF_FOUR_DIGITS,
    ensures
        counted_second(secs) == secs,
        is_stamp(datetime_text(secs)),
        vstd::utf8::is_ascii_chars(datetime_text(secs)),
{
    lemma_datetime_text(secs);
    lemma_stamp_form(date_of(secs / 86400), secs / 3600 % 24, secs / 60 % 60, secs % 60);
}

/// Up to the end of the year 9999 a later second has a greater text, byte by byte.
pub proof fn law_later_seconds_have_greater_texts(a: nat, b: nat)
    requires
        a < b < END_OF_FOUR_DIGITS,
    ensures
        bytes_before(
            vstd::utf8::encode_utf8(datetime_text(counted_second(a))),
            vstd::utf8::encode_utf8(datetime_text(counted_second(b))),
        ),
{
    law_texts_are_stamps(a);
    law_texts_are_stamps(b);
    lemma_datetime_text(a);
    lemma_datetime_text(b);
    let (d, e) = (date_of(a / 86400), date_of(b / 86400));
    let p = (a / 3600 % 24, a / 60 % 60, a % 60);
    let q = (b / 3600 % 24, b / 60 % 60, b % 60);
    let (s, t) = (datetime_text(a), datetime_text(b));
    if a / 86400 == b / 86400 {
        lemma_time_of_day(a, b);
        lemma_times_in_order(d, p, q);
    } else {
        law_later_days_have_later_dates(a / 86400, b / 86400);
        if d.0 < e.0 {
            lemma_years_in_order(d, e, p, q);
        } else {
            lemma_days_in_order(d, e, p, q);
        }
    }
    let k = choose|k: int| differs_at(s, t, k);
    lemma_bytes_in_order(s, t, k);
}

/// The digits of a text give the numbers that it was made of.
proof fn lemma_stamp_digits(date: (nat, nat, nat), h: nat, m: nat, s: nat)
    requires
        plain_date(date),
        h < 24,
        m < 60,
        s < 60,
    ensures
        ({
            let text = stamp(date, h, m, s);
            &&& 100 * two_digits(text, 0) + two_digits(text, 2) == date.0
            &&& two_digits(text, 5) == date.1
            &&& two_digits(text, 8) == date.2
            &&& two_digits(text, 11) == h
            &&& two_digits(text, 14) == m
            &&& two_digits(text, 17) == s
        }),
{
    reveal(stamp);
    let y = date.0;
    assert(y / 100 == 10 * (y / 1000) + y / 100 % 10);
    assert(y / 10 == 10 * (y / 100) + y / 10 % 10);
    assert(y == 10 * (y / 10) + y % 10);
}

/// The text of a second tells its year, month and day, and its hour, minute and second.
#[verifier::rlimit(40)]
pub proof fn law_stamp_tells_the_second(secs: nat)
    requires
        secs < END_OF_FOUR_DIGITS,
    ensures
        ({
            let text = datetime_text(secs);
            let (year, month, day) = date_of(secs / 86400);
            &&& 100 * two_digits(text, 0) + two_digits(text, 2) == year
            &&& two_digits(text, 5) == month
            &&& two_digits(text, 8) == day
            &&& 3600 * two_digits(text, 11) + 60 * two_digits(text, 14) + two_digits(text, 17)
                == secs % 86400
        }),
{
    lemma_datetime_text(secs);
    let date = date_of(secs / 86400);
    let u = secs % 86400;
    lemma_stamp_digits(date, secs / 3600 % 24, secs / 60 % 60, secs % 60);
    lemma_day_drops_out(secs / 86400, u);
    assert(secs == 86400 * (secs / 86400) + u);
    assert(u == 3600 * (u / 3600) + 60 * (u / 60 % 60) + u % 60);
}

/// The clock is believed: a reading up to the end of the year 9999 stands for itself. A clock
/// that is set before 1970 stands for the start of that year.
pub proof fn law_clock_is_believed(secs: u64)
    ensures
        clock_second(None) == 0,
        secs < END_OF_FOUR_DIGITS ==> clock_second(Some(secs)) == secs,
{
    if secs < END_OF_FOUR_DIGITS {
        law_texts_are_stamps(secs as nat);
    }
}

} // verus!
