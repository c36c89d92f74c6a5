//! Instants and their canonical text encoding.
//!
//! An instant is stored as whole seconds since the Unix epoch, in UTC.  For
//! persistence it is rendered in the fixed, timezone-aware form
//! `YYYY-MM-DDTHH:MM:SSZ`; the decoder accepts exactly that form, so that
//! every stored timestamp reads back as the instant that was written.

use vstd::prelude::*;

verus! {

/// First year that the four-digit encoding cannot hold.
pub const YEAR_LIMIT: u64 = 10000;

/// Seconds from 1970-01-01T00:00:00Z to 10000-01-01T00:00:00Z: the least
/// instant that the encoding cannot hold.
pub const MAX_ENCODABLE_SECS: u64 = 253402300800;

/// Number of days from 1970-01-01 to 10000-01-01.
pub const DAY_LIMIT: u64 = 2932897;

/// Length in bytes of an encoded timestamp.
pub const ENCODED_LEN: usize = 20;

/// A UTC instant, held as whole seconds since the Unix epoch.
#[derive(Clone, Copy, PartialEq, Eq, Structural, Debug)]
pub struct Timestamp {
    pub secs: u64,
}

impl Timestamp {
    /// The instant lies before year 10000 and therefore has an encoding.
    pub open spec fn valid(self) -> bool {
        self.secs < MAX_ENCODABLE_SECS
    }

    pub fn new(secs: u64) -> (r: Timestamp)
        ensures
            r.secs == secs,
    {
        Timestamp { secs }
    }

    pub fn is_valid(&self) -> (r: bool)
        ensures
            r == self.valid(),
    {
        self.secs < MAX_ENCODABLE_SECS
    }
}

/// The proleptic Gregorian leap-year rule.
pub open spec fn is_leap_year(y: int) -> bool {
    y % 4 == 0 && (y % 100 != 0 || y % 400 == 0)
}

pub open spec fn days_in_year(y: int) -> int {
    if is_leap_year(y) {
        366
    } else {
        365
    }
}

pub open spec fn days_in_month(y: int, m: int) -> int {
    if m == 2 {
        if is_leap_year(y) {
            29
        } else {
            28
        }
    } else if m == 4 || m == 6 || m == 9 || m == 11 {
        30
    } else {
        31
    }
}

/// Days from 1970-01-01 to the first day of year `y`.
pub open spec fn days_before_year(y: int) -> int
    decreases y,
{
    if y <= 1970 {
        0
    } else {
        days_before_year(y - 1) + days_in_year(y - 1)
    }
}

/// Days from the first day of year `y` to the first day of its month `m`.
pub open spec fn days_before_month(y: int, m: int) -> int
    decreases m,
{
    if m <= 1 {
        0
    } else {
        days_before_month(y, m - 1) + days_in_month(y, m - 1)
    }
}

pub open spec fn valid_date(y: int, m: int, d: int) -> bool {
    &&& 1970 <= y < 10000
    &&& 1 <= m <= 12
    &&& 1 <= d <= days_in_month(y, m)
}

/// A calendar date and time of day, the civil reading of an instant.
pub ghost struct CivilTime {
    pub year: int,
    pub month: int,
    pub day: int,
    pub hour: int,
    pub minute: int,
    pub second: int,
}

pub open spec fn valid_civil(c: CivilTime) -> bool {
    &&& valid_date(c.year, c.month, c.day)
    &&& 0 <= c.hour < 24
    &&& 0 <= c.minute < 60
    &&& 0 <= c.second < 60
}

/// Seconds since the epoch at the civil time `c`.
pub open spec fn secs_of_civil(c: CivilTime) -> int {
    (days_before_year(c.year) + days_before_month(c.year, c.month) + (c.day - 1)) * 86400
        + c.hour * 3600 + c.minute * 60 + c.second
}

/// Starting at year `y` with `days` whole days left, advance year by year
/// until fewer than a year's days remain.
pub open spec fn split_year(y: int, days: int) -> (int, int)
    decreases days,
{
    if days < days_in_year(y) {
        (y, days)
    } else {
        split_year(y + 1, days - days_in_year(y))
    }
}

/// Starting at month `m` of year `y` with `days` whole days left, advance
/// month by month until fewer than a month's days remain.
pub open spec fn split_month(y: int, m: int, days: int) -> (int, int)
    decreases 12 - m,
{
    if m >= 12 || days < days_in_month(y, m) {
        (m, days)
    } else {
        split_month(y, m + 1, days - days_in_month(y, m))
    }
}

/// The civil reading of `secs` seconds since the epoch.
pub open spec fn civil_of_secs(secs: int) -> CivilTime {
    let days = secs / 86400;
    let sod = secs % 86400;
    let (y, yd) = split_year(1970, days);
    let (m, md) = split_month(y, 1, yd);
    CivilTime {
        year: y,
        month: m,
        day: md + 1,
        hour: sod / 3600,
        minute: (sod % 3600) / 60,
        second: sod % 60,
    }
}

pub open spec fn digit_byte(d: int) -> u8 {
    (48 + d) as u8
}

/// The canonical twenty-byte rendering `YYYY-MM-DDTHH:MM:SSZ` of a civil
/// time.
pub open spec fn render_civil(c: CivilTime) -> Seq<u8> {
    seq![
        digit_byte(c.year / 1000),
        digit_byte((c.year / 100) % 10),
        digit_byte((c.year / 10) % 10),
        digit_byte(c.year % 10),
        45u8,
        digit_byte(c.month / 10),
        digit_byte(c.month % 10),
        45u8,
        digit_byte(c.day / 10),
        digit_byte(c.day % 10),
        84u8,
        digit_byte(c.hour / 10),
        digit_byte(c.hour % 10),
        58u8,
        digit_byte(c.minute / 10),
        digit_byte(c.minute % 10),
        58u8,
        digit_byte(c.second / 10),
        digit_byte(c.second % 10),
        90u8,
    ]
}

/// The canonical encoding of a valid instant.
pub open spec fn encoding_of(t: Timestamp) -> Seq<u8> {
    render_civil(civil_of_secs(t.secs as int))
}

/// Stepping the dividend by one raises the quotient exactly at the
/// multiples of the divisor.
proof fn lemma_div_step(x: int, d: int)
    requires
        0 < d,
    ensures
        x / d == (x - 1) / d + if x % d == 0 {
            1int
        } else {
            0int
        },
{
    let q = (x - 1) / d;
    let r = (x - 1) % d;
    vstd::arithmetic::div_mod::lemma_fundamental_div_mod(x - 1, d);
    if r + 1 < d {
        vstd::arithmetic::div_mod::lemma_fundamental_div_mod_converse(x, d, q, r + 1);
    } else {
        assert(x == (q + 1) * d + 0) by (nonlinear_arith)
            requires
                x - 1 == d * q + r,
                r == d - 1,
        ;
        vstd::arithmetic::div_mod::lemma_fundamental_div_mod_converse(x, d, q + 1, 0);
    }
}

/// A year divisible by 400 is divisible by 100 and by 4, and one divisible
/// by 100 is divisible by 4.
proof fn lemma_divides_chain(y: int)
    ensures
        y % 400 == 0 ==> y % 100 == 0 && y % 4 == 0,
        y % 100 == 0 ==> y % 4 == 0,
{
    vstd::arithmetic::div_mod::lemma_mod_mod(y, 4, 100);
    vstd::arithmetic::div_mod::lemma_mod_mod(y, 100, 4);
    vstd::arithmetic::div_mod::lemma_mod_mod(y, 4, 25);
}

/// Closed form of `days_before_year`: 365 days for every year since the
/// epoch, plus one for each leap year among them.
proof fn lemma_dby_closed(y: int)
    requires
        1970 <= y,
    ensures
        days_before_year(y) == 365 * (y - 1970) + (y - 1) / 4 - (y - 1) / 100 + (y - 1) / 400
            - 477,
    decreases y,
{
    if y == 1970 {
        assert(1969int / 4 == 492);
        assert(1969int / 100 == 19);
        assert(1969int / 400 == 4);
    } else {
        lemma_dby_closed(y - 1);
        lemma_div_step(y - 1, 4);
        lemma_div_step(y - 1, 100);
        lemma_div_step(y - 1, 400);
        lemma_divides_chain(y - 1);
    }
}

/// The day count at the year limit is the one the constants state.
pub proof fn lemma_day_limit()
    ensures
        days_before_year(YEAR_LIMIT as int) == DAY_LIMIT as int,
{
    lemma_dby_closed(10000);
    assert(9999int / 4 == 2499);
    assert(9999int / 100 == 99);
    assert(9999int / 400 == 24);
}

/// Later years lie at or after earlier ones, and gain at least 365 days a
/// year beyond the epoch.
proof fn lemma_dby_monotonic(y1: int, y2: int)
    requires
        y1 <= y2,
    ensures
        days_before_year(y1) <= days_before_year(y2),
        1970 <= y1 ==> days_before_year(y2) >= days_before_year(y1) + 365 * (y2 - y1),
    decreases y2 - y1,
{
    if y1 < y2 {
        lemma_dby_monotonic(y1, y2 - 1);
    }
}

/// Later months of a year lie at or after earlier ones.
proof fn lemma_dbm_monotonic(y: int, m1: int, m2: int)
    requires
        m1 <= m2,
    ensures
        days_before_month(y, m1) <= days_before_month(y, m2),
    decreases m2 - m1,
{
    if m1 < m2 {
        lemma_dbm_monotonic(y, m1, m2 - 1);
    }
}

/// The twelve months of a year hold exactly the year's days.
proof fn lemma_year_months(y: int)
    ensures
        days_before_month(y, 13) == days_in_year(y),
{
    reveal_with_fuel(days_before_month, 14);
}

/// What `split_year` returns: a year at or after the start, and a day
/// offset inside that year that accounts for all the days walked past.
proof fn lemma_split_year(y0: int, days: int)
    requires
        1970 <= y0,
        0 <= days,
    ensures
        ({
            let (y, d) = split_year(y0, days);
            &&& y0 <= y
            &&& 0 <= d < days_in_year(y)
            &&& days_before_year(y) == days_before_year(y0) + days - d
        }),
    decreases days,
{
    if days >= days_in_year(y0) {
        lemma_split_year(y0 + 1, days - days_in_year(y0));
    }
}

/// Where `split_year` lands when the target year is known: on exactly
/// that year, with the leftover days.
proof fn lemma_split_year_locate(y0: int, y: int, days: int)
    requires
        1970 <= y0 <= y,
        days_before_year(y) - days_before_year(y0) <= days,
        days < days_before_year(y + 1) - days_before_year(y0),
    ensures
        split_year(y0, days) == (y, days - (days_before_year(y) - days_before_year(y0))),
    decreases y - y0,
{
    if y0 == y {
        assert(days < days_in_year(y0));
    } else {
        lemma_dby_monotonic(y0 + 1, y);
        lemma_split_year_locate(y0 + 1, y, days - days_in_year(y0));
    }
}

/// What `split_month` returns: a month at or after the start, with a day
/// offset that accounts for the days walked past, and lies inside the
/// month unless the walk stopped at December.
proof fn lemma_split_month(y: int, m0: int, days: int)
    requires
        1 <= m0 <= 12,
        0 <= days,
    ensures
        ({
            let (m, d) = split_month(y, m0, days);
            &&& m0 <= m <= 12
            &&& 0 <= d
            &&& days_before_month(y, m) == days_before_month(y, m0) + days - d
            &&& (m < 12 ==> d < days_in_month(y, m))
        }),
    decreases 12 - m0,
{
    if !(m0 >= 12 || days < days_in_month(y, m0)) {
        lemma_split_month(y, m0 + 1, days - days_in_month(y, m0));
    }
}

/// Where `split_month` lands when the target month is known: on exactly
/// that month, with the leftover days.
proof fn lemma_split_month_locate(y: int, m0: int, m: int, days: int)
    requires
        1 <= m0 <= m <= 12,
        days_before_month(y, m) - days_before_month(y, m0) <= days,
        days - (days_before_month(y, m) - days_before_month(y, m0)) < days_in_month(y, m),
    ensures
        split_month(y, m0, days) == (m, days - (days_before_month(y, m) - days_before_month(
            y,
            m0,
        ))),
    decreases m - m0,
{
    if m0 == m {
        assert(m0 >= 12 || days < days_in_month(y, m0));
    } else {
        lemma_dbm_monotonic(y, m0 + 1, m);
        lemma_split_month_locate(y, m0 + 1, m, days - days_in_month(y, m0));
    }
}

/// The civil reading of an encodable instant is a valid civil time, and
/// writing it back as seconds returns the instant.
pub proof fn lemma_civil_sound(secs: int)
    requires
        0 <= secs < MAX_ENCODABLE_SECS,
    ensures
        valid_civil(civil_of_secs(secs)),
        secs_of_civil(civil_of_secs(secs)) == secs,
{
    let days = secs / 86400;
    let sod = secs % 86400;
    vstd::arithmetic::div_mod::lemma_fundamental_div_mod(secs, 86400);
    vstd::arithmetic::div_mod::lemma_mod_bound(secs, 86400);
    vstd::arithmetic::div_mod::lemma_div_pos_is_pos(secs, 86400);
    assert(days < DAY_LIMIT as int) by {
        vstd::arithmetic::div_mod::lemma_div_is_ordered(secs, 253402300799, 86400);
        assert(253402300799int / 86400 == 2932896);
    }
    lemma_split_year(1970, days);
    let (y, yd) = split_year(1970, days);
    assert(y < 10000) by {
        lemma_day_limit();
        if y >= 10000 {
            lemma_dby_monotonic(10000, y);
        }
    }
    lemma_year_months(y);
    lemma_split_month(y, 1, yd);
    let (m, md) = split_month(y, 1, yd);
    assert(md < days_in_month(y, m)) by {
        if m == 12 {
            assert(days_before_month(y, 13) == days_before_month(y, 12) + days_in_month(y, 12));
        }
    }
    let c = civil_of_secs(secs);
    assert(c.hour <= 23) by {
        vstd::arithmetic::div_mod::lemma_div_is_ordered(sod, 86399, 3600);
        assert(86399int / 3600 == 23);
        vstd::arithmetic::div_mod::lemma_div_pos_is_pos(sod, 3600);
    }
    assert(0 <= c.minute < 60 && 0 <= c.second < 60) by {
        vstd::arithmetic::div_mod::lemma_mod_bound(sod, 3600);
        vstd::arithmetic::div_mod::lemma_mod_bound(sod % 3600, 60);
        vstd::arithmetic::div_mod::lemma_mod_bound(sod, 60);
        vstd::arithmetic::div_mod::lemma_div_pos_is_pos(sod % 3600, 60);
        vstd::arithmetic::div_mod::lemma_div_is_ordered(sod % 3600, 3599, 60);
        assert(3599int / 60 == 59);
    }
    assert(secs_of_civil(c) == secs) by {
        assert(days_before_year(y) + days_before_month(y, m) + (c.day - 1) == days);
        vstd::arithmetic::div_mod::lemma_fundamental_div_mod(sod, 3600);
        vstd::arithmetic::div_mod::lemma_fundamental_div_mod(sod % 3600, 60);
        vstd::arithmetic::div_mod::lemma_mod_mod(sod, 60, 60);
    }
}

/// Every valid civil time before the year limit comes from exactly the
/// seconds it writes: reading those seconds back gives the same civil
/// time.
pub proof fn lemma_civil_complete(c: CivilTime)
    requires
        valid_civil(c),
    ensures
        0 <= secs_of_civil(c) < MAX_ENCODABLE_SECS,
        civil_of_secs(secs_of_civil(c)) == c,
{
    let dd = days_before_year(c.year) + days_before_month(c.year, c.month) + (c.day - 1);
    let sod = c.hour * 3600 + c.minute * 60 + c.second;
    let secs = secs_of_civil(c);
    lemma_dby_monotonic(1970, c.year);
    lemma_dbm_monotonic(c.year, 1, c.month);
    lemma_year_months(c.year);
    lemma_dbm_monotonic(c.year, c.month + 1, 13);
    assert(days_before_month(c.year, c.month + 1) == days_before_month(c.year, c.month)
        + days_in_month(c.year, c.month));
    assert(days_before_month(c.year, c.month) + (c.day - 1) < days_in_year(c.year));
    lemma_day_limit();
    lemma_dby_monotonic(c.year + 1, 10000);
    assert(dd < DAY_LIMIT as int);
    assert(secs == dd * 86400 + sod);
    vstd::arithmetic::div_mod::lemma_fundamental_div_mod_converse(secs, 86400, dd, sod);
    lemma_split_year_locate(1970, c.year, dd);
    lemma_split_month_locate(c.year, 1, c.month, days_before_month(c.year, c.month) + (c.day - 1));
    assert(sod / 3600 == c.hour && sod % 3600 == c.minute * 60 + c.second) by {
        vstd::arithmetic::div_mod::lemma_fundamental_div_mod_converse(
            sod,
            3600,
            c.hour,
            c.minute * 60 + c.second,
        );
    }
    assert((sod % 3600) / 60 == c.minute && (sod % 3600) % 60 == c.second) by {
        vstd::arithmetic::div_mod::lemma_fundamental_div_mod_converse(
            c.minute * 60 + c.second,
            60,
            c.minute,
            c.second,
        );
    }
    assert(sod % 60 == c.second) by {
        vstd::arithmetic::div_mod::lemma_mod_mod(sod, 60, 60);
    }
}

/// The two-digit number starting at byte `i`.
pub open spec fn read2(s: Seq<u8>, i: int) -> int {
    (s[i] - 48) * 10 + (s[i + 1] - 48)
}

/// The four-digit number starting at byte `i`.
pub open spec fn read4(s: Seq<u8>, i: int) -> int {
    (s[i] - 48) * 1000 + (s[i + 1] - 48) * 100 + (s[i + 2] - 48) * 10 + (s[i + 3] - 48)
}

pub open spec fn is_digit(b: u8) -> bool {
    48 <= b <= 57
}

/// A number below 10000 is rebuilt exactly from its four decimal digits,
/// and each digit lies below ten.
proof fn lemma_decompose4(v: int)
    requires
        0 <= v < 10000,
    ensures
        0 <= v / 1000 <= 9,
        0 <= (v / 100) % 10 <= 9,
        0 <= (v / 10) % 10 <= 9,
        0 <= v % 10 <= 9,
        (v / 1000) * 1000 + ((v / 100) % 10) * 100 + ((v / 10) % 10) * 10 + v % 10 == v,
{
    vstd::arithmetic::div_mod::lemma_fundamental_div_mod(v, 10);
    vstd::arithmetic::div_mod::lemma_mod_bound(v, 10);
    vstd::arithmetic::div_mod::lemma_fundamental_div_mod(v / 10, 10);
    vstd::arithmetic::div_mod::lemma_mod_bound(v / 10, 10);
    vstd::arithmetic::div_mod::lemma_fundamental_div_mod(v / 100, 10);
    vstd::arithmetic::div_mod::lemma_mod_bound(v / 100, 10);
    vstd::arithmetic::div_mod::lemma_div_pos_is_pos(v, 10);
    vstd::arithmetic::div_mod::lemma_div_pos_is_pos(v / 10, 10);
    vstd::arithmetic::div_mod::lemma_div_pos_is_pos(v / 100, 10);
    assert((v / 10) / 10 == v / 100) by {
        vstd::arithmetic::div_mod::lemma_div_denominator(v, 10, 10);
    }
    assert((v / 100) / 10 == v / 1000) by {
        vstd::arithmetic::div_mod::lemma_div_denominator(v, 100, 10);
    }
    assert(v / 1000 <= 9) by {
        vstd::arithmetic::div_mod::lemma_div_is_ordered(v, 9999, 1000);
        assert(9999int / 1000 == 9);
        vstd::arithmetic::div_mod::lemma_div_pos_is_pos(v, 1000);
    }
}

/// A number below 100 is rebuilt exactly from its two decimal digits, and
/// each digit lies below ten.
proof fn lemma_decompose2(v: int)
    requires
        0 <= v < 100,
    ensures
        0 <= v / 10 <= 9,
        0 <= v % 10 <= 9,
        (v / 10) * 10 + v % 10 == v,
{
    vstd::arithmetic::div_mod::lemma_fundamental_div_mod(v, 10);
    vstd::arithmetic::div_mod::lemma_mod_bound(v, 10);
    vstd::arithmetic::div_mod::lemma_div_pos_is_pos(v, 10);
    vstd::arithmetic::div_mod::lemma_div_is_ordered(v, 99, 10);
    assert(99int / 10 == 9);
}

/// The shape of every valid encoding: twenty bytes, the fixed separators,
/// decimal digits in the six number fields, and those fields reading back
/// as the instant's civil time.
pub proof fn lemma_encoding_shape(t: Timestamp)
    requires
        t.valid(),
    ensures
        ({
            let e = encoding_of(t);
            let c = civil_of_secs(t.secs as int);
            &&& e.len() == 20
            &&& valid_civil(c)
            &&& t.secs == secs_of_civil(c)
            &&& e[4] == 45u8 && e[7] == 45u8 && e[10] == 84u8 && e[13] == 58u8 && e[16] == 58u8
                && e[19] == 90u8
            &&& is_digit(e[0]) && is_digit(e[1]) && is_digit(e[2]) && is_digit(e[3])
            &&& is_digit(e[5]) && is_digit(e[6]) && is_digit(e[8]) && is_digit(e[9])
            &&& is_digit(e[11]) && is_digit(e[12]) && is_digit(e[14]) && is_digit(e[15])
            &&& is_digit(e[17]) && is_digit(e[18])
            &&& read4(e, 0) == c.year
            &&& read2(e, 5) == c.month
            &&& read2(e, 8) == c.day
            &&& read2(e, 11) == c.hour
            &&& read2(e, 14) == c.minute
            &&& read2(e, 17) == c.second
        }),
{
    lemma_civil_sound(t.secs as int);
    let c = civil_of_secs(t.secs as int);
    lemma_decompose4(c.year);
    lemma_decompose2(c.month);
    lemma_decompose2(c.day);
    lemma_decompose2(c.hour);
    lemma_decompose2(c.minute);
    lemma_decompose2(c.second);
}

/// No two valid instants share an encoding.
pub proof fn lemma_encoding_injective(t1: Timestamp, t2: Timestamp)
    requires
        t1.valid(),
        t2.valid(),
        encoding_of(t1) == encoding_of(t2),
    ensures
        t1 == t2,
{
    lemma_encoding_shape(t1);
    lemma_encoding_shape(t2);
    let c1 = civil_of_secs(t1.secs as int);
    let c2 = civil_of_secs(t2.secs as int);
    assert(c1 == c2);
    assert(t1.secs == t2.secs);
}

/// What a decoder is allowed to answer for the bytes `s`: an instant that
/// encodes exactly to `s`, or nothing when no valid instant does.
pub open spec fn decode_result(s: Seq<u8>, r: Option<Timestamp>) -> bool {
    match r {
        Some(t) => t.valid() && encoding_of(t) == s,
        None => forall|t: Timestamp| t.valid() ==> encoding_of(t) != s,
    }
}

/// Round-trip: on the encoding of a valid instant, the only answer a
/// decoder can give is exactly that instant.
pub proof fn lemma_round_trip(t: Timestamp, r: Option<Timestamp>)
    requires
        t.valid(),
        decode_result(encoding_of(t), r),
    ensures
        r == Some(t),
{
    match r {
        Some(t2) => {
            lemma_encoding_injective(t2, t);
        },
        None => {
            assert(encoding_of(t) != encoding_of(t));
        },
    }
}

/// Four digits below ten compose to a number below 10000 whose decimal
/// digits they are.
proof fn lemma_compose4(v0: int, v1: int, v2: int, v3: int)
    requires
        0 <= v0 <= 9,
        0 <= v1 <= 9,
        0 <= v2 <= 9,
        0 <= v3 <= 9,
    ensures
        ({
            let v = v0 * 1000 + v1 * 100 + v2 * 10 + v3;
            &&& 0 <= v < 10000
            &&& v / 1000 == v0
            &&& (v / 100) % 10 == v1
            &&& (v / 10) % 10 == v2
            &&& v % 10 == v3
        }),
{
    let v = v0 * 1000 + v1 * 100 + v2 * 10 + v3;
    vstd::arithmetic::div_mod::lemma_fundamental_div_mod_converse(
        v,
        1000,
        v0,
        v1 * 100 + v2 * 10 + v3,
    );
    vstd::arithmetic::div_mod::lemma_fundamental_div_mod_converse(
        v,
        100,
        v0 * 10 + v1,
        v2 * 10 + v3,
    );
    vstd::arithmetic::div_mod::lemma_fundamental_div_mod_converse(v0 * 10 + v1, 10, v0, v1);
    vstd::arithmetic::div_mod::lemma_fundamental_div_mod_converse(
        v,
        10,
        v0 * 100 + v1 * 10 + v2,
        v3,
    );
    vstd::arithmetic::div_mod::lemma_fundamental_div_mod_converse(
        v0 * 100 + v1 * 10 + v2,
        10,
        v0 * 10 + v1,
        v2,
    );
}

/// Two digits below ten compose to a number below 100 whose decimal
/// digits they are.
proof fn lemma_compose2(v0: int, v1: int)
    requires
        0 <= v0 <= 9,
        0 <= v1 <= 9,
    ensures
        ({
            let v = v0 * 10 + v1;
            &&& 0 <= v < 100
            &&& v / 10 == v0
            &&& v % 10 == v1
        }),
{
    vstd::arithmetic::div_mod::lemma_fundamental_div_mod_converse(v0 * 10 + v1, 10, v0, v1);
}

fn leap_year(y: u64) -> (r: bool)
    ensures
        r == is_leap_year(y as int),
{
    y % 4 == 0 && (y % 100 != 0 || y % 400 == 0)
}

fn year_days(y: u64) -> (r: u64)
    ensures
        r == days_in_year(y as int),
{
    if leap_year(y) {
        366
    } else {
        365
    }
}

fn month_days(y: u64, m: u64) -> (r: u64)
    ensures
        r == days_in_month(y as int, m as int),
{
    if m == 2 {
        if leap_year(y) {
            29
        } else {
            28
        }
    } else if m == 4 || m == 6 || m == 9 || m == 11 {
        30
    } else {
        31
    }
}

fn digit(v: u64) -> (r: u8)
    requires
        v < 10,
    ensures
        r == digit_byte(v as int),
{
    48 + v as u8
}

fn byte_is_digit(b: u8) -> (r: bool)
    ensures
        r == is_digit(b),
{
    48 <= b && b <= 57
}

/// Two-digit number at position `i` of `s`.
fn val2(s: &[u8], i: usize) -> (r: u64)
    requires
        i + 2 <= s@.len(),
        is_digit(s@[i as int]),
        is_digit(s@[i + 1]),
    ensures
        r == read2(s@, i as int),
        r < 100,
{
    let hi = (s[i] - 48) as u64;
    let lo = (s[i + 1] - 48) as u64;
    hi * 10 + lo
}

/// Four-digit number at position `i` of `s`.
fn val4(s: &[u8], i: usize) -> (r: u64)
    requires
        i + 4 <= s@.len(),
        is_digit(s@[i as int]),
        is_digit(s@[i + 1]),
        is_digit(s@[i + 2]),
        is_digit(s@[i + 3]),
    ensures
        r == read4(s@, i as int),
        r < 10000,
{
    let d0 = (s[i] - 48) as u64;
    let d1 = (s[i + 1] - 48) as u64;
    let d2 = (s[i + 2] - 48) as u64;
    let d3 = (s[i + 3] - 48) as u64;
    d0 * 1000 + d1 * 100 + d2 * 10 + d3
}

/// Days from the epoch to the first day of year `y`, by walking the
/// years.
fn days_before_year_exec(y: u64) -> (r: u64)
    requires
        1970 <= y <= 10000,
    ensures
        r == days_before_year(y as int),
{
    let mut acc: u64 = 0;
    let mut i: u64 = 1970;
    while i < y
        invariant
            1970 <= i <= y <= 10000,
            acc == days_before_year(i as int),
            acc <= 366 * (i - 1970),
        decreases y - i,
    {
        acc = acc + year_days(i);
        i = i + 1;
    }
    acc
}

/// Days from the first day of year `y` to the first day of its month
/// `m`, by walking the months.
fn days_before_month_exec(y: u64, m: u64) -> (r: u64)
    requires
        1 <= m <= 12,
    ensures
        r == days_before_month(y as int, m as int),
{
    let mut acc: u64 = 0;
    let mut i: u64 = 1;
    while i < m
        invariant
            1 <= i <= m <= 12,
            acc == days_before_month(y as int, i as int),
            acc <= 31 * (i - 1),
        decreases m - i,
    {
        acc = acc + month_days(y, i);
        i = i + 1;
    }
    acc
}

/// Render a valid instant in the canonical form `YYYY-MM-DDTHH:MM:SSZ`.
pub fn encode_timestamp(t: &Timestamp) -> (r: Vec<u8>)
    requires
        t.valid(),
    ensures
        r@ == encoding_of(*t),
        r@.len() == ENCODED_LEN,
{
    proof {
        lemma_civil_sound(t.secs as int);
        lemma_day_limit();
    }
    let ghost c = civil_of_secs(t.secs as int);
    let days: u64 = t.secs / 86400;
    let sod: u64 = t.secs % 86400;
    proof {
        vstd::arithmetic::div_mod::lemma_div_is_ordered(t.secs as int, 253402300799, 86400);
        assert(253402300799int / 86400 == 2932896);
    }
    let mut y: u64 = 1970;
    let mut rem: u64 = days;
    let mut dy = year_days(y);
    while rem >= dy
        invariant
            1970 <= y < 10000,
            days < DAY_LIMIT,
            dy == days_in_year(y as int),
            days_before_year(y as int) + rem == days,
            split_year(1970, days as int) == split_year(y as int, rem as int),
        decreases rem,
    {
        rem = rem - dy;
        y = y + 1;
        proof {
            lemma_day_limit();
            if y >= 10000 {
                lemma_dby_monotonic(10000, y as int);
            }
        }
        dy = year_days(y);
    }
    assert(c.year == y && split_year(1970, days as int).1 == rem as int);
    let ghost yd0 = rem as int;
    let mut m: u64 = 1;
    let mut dm = month_days(y, m);
    while m < 12 && rem >= dm
        invariant
            1 <= m <= 12,
            1970 <= y < 10000,
            dm == days_in_month(y as int, m as int),
            rem >= 0,
            split_month(y as int, 1, yd0) == split_month(y as int, m as int, rem as int),
        decreases 12 - m,
    {
        rem = rem - dm;
        m = m + 1;
        dm = month_days(y, m);
    }
    assert(c.month == m && c.day == rem + 1);
    let d: u64 = rem + 1;
    let h: u64 = sod / 3600;
    let mi: u64 = (sod % 3600) / 60;
    let sec: u64 = sod % 60;
    assert(c.hour == h && c.minute == mi && c.second == sec);
    proof {
        lemma_decompose4(c.year);
        lemma_decompose2(c.month);
        lemma_decompose2(c.day);
        lemma_decompose2(c.hour);
        lemma_decompose2(c.minute);
        lemma_decompose2(c.second);
    }
    let mut out: Vec<u8> = Vec::new();
    out.push(digit(y / 1000));
    out.push(digit((y / 100) % 10));
    out.push(digit((y / 10) % 10));
    out.push(digit(y % 10));
    out.push(45);
    out.push(digit(m / 10));
    out.push(digit(m % 10));
    out.push(45);
    out.push(digit(d / 10));
    out.push(digit(d % 10));
    out.push(84);
    out.push(digit(h / 10));
    out.push(digit(h % 10));
    out.push(58);
    out.push(digit(mi / 10));
    out.push(digit(mi % 10));
    out.push(58);
    out.push(digit(sec / 10));
    out.push(digit(sec % 10));
    out.push(90);
    proof {
        assert(out@ =~= encoding_of(*t));
    }
    out
}

/// Read an instant back from its canonical form.  Exactly the twenty-byte
/// renderings of valid instants are accepted; anything else is reported
/// as unreadable, never a fault.
pub fn decode_timestamp(s: &[u8]) -> (r: Option<Timestamp>)
    ensures
        decode_result(s@, r),
{
    if s.len() != 20 {
        proof {
            assert forall|t: Timestamp| t.valid() implies encoding_of(t) != s@ by {
                lemma_encoding_shape(t);
            }
        }
        return None;
    }
    if !(s[4] == 45 && s[7] == 45 && s[10] == 84 && s[13] == 58 && s[16] == 58 && s[19] == 90) {
        proof {
            assert forall|t: Timestamp| t.valid() implies encoding_of(t) != s@ by {
                lemma_encoding_shape(t);
            }
        }
        return None;
    }
    let digits_ok = byte_is_digit(s[0]) && byte_is_digit(s[1]) && byte_is_digit(s[2])
        && byte_is_digit(s[3]) && byte_is_digit(s[5]) && byte_is_digit(s[6]) && byte_is_digit(s[8])
        && byte_is_digit(s[9]) && byte_is_digit(s[11]) && byte_is_digit(s[12]) && byte_is_digit(
        s[14],
    ) && byte_is_digit(s[15]) && byte_is_digit(s[17]) && byte_is_digit(s[18]);
    if !digits_ok {
        proof {
            assert forall|t: Timestamp| t.valid() implies encoding_of(t) != s@ by {
                lemma_encoding_shape(t);
            }
        }
        return None;
    }
    let y = val4(s, 0);
    let m = val2(s, 5);
    let d = val2(s, 8);
    let h = val2(s, 11);
    let mi = val2(s, 14);
    let sec = val2(s, 17);
    let in_range = 1970 <= y && 1 <= m && m <= 12 && 1 <= d && h <= 23 && mi <= 59 && sec <= 59;
    if !in_range {
        proof {
            assert forall|t: Timestamp| t.valid() implies encoding_of(t) != s@ by {
                lemma_encoding_shape(t);
            }
        }
        return None;
    }
    if d > month_days(y, m) {
        proof {
            assert forall|t: Timestamp| t.valid() implies encoding_of(t) != s@ by {
                lemma_encoding_shape(t);
            }
        }
        return None;
    }
    let ghost c = CivilTime {
        year: y as int,
        month: m as int,
        day: d as int,
        hour: h as int,
        minute: mi as int,
        second: sec as int,
    };
    proof {
        lemma_civil_complete(c);
        lemma_day_limit();
        lemma_dby_monotonic(y as int, 10000);
    }
    let days: u64 = days_before_year_exec(y) + days_before_month_exec(y, m) + (d - 1);
    let secs: u64 = days * 86400 + h * 3600 + mi * 60 + sec;
    let t = Timestamp { secs };
    proof {
        assert(secs == secs_of_civil(c));
        assert(civil_of_secs(t.secs as int) == c);
        lemma_compose4(s@[0] - 48, s@[1] - 48, s@[2] - 48, s@[3] - 48);
        lemma_compose2(s@[5] - 48, s@[6] - 48);
        lemma_compose2(s@[8] - 48, s@[9] - 48);
        lemma_compose2(s@[11] - 48, s@[12] - 48);
        lemma_compose2(s@[14] - 48, s@[15] - 48);
        lemma_compose2(s@[17] - 48, s@[18] - 48);
        assert(encoding_of(t) =~= s@);
    }
    Some(t)
}

} // verus!
