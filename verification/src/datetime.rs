//! Calendar dates, instants, and the ways archives store them.
//!
//! Some formats store an instant, others only what the clock on the wall showed
//! where the file was packed. The second kind has no instant until a time zone
//! is known, so it is kept as the clock's reading.
use vstd::prelude::*;

verus! {

/// An instant: seconds since 1970-01-01T00:00:00Z, and nanoseconds after that second.
#[derive(Debug, Clone, Copy, PartialEq, Eq, Structural)]
pub struct Timestamp {
    pub secs: i128,
    pub nanos: u32,
}

/// What a calendar and a clock show, with no time zone.
#[derive(Debug, Clone, Copy, PartialEq, Eq, Structural)]
pub struct CivilTime {
    pub year: i32,
    pub month: u32,
    pub day: u32,
    pub hour: u64,
    pub min: u64,
    pub sec: u64,
}

/// A modification time as an archive records it.
#[derive(Debug, Clone, Copy, PartialEq, Eq, Structural)]
pub enum Stamp {
    /// A known instant.
    Instant(Timestamp),
    /// The clock on the wall where the file was packed.
    WallClock(CivilTime),
}

/// A leap year of the Gregorian calendar.
pub open spec fn leap(y: int) -> bool {
    y % 4 == 0 && (y % 100 != 0 || y % 400 == 0)
}

/// The days before month `m` in a year that is not a leap year.
pub open spec fn days_before_month(m: int) -> int {
    if m <= 1 { 0 }
    else if m == 2 { 31 }
    else if m == 3 { 59 }
    else if m == 4 { 90 }
    else if m == 5 { 120 }
    else if m == 6 { 151 }
    else if m == 7 { 181 }
    else if m == 8 { 212 }
    else if m == 9 { 243 }
    else if m == 10 { 273 }
    else if m == 11 { 304 }
    else { 334 }
}

/// The days before year `y`, counted from the first day of year 1.
pub open spec fn days_before_year(y: int) -> int {
    365 * (y - 1) + (y - 1) / 4 - (y - 1) / 100 + (y - 1) / 400
}

/// The days from 1970-01-01 to a date of the Gregorian calendar. A day past the
/// end of its month counts on into the next.
pub open spec fn day_number(y: int, m: int, d: int) -> int {
    days_before_year(y) + days_before_month(m) + (if m > 2 && leap(y) { 1int } else { 0 }) + d - 1
        - days_before_year(1970)
}

/// The days of month `m` of year `y`.
pub open spec fn month_length(y: int, m: int) -> int {
    if m == 2 {
        if leap(y) { 29 } else { 28 }
    } else if m == 4 || m == 6 || m == 9 || m == 11 {
        30
    } else {
        31
    }
}

/// A date that the calendar has.
pub open spec fn valid_date(y: int, m: int, d: int) -> bool {
    1 <= m <= 12 && 1 <= d <= month_length(y, m)
}

/// The days from the first of March of year 0 to a date, year `y` beginning in March.
proof fn march_count(y: int, m: int, d: int)
    requires
        1 <= m <= 12,
    ensures
        ({
            let y1 = if m <= 2 { y - 1 } else { y };
            let mp = if m > 2 { m - 3 } else { m + 9 };
            day_number(y, m, d) == 365 * y1 + y1 / 4 - y1 / 100 + y1 / 400 + (153 * mp + 2) / 5 + d - 1 - 719468
        }),
{
    assert(days_before_year(1970) == 719162);
    year_step(y);
}

/// Division rounding down, by a positive number.
fn floor_div(a: i64, b: i64) -> (r: i64)
    requires
        b > 0,
    ensures
        r == a as int / b as int,
{
    if a >= 0 {
        a / b
    } else {
        let q: i64 = (-(a + 1)) / b;
        proof {
            let n: int = -(a as int + 1);
            let k: int = n / (b as int);
            let c: int = n % (b as int);
            vstd::arithmetic::div_mod::lemma_fundamental_div_mod(n, b as int);
            assert((-k - 1) * b + (b - 1 - c) == a) by (nonlinear_arith)
                requires
                    n == b * k + c,
                    a == -n - 1,
            ;
            vstd::arithmetic::div_mod::lemma_fundamental_div_mod_converse(a as int, b as int, -k - 1, b - 1 - c);
            assert(k <= n) by (nonlinear_arith)
                requires
                    n == b * k + c,
                    n >= 0,
                    b > 0,
                    c >= 0,
            ;
        }
        -q - 1
    }
}

/// Days since 1970-01-01 for a date, or `None` before that day.
pub fn days_from_civil(y: i32, m: u32, d: u32) -> (r: Option<u64>)
    requires
        1 <= m <= 12,
        1 <= d <= 31,
        m <= 2 ==> y > i32::MIN,
    ensures
        match r {
            Some(n) => n == day_number(y as int, m as int, d as int),
            None => day_number(y as int, m as int, d as int) < 0,
        },
{
    let y1: i64 = if m <= 2 { y as i64 - 1 } else { y as i64 };
    let era: i64 = floor_div(y1, 400);
    let yoe: i64 = y1 - era * 400;
    let mp: i64 = if m > 2 { m as i64 - 3 } else { m as i64 + 9 };
    let doy: i64 = (153 * mp + 2) / 5 + d as i64 - 1;
    let doe: i64 = yoe * 365 + yoe / 4 - yoe / 100 + doy;
    let days: i64 = era * 146097 + doe - 719468;
    proof {
        march_count(y as int, m as int, d as int);
        let e = era as int;
        let o = yoe as int;
        assert(y1 == 400 * e + o && 0 <= o < 400);
        assert(y1 / 4 == 100 * e + o / 4);
        assert(y1 / 100 == 4 * e + o / 100);
        assert(y1 / 400 == e);
    }
    if days < 0 {
        None
    } else {
        Some(days as u64)
    }
}

/// The year of an era of 400 years, counted from March, in which day `doe` of
/// the era lies, and the day of that year.
proof fn year_of_era(doe: int) -> (r: (int, int))
    requires
        0 <= doe <= 146096,
    ensures
        ({
            let (k, t) = r;
            &&& 0 <= k <= 399
            &&& 0 <= t <= 365
            &&& t == 365 ==> leap(k + 1)
            &&& doe == 365 * k + k / 4 - k / 100 + t
            &&& (doe - doe / 1460 + doe / 36524 - doe / 146096) / 365 == k
        }),
{
    let h: int = if doe / 36524 < 3 { doe / 36524 } else { 3 };
    let w = doe - 36524 * h;
    let j: int = if w / 1461 < 24 { w / 1461 } else { 24 };
    let v = w - 1461 * j;
    let i: int = if v / 365 < 3 { v / 365 } else { 3 };
    let t = v - 365 * i;
    let k = 100 * h + 4 * j + i;
    assert(0 <= h <= 3 && 0 <= w <= 36524 && (h < 3 ==> w <= 36523));
    assert(0 <= j <= 24 && 0 <= v <= 1460);
    assert(j == 24 && h < 3 ==> v <= 1459);
    assert(0 <= i <= 3 && 0 <= t <= 365);
    assert(t == 365 ==> i == 3 && (j < 24 || h == 3));
    assert(k / 4 == 25 * h + j);
    assert(k / 100 == h);
    assert(doe == 36524 * h + 1461 * j + 365 * i + t);
    let e: int = if 24 * h + j + 365 * i + t >= 1460 { 1 } else { 0 };
    assert(doe / 1460 == 25 * h + j + e);
    assert(doe / 36524 - doe / 146096 == h);
    assert(doe - doe / 1460 + doe / 36524 - doe / 146096 == 365 * k + (t - e));
    assert(0 <= t - e <= 364);
    (k, t)
}

/// The month and day of a day of a year that begins in March.
proof fn month_of_day(doy: int)
    requires
        0 <= doy <= 365,
    ensures
        ({
            let mp = (5 * doy + 2) / 153;
            let d = doy - (153 * mp + 2) / 5 + 1;
            let m = if mp < 10 { mp + 3 } else { mp - 9 };
            &&& 0 <= mp <= 11
            &&& 1 <= m <= 12
            &&& 1 <= d <= 31
            &&& m == 2 ==> d <= 29 && (d == 29 ==> doy == 365)
            &&& (m == 4 || m == 6 || m == 9 || m == 11) ==> d <= 30
        }),
{
}

/// Leap years repeat every 400 years.
proof fn leap_repeats(e: int, k: int)
    ensures
        leap(400 * e + k) == leap(k),
{
    assert((400 * e + k) % 4 == k % 4);
    assert((400 * e + k) % 100 == k % 100);
    assert((400 * e + k) % 400 == k % 400);
}

/// The date that lies `days` after 1970-01-01. A year too large for the result
/// type loses its high bits.
pub fn civil_from_days(days: i64) -> (r: (i32, u32, u32))
    requires
        days + 719468 <= i64::MAX,
    ensures
        exists|y: int| #[trigger]
            day_number(y, r.1 as int, r.2 as int) == days && valid_date(y, r.1 as int, r.2 as int) && r.0 == y as i32,
{
    let z: i64 = days + 719468;
    let era: i64 = floor_div(z, 146097);
    proof {
        assert(z == 146097 * (era as int) + z % 146097);
    }
    let doe: i64 = z - era * 146097;
    let yoe: i64 = (doe - doe / 1460 + doe / 36524 - doe / 146096) / 365;
    let ghost pair = year_of_era(doe as int);
    let y1: i64 = yoe + era * 400;
    let doy: i64 = doe - (365 * yoe + yoe / 4 - yoe / 100);
    let mp: i64 = (5 * doy + 2) / 153;
    let d: i64 = doy - (153 * mp + 2) / 5 + 1;
    let m: i64 = if mp < 10 { mp + 3 } else { mp - 9 };
    let y: i64 = y1 + if m <= 2 { 1 } else { 0 };
    proof {
        let k = pair.0;
        let e = era as int;
        assert(yoe == k && doy == pair.1);
        assert(y1 / 4 == 100 * e + k / 4);
        assert(y1 / 100 == 4 * e + k / 100);
        assert(y1 / 400 == e);
        month_of_day(doy as int);
        leap_repeats(e, k + 1);
        assert(1 <= d <= month_length(y as int, m as int));
        march_count(y as int, m as int, d as int);
        assert(day_number(y as int, m as int, d as int) == days);
    }
    #[verifier::truncate]
    let short: i32 = y as i32;
    let r: (i32, u32, u32) = (short, m as u32, d as u32);
    proof {
        assert(day_number(y as int, r.1 as int, r.2 as int) == days);
    }
    r
}

/// A later year begins later, by at least 365 days for each year between.
proof fn years_count_up(a: int, b: int)
    requires
        a <= b,
    ensures
        days_before_year(b) >= days_before_year(a) + 365 * (b - a),
{
    let x = a - 1;
    let y = b - 1;
    assert(y / 4 - x / 4 >= y / 100 - x / 100) by {
        assert(x / 100 == (x / 4) / 25);
        assert(y / 100 == (y / 4) / 25);
    }
    assert(y / 400 >= x / 400);
}

/// A year has 365 days, a leap year one more.
proof fn year_step(y: int)
    ensures
        days_before_year(y + 1) == days_before_year(y) + 365 + (if leap(y) { 1int } else { 0 }),
{
    fourth_year(y);
    hundredth_year(y);
    four_hundredth_year(y);
}

proof fn fourth_year(y: int)
    ensures
        y / 4 - (y - 1) / 4 == if y % 4 == 0 { 1int } else { 0 },
{
}

proof fn hundredth_year(y: int)
    ensures
        y / 100 - (y - 1) / 100 == if y % 100 == 0 { 1int } else { 0 },
        y % 100 == 0 ==> y % 4 == 0,
{
}

proof fn four_hundredth_year(y: int)
    ensures
        y / 400 - (y - 1) / 400 == if y % 400 == 0 { 1int } else { 0 },
        y % 400 == 0 ==> y % 100 == 0,
{
}

/// A date lies within its year.
proof fn day_within_year(y: int, m: int, d: int)
    requires
        valid_date(y, m, d),
    ensures
        days_before_year(y) - days_before_year(1970) <= day_number(y, m, d)
            < days_before_year(y + 1) - days_before_year(1970),
{
    year_step(y);
}

/// No two dates of the calendar share a day: counting the days of a date and
/// reading the date back from the count gives the same date.
pub proof fn dates_and_days_correspond(y1: int, m1: int, d1: int, y2: int, m2: int, d2: int)
    requires
        valid_date(y1, m1, d1),
        valid_date(y2, m2, d2),
        day_number(y1, m1, d1) == day_number(y2, m2, d2),
    ensures
        y1 == y2 && m1 == m2 && d1 == d2,
{
    day_within_year(y1, m1, d1);
    day_within_year(y2, m2, d2);
    if y1 < y2 {
        years_count_up(y1 + 1, y2);
    }
    if y2 < y1 {
        years_count_up(y2 + 1, y1);
    }
}

/// The instant `secs` seconds after 1970-01-01T00:00:00Z.
pub open spec fn at_second(secs: int) -> Timestamp {
    Timestamp { secs: secs as i128, nanos: 0 }
}

/// The instant of Unix seconds; 0 means that no time was recorded.
pub open spec fn unix_view(secs: int) -> Option<Timestamp> {
    if secs == 0 { None } else { Some(at_second(secs)) }
}

/// Unix seconds as an instant; 0 means that no time was recorded.
pub fn unix_secs_to_systime(secs: u64) -> (r: Option<Timestamp>)
    ensures
        r == unix_view(secs as int),
{
    if secs != 0 {
        Some(Timestamp { secs: secs as i128, nanos: 0 })
    } else {
        None
    }
}

/// The ticks of 100 ns from 1601-01-01 to 1970-01-01.
pub const FILETIME_EPOCH_DIFF: u64 = 116_444_736_000_000_000;

/// The instant of a count of 100 ns ticks since 1601-01-01. No ticks, and a time
/// before 1970, are no time.
pub open spec fn filetime_view(ticks: int) -> Option<Timestamp> {
    let t = ticks - FILETIME_EPOCH_DIFF;
    if ticks == 0 || t < 0 {
        None
    } else {
        Some(Timestamp { secs: (t / 10_000_000) as i128, nanos: (t % 10_000_000 * 100) as u32 })
    }
}

/// A Windows `FILETIME` as an instant.
pub fn filetime_to_systime(ticks: u64) -> (r: Option<Timestamp>)
    ensures
        r == filetime_view(ticks as int),
{
    if ticks == 0 || ticks < FILETIME_EPOCH_DIFF {
        return None;
    }
    let t: u64 = ticks - FILETIME_EPOCH_DIFF;
    let secs: u64 = t / 10_000_000;
    let nanos: u64 = (t % 10_000_000) * 100;
    Some(Timestamp { secs: secs as i128, nanos: nanos as u32 })
}

/// A date and time that counts: from 1970 on, with a month and a day in range.
pub open spec fn civil_in_range(year: int, month: int, day: int) -> bool {
    year >= 1970 && 1 <= month <= 12 && 1 <= day <= 31
}

/// A date and time whose every field is in range. A minute may have a leap second.
pub open spec fn time_in_range(c: CivilTime) -> bool {
    civil_in_range(c.year as int, c.month as int, c.day as int) && c.hour < 24 && c.min < 60 && c.sec <= 60
}

/// The seconds from 1970-01-01T00:00:00Z to a UTC date and time.
pub open spec fn civil_seconds(c: CivilTime) -> int {
    day_number(c.year as int, c.month as int, c.day as int) * 86400 + c.hour * 3600 + c.min * 60 + c.sec
}

/// A date from 1970 on lies on or after the first day of 1970.
proof fn from_1970_on(y: int, m: int, d: int)
    requires
        civil_in_range(y, m, d),
    ensures
        day_number(y, m, d) >= 0,
        y <= i32::MAX ==> day_number(y, m, d) <= 800_000_000_000,
{
    years_count_up(1970, y);
    if y <= i32::MAX {
        years_count_up(y, 2147483647);
    }
}

/// The instant of a UTC date and time. Out-of-range fields and a date before 1970 are no
/// time.
pub open spec fn civil_view(c: CivilTime) -> Option<Timestamp> {
    if time_in_range(c) {
        Some(at_second(civil_seconds(c)))
    } else {
        None
    }
}

/// A UTC date and time as an instant. Out-of-range fields and a date before
/// 1970 are no time.
pub fn civil_to_systime(year: i32, month: u32, day: u32, hour: u64, min: u64, sec: u64) -> (r: Option<Timestamp>)
    ensures
        r == civil_view(CivilTime { year, month, day, hour, min, sec }),
{
    if year < 1970 || month < 1 || month > 12 || day < 1 || day > 31 || hour >= 24 || min >= 60 || sec > 60 {
        return None;
    }
    proof {
        from_1970_on(year as int, month as int, day as int);
    }
    match days_from_civil(year, month, day) {
        None => None,
        Some(days) => {
            let secs: u64 = days * 86400 + hour * 3600 + min * 60 + sec;
            Some(Timestamp { secs: secs as i128, nanos: 0 })
        },
    }
}

/// What the clock on the wall showed, if every field is in range.
pub open spec fn wall_clock(c: CivilTime) -> Option<CivilTime> {
    if time_in_range(c) {
        Some(c)
    } else {
        None
    }
}

/// A reading of the clock on the wall. Out-of-range fields and a date before
/// 1970 are no reading.
pub fn local_civil(c: CivilTime) -> (r: Option<CivilTime>)
    ensures
        r == wall_clock(c),
{
    if c.year < 1970 || c.month < 1 || c.month > 12 || c.day < 1 || c.day > 31 || c.hour >= 24 || c.min >= 60 || c.sec > 60 {
        None
    } else {
        Some(c)
    }
}

/// The instant of a wall-clock reading, given the answer of the time zone's rules in Unix
/// seconds, negative when they had none.
pub open spec fn zoned_view(c: CivilTime, zone_secs: int) -> Option<Timestamp> {
    if !time_in_range(c) {
        None
    } else if zone_secs < 0 {
        Some(at_second(civil_seconds(c)))
    } else {
        Some(at_second(zone_secs))
    }
}

/// The instant of a wall-clock reading, given what the time zone's rules made of
/// it: `zone_secs` is their answer in Unix seconds, negative when they had none.
/// Without an answer the reading is taken as UTC.
pub fn local_civil_to_systime(c: CivilTime, zone_secs: i64) -> (r: Option<Timestamp>)
    ensures
        r == zoned_view(c, zone_secs as int),
{
    match civil_to_systime(c.year, c.month, c.day, c.hour, c.min, c.sec) {
        None => None,
        Some(utc) => {
            if zone_secs < 0 {
                Some(utc)
            } else {
                Some(Timestamp { secs: zone_secs as i128, nanos: 0 })
            }
        },
    }
}

/// The seconds of a wall clock are those of the reading taken as UTC.
pub open spec fn reads_as(c: CivilTime, secs: int) -> bool {
    &&& valid_date(c.year as int, c.month as int, c.day as int)
    &&& civil_seconds(c) == secs
    &&& c.hour < 24 && c.min < 60 && c.sec < 60
}

/// The reading of a clock that shows a time `secs` seconds after 1970-01-01.
pub open spec fn reading_of(secs: int) -> CivilTime {
    choose|c: CivilTime| reads_as(c, secs)
}

/// A clock shows one reading at a time.
pub proof fn readings_are_unique(a: CivilTime, b: CivilTime, secs: int)
    requires
        reads_as(a, secs),
        reads_as(b, secs),
    ensures
        a == b,
{
    let da = day_number(a.year as int, a.month as int, a.day as int);
    let db = day_number(b.year as int, b.month as int, b.day as int);
    assert(da == db);
    dates_and_days_correspond(
        a.year as int,
        a.month as int,
        a.day as int,
        b.year as int,
        b.month as int,
        b.day as int,
    );
    assert(a.hour * 3600 + a.min * 60 + a.sec == b.hour * 3600 + b.min * 60 + b.sec);
    assert(a.hour == b.hour && a.min == b.min && a.sec == b.sec);
}

/// The most seconds whose year still fits the result type.
pub const MAX_WALL_SECS: u64 = 67_767_976_233_532_799;

/// A wall-clock time stored as seconds since 1970-01-01, split into a date and
/// a time of day.
pub fn local_unix_secs(secs: u64) -> (r: CivilTime)
    requires
        secs <= MAX_WALL_SECS,
    ensures
        reads_as(r, secs as int),
        r == reading_of(secs as int),
        civil_in_range(r.year as int, r.month as int, r.day as int),
{
    let days: i64 = (secs / 86_400) as i64;
    let rem: u64 = secs % 86_400;
    let (y, m, d) = civil_from_days(days);
    proof {
        let year = choose|y0: int| #[trigger]
            day_number(y0, m as int, d as int) == days && valid_date(y0, m as int, d as int) && y == y0 as i32;
        day_within_year(year, m as int, d as int);
        assert(days <= 784_351_576_776);
        assert(days_before_year(2147483648) - days_before_year(1970) == 784_351_576_776 + 1);
        if year >= 2147483648 {
            years_count_up(2147483648, year);
        }
        if year < 1970 {
            years_count_up(year + 1, 1970);
        }
        assert(y == year);
    }
    let c = CivilTime { year: y, month: m, day: d, hour: rem / 3600, min: (rem % 3600) / 60, sec: rem % 60 };
    proof {
        assert(reads_as(c, secs as int));
        readings_are_unique(c, reading_of(secs as int), secs as int);
    }
    c
}

/// The wall clock of a pair of packed MS-DOS words.
pub open spec fn dos_civil(date: u16, time: u16) -> CivilTime {
    CivilTime {
        year: (1980 + date / 512) as i32,
        month: (date / 32 % 16) as u32,
        day: (date % 32) as u32,
        hour: (time / 2048) as u64,
        min: (time / 32 % 64) as u64,
        sec: (time % 32 * 2) as u64,
    }
}

/// A pair of packed MS-DOS words as a wall-clock reading.
pub fn dos_words_to_systime(date: u16, time: u16) -> (r: Option<CivilTime>)
    ensures
        r == wall_clock(dos_civil(date, time)),
{
    local_civil(CivilTime {
        year: 1980 + (date / 512) as i32,
        month: (date / 32 % 16) as u32,
        day: (date % 32) as u32,
        hour: (time / 2048) as u64,
        min: (time / 32 % 64) as u64,
        sec: (time % 32) as u64 * 2,
    })
}

/// The days of a month as the calendar has them.
pub open spec fn days_in(y: int, m: int) -> int {
    if m == 2 {
        if y % 400 == 0 || y % 4 == 0 && y % 100 != 0 { 29 } else { 28 }
    } else if m == 4 || m == 6 || m == 9 || m == 11 {
        30
    } else {
        31
    }
}

/// The days are counted from the first of January 1970, and each date of the calendar is
/// one day after the date before it: within its month, at the end of its month, and at
/// the end of its year.
#[verifier::rlimit(40)]
pub proof fn days_are_counted(y: int, m: int, d: int)
    requires
        1 <= m <= 12,
        1 <= d <= days_in(y, m),
    ensures
        day_number(1970, 1, 1) == 0,
        d < days_in(y, m) ==> day_number(y, m, d + 1) == day_number(y, m, d) + 1,
        d == days_in(y, m) && m < 12 ==> day_number(y, m + 1, 1) == day_number(y, m, d) + 1,
        d == days_in(y, m) && m == 12 ==> day_number(y + 1, 1, 1) == day_number(y, m, d) + 1,
        valid_date(y, m, d),
        !valid_date(y, m, 0) && !valid_date(y, m, days_in(y, m) + 1),
{
    assert(days_in(y, m) == month_length(y, m)) by {
        hundredth_year(y);
        four_hundredth_year(y);
    }
    if d == days_in(y, m) {
        if m < 12 {
            next_month_follows(y, m, d);
        } else {
            year_step(y);
        }
    }
}

#[verifier::rlimit(40)]
proof fn next_month_follows(y: int, m: int, d: int)
    requires
        1 <= m < 12,
        d == month_length(y, m),
    ensures
        day_number(y, m + 1, 1) == day_number(y, m, d) + 1,
{
    let b = days_before_year(y);
    assert(day_number(y, m + 1, 1) - day_number(y, m, d) == days_before_month(m + 1) - days_before_month(m) - d + 1 + (
    if m == 2 && leap(y) { 1int } else { 0 }));
}

/// The seconds of a date and a time of day count on from second to second, from minute to
/// minute, from hour to hour and from day to day, from the first second of 1970 on.
#[verifier::rlimit(40)]
pub proof fn seconds_are_counted(c: CivilTime)
    requires
        c.hour < 24,
        c.min < 60,
        c.sec < 60,
    ensures
        civil_seconds(CivilTime { year: 1970, month: 1, day: 1, hour: 0, min: 0, sec: 0 }) == 0,
        civil_seconds(CivilTime { sec: (c.sec + 1) as u64, ..c }) == civil_seconds(c) + 1,
        c.min < 59 ==> civil_seconds(CivilTime { min: (c.min + 1) as u64, sec: 0, ..c }) == civil_seconds(
            CivilTime { sec: 59, ..c },
        ) + 1,
        c.hour < 23 ==> civil_seconds(CivilTime { hour: (c.hour + 1) as u64, min: 0, sec: 0, ..c }) == civil_seconds(
            CivilTime { min: 59, sec: 59, ..c },
        ) + 1,
        c.day < 31 ==> civil_seconds(CivilTime { day: (c.day + 1) as u32, hour: 0, min: 0, sec: 0, ..c })
            == civil_seconds(CivilTime { hour: 23, min: 59, sec: 59, ..c }) + 1,
{
}

/// A `FILETIME` counts ticks of 100 ns from the first of January 1601, so many days before
/// 1970 as the calendar has, of 86400 seconds each. A time before 1970 is none, and so is
/// no tick at all.
#[verifier::rlimit(40)]
pub proof fn filetime_counts_from_1601(secs: int, ticks: int)
    requires
        0 <= ticks < 10_000_000,
        secs <= 0x1_0000_0000_0000,
    ensures
        ({
            let all = (secs - 86400 * day_number(1601, 1, 1)) * 10_000_000 + ticks;
            match filetime_view(all) {
                Some(t) => secs >= 0 && t.secs == secs && t.nanos == 100 * ticks,
                None => secs < 0,
            }
        }),
        filetime_view(0) is None,
{
    assert(day_number(1601, 1, 1) == -134774);
}

/// A date and a time of day that are packed into MS-DOS words read back: seven bits of
/// years from 1980 on, four of the month, five of the day; five bits of the hour, six of
/// the minute and five of every second second. One that no clock shows is none.
#[verifier::rlimit(40)]
pub proof fn dos_words_read_back(year: int, month: int, day: int, hour: int, min: int, half: int)
    requires
        1980 <= year < 2108,
        0 <= month < 16,
        0 <= day < 32,
        0 <= hour < 32,
        0 <= min < 64,
        0 <= half < 32,
    ensures
        ({
            let date = ((year - 1980) * 512 + month * 32 + day) as u16;
            let time = (hour * 2048 + min * 32 + half) as u16;
            match wall_clock(dos_civil(date, time)) {
                Some(c) => c.year == year && c.month == month && c.day == day && c.hour == hour && c.min == min && c.sec == 2
                    * half && 1 <= month <= 12 && 1 <= day && hour < 24 && min < 60 && half <= 30,
                None => month == 0 || month > 12 || day == 0 || hour >= 24 || min >= 60 || half > 30,
            }
        }),
{
    let date = ((year - 1980) * 512 + month * 32 + day) as u16;
    let time = (hour * 2048 + min * 32 + half) as u16;
    assert(date == (year - 1980) * 512 + month * 32 + day);
    assert(date as int / 512 == year - 1980 && date as int / 32 == (year - 1980) * 16 + month && date as int % 32 == day);
    assert(time as int / 2048 == hour && time as int / 32 == hour * 64 + min && time as int % 32 == half);
}

/// What a clock shows is its reading, and from 1970 on no seconds are missing.
#[verifier::rlimit(40)]
pub proof fn clocks_show_their_reading(c: CivilTime, secs: int)
    requires
        reads_as(c, secs),
    ensures
        reading_of(secs) == c,
        c.year >= 1970 ==> secs >= 0,
{
    readings_are_unique(c, reading_of(secs), secs);
    if c.year >= 1970 {
        years_count_up(1970, c.year as int);
    }
}

/// Unix seconds are the seconds of the instant that they stand for; none are no instant.
pub proof fn unix_seconds_read_back(secs: int)
    requires
        i64::MIN <= secs <= u64::MAX,
    ensures
        match unix_view(secs) {
            Some(t) => t.secs == secs && t.nanos == 0 && secs != 0,
            None => secs == 0,
        },
{
}

/// A date and a time of day that a clock shows from 1970 on are the instant whose seconds
/// they read as. Any other is no instant.
#[verifier::rlimit(40)]
pub proof fn shown_times_are_instants(c: CivilTime, secs: int)
    requires
        c.year >= 1970,
        reads_as(c, secs),
    ensures
        civil_view(c) matches Some(t) && t.secs == secs && t.nanos == 0,
        zoned_view(c, -1) == civil_view(c),
{
    from_1970_on(c.year as int, c.month as int, c.day as int);
}

/// A date before 1970, a thirteenth month, a day 0 or 32, an hour 24, a minute 60 and a
/// second 61 are no time.
pub proof fn impossible_times_are_none(c: CivilTime, zone_secs: int)
    requires
        c.year < 1970 || c.month == 0 || c.month > 12 || c.day == 0 || c.day > 31 || c.hour > 23 || c.min > 59 || c.sec > 60,
    ensures
        civil_view(c) is None,
        zoned_view(c, zone_secs) is None,
        wall_clock(c) is None,
{
}

/// The rules of the time zone decide which instant a reading of the clock is, if they have
/// an answer.
pub proof fn time_zones_decide(c: CivilTime, zone_secs: int)
    requires
        civil_view(c) is Some,
        0 <= zone_secs <= i64::MAX,
    ensures
        zoned_view(c, zone_secs) matches Some(t) && t.secs == zone_secs && t.nanos == 0,
        wall_clock(c) == Some(c),
{
}

} // verus!
