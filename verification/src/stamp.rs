//! The wall clock, as the fields a person reads it in.

use std::time::SystemTime;
use vstd::prelude::*;
use crate::text;
use crate::text::{push_decimal, push_str, push_two};

verus! {

// ── the calendar ────────────────────────────────────────────────────────────

/// Leap years of the civil calendar.
pub open spec fn leap(year: int) -> bool {
    year % 4 == 0 && (year % 100 != 0 || year % 400 == 0)
}

/// Days in a month.
pub open spec fn month_len(year: int, month: int) -> int {
    if month == 2 {
        if leap(year) {
            29
        } else {
            28
        }
    } else if month == 4 || month == 6 || month == 9 || month == 11 {
        30
    } else {
        31
    }
}

/// Whether a date exists.
pub open spec fn valid_date(year: int, month: int, day: int) -> bool {
    1 <= month <= 12 && 1 <= day <= month_len(year, month)
}

/// Days since 1970-01-01, counting years from March so that the leap day ends
/// one.
pub open spec fn day_number(year: int, month: int, day: int) -> int {
    let y = if month <= 2 {
        year - 1
    } else {
        year
    };
    let m = if month <= 2 {
        month + 9
    } else {
        month - 3
    };
    365 * y + y / 4 - y / 100 + y / 400 + (153 * m + 2) / 5 + day - 1 - 719468
}

/// The date after a date.
pub open spec fn next_date(year: int, month: int, day: int) -> (int, int, int) {
    if day < month_len(year, month) {
        (year, month, day + 1)
    } else if month < 12 {
        (year, month + 1, 1)
    } else {
        (year + 1, 1, 1)
    }
}

/// Day numbers count the days of the calendar: they start at 1970-01-01 and go
/// up by one with every date.
pub proof fn day_numbers_count_dates(year: int, month: int, day: int)
    requires
        valid_date(year, month, day),
    ensures
        day_number(1970, 1, 1) == 0,
        ({
            let (y, m, d) = next_date(year, month, day);
            valid_date(y, m, d) && day_number(y, m, d) == day_number(year, month, day) + 1
        }),
{
    if month == 2 && day == month_len(year, month) {
        lemma_year_len(year);
    }
}

/// A March year is a day longer when the February it ends with is.
proof fn lemma_year_len(year: int)
    ensures
        ({
            let y = year - 1;
            365 * year + year / 4 - year / 100 + year / 400 == 365 * y + y / 4 - y / 100 + y / 400
                + 365 + if leap(year) {
                1int
            } else {
                0
            }
        }),
{
    let y = year - 1;
    assert(year / 4 == y / 4 + if year % 4 == 0 { 1int } else { 0 });
    assert(year / 100 == y / 100 + if year % 100 == 0 { 1int } else { 0 });
    assert(year / 400 == y / 400 + if year % 400 == 0 { 1int } else { 0 });
    assert(year % 400 == 0 ==> year % 100 == 0);
    assert(year % 100 == 0 ==> year % 4 == 0);
}

/// A moment as the fields a person reads it in.
#[derive(Debug, PartialEq, Eq, Structural)]
pub struct Stamp {
    pub year: i64,
    pub month: u32,
    pub day: u32,
    pub hour: u32,
    pub min: u32,
    pub sec: u32,
}

/// Whether `s` is the civil date and time of the Unix second `secs`.
pub open spec fn stamps(s: Stamp, secs: int) -> bool {
    &&& valid_date(s.year as int, s.month as int, s.day as int)
    &&& day_number(s.year as int, s.month as int, s.day as int) == secs / 86400
    &&& s.hour < 24 && s.min < 60 && s.sec < 60
    &&& s.hour * 3600 + s.min * 60 + s.sec == secs % 86400
}

/// Whether one date comes before another.
pub open spec fn date_before(a: (int, int, int), b: (int, int, int)) -> bool {
    a.0 < b.0 || (a.0 == b.0 && (a.1 < b.1 || (a.1 == b.1 && a.2 < b.2)))
}

/// Whether one stamp reads earlier than another, field by field.
pub open spec fn reads_before(s: Stamp, t: Stamp) -> bool {
    let (a, b) = (
        (s.year as int, s.month as int, s.day as int),
        (t.year as int, t.month as int, t.day as int),
    );
    date_before(a, b) || (a == b && date_before(
        (s.hour as int, s.min as int, s.sec as int),
        (t.hour as int, t.min as int, t.sec as int),
    ))
}

proof fn lemma_years_in_order(y: int, z: int)
    requires
        y <= z,
    ensures
        day_number(y, 12, 31) < day_number(z + 1, 1, 1),
    decreases z - y,
{
    if y < z {
        lemma_years_in_order(y, z - 1);
        lemma_year_len(z);
    }
}

proof fn lemma_dates_in_order(y: int, m: int, d: int, z: int, n: int, e: int)
    requires
        valid_date(y, m, d),
        valid_date(z, n, e),
        date_before((y, m, d), (z, n, e)),
    ensures
        day_number(y, m, d) < day_number(z, n, e),
{
    lemma_year_len(y);
    lemma_year_len(z);
    assert(day_number(y, m, d) <= day_number(y, 12, 31));
    assert(day_number(z, 1, 1) <= day_number(z, n, e));
    if y < z {
        lemma_years_in_order(y, z - 1);
    }
}

/// Stamps read in the order of the moments they stand for, and no two moments read the
/// same.
pub proof fn stamps_are_in_order(s: Stamp, a: int, t: Stamp, b: int)
    requires
        stamps(s, a),
        stamps(t, b),
    ensures
        a < b <==> reads_before(s, t),
        a == b <==> s == t,
{
    let p = (s.year as int, s.month as int, s.day as int);
    let q = (t.year as int, t.month as int, t.day as int);
    if date_before(p, q) {
        lemma_dates_in_order(p.0, p.1, p.2, q.0, q.1, q.2);
    } else if date_before(q, p) {
        lemma_dates_in_order(q.0, q.1, q.2, p.0, p.1, p.2);
    }
}

/// Where day `doe` of a 400-year era falls: its year counted from March.
proof fn lemma_era(doe: int, yoe: int)
    requires
        0 <= doe < 146097,
        yoe == (doe - doe / 1460 + doe / 36524 - doe / 146096) / 365,
    ensures
        0 <= yoe < 400,
        365 * yoe + yoe / 4 - yoe / 100 <= doe,
        doe < 365 * (yoe + 1) + (yoe + 1) / 4 - (yoe + 1) / 100 + (yoe + 1) / 400,
{
    let c = if doe == 146096 {
        3
    } else {
        doe / 36524
    };
    let r = doe - 36524 * c;
    let q = if r == 36524 {
        24
    } else {
        r / 1461
    };
    let s = r - 1461 * q;
    let t = if s >= 1460 {
        3
    } else {
        s / 365
    };
    let u = s - 365 * t;
    assert(0 <= c <= 3);
    assert(0 <= r <= 36524);
    assert(0 <= q <= 24);
    assert(0 <= s <= 1460);
    assert(0 <= t <= 3);
    assert(0 <= u <= 365);
    let y = 100 * c + 4 * q + t;
    assert(doe == 36524 * c + 1461 * q + 365 * t + u);
    lemma_era_start(c, q, t);
    lemma_era_year(c, q, t, u, doe);
}

proof fn lemma_era_start(c: int, q: int, t: int)
    requires
        0 <= c <= 3,
        0 <= q <= 24,
        0 <= t <= 3,
    ensures
        ({
            let y = 100 * c + 4 * q + t;
            &&& y / 4 == 25 * c + q
            &&& y / 100 == c
            &&& (y + 1) / 4 == 25 * c + q + if t == 3 { 1int } else { 0 }
            &&& (y + 1) / 100 == c + if t == 3 && q == 24 { 1int } else { 0 }
            &&& (y + 1) / 400 == if t == 3 && q == 24 && c == 3 { 1int } else { 0 }
        }),
{
}

proof fn lemma_era_year(c: int, q: int, t: int, u: int, doe: int)
    requires
        0 <= c <= 3,
        0 <= q <= 24,
        0 <= t <= 3,
        0 <= u <= 365,
        u == 365 ==> t == 3,
        u == 365 && q == 24 ==> c == 3,
        doe == 36524 * c + 1461 * q + 365 * t + u,
    ensures
        (doe - doe / 1460 + doe / 36524 - doe / 146096) / 365 == 100 * c + 4 * q + t,
{
    let y = 100 * c + 4 * q + t;
    // Whole four-year cycles begun: one day over 1460 for each of them so far.
    assert(doe / 36524 == c + if u == 365 && q == 24 { 1int } else { 0 });
    assert(doe / 146096 == if u == 365 && q == 24 { 1int } else { 0 });
    let k = doe / 1460;
    assert(365 * y <= doe - k + c < 365 * (y + 1)) by {
        assert(doe == 1460 * (25 * c + q) + 24 * c + q + 365 * t + u);
        let over = 24 * c + q + 365 * t + u;
        assert(0 <= over <= 24 * 3 + 24 + 1095 + 365);
        assert(k == 25 * c + q + over / 1460);
    }
}

proof fn lemma_floor(a: int, b: int)
    requires
        a < 0,
        b > 1,
    ensures
        ({
            let m = -(a + 1);
            &&& a / b == -(m / b) - 1
            &&& a % b == b - 1 - m % b
        }),
{
    let m = -(a + 1);
    let k = m / b;
    let r = m % b;
    vstd::arithmetic::div_mod::lemma_fundamental_div_mod(m, b);
    vstd::arithmetic::div_mod::lemma_mod_bound(m, b);
    assert(a == (-k - 1) * b + (b - 1 - r)) by (nonlinear_arith)
        requires
            m == -(a + 1),
            m == b * k + r,
    ;
    vstd::arithmetic::div_mod::lemma_fundamental_div_mod_converse(a, b, -k - 1, b - 1 - r);
}

fn floor_div(a: i64, b: i64) -> (q: i64)
    requires
        b > 1,
    ensures
        q == a as int / b as int,
{
    if a >= 0 {
        a / b
    } else {
        proof {
            lemma_floor(a as int, b as int);
            vstd::arithmetic::div_mod::lemma_div_nonincreasing(-(a as int + 1), b as int);
            vstd::arithmetic::div_mod::lemma_div_pos_is_pos(-(a as int + 1), b as int);
        }
        -((-(a + 1)) / b) - 1
    }
}

fn floor_mod(a: i64, b: i64) -> (r: i64)
    requires
        b > 1,
    ensures
        r == a as int % b as int,
{
    if a >= 0 {
        a % b
    } else {
        proof {
            lemma_floor(a as int, b as int);
            vstd::arithmetic::div_mod::lemma_mod_bound(-(a as int + 1), b as int);
        }
        b - 1 - (-(a + 1)) % b
    }
}

/// The date of day `doy` of the March year `yoe` of era `era`.
proof fn lemma_date(era: int, yoe: int, doy: int)
    requires
        0 <= yoe < 400,
        0 <= doy,
        365 * yoe + yoe / 4 - yoe / 100 + doy < 365 * (yoe + 1) + (yoe + 1) / 4 - (yoe + 1) / 100
            + (yoe + 1) / 400,
    ensures
        ({
            let mp = (5 * doy + 2) / 153;
            let month = if mp < 10 {
                mp + 3
            } else {
                mp - 9
            };
            let year = yoe + era * 400 + if month <= 2 {
                1int
            } else {
                0
            };
            let day = doy - (153 * mp + 2) / 5 + 1;
            &&& doy <= 365
            &&& valid_date(year, month, day)
            &&& day_number(year, month, day) == 146097 * era + 365 * yoe + yoe / 4 - yoe / 100
                + doy - 719468
        }),
{
    let y = yoe + 400 * era;
    assert(y / 4 == yoe / 4 + 100 * era);
    assert(y / 100 == yoe / 100 + 4 * era);
    assert(y / 400 == era);
    assert((y + 1) / 4 == (yoe + 1) / 4 + 100 * era);
    assert((y + 1) / 100 == (yoe + 1) / 100 + 4 * era);
    assert((y + 1) / 400 == (yoe + 1) / 400 + era);
    lemma_year_len(y + 1);
    assert(doy == 365 ==> leap(y + 1));
    let mp = (5 * doy + 2) / 153;
    assert(0 <= mp <= 11);
}

/// Civil date and time of a Unix timestamp — exact for every date, leap years
/// and century rules included.
pub fn stamp(secs: i64) -> (s: Stamp)
    ensures
        stamps(s, secs as int),
{
    let days: i64 = floor_div(secs, 86_400);
    let rest: i64 = floor_mod(secs, 86_400);
    let z: i64 = days + 719_468;
    let era: i64 = floor_div(z, 146_097);
    let doe: i64 = floor_mod(z, 146_097);
    let yoe: i64 = (doe - doe / 1_460 + doe / 36_524 - doe / 146_096) / 365;
    proof {
        lemma_era(doe as int, yoe as int);
    }
    let doy: i64 = doe - (365 * yoe + yoe / 4 - yoe / 100);
    proof {
        lemma_date(era as int, yoe as int, doy as int);
    }
    let mp: i64 = (5 * doy + 2) / 153;
    let month: i64 = if mp < 10 {
        mp + 3
    } else {
        mp - 9
    };
    let year: i64 = yoe + era * 400 + if month <= 2 {
        1
    } else {
        0
    };
    let day: i64 = doy - (153 * mp + 2) / 5 + 1;
    Stamp {
        year,
        month: month as u32,
        day: day as u32,
        hour: (rest / 3_600) as u32,
        min: (rest % 3_600 / 60) as u32,
        sec: (rest % 60) as u32,
    }
}

// ── writing it down ─────────────────────────────────────────────────────────

/// A number at least two digits long.
pub open spec fn two(n: int) -> Seq<char> {
    text::zero_padded(text::decimal(n as nat), 2)
}

/// A year at least four characters long, its sign included.
pub open spec fn four(year: int) -> Seq<char> {
    if year >= 0 {
        text::zero_padded(text::decimal(year as nat), 4)
    } else {
        seq!['-'] + text::zero_padded(text::decimal((-year) as nat), 3)
    }
}

/// `YYYY-MM-DD`.
pub open spec fn date_text(s: Stamp) -> Seq<char> {
    four(s.year as int) + seq!['-'] + two(s.month as int) + seq!['-'] + two(s.day as int)
}

/// `HH:MM:SS`.
pub open spec fn time_text(s: Stamp) -> Seq<char> {
    two(s.hour as int) + seq![':'] + two(s.min as int) + seq![':'] + two(s.sec as int)
}

fn push_padded(out: &mut String, n: u64, width: usize)
    requires
        width <= 4,
    ensures
        final(out)@ == old(out)@ + text::zero_padded(text::decimal(n as nat), width as nat),
{
    let mut digits: Vec<char> = text::decimal_chars(n);
    while digits.len() < width
        invariant
            width <= 4,
            text::zero_padded(digits@, width as nat) == text::zero_padded(
                text::decimal(n as nat),
                width as nat,
            ),
        decreases width - digits.len(),
    {
        let ghost was = digits@;
        digits.insert(0, '0');
        assert(digits@ =~= seq!['0'] + was);
    }
    text::push_chars(out, digits.as_slice());
}

impl Stamp {
    /// `YYYY-MM-DD` — the transcript's directory, and what "dated file" means.
    pub fn date(&self) -> (t: String)
        ensures
            t@ == date_text(*self),
    {
        let mut t: String = String::new();
        if self.year >= 0 {
            push_padded(&mut t, self.year as u64, 4);
        } else {
            t.push('-');
            let back: u64 = (-(self.year as i128)) as u64;
            push_padded(&mut t, back, 3);
        }
        assert(t@ =~= four(self.year as int));
        t.push('-');
        push_two(&mut t, self.month as u64);
        t.push('-');
        push_two(&mut t, self.day as u64);
        assert(t@ =~= date_text(*self));
        t
    }

    /// `HH:MM:SS` for the markers inside a transcript.
    pub fn time(&self) -> (t: String)
        ensures
            t@ == time_text(*self),
    {
        let mut t: String = String::new();
        push_two(&mut t, self.hour as u64);
        t.push(':');
        push_two(&mut t, self.min as u64);
        t.push(':');
        push_two(&mut t, self.sec as u64);
        assert(t@ =~= time_text(*self));
        t
    }

    /// `HHMMSS` for the file name, where colons would be unwelcome.
    pub fn compact(&self) -> (t: String)
        ensures
            t@ == two(self.hour as int) + two(self.min as int) + two(self.sec as int),
    {
        let mut t: String = String::new();
        push_two(&mut t, self.hour as u64);
        push_two(&mut t, self.min as u64);
        push_two(&mut t, self.sec as u64);
        assert(t@ =~= two(self.hour as int) + two(self.min as int) + two(self.sec as int));
        t
    }

    /// `YYYY-MM-DD HH:MM:SS`.
    pub fn full(&self) -> (t: String)
        ensures
            t@ == date_text(*self) + seq![' '] + time_text(*self),
    {
        let mut t: String = self.date();
        t.push(' ');
        let time: String = self.time();
        push_str(&mut t, time.as_str());
        assert(t@ =~= date_text(*self) + seq![' '] + time_text(*self));
        t
    }
}

// ── local time ──────────────────────────────────────────────────────────────

/// How long a reading of the local offset is good for, in nanoseconds.
pub const FRESH: u64 = 60_000_000_000;

/// The last reading of the offset between UTC and local time: when it was made
/// (nanoseconds on a monotonic clock), and the seconds it found.
pub struct OffsetCache {
    pub read: Option<(u64, i64)>,
}

#[verifier::external_type_specification]
#[verifier::external_body]
pub struct ExSystemTime(SystemTime);

/// `SystemTime::now`: the system clock, about which nothing can be promised.
#[verifier::external_body]
fn system_now() -> (t: SystemTime) {
    SystemTime::now()
}

/// The whole seconds from the Unix epoch to a moment; `None` for one before it.
pub uninterp spec fn since_epoch(t: SystemTime) -> Option<u64>;

/// `SystemTime::duration_since` the Unix epoch, in whole seconds, a function of the
/// moment alone; `None` for a clock set before the epoch.
#[verifier::external_body]
fn epoch_seconds(t: SystemTime) -> (secs: Option<u64>)
    ensures
        secs == since_epoch(t),
{
    t.duration_since(SystemTime::UNIX_EPOCH).ok().map(|since| since.as_secs())
}

/// `rusqlite::Connection::query_row` on an in-memory database, asking SQLite how
/// many seconds local time is ahead of UTC. What it answers is the machine's
/// time zone, so nothing is promised of it; `None` when it cannot answer.
#[verifier::external_body]
fn sqlite_offset() -> (offset: Option<i64>) {
    rusqlite::Connection::open_in_memory()
        .and_then(|db| {
            db.query_row(
                "SELECT CAST(strftime('%s', datetime('now','localtime')) AS INTEGER) \
                      - CAST(strftime('%s', 'now') AS INTEGER)",
                [],
                |row| row.get(0),
            )
        })
        .ok()
}

/// Whether a reading of the offset is still good at `mono`.
pub open spec fn fresh(cache: OffsetCache, mono: u64) -> bool {
    cache.read matches Some((at, _)) && (if mono >= at {
        mono - at
    } else {
        0
    }) < FRESH
}

/// The offset an answer stands for: none counts as no offset at all.
pub open spec fn offset_of(answer: Option<i64>) -> i64 {
    match answer {
        Some(offset) => offset,
        None => 0,
    }
}

/// A reading of the offset made at `mono`, kept in the cache; without an answer local
/// time is taken for UTC.
pub fn offset_read(cache: &mut OffsetCache, answer: Option<i64>, mono: u64) -> (offset: i64)
    ensures
        offset == offset_of(answer),
        final(cache).read == Some((mono, offset)),
{
    let offset: i64 = match answer {
        Some(offset) => offset,
        None => 0,
    };
    cache.read = Some((mono, offset));
    offset
}

/// Seconds between UTC and this machine's local time, re-read once the cached
/// reading is a minute old: a daylight-saving change must not leave every
/// marker an hour off.
pub fn local_offset(cache: &mut OffsetCache, mono: u64) -> (offset: i64)
    ensures
        fresh(*old(cache), mono) ==> *final(cache) == *old(cache) && (old(cache).read matches Some(
            (_, read),
        ) && read == offset),
        !fresh(*old(cache), mono) ==> final(cache).read == Some((mono, offset)),
{
    if let Some((at, offset)) = cache.read {
        if mono.saturating_sub(at) < FRESH {
            return offset;
        }
    }
    offset_read(cache, sqlite_offset(), mono)
}

/// The local Unix second: `unix` shifted by `offset`, held to what fits.
pub open spec fn local_second(unix: Option<u64>, offset: i64) -> int {
    let u = match unix {
        Some(u) if u <= i64::MAX => u as int,
        Some(u) => i64::MAX as int,
        None => 0,
    };
    if u + offset > i64::MAX {
        i64::MAX as int
    } else {
        u + offset
    }
}

/// The wall clock showing `unix` seconds since the epoch, `offset` seconds ahead
/// of UTC. A clock before the epoch reads as the epoch.
pub fn local_stamp(unix: Option<u64>, offset: i64) -> (s: Stamp)
    ensures
        stamps(s, local_second(unix, offset)),
{
    let unix: i64 = match unix {
        Some(u) => if u <= i64::MAX as u64 {
            u as i64
        } else {
            i64::MAX
        },
        None => 0,
    };
    let shifted: i64 = if offset > 0 && unix > i64::MAX - offset {
        i64::MAX
    } else {
        unix + offset
    };
    stamp(shifted)
}

/// Whether `s` is what a wall clock `offset` seconds ahead of UTC shows at `t`.
pub open spec fn shows(s: Stamp, t: SystemTime, offset: i64) -> bool {
    stamps(s, local_second(since_epoch(t), offset))
}

/// Local wall clock, now: what it shows at the moment the system clock was read, with
/// the offset that is then in the cache.
pub fn now(cache: &mut OffsetCache, mono: u64) -> (s: Stamp)
    ensures
        fresh(*old(cache), mono) ==> *final(cache) == *old(cache),
        final(cache).read matches Some((at, offset)) && (!fresh(*old(cache), mono) ==> at == mono)
            && (exists|t: SystemTime| #[trigger] shows(s, t, offset)),
{
    let t: SystemTime = system_now();
    let unix: Option<u64> = epoch_seconds(t);
    let offset: i64 = local_offset(cache, mono);
    let s: Stamp = local_stamp(unix, offset);
    assert(shows(s, t, offset));
    assert(cache.read matches Some((_, read)) && read == offset);
    s
}

/// A moment `ago` before `now` on the monotonic clock, used to arm a throttled
/// check so it fires on the very next pass; `now` itself when the clock has not
/// run that long, and the check then fires one interval later.
pub fn stale(now: u64, ago: u64) -> (t: u64)
    ensures
        t == if now >= ago {
            (now - ago) as u64
        } else {
            now
        },
{
    if now >= ago {
        now - ago
    } else {
        now
    }
}

// ── what a stamp says ───────────────────────────────────────────────────────

/// A number below a hundred is shown in two digits.
pub proof fn two_digits_are_shown(n: int)
    requires
        0 <= n < 100,
    ensures
        two(n) == seq![(48 + n / 10) as char, (48 + n % 10) as char],
{
    reveal_with_fuel(text::decimal, 3);
    reveal_with_fuel(text::zero_padded, 3);
    let d = text::decimal(n as nat);
    if n < 10 {
        assert(d =~= seq![(48 + n) as char]);
        assert(seq!['0'] + d =~= seq!['0', (48 + n) as char]);
        assert(two(n) =~= seq!['0', (48 + n) as char]);
    } else {
        assert(text::decimal((n / 10) as nat) =~= seq![(48 + n / 10) as char]);
        assert(d =~= seq![(48 + n / 10) as char, (48 + n % 10) as char]);
        assert(two(n) =~= d);
    }
}

/// A year of four digits is shown in four; the date and the time are shown largest part
/// first.
pub proof fn a_stamp_is_shown_largest_part_first(s: Stamp)
    requires
        1000 <= s.year <= 9999,
        s.month < 100 && s.day < 100 && s.hour < 100 && s.min < 100 && s.sec < 100,
    ensures
        date_text(s).len() == 10,
        time_text(s).len() == 8,
        text::value(date_text(s).take(4)) == s.year,
        date_text(s)[4] == '-' && date_text(s)[7] == '-',
        date_text(s).subrange(5, 7) == two(s.month as int),
        date_text(s).subrange(8, 10) == two(s.day as int),
        time_text(s).subrange(0, 2) == two(s.hour as int),
        time_text(s)[2] == ':' && time_text(s)[5] == ':',
        time_text(s).subrange(3, 5) == two(s.min as int),
        time_text(s).subrange(6, 8) == two(s.sec as int),
{
    two_digits_are_shown(s.month as int);
    two_digits_are_shown(s.day as int);
    two_digits_are_shown(s.hour as int);
    two_digits_are_shown(s.min as int);
    two_digits_are_shown(s.sec as int);
    let y = s.year as nat;
    text::decimal_reads_back(y);
    assert(text::decimal(y).len() == 4) by {
        reveal_with_fuel(text::decimal, 5);
    }
    assert(four(s.year as int) == text::decimal(y));
    let d = date_text(s);
    let t = time_text(s);
    assert(d.take(4) =~= text::decimal(y));
    assert(d.subrange(5, 7) =~= two(s.month as int));
    assert(d.subrange(8, 10) =~= two(s.day as int));
    assert(t.subrange(0, 2) =~= two(s.hour as int));
    assert(t.subrange(3, 5) =~= two(s.min as int));
    assert(t.subrange(6, 8) =~= two(s.sec as int));
}

/// Every fourth year has a day more, but of the full centuries only every fourth; the
/// months are as long as they are.
pub proof fn months_are_as_long_as_they_are(year: int, month: int)
    requires
        1 <= month <= 12,
    ensures
        month == 2 && year % 4 != 0 ==> month_len(year, month) == 28,
        month == 2 && year % 4 == 0 && year % 100 != 0 ==> month_len(year, month) == 29,
        month == 2 && year % 100 == 0 && year % 400 != 0 ==> month_len(year, month) == 28,
        month == 2 && year % 400 == 0 ==> month_len(year, month) == 29,
        month != 2 ==> month_len(year, month) == seq![
            31int,
            28,
            31,
            30,
            31,
            30,
            31,
            31,
            30,
            31,
            30,
            31,
        ][month - 1],
{
}

/// The offset of the local time is read again after a minute, and a reading that failed
/// is no offset.
pub proof fn an_offset_is_good_for_a_minute(at: u64, offset: i64, mono: u64)
    ensures
        fresh(OffsetCache { read: Some((at, offset)) }, mono) <==> mono < at + 60_000_000_000,
        !fresh(OffsetCache { read: None }, mono),
        offset_of(Some(offset)) == offset,
        offset_of(None) == 0,
{
}

/// The local time is the time everywhere, and the offset more; a clock from before the
/// epoch shows the epoch.
pub proof fn local_time_is_the_offset_more(unix: u64, offset: i64)
    requires
        unix + offset <= i64::MAX,
        unix <= i64::MAX,
    ensures
        local_second(Some(unix), offset) == unix + offset,
        local_second(None, offset) == offset,
{
}

/// A year takes four places: zeros in front of a short one, and a dash in front of one
/// before the year zero.
pub proof fn a_year_takes_four_places(year: int)
    requires
        -999 <= year <= 9999,
    ensures
        four(year).len() == 4,
        year >= 0 ==> text::value(four(year)) == year,
        year < 0 ==> four(year)[0] == '-' && text::value(four(year).skip(1)) == -year,
{
    let n = if year >= 0 {
        year as nat
    } else {
        (-year) as nat
    };
    let d = text::decimal(n);
    text::decimal_reads_back(n);
    reveal_with_fuel(text::pow10, 5);
    text::lemma_decimal_short(
        n,
        if year >= 0 {
            4
        } else {
            3
        },
    );
    text::zeros_in_front_change_no_number(d, 4);
    text::zeros_in_front_change_no_number(d, 3);
    if year < 0 {
        assert(four(year).skip(1) =~= text::zero_padded(d, 3));
    }
}

} // verus!
