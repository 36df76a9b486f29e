//! Time handling: timestamps are signed 64-bit integers in caller-chosen
//! uniform units (conventionally milliseconds since the Unix epoch, UTC).
//!
//! Three things live here: parsing of `YYYY-MM-DD HH:MM:SS[.fff]`
//! timestamps, the civil (proleptic Gregorian) calendar arithmetic, and
//! intervals for window stepping. An interval holding month or year terms
//! is *epoch-aligned*: stepping by it walks the calendar in UTC rather than
//! adding a fixed number of milliseconds.

use vstd::prelude::*;

verus! {

/// Unrecognized timestamp or interval syntax.
#[derive(Clone, Copy, PartialEq, Eq, Structural, Debug)]
pub enum ParseTimeError {
    InvalidTimestamp,
    InvalidInterval,
}

// ---------------------------------------------------------------------------
// The civil calendar, as spec functions.
// ---------------------------------------------------------------------------

pub open spec fn spec_is_leap(y: int) -> bool {
    (y % 4 == 0 && y % 100 != 0) || y % 400 == 0
}

pub open spec fn spec_days_in_year(y: int) -> int {
    if spec_is_leap(y) {
        366
    } else {
        365
    }
}

/// Length in days of month `m` (1-based) of year `y`.
pub open spec fn spec_days_in_month(y: int, m: int) -> int {
    if m == 2 {
        if spec_is_leap(y) {
            29
        } else {
            28
        }
    } else if m == 4 || m == 6 || m == 9 || m == 11 {
        30
    } else {
        31
    }
}

/// Days from 1970-01-01 to the first day of year `y` (negative before
/// 1970).
pub open spec fn spec_year_days(y: int) -> int
    decreases
            (if y >= 1970 {
                y - 1970
            } else {
                1970 - y
            }),
{
    if y == 1970 {
        0
    } else if y > 1970 {
        spec_year_days(y - 1) + spec_days_in_year(y - 1)
    } else {
        spec_year_days(y + 1) - spec_days_in_year(y)
    }
}

/// Days from the first day of year `y` to the first day of its month `m`.
pub open spec fn spec_month_days(y: int, m: int) -> int
    decreases m,
{
    if m <= 1 {
        0
    } else {
        spec_month_days(y, m - 1) + spec_days_in_month(y, m - 1)
    }
}

/// Days from 1970-01-01 to the civil date `y-m-d`.
pub open spec fn spec_epoch_days(y: int, m: int, d: int) -> int {
    spec_year_days(y) + spec_month_days(y, m) + d - 1
}

/// Milliseconds since the epoch of a civil UTC date and time.
pub open spec fn spec_civil_millis(
    y: int,
    m: int,
    d: int,
    h: int,
    mi: int,
    sec: int,
    ms: int,
) -> int {
    spec_epoch_days(y, m, d) * 86400000 + h * 3600000 + mi * 60000 + sec * 1000 + ms
}

proof fn lemma_year_days_bound(y: int)
    requires
        -500000 <= y <= 500000,
    ensures
        y >= 1970 ==> 365 * (y - 1970) <= spec_year_days(y) <= 366 * (y - 1970),
        y < 1970 ==> -366 * (1970 - y) <= spec_year_days(y) <= -365 * (1970 - y),
    decreases
            (if y >= 1970 {
                y - 1970
            } else {
                1970 - y
            }),
{
    if y > 1970 {
        lemma_year_days_bound(y - 1);
    } else if y < 1970 {
        lemma_year_days_bound(y + 1);
    }
}

proof fn lemma_months_cover_year(y: int)
    ensures
        spec_month_days(y, 13) == spec_days_in_year(y),
{
    reveal_with_fuel(spec_month_days, 14);
}

// ---------------------------------------------------------------------------
// Exec mirrors of the calendar helpers.
// ---------------------------------------------------------------------------

#[verifier::rlimit(100)]
#[verifier::spinoff_prover]
fn is_leap(y: i64) -> (r: bool)
    ensures
        r == spec_is_leap(y as int),
{
    (y % 4 == 0 && y % 100 != 0) || y % 400 == 0
}

fn days_in_year(y: i64) -> (r: i64)
    ensures
        r as int == spec_days_in_year(y as int),
{
    if is_leap(y) {
        366
    } else {
        365
    }
}

fn days_in_month(y: i64, m: i64) -> (r: i64)
    ensures
        r as int == spec_days_in_month(y as int, m as int),
        28 <= r <= 31,
{
    if m == 2 {
        if is_leap(y) {
            29
        } else {
            28
        }
    } else if m == 4 || m == 6 || m == 9 || m == 11 {
        30
    } else {
        31
    }
}

/// Days from 1970-01-01 to the first day of year `y`, walked a year at a
/// time.
fn year_days(y: i64) -> (r: i64)
    requires
        -500000 <= y <= 500000,
    ensures
        r as int == spec_year_days(y as int),
{
    let mut acc: i64 = 0;
    if y >= 1970 {
        let mut cur: i64 = 1970;
        while cur < y
            invariant
                1970 <= cur <= y <= 500000,
                acc as int == spec_year_days(cur as int),
            decreases y - cur,
        {
            proof {
                lemma_year_days_bound(cur as int);
                lemma_year_days_bound(cur as int + 1);
            }
            acc = acc + days_in_year(cur);
            cur = cur + 1;
        }
        acc
    } else {
        let mut cur: i64 = 1970;
        while cur > y
            invariant
                -500000 <= y <= cur <= 1970,
                acc as int == spec_year_days(cur as int),
            decreases cur - y,
        {
            proof {
                lemma_year_days_bound(cur as int);
                lemma_year_days_bound(cur as int - 1);
            }
            acc = acc - days_in_year(cur - 1);
            cur = cur - 1;
        }
        acc
    }
}

/// Days from the start of year `y` to the start of its month `m`.
fn month_days(y: i64, m: i64) -> (r: i64)
    requires
        1 <= m <= 13,
    ensures
        r as int == spec_month_days(y as int, m as int),
        0 <= r <= 372,
{
    let mut acc: i64 = 0;
    let mut cur: i64 = 1;
    while cur < m
        invariant
            1 <= cur <= m <= 13,
            acc as int == spec_month_days(y as int, cur as int),
            0 <= acc <= 31 * (cur - 1),
        decreases m - cur,
    {
        acc = acc + days_in_month(y, cur);
        cur = cur + 1;
    }
    acc
}

// ---------------------------------------------------------------------------
// Timestamp parsing.
// ---------------------------------------------------------------------------

pub open spec fn spec_is_dig(c: char) -> bool {
    48 <= c as u32 <= 57
}

pub open spec fn spec_dig_val(c: char) -> int {
    c as u32 - 48
}

/// Decimal value of the digits `s[a..b)`.
pub open spec fn spec_num(s: Seq<char>, a: int, b: int) -> int
    decreases b - a,
{
    if b <= a {
        0
    } else {
        spec_num(s, a, b - 1) * 10 + spec_dig_val(s[b - 1])
    }
}

proof fn lemma_num_bound(s: Seq<char>, a: int, b: int)
    requires
        a <= b,
        forall|i: int| a <= i < b ==> spec_is_dig(#[trigger] s[i]),
    ensures
        0 <= spec_num(s, a, b),
        b - a == 0 ==> spec_num(s, a, b) == 0,
        b - a <= 1 ==> spec_num(s, a, b) < 10,
        b - a <= 2 ==> spec_num(s, a, b) < 100,
        b - a <= 3 ==> spec_num(s, a, b) < 1000,
        b - a <= 4 ==> spec_num(s, a, b) < 10000,
    decreases b - a,
{
    if b > a {
        lemma_num_bound(s, a, b - 1);
    }
}

/// The fixed shape `YYYY-MM-DD HH:MM:SS` or `YYYY-MM-DDTHH:MM:SS`, with an
/// optional `.fff` milliseconds tail.
pub open spec fn spec_ts_shape(s: Seq<char>) -> bool {
    &&& (s.len() == 19 || s.len() == 23)
    &&& (forall|i: int|
        (0 <= i < 4 || 5 <= i < 7 || 8 <= i < 10 || 11 <= i < 13 || 14 <= i < 16 || 17 <= i < 19
            || (s.len() == 23 && 20 <= i < 23)) ==> spec_is_dig(#[trigger] s[i]))
    &&& s[4] == '-'
    &&& s[7] == '-'
    &&& (s[10] == ' ' || s[10] == 'T')
    &&& s[13] == ':'
    &&& s[16] == ':'
    &&& (s.len() == 23 ==> s[19] == '.')
}

pub open spec fn spec_ts_year(s: Seq<char>) -> int {
    spec_num(s, 0, 4)
}

pub open spec fn spec_ts_month(s: Seq<char>) -> int {
    spec_num(s, 5, 7)
}

pub open spec fn spec_ts_day(s: Seq<char>) -> int {
    spec_num(s, 8, 10)
}

/// The field ranges a well-formed timestamp must satisfy.
pub open spec fn spec_ts_fields_ok(s: Seq<char>) -> bool {
    &&& 1 <= spec_ts_month(s) <= 12
    &&& 1 <= spec_ts_day(s) <= spec_days_in_month(spec_ts_year(s), spec_ts_month(s))
    &&& spec_num(s, 11, 13) <= 23
    &&& spec_num(s, 14, 16) <= 59
    &&& spec_num(s, 17, 19) <= 59
}

/// A parseable timestamp: right shape, fields in range.
pub open spec fn spec_ts_ok(s: Seq<char>) -> bool {
    spec_ts_shape(s) && spec_ts_fields_ok(s)
}

/// The milliseconds-since-epoch value of a well-formed timestamp.
pub open spec fn spec_ts_millis(s: Seq<char>) -> int {
    spec_civil_millis(
        spec_ts_year(s),
        spec_ts_month(s),
        spec_ts_day(s),
        spec_num(s, 11, 13),
        spec_num(s, 14, 16),
        spec_num(s, 17, 19),
        if s.len() == 23 {
            spec_num(s, 20, 23)
        } else {
            0
        },
    )
}

/// Reads the decimal number at `s[a..b)`; `None` unless every character
/// there is a digit. The span is at most four characters wide.
fn read_num(s: &str, a: usize, b: usize) -> (r: Option<u32>)
    requires
        a <= b,
        b <= s@.len(),
        b - a <= 4,
    ensures
        r.is_some() <==> (forall|i: int| a <= i < b ==> spec_is_dig(#[trigger] s@[i])),
        r.is_some() ==> r.unwrap() as int == spec_num(s@, a as int, b as int),
{
    let mut acc: u32 = 0;
    let mut i: usize = a;
    while i < b
        invariant
            a <= i <= b,
            b <= s@.len(),
            b - a <= 4,
            acc as int == spec_num(s@, a as int, i as int),
            forall|j: int| a <= j < i ==> spec_is_dig(#[trigger] s@[j]),
        decreases b - i,
    {
        let c = s.get_char(i);
        let u = c as u32;
        if u < 48 || u > 57 {
            proof {
                assert(!spec_is_dig(s@[i as int]));
            }
            return None;
        }
        proof {
            lemma_num_bound(s@, a as int, i as int);
        }
        acc = acc * 10 + (u - 48);
        i = i + 1;
    }
    Some(acc)
}

/// Parses `YYYY-MM-DD HH:MM:SS[.fff]` (also with `T` as the separator) as a
/// UTC civil time and returns milliseconds since the epoch. Exactly the
/// strings satisfying `spec_ts_ok` are accepted.
pub fn parse_timestamp(s: &str) -> (r: Result<i64, ParseTimeError>)
    ensures
        r.is_ok() <==> spec_ts_ok(s@),
        r.is_ok() ==> r.unwrap() as int == spec_ts_millis(s@),
{
    let n = s.unicode_len();
    if n != 19 && n != 23 {
        return Err(ParseTimeError::InvalidTimestamp);
    }
    if s.get_char(4) != '-' || s.get_char(7) != '-' || s.get_char(13) != ':' || s.get_char(16)
        != ':' {
        return Err(ParseTimeError::InvalidTimestamp);
    }
    let sep = s.get_char(10);
    if sep != ' ' && sep != 'T' {
        return Err(ParseTimeError::InvalidTimestamp);
    }
    if n == 23 && s.get_char(19) != '.' {
        return Err(ParseTimeError::InvalidTimestamp);
    }
    let year = match read_num(s, 0, 4) {
        Some(v) => v,
        None => {
            return Err(ParseTimeError::InvalidTimestamp);
        },
    };
    let month = match read_num(s, 5, 7) {
        Some(v) => v,
        None => {
            return Err(ParseTimeError::InvalidTimestamp);
        },
    };
    let day = match read_num(s, 8, 10) {
        Some(v) => v,
        None => {
            return Err(ParseTimeError::InvalidTimestamp);
        },
    };
    let hour = match read_num(s, 11, 13) {
        Some(v) => v,
        None => {
            return Err(ParseTimeError::InvalidTimestamp);
        },
    };
    let minute = match read_num(s, 14, 16) {
        Some(v) => v,
        None => {
            return Err(ParseTimeError::InvalidTimestamp);
        },
    };
    let second = match read_num(s, 17, 19) {
        Some(v) => v,
        None => {
            return Err(ParseTimeError::InvalidTimestamp);
        },
    };
    let ms: u32 = if n == 23 {
        match read_num(s, 20, 23) {
            Some(v) => v,
            None => {
                return Err(ParseTimeError::InvalidTimestamp);
            },
        }
    } else {
        0
    };
    proof {
        lemma_num_bound(s@, 0, 4);
        lemma_num_bound(s@, 5, 7);
        lemma_num_bound(s@, 8, 10);
        lemma_num_bound(s@, 11, 13);
        lemma_num_bound(s@, 14, 16);
        lemma_num_bound(s@, 17, 19);
        if s@.len() == 23 {
            lemma_num_bound(s@, 20, 23);
        }
    }
    if month < 1 || month > 12 {
        return Err(ParseTimeError::InvalidTimestamp);
    }
    let dim = days_in_month(year as i64, month as i64);
    if day < 1 || (day as i64) > dim {
        return Err(ParseTimeError::InvalidTimestamp);
    }
    if hour > 23 || minute > 59 || second > 59 {
        return Err(ParseTimeError::InvalidTimestamp);
    }
    proof {
        assert(spec_ts_ok(s@));
        lemma_year_days_bound(year as int);
    }
    let days: i64 = year_days(year as i64) + month_days(year as i64, month as i64) + (day as i64
        - 1);
    let millis: i64 = days * 86400000 + (hour as i64) * 3600000 + (minute as i64) * 60000 + (
    second as i64) * 1000 + (ms as i64);
    Ok(millis)
}

// ---------------------------------------------------------------------------
// The inverse walk: epoch day number back to a civil date.
// ---------------------------------------------------------------------------

/// Year and day-of-year containing epoch day `n`, walking upward.
pub open spec fn spec_cy_up(y: int, n: int) -> (int, int)
    decreases n,
{
    if n < 0 || n < spec_days_in_year(y) {
        (y, n)
    } else {
        spec_cy_up(y + 1, n - spec_days_in_year(y))
    }
}

/// Year and day-of-year containing epoch day `n`, walking downward.
pub open spec fn spec_cy_down(y: int, n: int) -> (int, int)
    decreases
            (if n < 0 {
                -n
            } else {
                0
            }),
{
    if n >= 0 {
        (y, n)
    } else {
        spec_cy_down(y - 1, n + spec_days_in_year(y - 1))
    }
}

/// Year and day-of-year of epoch day `n`.
pub open spec fn spec_civil_year(n: int) -> (int, int) {
    if n >= 0 {
        spec_cy_up(1970, n)
    } else {
        spec_cy_down(1970, n)
    }
}

/// Month and day-of-month for day-of-year `n` of year `y`.
pub open spec fn spec_cm(y: int, m: int, n: int) -> (int, int)
    decreases 12 - m,
{
    if m >= 12 || n < spec_days_in_month(y, m) {
        (m, n)
    } else {
        spec_cm(y, m + 1, n - spec_days_in_month(y, m))
    }
}

/// The civil date `(year, month, day)` of epoch day `n`.
pub open spec fn spec_civil_date(n: int) -> (int, int, int) {
    let (y, doy) = spec_civil_year(n);
    let (m, dom) = spec_cm(y, 1, doy);
    (y, m, dom + 1)
}

proof fn lemma_cy_up_props(y: int, n: int)
    requires
        0 <= n,
        n <= 365 * (499000 - y),
    ensures
        ({
            let (ry, rn) = spec_cy_up(y, n);
            &&& y <= ry <= 499001
            &&& 0 <= rn < spec_days_in_year(ry)
            &&& spec_year_days(ry) + rn == spec_year_days(y) + n
        }),
    decreases n,
{
    if n < spec_days_in_year(y) {
        assert(y <= 499001);
    } else {
        lemma_cy_up_props(y + 1, n - spec_days_in_year(y));
    }
}

proof fn lemma_cy_down_props(y: int, n: int)
    requires
        n < 0,
        n >= -365 * (y + 500000),
        y <= 1970,
    ensures
        ({
            let (ry, rn) = spec_cy_down(y, n);
            &&& -500000 <= ry < y
            &&& 0 <= rn < spec_days_in_year(ry)
            &&& spec_year_days(ry) + rn == spec_year_days(y) + n
        }),
    decreases -n,
{
    let n2 = n + spec_days_in_year(y - 1);
    if n2 >= 0 {
        assert(spec_cy_down(y - 1, n2) == (y - 1, n2));
        assert(spec_cy_down(y, n) == (y - 1, n2));
    } else {
        lemma_cy_down_props(y - 1, n2);
    }
}

proof fn lemma_cm_props(y: int, m: int, n: int)
    requires
        1 <= m <= 12,
        0 <= n,
        spec_month_days(y, m) + n < spec_days_in_year(y),
    ensures
        ({
            let (rm, rn) = spec_cm(y, m, n);
            &&& m <= rm <= 12
            &&& 0 <= rn < spec_days_in_month(y, rm)
            &&& spec_month_days(y, rm) + rn == spec_month_days(y, m) + n
        }),
    decreases 12 - m,
{
    lemma_months_cover_year(y);
    reveal_with_fuel(spec_month_days, 14);
    if m >= 12 || n < spec_days_in_month(y, m) {
    } else {
        lemma_cm_props(y, m + 1, n - spec_days_in_month(y, m));
    }
}

/// The civil date of epoch day `n`, by walking years then months.
fn civil_date(n: i64) -> (r: (i64, i64, i64))
    requires
        -100000000 <= n <= 100000000,
    ensures
        (r.0 as int, r.1 as int, r.2 as int) == spec_civil_date(n as int),
        spec_epoch_days(r.0 as int, r.1 as int, r.2 as int) == n as int,
        1 <= r.1 <= 12,
        1 <= r.2 <= spec_days_in_month(r.0 as int, r.1 as int),
        -276000 <= r.0 <= 276000,
{
    let ghost yn = spec_civil_year(n as int);
    let mut y: i64 = 1970;
    let mut rem: i64 = n;
    if n >= 0 {
        proof {
            lemma_cy_up_props(1970, n as int);
        }
        while rem >= days_in_year(y)
            invariant
                0 <= rem <= 100000000,
                1970 <= y <= 276000,
                spec_cy_up(y as int, rem as int) == yn,
                spec_year_days(y as int) + rem == n as int,
                -100000000 <= n,
                n <= 100000000,
            decreases rem,
        {
            rem = rem - days_in_year(y);
            y = y + 1;
            proof {
                lemma_year_days_bound(y as int);
                assert(365 * (y - 1970) <= spec_year_days(y as int));
                assert(spec_year_days(y as int) <= n as int);
                assert(y <= 276000);
            }
        }
        proof {
            assert(spec_cy_up(y as int, rem as int) == (y as int, rem as int));
            assert(yn == (y as int, rem as int));
        }
    } else {
        proof {
            lemma_cy_down_props(1970, n as int);
        }
        while rem < 0
            invariant
                -276000 <= y <= 1970,
                rem <= 366,
                -100000001 <= rem,
                spec_cy_down(y as int, rem as int) == yn,
                spec_year_days(y as int) + rem == n as int,
                n < 0,
                -100000000 <= n,
            decreases
                    (if rem < 0 {
                        -rem
                    } else {
                        0
                    }),
        {
            rem = rem + days_in_year(y - 1);
            y = y - 1;
            proof {
                lemma_year_days_bound(y as int);
                assert(spec_year_days(y as int) == n as int - rem);
                assert(-365 * (1970 - y) >= -100000367 ==> y >= -276000);
                assert(y >= -276000);
            }
        }
        proof {
            assert(spec_cy_down(y as int, rem as int) == (y as int, rem as int));
            assert(yn == (y as int, rem as int));
        }
    }
    proof {
        assert(0 <= rem < spec_days_in_year(y as int));
        lemma_cm_props(y as int, 1, rem as int);
    }
    let ghost md = spec_cm(y as int, 1, rem as int);
    let mut m: i64 = 1;
    while m < 12 && rem >= days_in_month(y, m)
        invariant
            1 <= m <= 12,
            0 <= rem <= 366,
            spec_cm(y as int, m as int, rem as int) == md,
            0 <= md.1 < spec_days_in_month(y as int, md.0),
            1 <= md.0 <= 12,
            spec_month_days(y as int, m as int) + rem == spec_month_days(y as int, md.0) + md.1,
        decreases 12 - m,
    {
        rem = rem - days_in_month(y, m);
        m = m + 1;
    }
    proof {
        assert(spec_cm(y as int, m as int, rem as int) == (m as int, rem as int));
        assert((m as int, rem as int) == md);
        lemma_months_cover_year(y as int);
    }
    (y, m, rem + 1)
}

// ---------------------------------------------------------------------------
// Intervals.
// ---------------------------------------------------------------------------

/// A step for window arithmetic: a raw millisecond part plus a calendar
/// month part. `aligned` records whether a month or year term appeared, in
/// which case stepping walks the calendar.
#[derive(Clone, Copy, PartialEq, Eq, Structural, Debug)]
pub struct Interval {
    pub months: u32,
    pub millis: u64,
    pub aligned: bool,
}

impl Interval {
    /// A raw step of `n` time units, with no calendar alignment.
    pub fn discrete(n: u64) -> (r: Interval)
        ensures
            r == (Interval { months: 0u32, millis: n, aligned: false }),
    {
        Interval { months: 0, millis: n, aligned: false }
    }

    /// True when stepping must walk the calendar.
    pub fn is_aligned(&self) -> (r: bool)
        ensures
            r == self.aligned,
    {
        self.aligned
    }

    /// True of a step that moves nothing at all.
    pub fn is_zero(&self) -> (r: bool)
        ensures
            r == (self.months == 0 && self.millis == 0),
    {
        self.months == 0 && self.millis == 0
    }
}

// ---------------------------------------------------------------------------
// The duration-string grammar: terms `N unit` separated by spaces or
// commas, summing additively. Month and year terms count in calendar
// months and mark the interval epoch-aligned; every other unit is a raw
// millisecond delta (sub-millisecond units truncate).
// ---------------------------------------------------------------------------

pub open spec fn spec_sep(c: char) -> bool {
    c == ' ' || c == ','
}

/// First position at or after `i` holding a non-separator (or the end).
pub open spec fn spec_skip_sep(s: Seq<char>, i: int) -> int
    decreases s.len() - i,
{
    if 0 <= i < s.len() && spec_sep(s[i]) {
        spec_skip_sep(s, i + 1)
    } else {
        i
    }
}

/// First position at or after `i` holding a separator (or the end).
pub open spec fn spec_tok_end(s: Seq<char>, i: int) -> int
    decreases s.len() - i,
{
    if 0 <= i < s.len() && !spec_sep(s[i]) {
        spec_tok_end(s, i + 1)
    } else {
        i
    }
}

proof fn lemma_skip_bounds(s: Seq<char>, i: int)
    requires
        0 <= i <= s.len(),
    ensures
        i <= spec_skip_sep(s, i) <= s.len(),
        spec_skip_sep(s, i) == s.len() || !spec_sep(s[spec_skip_sep(s, i)]),
    decreases s.len() - i,
{
    if i < s.len() && spec_sep(s[i]) {
        lemma_skip_bounds(s, i + 1);
    }
}

proof fn lemma_tok_bounds(s: Seq<char>, i: int)
    requires
        0 <= i <= s.len(),
    ensures
        i <= spec_tok_end(s, i) <= s.len(),
        spec_tok_end(s, i) == s.len() || spec_sep(s[spec_tok_end(s, i)]),
        i < s.len() && !spec_sep(s[i]) ==> spec_tok_end(s, i) > i,
    decreases s.len() - i,
{
    if i < s.len() && !spec_sep(s[i]) {
        lemma_tok_bounds(s, i + 1);
    }
}

/// What a unit word contributes: a calendar month count per one, a
/// millisecond multiplier, or a divisor for sub-millisecond units.
pub ghost enum UnitV {
    Months(int),
    MilMul(int),
    MilDiv(int),
}

pub open spec fn spec_unit(w: Seq<char>) -> Option<UnitV> {
    if w == "nanosecond"@ || w == "nanoseconds"@ {
        Some(UnitV::MilDiv(1000000))
    } else if w == "microsecond"@ || w == "microseconds"@ {
        Some(UnitV::MilDiv(1000))
    } else if w == "millisecond"@ || w == "milliseconds"@ {
        Some(UnitV::MilMul(1))
    } else if w == "second"@ || w == "seconds"@ {
        Some(UnitV::MilMul(1000))
    } else if w == "minute"@ || w == "minutes"@ {
        Some(UnitV::MilMul(60000))
    } else if w == "hour"@ || w == "hours"@ {
        Some(UnitV::MilMul(3600000))
    } else if w == "day"@ || w == "days"@ {
        Some(UnitV::MilMul(86400000))
    } else if w == "week"@ || w == "weeks"@ {
        Some(UnitV::MilMul(604800000))
    } else if w == "month"@ || w == "months"@ {
        Some(UnitV::Months(1))
    } else if w == "year"@ || w == "years"@ {
        Some(UnitV::Months(12))
    } else {
        None
    }
}

pub open spec fn spec_all_digits(s: Seq<char>, a: int, b: int) -> bool {
    forall|i: int| a <= i < b ==> spec_is_dig(#[trigger] s[i])
}

/// Largest millisecond total a parsed interval may carry.
pub const INTERVAL_MILLIS_CAP: u64 = 4611686018427387903;

/// The terms of a duration string from position `i` on, folded onto the
/// accumulators; `None` on any syntax violation, unknown unit, overflowing
/// count, or when no term at all was seen.
pub open spec fn spec_interval_terms(
    s: Seq<char>,
    i: int,
    months: int,
    millis: int,
    aligned: bool,
    any: bool,
) -> Option<(int, int, bool)>
    decreases s.len() - i,
    via spec_interval_terms_dec
{
    let j = spec_skip_sep(s, i);
    if !(0 <= i <= s.len()) {
        None
    } else if j >= s.len() {
        if any {
            Some((months, millis, aligned))
        } else {
            None
        }
    } else {
        let k = spec_tok_end(s, j);
        if !spec_all_digits(s, j, k) || k - j > 12 {
            None
        } else {
            let v = spec_num(s, j, k);
            let j2 = spec_skip_sep(s, k);
            if j2 >= s.len() {
                None
            } else {
                let k2 = spec_tok_end(s, j2);
                match spec_unit(s.subrange(j2, k2)) {
                    None => None,
                    Some(u) => {
                        let months2 = months + (match u {
                            UnitV::Months(f) => v * f,
                            _ => 0,
                        });
                        let millis2 = millis + (match u {
                            UnitV::MilMul(f) => v * f,
                            UnitV::MilDiv(f) => v / f,
                            _ => 0,
                        });
                        let aligned2 = aligned || u is Months;
                        if months2 > 1200000 || millis2 > 4611686018427387903 {
                            None
                        } else {
                            spec_interval_terms(s, k2, months2, millis2, aligned2, true)
                        }
                    },
                }
            }
        }
    }
}

#[via_fn]
proof fn spec_interval_terms_dec(
    s: Seq<char>,
    i: int,
    months: int,
    millis: int,
    aligned: bool,
    any: bool,
) {
    if 0 <= i <= s.len() {
        lemma_skip_bounds(s, i);
        let j = spec_skip_sep(s, i);
        if j < s.len() {
            lemma_tok_bounds(s, j);
            let k = spec_tok_end(s, j);
            lemma_skip_bounds(s, k);
            let j2 = spec_skip_sep(s, k);
            if j2 < s.len() {
                lemma_tok_bounds(s, j2);
            }
        }
    }
}

/// The interval denoted by a duration string, if it is well formed.
pub open spec fn spec_parse_interval(s: Seq<char>) -> Option<(int, int, bool)> {
    spec_interval_terms(s, 0, 0, 0, false, false)
}

pub open spec fn spec_sat_i64(x: int) -> int {
    if x > i64::MAX as int {
        i64::MAX as int
    } else if x < i64::MIN as int {
        i64::MIN as int
    } else {
        x
    }
}

/// Month counts above this (a hundred thousand years) clamp; timestamps
/// beyond `CAL_RANGE_MILLIS` (about 126,000 years out) clamp into the
/// calendar walk's range first.
pub const MONTHS_CAP: u32 = 1200000;

pub const CAL_RANGE_MILLIS: i64 = 4000000000000000;

pub open spec fn spec_months_capped(months: int) -> int {
    if months > 1200000 {
        1200000
    } else {
        months
    }
}

pub open spec fn spec_cal_clamp(t: int) -> int {
    if t > 4000000000000000 {
        4000000000000000
    } else if t < -4000000000000000 {
        -4000000000000000
    } else {
        t
    }
}

/// Calendar addition of `k` months to `t` (milliseconds): split into day
/// and millisecond-of-day, move the civil date by `k` months clamping the
/// day-of-month into the target month, and reassemble.
pub open spec fn spec_months_add(t: int, k: int) -> int {
    let days = t / 86400000;
    let msod = t % 86400000;
    let (y, m, d) = spec_civil_date(days);
    let tm = (m - 1) + k;
    let y2 = y + tm / 12;
    let m2 = tm % 12 + 1;
    let d2 = if d <= spec_days_in_month(y2, m2) {
        d
    } else {
        spec_days_in_month(y2, m2)
    };
    spec_epoch_days(y2, m2, d2) * 86400000 + msod
}

/// What `add` returns: walk the (capped) months on the (clamped)
/// timestamp, then add the raw milliseconds, saturating at the i64 bounds.
pub open spec fn spec_interval_add(t: int, iv: Interval) -> int {
    let base = if iv.months == 0 {
        t
    } else {
        spec_months_add(spec_cal_clamp(t), spec_months_capped(iv.months as int))
    };
    spec_sat_i64(base + iv.millis)
}

/// What `sub` returns: the mirror image, stepping months backward after
/// removing the raw milliseconds.
pub open spec fn spec_interval_sub(t: int, iv: Interval) -> int {
    let base = spec_sat_i64(t - iv.millis);
    if iv.months == 0 {
        base
    } else {
        spec_months_add(spec_cal_clamp(base), -spec_months_capped(iv.months as int))
    }
}

fn sat_add_i64(a: i64, b: i128) -> (r: i64)
    requires
        -0x40000000000000000 <= b <= 0x40000000000000000,
    ensures
        r as int == spec_sat_i64(a as int + b),
{
    let s: i128 = (a as i128) + b;
    if s > i64::MAX as i128 {
        i64::MAX
    } else if s < i64::MIN as i128 {
        i64::MIN
    } else {
        s as i64
    }
}

/// Floored division of `t` by the day length, with non-negative remainder.
fn split_days(t: i64) -> (r: (i64, i64))
    requires
        -4100000000000000 <= t <= 4100000000000000,
    ensures
        r.0 as int == t as int / 86400000,
        r.1 as int == t as int % 86400000,
{
    if t >= 0 {
        let q: i64 = t / 86400000;
        let m: i64 = t % 86400000;
        (q, m)
    } else {
        let p: i64 = -t;
        let q: i64 = p / 86400000;
        let m: i64 = p % 86400000;
        if m == 0 {
            proof {
                assert(t as int == (-q) * 86400000);
            }
            (-q, 0)
        } else {
            proof {
                assert(t as int == (-q - 1) * 86400000 + (86400000 - m));
            }
            (-q - 1, 86400000 - m)
        }
    }
}

fn floordiv12(tm: i64) -> (r: (i64, i64))
    requires
        -200000000 <= tm <= 200000000,
    ensures
        r.0 as int == tm as int / 12,
        r.1 as int == tm as int % 12,
{
    if tm >= 0 {
        (tm / 12, tm % 12)
    } else {
        let p: i64 = -tm;
        let q: i64 = p / 12;
        let m: i64 = p % 12;
        if m == 0 {
            proof {
                assert(tm as int == (-q) * 12);
            }
            (-q, 0)
        } else {
            proof {
                assert(tm as int == (-q - 1) * 12 + (12 - m));
            }
            (-q - 1, 12 - m)
        }
    }
}

/// Calendar month addition on a clamped timestamp.
fn months_add(t: i64, k: i64) -> (r: i64)
    requires
        -4000000000000000 <= t <= 4000000000000000,
        -1200000 <= k <= 1200000,
    ensures
        r as int == spec_months_add(t as int, k as int),
        -200000000000000000 <= r <= 200000000000000000,
{
    let (days, msod) = split_days(t);
    let (y, m, d) = civil_date(days);
    let tm: i64 = (m - 1) + k;
    let (qy, rm) = floordiv12(tm);
    let y2: i64 = y + qy;
    let m2: i64 = rm + 1;
    let dim = days_in_month(y2, m2);
    let d2: i64 = if d <= dim {
        d
    } else {
        dim
    };
    proof {
        lemma_year_days_bound(y2 as int);
    }
    let days2: i64 = year_days(y2) + month_days(y2, m2) + (d2 - 1);
    days2 * 86400000 + msod
}

pub open spec fn spec_pow10(n: nat) -> int
    decreases n,
{
    if n == 0 {
        1
    } else {
        10 * spec_pow10((n - 1) as nat)
    }
}

pub proof fn lemma_num_pow_bound(s: Seq<char>, a: int, b: int)
    requires
        a <= b,
        spec_all_digits(s, a, b),
    ensures
        0 <= spec_num(s, a, b) < spec_pow10((b - a) as nat),
    decreases b - a,
{
    if b > a {
        lemma_num_pow_bound(s, a, b - 1);
    }
}

proof fn lemma_pow10_12()
    ensures
        spec_pow10(12) == 1000000000000,
{
    reveal_with_fuel(spec_pow10, 13);
}

pub proof fn lemma_pow10_pos(n: nat)
    ensures
        spec_pow10(n) >= 1,
    decreases n,
{
    if n > 0 {
        lemma_pow10_pos((n - 1) as nat);
    }
}

pub proof fn lemma_pow10_mono(m: nat, n: nat)
    requires
        m <= n,
    ensures
        spec_pow10(m) <= spec_pow10(n),
    decreases n,
{
    lemma_pow10_pos(m);
    if m < n {
        lemma_pow10_mono(m, (n - 1) as nat);
        lemma_pow10_pos((n - 1) as nat);
    }
}

/// Reads the decimal number at `s[a..b)` into 64 bits; `None` unless every
/// character there is a digit. At most twelve digits.
fn read_num12(s: &str, a: usize, b: usize) -> (r: Option<u64>)
    requires
        a <= b,
        b as int <= s@.len(),
        b - a <= 12,
    ensures
        r.is_some() <==> spec_all_digits(s@, a as int, b as int),
        r.is_some() ==> r.unwrap() as int == spec_num(s@, a as int, b as int),
        r.is_some() ==> r.unwrap() < 1000000000000,
{
    let mut acc: u64 = 0;
    let mut i: usize = a;
    while i < b
        invariant
            a <= i <= b,
            b as int <= s@.len(),
            b - a <= 12,
            acc as int == spec_num(s@, a as int, i as int),
            spec_all_digits(s@, a as int, i as int),
        decreases b - i,
    {
        let c = s.get_char(i);
        let u = c as u32;
        if u < 48 || u > 57 {
            proof {
                assert(!spec_is_dig(s@[i as int]));
            }
            return None;
        }
        proof {
            lemma_num_pow_bound(s@, a as int, i as int);
            lemma_pow10_12();
            reveal_with_fuel(spec_pow10, 13);
        }
        acc = acc * 10 + ((u - 48) as u64);
        i = i + 1;
    }
    proof {
        lemma_num_pow_bound(s@, a as int, b as int);
        lemma_pow10_12();
        lemma_pow10_mono((b - a) as nat, 12);
    }
    Some(acc)
}

fn is_sep(c: char) -> (r: bool)
    ensures
        r == spec_sep(c),
{
    c == ' ' || c == ','
}

fn skip_sep(s: &str, i: usize) -> (r: usize)
    requires
        i as int <= s@.len(),
    ensures
        r as int == spec_skip_sep(s@, i as int),
        i <= r,
        r as int <= s@.len(),
{
    let n = s.unicode_len();
    let mut j: usize = i;
    while j < n && is_sep(s.get_char(j))
        invariant
            i <= j,
            j as int <= s@.len(),
            n as int == s@.len(),
            spec_skip_sep(s@, i as int) == spec_skip_sep(s@, j as int),
        decreases s@.len() - j,
    {
        j = j + 1;
    }
    j
}

fn tok_end(s: &str, i: usize) -> (r: usize)
    requires
        i as int <= s@.len(),
    ensures
        r as int == spec_tok_end(s@, i as int),
        i <= r,
        r as int <= s@.len(),
{
    let n = s.unicode_len();
    let mut j: usize = i;
    while j < n && !is_sep(s.get_char(j))
        invariant
            i <= j,
            j as int <= s@.len(),
            n as int == s@.len(),
            spec_tok_end(s@, i as int) == spec_tok_end(s@, j as int),
        decreases s@.len() - j,
    {
        j = j + 1;
    }
    j
}

/// Whether `s[a..b)` spells exactly the word `lit`.
fn tok_is(s: &str, a: usize, b: usize, lit: &str) -> (r: bool)
    requires
        a <= b,
        b as int <= s@.len(),
    ensures
        r == (s@.subrange(a as int, b as int) == lit@),
{
    let ln = lit.unicode_len();
    if b - a != ln {
        proof {
            assert(s@.subrange(a as int, b as int).len() != lit@.len());
        }
        return false;
    }
    let mut i: usize = 0;
    while i < ln
        invariant
            0 <= i <= ln,
            a + ln == b,
            b as int <= s@.len(),
            ln as int == lit@.len(),
            forall|j: int| 0 <= j < i ==> s@.subrange(a as int, b as int)[j] == lit@[j],
        decreases ln - i,
    {
        let cs = s.get_char(a + i);
        let cl = lit.get_char(i);
        if cs != cl {
            proof {
                assert(s@.subrange(a as int, b as int)[i as int] != lit@[i as int]);
            }
            return false;
        }
        i = i + 1;
    }
    proof {
        assert(s@.subrange(a as int, b as int) =~= lit@);
    }
    true
}

enum Unit {
    Months(u64),
    MilMul(u64),
    MilDiv(u64),
}

/// The unit word at `s[a..b)`, if it is one the grammar knows.
fn unit_of(s: &str, a: usize, b: usize) -> (r: Option<Unit>)
    requires
        a <= b,
        b as int <= s@.len(),
    ensures
        ({
            let w = s@.subrange(a as int, b as int);
            match r {
                None => spec_unit(w) is None,
                Some(u) => match u {
                    Unit::Months(f) => spec_unit(w) == Some(UnitV::Months(f as int)) && f <= 12,
                    Unit::MilMul(f) => spec_unit(w) == Some(UnitV::MilMul(f as int)) && 1 <= f
                        <= 604800000,
                    Unit::MilDiv(f) => spec_unit(w) == Some(UnitV::MilDiv(f as int)) && 1 <= f
                        <= 1000000,
                },
            }
        }),
{
    if tok_is(s, a, b, "nanosecond") || tok_is(s, a, b, "nanoseconds") {
        Some(Unit::MilDiv(1000000))
    } else if tok_is(s, a, b, "microsecond") || tok_is(s, a, b, "microseconds") {
        Some(Unit::MilDiv(1000))
    } else if tok_is(s, a, b, "millisecond") || tok_is(s, a, b, "milliseconds") {
        Some(Unit::MilMul(1))
    } else if tok_is(s, a, b, "second") || tok_is(s, a, b, "seconds") {
        Some(Unit::MilMul(1000))
    } else if tok_is(s, a, b, "minute") || tok_is(s, a, b, "minutes") {
        Some(Unit::MilMul(60000))
    } else if tok_is(s, a, b, "hour") || tok_is(s, a, b, "hours") {
        Some(Unit::MilMul(3600000))
    } else if tok_is(s, a, b, "day") || tok_is(s, a, b, "days") {
        Some(Unit::MilMul(86400000))
    } else if tok_is(s, a, b, "week") || tok_is(s, a, b, "weeks") {
        Some(Unit::MilMul(604800000))
    } else if tok_is(s, a, b, "month") || tok_is(s, a, b, "months") {
        Some(Unit::Months(1))
    } else if tok_is(s, a, b, "year") || tok_is(s, a, b, "years") {
        Some(Unit::Months(12))
    } else {
        None
    }
}

proof fn lemma_scale_check(v: int, f: int, c: int)
    requires
        f >= 1,
        v >= 0,
        c >= 0,
    ensures
        (v * f > c) <==> (v > c / f),
{
    vstd::arithmetic::div_mod::lemma_fundamental_div_mod(c, f);
    let q = c / f;
    assert(q * f == f * q) by (nonlinear_arith);
    assert(c == f * q + c % f);
    assert(0 <= c % f < f);
    if v > q {
        assert(v * f >= (q + 1) * f) by (nonlinear_arith)
            requires
                f >= 1,
                v >= q + 1,
        ;
        assert((q + 1) * f == q * f + f) by (nonlinear_arith);
        assert(q * f + f > c);
        assert(v * f > c);
    } else {
        assert(v * f <= q * f) by (nonlinear_arith)
            requires
                f >= 1,
                0 <= v <= q,
        ;
        assert(q * f <= c);
        assert(v * f <= c);
    }
}

fn parse_terms(s: &str, i: usize, months: u64, millis: u64, aligned: bool, any: bool) -> (r:
    Result<(u64, u64, bool), ParseTimeError>)
    requires
        i as int <= s@.len(),
        months <= 1200000,
        millis <= 4611686018427387903,
    ensures
        r.is_ok() <==> spec_interval_terms(
            s@,
            i as int,
            months as int,
            millis as int,
            aligned,
            any,
        ).is_some(),
        r.is_ok() ==> ({
            let t = spec_interval_terms(
                s@,
                i as int,
                months as int,
                millis as int,
                aligned,
                any,
            ).unwrap();
            r.unwrap().0 as int == t.0 && r.unwrap().1 as int == t.1 && r.unwrap().2 == t.2
                && r.unwrap().0 <= 1200000
        }),
    decreases s@.len() - i,
{
    let n = s.unicode_len();
    let j = skip_sep(s, i);
    if j >= n {
        if any {
            return Ok((months, millis, aligned));
        } else {
            return Err(ParseTimeError::InvalidInterval);
        }
    }
    let k = tok_end(s, j);
    if k - j > 12 {
        return Err(ParseTimeError::InvalidInterval);
    }
    let v = match read_num12(s, j, k) {
        Some(v) => v,
        None => {
            return Err(ParseTimeError::InvalidInterval);
        },
    };
    let j2 = skip_sep(s, k);
    if j2 >= n {
        return Err(ParseTimeError::InvalidInterval);
    }
    let k2 = tok_end(s, j2);
    proof {
        lemma_skip_bounds(s@, i as int);
        lemma_tok_bounds(s@, j as int);
        lemma_skip_bounds(s@, k as int);
        lemma_tok_bounds(s@, j2 as int);
    }
    match unit_of(s, j2, k2) {
        None => Err(ParseTimeError::InvalidInterval),
        Some(Unit::Months(f)) => {
            let add = v * f;
            let m2 = months + add;
            if m2 > 1200000 {
                Err(ParseTimeError::InvalidInterval)
            } else {
                parse_terms(s, k2, m2, millis, true, true)
            }
        },
        Some(Unit::MilMul(f)) => {
            let room = (INTERVAL_MILLIS_CAP - millis) / f;
            proof {
                lemma_scale_check(v as int, f as int, (4611686018427387903 - millis) as int);
            }
            if v > room {
                Err(ParseTimeError::InvalidInterval)
            } else {
                let mi2 = millis + v * f;
                parse_terms(s, k2, months, mi2, aligned, true)
            }
        },
        Some(Unit::MilDiv(f)) => {
            let add = v / f;
            let mi2 = millis + add;
            if mi2 > INTERVAL_MILLIS_CAP {
                Err(ParseTimeError::InvalidInterval)
            } else {
                parse_terms(s, k2, months, mi2, aligned, true)
            }
        },
    }
}

impl Interval {
    /// Parses a duration string: terms `N unit`, space- or
    /// comma-separated, summing additively, e.g. `1 day` or
    /// `2 months, 12 hours`. Month and year terms make the interval
    /// epoch-aligned. Exactly the strings accepted by
    /// `spec_parse_interval` parse.
    pub fn parse(s: &str) -> (r: Result<Interval, ParseTimeError>)
        ensures
            r.is_ok() <==> spec_parse_interval(s@).is_some(),
            r.is_ok() ==> ({
                let t = spec_parse_interval(s@).unwrap();
                r.unwrap().months as int == t.0 && r.unwrap().millis as int == t.1
                    && r.unwrap().aligned == t.2
            }),
    {
        match parse_terms(s, 0, 0, 0, false, false) {
            Ok((mo, mi, al)) => Ok(Interval { months: mo as u32, millis: mi, aligned: al }),
            Err(e) => Err(e),
        }
    }
}

impl Interval {
    /// Steps `t` forward by this interval: calendar months first, then raw
    /// milliseconds, saturating at the integer bounds.
    pub fn add(&self, t: i64) -> (r: i64)
        ensures
            r as int == spec_interval_add(t as int, *self),
    {
        let base: i64 = if self.months == 0 {
            t
        } else {
            let mc: u32 = if self.months > MONTHS_CAP {
                MONTHS_CAP
            } else {
                self.months
            };
            let tc: i64 = if t > CAL_RANGE_MILLIS {
                CAL_RANGE_MILLIS
            } else if t < -CAL_RANGE_MILLIS {
                -CAL_RANGE_MILLIS
            } else {
                t
            };
            months_add(tc, mc as i64)
        };
        sat_add_i64(base, self.millis as i128)
    }

    /// Steps `t` backward by this interval: raw milliseconds first, then
    /// calendar months, mirroring `add`.
    pub fn sub(&self, t: i64) -> (r: i64)
        ensures
            r as int == spec_interval_sub(t as int, *self),
    {
        let base: i64 = sat_add_i64(t, -(self.millis as i128));
        if self.months == 0 {
            base
        } else {
            let mc: u32 = if self.months > MONTHS_CAP {
                MONTHS_CAP
            } else {
                self.months
            };
            let tc: i64 = if base > CAL_RANGE_MILLIS {
                CAL_RANGE_MILLIS
            } else if base < -CAL_RANGE_MILLIS {
                -CAL_RANGE_MILLIS
            } else {
                base
            };
            months_add(tc, -(mc as i64))
        }
    }
}

} // verus!
