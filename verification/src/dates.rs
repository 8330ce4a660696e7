//! Calendar arithmetic on LDBC timestamps: day numbers since 1970-01-01 in the
//! proleptic Gregorian calendar, and the parsing of `YYYY-MM-DDTHH:MM:SS.mmm...`
//! creation dates into (year, day) and epoch milliseconds.
use vstd::prelude::*;
use crate::numtext::{parse_i64, spec_parse_i64};
use vstd::string::StringSliceAdditionalSpecFns;

verus! {

/// Integer division rounding toward zero (what `/` does on Rust integers), for `b > 0`.
pub open spec fn tdiv(a: int, b: int) -> int {
    if a >= 0 {
        a / b
    } else {
        -((-a) / b)
    }
}

/// The year counted from March: January and February belong to the year before.
pub open spec fn march_year(y: int, m: int) -> int {
    if m <= 2 {
        y - 1
    } else {
        y
    }
}

/// The 400-year era that a March-based year falls in.
pub open spec fn era_of(yy: int) -> int {
    tdiv(if yy >= 0 { yy } else { yy - 399 }, 400)
}

/// Months counted from March (March = 0, ..., February = 11).
pub open spec fn month_from_march(m: int) -> int {
    if m > 2 {
        m - 3
    } else {
        m + 9
    }
}

/// Day of the March-based year.
pub open spec fn day_of_march_year(m: int, d: int) -> int {
    tdiv(153 * month_from_march(m) + 2, 5) + d - 1
}

/// Day of the 400-year era.
pub open spec fn day_of_era(yy: int, m: int, d: int) -> int {
    let yoe = yy - era_of(yy) * 400;
    yoe * 365 + tdiv(yoe, 4) - tdiv(yoe, 100) + day_of_march_year(m, d)
}

/// Days since 1970-01-01 of the date `y-m-d`.
pub open spec fn civil_days(y: int, m: int, d: int) -> int {
    let yy = march_year(y, m);
    era_of(yy) * 146097 + day_of_era(yy, m, d) - 719468
}

/// Whether `x` fits an `i64`.
pub open spec fn fits(x: int) -> bool {
    i64::MIN <= x <= i64::MAX
}

/// Every intermediate value of the day-number computation fits an `i64`
/// (beyond that, the computation overflows).
pub open spec fn civil_fits(y: int, m: int, d: int) -> bool {
    let yy = march_year(y, m);
    let shifted = if yy >= 0 { yy } else { yy - 399 };
    let era = era_of(yy);
    let yoe = yy - era * 400;
    let q = tdiv(153 * month_from_march(m) + 2, 5);
    let doy = day_of_march_year(m, d);
    let doe = day_of_era(yy, m, d);
    &&& fits(yy)
    &&& fits(shifted)
    &&& fits(153 * month_from_march(m))
    &&& fits(153 * month_from_march(m) + 2)
    &&& fits(q + d)
    &&& fits(doy)
    &&& fits(yoe * 365 + tdiv(yoe, 4) + doy)
    &&& fits(doe)
    &&& fits(era * 146097)
    &&& fits(era * 146097 + doe)
    &&& fits(era * 146097 + doe - 719468)
}

proof fn lemma_era(yy: int)
    ensures
        era_of(yy) == yy / 400,
        yy - era_of(yy) * 400 == yy % 400,
        0 <= yy - era_of(yy) * 400 < 400,
{
    if yy < 0 {
        assert(tdiv(yy - 399, 400) == -((399 - yy) / 400));
    }
}

/// Days since 1970-01-01 of the proleptic-Gregorian date `y-m-d` (Howard
/// Hinnant's algorithm), so date-range filters and N-day windows become integer
/// comparisons.
pub fn days_from_civil(y: i64, m: i64, d: i64) -> (days: i64)
    requires
        civil_fits(y as int, m as int, d as int),
    ensures
        days == civil_days(y as int, m as int, d as int),
{
    proof {
        lemma_era(march_year(y as int, m as int));
    }
    let y = if m <= 2 { y - 1 } else { y };
    let era = (if y >= 0 { y } else { y - 399 }) / 400;
    let yoe = y - era * 400;
    let doy = (153 * (if m > 2 { m - 3 } else { m + 9 }) + 2) / 5 + d - 1;
    let doe = yoe * 365 + yoe / 4 - yoe / 100 + doy;
    era * 146097 + doe - 719468
}

/// Whether byte index `i` of `b` starts a character or is its end (where
/// Rust lets a string be sliced).
pub open spec fn on_boundary(b: Seq<u8>, i: int) -> bool {
    i == b.len() || (0 <= i < b.len() && !(128 <= b[i] < 192))
}

/// The bytes `lo..hi` of `b`.
pub open spec fn bytes_at(b: Seq<u8>, lo: int, hi: int) -> Seq<u8> {
    b.subrange(lo, hi)
}

/// `(year, days since epoch)` of a creation date whose first ten bytes are
/// `YYYY-MM-DD`: year from bytes 0..4, month from 5..7, day from 8..10.
pub open spec fn spec_parse_date(b: Seq<u8>) -> Option<(i64, i64)> {
    if b.len() < 10 {
        None
    } else {
        match (
            spec_parse_i64(bytes_at(b, 0, 4)),
            spec_parse_i64(bytes_at(b, 5, 7)),
            spec_parse_i64(bytes_at(b, 8, 10)),
        ) {
            (Some(y), Some(m), Some(d)) => Some((y, civil_days(y as int, m as int, d as int) as i64)),
            _ => None,
        }
    }
}

/// Slicing the date fields never cuts a character: each field is cut only once
/// the fields before it have parsed (a cut inside a character is a panic).
pub open spec fn date_cuts_ok(b: Seq<u8>) -> bool {
    b.len() < 10 || (on_boundary(b, 4) && (spec_parse_i64(bytes_at(b, 0, 4)) is None || (
    on_boundary(b, 5) && on_boundary(b, 7) && (spec_parse_i64(bytes_at(b, 5, 7)) is None || (
    on_boundary(b, 8) && on_boundary(b, 10))))))
}

pub(crate) proof fn lemma_short_i64(b: Seq<u8>)
    requires
        b.len() <= 4,
        spec_parse_i64(b) is Some,
    ensures
        -9999 <= spec_parse_i64(b).unwrap() <= 9999,
{
    let (neg, ds) = crate::numtext::split_sign(b, true).unwrap();
    lemma_digits_bound(ds);
}

pub(crate) proof fn lemma_digits_bound(ds: Seq<u8>)
    requires
        crate::numtext::all_digits(ds, 10),
    ensures
        ds.len() == 0 ==> crate::numtext::digits_value(ds, 10) == 0,
        ds.len() <= 1 ==> crate::numtext::digits_value(ds, 10) <= 9,
        ds.len() <= 2 ==> crate::numtext::digits_value(ds, 10) <= 99,
        ds.len() <= 3 ==> crate::numtext::digits_value(ds, 10) <= 999,
        ds.len() <= 4 ==> crate::numtext::digits_value(ds, 10) <= 9999,
    decreases ds.len(),
{
    if ds.len() > 0 {
        let p = ds.drop_last();
        assert forall|i: int| 0 <= i < p.len() implies (#[trigger] crate::numtext::digit_value(
            p[i],
            10,
        )) is Some by {
            assert(p[i] == ds[i]);
        }
        lemma_digits_bound(p);
        assert(crate::numtext::digit_value(ds[ds.len() - 1], 10) is Some);
    }
}

/// Parse an LDBC creation date (`2010-02-24T08:06:02.996+00:00`) into
/// `(year, days since epoch)`; `None` when shorter than ten bytes or a field
/// does not parse.
pub fn parse_date(s: &str) -> (r: Option<(i64, i64)>)
    requires
        date_cuts_ok(s.spec_bytes()),
    ensures
        r == spec_parse_date(s.spec_bytes()),
{
    let b = s.as_bytes();
    if b.len() < 10 {
        return None;
    }
    let y = match parse_i64(&b[0..4]) {
        Some(v) => v,
        None => return None,
    };
    let m = match parse_i64(&b[5..7]) {
        Some(v) => v,
        None => return None,
    };
    let d = match parse_i64(&b[8..10]) {
        Some(v) => v,
        None => return None,
    };
    proof {
        lemma_short_i64(bytes_at(b@, 0, 4));
        lemma_short_i64(bytes_at(b@, 5, 7));
        lemma_short_i64(bytes_at(b@, 8, 10));
        lemma_era(march_year(y as int, m as int));
    }
    Some((y, days_from_civil(y, m, d)))
}

/// What `s.get(lo..hi).and_then(|x| x.parse().ok())` gives: the field's
/// value when the range lies inside the string on character boundaries and parses.
pub open spec fn spec_field(b: Seq<u8>, lo: int, hi: int) -> Option<i64> {
    if lo <= hi <= b.len() && on_boundary(b, lo) && on_boundary(b, hi) {
        spec_parse_i64(bytes_at(b, lo, hi))
    } else {
        None
    }
}

/// Value of an optional field, 0 when absent.
pub open spec fn or_zero(v: Option<i64>) -> int {
    match v {
        Some(x) => x as int,
        None => 0,
    }
}

/// The fractional milliseconds `.mmm` at bytes 19..23, 0 when absent.
pub open spec fn spec_millis(b: Seq<u8>) -> int {
    if b.len() >= 23 && b[19] == 46u8 {
        or_zero(spec_parse_i64(bytes_at(b, 20, 23)))
    } else {
        0
    }
}

/// Epoch milliseconds of a creation date: its day number plus the hour
/// (bytes 11..13), minute (14..16), second (17..19) and milliseconds, each 0
/// where missing; 0 when the date itself does not parse.
pub open spec fn spec_parse_ms(b: Seq<u8>) -> int {
    match spec_parse_date(b) {
        None => 0,
        Some((_, day)) => day * 86_400_000 + or_zero(spec_field(b, 11, 13)) * 3_600_000
            + or_zero(spec_field(b, 14, 16)) * 60_000 + or_zero(spec_field(b, 17, 19)) * 1_000
            + spec_millis(b),
    }
}

/// Slicing never cuts a character while computing [`parse_ms`].
pub open spec fn ms_cuts_ok(b: Seq<u8>) -> bool {
    &&& date_cuts_ok(b)
    &&& (spec_parse_date(b) is None || !(b.len() >= 23 && b[19] == 46u8) || on_boundary(b, 23))
}

pub(crate) fn is_boundary(b: &[u8], i: usize) -> (r: bool)
    ensures
        r == on_boundary(b@, i as int),
{
    i == b.len() || (i < b.len() && !(128 <= b[i] && b[i] < 192))
}

fn field(b: &[u8], lo: usize, hi: usize) -> (r: i64)
    ensures
        r == or_zero(spec_field(b@, lo as int, hi as int)),
        -9999 <= r <= 9999 || hi - lo > 4,
{
    if lo <= hi && hi <= b.len() && is_boundary(b, lo) && is_boundary(b, hi) {
        match parse_i64(&b[lo..hi]) {
            Some(v) => {
                proof {
                    if hi - lo <= 4 {
                        lemma_short_i64(bytes_at(b@, lo as int, hi as int));
                    }
                }
                v
            },
            None => 0,
        }
    } else {
        0
    }
}

proof fn lemma_date_bounds(b: Seq<u8>)
    requires
        spec_parse_date(b) is Some,
    ensures
        -10_000_000 <= spec_parse_date(b).unwrap().1 <= 10_000_000,
{
    let y = spec_parse_i64(bytes_at(b, 0, 4)).unwrap();
    let m = spec_parse_i64(bytes_at(b, 5, 7)).unwrap();
    let d = spec_parse_i64(bytes_at(b, 8, 10)).unwrap();
    lemma_short_i64(bytes_at(b, 0, 4));
    lemma_short_i64(bytes_at(b, 5, 7));
    lemma_short_i64(bytes_at(b, 8, 10));
    lemma_era(march_year(y as int, m as int));
}

/// Parse an LDBC creation date into epoch milliseconds (for sub-day timing
/// comparisons); 0 when the date does not parse.
pub fn parse_ms(s: &str) -> (r: i64)
    requires
        ms_cuts_ok(s.spec_bytes()),
    ensures
        r == spec_parse_ms(s.spec_bytes()),
{
    let day = match parse_date(s) {
        Some((_, day)) => day,
        None => return 0,
    };
    let b = s.as_bytes();
    proof {
        lemma_date_bounds(b@);
    }
    let h = field(b, 11, 13);
    let mi = field(b, 14, 16);
    let se = field(b, 17, 19);
    let ms: i64 = if b.len() >= 23 && b[19] == 46 {
        match parse_i64(&b[20..23]) {
            Some(v) => {
                proof {
                    lemma_short_i64(bytes_at(b@, 20, 23));
                }
                v
            },
            None => 0,
        }
    } else {
        0
    };
    day * 86_400_000 + h * 3_600_000 + mi * 60_000 + se * 1_000 + ms
}

/// Gregorian leap year.
pub open spec fn is_leap(y: int) -> bool {
    y % 4 == 0 && (y % 100 != 0 || y % 400 == 0)
}

/// Number of days in month `m` (1..=12) of year `y`.
pub open spec fn month_len(y: int, m: int) -> int {
    if m == 2 {
        if is_leap(y) {
            29
        } else {
            28
        }
    } else if m == 4 || m == 6 || m == 9 || m == 11 {
        30
    } else {
        31
    }
}

/// Day 0 is 1970-01-01.
pub proof fn law_epoch()
    ensures
        civil_days(1970, 1, 1) == 0,
{
    lemma_era(1969);
}

/// The next day of the month is the next day number.
pub proof fn law_next_day(y: int, m: int, d: int)
    ensures
        civil_days(y, m, d + 1) == civil_days(y, m, d) + 1,
{
}

/// Days before March 1st of the March-based year `yy`, counted from the era origin.
spec fn march_first(yy: int) -> int {
    era_of(yy) * 146097 + day_of_era(yy, 3, 1)
}

#[verifier::spinoff_prover]
#[verifier::rlimit(50)]
proof fn lemma_march_first_step(yy: int)
    ensures
        march_first(yy + 1) == march_first(yy) + if is_leap(yy + 1) { 366int } else { 365int },
{
    lemma_era(yy);
    lemma_era(yy + 1);
    let e = yy / 400;
    let r = yy % 400;
    if r == 399 {
        assert(era_of(yy + 1) == e + 1);
        assert(yy + 1 - era_of(yy + 1) * 400 == 0);
        assert((yy + 1) % 400 == 0);
    } else {
        assert(era_of(yy + 1) == e);
        assert(yy + 1 - era_of(yy + 1) * 400 == r + 1);
        assert((yy + 1) % 4 == (r + 1) % 4);
        assert((yy + 1) % 100 == (r + 1) % 100);
        assert((yy + 1) % 400 == r + 1);
    }
}

/// Each month is followed by the next after exactly its length in days, and
/// December by January of the next year.
pub proof fn law_month_lengths(y: int, m: int)
    requires
        1 <= m <= 12,
    ensures
        m < 12 ==> civil_days(y, m + 1, 1) == civil_days(y, m, 1) + month_len(y, m),
        m == 12 ==> civil_days(y + 1, 1, 1) == civil_days(y, 12, 1) + 31,
{
    lemma_era(y);
    lemma_era(y - 1);
    if m == 2 {
        lemma_march_first_step(y - 1);
    }
}

/// The calendar repeats every 400 years, which hold 146097 days.
pub proof fn law_four_centuries(y: int, m: int, d: int)
    ensures
        civil_days(y + 400, m, d) == civil_days(y, m, d) + 146097,
{
    let yy = march_year(y, m);
    lemma_era(yy);
    lemma_era(yy + 400);
    assert(march_year(y + 400, m) == yy + 400);
    assert((yy + 400) / 400 == yy / 400 + 1);
    assert((yy + 400) % 400 == yy % 400);
}

/// The month that `s.get(5..7).and_then(|m| m.parse().ok()).unwrap_or(1)`
/// gives: bytes 5..7 read as an integer when they lie on character
/// boundaries and read, 1 otherwise.
pub open spec fn spec_month_or_one(b: Seq<u8>) -> i64 {
    match spec_field(b, 5, 7) {
        Some(m) => m,
        None => 1,
    }
}

/// `s.get(5..7).and_then(|m| m.parse().ok()).unwrap_or(1)`.
pub fn month_or_one(s: &str) -> (r: i64)
    ensures
        r == spec_month_or_one(s.spec_bytes()),
        -9999 <= r <= 9999,
{
    let b = s.as_bytes();
    if 7 <= b.len() && is_boundary(b, 5) && is_boundary(b, 7) {
        match parse_i64(&b[5..7]) {
            Some(v) => {
                proof {
                    lemma_short_i64(bytes_at(b@, 5, 7));
                }
                v
            },
            None => 1,
        }
    } else {
        1
    }
}

/// The year of a date that parses has at most four digits.
pub proof fn lemma_date_year(b: Seq<u8>)
    requires
        spec_parse_date(b) is Some,
    ensures
        -9999 <= spec_parse_date(b).unwrap().0 <= 9999,
{
    lemma_short_i64(bytes_at(b, 0, 4));
}

/// Whether [`parse_date`] can read `s` without slicing a character apart.
pub fn date_cuts(s: &str) -> (r: bool)
    ensures
        r == date_cuts_ok(s.spec_bytes()),
{
    let b = s.as_bytes();
    if b.len() < 10 {
        return true;
    }
    if !is_boundary(b, 4) {
        return false;
    }
    if parse_i64(&b[0..4]).is_none() {
        return true;
    }
    if !(is_boundary(b, 5) && is_boundary(b, 7)) {
        return false;
    }
    if parse_i64(&b[5..7]).is_none() {
        return true;
    }
    is_boundary(b, 8) && is_boundary(b, 10)
}

/// Whether [`parse_ms`] can read `s` without slicing a character apart.
pub fn ms_cuts(s: &str) -> (r: bool)
    ensures
        r == ms_cuts_ok(s.spec_bytes()),
{
    if !date_cuts(s) {
        return false;
    }
    let b = s.as_bytes();
    match parse_date(s) {
        None => true,
        Some(_) => !(b.len() >= 23 && b[19] == 46) || is_boundary(b, 23),
    }
}

} // verus!
