//! Calendar arithmetic for extraction timestamps: proleptic Gregorian dates of day numbers,
//! and ISO-8601 UTC text of Unix times.
use vstd::prelude::*;
use vstd::string::*;
use vstd::arithmetic::div_mod::{lemma_fundamental_div_mod, lemma_fundamental_div_mod_converse};

verus! {

/// Whether `y` is a Gregorian leap year.
pub open spec fn is_leap(y: int) -> bool {
    (y % 4 == 0 && y % 100 != 0) || y % 400 == 0
}

/// Number of days of month `m` (1 to 12) of year `y`.
pub open spec fn days_in_month(y: int, m: int) -> int {
    if m == 2 {
        if is_leap(y) {
            29
        } else {
            28
        }
    } else if m == 4 || m == 6 || m == 9 || m == 11 {
        30
    } else {
        31
    }
}

/// Number of leap years among the years `1..=y` (counted backwards for `y < 0`).
pub open spec fn leaps_through(y: int) -> int {
    y / 4 - y / 100 + y / 400
}

/// Days from 1970-01-01 to January 1st of year `y`.
pub open spec fn days_before_year(y: int) -> int {
    365 * (y - 1970) + leaps_through(y - 1) - leaps_through(1969)
}

/// Days from January 1st to the first of month `m` in year `y`.
pub open spec fn days_before_month(y: int, m: int) -> int
    decreases m,
{
    if m <= 1 {
        0
    } else {
        days_before_month(y, m - 1) + days_in_month(y, m - 1)
    }
}

/// Days from 1970-01-01 to the date `y-m-d` (negative before it).
pub open spec fn days_from_civil(y: int, m: int, d: int) -> int {
    days_before_year(y) + days_before_month(y, m) + d - 1
}

/// A date that exists: a month from 1 to 12 and a day within that month.
pub open spec fn valid_date(y: int, m: int, d: int) -> bool {
    1 <= m <= 12 && 1 <= d <= days_in_month(y, m)
}

proof fn lemma_div_step(y: int, k: int)
    requires
        k > 0,
    ensures
        y / k == (y - 1) / k + if y % k == 0 {
            1int
        } else {
            0int
        },
{
    let q = (y - 1) / k;
    let r = (y - 1) % k;
    lemma_fundamental_div_mod(y - 1, k);
    if r == k - 1 {
        assert(y == (q + 1) * k + 0) by (nonlinear_arith)
            requires
                y - 1 == k * q + r,
                r == k - 1,
        ;
        lemma_fundamental_div_mod_converse(y, k, q + 1, 0);
    } else {
        assert(y == q * k + (r + 1)) by (nonlinear_arith)
            requires
                y - 1 == k * q + r,
        ;
        lemma_fundamental_div_mod_converse(y, k, q, r + 1);
    }
}

proof fn lemma_div_shift(y: int, k: int, m: int)
    requires
        k > 0,
    ensures
        (y + m * k) / k == y / k + m,
{
    lemma_fundamental_div_mod(y, k);
    assert(y + m * k == (y / k + m) * k + y % k) by (nonlinear_arith)
        requires
            y == k * (y / k) + y % k,
    ;
    lemma_fundamental_div_mod_converse(y + m * k, k, y / k + m, y % k);
}

proof fn lemma_year_step(y: int)
    ensures
        days_before_year(y + 1) == days_before_year(y) + 365 + if is_leap(y) {
            1int
        } else {
            0int
        },
{
    lemma_div_step(y, 4);
    lemma_div_step(y, 100);
    lemma_div_step(y, 400);
}

proof fn lemma_era_step(y: int)
    ensures
        days_before_year(y + 400) == days_before_year(y) + 146097,
{
    lemma_div_shift(y - 1, 4, 100);
    lemma_div_shift(y - 1, 100, 4);
    lemma_div_shift(y - 1, 400, 1);
}

proof fn lemma_eras(e: int)
    ensures
        days_before_year(2000 + 400 * e) == 10957 + 146097 * e,
    decreases if e >= 0 {
        e
    } else {
        -e
    },
{
    if e > 0 {
        lemma_eras(e - 1);
        lemma_era_step(2000 + 400 * (e - 1));
    } else if e < 0 {
        lemma_eras(e + 1);
        lemma_era_step(2000 + 400 * e);
    }
}

proof fn lemma_leap_period(e: int, k: int)
    ensures
        is_leap(2000 + 400 * e + k) == is_leap(k),
{
    let y = 2000 + 400 * e + k;
    lemma_mod_shift(k, 4, 500 + 100 * e);
    lemma_mod_shift(k, 100, 20 + 4 * e);
    lemma_mod_shift(k, 400, 5 + e);
}

proof fn lemma_mod_shift(y: int, k: int, m: int)
    requires
        k > 0,
    ensures
        (y + m * k) % k == y % k,
{
    lemma_fundamental_div_mod(y, k);
    assert(y + m * k == (y / k + m) * k + y % k) by (nonlinear_arith)
        requires
            y == k * (y / k) + y % k,
    ;
    lemma_fundamental_div_mod_converse(y + m * k, k, y / k + m, y % k);
}

/// Year `2000 + k` of an era has 366 days in its leap years.
fn year_length(k: i64) -> (n: i64)
    requires
        0 <= k < 400,
    ensures
        n == 365 + if is_leap(k as int) {
            1int
        } else {
            0int
        },
{
    if (k % 4 == 0 && k % 100 != 0) || k % 400 == 0 {
        366
    } else {
        365
    }
}

fn month_length(y: i64, m: i64) -> (n: i64)
    requires
        1 <= m <= 12,
    ensures
        n == days_in_month(y as int, m as int),
{
    if m == 2 {
        if (y % 4 == 0 && y % 100 != 0) || y % 400 == 0 {
            29
        } else {
            28
        }
    } else if m == 4 || m == 6 || m == 9 || m == 11 {
        30
    } else {
        31
    }
}

/// The date of day number `z`, counted from 1970-01-01 (day 0), in the proleptic Gregorian
/// calendar, as (year, month, day).
pub fn civil_from_days(z: i64) -> (r: (i64, u32, u32))
    requires
        z <= i64::MAX - 719468,
    ensures
        valid_date(r.0 as int, r.1 as int, r.2 as int),
        days_from_civil(r.0 as int, r.1 as int, r.2 as int) == z,
{
    // Eras of 400 years (146097 days) starting on 2000-01-01, day 10957.
    let w: i128 = z as i128 - 10957;
    let era: i128;
    let mut rest: i128;
    if w >= 0 {
        era = w / 146097;
        rest = w % 146097;
        assert(w == era * 146097 + rest) by (nonlinear_arith)
            requires
                era == w / 146097,
                rest == w % 146097,
        ;
    } else {
        let q: i128 = (-w + 146096) / 146097;
        era = -q;
        rest = w + q * 146097;
        assert(0 <= rest < 146097 && w == era * 146097 + rest) by (nonlinear_arith)
            requires
                w < 0,
                q == (-w + 146096) / 146097,
                era == -q,
                rest == w + q * 146097,
        ;
    }
    proof {
        lemma_eras(era as int);
    }
    assert(-64000000000000i128 <= era <= 64000000000000i128) by (nonlinear_arith)
        requires
            w == era * 146097 + rest,
            0 <= rest < 146097,
            -9223372036854775808 - 10957 <= w <= 9223372036854775807,
    ;
    let base: i128 = 2000 + 400 * era;
    proof {
        lemma_era_step(base as int);
    }
    let mut k: i64 = 0;
    while rest >= year_length(k) as i128
        invariant
            0 <= k < 400,
            0 <= rest,
            base == 2000 + 400 * era,
            -64000000000000i128 <= era <= 64000000000000i128,
            days_before_year(base + k) + rest == z,
            days_before_year(base + 400) == days_before_year(base as int) + 146097,
            rest + (days_before_year(base + k) - days_before_year(base as int)) < 146097,
        decreases 400 - k,
    {
        proof {
            lemma_year_step(base + k);
            lemma_leap_period(era as int, k as int);
        }
        rest = rest - year_length(k) as i128;
        k = k + 1;
        if k == 400 {
            assert(false);
        }
    }
    let y: i64 = (base + k as i128) as i64;
    proof {
        lemma_leap_period(era as int, k as int);
    }
    let mut m: i64 = 1;
    while rest >= month_length(y, m) as i128
        invariant
            1 <= m <= 12,
            0 <= rest,
            days_before_year(y as int) + days_before_month(y as int, m as int) + rest == z,
            rest < (if is_leap(y as int) { 366int } else { 365int }) - days_before_month(y as int, m as int),
        decreases 12 - m,
    {
        rest = rest - month_length(y, m) as i128;
        m = m + 1;
        if m == 13 {
            assert(days_before_month(y as int, 13) == if is_leap(y as int) { 366int } else { 365int }) by {
                reveal_with_fuel(days_before_month, 13);
            }
            assert(false);
        }
    }
    (y, m as u32, (rest + 1) as u32)
}

/// Days in year `y`.
pub open spec fn year_len(y: int) -> int {
    if is_leap(y) {
        366
    } else {
        365
    }
}

proof fn lemma_months_fill_year(y: int)
    ensures
        days_before_month(y, 13) == year_len(y),
        forall|m: int| 1 <= m <= 12 ==> #[trigger] days_before_month(y, m) + days_in_month(y, m) == days_before_month(y, m + 1),
{
    reveal_with_fuel(days_before_month, 13);
}

proof fn lemma_months_increase(y: int, a: int, b: int)
    requires
        1 <= a <= b <= 13,
    ensures
        days_before_month(y, a) <= days_before_month(y, b),
    decreases b - a,
{
    if a < b {
        lemma_months_increase(y, a, b - 1);
        assert(days_before_month(y, b) == days_before_month(y, b - 1) + days_in_month(y, b - 1));
    }
}

proof fn lemma_years_increase(a: int, b: int)
    requires
        a <= b,
    ensures
        days_before_year(a) + 365 * (b - a) <= days_before_year(b),
    decreases b - a,
{
    if a < b {
        lemma_years_increase(a, b - 1);
        lemma_year_step(b - 1);
    }
}

/// A valid date falls within its year: on or after January 1st and before the next one.
pub proof fn lemma_date_within_year(y: int, m: int, d: int)
    requires
        valid_date(y, m, d),
    ensures
        days_before_year(y) <= days_from_civil(y, m, d) < days_before_year(y + 1),
{
    lemma_months_fill_year(y);
    lemma_months_increase(y, m + 1, 13);
    lemma_months_increase(y, 1, m);
    lemma_year_step(y);
    assert(days_before_month(y, 1) == 0);
}

/// Each day number belongs to exactly one valid date.
pub proof fn lemma_date_unique(y1: int, m1: int, d1: int, y2: int, m2: int, d2: int)
    requires
        valid_date(y1, m1, d1),
        valid_date(y2, m2, d2),
        days_from_civil(y1, m1, d1) == days_from_civil(y2, m2, d2),
    ensures
        y1 == y2 && m1 == m2 && d1 == d2,
{
    lemma_date_within_year(y1, m1, d1);
    lemma_date_within_year(y2, m2, d2);
    if y1 < y2 {
        lemma_years_increase(y1 + 1, y2);
    } else if y2 < y1 {
        lemma_years_increase(y2 + 1, y1);
    } else {
        lemma_months_fill_year(y1);
        if m1 < m2 {
            lemma_months_increase(y1, m1 + 1, m2);
        } else if m2 < m1 {
            lemma_months_increase(y1, m2 + 1, m1);
        }
    }
}

/// Day numbers from 0 on (1970-01-01 and later) have years from 1970 on.
pub proof fn lemma_year_from_1970(y: int, m: int, d: int)
    requires
        valid_date(y, m, d),
        days_from_civil(y, m, d) >= 0,
    ensures
        y >= 1970,
{
    lemma_date_within_year(y, m, d);
    if y < 1970 {
        lemma_years_increase(y + 1, 1970);
    }
}

/// The character of a decimal digit.
pub open spec fn digit_char(n: nat) -> char {
    ((n + 48) as u8) as char
}

/// The decimal digits of `n`, without leading zeros.
pub open spec fn decimal(n: nat) -> Seq<char>
    decreases n,
{
    if n < 10 {
        seq![digit_char(n)]
    } else {
        decimal(n / 10).push(digit_char(n % 10))
    }
}

/// `s` padded with leading `0` characters to at least `w` characters.
pub open spec fn zero_pad(s: Seq<char>, w: nat) -> Seq<char> {
    if s.len() >= w {
        s
    } else {
        Seq::new((w - s.len()) as nat, |i: int| '0') + s
    }
}

/// The decimal digits of `n`.
pub fn decimal_chars(n: u64) -> (r: Vec<char>)
    ensures
        r@ == decimal(n as nat),
    decreases n,
{
    if n < 10 {
        let mut r: Vec<char> = Vec::new();
        r.push(((n as u8) + 48) as char);
        assert(r@ =~= seq![digit_char(n as nat)]);
        r
    } else {
        let mut r = decimal_chars(n / 10);
        r.push((((n % 10) as u8) + 48) as char);
        r
    }
}

/// Append the decimal digits of `n`, padded with zeros to at least `w` characters.
pub fn push_padded(out: &mut String, n: u64, w: usize)
    ensures
        final(out)@ == old(out)@ + zero_pad(decimal(n as nat), w as nat),
{
    let ds = decimal_chars(n);
    let ghost start = out@;
    if ds.len() < w {
        let pad = w - ds.len();
        for i in 0..pad
            invariant
                out@ == start + Seq::new(i as nat, |j: int| '0'),
        {
            out.push('0');
            assert(start + Seq::new((i + 1) as nat, |j: int| '0') =~= start + Seq::new(i as nat, |j: int| '0') + seq!['0']);
        }
    }
    let ghost mid = out@;
    for i in 0..ds.len()
        invariant
            out@ == mid + ds@.take(i as int),
    {
        out.push(ds[i]);
        assert(ds@.take(i + 1) =~= ds@.take(i as int).push(ds@[i as int]));
    }
    assert(ds@.take(ds@.len() as int) =~= ds@);
    assert(out@ =~= start + zero_pad(decimal(n as nat), w as nat));
}

/// `YYYY-MM-DDTHH:MM:SSZ` for the given fields, each zero-padded.
pub open spec fn iso_text(y: nat, mo: nat, d: nat, h: nat, mi: nat, s: nat) -> Seq<char> {
    zero_pad(decimal(y), 4) + seq!['-'] + zero_pad(decimal(mo), 2) + seq!['-'] + zero_pad(decimal(d), 2)
        + seq!['T'] + zero_pad(decimal(h), 2) + seq![':'] + zero_pad(decimal(mi), 2) + seq![':']
        + zero_pad(decimal(s), 2) + seq!['Z']
}

/// The ISO-8601 UTC text of a Unix timestamp: the date of day `secs / 86400` and the time of
/// day of the remaining seconds.
pub open spec fn iso8601_of(secs: nat, text: Seq<char>) -> bool {
    exists|y: int, m: int, d: int|
        valid_date(y, m, d) && days_from_civil(y, m, d) == secs / 86400 && y >= 0 && #[trigger] iso_text(
            y as nat,
            m as nat,
            d as nat,
            (secs % 86400) / 3600,
            (secs % 3600) / 60,
            secs % 60,
        ) == text
}

/// Convert a Unix timestamp to an ISO-8601 UTC string, e.g. `2026-07-06T22:42:04Z`.
pub fn iso8601_from_unix(secs: u64) -> (r: String)
    ensures
        iso8601_of(secs as nat, r@),
{
    let days = secs / 86400;
    let rem = secs % 86400;
    let h = rem / 3600;
    let mi = (rem % 3600) / 60;
    let s = rem % 60;
    assert(days <= 213503982334601u64);
    let (y, mo, d) = civil_from_days(days as i64);
    proof {
        lemma_year_from_1970(y as int, mo as int, d as int);
    }
    let mut out = String::new();
    push_padded(&mut out, y as u64, 4);
    out.push('-');
    push_padded(&mut out, mo as u64, 2);
    out.push('-');
    push_padded(&mut out, d as u64, 2);
    out.push('T');
    push_padded(&mut out, h, 2);
    out.push(':');
    push_padded(&mut out, mi, 2);
    out.push(':');
    push_padded(&mut out, s, 2);
    out.push('Z');
    assert((secs as nat % 3600) == rem % 3600) by (nonlinear_arith)
        requires
            rem == secs % 86400,
    ;
    assert(out@ =~= iso_text(y as nat, mo as nat, d as nat, h as nat, mi as nat, s as nat));
    assert(s == secs % 60) by (nonlinear_arith)
        requires
            rem == secs % 86400,
            s == rem % 60,
    ;
    let ghost sn = secs as nat;
    assert(out@ == iso_text(y as nat, mo as nat, d as nat, (sn % 86400) / 3600, (sn % 3600) / 60, sn % 60));
    assert(days_from_civil(y as int, mo as int, d as int) == sn / 86400);
    let ghost yi = y as int;
    let ghost mi2 = mo as int;
    let ghost di = d as int;
    assert(valid_date(yi, mi2, di) && days_from_civil(yi, mi2, di) == sn / 86400 && yi >= 0 && iso_text(
        yi as nat,
        mi2 as nat,
        di as nat,
        (sn % 86400) / 3600,
        (sn % 3600) / 60,
        sn % 60,
    ) == out@);
    out
}

/// `std::time::UNIX_EPOCH.elapsed()`: the time from the Unix epoch to the machine's clock now,
/// or nothing when the clock is set before the epoch. Nothing is stated of the value: it is
/// the machine's clock.
#[verifier::external_body]
fn elapsed_since_epoch() -> Option<core::time::Duration> {
    match std::time::UNIX_EPOCH.elapsed() {
        Ok(d) => Some(d),
        Err(_) => None,
    }
}

/// `Duration::as_secs`: the whole seconds of a duration. Nothing is stated of the value, since
/// a duration is opaque here.
pub assume_specification[ core::time::Duration::as_secs ](d: &core::time::Duration) -> u64;

/// Current UTC time as an ISO-8601 string with `Z` suffix, e.g. `2026-07-06T22:42:04Z`.
pub fn now_iso8601() -> (r: String)
    ensures
        exists|secs: nat| iso8601_of(secs, r@),
{
    let secs: u64 = match elapsed_since_epoch() {
        Some(d) => d.as_secs(),
        None => 0,
    };
    iso8601_from_unix(secs)
}

} // verus!
