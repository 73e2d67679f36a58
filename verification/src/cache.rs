//! The offline cache of revealed secrets: what it holds, where a project's
//! copy is named, and the UTC timestamp it records.
use vstd::prelude::*;
use vstd::string::*;
use crate::api::RevealedSecret;
use crate::strmap::{StringMap, pairs_to_map};
use crate::text::{zero_padded, zero_padded_string};
use vstd::arithmetic::div_mod::{lemma_hoist_over_denominator, lemma_mod_multiples_vanish};

verus! {

/// A cached copy of an environment's secrets and when it was fetched.
pub struct CachedSecrets {
    pub fetched_at: String,
    pub secrets: StringMap,
}

/// The key/value pairs of revealed secrets, in order.
pub open spec fn revealed_pairs(s: Seq<RevealedSecret>) -> Seq<(Seq<char>, Seq<char>)> {
    s.map_values(|r: RevealedSecret| (r.key@, r.value@))
}

/// Only a revealed list can be cached: `run --offline` reads it back verbatim,
/// so a cache built from a valueless answer would keep injecting an empty
/// environment. Where a key repeats, the later secret wins.
pub fn to_map(secrets: &[RevealedSecret]) -> (r: StringMap)
    ensures
        r.wf(),
        r.as_map() == pairs_to_map(revealed_pairs(secrets@)),
{
    let mut m = StringMap::new();
    let n = secrets.len();
    let mut i: usize = 0;
    assert(revealed_pairs(secrets@).take(0) =~= Seq::<(Seq<char>, Seq<char>)>::empty());
    while i < n
        invariant
            n == secrets@.len(),
            i <= n,
            m.wf(),
            m.as_map() == pairs_to_map(revealed_pairs(secrets@).take(i as int)),
        decreases n - i,
    {
        let s = &secrets[i];
        m.insert(s.key.clone(), s.value.clone());
        assert(revealed_pairs(secrets@).take(i + 1).drop_last() =~= revealed_pairs(secrets@).take(i as int));
        i = i + 1;
    }
    assert(revealed_pairs(secrets@).take(n as int) =~= revealed_pairs(secrets@));
    m
}

/// The name of the cache file of one environment: `{project}-{env}.json`.
pub fn cache_file_name(project: &str, env: &str) -> (r: String)
    ensures
        r@ == project@ + "-"@ + env@ + ".json"@,
{
    let mut out = String::from_str(project);
    out.append("-");
    out.append(env);
    out.append(".json");
    out
}

// ---------------------------------------------------------------------------
// The proleptic Gregorian calendar.

/// Leap years: divisible by 4, and by 400 if divisible by 100.
pub open spec fn is_leap_year(y: int) -> bool {
    y % 4 == 0 && (y % 100 != 0 || y % 400 == 0)
}

/// The length of month `m` (1 to 12) of year `y`.
pub open spec fn days_in_month(y: int, m: int) -> int {
    if m == 2 {
        if is_leap_year(y) { 29 } else { 28 }
    } else if m == 4 || m == 6 || m == 9 || m == 11 {
        30
    } else {
        31
    }
}

/// The days of year `y` before the first of month `m`.
pub open spec fn days_before_month(y: int, m: int) -> int
    decreases m,
{
    if m <= 1 {
        0
    } else {
        days_before_month(y, m - 1) + days_in_month(y, m - 1)
    }
}

/// The leap years among 1, 2, ..., n (or their count relative to it for n < 1).
pub open spec fn leaps_through(n: int) -> int {
    n / 4 - n / 100 + n / 400
}

/// The days from 1970-01-01 to the first of January of year `y`.
pub open spec fn days_before_year(y: int) -> int {
    365 * (y - 1970) + leaps_through(y - 1) - leaps_through(1969)
}

/// The days from 1970-01-01 to the date `y-m-d`.
pub open spec fn days_from_civil(y: int, m: int, d: int) -> int {
    days_before_year(y) + days_before_month(y, m) + d - 1
}

/// A date of the calendar.
pub open spec fn valid_date(y: int, m: int, d: int) -> bool {
    1 <= m <= 12 && 1 <= d <= days_in_month(y, m)
}

/// The date that lies `z` days after 1970-01-01.
pub open spec fn date_of_days(z: int) -> (int, int, int) {
    choose|t: (int, int, int)| valid_date(t.0, t.1, t.2) && days_from_civil(t.0, t.1, t.2) == z
}

/// The first days of the months, counted from the first of January.
proof fn lemma_month_table(y: int)
    ensures
        days_before_month(y, 1) == 0,
        days_before_month(y, 2) == 31,
        days_before_month(y, 3) == 59 + if is_leap_year(y) { 1int } else { 0int },
        days_before_month(y, 4) == 90 + if is_leap_year(y) { 1int } else { 0int },
        days_before_month(y, 5) == 120 + if is_leap_year(y) { 1int } else { 0int },
        days_before_month(y, 6) == 151 + if is_leap_year(y) { 1int } else { 0int },
        days_before_month(y, 7) == 181 + if is_leap_year(y) { 1int } else { 0int },
        days_before_month(y, 8) == 212 + if is_leap_year(y) { 1int } else { 0int },
        days_before_month(y, 9) == 243 + if is_leap_year(y) { 1int } else { 0int },
        days_before_month(y, 10) == 273 + if is_leap_year(y) { 1int } else { 0int },
        days_before_month(y, 11) == 304 + if is_leap_year(y) { 1int } else { 0int },
        days_before_month(y, 12) == 334 + if is_leap_year(y) { 1int } else { 0int },
{
    reveal_with_fuel(days_before_month, 13);
}

/// Consecutive years are 365 or 366 days apart, and later years start later.
proof fn lemma_year_lengths(a: int, b: int)
    ensures
        days_before_year(a + 1) == days_before_year(a) + 365 + if is_leap_year(a) { 1int } else { 0int },
        a < b ==> days_before_year(a + 1) <= days_before_year(b),
{
    lemma_year_step(a);
    if a < b {
        lemma_years_ordered(a + 1, b);
    }
}

#[verifier::spinoff_prover]
proof fn lemma_year_step(a: int)
    ensures
        days_before_year(a + 1) == days_before_year(a) + 365 + if is_leap_year(a) { 1int } else { 0int },
{
}

#[verifier::spinoff_prover]
proof fn lemma_years_ordered(a: int, b: int)
    requires
        a <= b,
    ensures
        days_before_year(a) <= days_before_year(b),
{
}

/// A date lies within its year.
proof fn lemma_date_in_year(y: int, m: int, d: int)
    requires
        valid_date(y, m, d),
    ensures
        days_before_year(y) <= days_from_civil(y, m, d) < days_before_year(y + 1),
{
    lemma_month_table(y);
    lemma_year_lengths(y, y + 1);
}

/// Two dates that lie the same number of days after 1970-01-01 are the same date.
pub proof fn lemma_days_from_civil_injective(y1: int, m1: int, d1: int, y2: int, m2: int, d2: int)
    requires
        valid_date(y1, m1, d1),
        valid_date(y2, m2, d2),
        days_from_civil(y1, m1, d1) == days_from_civil(y2, m2, d2),
    ensures
        y1 == y2 && m1 == m2 && d1 == d2,
{
    lemma_date_in_year(y1, m1, d1);
    lemma_date_in_year(y2, m2, d2);
    lemma_year_lengths(y1, y2);
    lemma_year_lengths(y2, y1);
    lemma_month_table(y1);
}

/// Days from the start of a 400-year era (on the first of March) to the
/// first of March of its year `y`.
pub open spec fn era_year_start(y: int) -> int {
    365 * y + y / 4 - y / 100 + y / 400
}

/// The year of an era in which its day `doe` falls.
pub open spec fn year_of_era(doe: int) -> int {
    (doe - doe / 1460 + doe / 36524 - doe / 146096) / 365
}

/// Days from the first of March to the first of month `mp` of a year that
/// starts in March (`mp` 0 is March, 11 is February).
pub open spec fn march_month_start(mp: int) -> int {
    (153 * mp + 2) / 5
}

#[verifier::rlimit(100)]
proof fn lemma_year_of_era(doe: int)
    requires
        0 <= doe <= 146096,
    ensures
        0 <= year_of_era(doe) <= 399,
        era_year_start(year_of_era(doe)) <= doe < era_year_start(year_of_era(doe) + 1),
{
}

proof fn lemma_era_year_length(yoe: int)
    requires
        0 <= yoe <= 399,
    ensures
        era_year_start(yoe + 1) - era_year_start(yoe) == 365 + if is_leap_year(yoe + 1) { 1int } else { 0int },
        era_year_start(yoe) == 365 * yoe + yoe / 4 - yoe / 100,
{
}

proof fn lemma_march_month(doy: int)
    requires
        0 <= doy <= 365,
    ensures
        0 <= (5 * doy + 2) / 153 <= 11,
        march_month_start((5 * doy + 2) / 153) <= doy,
        (5 * doy + 2) / 153 < 11 ==> doy < march_month_start((5 * doy + 2) / 153 + 1),
{
}

/// The years of an era line up with the calendar's years.
proof fn lemma_era_alignment(era: int, yoe: int)
    requires
        0 <= yoe <= 399,
    ensures
        era_year_start(400 * era + yoe) == 146097 * era + era_year_start(yoe),
        is_leap_year(400 * era + yoe + 1) == is_leap_year(yoe + 1),
{
    lemma_hoist_over_denominator(yoe, 100 * era, 4);
    lemma_hoist_over_denominator(yoe, 4 * era, 100);
    lemma_hoist_over_denominator(yoe, era, 400);
    assert(yoe + 100 * era * 4 == 400 * era + yoe) by (nonlinear_arith);
    assert(yoe + 4 * era * 100 == 400 * era + yoe) by (nonlinear_arith);
    assert(yoe + era * 400 == 400 * era + yoe) by (nonlinear_arith);
    lemma_mod_multiples_vanish(100 * era, yoe + 1, 4);
    lemma_mod_multiples_vanish(4 * era, yoe + 1, 100);
    lemma_mod_multiples_vanish(era, yoe + 1, 400);
    assert(4 * (100 * era) + (yoe + 1) == 400 * era + yoe + 1) by (nonlinear_arith);
    assert(100 * (4 * era) + (yoe + 1) == 400 * era + yoe + 1) by (nonlinear_arith);
    assert(400 * era + (yoe + 1) == 400 * era + yoe + 1);
}

/// Where the calendar's years start, counted from 0000-03-01 shifted to the epoch.
proof fn lemma_year_start_days(y: int)
    ensures
        days_before_year(y) + 59 + (if is_leap_year(y) { 1int } else { 0int }) == era_year_start(y)
            - 719468,
        days_before_year(y + 1) == era_year_start(y) - 719162,
{
    lemma_year_lengths(y, y + 1);
}

/// The date that the steps of `civil_from_days` compute from the era and the
/// day within it is the date `z` days after 1970-01-01.
proof fn lemma_civil_steps(z: int, era: int, doe: int)
    requires
        z + 719468 == 146097 * era + doe,
        0 <= doe <= 146096,
    ensures
        ({
            let yoe = year_of_era(doe);
            let doy = doe - (365 * yoe + yoe / 4 - yoe / 100);
            let mp = (5 * doy + 2) / 153;
            let d = doy - (153 * mp + 2) / 5 + 1;
            let m = if mp < 10 { mp + 3 } else { mp - 9 };
            let y = yoe + era * 400;
            let year = if m <= 2 { y + 1 } else { y };
            &&& 0 <= yoe <= 399
            &&& 0 <= doy <= 365
            &&& 0 <= mp <= 11
            &&& valid_date(year, m, d)
            &&& days_from_civil(year, m, d) == z
        }),
{
    let yoe = year_of_era(doe);
    lemma_year_of_era(doe);
    lemma_era_year_length(yoe);
    let doy = doe - (365 * yoe + yoe / 4 - yoe / 100);
    lemma_march_month(doy);
    let mp = (5 * doy + 2) / 153;
    let d = doy - (153 * mp + 2) / 5 + 1;
    let m = if mp < 10 { mp + 3 } else { mp - 9 };
    let y = yoe + era * 400;
    assert(y == 400 * era + yoe) by (nonlinear_arith)
        requires
            y == yoe + era * 400,
    ;
    lemma_era_alignment(era, yoe);
    lemma_year_start_days(y);
    lemma_month_table(y);
    lemma_month_table(y + 1);
}

/// The calendar date `z` days after 1970-01-01.
#[verifier::rlimit(30)]
pub fn civil_from_days(z: i64) -> (r: (i64, u32, u32))
    requires
        z <= i64::MAX - 719468,
    ensures
        valid_date(r.0 as int, r.1 as int, r.2 as int),
        days_from_civil(r.0 as int, r.1 as int, r.2 as int) == z,
{
    let z0 = z;
    let z = z + 719468;
    let era = if z >= 0 { z } else { z - 146096 } / 146097;
    assert(era == z / 146097);
    let doe = (z - era * 146097) as u64;
    proof {
        lemma_civil_steps(z0 as int, era as int, doe as int);
    }
    let yoe = (doe - doe / 1460 + doe / 36524 - doe / 146096) / 365;
    let y = yoe as i64 + era * 400;
    let doy = doe - (365 * yoe + yoe / 4 - yoe / 100);
    let mp = (5 * doy + 2) / 153;
    let d = (doy - (153 * mp + 2) / 5 + 1) as u32;
    let m = if mp < 10 { mp + 3 } else { mp - 9 } as u32;
    (if m <= 2 { y + 1 } else { y }, m, d)
}

/// The text of a UTC time given in seconds since the epoch:
/// `YYYY-MM-DD hh:mm:ss UTC`.
pub open spec fn utc_text(epoch: nat) -> Seq<char> {
    let date = date_of_days((epoch / 86400) as int);
    let secs = epoch % 86400;
    zero_padded(date.0 as nat, 4) + "-"@ + zero_padded(date.1 as nat, 2) + "-"@ + zero_padded(
        date.2 as nat,
        2,
    ) + " "@ + zero_padded(secs / 3600, 2) + ":"@ + zero_padded((secs % 3600) / 60, 2) + ":"@
        + zero_padded(secs % 60, 2) + " UTC"@
}

/// Formats seconds since the epoch as `YYYY-MM-DD hh:mm:ss UTC`.
pub fn format_utc(epoch: u64) -> (r: String)
    ensures
        r@ == utc_text(epoch as nat),
{
    let (year, month, day) = civil_from_days((epoch / 86400) as i64);
    let ghost z = (epoch / 86400) as int;
    proof {
        let t = date_of_days(z);
        assert(valid_date(year as int, month as int, day as int) && days_from_civil(
            year as int,
            month as int,
            day as int,
        ) == z);
        lemma_days_from_civil_injective(t.0, t.1, t.2, year as int, month as int, day as int);
        lemma_date_in_year(year as int, month as int, day as int);
        lemma_year_lengths(year as int, 1970);
    }
    let secs = epoch % 86400;
    let mut out = zero_padded_string(year as u64, 4);
    out.append("-");
    let s = zero_padded_string(month as u64, 2);
    out.append(s.as_str());
    out.append("-");
    let s = zero_padded_string(day as u64, 2);
    out.append(s.as_str());
    out.append(" ");
    let s = zero_padded_string(secs / 3600, 2);
    out.append(s.as_str());
    out.append(":");
    let s = zero_padded_string((secs % 3600) / 60, 2);
    out.append(s.as_str());
    out.append(":");
    let s = zero_padded_string(secs % 60, 2);
    out.append(s.as_str());
    out.append(" UTC");
    out
}

} // verus!

verus! {

#[verifier::external_type_specification]
#[verifier::external_body]
pub struct ExSystemTime(std::time::SystemTime);

/// Calls `SystemTime::now`. Nothing is claimed of the time it reads.
#[verifier::external_body]
fn system_now() -> std::time::SystemTime {
    std::time::SystemTime::now()
}

/// Calls `SystemTime::duration_since(UNIX_EPOCH)`; `None` for a time before
/// the epoch. Nothing is claimed of the duration.
#[verifier::external_body]
fn since_epoch(t: &std::time::SystemTime) -> Option<core::time::Duration> {
    t.duration_since(std::time::UNIX_EPOCH).ok()
}

/// Calls `Duration::as_secs`, the whole seconds of a duration. Nothing is
/// claimed of the number, since the duration is opaque here.
#[verifier::external_body]
fn whole_seconds(d: &core::time::Duration) -> u64 {
    d.as_secs()
}

/// The seconds a clock reading stands for: those since the epoch, or 0 for a
/// clock set before it.
pub open spec fn clock_seconds(secs: Option<u64>) -> nat {
    match secs {
        Some(s) => s as nat,
        None => 0,
    }
}

/// The timestamp of a clock reading given as whole seconds since the epoch
/// (`None` for a clock set before it, which reads as the epoch itself).
pub fn utc_from_clock(secs: Option<u64>) -> (r: String)
    ensures
        r@ == utc_text(clock_seconds(secs)),
{
    let s = match secs {
        Some(s) => s,
        None => 0,
    };
    format_utc(s)
}

/// The current time as `YYYY-MM-DD hh:mm:ss UTC`; a clock set before the epoch
/// reads as the epoch itself.
pub fn now_utc() -> (r: String)
    ensures
        exists|secs: Option<u64>| r@ == utc_text(clock_seconds(secs)),
{
    let now = system_now();
    let secs = match since_epoch(&now) {
        Some(d) => Some(whole_seconds(&d)),
        None => None,
    };
    utc_from_clock(secs)
}

} // verus!
