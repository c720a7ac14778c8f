//! GitHub Actions runs as Yard test runs: status mapping and run duration
//! from ISO-8601 timestamps.

use vstd::prelude::*;
use crate::text::{split_on, strip_trailing, decimal, views, owned, eq_str, chars_of, string_of,
    split_char, trim_end_char, push_decimal};

verus! {

// ── status ──────────────────────────────────────────────────────────────────

/// Yard's status for a run: by its conclusion once it has one, else by its
/// status while it is still in flight.
pub open spec fn github_status_text(conclusion: Option<Seq<char>>, status: Option<Seq<char>>) -> Seq<char> {
    match conclusion {
        Some(c) => if c == "success"@ {
            "passed"@
        } else if c == "failure"@ {
            "failed"@
        } else if c == "cancelled"@ || c == "skipped"@ {
            "cancelled"@
        } else {
            "errored"@
        },
        None => if status == Some("in_progress"@) {
            "running"@
        } else {
            "pending"@
        },
    }
}

/// A finished run's Yard status depends on its conclusion alone: a success
/// passed, a failure failed, a cancelled or skipped run is cancelled, and
/// any other conclusion is an error; a run still in flight is running while
/// GitHub says `in_progress`, else pending.
pub proof fn lemma_github_status_table(conclusion: Option<Seq<char>>, status: Option<Seq<char>>)
    ensures
        conclusion matches Some(c) && c == "success"@ ==> github_status_text(conclusion, status) == "passed"@,
        conclusion matches Some(c) && c == "failure"@ ==> github_status_text(conclusion, status) == "failed"@,
        conclusion matches Some(c) && (c == "cancelled"@ || c == "skipped"@) ==> github_status_text(conclusion, status)
            == "cancelled"@,
        conclusion matches Some(c) && c != "success"@ && c != "failure"@ && c != "cancelled"@ && c != "skipped"@
            ==> github_status_text(conclusion, status) == "errored"@,
        conclusion is None && status == Some("in_progress"@) ==> github_status_text(conclusion, status) == "running"@,
        conclusion is None && status != Some("in_progress"@) ==> github_status_text(conclusion, status) == "pending"@,
        forall|s2: Option<Seq<char>>| conclusion is Some ==> #[trigger] github_status_text(conclusion, s2)
            == github_status_text(conclusion, status),
{
    reveal_strlit("success");
    reveal_strlit("failure");
    reveal_strlit("cancelled");
    reveal_strlit("skipped");
    assert("failure"@[0] != "success"@[0]);
    assert("cancelled"@[0] != "success"@[0]);
    assert("cancelled"@[0] != "failure"@[0]);
    assert("skipped"@[1] != "success"@[1]);
    assert("skipped"@[0] != "failure"@[0]);
}

/// Map GitHub Actions' (status, conclusion) into Yard's TestRun status
/// (`pending`/`running`/`passed`/`failed`/`cancelled`/`errored`). While the
/// run is in flight `conclusion` is absent and `status` decides.
pub fn github_status_to_yard(conclusion: &Option<String>, status: &Option<String>) -> (r: String)
    ensures
        r@ == github_status_text(
            match conclusion { Some(c) => Some(c@), None => None },
            match status { Some(s) => Some(s@), None => None },
        ),
        conclusion matches Some(c) && c@ == "success"@ ==> r@ == "passed"@,
        conclusion matches Some(c) && c@ == "failure"@ ==> r@ == "failed"@,
        conclusion matches Some(c) && (c@ == "cancelled"@ || c@ == "skipped"@) ==> r@ == "cancelled"@,
        conclusion matches Some(c) && c@ != "success"@ && c@ != "failure"@ && c@ != "cancelled"@ && c@ != "skipped"@
            ==> r@ == "errored"@,
        conclusion is None ==> (status matches Some(s) && s@ == "in_progress"@ ==> r@ == "running"@),
        conclusion is None && !(status matches Some(s) && s@ == "in_progress"@) ==> r@ == "pending"@,
{
    proof {
        lemma_github_status_table(
            match conclusion { Some(c) => Some(c@), None => None },
            match status { Some(s) => Some(s@), None => None },
        );
    }
    match conclusion {
        Some(c) => {
            if eq_str(c.as_str(), "success") {
                owned("passed")
            } else if eq_str(c.as_str(), "failure") {
                owned("failed")
            } else if eq_str(c.as_str(), "cancelled") || eq_str(c.as_str(), "skipped") {
                owned("cancelled")
            } else {
                owned("errored")
            }
        },
        None => {
            let running = match status {
                Some(s) => eq_str(s.as_str(), "in_progress"),
                None => false,
            };
            if running {
                owned("running")
            } else {
                owned("pending")
            }
        },
    }
}

// ── calendar ────────────────────────────────────────────────────────────────

/// Whether `v` fits in an `i64`.
pub open spec fn in_i64(v: int) -> bool {
    i64::MIN <= v <= i64::MAX
}

/// The year the civil algorithm counts from (March-based years).
pub open spec fn civil_year(y: int, m: int) -> int {
    if m <= 2 { y - 1 } else { y }
}

/// The 400-year era of a date.
pub open spec fn civil_era(y: int, m: int) -> int {
    civil_year(y, m) / 400
}

/// The day of the era of a date.
pub open spec fn civil_doe(y: int, m: int, d: int) -> int {
    let yoe = civil_year(y, m) - civil_era(y, m) * 400;
    let mp = if m > 2 { m - 3 } else { m + 9 };
    let doy = (153 * mp + 2) / 5 + d - 1;
    yoe * 365 + yoe / 4 - yoe / 100 + doy
}

/// Days from 1970-01-01 to `y`-`m`-`d` in the proleptic Gregorian calendar
/// (Hinnant's days-from-civil).
pub open spec fn civil_days(y: int, m: int, d: int) -> int {
    civil_era(y, m) * 146097 + civil_doe(y, m, d) - 719468
}

/// The inputs on which the computation stays within its integer types.
pub open spec fn civil_fits(y: i64, m: u32, d: u32) -> bool {
    let mp = if m > 2 { m - 3 } else { m + 9 };
    let era = civil_era(y as int, m as int);
    &&& (m > 2 || y > i64::MIN)
    &&& (153 * mp + 2) / 5 + d >= 1
    &&& in_i64(era * 400)
    &&& in_i64(era * 146097)
    &&& in_i64(era * 146097 + civil_doe(y as int, m as int, d as int))
    &&& in_i64(civil_days(y as int, m as int, d as int))
}

/// Days since 1970-01-01 of the date `y`-`m`-`d`.
pub fn days_from_civil(y: i64, m: u32, d: u32) -> (r: i64)
    requires
        civil_fits(y, m, d),
    ensures
        r == civil_days(y as int, m as int, d as int),
{
    let yy: i64 = if m <= 2 { y - 1 } else { y };
    let era: i64 = match yy.checked_div_euclid(400) {
        Some(q) => q,
        None => 0,
    };
    assert(era == civil_era(y as int, m as int));
    let yoe: u64 = (yy - era * 400) as u64;
    let mm: u64 = m as u64;
    let dd: u64 = d as u64;
    let mp: u64 = if mm > 2 { mm - 3 } else { mm + 9 };
    let doy: u64 = (153 * mp + 2) / 5 + dd - 1;
    let doe: u64 = yoe * 365 + yoe / 4 - yoe / 100 + doy;
    assert(doe == civil_doe(y as int, m as int, d as int));
    era * 146097 + doe as i64 - 719468
}

/// One day later is one more day.
pub proof fn lemma_next_day(y: int, m: int, d: int)
    ensures
        civil_days(y, m, d + 1) == civil_days(y, m, d) + 1,
{
}

/// The calendar repeats every 400 years, which hold 146097 days.
pub proof fn lemma_four_centuries(y: int, m: int, d: int)
    ensures
        civil_days(y + 400, m, d) == civil_days(y, m, d) + 146097,
{
    let yy = civil_year(y, m);
    assert(civil_year(y + 400, m) == yy + 400);
    assert((yy + 400) / 400 == yy / 400 + 1) by (nonlinear_arith);
}

/// The epoch itself is day zero.
pub proof fn lemma_epoch_is_day_zero()
    ensures
        civil_days(1970, 1, 1) == 0,
{
    assert(civil_year(1970, 1) == 1969);
    assert(1969int / 400 == 4);
    assert(civil_era(1970, 1) == 4);
    assert(civil_doe(1970, 1, 1) == 135080) by {
        assert((153int * 10 + 2) / 5 == 306);
        assert(369int / 4 == 92);
        assert(369int / 100 == 3);
    }
}

// ── integers in text ────────────────────────────────────────────────────────

/// Whether `c` is an ASCII digit.
pub open spec fn is_digit(c: char) -> bool {
    '0' <= c && c <= '9'
}

/// Whether every character of `s` is an ASCII digit.
pub open spec fn all_digits(s: Seq<char>) -> bool {
    forall|i: int| 0 <= i < s.len() ==> is_digit(#[trigger] s[i])
}

/// The number the decimal digits `s` spell.
pub open spec fn digits_value(s: Seq<char>) -> nat
    decreases s.len(),
{
    if s.len() == 0 {
        0
    } else {
        digits_value(s.drop_last()) * 10 + ((s.last() as nat) - ('0' as nat)) as nat
    }
}

/// The integer `s` spells in the form `i64::from_str` accepts: an optional
/// sign, then one or more ASCII digits.
pub open spec fn parse_int(s: Seq<char>) -> Option<int> {
    if s.len() > 0 && (s[0] == '+' || s[0] == '-') {
        let r = s.drop_first();
        if r.len() > 0 && all_digits(r) {
            Some(if s[0] == '-' { -digits_value(r) } else { digits_value(r) as int })
        } else {
            None
        }
    } else if s.len() > 0 && all_digits(s) {
        Some(digits_value(s) as int)
    } else {
        None
    }
}

/// `s` read as an `i64`: `None` when it is not an integer or does not fit.
pub open spec fn parse_i64_text(s: Seq<char>) -> Option<i64> {
    match parse_int(s) {
        Some(v) => if in_i64(v) { Some(v as i64) } else { None },
        None => None,
    }
}

proof fn lemma_digits_grow(s: Seq<char>, k: int)
    requires
        0 <= k <= s.len(),
        all_digits(s),
    ensures
        digits_value(s.take(k)) <= digits_value(s),
    decreases s.len() - k,
{
    if k < s.len() {
        lemma_digits_grow(s, k + 1);
        assert(s.take(k + 1).drop_last() =~= s.take(k));
        assert(is_digit(s[k]));
    } else {
        assert(s.take(k) =~= s);
    }
}

/// Reads `v[lo..]` as digits, giving up once the value passes 2^63.
fn digits_at(v: &Vec<char>, lo: usize) -> (r: Option<u128>)
    requires
        lo <= v@.len(),
    ensures
        match r {
            Some(x) => all_digits(v@.skip(lo as int)) && x == digits_value(v@.skip(lo as int))
                && x <= 0x8000_0000_0000_0000,
            None => !all_digits(v@.skip(lo as int)) || digits_value(v@.skip(lo as int))
                > 0x8000_0000_0000_0000,
        },
{
    let ghost t = v@.skip(lo as int);
    let mut acc: u128 = 0;
    let mut i: usize = lo;
    assert(t.take(0) =~= Seq::<char>::empty());
    while i < v.len()
        invariant
            lo <= i <= v@.len(),
            t == v@.skip(lo as int),
            all_digits(t.take(i - lo)),
            acc == digits_value(t.take(i - lo)),
            acc <= 0x8000_0000_0000_0000,
        decreases v@.len() - i,
    {
        let c = v[i];
        assert(t[i - lo] == c);
        if !('0' <= c && c <= '9') {
            assert(!all_digits(t)) by {
                assert(!is_digit(t[i - lo]));
            }
            return None;
        }
        let dg: u128 = (c as u32 - '0' as u32) as u128;
        assert(t.take(i - lo + 1).drop_last() =~= t.take(i - lo));
        acc = acc * 10 + dg;
        assert(all_digits(t.take(i - lo + 1))) by {
            assert forall|q: int| 0 <= q < i - lo + 1 implies is_digit(#[trigger] t.take(i - lo + 1)[q]) by {
                if q < i - lo {
                    assert(t.take(i - lo + 1)[q] == t.take(i - lo)[q]);
                }
            }
        }
        if acc > 0x8000_0000_0000_0000 {
            proof {
                if all_digits(t) {
                    lemma_digits_grow(t, i - lo + 1);
                }
            }
            return None;
        }
        i = i + 1;
    }
    assert(t.take(i - lo) =~= t);
    Some(acc)
}

/// `s` read as an `i64`, as `i64::from_str` reads it.
pub fn parse_i64(s: &str) -> (r: Option<i64>)
    ensures
        r == parse_i64_text(s@),
{
    let v = chars_of(s);
    if v.len() == 0 {
        return None;
    }
    if v[0] == '+' || v[0] == '-' {
        assert(v@.skip(1) =~= s@.drop_first());
        if v.len() == 1 {
            return None;
        }
        match digits_at(&v, 1) {
            Some(x) => {
                if v[0] == '-' {
                    let n: i128 = 0 - (x as i128);
                    Some(n as i64)
                } else if x <= 0x7fff_ffff_ffff_ffff {
                    Some(x as i64)
                } else {
                    None
                }
            },
            None => None,
        }
    } else {
        assert(v@.skip(0) =~= s@);
        match digits_at(&v, 0) {
            Some(x) => {
                if x <= 0x7fff_ffff_ffff_ffff {
                    Some(x as i64)
                } else {
                    None
                }
            },
            None => {
                proof {
                    if all_digits(s@) {
                        assert(digits_value(s@) > 0x8000_0000_0000_0000);
                    }
                }
                None
            },
        }
    }
}

// ── timestamps ──────────────────────────────────────────────────────────────

/// Index of the first `c` in `s` at `k` or later, or -1.
pub open spec fn find_char(s: Seq<char>, c: char, k: int) -> int
    decreases s.len() - k,
{
    if k < 0 || k >= s.len() {
        -1
    } else if s[k] == c {
        k
    } else {
        find_char(s, c, k + 1)
    }
}

/// The fields of an ISO-8601 timestamp such as `2026-05-13T15:23:04Z`: year,
/// month, day, hour, minute and whole second, each as written. `None` when
/// the text does not have that shape.
pub open spec fn timestamp_fields(s: Seq<char>) -> Option<(i64, i64, i64, i64, i64, i64)> {
    let t = find_char(s, 'T', 0);
    if t < 0 {
        None
    } else {
        let dp = split_on(s.take(t), '-');
        let tp = split_on(strip_trailing(s.skip(t + 1), 'Z'), ':');
        if dp.len() != 3 || tp.len() < 3 {
            None
        } else {
            match (
                parse_i64_text(dp[0]),
                parse_i64_text(dp[1]),
                parse_i64_text(dp[2]),
                parse_i64_text(tp[0]),
                parse_i64_text(tp[1]),
                parse_i64_text(split_on(tp[2], '.')[0]),
            ) {
                (Some(y), Some(mo), Some(d), Some(h), Some(mi), Some(sec)) => Some((y, mo, d, h, mi, sec)),
                _ => None,
            }
        }
    }
}

/// The day count of parsed timestamp fields (month and day taken as `u32`).
pub open spec fn fields_days(f: (i64, i64, i64, i64, i64, i64)) -> int {
    civil_days(f.0 as int, (f.1 as u32) as int, (f.2 as u32) as int)
}

/// Seconds since the epoch of parsed timestamp fields.
pub open spec fn fields_seconds(f: (i64, i64, i64, i64, i64, i64)) -> int {
    fields_days(f) * 86400 + f.3 * 3600 + f.4 * 60 + f.5
}

/// The fields on which the seconds computation stays within `i64`.
pub open spec fn fields_fit(f: (i64, i64, i64, i64, i64, i64)) -> bool {
    let days = fields_days(f);
    &&& civil_fits(f.0, f.1 as u32, f.2 as u32)
    &&& in_i64(days * 86400)
    &&& in_i64(f.3 * 3600)
    &&& in_i64(days * 86400 + f.3 * 3600)
    &&& in_i64(f.4 * 60)
    &&& in_i64(days * 86400 + f.3 * 3600 + f.4 * 60)
    &&& in_i64(fields_seconds(f))
}

/// Timestamps whose seconds can be computed: unparsable, or parsed within
/// range.
pub open spec fn timestamp_fits(s: Seq<char>) -> bool {
    match timestamp_fields(s) {
        Some(f) => fields_fit(f),
        None => true,
    }
}

/// Seconds since the epoch of a timestamp, or `None` when it does not parse.
pub open spec fn timestamp_seconds(s: Seq<char>) -> Option<int> {
    match timestamp_fields(s) {
        Some(f) => Some(fields_seconds(f)),
        None => None,
    }
}

/// Division truncating toward zero, as Rust's `/` on signed integers.
pub open spec fn trunc_div(x: int, d: int) -> int {
    if x >= 0 { x / d } else { -((-x) / d) }
}

/// The duration text: whole minutes from `started` to `finished`, empty when
/// either does not parse or the result is negative.
pub open spec fn duration_text(started: Seq<char>, finished: Seq<char>) -> Seq<char> {
    match (timestamp_seconds(started), timestamp_seconds(finished)) {
        (Some(a), Some(b)) => {
            let m = trunc_div(b - a, 60);
            if m < 0 { Seq::empty() } else { decimal(m as nat) }
        },
        _ => Seq::empty(),
    }
}

/// The inputs on which the duration computation stays within `i64`: the
/// start fits; if it parses, the end fits; if both parse, their difference
/// fits.
pub open spec fn duration_fits(started: Seq<char>, finished: Seq<char>) -> bool {
    &&& timestamp_fits(started)
    &&& timestamp_seconds(started) is Some ==> timestamp_fits(finished)
    &&& match (timestamp_seconds(started), timestamp_seconds(finished)) {
        (Some(a), Some(b)) => in_i64(b - a),
        _ => true,
    }
}

/// The fields of an ISO-8601 timestamp (see [`timestamp_fields`]).
fn timestamp_fields_of(s: &str) -> (r: Option<(i64, i64, i64, i64, i64, i64)>)
    ensures
        r == timestamp_fields(s@),
{
    let v = chars_of(s);
    let mut t: usize = 0;
    while t < v.len() && v[t] != 'T'
        invariant
            t <= v@.len(),
            v@ == s@,
            find_char(s@, 'T', 0) == find_char(s@, 'T', t as int),
        decreases v@.len() - t,
    {
        t = t + 1;
    }
    if t == v.len() {
        return None;
    }
    let date = string_of(&v, 0, t);
    let rest = string_of(&v, t + 1, v.len());
    assert(date@ =~= s@.take(t as int));
    assert(rest@ =~= s@.skip(t + 1));
    let time = trim_end_char(rest.as_str(), 'Z');
    let dp = split_char(date.as_str(), '-');
    let tp = split_char(time.as_str(), ':');
    if dp.len() != 3 || tp.len() < 3 {
        return None;
    }
    assert(views(dp@)[0] == dp@[0]@ && views(dp@)[1] == dp@[1]@ && views(dp@)[2] == dp@[2]@);
    assert(views(tp@)[0] == tp@[0]@ && views(tp@)[1] == tp@[1]@ && views(tp@)[2] == tp@[2]@);
    let secs = split_char(tp[2].as_str(), '.');
    proof { lemma_split_nonempty(tp@[2]@, '.'); }
    assert(views(secs@)[0] == secs@[0]@);
    let y = parse_i64(dp[0].as_str());
    let mo = parse_i64(dp[1].as_str());
    let d = parse_i64(dp[2].as_str());
    let h = parse_i64(tp[0].as_str());
    let mi = parse_i64(tp[1].as_str());
    let sec = parse_i64(secs[0].as_str());
    match (y, mo, d, h, mi, sec) {
        (Some(y), Some(mo), Some(d), Some(h), Some(mi), Some(sec)) => Some((y, mo, d, h, mi, sec)),
        _ => None,
    }
}

/// Seconds since the epoch of an ISO-8601 timestamp.
fn parse_iso8601_to_epoch(s: &str) -> (r: Option<i64>)
    requires
        timestamp_fits(s@),
    ensures
        match r {
            Some(x) => timestamp_seconds(s@) == Some(x as int),
            None => timestamp_seconds(s@) is None,
        },
{
    match timestamp_fields_of(s) {
        Some((y, mo, d, h, mi, sec)) => {
            let days = days_from_civil(y, mo as u32, d as u32);
            Some(days * 86400 + h * 3600 + mi * 60 + sec)
        },
        None => None,
    }
}

/// Whether the day count of `y`-`m`-`d` can be computed (see
/// [`civil_fits`]).
fn civil_in_range(y: i64, m: u32, d: u32) -> (r: bool)
    ensures
        r == civil_fits(y, m, d),
{
    if !(m > 2 || y > i64::MIN) {
        return false;
    }
    let mp: u64 = if m > 2 { m as u64 - 3 } else { m as u64 + 9 };
    let doy1: u64 = (153 * mp + 2) / 5 + d as u64;
    if doy1 < 1 {
        return false;
    }
    let yy: i128 = if m <= 2 { y as i128 - 1 } else { y as i128 };
    let era: i128 = match yy.checked_div_euclid(400) {
        Some(q) => q,
        None => 0,
    };
    assert(era == civil_era(y as int, m as int));
    assert(era * 400 <= yy < era * 400 + 400);
    assert(-23_058_430_092_136_940 <= era <= 23_058_430_092_136_940);
    let yoe: u64 = (yy - era * 400) as u64;
    let doe: u64 = yoe * 365 + yoe / 4 - yoe / 100 + (doy1 - 1);
    assert(doe == civil_doe(y as int, m as int, d as int));
    let e400: i128 = era * 400;
    let e146: i128 = era * 146097;
    let total: i128 = e146 + doe as i128;
    let days: i128 = total - 719468;
    i64::MIN as i128 <= e400 && e400 <= i64::MAX as i128 && i64::MIN as i128 <= e146 && e146 <= i64::MAX as i128
        && i64::MIN as i128 <= total && total <= i64::MAX as i128 && i64::MIN as i128 <= days && days
        <= i64::MAX as i128
}

/// Seconds since the epoch of timestamp fields, computed wide.
fn fields_seconds_wide(f: (i64, i64, i64, i64, i64, i64)) -> (r: i128)
    requires
        civil_fits(f.0, f.1 as u32, f.2 as u32),
    ensures
        r == fields_seconds(f),
{
    let days: i128 = days_from_civil(f.0, f.1 as u32, f.2 as u32) as i128;
    days * 86400 + f.3 as i128 * 3600 + f.4 as i128 * 60 + f.5 as i128
}

/// Whether the seconds of timestamp fields can be computed (see
/// [`fields_fit`]).
fn fields_in_range(f: (i64, i64, i64, i64, i64, i64)) -> (r: bool)
    ensures
        r == fields_fit(f),
{
    if !civil_in_range(f.0, f.1 as u32, f.2 as u32) {
        return false;
    }
    let days: i128 = days_from_civil(f.0, f.1 as u32, f.2 as u32) as i128;
    let a: i128 = days * 86400;
    let b: i128 = f.3 as i128 * 3600;
    let c: i128 = f.4 as i128 * 60;
    let s: i128 = a + b + c + f.5 as i128;
    let lo: i128 = i64::MIN as i128;
    let hi: i128 = i64::MAX as i128;
    lo <= a && a <= hi && lo <= b && b <= hi && lo <= a + b && a + b <= hi && lo <= c && c <= hi && lo <= a + b + c
        && a + b + c <= hi && lo <= s && s <= hi
}

/// Whether the duration between two timestamps can be computed (see
/// [`duration_fits`]); where it cannot, the computation would overflow.
pub fn duration_in_range(started: &str, finished: &str) -> (r: bool)
    ensures
        r == duration_fits(started@, finished@),
{
    match timestamp_fields_of(started) {
        None => true,
        Some(fa) => {
            if !fields_in_range(fa) {
                return false;
            }
            let a = fields_seconds_wide(fa);
            match timestamp_fields_of(finished) {
                None => true,
                Some(fb) => {
                    if !fields_in_range(fb) {
                        return false;
                    }
                    let b = fields_seconds_wide(fb);
                    let diff: i128 = b - a;
                    i64::MIN as i128 <= diff && diff <= i64::MAX as i128
                },
            }
        },
    }
}

proof fn lemma_split_nonempty(s: Seq<char>, sep: char)
    ensures
        split_on(s, sep).len() >= 1,
    decreases s.len(),
{
    if s.len() > 0 {
        lemma_split_nonempty(s.drop_last(), sep);
    }
}

/// Minutes between two ISO-8601 timestamps, as a numeric string; empty when
/// either does not parse or the result is negative (the field is optional).
pub fn compute_duration_minutes(started: &str, finished: &str) -> (out: String)
    requires
        duration_fits(started@, finished@),
    ensures
        out@ == duration_text(started@, finished@),
{
    let a = match parse_iso8601_to_epoch(started) {
        Some(a) => a,
        None => return String::new(),
    };
    let b = match parse_iso8601_to_epoch(finished) {
        Some(b) => b,
        None => return String::new(),
    };
    let diff: i64 = b - a;
    let minutes: i64 = match diff.checked_div(60) {
        Some(q) => q,
        None => 0,
    };
    assert(minutes == trunc_div(diff as int, 60));
    if minutes < 0 {
        String::new()
    } else {
        let mut out = String::new();
        push_decimal(&mut out, minutes as u64);
        assert(out@ =~= decimal(minutes as nat));
        out
    }
}

} // verus!
