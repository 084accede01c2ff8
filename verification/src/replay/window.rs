//! The replay window: `window_days` back from the newest recorded run, or
//! from `--until`, so the same dataset always gives the same report.
use vstd::prelude::*;

use crate::text::{
    all_digits, byte_prefix, byte_prefix_len, chars_of, chars_range, digits_value, lemma_seq_order_basics,
    lemma_split_len, lemma_split_pieces_short, padded, parse_i64, parse_i64_chars, push_char, push_padded,
    seq_order, split, split_chars, string_of, views,
};

verus! {

#[derive(Debug, Clone, PartialEq, Eq)]
pub struct Window {
    /// Inclusive bounds, as `YYYY-MM-DD`.
    pub from: String,
    pub until: String,
}

/// Division rounding toward zero, as Rust's `/` on integers.
pub open spec fn div_trunc(a: int, b: int) -> int {
    if a >= 0 { a / b } else { -((-a) / b) }
}

/// The remainder that goes with `div_trunc`, as Rust's `%`.
pub open spec fn rem_trunc(a: int, b: int) -> int {
    if a >= 0 { a % b } else { -((-a) % b) }
}

/// Days since 1970-01-01 for a proleptic Gregorian date.
pub open spec fn days(y: int, m: int, d: int) -> int {
    let y = if m <= 2 { y - 1 } else { y };
    let era = y / 400;
    let yoe = y - era * 400;
    let mp = rem_trunc(m + 9, 12);
    let doy = div_trunc(153 * mp + 2, 5) + d - 1;
    let doe = yoe * 365 + yoe / 4 - yoe / 100 + doy;
    era * 146_097 + doe - 719_468
}

/// The date `z` days after 1970-01-01.
pub open spec fn civil(z: int) -> (int, int, int) {
    let z = z + 719_468;
    let era = z / 146_097;
    let doe = z - era * 146_097;
    let yoe = (doe - doe / 1460 + doe / 36_524 - doe / 146_096) / 365;
    let doy = doe - (365 * yoe + yoe / 4 - yoe / 100);
    let mp = (5 * doy + 2) / 153;
    let d = doy - (153 * mp + 2) / 5 + 1;
    let m = if mp < 10 { mp + 3 } else { mp - 9 };
    let y = yoe + era * 400 + if m <= 2 { 1int } else { 0int };
    (y, m, d)
}

/// The first ten bytes of a timestamp read as year, month and day: three
/// integers before and between dashes.
pub open spec fn parse_date(s: Seq<char>) -> Option<(int, int, int)> {
    match byte_prefix(s, 10) {
        None => None,
        Some(p) => {
            let parts = split(p, '-');
            if parts.len() >= 3 && parse_i64(parts[0]) is Some && parse_i64(parts[1]) is Some
                && parse_i64(parts[2]) is Some {
                Some((parse_i64(parts[0]).unwrap(), parse_i64(parts[1]).unwrap(), parse_i64(parts[2]).unwrap()))
            } else {
                None
            }
        },
    }
}

/// `YYYY-MM-DD`.
pub open spec fn date_text(date: (int, int, int)) -> Seq<char> {
    padded(date.0, 4) + seq!['-'] + padded(date.1, 2) + seq!['-'] + padded(date.2, 2)
}

/// What `contains` compares: the first ten bytes, or nothing.
pub open spec fn date_of(timestamp: Seq<char>) -> Seq<char> {
    match byte_prefix(timestamp, 10) {
        Some(p) => p,
        None => Seq::empty(),
    }
}

fn div_t(a: i64, b: i64) -> (q: i64)
    requires
        b > 0,
        a > i64::MIN,
    ensures
        q == div_trunc(a as int, b as int),
{
    if a >= 0 {
        a / b
    } else {
        -((-a) / b)
    }
}

fn rem_t(a: i64, b: i64) -> (r: i64)
    requires
        b > 0,
        a > i64::MIN,
    ensures
        r == rem_trunc(a as int, b as int),
{
    if a >= 0 {
        a % b
    } else {
        -((-a) % b)
    }
}

/// Division rounding down, as `i64::div_euclid` for a positive divisor.
fn div_floor(a: i64, b: i64) -> (q: i64)
    requires
        b > 0,
        a > i64::MIN,
    ensures
        q == (a as int) / (b as int),
{
    if a >= 0 {
        a / b
    } else {
        let q = -((-a - 1) / b) - 1;
        proof {
            let ai = a as int;
            let bi = b as int;
            let k = (-ai - 1) / bi;
            let r = (-ai - 1) % bi;
            assert(q == -k - 1);
            assert(ai / bi == -k - 1) by (nonlinear_arith)
                requires
                    bi > 0,
                    ai < 0,
                    k == (-ai - 1) / bi,
                    r == (-ai - 1) % bi,
            {
                assert(-ai - 1 == k * bi + r);
                assert(ai == (-k - 1) * bi + (bi - 1 - r));
            }
        }
        q
    }
}

/// Everything below stays well inside `i64`: the dates come from ten bytes.
pub open spec fn small(x: int) -> bool {
    -10_000_000_000 < x < 10_000_000_000
}

fn days_exec(y: i64, m: i64, d: i64) -> (r: i64)
    requires
        small(y as int),
        small(m as int),
        small(d as int),
    ensures
        r == days(y as int, m as int, d as int),
        -5_000_000_000_000 < r < 5_000_000_000_000,
{
    let y = if m <= 2 { y - 1 } else { y };
    let era = div_floor(y, 400);
    let yoe = y - era * 400;
    let mp = rem_t(m + 9, 12);
    let doy = div_t(153 * mp + 2, 5) + d - 1;
    let doe = yoe * 365 + yoe / 4 - yoe / 100 + doy;
    era * 146_097 + doe - 719_468
}

pub fn civil_exec(z: i64) -> (r: (i64, i64, i64))
    requires
        -10_000_000_000_000 < z < 10_000_000_000_000,
    ensures
        (r.0 as int, r.1 as int, r.2 as int) == civil(z as int),
{
    let z = z + 719_468;
    let era = div_floor(z, 146_097);
    let doe = z - era * 146_097;
    let yoe = (doe - doe / 1460 + doe / 36_524 - doe / 146_096) / 365;
    let doy = doe - (365 * yoe + yoe / 4 - yoe / 100);
    let mp = (5 * doy + 2) / 153;
    let d = doy - (153 * mp + 2) / 5 + 1;
    let m = if mp < 10 { mp + 3 } else { mp - 9 };
    let y = yoe + era * 400 + if m <= 2 { 1 } else { 0 };
    (y, m, d)
}

proof fn lemma_digits_small(q: Seq<char>)
    requires
        all_digits(q),
    ensures
        0 <= digits_value(q) < pow10(q.len()),
    decreases q.len(),
{
    if q.len() > 0 {
        lemma_digits_small(q.drop_last());
        assert(q.drop_last().len() + 1 == q.len());
    }
}

pub open spec fn pow10(n: nat) -> int
    decreases n,
{
    if n == 0 { 1 } else { 10 * pow10((n - 1) as nat) }
}

/// A number of at most ten characters is small.
proof fn lemma_parsed_small(q: Seq<char>)
    requires
        q.len() <= 10,
        parse_i64(q) is Some,
    ensures
        small(parse_i64(q).unwrap()),
{
    let body = if q.len() > 0 && (q[0] == '-' || q[0] == '+') { q.drop_first() } else { q };
    lemma_digits_small(body);
    assert(pow10(0) == 1);
    assert(pow10(1) == 10);
    assert(pow10(2) == 100);
    assert(pow10(3) == 1000);
    assert(pow10(4) == 10000);
    assert(pow10(5) == 100000);
    assert(pow10(6) == 1000000);
    assert(pow10(7) == 10000000);
    assert(pow10(8) == 100000000);
    assert(pow10(9) == 1000000000);
    assert(pow10(10) == 10000000000);
    assert(pow10(body.len()) <= 10000000000);
}

/// Reads the date at the start of `s`.
fn parse(s: &str) -> (r: Option<(i64, i64, i64)>)
    ensures
        match parse_date(s@) {
            Some(t) => r matches Some(x) && (x.0 as int, x.1 as int, x.2 as int) == t
                && small(t.0) && small(t.1) && small(t.2),
            None => r is None,
        },
{
    let v = chars_of(s);
    let k = match byte_prefix_len(&v, 10) {
        Some(k) => k,
        None => return None,
    };
    let head = chars_range(&v, 0, k);
    let ghost p = head@;
    proof {
        assert(p =~= v@.take(k as int));
        assert(p.len() <= 10) by {
            lemma_byte_prefix_short(s@, 10);
        }
    }
    let parts = split_chars(&head, '-');
    proof {
        lemma_split_pieces_short(p, '-');
        assert(views(parts@)[0] == parts@[0]@);
    }
    if parts.len() < 3 {
        return None;
    }
    proof {
        assert(views(parts@)[1] == parts@[1]@);
        assert(views(parts@)[2] == parts@[2]@);
    }
    let y = match parse_i64_chars(&parts[0]) {
        Some(x) => x,
        None => return None,
    };
    let m = match parse_i64_chars(&parts[1]) {
        Some(x) => x,
        None => return None,
    };
    let d = match parse_i64_chars(&parts[2]) {
        Some(x) => x,
        None => return None,
    };
    proof {
        lemma_parsed_small(parts@[0]@);
        lemma_parsed_small(parts@[1]@);
        lemma_parsed_small(parts@[2]@);
    }
    Some((y, m, d))
}

/// Ten bytes are at most ten characters.
proof fn lemma_byte_prefix_short(s: Seq<char>, n: nat)
    ensures
        byte_prefix(s, n) matches Some(p) ==> p.len() <= n,
    decreases s.len(),
{
    if n > 0 && s.len() > 0 && utf8_len_pos(s[0]) {
        lemma_byte_prefix_short(s.drop_first(), (n - crate::text::utf8_len(s[0])) as nat);
    }
}

pub open spec fn utf8_len_pos(c: char) -> bool {
    crate::text::utf8_len(c) >= 1
}

impl Window {
    /// The window of `window_days` days back from the date `until` starts
    /// with, both ends included; none where `until` does not start with one.
    pub fn ending(until: &str, window_days: u32) -> (r: Option<Window>)
        ensures
            match parse_date(until@) {
                None => r is None,
                Some(date) => r matches Some(w)
                    && w.from@ == date_text(civil(days(date.0, date.1, date.2) - window_days))
                    && w.until@ == date_of(until@),
            },
    {
        let (y, m, d) = match parse(until) {
            Some(t) => t,
            None => return None,
        };
        let back = days_exec(y, m, d) - window_days as i64;
        let (fy, fm, fd) = civil_exec(back);
        let mut from = String::new();
        proof {
            lemma_civil_bounded(back as int);
        }
        push_padded(&mut from, fy, 4);
        push_char(&mut from, '-');
        push_padded(&mut from, fm, 2);
        push_char(&mut from, '-');
        push_padded(&mut from, fd, 2);
        proof {
            assert(from@ =~= date_text(civil(days(y as int, m as int, d as int) - window_days)));
        }
        let v = chars_of(until);
        let k = match byte_prefix_len(&v, 10) {
            Some(k) => k,
            None => return None,
        };
        let head = chars_range(&v, 0, k);
        let until = string_of(&head);
        Some(Window { from, until })
    }

    /// Whether the date `timestamp` starts with falls inside the window.
    pub fn contains(&self, timestamp: &str) -> (r: bool)
        ensures
            r == (seq_order(date_of(timestamp@), self.from@) >= 0 && seq_order(date_of(timestamp@), self.until@) <= 0),
    {
        let v = chars_of(timestamp);
        let date = match byte_prefix_len(&v, 10) {
            Some(k) => string_of(&chars_range(&v, 0, k)),
            None => String::new(),
        };
        let after = crate::text::compare_str(date.as_str(), self.from.as_str());
        let before = crate::text::compare_str(date.as_str(), self.until.as_str());
        after >= 0 && before <= 0
    }
}

/// Within one 400-year era, the year and the day of the year that `civil`
/// reads off a day of the era are in range.
#[verifier::spinoff_prover]
#[verifier::rlimit(60)]
proof fn lemma_year_of_era(doe: int)
    requires
        0 <= doe <= 146_096,
    ensures
        ({
            let yoe = (doe - doe / 1460 + doe / 36_524 - doe / 146_096) / 365;
            let doy = doe - (365 * yoe + yoe / 4 - yoe / 100);
            &&& 0 <= yoe <= 399
            &&& 0 <= doy <= 365
            &&& doy == 365 ==> (yoe + 1) % 4 == 0 && ((yoe + 1) % 100 != 0 || (yoe + 1) % 400 == 0)
        }),
{
}

/// Counting back from the date that `civil` gives for day `z` lands on `z`
/// again: no day is lost or gained going from a day count to a date.
pub proof fn lemma_days_of_civil(z: int)
    ensures
        days(civil(z).0, civil(z).1, civil(z).2) == z,
{
    let zz = z + 719_468;
    let era = zz / 146_097;
    let doe = zz - era * 146_097;
    lemma_year_of_era(doe);
}

/// Whether `y` is a leap year of the Gregorian calendar.
pub open spec fn leap(y: int) -> bool {
    y % 4 == 0 && (y % 100 != 0 || y % 400 == 0)
}

/// The number of days in month `m` of year `y`.
pub open spec fn month_len(y: int, m: int) -> int {
    if m == 2 {
        if leap(y) { 29 } else { 28 }
    } else if m == 4 || m == 6 || m == 9 || m == 11 {
        30
    } else {
        31
    }
}

/// A day that the calendar has.
pub open spec fn valid_date(y: int, m: int, d: int) -> bool {
    1 <= m <= 12 && 1 <= d <= month_len(y, m)
}

/// A year of the era and a day inside one of its months give back that
/// year and month when read off their day of the era.
#[verifier::spinoff_prover]
#[verifier::rlimit(60)]
proof fn lemma_era_of_year(yoe: int, mp: int, doy: int)
    requires
        0 <= yoe <= 399,
        0 <= mp <= 11,
        (153 * mp + 2) / 5 <= doy,
        doy < (153 * mp + 2) / 5 + (if mp == 11 { if (yoe + 1) % 4 == 0 && ((yoe + 1) % 100 != 0 || (yoe + 1) % 400 == 0) { 29int } else { 28int } }
            else if mp == 1 || mp == 3 || mp == 6 || mp == 8 { 30int } else { 31int }),
    ensures
        ({
            let doe = yoe * 365 + yoe / 4 - yoe / 100 + doy;
            &&& 0 <= doe <= 146_096
            &&& (doe - doe / 1460 + doe / 36_524 - doe / 146_096) / 365 == yoe
            &&& (5 * doy + 2) / 153 == mp
        }),
{
}

/// A date of the calendar survives the trip through its day count: `civil`
/// of the days since 1970-01-01 gives the same year, month and day.
#[verifier::spinoff_prover]
#[verifier::rlimit(60)]
pub proof fn lemma_civil_of_days(y: int, m: int, d: int)
    requires
        valid_date(y, m, d),
    ensures
        civil(days(y, m, d)) == (y, m, d),
{
    let y1 = if m <= 2 { y - 1 } else { y };
    let era = y1 / 400;
    let yoe = y1 - era * 400;
    let mp = rem_trunc(m + 9, 12);
    assert(mp == if m <= 2 { m + 9 } else { m - 3 });
    let doy = div_trunc(153 * mp + 2, 5) + d - 1;
    assert(m == 2 ==> (leap(y) <==> ((yoe + 1) % 4 == 0 && ((yoe + 1) % 100 != 0 || (yoe + 1) % 400 == 0)))) by {
        assert(y == era * 400 + yoe + 1 || m != 2);
    }
    lemma_era_of_year(yoe, mp, doy);
    let doe = yoe * 365 + yoe / 4 - yoe / 100 + doy;
    assert(days(y, m, d) == era * 146_097 + doe - 719_468);
    assert((era * 146_097 + doe) / 146_097 == era);
}

/// Every day count names a day the calendar has: the month `civil` gives
/// is one of the twelve, and the day is inside it.
#[verifier::spinoff_prover]
#[verifier::rlimit(60)]
pub proof fn lemma_civil_valid(z: int)
    ensures
        valid_date(civil(z).0, civil(z).1, civil(z).2),
{
    let zz = z + 719_468;
    let era = zz / 146_097;
    let doe = zz - era * 146_097;
    lemma_year_of_era(doe);
    let yoe = (doe - doe / 1460 + doe / 36_524 - doe / 146_096) / 365;
    let doy = doe - (365 * yoe + yoe / 4 - yoe / 100);
    let mp = (5 * doy + 2) / 153;
    assert(0 <= mp <= 11);
    let y = civil(z).0;
    assert(mp == 11 ==> y == era * 400 + yoe + 1);
    assert(mp == 11 && doy == 365 ==> leap(y));
}

/// Going `n` days forward from a date of the calendar and then `n` days
/// back gives that date again: what `add_days` computes, on the parts.
pub proof fn lemma_days_there_and_back(y: int, m: int, d: int, n: int)
    requires
        valid_date(y, m, d),
    ensures
        ({
            let there = civil(days(y, m, d) + n);
            civil(days(there.0, there.1, there.2) - n) == (y, m, d)
        }),
{
    lemma_days_of_civil(days(y, m, d) + n);
    lemma_civil_of_days(y, m, d);
}

/// The parts of a date are far from `i64::MIN`.
pub(crate) proof fn lemma_civil_bounded(z: int)
    requires
        -10_000_000_000_000 < z < 10_000_000_000_000,
    ensures
        civil(z).0 > i64::MIN,
        civil(z).1 > i64::MIN,
        civil(z).2 > i64::MIN,
{
}

} // verus!

verus! {

/// The date `n` days after the one `date` starts with, as `YYYY-MM-DD`;
/// none where `date` does not start with one.
pub fn add_days(date: &str, n: i64) -> (r: Option<String>)
    requires
        -1_000_000_000_000 <= n <= 1_000_000_000_000,
    ensures
        match parse_date(date@) {
            None => r is None,
            Some(t) => r matches Some(s) && s@ == date_text(civil(days(t.0, t.1, t.2) + n)),
        },
{
    let (y, m, d) = match parse(date) {
        Some(t) => t,
        None => return None,
    };
    let z = days_exec(y, m, d) + n;
    let (fy, fm, fd) = civil_exec(z);
    proof {
        lemma_civil_bounded(z as int);
    }
    let mut out = String::new();
    push_padded(&mut out, fy, 4);
    push_char(&mut out, '-');
    push_padded(&mut out, fm, 2);
    push_char(&mut out, '-');
    push_padded(&mut out, fd, 2);
    proof {
        assert(out@ =~= date_text(civil(days(y as int, m as int, d as int) + n)));
    }
    Some(out)
}

} // verus!
