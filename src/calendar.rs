use vstd::prelude::*;

use crate::text::{
    all_digits, chars_equal, chars_of, decimal_text, decimal_u32, is_blank, is_blank_text,
    is_digit, is_space, lemma_decimal_text, lemma_decimal_u32, lemma_split_concat,
    lemma_split_single, lemma_trim_digits, lemma_two_digits, non_blank, parse_u32, push_decimal,
    push_two_digits, split_chars, split_on, string_of, trim, trim_chars, two_digits, views, words,
    words_of,
};

verus! {

pub const SECS_PER_DAY: u64 = 86400;

/// The largest epoch handled: every epoch up to it lies in a year that fits
/// in a `u32`.
pub const MAX_EPOCH: u64 = 135_000_000_000_000_000;

/// Why a date text could not be read.
#[derive(Debug, Clone, Copy, PartialEq, Eq, Structural)]
pub enum DateError {
    /// A number is missing or is not a decimal `u32`, or the day is zero.
    InvalidFormat,
    /// The month is not one of the twelve three-letter abbreviations.
    InvalidMonth,
}

/// The leap-year rule of the log calendar. Its second clause carries a
/// `y % 3200 != 0` qualifier, which is part of the rule.
pub open spec fn is_leap(y: int) -> bool {
    (y % 4 == 0 && y % 100 != 0) || (y % 400 == 0 && y % 3200 != 0)
}

pub open spec fn year_secs(y: int) -> int {
    if is_leap(y) {
        (366 * 86400) as int
    } else {
        (365 * 86400) as int
    }
}

/// Days in month `m` (0 for January) of year `y`.
pub open spec fn month_days(y: int, m: int) -> int {
    if m == 1 {
        if is_leap(y) {
            29
        } else {
            28
        }
    } else if m == 3 || m == 5 || m == 8 || m == 10 {
        30
    } else {
        31
    }
}

/// Seconds from the start of 1970 to the start of year `y`; years before
/// 1970 count as 1970.
pub open spec fn secs_before_year(y: int) -> int
    decreases y - 1970,
{
    if y <= 1970 {
        0
    } else {
        secs_before_year(y - 1) + year_secs(y - 1)
    }
}

/// Seconds from the start of year `y` to the start of its month `m`.
pub open spec fn secs_before_month(y: int, m: int) -> int
    decreases m,
{
    if m <= 0 {
        0
    } else {
        secs_before_month(y, m - 1) + month_days(y, m - 1) * 86400
    }
}

/// The epoch of a calendar reading: `d` counts from 1, the others from 0.
pub open spec fn epoch_of(y: int, m: int, d: int, h: int, mi: int, s: int) -> int {
    secs_before_year(y) + secs_before_month(y, m) + (d - 1) * 86400 + h * 3600 + mi * 60 + s
}

/// Epoch `e` falls in year `y`.
pub open spec fn in_year(e: int, y: int) -> bool {
    1970 <= y && secs_before_year(y) <= e < secs_before_year(y + 1)
}

/// `rem` seconds into year `y` fall in its month `m`.
pub open spec fn in_month(rem: int, y: int, m: int) -> bool {
    0 <= m < 12 && secs_before_month(y, m) <= rem < secs_before_month(y, m + 1)
}

pub open spec fn year_of(e: int) -> int {
    choose|y: int| #[trigger] in_year(e, y)
}

pub open spec fn month_of(e: int) -> int {
    choose|m: int| #[trigger] in_month(e - secs_before_year(year_of(e)), year_of(e), m)
}

pub open spec fn month_name(m: int) -> Seq<char> {
    if m == 0 {
        seq!['J', 'a', 'n']
    } else if m == 1 {
        seq!['F', 'e', 'b']
    } else if m == 2 {
        seq!['M', 'a', 'r']
    } else if m == 3 {
        seq!['A', 'p', 'r']
    } else if m == 4 {
        seq!['M', 'a', 'y']
    } else if m == 5 {
        seq!['J', 'u', 'n']
    } else if m == 6 {
        seq!['J', 'u', 'l']
    } else if m == 7 {
        seq!['A', 'u', 'g']
    } else if m == 8 {
        seq!['S', 'e', 'p']
    } else if m == 9 {
        seq!['O', 'c', 't']
    } else if m == 10 {
        seq!['N', 'o', 'v']
    } else {
        seq!['D', 'e', 'c']
    }
}

/// The first month from `k` on whose abbreviation is `t`.
pub open spec fn month_from(t: Seq<char>, k: int) -> Option<u32>
    decreases 12 - k,
{
    if k >= 12 || k < 0 {
        None
    } else if month_name(k) == t {
        Some(k as u32)
    } else {
        month_from(t, k + 1)
    }
}

/// The display text of epoch `e`: `Mon D HH:MM:SS YYYY`, the day unpadded.
pub open spec fn date_text(e: int) -> Seq<char> {
    let y = year_of(e);
    let m = month_of(e);
    let rem = e - secs_before_year(y) - secs_before_month(y, m);
    let hr = rem % 86400;
    let mr = hr % 3600;
    month_name(m) + seq![' '] + decimal_text((rem / 86400 + 1) as nat) + seq![' '] + two_digits(
        (hr / 3600) as nat,
    ) + seq![':'] + two_digits((mr / 60) as nat) + seq![':'] + two_digits((mr % 60) as nat)
        + seq![' '] + decimal_text(y as nat)
}

/// What reading the date text `s` gives: blank text reads as epoch 0;
/// otherwise its first four words are month, day, `HH:MM:SS` and year, each
/// of the three time fields trimmed of whitespace.
pub open spec fn parse_text(s: Seq<char>) -> Result<u64, DateError> {
    if is_blank(s) {
        Ok(0)
    } else {
        let t = words(s);
        if t.len() < 4 || decimal_u32(t[3]) is None {
            Err(DateError::InvalidFormat)
        } else if month_from(t[0], 0) is None {
            Err(DateError::InvalidMonth)
        } else {
            let c = split_on(t[2], ':');
            if decimal_u32(t[1]) is None || decimal_u32(t[1]) == Some(0u32) || c.len() < 3
                || decimal_u32(trim(c[0])) is None || decimal_u32(trim(c[1])) is None
                || decimal_u32(trim(c[2])) is None {
                Err(DateError::InvalidFormat)
            } else {
                Ok(
                    epoch_of(
                        decimal_u32(t[3])->0 as int,
                        month_from(t[0], 0)->0 as int,
                        decimal_u32(t[1])->0 as int,
                        decimal_u32(trim(c[0]))->0 as int,
                        decimal_u32(trim(c[1]))->0 as int,
                        decimal_u32(trim(c[2]))->0 as int,
                    ) as u64,
                )
            }
        }
    }
}

pub proof fn lemma_month_table(y: int)
    ensures
        secs_before_month(y, 12) == year_secs(y),
{
    reveal_with_fuel(secs_before_month, 13);
}

proof fn lemma_year_bounds(y: int)
    requires
        y >= 1970,
    ensures
        (y - 1970) * 31536000 <= secs_before_year(y) <= (y - 1970) * 31622400,
    decreases y - 1970,
{
    if y > 1970 {
        lemma_year_bounds(y - 1);
    }
}

proof fn lemma_year_mono(a: int, b: int)
    requires
        1970 <= a <= b,
    ensures
        secs_before_year(a) <= secs_before_year(b),
    decreases b - a,
{
    if a < b {
        lemma_year_mono(a, b - 1);
    }
}

proof fn lemma_month_mono(y: int, a: int, b: int)
    requires
        0 <= a <= b,
    ensures
        secs_before_month(y, a) <= secs_before_month(y, b),
    decreases b - a,
{
    if a < b {
        lemma_month_mono(y, a, b - 1);
    }
}

/// At most one year holds a given epoch.
pub proof fn lemma_year_unique(e: int, y: int)
    requires
        in_year(e, y),
    ensures
        year_of(e) == y,
{
    let z = year_of(e);
    assert(in_year(e, z));
    if z < y {
        lemma_year_mono(z + 1, y);
    } else if y < z {
        lemma_year_mono(y + 1, z);
    }
}

/// At most one month of year `y` holds a given offset.
pub proof fn lemma_month_unique(e: int, y: int, m: int)
    requires
        in_year(e, y),
        in_month(e - secs_before_year(y), y, m),
    ensures
        year_of(e) == y,
        month_of(e) == m,
{
    lemma_year_unique(e, y);
    let k = month_of(e);
    assert(in_month(e - secs_before_year(y), y, k));
    if k < m {
        lemma_month_mono(y, k + 1, m);
    } else if m < k {
        lemma_month_mono(y, m + 1, k);
    }
}

pub fn is_leap_year(y: u32) -> (r: bool)
    ensures
        r == is_leap(y as int),
{
    (y % 4 == 0 && y % 100 != 0) || (y % 400 == 0 && y % 3200 != 0)
}

fn month_secs(y: u32, m: u32) -> (r: u64)
    requires
        m < 12,
    ensures
        r == month_days(y as int, m as int) * 86400,
{
    if m == 1 {
        if is_leap_year(y) {
            29 * SECS_PER_DAY
        } else {
            28 * SECS_PER_DAY
        }
    } else if m == 3 || m == 5 || m == 8 || m == 10 {
        30 * SECS_PER_DAY
    } else {
        31 * SECS_PER_DAY
    }
}

/// Walks month by month from 1970 to the month that holds `ts`: its year,
/// its index and the epoch at which it starts.
fn locate_month(ts: u64) -> (r: (u32, u32, u64))
    requires
        ts <= MAX_EPOCH,
    ensures
        in_year(ts as int, r.0 as int),
        in_month(ts - secs_before_year(r.0 as int), r.0 as int, r.1 as int),
        r.2 == secs_before_year(r.0 as int) + secs_before_month(r.0 as int, r.1 as int),
{
    let mut year: u32 = 1970;
    let mut m: u32 = 0;
    let mut start: u64 = 0;
    loop
        invariant
            1970 <= year,
            m < 12,
            ts <= MAX_EPOCH,
            start == secs_before_year(year as int) + secs_before_month(year as int, m as int),
            start <= ts,
        decreases ts - start,
    {
        let len = month_secs(year, m);
        if start + len > ts {
            proof {
                lemma_month_table(year as int);
                lemma_month_mono(year as int, m + 1, 12);
                lemma_month_mono(year as int, 0, m as int);
                assert(in_month(ts - secs_before_year(year as int), year as int, m as int));
            }
            return (year, m, start);
        }
        start = start + len;
        if m == 11 {
            proof {
                lemma_month_table(year as int);
                lemma_year_bounds(year + 1);
                assert(secs_before_year(year + 1) == start);
                assert((year + 1 - 1970) * 31536000 <= MAX_EPOCH);
            }
            year = year + 1;
            m = 0;
        } else {
            m = m + 1;
        }
    }
}

/// The calendar year that holds `ts`.
pub fn timestamp_get_year(ts: u64) -> (r: u32)
    requires
        ts <= MAX_EPOCH,
    ensures
        in_year(ts as int, r as int),
        r == year_of(ts as int),
{
    let (year, _m, _start) = locate_month(ts);
    proof {
        lemma_year_unique(ts as int, year as int);
    }
    year
}

fn month_name_chars(m: u32) -> (r: Vec<char>)
    requires
        m < 12,
    ensures
        r@ == month_name(m as int),
{
    let r = if m == 0 {
        vec!['J', 'a', 'n']
    } else if m == 1 {
        vec!['F', 'e', 'b']
    } else if m == 2 {
        vec!['M', 'a', 'r']
    } else if m == 3 {
        vec!['A', 'p', 'r']
    } else if m == 4 {
        vec!['M', 'a', 'y']
    } else if m == 5 {
        vec!['J', 'u', 'n']
    } else if m == 6 {
        vec!['J', 'u', 'l']
    } else if m == 7 {
        vec!['A', 'u', 'g']
    } else if m == 8 {
        vec!['S', 'e', 'p']
    } else if m == 9 {
        vec!['O', 'c', 't']
    } else if m == 10 {
        vec!['N', 'o', 'v']
    } else {
        vec!['D', 'e', 'c']
    };
    assert(r@ =~= month_name(m as int));
    r
}

/// Renders `ts` as `Mon D HH:MM:SS YYYY`.
pub fn timestamp_to_date_time(ts: u64) -> (r: String)
    requires
        ts <= MAX_EPOCH,
    ensures
        r@ == date_text(ts as int),
{
    let (year, month, start) = locate_month(ts);
    proof {
        lemma_month_unique(ts as int, year as int, month as int);
    }
    let rem = ts - start;
    let hr = rem % SECS_PER_DAY;
    let mr = hr % 3600;
    let mut out = month_name_chars(month);
    out.push(' ');
    push_decimal(&mut out, rem / SECS_PER_DAY + 1);
    out.push(' ');
    push_two_digits(&mut out, hr / 3600);
    out.push(':');
    push_two_digits(&mut out, mr / 60);
    out.push(':');
    push_two_digits(&mut out, mr % 60);
    out.push(' ');
    push_decimal(&mut out, year as u64);
    assert(out@ =~= date_text(ts as int));
    string_of(&out)
}

/// The index of the month whose abbreviation is `t`.
fn month_index(t: &Vec<char>) -> (r: Option<u32>)
    ensures
        r == month_from(t@, 0),
        r matches Some(m) ==> m < 12,
{
    let mut k: u32 = 0;
    while k < 12
        invariant
            k <= 12,
            month_from(t@, 0) == month_from(t@, k as int),
        decreases 12 - k,
    {
        let name = month_name_chars(k);
        if chars_equal(&name, t) {
            return Some(k);
        }
        k += 1;
    }
    None
}

/// The epoch of a calendar reading, summed year by year, then month by month.
fn epoch_from_fields(year: u32, month: u32, day: u32, hour: u32, minute: u32, second: u32) -> (r:
    u64)
    requires
        month < 12,
        day >= 1,
    ensures
        r == epoch_of(
            year as int,
            month as int,
            day as int,
            hour as int,
            minute as int,
            second as int,
        ),
{
    let mut result: u64 = 0;
    let mut y: u32 = 1970;
    while y < year
        invariant
            1970 <= y,
            year >= 1970 ==> y <= year,
            year < 1970 ==> y == 1970,
            result == secs_before_year(y as int),
            result <= (y - 1970) * 31622400,
        decreases year - y,
    {
        if is_leap_year(y) {
            result += 366 * SECS_PER_DAY;
        } else {
            result += 365 * SECS_PER_DAY;
        }
        y += 1;
    }
    if year < 1970 {
        assert(secs_before_year(year as int) == 0);
        assert(secs_before_year(1970) == 0);
    }
    assert(result == secs_before_year(year as int));
    let mut m: u32 = 0;
    while m < month
        invariant
            m <= month < 12,
            result == secs_before_year(year as int) + secs_before_month(year as int, m as int),
            secs_before_year(year as int) <= (u32::MAX - 1970) * 31622400,
        decreases month - m,
    {
        proof {
            lemma_month_table(year as int);
            lemma_month_mono(year as int, m + 1, 12);
        }
        result += month_secs(year, m);
        m += 1;
    }
    proof {
        lemma_month_table(year as int);
        lemma_month_mono(year as int, month as int, 12);
    }
    result += SECS_PER_DAY * ((day - 1) as u64);
    result += 3600 * (hour as u64) + 60 * (minute as u64) + (second as u64);
    result
}

/// Reads `Mon D HH:MM:SS YYYY` as an epoch; blank text reads as 0.
pub fn date_time_to_timestamp(dt: String) -> (r: Result<u64, DateError>)
    ensures
        r == parse_text(dt@),
{
    let v = chars_of(dt.as_str());
    if is_blank_text(&v) {
        return Ok(0);
    }
    let t = words_of(&v);
    if t.len() < 4 {
        return Err(DateError::InvalidFormat);
    }
    assert(views(t@)[3] == t@[3]@ && views(t@)[0] == t@[0]@ && views(t@)[1] == t@[1]@
        && views(t@)[2] == t@[2]@);
    let year = match parse_u32(t[3].as_slice()) {
        Some(y) => y,
        None => return Err(DateError::InvalidFormat),
    };
    let month = match month_index(&t[0]) {
        Some(m) => m,
        None => return Err(DateError::InvalidMonth),
    };
    let day = match parse_u32(t[1].as_slice()) {
        Some(d) => d,
        None => return Err(DateError::InvalidFormat),
    };
    if day == 0 {
        return Err(DateError::InvalidFormat);
    }
    let c = split_chars(&t[2], ':');
    if c.len() < 3 {
        return Err(DateError::InvalidFormat);
    }
    assert(views(c@)[0] == c@[0]@ && views(c@)[1] == c@[1]@ && views(c@)[2] == c@[2]@);
    let hour_text = trim_chars(&c[0]);
    let minute_text = trim_chars(&c[1]);
    let second_text = trim_chars(&c[2]);
    let hour = match parse_u32(hour_text.as_slice()) {
        Some(h) => h,
        None => return Err(DateError::InvalidFormat),
    };
    let minute = match parse_u32(minute_text.as_slice()) {
        Some(x) => x,
        None => return Err(DateError::InvalidFormat),
    };
    let second = match parse_u32(second_text.as_slice()) {
        Some(x) => x,
        None => return Err(DateError::InvalidFormat),
    };
    Ok(epoch_from_fields(year, month, day, hour, minute, second))
}

proof fn lemma_year_exists(e: int, y: int)
    requires
        1970 <= y,
        secs_before_year(y) <= e,
    ensures
        exists|z: int| #[trigger] in_year(e, z),
    decreases e - secs_before_year(y),
{
    if e >= secs_before_year(y + 1) {
        lemma_year_exists(e, y + 1);
    } else {
        assert(in_year(e, y));
    }
}

proof fn lemma_month_exists(rem: int, y: int, m: int)
    requires
        0 <= m < 12,
        secs_before_month(y, m) <= rem < secs_before_month(y, 12),
    ensures
        exists|k: int| #[trigger] in_month(rem, y, k),
    decreases 12 - m,
{
    if rem >= secs_before_month(y, m + 1) {
        lemma_month_exists(rem, y, m + 1);
    } else {
        assert(in_month(rem, y, m));
    }
}

proof fn lemma_month_name(m: int)
    requires
        0 <= m < 12,
    ensures
        month_name(m).len() == 3,
        forall|i: int|
            0 <= i < 3 ==> !is_space(#[trigger] month_name(m)[i]) && month_name(m)[i] != ':',
        month_from(month_name(m), 0) == Some(m as u32),
{
    lemma_month_from(m, 0);
}

proof fn lemma_month_from(m: int, k: int)
    requires
        0 <= k <= m < 12,
    ensures
        month_from(month_name(m), k) == Some(m as u32),
    decreases m - k,
{
    if k < m {
        lemma_month_from(m, k + 1);
        let a = month_name(k);
        let b = month_name(m);
        if a == b {
            assert(a[0] == b[0] && a[1] == b[1] && a[2] == b[2]);
        }
    }
}

proof fn lemma_no_sep(s: Seq<char>, sep: char)
    requires
        all_digits(s),
        !is_digit(sep),
    ensures
        forall|i: int| 0 <= i < s.len() ==> s[i] != sep,
{
    assert forall|i: int| 0 <= i < s.len() implies s[i] != sep by {
        assert(is_digit(s[i]));
    }
}

/// How a rendered date splits: four words, the third of them three fields.
proof fn lemma_date_words(
    n: Seq<char>,
    d: Seq<char>,
    hh: Seq<char>,
    mm: Seq<char>,
    ss: Seq<char>,
    yy: Seq<char>,
)
    requires
        n.len() == 3,
        forall|i: int| 0 <= i < 3 ==> !is_space(#[trigger] n[i]) && n[i] != ':',
        d.len() >= 1 && all_digits(d),
        hh.len() >= 1 && all_digits(hh),
        mm.len() >= 1 && all_digits(mm),
        ss.len() >= 1 && all_digits(ss),
        yy.len() >= 1 && all_digits(yy),
    ensures
        words(n + seq![' '] + d + seq![' '] + (hh + seq![':'] + mm + seq![':'] + ss)
            + seq![' '] + yy) == seq![n, d, hh + seq![':'] + mm + seq![':'] + ss, yy],
        split_on(hh + seq![':'] + mm + seq![':'] + ss, ':') == seq![hh, mm, ss],
{
    let t = hh + seq![':'] + mm + seq![':'] + ss;
    lemma_no_sep(d, ' ');
    lemma_no_sep(yy, ' ');
    lemma_no_sep(hh, ':');
    lemma_no_sep(mm, ':');
    lemma_no_sep(ss, ':');
    lemma_no_sep(hh, ' ');
    lemma_no_sep(mm, ' ');
    lemma_no_sep(ss, ' ');
    assert forall|i: int| 0 <= i < t.len() implies t[i] != ' ' by {
        if i < hh.len() {
            assert(t[i] == hh[i]);
        } else if i == hh.len() {
        } else if i < hh.len() + 1 + mm.len() {
            assert(t[i] == mm[i - hh.len() - 1]);
        } else if i == hh.len() + 1 + mm.len() {
        } else {
            assert(t[i] == ss[i - hh.len() - 2 - mm.len()]);
        }
    }
    lemma_split_single(n, ' ');
    lemma_split_single(d, ' ');
    lemma_split_single(t, ' ');
    lemma_split_single(yy, ' ');
    lemma_split_concat(n, d, ' ');
    lemma_split_concat(n + seq![' '] + d, t, ' ');
    lemma_split_concat(n + seq![' '] + d + seq![' '] + t, yy, ' ');
    let text = n + seq![' '] + d + seq![' '] + t + seq![' '] + yy;
    let ps = split_on(text, ' ');
    assert(ps =~= seq![n, d, t, yy]);
    assert(!is_blank(n)) by {
        assert(!is_space(n[0]));
    }
    assert(!is_blank(d)) by {
        assert(is_digit(d[0]));
    }
    assert(!is_blank(t)) by {
        assert(is_digit(hh[0]));
        assert(t[0] == hh[0]);
    }
    assert(!is_blank(yy)) by {
        assert(is_digit(yy[0]));
    }
    reveal_with_fuel(non_blank, 5);
    assert(ps.drop_last().drop_last().drop_last().drop_last() =~= Seq::<Seq<char>>::empty());
    assert(ps.drop_last().drop_last().drop_last() =~= seq![n]);
    assert(ps.drop_last().drop_last() =~= seq![n, d]);
    assert(ps.drop_last() =~= seq![n, d, t]);
    let w = words(text);
    assert(w =~= seq![n, d, t, yy]);
    lemma_split_single(hh, ':');
    lemma_split_single(mm, ':');
    lemma_split_single(ss, ':');
    lemma_split_concat(hh, mm, ':');
    lemma_split_concat(hh + seq![':'] + mm, ss, ':');
    assert(split_on(t, ':') =~= seq![hh, mm, ss]);
}

/// Rendering an epoch and reading the text back gives the epoch again.
pub proof fn lemma_round_trip(e: u64)
    requires
        e <= MAX_EPOCH,
    ensures
        parse_text(date_text(e as int)) == Ok::<u64, DateError>(e),
{
    let e = e as int;
    lemma_year_exists(e, 1970);
    let y = year_of(e);
    assert(in_year(e, y));
    lemma_year_bounds(y);
    lemma_month_table(y);
    lemma_month_exists(e - secs_before_year(y), y, 0);
    let m = month_of(e);
    assert(in_month(e - secs_before_year(y), y, m));
    lemma_month_name(m);
    let rem = e - secs_before_year(y) - secs_before_month(y, m);
    let hr = rem % 86400;
    let mr = hr % 3600;
    let day = (rem / 86400 + 1) as nat;
    let h = (hr / 3600) as nat;
    let mi = (mr / 60) as nat;
    let sc = (mr % 60) as nat;
    let n = month_name(m);
    let d = decimal_text(day);
    let hh = two_digits(h);
    let mm = two_digits(mi);
    let ss = two_digits(sc);
    let yy = decimal_text(y as nat);
    let t = hh + seq![':'] + mm + seq![':'] + ss;
    let text = date_text(e);
    assert(text =~= n + seq![' '] + d + seq![' '] + t + seq![' '] + yy);
    assert(!is_space(text[0]));
    lemma_decimal_text(day);
    lemma_decimal_text(y as nat);
    lemma_two_digits(h);
    lemma_two_digits(mi);
    lemma_two_digits(sc);
    lemma_date_words(n, d, hh, mm, ss, yy);
    assert(y <= u32::MAX);
    lemma_decimal_u32(yy);
    lemma_decimal_u32(d);
    lemma_trim_digits(hh);
    lemma_trim_digits(mm);
    lemma_trim_digits(ss);
    lemma_decimal_u32(hh);
    lemma_decimal_u32(mm);
    lemma_decimal_u32(ss);
    assert(rem == (day - 1) * 86400 + h * 3600 + mi * 60 + sc);
    assert(epoch_of(y, m, day as int, h as int, mi as int, sc as int) == e);
}

} // verus!
