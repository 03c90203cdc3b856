//! Resolving date arguments.
//!
//! A date argument is either an absolute date `YYYY-MM-DD`, parsed strictly
//! with calendar validation, or a relative offset `{sign}{integer}{unit}`
//! (for example `+1w` or `-3d`) taken from the current date, where a week is
//! 7 days and a month and a year are the deliberate approximations 30 and
//! 365 days. Anything else resolves to nothing; absence is the only failure
//! channel.

use vstd::prelude::*;

use crate::calendar::{
    date_plus_days, day_number, in_year_range, max_day_number, min_day_number, today_date,
    valid_date, valid_date_exec, Date,
};
use crate::text::{
    chars_vec, digit_run_end, digit_val, digits_val, is_digit, is_digit_char, lemma_digit_run_end,
};

verus! {

/// Whether `s` has the exact shape `YYYY-MM-DD`: four ASCII digits, a
/// hyphen, two digits, a hyphen, two digits, and nothing else.
pub open spec fn abs_shape(s: Seq<char>) -> bool {
    &&& s.len() == 10
    &&& is_digit(s[0]) && is_digit(s[1]) && is_digit(s[2]) && is_digit(s[3])
    &&& s[4] == '-'
    &&& is_digit(s[5]) && is_digit(s[6])
    &&& s[7] == '-'
    &&& is_digit(s[8]) && is_digit(s[9])
}

/// Value of the four digits starting at `i`.
pub open spec fn four_digit_val(s: Seq<char>, i: int) -> int {
    1000 * digit_val(s[i]) + 100 * digit_val(s[i + 1]) + 10 * digit_val(s[i + 2]) + digit_val(
        s[i + 3],
    )
}

/// Value of the two digits starting at `i`.
pub open spec fn two_digit_val(s: Seq<char>, i: int) -> int {
    10 * digit_val(s[i]) + digit_val(s[i + 1])
}

/// The date an absolute `YYYY-MM-DD` text names, if the shape matches and
/// the year, month and day form a real calendar date.
pub open spec fn spec_abs_date(s: Seq<char>) -> Option<Date> {
    if abs_shape(s) {
        let d = Date {
            year: four_digit_val(s, 0) as i32,
            month: two_digit_val(s, 5) as u8,
            day: two_digit_val(s, 8) as u8,
        };
        if valid_date(d) {
            Some(d)
        } else {
            None
        }
    } else {
        None
    }
}

/// Strictly parse an absolute `YYYY-MM-DD` date.
pub fn parse_abs_date(v: &Vec<char>) -> (r: Option<Date>)
    ensures
        r == spec_abs_date(v@),
{
    if v.len() != 10 {
        return None;
    }
    if !(is_digit_char(v[0]) && is_digit_char(v[1]) && is_digit_char(v[2]) && is_digit_char(v[3])
        && is_digit_char(v[5]) && is_digit_char(v[6]) && is_digit_char(v[8]) && is_digit_char(
        v[9],
    ))
    {
        return None;
    }
    if v[4] != '-' || v[7] != '-' {
        return None;
    }
    let y: u32 = 1000 * (v[0] as u32 - 48) + 100 * (v[1] as u32 - 48) + 10 * (v[2] as u32 - 48) + (
    v[3] as u32 - 48);
    let m: u32 = 10 * (v[5] as u32 - 48) + (v[6] as u32 - 48);
    let d: u32 = 10 * (v[8] as u32 - 48) + (v[9] as u32 - 48);
    let date = Date { year: y as i32, month: m as u8, day: d as u8 };
    if valid_date_exec(&date) {
        Some(date)
    } else {
        None
    }
}

/// The digit character of a value below ten.
fn digit_to_char(n: u32) -> (r: char)
    requires
        n < 10,
    ensures
        is_digit(r),
        digit_val(r) == n,
{
    match n {
        0 => '0',
        1 => '1',
        2 => '2',
        3 => '3',
        4 => '4',
        5 => '5',
        6 => '6',
        7 => '7',
        8 => '8',
        _ => '9',
    }
}

/// Render a date as `YYYY-MM-DD`, the shape [`parse_abs_date`] reads back.
pub fn format_date(d: &Date) -> (s: String)
    requires
        0 <= d.year <= 9999,
        d.month <= 99,
        d.day <= 99,
    ensures
        abs_shape(s@),
        four_digit_val(s@, 0) == d.year,
        two_digit_val(s@, 5) == d.month,
        two_digit_val(s@, 8) == d.day,
{
    let y = d.year as u32;
    let m = d.month as u32;
    let dd = d.day as u32;
    let mut v: Vec<char> = Vec::new();
    v.push(digit_to_char(y / 1000));
    v.push(digit_to_char((y % 1000) / 100));
    v.push(digit_to_char((y % 100) / 10));
    v.push(digit_to_char(y % 10));
    v.push('-');
    v.push(digit_to_char(m / 10));
    v.push(digit_to_char(m % 10));
    v.push('-');
    v.push(digit_to_char(dd / 10));
    v.push(digit_to_char(dd % 10));
    crate::text::string_from_chars(&v)
}

/// Formatting a valid date and resolving the text gives the date back.
pub proof fn lemma_format_resolve_round_trip(d: Date, s: Seq<char>)
    requires
        valid_date(d),
        0 <= d.year <= 9999,
        abs_shape(s),
        four_digit_val(s, 0) == d.year,
        two_digit_val(s, 5) == d.month,
        two_digit_val(s, 8) == d.day,
    ensures
        spec_abs_date(s) == Some(d),
{
}

/// A relative-offset unit letter.
pub open spec fn is_unit(c: char) -> bool {
    c == 'd' || c == 'w' || c == 'm' || c == 'y'
}

/// Days one unit stands for: a day, a week, and the 30- and 365-day
/// approximations of a month and a year.
pub open spec fn unit_days(c: char) -> int {
    if c == 'd' {
        1
    } else if c == 'w' {
        7
    } else if c == 'm' {
        30
    } else {
        365
    }
}

/// Whether a relative-offset match starts at position `i`: a sign, at least
/// one digit, and a unit letter right after the digit run.
pub open spec fn rel_match_at(s: Seq<char>, i: int) -> bool {
    &&& 0 <= i < s.len()
    &&& (s[i] == '+' || s[i] == '-')
    &&& i + 1 < s.len()
    &&& is_digit(s[i + 1])
    &&& digit_run_end(s, i + 1) < s.len()
    &&& is_unit(s[digit_run_end(s, i + 1)])
}

/// First position at or after `from` where a relative offset matches
/// (the length of the sequence if there is none).
pub open spec fn find_rel_from(s: Seq<char>, from: int) -> int
    decreases s.len() - from,
{
    if !(0 <= from < s.len()) {
        from
    } else if rel_match_at(s, from) {
        from
    } else {
        find_rel_from(s, from + 1)
    }
}

/// The leftmost relative-offset match of `s`: its sign, its digit run and
/// its unit letter.
pub open spec fn spec_rel_parts(s: Seq<char>) -> Option<(char, Seq<char>, char)> {
    let i = find_rel_from(s, 0);
    if i < s.len() {
        let e = digit_run_end(s, i + 1);
        Some((s[i], s.subrange(i + 1, e), s[e]))
    } else {
        None
    }
}

/// Signed day offset a parsed relative spec stands for.
pub open spec fn rel_delta(sign: char, q: int, unit: char) -> int {
    if sign == '+' {
        q * unit_days(unit)
    } else {
        -(q * unit_days(unit))
    }
}

/// What resolving a relative spec against `today` must yield: nothing when
/// no offset matches or its quantity overflows, and otherwise exactly the
/// date the matched signed day offset away from `today` — present exactly
/// when that day lies in the supported range.
pub open spec fn rel_resolves_to(s: Seq<char>, today: Date, r: Option<Date>) -> bool {
    match spec_rel_parts(s) {
        None => r is None,
        Some(parts) => {
            let q = digits_val(parts.1);
            if q > i64::MAX as int {
                r is None
            } else {
                let target = day_number(today) + rel_delta(parts.0, q, parts.2);
                &&& (r is Some <==> min_day_number() <= target <= max_day_number())
                &&& (r matches Some(x) ==> valid_date(x) && day_number(x) == target)
            }
        },
    }
}

/// What resolving any date argument against `today` must yield: the absolute
/// date when the text is one, and otherwise whatever the relative rule gives.
pub open spec fn arg_resolves_to(s: Seq<char>, today: Date, r: Option<Date>) -> bool {
    if spec_abs_date(s) is Some {
        r == spec_abs_date(s)
    } else {
        rel_resolves_to(s, today, r)
    }
}

/// A date fit to stand for "today": a real calendar day in the supported range.
pub open spec fn today_ok(d: Date) -> bool {
    valid_date(d) && in_year_range(d)
}

proof fn lemma_digits_val_nonneg(s: Seq<char>)
    requires
        forall|k: int| 0 <= k < s.len() ==> is_digit(#[trigger] s[k]),
    ensures
        digits_val(s) >= 0,
    decreases s.len(),
{
    if s.len() > 0 {
        lemma_digits_val_nonneg(s.drop_last());
    }
}

proof fn lemma_digits_val_prefix_le(s: Seq<char>, k: int)
    requires
        forall|j: int| 0 <= j < s.len() ==> is_digit(#[trigger] s[j]),
        0 <= k <= s.len(),
    ensures
        digits_val(s.take(k)) <= digits_val(s),
    decreases s.len() - k,
{
    if k < s.len() {
        lemma_digits_val_prefix_le(s, k + 1);
        assert(s.take(k + 1).drop_last() =~= s.take(k));
        lemma_digits_val_nonneg(s.take(k));
        assert(digits_val(s.take(k + 1)) == 10 * digits_val(s.take(k)) + digit_val(s[k]));
    } else {
        assert(s.take(k) =~= s);
    }
}

/// Read the digits `v[from..to]` in base 10 as an `i64`; nothing if the
/// value does not fit.
fn parse_digits_i64(v: &Vec<char>, from: usize, to: usize) -> (r: Option<i64>)
    requires
        from <= to <= v@.len(),
        forall|k: int| from <= k < to ==> is_digit(#[trigger] v@[k]),
    ensures
        r is Some <==> digits_val(v@.subrange(from as int, to as int)) <= i64::MAX,
        r matches Some(x) ==> x == digits_val(v@.subrange(from as int, to as int)) && x >= 0,
{
    let ghost ds = v@.subrange(from as int, to as int);
    proof {
        assert(forall|j: int| 0 <= j < ds.len() ==> is_digit(#[trigger] ds[j]));
    }
    let mut acc: i64 = 0;
    let mut i = from;
    while i < to
        invariant
            from <= i <= to <= v@.len(),
            ds == v@.subrange(from as int, to as int),
            forall|j: int| 0 <= j < ds.len() ==> is_digit(#[trigger] ds[j]),
            forall|k: int| from <= k < to ==> is_digit(#[trigger] v@[k]),
            acc == digits_val(ds.take(i - from)),
            acc >= 0,
        decreases to - i,
    {
        let d: i64 = (v[i] as u32 - 48) as i64;
        proof {
            assert(ds.take(i - from + 1).drop_last() =~= ds.take(i - from));
            assert(ds.take(i - from + 1).last() == v@[i as int]);
            assert(digits_val(ds.take(i - from + 1)) == 10 * acc + d);
        }
        if acc > 922_337_203_685_477_580 || (acc == 922_337_203_685_477_580 && d > 7) {
            proof {
                lemma_digits_val_prefix_le(ds, i - from + 1);
            }
            return None;
        }
        acc = 10 * acc + d;
        i = i + 1;
    }
    proof {
        assert(ds.take(to - from) =~= ds);
    }
    Some(acc)
}

/// First position at or after `from` that does not hold an ASCII digit.
fn skip_digits(v: &Vec<char>, from: usize) -> (r: usize)
    requires
        from <= v@.len(),
    ensures
        r == digit_run_end(v@, from as int),
        from <= r <= v@.len(),
    decreases v@.len() - from,
{
    proof {
        lemma_digit_run_end(v@, from as int);
    }
    let mut i = from;
    while i < v.len() && is_digit_char(v[i])
        invariant
            from <= i <= v@.len(),
            digit_run_end(v@, from as int) == digit_run_end(v@, i as int),
        decreases v@.len() - i,
    {
        i = i + 1;
    }
    i
}

/// Resolve a relative offset spec against an explicit `today`.
///
/// The contract pins the result completely: it is present exactly when the
/// text holds a relative offset whose quantity fits an `i64` and whose
/// target day stays in the supported range, and it then lies exactly the
/// matched signed number of days away from `today`.
pub fn parse_relative_date_as_of(text: &str, today: &Date) -> (r: Option<Date>)
    requires
        today_ok(*today),
    ensures
        rel_resolves_to(text@, *today, r),
{
    let v = chars_vec(text);
    let n = v.len();
    let mut i: usize = 0;
    let mut found: bool = false;
    let mut start: usize = 0;
    while i < n && !found
        invariant
            i <= n,
            n == v@.len(),
            v@ == text@,
            !found ==> find_rel_from(v@, 0) == find_rel_from(v@, i as int),
            found ==> start < n && find_rel_from(v@, 0) == start && rel_match_at(v@, start as int),
        decreases n - i + (if found {
            0int
        } else {
            1int
        }),
    {
        let mut here: bool = false;
        if (v[i] == '+' || v[i] == '-') && i + 1 < n && is_digit_char(v[i + 1]) {
            let e = skip_digits(&v, i + 1);
            if e < n && (v[e] == 'd' || v[e] == 'w' || v[e] == 'm' || v[e] == 'y') {
                here = true;
            }
        }
        proof {
            assert(here == rel_match_at(v@, i as int));
        }
        if here {
            found = true;
            start = i;
        } else {
            i = i + 1;
        }
    }
    if !found {
        proof {
            assert(find_rel_from(v@, i as int) == i);
        }
        return None;
    }
    let e = skip_digits(&v, start + 1);
    let ghost parts = spec_rel_parts(v@);
    proof {
        lemma_digit_run_end(v@, start + 1);
        assert(parts == Some((v@[start as int], v@.subrange(start + 1, e as int), v@[e as int])));
    }
    let q = match parse_digits_i64(&v, start + 1, e) {
        Some(q) => q,
        None => {
            return None;
        },
    };
    proof {
        crate::calendar::lemma_day_number_range(*today);
    }
    if q > 2_147_483_647 {
        proof {
            assert(q as int * unit_days(v@[e as int]) >= q as int);
            lemma_rel_out_of_range(*today, v@[start as int], q as int, v@[e as int]);
        }
        return None;
    }
    let unit = v[e];
    let days: i64 = if unit == 'd' {
        q
    } else if unit == 'w' {
        q * 7
    } else if unit == 'm' {
        q * 30
    } else {
        q * 365
    };
    proof {
        assert(days == q * unit_days(v@[e as int]));
    }
    if days > 2_147_483_647 {
        proof {
            lemma_rel_out_of_range(*today, v@[start as int], q as int, v@[e as int]);
        }
        return None;
    }
    let sign = v[start];
    let delta: i64 = if sign == '+' {
        days
    } else {
        -days
    };
    date_plus_days(today, delta)
}

/// A quantity of days beyond `i32::MAX` always lands outside the supported
/// day range, wherever in it `today` lies.
proof fn lemma_rel_out_of_range(today: Date, sign: char, q: int, unit: char)
    requires
        today_ok(today),
        q * unit_days(unit) > 2_147_483_647,
    ensures
        !(min_day_number() <= day_number(today) + rel_delta(sign, q, unit) <= max_day_number()),
{
    crate::calendar::lemma_day_number_range(today);
    crate::calendar::lemma_day_number_span();
}

/// Resolve a date argument against an explicit `today`: the absolute date
/// if the text is one, else the relative rule.
pub fn parse_date_arg_as_of(arg: Option<&str>, today: &Date) -> (r: Option<Date>)
    requires
        today_ok(*today),
    ensures
        arg is None ==> r is None,
        arg matches Some(s) ==> arg_resolves_to(s@, *today, r),
{
    match arg {
        None => None,
        Some(s) => {
            let v = chars_vec(s);
            match parse_abs_date(&v) {
                Some(d) => Some(d),
                None => parse_relative_date_as_of(s, today),
            }
        },
    }
}

/// Resolve a date argument against the current local date.
///
/// An absolute `YYYY-MM-DD` argument resolves to exactly that date whatever
/// the clock says; text that is neither an absolute date nor a relative
/// offset resolves to nothing; a relative offset is resolved against some
/// valid current date, sampled fresh on every call.
pub fn parse_date_arg(arg: Option<&str>) -> (r: Option<Date>)
    ensures
        arg is None ==> r is None,
        arg matches Some(s) ==> (spec_abs_date(s@) is Some ==> r == spec_abs_date(s@)),
        arg matches Some(s) ==> (spec_abs_date(s@) is None && spec_rel_parts(s@) is None ==> r
            is None),
        arg matches Some(s) ==> exists|today: Date|
            #[trigger] today_ok(today) && arg_resolves_to(s@, today, r),
{
    let t = today_date();
    let r = parse_date_arg_as_of(arg, &t);
    proof {
        if arg is Some {
            assert(today_ok(t) && arg_resolves_to(arg->0@, t, r));
        }
    }
    r
}

/// Resolve a relative offset spec against the current local date, sampled
/// fresh on every call.
pub fn parse_relative_date(text: &str) -> (r: Option<Date>)
    ensures
        spec_rel_parts(text@) is None ==> r is None,
        exists|today: Date| #[trigger] today_ok(today) && rel_resolves_to(text@, today, r),
{
    let t = today_date();
    let r = parse_relative_date_as_of(text, &t);
    proof {
        assert(today_ok(t) && rel_resolves_to(text@, t, r));
    }
    r
}

/// For every relative day spec `+Nd` or `-Nd` that resolves, the result is
/// exactly `N` days after or before the sampled `today`.
pub proof fn lemma_relative_days_offset(s: Seq<char>, today: Date, r: Option<Date>, ds: Seq<char>)
    requires
        rel_resolves_to(s, today, r),
        spec_rel_parts(s) matches Some(p) && p.1 == ds && p.2 == 'd',
        digits_val(ds) <= i64::MAX,
    ensures
        spec_rel_parts(s) matches Some(p) ==> (r matches Some(x) ==> day_number(x) == day_number(
            today,
        ) + (if p.0 == '+' {
            digits_val(ds)
        } else {
            -digits_val(ds)
        })),
{
}

} // verus!

