//! The timestamp forms that a line of plain text may carry, and how each is
//! recognised at a position of the line.

use crate::text::{
    all_digits, char_is_space, digit_run, digit_run_end, digits_value, is_digit, is_space,
    lemma_digit_run_bounds, or_else, parse_number, pow10, skip_space_run, skip_spaces, small_number,
    stands_at,
};
use vstd::prelude::*;
use vstd::slice::slice_subrange;

verus! {

/// The forms of timestamp, in the order in which they are tried.
#[derive(Clone, Copy, Debug, PartialEq, Eq, Structural)]
pub enum StampForm {
    /// `[HH:MM:SS-HH:MM:SS]`: start and end.
    ClockRange,
    /// `[MM:SS-MM:SS]`: start and end.
    MinuteRange,
    /// `[HH:MM:SS]` or `[HH:MM:SS.mmm]`.
    BracketClock,
    /// `[MM:SS]`.
    BracketMinute,
    /// `HH:MM:SS` or `HH:MM:SS.mmm` at the start of the line.
    LeadingClock,
    /// `MM:SS` at the start of the line.
    LeadingMinute,
    /// `[HH:MM:SS.mmm --> HH:MM:SS.mmm]`: only the start counts.
    ArrowRange,
    /// `[N]`: seconds.
    BracketSeconds,
}

/// What a form says where it stands: where it ends in the line, the start
/// time in milliseconds (none when the number is no time of day and the
/// running time is kept) and the end time where the form gives one.
pub struct StampRead {
    pub end: int,
    pub start_ms: Option<nat>,
    pub end_ms: Option<nat>,
}

/// A timestamp found in a line: the range of the line it takes and its times.
#[derive(Clone, Copy, Debug)]
pub struct Stamp {
    pub at: usize,
    pub end: usize,
    pub start_ms: Option<u64>,
    pub end_ms: Option<u64>,
}

/// An optional time as a mathematical value.
pub open spec fn opt_nat(v: Option<u64>) -> Option<nat> {
    match v {
        Some(x) => Some(x as nat),
        None => None,
    }
}

impl Stamp {
    /// What the timestamp says behind its start. Where it starts is not
    /// part of it: `stamp_agrees` and `located` state that beside it.
    pub open spec fn read(self) -> StampRead {
        StampRead {
            end: self.end as int,
            start_ms: opt_nat(self.start_ms),
            end_ms: opt_nat(self.end_ms),
        }
    }
}

/// When a limit of seconds is reached a bracketed number is no time of day.
pub const SECONDS_LIMIT: u64 = 3600;

/// Whether `c` stands at index `i` of `s`.
pub open spec fn has_char(s: Seq<char>, i: int, c: char) -> bool {
    0 <= i < s.len() && s[i] == c
}

/// A run of at least `min` and at most `max` digits at `i`, with no digit
/// after it: where it ends and its value.
pub open spec fn field_at(s: Seq<char>, i: int, min: int, max: int) -> Option<(int, nat)> {
    let e = digit_run_end(s, i);
    if 0 <= i <= s.len() && min <= e - i <= max {
        Some((e, digits_value(s.subrange(i, e))))
    } else {
        None
    }
}

/// Two fields with a colon between them, the second of two digits.
pub open spec fn pair_at(s: Seq<char>, i: int, min: int) -> Option<(int, nat, nat)> {
    match field_at(s, i, min, 2) {
        Some((a, x)) => if has_char(s, a, ':') {
            match field_at(s, a + 1, 2, 2) {
                Some((b, y)) => Some((b, x, y)),
                None => None,
            }
        } else {
            None
        },
        None => None,
    }
}

/// `MM:SS` at `i`: where it ends and its milliseconds.
pub open spec fn minutes_at(s: Seq<char>, i: int) -> Option<(int, nat)> {
    match pair_at(s, i, 1) {
        Some((e, m, sec)) => Some((e, (m * 60 + sec) * 1000)),
        None => None,
    }
}

/// `HH:MM:SS` at `i`: where it ends and its milliseconds.
pub open spec fn hours_at(s: Seq<char>, i: int) -> Option<(int, nat)> {
    match field_at(s, i, 1, 2) {
        Some((a, h)) => if has_char(s, a, ':') {
            match pair_at(s, a + 1, 2) {
                Some((e, m, sec)) => Some((e, (h * 3600 + m * 60 + sec) * 1000)),
                None => None,
            }
        } else {
            None
        },
        None => None,
    }
}

/// The fraction after the seconds: a dot or a comma and one to three digits,
/// read as milliseconds. Without a dot or comma there is none, which is fine;
/// a dot or comma without such digits is not.
pub open spec fn fraction_at(s: Seq<char>, i: int) -> Option<(int, nat)> {
    if has_char(s, i, '.') || has_char(s, i, ',') {
        field_at(s, i + 1, 1, 3)
    } else {
        Some((i, 0nat))
    }
}

/// A time at `i`, with or without hours, with or without a fraction.
pub open spec fn time_at(s: Seq<char>, i: int, hours: bool, fraction: bool) -> Option<(int, nat)> {
    let base = if hours {
        hours_at(s, i)
    } else {
        minutes_at(s, i)
    };
    if fraction {
        match base {
            Some((a, t)) => match fraction_at(s, a) {
                Some((b, f)) => Some((b, t + f)),
                None => None,
            },
            None => None,
        }
    } else {
        base
    }
}

/// `[T-T]` at `i`.
pub open spec fn range_at(s: Seq<char>, i: int, hours: bool) -> Option<StampRead> {
    if has_char(s, i, '[') {
        match time_at(s, i + 1, hours, false) {
            Some((a, t1)) => if has_char(s, a, '-') {
                match time_at(s, a + 1, hours, false) {
                    Some((b, t2)) => if has_char(s, b, ']') {
                        Some(StampRead { end: b + 1, start_ms: Some(t1), end_ms: Some(t2) })
                    } else {
                        None
                    },
                    None => None,
                }
            } else {
                None
            },
            None => None,
        }
    } else {
        None
    }
}

/// `[T]` at `i`.
pub open spec fn bracket_at(s: Seq<char>, i: int, hours: bool) -> Option<StampRead> {
    if has_char(s, i, '[') {
        match time_at(s, i + 1, hours, hours) {
            Some((a, t)) => if has_char(s, a, ']') {
                Some(StampRead { end: a + 1, start_ms: Some(t), end_ms: None })
            } else {
                None
            },
            None => None,
        }
    } else {
        None
    }
}

/// `T` at `i`, followed by the end of the line or by one whitespace
/// character, which then belongs to the timestamp.
pub open spec fn leading_at(s: Seq<char>, i: int, hours: bool) -> Option<StampRead> {
    match time_at(s, i, hours, hours) {
        Some((a, t)) => if a == s.len() {
            Some(StampRead { end: a, start_ms: Some(t), end_ms: None })
        } else if 0 <= a < s.len() && is_space(s[a]) {
            Some(StampRead { end: a + 1, start_ms: Some(t), end_ms: None })
        } else {
            None
        },
        None => None,
    }
}

/// `[T --> T]` at `i`, with any whitespace around the arrow.
pub open spec fn arrow_at(s: Seq<char>, i: int) -> Option<StampRead> {
    if has_char(s, i, '[') {
        match time_at(s, i + 1, true, true) {
            Some((a, t)) => {
                let b = skip_spaces(s, a);
                if has_char(s, b, '-') && has_char(s, b + 1, '-') && has_char(s, b + 2, '>') {
                    let c = skip_spaces(s, b + 3);
                    match time_at(s, c, true, true) {
                        Some((d, t2)) => if has_char(s, d, ']') {
                            Some(StampRead { end: d + 1, start_ms: Some(t), end_ms: None })
                        } else {
                            None
                        },
                        None => None,
                    }
                } else {
                    None
                }
            },
            None => None,
        }
    } else {
        None
    }
}

/// `[N]` at `i`: seconds when `N` is below the limit, else the running time is kept.
pub open spec fn seconds_at(s: Seq<char>, i: int) -> Option<StampRead> {
    if has_char(s, i, '[') {
        match field_at(s, i + 1, 1, s.len() as int) {
            Some((a, v)) => if has_char(s, a, ']') {
                Some(
                    StampRead {
                        end: a + 1,
                        start_ms: if v < SECONDS_LIMIT {
                            Some(v * 1000)
                        } else {
                            None
                        },
                        end_ms: None,
                    },
                )
            } else {
                None
            },
            None => None,
        }
    } else {
        None
    }
}

/// Whether the form `form` stands at index `i` of `s`, and what it says.
pub open spec fn form_at(s: Seq<char>, form: StampForm, i: int) -> Option<StampRead> {
    match form {
        StampForm::ClockRange => range_at(s, i, true),
        StampForm::MinuteRange => range_at(s, i, false),
        StampForm::BracketClock => bracket_at(s, i, true),
        StampForm::BracketMinute => bracket_at(s, i, false),
        StampForm::LeadingClock => leading_at(s, i, true),
        StampForm::LeadingMinute => leading_at(s, i, false),
        StampForm::ArrowRange => arrow_at(s, i),
        StampForm::BracketSeconds => seconds_at(s, i),
    }
}

/// The forms that count only at the start of the line.
pub open spec fn is_leading(form: StampForm) -> bool {
    form == StampForm::LeadingClock || form == StampForm::LeadingMinute
}

/// The leftmost place at or after `i` where `form` stands, and what it says there.
pub open spec fn find_form(s: Seq<char>, form: StampForm, i: int) -> Option<(int, StampRead)>
    decreases s.len() - i,
{
    if 0 <= i < s.len() {
        match form_at(s, form, i) {
            Some(v) => Some((i, v)),
            None => if is_leading(form) {
                None
            } else {
                find_form(s, form, i + 1)
            },
        }
    } else {
        None
    }
}

/// The timestamp of a line: the first form, in the order of `StampForm`,
/// that stands anywhere in the line, at its leftmost place.
pub open spec fn find_stamp(s: Seq<char>) -> Option<(int, StampRead)> {
    or_else(
        find_form(s, StampForm::ClockRange, 0),
        or_else(
            find_form(s, StampForm::MinuteRange, 0),
            or_else(
                find_form(s, StampForm::BracketClock, 0),
                or_else(
                    find_form(s, StampForm::BracketMinute, 0),
                    or_else(
                        find_form(s, StampForm::LeadingClock, 0),
                        or_else(
                            find_form(s, StampForm::LeadingMinute, 0),
                            or_else(
                                find_form(s, StampForm::ArrowRange, 0),
                                find_form(s, StampForm::BracketSeconds, 0),
                            ),
                        ),
                    ),
                ),
            ),
        ),
    )
}

/// Whether what was read is what `m` names.
pub open spec fn agrees(r: Option<(usize, u64)>, m: Option<(int, nat)>) -> bool {
    match r {
        Some((e, v)) => m == Some((e as int, v as nat)),
        None => m is None,
    }
}

/// Whether a timestamp that was read at `at` is the one that `m` names.
pub open spec fn stamp_agrees(r: Option<Stamp>, at: int, m: Option<StampRead>) -> bool {
    match r {
        Some(st) => st.at == at && m == Some(st.read()),
        None => m is None,
    }
}

fn char_at(s: &[char], i: usize, c: char) -> (b: bool)
    ensures
        b == has_char(s@, i as int, c),
        b ==> i + 1 <= s@.len() <= usize::MAX,
{
    i < s.len() && s[i] == c
}

fn read_field(s: &[char], i: usize, min: usize, max: usize) -> (r: Option<(usize, u64)>)
    requires
        i <= s@.len(),
        max <= 3,
    ensures
        agrees(r, field_at(s@, i as int, min as int, max as int)),
        r matches Some((e, v)) ==> i <= e <= s@.len() && e - i <= max && v < pow10((e - i) as nat),
{
    let e: usize = digit_run(s, i);
    if min <= e - i && e - i <= max {
        proof {
            lemma_digit_run_bounds(s@, i as int);
        }
        let v: u64 = small_number(s, i, e);
        Some((e, v))
    } else {
        None
    }
}

fn read_time(s: &[char], i: usize, hours: bool, fraction: bool) -> (r: Option<(usize, u64)>)
    requires
        i <= s@.len(),
    ensures
        agrees(r, time_at(s@, i as int, hours, fraction)),
        r matches Some((e, v)) ==> i <= e <= s@.len() && v < 400_000_000,
{
    proof {
        reveal_with_fuel(pow10, 4);
    }
    let mut h: u64 = 0;
    let mut at: usize = i;
    if hours {
        match read_field(s, i, 1, 2) {
            Some((a, x)) => {
                if !char_at(s, a, ':') {
                    return None;
                }
                h = x;
                at = a + 1;
            },
            None => {
                return None;
            },
        }
    }
    let min_digits: usize = if hours {
        2
    } else {
        1
    };
    let (a, m) = match read_field(s, at, min_digits, 2) {
        Some(p) => p,
        None => {
            return None;
        },
    };
    if !char_at(s, a, ':') {
        return None;
    }
    let (b, sec) = match read_field(s, a + 1, 2, 2) {
        Some(p) => p,
        None => {
            return None;
        },
    };
    let whole: u64 = (h * 3600 + m * 60 + sec) * 1000;
    if fraction && (char_at(s, b, '.') || char_at(s, b, ',')) {
        match read_field(s, b + 1, 1, 3) {
            Some((c, f)) => Some((c, whole + f)),
            None => None,
        }
    } else {
        Some((b, whole))
    }
}

fn read_range(s: &[char], i: usize, hours: bool) -> (r: Option<Stamp>)
    requires
        i <= s@.len(),
    ensures
        stamp_agrees(r, i as int, range_at(s@, i as int, hours)),
        r matches Some(st) ==> i < st.end <= s@.len(),
{
    if !char_at(s, i, '[') {
        return None;
    }
    let (a, t1) = match read_time(s, i + 1, hours, false) {
        Some(p) => p,
        None => {
            return None;
        },
    };
    if !char_at(s, a, '-') {
        return None;
    }
    let (b, t2) = match read_time(s, a + 1, hours, false) {
        Some(p) => p,
        None => {
            return None;
        },
    };
    if !char_at(s, b, ']') {
        return None;
    }
    Some(Stamp { at: i, end: b + 1, start_ms: Some(t1), end_ms: Some(t2) })
}

fn read_bracket(s: &[char], i: usize, hours: bool) -> (r: Option<Stamp>)
    requires
        i <= s@.len(),
    ensures
        stamp_agrees(r, i as int, bracket_at(s@, i as int, hours)),
        r matches Some(st) ==> i < st.end <= s@.len(),
{
    if !char_at(s, i, '[') {
        return None;
    }
    let (a, t) = match read_time(s, i + 1, hours, hours) {
        Some(p) => p,
        None => {
            return None;
        },
    };
    if !char_at(s, a, ']') {
        return None;
    }
    Some(Stamp { at: i, end: a + 1, start_ms: Some(t), end_ms: None })
}

fn read_leading(s: &[char], i: usize, hours: bool) -> (r: Option<Stamp>)
    requires
        i <= s@.len(),
    ensures
        stamp_agrees(r, i as int, leading_at(s@, i as int, hours)),
        r matches Some(st) ==> i < st.end <= s@.len(),
{
    let (a, t) = match read_time(s, i, hours, hours) {
        Some(p) => p,
        None => {
            return None;
        },
    };
    proof {
        lemma_digit_run_bounds(s@, i as int);
    }
    if a == s.len() {
        Some(Stamp { at: i, end: a, start_ms: Some(t), end_ms: None })
    } else if char_is_space(s[a]) {
        Some(Stamp { at: i, end: a + 1, start_ms: Some(t), end_ms: None })
    } else {
        None
    }
}

fn read_arrow(s: &[char], i: usize) -> (r: Option<Stamp>)
    requires
        i <= s@.len(),
    ensures
        stamp_agrees(r, i as int, arrow_at(s@, i as int)),
        r matches Some(st) ==> i < st.end <= s@.len(),
{
    if !char_at(s, i, '[') {
        return None;
    }
    let (a, t) = match read_time(s, i + 1, true, true) {
        Some(p) => p,
        None => {
            return None;
        },
    };
    let b: usize = skip_space_run(s, a);
    if !(char_at(s, b, '-') && char_at(s, b + 1, '-') && char_at(s, b + 2, '>')) {
        return None;
    }
    let c: usize = skip_space_run(s, b + 3);
    let (d, _t2) = match read_time(s, c, true, true) {
        Some(p) => p,
        None => {
            return None;
        },
    };
    if !char_at(s, d, ']') {
        return None;
    }
    Some(Stamp { at: i, end: d + 1, start_ms: Some(t), end_ms: None })
}

fn read_seconds(s: &[char], i: usize) -> (r: Option<Stamp>)
    requires
        i <= s@.len(),
    ensures
        stamp_agrees(r, i as int, seconds_at(s@, i as int)),
        r matches Some(st) ==> i < st.end <= s@.len(),
{
    if !char_at(s, i, '[') {
        return None;
    }
    let e: usize = digit_run(s, i + 1);
    if e == i + 1 || !char_at(s, e, ']') {
        return None;
    }
    proof {
        lemma_digit_run_bounds(s@, i + 1);
    }
    let start_ms: Option<u64> = match parse_number(slice_subrange(s, i + 1, e)) {
        Some(v) => if v < SECONDS_LIMIT {
            Some(v * 1000)
        } else {
            None
        },
        None => None,
    };
    Some(Stamp { at: i, end: e + 1, start_ms, end_ms: None })
}

/// Reads the form `form` at index `i`, if it stands there.
pub fn read_form(s: &[char], form: StampForm, i: usize) -> (r: Option<Stamp>)
    requires
        i <= s@.len(),
    ensures
        stamp_agrees(r, i as int, form_at(s@, form, i as int)),
        r matches Some(st) ==> i < st.end <= s@.len(),
{
    match form {
        StampForm::ClockRange => read_range(s, i, true),
        StampForm::MinuteRange => read_range(s, i, false),
        StampForm::BracketClock => read_bracket(s, i, true),
        StampForm::BracketMinute => read_bracket(s, i, false),
        StampForm::LeadingClock => read_leading(s, i, true),
        StampForm::LeadingMinute => read_leading(s, i, false),
        StampForm::ArrowRange => read_arrow(s, i),
        StampForm::BracketSeconds => read_seconds(s, i),
    }
}

/// Whether a timestamp that was found is the one that `m` names.
pub open spec fn located(r: Option<Stamp>, m: Option<(int, StampRead)>) -> bool {
    match r {
        Some(st) => m == Some((st.at as int, st.read())),
        None => m is None,
    }
}

/// Finds the leftmost place where `form` stands in `s`.
pub fn locate_form(s: &[char], form: StampForm) -> (r: Option<Stamp>)
    ensures
        located(r, find_form(s@, form, 0)),
        r matches Some(st) ==> st.at < st.end <= s@.len(),
{
    let n: usize = s.len();
    let leading: bool = match form {
        StampForm::LeadingClock => true,
        StampForm::LeadingMinute => true,
        _ => false,
    };
    let mut i: usize = 0;
    while i < n
        invariant
            n == s@.len(),
            0 <= i <= n,
            leading == is_leading(form),
            find_form(s@, form, i as int) == find_form(s@, form, 0),
        decreases n - i,
    {
        match read_form(s, form, i) {
            Some(st) => {
                return Some(st);
            },
            None => {
                if leading {
                    return None;
                }
            },
        }
        i = i + 1;
    }
    None
}

/// Finds the timestamp of a line.
pub fn locate_stamp(s: &[char]) -> (r: Option<Stamp>)
    ensures
        located(r, find_stamp(s@)),
        r matches Some(st) ==> st.at < st.end <= s@.len(),
{
    let r1 = locate_form(s, StampForm::ClockRange);
    if r1.is_some() {
        return r1;
    }
    let r2 = locate_form(s, StampForm::MinuteRange);
    if r2.is_some() {
        return r2;
    }
    let r3 = locate_form(s, StampForm::BracketClock);
    if r3.is_some() {
        return r3;
    }
    let r4 = locate_form(s, StampForm::BracketMinute);
    if r4.is_some() {
        return r4;
    }
    let r5 = locate_form(s, StampForm::LeadingClock);
    if r5.is_some() {
        return r5;
    }
    let r6 = locate_form(s, StampForm::LeadingMinute);
    if r6.is_some() {
        return r6;
    }
    let r7 = locate_form(s, StampForm::ArrowRange);
    if r7.is_some() {
        return r7;
    }
    locate_form(s, StampForm::BracketSeconds)
}

/// A run of digits from `i` to `e` with no digit behind it ends at `e`.
pub proof fn lemma_digit_run_exact(s: Seq<char>, i: int, e: int)
    requires
        0 <= i <= e <= s.len(),
        forall|k: int| i <= k < e ==> is_digit(#[trigger] s[k]),
        e == s.len() || !is_digit(s[e]),
    ensures
        digit_run_end(s, i) == e,
    decreases e - i,
{
    if i < e {
        lemma_digit_run_exact(s, i + 1, e);
    }
}

/// A numeral that stands at `i` with no digit after it is read as a field.
pub proof fn lemma_field(s: Seq<char>, i: int, d: Seq<char>, min: int, max: int)
    requires
        stands_at(s, i, d),
        all_digits(d),
        min <= d.len() <= max,
        i + d.len() == s.len() || !is_digit(s[i + d.len()]),
    ensures
        field_at(s, i, min, max) == Some((i + d.len(), digits_value(d))),
{
    assert forall|k: int| i <= k < i + d.len() implies is_digit(#[trigger] s[k]) by {
        assert(s.subrange(i, i + d.len())[k - i] == d[k - i]);
    }
    lemma_digit_run_exact(s, i, i + d.len());
}

/// Minutes: one or two digits.
pub open spec fn is_minutes(m: Seq<char>) -> bool {
    all_digits(m) && 1 <= m.len() <= 2
}

/// Seconds: two digits.
pub open spec fn is_two_digits(d: Seq<char>) -> bool {
    all_digits(d) && d.len() == 2
}

/// `[m1:s1-m2:s2]`
pub open spec fn minute_range_text(
    m1: Seq<char>,
    s1: Seq<char>,
    m2: Seq<char>,
    s2: Seq<char>,
) -> Seq<char> {
    seq!['['] + m1 + seq![':'] + s1 + seq!['-'] + m2 + seq![':'] + s2 + seq![']']
}

/// The milliseconds of minutes and seconds given as numerals.
pub open spec fn minutes_value(m: Seq<char>, sec: Seq<char>) -> nat {
    (digits_value(m) * 60 + digits_value(sec)) * 1000
}

proof fn lemma_minutes_at(s: Seq<char>, i: int, m: Seq<char>, sec: Seq<char>)
    requires
        is_minutes(m),
        is_two_digits(sec),
        stands_at(s, i, m + seq![':'] + sec),
        i + m.len() + 3 == s.len() || !is_digit(s[i + m.len() + 3]),
    ensures
        minutes_at(s, i) == Some((i + m.len() + 3, minutes_value(m, sec))),
{
    let part = m + seq![':'] + sec;
    let a = i + m.len();
    assert forall|k: int| 0 <= k < part.len() implies s[i + k] == #[trigger] part[k] by {
        assert(s.subrange(i, i + part.len())[k] == part[k]);
    }
    assert(s.subrange(i, a) =~= m) by {
        assert forall|k: int| 0 <= k < m.len() implies s.subrange(i, a)[k] == m[k] by {
            assert(part[k] == m[k]);
        }
    }
    assert(s[a] == ':') by {
        assert(part[m.len() as int] == ':');
    }
    assert(s.subrange(a + 1, a + 3) =~= sec) by {
        assert forall|k: int| 0 <= k < 2 implies s.subrange(a + 1, a + 3)[k] == sec[k] by {
            assert(part[m.len() + 1 + k] == sec[k]);
        }
    }
    lemma_field(s, i, m, 1, 2);
    lemma_field(s, a + 1, sec, 2, 2);
}

/// Wherever `[MM:SS-MM:SS]` stands in a line, the form of a range of
/// minutes is recognised there, and its start and end are sixty times the
/// minutes plus the seconds of each side.
#[verifier::rlimit(40)]
pub proof fn law_minute_range(
    line: Seq<char>,
    at: int,
    m1: Seq<char>,
    s1: Seq<char>,
    m2: Seq<char>,
    s2: Seq<char>,
)
    requires
        is_minutes(m1),
        is_two_digits(s1),
        is_minutes(m2),
        is_two_digits(s2),
        stands_at(line, at, minute_range_text(m1, s1, m2, s2)),
    ensures
        form_at(line, StampForm::MinuteRange, at) == Some(
            StampRead {
                end: at + minute_range_text(m1, s1, m2, s2).len(),
                start_ms: Some(minutes_value(m1, s1)),
                end_ms: Some(minutes_value(m2, s2)),
            },
        ),
{
    let text = minute_range_text(m1, s1, m2, s2);
    let first = m1 + seq![':'] + s1;
    let second = m2 + seq![':'] + s2;
    let a = at + 1;
    let b = a + first.len();
    let c = b + 1;
    let d = c + second.len();
    assert forall|k: int| 0 <= k < text.len() implies line[at + k] == #[trigger] text[k] by {
        assert(line.subrange(at, at + text.len())[k] == text[k]);
    }
    assert(line[at] == '[') by {
        assert(text[0] == '[');
    }
    assert(line.subrange(a, b) =~= first) by {
        assert forall|k: int| 0 <= k < first.len() implies line.subrange(a, b)[k] == first[k] by {
            assert(text[1 + k] == first[k]);
        }
    }
    assert(line[b] == '-') by {
        assert(text[first.len() + 1int] == '-');
    }
    assert(line.subrange(c, d) =~= second) by {
        assert forall|k: int| 0 <= k < second.len() implies line.subrange(c, d)[k] == second[k] by {
            assert(text[2 + first.len() + k] == second[k]);
        }
    }
    assert(line[d] == ']') by {
        assert(text[first.len() + second.len() + 2int] == ']');
    }
    lemma_minutes_at(line, a, m1, s1);
    lemma_minutes_at(line, c, m2, s2);
}

/// `[digits]`
pub open spec fn seconds_text(digits: Seq<char>) -> Seq<char> {
    seq!['['] + digits + seq![']']
}

/// Wherever a numeral in square brackets stands in a line, the form of
/// bracketed seconds is recognised there: below 3600 the number is the
/// start in seconds, from 3600 on the running time is kept.
pub proof fn law_bracketed_seconds(line: Seq<char>, at: int, digits: Seq<char>)
    requires
        all_digits(digits),
        digits.len() >= 1,
        stands_at(line, at, seconds_text(digits)),
    ensures
        form_at(line, StampForm::BracketSeconds, at) == Some(
            StampRead {
                end: at + digits.len() + 2,
                start_ms: if digits_value(digits) < SECONDS_LIMIT {
                    Some(digits_value(digits) * 1000)
                } else {
                    None
                },
                end_ms: None,
            },
        ),
{
    let text = seconds_text(digits);
    assert forall|k: int| 0 <= k < text.len() implies line[at + k] == #[trigger] text[k] by {
        assert(line.subrange(at, at + text.len())[k] == text[k]);
    }
    assert(line[at] == '[') by {
        assert(text[0] == '[');
    }
    assert(line.subrange(at + 1, at + 1 + digits.len()) =~= digits) by {
        assert forall|k: int| 0 <= k < digits.len() implies line.subrange(
            at + 1,
            at + 1 + digits.len(),
        )[k] == digits[k] by {
            assert(text[1 + k] == digits[k]);
        }
    }
    assert(line[at + 1 + digits.len()] == ']') by {
        assert(text[digits.len() + 1int] == ']');
    }
    lemma_field(line, at + 1, digits, 1, line.len() as int);
}

/// Whether `s` holds no `c` from index `i` on.
pub open spec fn none_from(s: Seq<char>, c: char, i: int) -> bool {
    forall|k: int| i <= k < s.len() ==> #[trigger] s[k] != c
}

/// Without an opening bracket from `i` on, no form in brackets stands there.
pub proof fn lemma_no_bracket_no_form(s: Seq<char>, form: StampForm, i: int)
    requires
        0 <= i,
        none_from(s, '[', i),
        !is_leading(form),
    ensures
        find_form(s, form, i) is None,
    decreases s.len() - i,
{
    if i < s.len() {
        assert(s[i] != '[');
        lemma_no_bracket_no_form(s, form, i + 1);
    }
}

/// A number that stands in no square brackets is never a timestamp: in a
/// line without an opening bracket the only timestamp there can be is a
/// time of day at the very start, one or two digits and a colon.
pub proof fn law_bare_numbers_are_text(line: Seq<char>)
    requires
        none_from(line, '[', 0),
    ensures
        find_stamp(line) matches Some((at, st)) ==> at == 0 && is_digit(line[0]) && (has_char(
            line,
            1,
            ':',
        ) || has_char(line, 2, ':')),
        line.len() == 0 || !is_digit(line[0]) ==> find_stamp(line) is None,
        none_from(line, ':', 0) ==> find_stamp(line) is None,
{
    lemma_no_bracket_no_form(line, StampForm::ClockRange, 0);
    lemma_no_bracket_no_form(line, StampForm::MinuteRange, 0);
    lemma_no_bracket_no_form(line, StampForm::BracketClock, 0);
    lemma_no_bracket_no_form(line, StampForm::BracketMinute, 0);
    lemma_no_bracket_no_form(line, StampForm::ArrowRange, 0);
    lemma_no_bracket_no_form(line, StampForm::BracketSeconds, 0);
    if line.len() > 0 {
        lemma_digit_run_bounds(line, 0);
        let e = digit_run_end(line, 0);
        if 1 <= e <= 2 && e < line.len() {
            assert(line[e] == ':' ==> !none_from(line, ':', 0));
        }
    }
}

/// In a line whose only opening bracket is its first character, a form
/// stands at the start or nowhere.
pub proof fn lemma_form_at_start_only(s: Seq<char>, form: StampForm)
    requires
        s.len() > 0,
        none_from(s, '[', 1),
    ensures
        find_form(s, form, 0) == match form_at(s, form, 0) {
            Some(v) => Some((0int, v)),
            None => None,
        },
{
    if !is_leading(form) {
        lemma_no_bracket_no_form(s, form, 1);
    }
}

/// What is found of a form stands where it is found.
pub proof fn lemma_found_form_stands(s: Seq<char>, form: StampForm, i: int)
    ensures
        find_form(s, form, i) matches Some((at, st)) ==> i <= at < s.len() && form_at(s, form, at)
            == Some(st),
    decreases s.len() - i,
{
    if 0 <= i < s.len() && form_at(s, form, i) is None && !is_leading(form) {
        lemma_found_form_stands(s, form, i + 1);
    }
}

/// A timestamp that gives an end gives a start too.
pub proof fn lemma_end_comes_with_start(s: Seq<char>)
    ensures
        find_stamp(s) matches Some((at, st)) ==> (st.end_ms is Some ==> st.start_ms is Some),
{
    lemma_found_form_stands(s, StampForm::ClockRange, 0);
    lemma_found_form_stands(s, StampForm::MinuteRange, 0);
    lemma_found_form_stands(s, StampForm::BracketClock, 0);
    lemma_found_form_stands(s, StampForm::BracketMinute, 0);
    lemma_found_form_stands(s, StampForm::LeadingClock, 0);
    lemma_found_form_stands(s, StampForm::LeadingMinute, 0);
    lemma_found_form_stands(s, StampForm::ArrowRange, 0);
    lemma_found_form_stands(s, StampForm::BracketSeconds, 0);
}

} // verus!
