//! Plain text: one segment per line, timed by the timestamp that the line
//! carries or, without one, by a running time that advances at reading speed.

use crate::model::{
    ends_in_time, in_file_order, segment_views, times_fit, ErrorKind, SegmentView,
    TranscriptionSegment,
};
use crate::stamp::{
    find_form, find_stamp, form_at, is_minutes, is_two_digits, law_bare_numbers_are_text,
    law_bracketed_seconds, law_minute_range, lemma_digit_run_exact, lemma_end_comes_with_start,
    lemma_form_at_start_only, locate_stamp, minute_range_text, minutes_value, none_from,
    seconds_text, SECONDS_LIMIT, Stamp, StampForm,
};
use crate::text::{
    all_digits, chars_of, count_words, digits_value, find_char, is_digit, is_trimmed,
    lemma_digit_run_bounds, lemma_find_char_bounds, lemma_trim_is_trimmed, lines, lines_from,
    split_lines, string_of, trim, trim_slice, views, word_count,
};
use vstd::prelude::*;
use vstd::slice::slice_subrange;

verus! {

/// Milliseconds that one word takes at 150 words a minute.
pub const WORD_MS: u64 = 400;

/// The shortest time that a line is given, in milliseconds.
pub const MIN_LINE_MS: u64 = 1000;

/// The time it takes to say `words` words, in milliseconds.
pub open spec fn estimate_ms(words: nat) -> nat {
    if words * WORD_MS < MIN_LINE_MS {
        MIN_LINE_MS as nat
    } else {
        (words * WORD_MS) as nat
    }
}

/// The first index at or after `i` that holds no colon, or the length.
pub open spec fn skip_colons(s: Seq<char>, i: int) -> int
    decreases s.len() - i,
{
    if 0 <= i < s.len() && s[i] == ':' {
        skip_colons(s, i + 1)
    } else {
        i
    }
}

/// `s` without the part from `a` to `b`.
pub open spec fn without(s: Seq<char>, a: int, b: int) -> Seq<char> {
    s.subrange(0, a) + s.subrange(b, s.len() as int)
}

/// `s` without leading colons, then without whitespace around it.
pub open spec fn tidy(s: Seq<char>) -> Seq<char> {
    trim(s.subrange(skip_colons(s, 0), s.len() as int))
}

/// A speaker's name alone on its line: one word that ends in a colon.
pub open spec fn is_label(t: Seq<char>) -> bool {
    t.len() > 0 && t.last() == ':' && count_words(t) == 1
}

/// What a line gives: the running time after it and its segment, if it has one.
pub struct LineRead {
    pub cursor: nat,
    pub segment: Option<SegmentView>,
}

/// The text of a trimmed line once its timestamp, if any, is taken out.
pub open spec fn line_text(line: Seq<char>) -> Seq<char> {
    match find_stamp(line) {
        Some((at, st)) => tidy(trim(without(line, at, st.end))),
        None => tidy(line),
    }
}

/// Reads one line at running time `cursor`.
///
/// A blank line gives nothing. A timestamp sets the start (a bracketed
/// number that is no time of day keeps the running time) and the running
/// time; the end is the one the timestamp gives, else start plus the
/// estimate. Without a timestamp the line starts at the running time, which
/// then advances by the estimate. A line whose text is empty or a speaker's
/// label has no segment.
pub open spec fn read_line(
    raw: Seq<char>,
    cursor: nat,
    index: nat,
    filename: Seq<char>,
) -> LineRead {
    let line = trim(raw);
    let text = line_text(line);
    let spoken = estimate_ms(count_words(text));
    if line.len() == 0 {
        LineRead { cursor, segment: None }
    } else {
        match find_stamp(line) {
            Some((at, st)) => {
                let start = match st.start_ms {
                    Some(t) => t,
                    None => cursor,
                };
                if text.len() == 0 || is_label(text) {
                    LineRead { cursor: start, segment: None }
                } else {
                    let end = match st.end_ms {
                        Some(e) => e,
                        None => start + spoken,
                    };
                    LineRead {
                        cursor: start,
                        segment: Some(
                            SegmentView {
                                start,
                                end: Some(end),
                                text,
                                file_index: index,
                                filename,
                            },
                        ),
                    }
                }
            },
            None => {
                if text.len() == 0 || is_label(text) {
                    LineRead { cursor, segment: None }
                } else {
                    LineRead {
                        cursor: cursor + spoken,
                        segment: Some(
                            SegmentView {
                                start: cursor,
                                end: Some(cursor + spoken),
                                text,
                                file_index: index,
                                filename,
                            },
                        ),
                    }
                }
            },
        }
    }
}

/// The running time and the segments after the first `k` lines.
pub struct TxtState {
    pub cursor: nat,
    pub segments: Seq<SegmentView>,
}

/// Reads the first `k` lines in turn, from running time zero.
pub open spec fn txt_fold(ls: Seq<Seq<char>>, k: int, filename: Seq<char>) -> TxtState
    decreases k,
{
    if k <= 0 {
        TxtState { cursor: 0, segments: Seq::empty() }
    } else {
        let prev = txt_fold(ls, k - 1, filename);
        let r = read_line(ls[k - 1], prev.cursor, (k - 1) as nat, filename);
        TxtState {
            cursor: r.cursor,
            segments: match r.segment {
                Some(sg) => prev.segments.push(sg),
                None => prev.segments,
            },
        }
    }
}

/// The segments of a plain-text transcript. Where no line gives a segment
/// and the content is not blank, the whole trimmed content is one segment
/// at time zero, without an end.
pub open spec fn txt_segments(content: Seq<char>, filename: Seq<char>) -> Seq<SegmentView> {
    let ls = lines(content);
    let segs = txt_fold(ls, ls.len() as int, filename).segments;
    if segs.len() == 0 && trim(content).len() > 0 {
        seq![
            SegmentView {
                start: 0,
                end: None,
                text: trim(content),
                file_index: 0,
                filename,
            },
        ]
    } else {
        segs
    }
}

/// The segments of the first `k` lines are the first of those of the first `n`.
pub proof fn lemma_txt_fold_grows(ls: Seq<Seq<char>>, k: int, n: int, filename: Seq<char>)
    requires
        0 <= k <= n,
    ensures
        txt_fold(ls, k, filename).segments.len() <= txt_fold(ls, n, filename).segments.len(),
        txt_fold(ls, k, filename).segments =~= txt_fold(ls, n, filename).segments.take(
            txt_fold(ls, k, filename).segments.len() as int,
        ),
    decreases n - k,
{
    if k < n {
        lemma_txt_fold_grows(ls, k, n - 1, filename);
    }
}

/// The time it takes to say `words` words; `None` when it does not fit.
pub fn estimate(words: usize) -> (r: Option<u64>)
    ensures
        match r {
            Some(v) => v == estimate_ms(words as nat),
            None => estimate_ms(words as nat) > u64::MAX,
        },
{
    match (words as u64).checked_mul(WORD_MS) {
        Some(v) => if v < MIN_LINE_MS {
            Some(MIN_LINE_MS)
        } else {
            Some(v)
        },
        None => None,
    }
}

fn tidy_slice<'a>(s: &'a [char]) -> (r: &'a [char])
    ensures
        r@ == tidy(s@),
{
    let n: usize = s.len();
    let mut a: usize = 0;
    while a < n && s[a] == ':'
        invariant
            n == s@.len(),
            0 <= a <= n,
            skip_colons(s@, a as int) == skip_colons(s@, 0),
        decreases n - a,
    {
        a = a + 1;
    }
    trim_slice(slice_subrange(s, a, n))
}

fn label(t: &[char]) -> (b: bool)
    ensures
        b == is_label(t@),
{
    let n: usize = t.len();
    n > 0 && t[n - 1] == ':' && word_count(t) == 1
}

fn cut_out(s: &[char], a: usize, b: usize) -> (r: Vec<char>)
    requires
        a <= b <= s@.len(),
    ensures
        r@ == without(s@, a as int, b as int),
{
    let n: usize = s.len();
    let mut out: Vec<char> = Vec::new();
    let mut i: usize = 0;
    while i < a
        invariant
            a <= b <= n,
            n == s@.len(),
            0 <= i <= a,
            out@ == s@.subrange(0, i as int),
        decreases a - i,
    {
        out.push(s[i]);
        proof {
            assert(s@.subrange(0, i + 1) =~= s@.subrange(0, i as int).push(s@[i as int]));
        }
        i = i + 1;
    }
    let mut j: usize = b;
    while j < n
        invariant
            a <= b <= n,
            n == s@.len(),
            b <= j <= n,
            out@ == s@.subrange(0, a as int) + s@.subrange(b as int, j as int),
        decreases n - j,
    {
        out.push(s[j]);
        proof {
            assert(s@.subrange(b as int, j + 1) =~= s@.subrange(b as int, j as int).push(
                s@[j as int],
            ));
            assert((s@.subrange(0, a as int) + s@.subrange(b as int, j as int)).push(s@[j as int])
                =~= s@.subrange(0, a as int) + s@.subrange(b as int, j + 1));
        }
        j = j + 1;
    }
    out
}

/// Whether a segment that was read, if any, is the one that `m` names.
pub open spec fn same_segment(r: Option<TranscriptionSegment>, m: Option<SegmentView>) -> bool {
    match r {
        Some(s) => m == Some(s@),
        None => m is None,
    }
}

/// Reads one line at running time `cursor`. `None` when the end of its
/// segment does not fit.
#[verifier::rlimit(40)]
pub fn read_text_line(
    raw: &[char],
    cursor: u64,
    index: usize,
    filename: &str,
) -> (r: Option<(u64, Option<TranscriptionSegment>)>)
    ensures
        match r {
            Some((c, seg)) => {
                let m = read_line(raw@, cursor as nat, index as nat, filename@);
                c == m.cursor && same_segment(seg, m.segment)
            },
            None => {
                let m = read_line(raw@, cursor as nat, index as nat, filename@);
                m.segment matches Some(sg) && sg.end matches Some(e) && e > u64::MAX
            },
        },
{
    let line: &[char] = trim_slice(raw);
    if line.len() == 0 {
        return Some((cursor, None));
    }
    let hit: Option<Stamp> = locate_stamp(line);
    match hit {
        Some(st) => {
            let cut: Vec<char> = cut_out(line, st.at, st.end);
            let text: &[char] = tidy_slice(trim_slice(cut.as_slice()));
            let start: u64 = match st.start_ms {
                Some(t) => t,
                None => cursor,
            };
            if text.len() == 0 || label(text) {
                return Some((start, None));
            }
            let end: u64 = match st.end_ms {
                Some(e) => e,
                None => {
                    let spoken: u64 = match estimate(word_count(text)) {
                        Some(v) => v,
                        None => {
                            return None;
                        },
                    };
                    match start.checked_add(spoken) {
                        Some(e) => e,
                        None => {
                            return None;
                        },
                    }
                },
            };
            Some(
                (
                    start,
                    Some(
                        TranscriptionSegment {
                            start_ms: start,
                            end_ms: Some(end),
                            text: string_of(text),
                            file_index: index,
                            original_filename: filename.to_owned(),
                        },
                    ),
                ),
            )
        },
        None => {
            let text: &[char] = tidy_slice(line);
            if text.len() == 0 || label(text) {
                return Some((cursor, None));
            }
            let spoken: u64 = match estimate(word_count(text)) {
                Some(v) => v,
                None => {
                    return None;
                },
            };
            let end: u64 = match cursor.checked_add(spoken) {
                Some(e) => e,
                None => {
                    return None;
                },
            };
            Some(
                (
                    end,
                    Some(
                        TranscriptionSegment {
                            start_ms: cursor,
                            end_ms: Some(end),
                            text: string_of(text),
                            file_index: index,
                            original_filename: filename.to_owned(),
                        },
                    ),
                ),
            )
        },
    }
}

/// Parses a plain-text transcript.
///
/// Gives the segments of `txt_segments`, or `TimeOverflow` when one of
/// their times does not fit in 64 bits. A range is taken as it is written:
/// where its end lies before its start, so does the end of the segment.
pub fn parse_txt(content: &str, filename: &str) -> (r: Result<Vec<TranscriptionSegment>, ErrorKind>)
    ensures
        r is Ok <==> times_fit(txt_segments(content@, filename@)),
        match r {
            Ok(v) => segment_views(v@) == txt_segments(content@, filename@),
            Err(e) => e == ErrorKind::TimeOverflow && !times_fit(
                txt_segments(content@, filename@),
            ),
        },
{
    let chars: Vec<char> = chars_of(content);
    let ls: Vec<&[char]> = split_lines(chars.as_slice());
    let n: usize = ls.len();
    let mut segments: Vec<TranscriptionSegment> = Vec::new();
    let mut cursor: u64 = 0;
    let mut k: usize = 0;
    assert(segment_views(segments@) =~= txt_fold(views(ls@), 0, filename@).segments);
    while k < n
        invariant
            n == ls@.len(),
            0 <= k <= n,
            views(ls@) == lines(content@),
            cursor == txt_fold(views(ls@), k as int, filename@).cursor,
            segment_views(segments@) == txt_fold(views(ls@), k as int, filename@).segments,
        decreases n - k,
    {
        let ghost before = segment_views(segments@);
        match read_text_line(ls[k], cursor, k, filename) {
            Some((c, seg)) => {
                cursor = c;
                match seg {
                    Some(s) => {
                        segments.push(s);
                        proof {
                            assert(segment_views(segments@) =~= before.push(s@));
                        }
                    },
                    None => {},
                }
            },
            None => {
                proof {
                    let all = views(ls@);
                    lemma_txt_fold_grows(all, k + 1, n as int, filename@);
                    let part = txt_fold(all, k + 1, filename@).segments;
                    let whole = txt_fold(all, n as int, filename@).segments;
                    assert(part.len() == before.len() + 1);
                    assert(whole[before.len() as int] == part[before.len() as int]);
                    assert(whole.len() > 0);
                    assert(txt_segments(content@, filename@) == whole);
                }
                return Err(ErrorKind::TimeOverflow);
            },
        }
        k = k + 1;
    }
    if segments.len() == 0 {
        let all: &[char] = trim_slice(chars.as_slice());
        if all.len() > 0 {
            segments.push(
                TranscriptionSegment {
                    start_ms: 0,
                    end_ms: None,
                    text: string_of(all),
                    file_index: 0,
                    original_filename: filename.to_owned(),
                },
            );
            proof {
                assert(segment_views(segments@) =~= txt_segments(content@, filename@));
            }
        }
    }
    Ok(segments)
}

/// The segment of a line with a timestamp at its start, if its text gives one.
pub open spec fn stamped_segment(
    start: nat,
    end: nat,
    text: Seq<char>,
    index: nat,
    filename: Seq<char>,
) -> Option<SegmentView> {
    if text.len() == 0 || is_label(text) {
        None
    } else {
        Some(SegmentView { start, end: Some(end), text, file_index: index, filename })
    }
}

/// The line `[m1:s1-m2:s2]` and what follows it holds no range of hours,
/// minutes and seconds where what follows holds no opening bracket.
#[verifier::rlimit(40)]
pub proof fn lemma_range_stands_alone(
    m1: Seq<char>,
    s1: Seq<char>,
    m2: Seq<char>,
    s2: Seq<char>,
    rest: Seq<char>,
)
    requires
        is_minutes(m1),
        is_two_digits(s1),
        is_minutes(m2),
        is_two_digits(s2),
        none_from(rest, '[', 0),
    ensures
        find_form(minute_range_text(m1, s1, m2, s2) + rest, StampForm::ClockRange, 0) is None,
{
    let head = minute_range_text(m1, s1, m2, s2);
    let line = head + rest;
    let n = head.len() as int;
    let a: int = m1.len() + 1int;
    let b: int = a + 1 + s1.len();
    let c: int = b + 1 + m2.len();
    assert forall|k: int| 1 <= k < line.len() implies #[trigger] line[k] != '[' by {
        if k < n {
            assert(line[k] == head[k]);
            if k < a {
                assert(head[k] == m1[k - 1]);
            } else if k == a {
            } else if k < b {
                assert(head[k] == s1[k - a - 1]);
            } else if k == b {
            } else if k < c {
                assert(head[k] == m2[k - b - 1]);
            } else if k == c {
            } else if k < n - 1 {
                assert(head[k] == s2[k - c - 1]);
            }
        } else {
            assert(line[k] == rest[k - n]);
        }
    }
    lemma_form_at_start_only(line, StampForm::ClockRange);
    assert(form_at(line, StampForm::ClockRange, 0) is None) by {
        assert(line[0] == head[0]);
        assert forall|k: int| 1 <= k < a implies is_digit(#[trigger] line[k]) by {
            assert(line[k] == head[k] && head[k] == m1[k - 1]);
        }
        assert(line[a] == head[a] && head[a] == ':');
        lemma_digit_run_exact(line, 1, a);
        assert forall|k: int| a + 1 <= k < b implies is_digit(#[trigger] line[k]) by {
            assert(line[k] == head[k] && head[k] == s1[k - a - 1]);
        }
        assert(line[b] == head[b] && head[b] == '-');
        lemma_digit_run_exact(line, a + 1, b);
    }
}

/// A line that starts with `[MM:SS-MM:SS]` starts and ends where the range
/// says, sixty times the minutes plus the seconds of each side, and its
/// text is what follows the range, unless a range of hours, minutes and
/// seconds stands somewhere in the line, which then counts.
pub proof fn law_range_line(
    raw: Seq<char>,
    m1: Seq<char>,
    s1: Seq<char>,
    m2: Seq<char>,
    s2: Seq<char>,
    rest: Seq<char>,
    cursor: nat,
    index: nat,
    filename: Seq<char>,
)
    requires
        is_minutes(m1),
        is_two_digits(s1),
        is_minutes(m2),
        is_two_digits(s2),
        trim(raw) == minute_range_text(m1, s1, m2, s2) + rest,
        find_form(trim(raw), StampForm::ClockRange, 0) is None,
    ensures
        read_line(raw, cursor, index, filename).cursor == minutes_value(m1, s1),
        read_line(raw, cursor, index, filename).segment == stamped_segment(
            minutes_value(m1, s1),
            minutes_value(m2, s2),
            tidy(trim(rest)),
            index,
            filename,
        ),
{
    let head = minute_range_text(m1, s1, m2, s2);
    let line = trim(raw);
    let n = head.len() as int;
    assert(line.subrange(0, n) =~= head);
    law_minute_range(line, 0, m1, s1, m2, s2);
    assert(without(line, 0, n) =~= rest);
}

/// Whether no form but a number in brackets stands anywhere in `line`.
pub open spec fn only_seconds_stand(line: Seq<char>) -> bool {
    &&& find_form(line, StampForm::ClockRange, 0) is None
    &&& find_form(line, StampForm::MinuteRange, 0) is None
    &&& find_form(line, StampForm::BracketClock, 0) is None
    &&& find_form(line, StampForm::BracketMinute, 0) is None
    &&& find_form(line, StampForm::LeadingClock, 0) is None
    &&& find_form(line, StampForm::LeadingMinute, 0) is None
    &&& find_form(line, StampForm::ArrowRange, 0) is None
}

/// In the line `[digits]` and what follows it no form but the number in
/// brackets stands where what follows holds no opening bracket.
#[verifier::rlimit(40)]
pub proof fn lemma_seconds_stand_alone(digits: Seq<char>, rest: Seq<char>)
    requires
        all_digits(digits),
        digits.len() >= 1,
        none_from(rest, '[', 0),
    ensures
        only_seconds_stand(seconds_text(digits) + rest),
{
    let head = seconds_text(digits);
    let line = head + rest;
    let n = head.len() as int;
    assert forall|k: int| 1 <= k < line.len() implies #[trigger] line[k] != '[' by {
        if k < n {
            assert(line[k] == head[k]);
            if k < n - 1 {
                assert(head[k] == digits[k - 1]);
            }
        } else {
            assert(line[k] == rest[k - n]);
        }
    }
    assert(line[0] == head[0]);
    assert forall|k: int| 1 <= k < n - 1 implies is_digit(#[trigger] line[k]) by {
        assert(line[k] == head[k] && head[k] == digits[k - 1]);
    }
    assert(line[n - 1] == head[n - 1] && head[n - 1] == ']');
    lemma_digit_run_exact(line, 1, n - 1);
    lemma_digit_run_bounds(line, 0);
    lemma_form_at_start_only(line, StampForm::ClockRange);
    lemma_form_at_start_only(line, StampForm::MinuteRange);
    lemma_form_at_start_only(line, StampForm::BracketClock);
    lemma_form_at_start_only(line, StampForm::BracketMinute);
    lemma_form_at_start_only(line, StampForm::LeadingClock);
    lemma_form_at_start_only(line, StampForm::LeadingMinute);
    lemma_form_at_start_only(line, StampForm::ArrowRange);
}

/// A line that starts with a numeral in square brackets starts at that
/// number of seconds where it is below 3600, and at the running time from
/// 3600 on; either way the brackets and the number are left out of its
/// text. This holds unless another form of timestamp stands somewhere in
/// the line, which then counts.
pub proof fn law_seconds_line(
    raw: Seq<char>,
    digits: Seq<char>,
    rest: Seq<char>,
    cursor: nat,
    index: nat,
    filename: Seq<char>,
)
    requires
        all_digits(digits),
        digits.len() >= 1,
        trim(raw) == seconds_text(digits) + rest,
        only_seconds_stand(trim(raw)),
    ensures
        ({
            let start: nat = if digits_value(digits) < SECONDS_LIMIT {
                digits_value(digits) * 1000
            } else {
                cursor
            };
            let text = tidy(trim(rest));
            let r = read_line(raw, cursor, index, filename);
            &&& r.cursor == start
            &&& r.segment == stamped_segment(
                start,
                start + estimate_ms(count_words(text)),
                text,
                index,
                filename,
            )
        }),
{
    let head = seconds_text(digits);
    let line = trim(raw);
    let n = head.len() as int;
    assert(line.subrange(0, n) =~= head);
    law_bracketed_seconds(line, 0, digits);
    assert(without(line, 0, n) =~= rest);
}

/// A line without an opening bracket that does not start with a digit
/// carries no timestamp: it starts at the running time and none of it is
/// taken out, whatever numbers it holds.
pub proof fn law_bare_number_line(raw: Seq<char>, cursor: nat, index: nat, filename: Seq<char>)
    requires
        none_from(trim(raw), '[', 0),
        trim(raw).len() > 0,
        !is_digit(trim(raw)[0]),
    ensures
        ({
            let text = tidy(trim(raw));
            let end = cursor + estimate_ms(count_words(text));
            let r = read_line(raw, cursor, index, filename);
            r.segment == if text.len() == 0 || is_label(text) {
                None
            } else {
                Some(
                    SegmentView {
                        start: cursor,
                        end: Some(end as nat),
                        text,
                        file_index: index,
                        filename,
                    },
                )
            }
        }),
{
    law_bare_numbers_are_text(trim(raw));
}

proof fn lemma_txt_fold_in_order(ls: Seq<Seq<char>>, k: int, filename: Seq<char>)
    requires
        0 <= k,
    ensures
        in_file_order(txt_fold(ls, k, filename).segments, filename),
        forall|i: int|
            0 <= i < txt_fold(ls, k, filename).segments.len() ==> (#[trigger] txt_fold(
                ls,
                k,
                filename,
            ).segments[i]).file_index < k,
    decreases k,
{
    if k > 0 {
        lemma_txt_fold_in_order(ls, k - 1, filename);
        let prev = txt_fold(ls, k - 1, filename);
        let line = trim(ls[k - 1]);
        match find_stamp(line) {
            Some((at, st)) => {
                let cut = trim(without(line, at, st.end));
                lemma_trim_is_trimmed(cut.subrange(skip_colons(cut, 0), cut.len() as int));
            },
            None => {
                lemma_trim_is_trimmed(line.subrange(skip_colons(line, 0), line.len() as int));
            },
        }
    }
}

/// The segments of a plain-text transcript have text that is not empty
/// and trimmed, bear the name of the file, and stand in the order of their lines.
pub proof fn law_txt_segments_in_file_order(content: Seq<char>, filename: Seq<char>)
    ensures
        in_file_order(txt_segments(content, filename), filename),
{
    let ls = lines(content);
    lemma_txt_fold_in_order(ls, ls.len() as int, filename);
    lemma_trim_is_trimmed(content);
}

/// Whether the timestamp of a line is a range that ends before it starts.
pub open spec fn is_reversed(raw: Seq<char>) -> bool {
    match find_stamp(trim(raw)) {
        Some((at, st)) => match (st.start_ms, st.end_ms) {
            (Some(a), Some(b)) => b < a,
            _ => false,
        },
        None => false,
    }
}

/// Whether no line of `ls` carries a range that ends before it starts.
pub open spec fn none_reversed(ls: Seq<Seq<char>>) -> bool {
    forall|k: int| 0 <= k < ls.len() ==> !is_reversed(#[trigger] ls[k])
}

proof fn lemma_txt_fold_ends_in_time(ls: Seq<Seq<char>>, k: int, filename: Seq<char>)
    requires
        0 <= k <= ls.len(),
        none_reversed(ls),
    ensures
        forall|i: int|
            0 <= i < txt_fold(ls, k, filename).segments.len() ==> ends_in_time(
                #[trigger] txt_fold(ls, k, filename).segments[i],
            ),
    decreases k,
{
    if k > 0 {
        lemma_txt_fold_ends_in_time(ls, k - 1, filename);
        assert(!is_reversed(ls[k - 1]));
        let prev = txt_fold(ls, k - 1, filename);
        let now = txt_fold(ls, k, filename);
        let r = read_line(ls[k - 1], prev.cursor, (k - 1) as nat, filename);
        lemma_end_comes_with_start(trim(ls[k - 1]));
        assert(r.segment matches Some(sg) ==> ends_in_time(sg));
        assert forall|i: int| 0 <= i < now.segments.len() implies ends_in_time(
            #[trigger] now.segments[i],
        ) by {
            if i < prev.segments.len() {
                assert(now.segments[i] == prev.segments[i]);
            }
        }
    }
}

/// No segment of a plain-text transcript ends before it starts, as long as
/// no line carries a range that is written with its end before its start.
pub proof fn law_txt_segments_end_in_time(content: Seq<char>, filename: Seq<char>)
    requires
        none_reversed(lines(content)),
    ensures
        forall|i: int|
            0 <= i < txt_segments(content, filename).len() ==> ends_in_time(
                #[trigger] txt_segments(content, filename)[i],
            ),
{
    let ls = lines(content);
    lemma_txt_fold_ends_in_time(ls, ls.len() as int, filename);
}

/// A text of one line that starts with no digit and no colon, holds no
/// opening bracket and is no speaker's label is one segment at time zero
/// with the whole line as its text, whatever numbers the line holds.
pub proof fn law_bare_number_text(line: Seq<char>, filename: Seq<char>)
    requires
        is_trimmed(line),
        none_from(line, '\n', 0),
        none_from(line, '[', 0),
        !is_digit(line[0]),
        line[0] != ':',
        !is_label(line),
    ensures
        txt_segments(line, filename) == seq![
            SegmentView {
                start: 0,
                end: Some(estimate_ms(count_words(line))),
                text: line,
                file_index: 0,
                filename,
            },
        ],
{
    lemma_find_char_bounds(line, '\n', 0);
    let e = find_char(line, '\n', 0);
    if e < line.len() {
        assert(line[e] != '\n');
    }
    assert(line.subrange(0, line.len() as int) =~= line);
    assert(lines_from(line, line.len() + 1int) =~= Seq::<Seq<char>>::empty());
    assert(lines(line) =~= seq![line]);
    let ls = lines(line);
    assert(trim(line) == line);
    law_bare_numbers_are_text(line);
    assert(skip_colons(line, 0) == 0);
    assert(tidy(line) == line);
    assert(txt_fold(ls, 0, filename).segments =~= Seq::<SegmentView>::empty());
    assert(txt_fold(ls, 1, filename).segments =~= seq![
        SegmentView {
            start: 0,
            end: Some(estimate_ms(count_words(line))),
            text: line,
            file_index: 0,
            filename,
        },
    ]);
}

} // verus!
