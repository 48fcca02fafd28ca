//! Plain text that was written from segments reads back to the same
//! starts, to the second.

use crate::model::SegmentView;
use crate::plain::{is_label, read_line, skip_colons, tidy, txt_fold, txt_segments, without};
use crate::render::{marker, txt_entry, txt_stamp, txt_text};
use crate::stamp::{
    field_at, find_form, find_stamp, form_at, fraction_at, has_char, hours_at, is_leading,
    lemma_field, minutes_at, none_from, pair_at, time_at, StampForm, StampRead,
};
use crate::text::{
    all_digits, count_words, decimal, digit_char, digit_run_end, digits_value, find_char, is_digit,
    is_space, is_word_start, lemma_decimal_digits, lemma_digit_char, lemma_find_char_bounds, lines,
    lines_from, padded, skip_spaces, stands_at, strip_line_end, trim, word_starts,
};
use vstd::prelude::*;

verus! {

/// A text that starts and ends with something other than whitespace is trimmed already.
pub proof fn lemma_trim_fixed(s: Seq<char>)
    requires
        s.len() > 0,
        !is_space(s[0]),
        !is_space(s.last()),
    ensures
        trim(s) == s,
{
    assert(s.subrange(0, s.len() as int) =~= s);
}

/// Trimming drops one space before a text that is trimmed already.
pub proof fn lemma_trim_after_space(u: Seq<char>)
    requires
        u.len() > 0,
        !is_space(u[0]),
        !is_space(u.last()),
    ensures
        trim(seq![' '] + u) == u,
{
    let s = seq![' '] + u;
    assert(is_space(s[0]));
    assert(s[1] == u[0]);
    assert(skip_spaces(s, 1) == 1);
    assert(skip_spaces(s, 0) == 1);
    assert(s.last() == u.last());
    assert(s.subrange(1, s.len() as int) =~= u);
}

/// A number below one hundred is written with two digits that read back to it.
pub proof fn lemma_two_digits(x: nat)
    requires
        x < 100,
    ensures
        padded(x, 2).len() == 2,
        all_digits(padded(x, 2)),
        digits_value(padded(x, 2)) == x,
{
    lemma_decimal_digits(x);
    if x < 10 {
        let p = padded(x, 2);
        assert(decimal(x) =~= seq![digit_char(x)]);
        assert(p =~= seq!['0', digit_char(x)]);
        lemma_digit_char(x);
        assert(p.drop_last() =~= seq!['0']);
        assert(seq!['0'].drop_last() =~= Seq::<char>::empty());
        assert(digits_value(seq!['0']) == 0) by {
            assert(digits_value(seq!['0'].drop_last()) == 0);
        }
    } else {
        assert(decimal(x / 10) =~= seq![digit_char(x / 10)]);
        assert(decimal(x).len() == 2);
    }
}

/// The number of words that start does not fall along the text.
pub proof fn lemma_word_starts_rise(s: Seq<char>, k: int, n: int)
    requires
        0 <= k <= n,
    ensures
        word_starts(s, k) <= word_starts(s, n),
    decreases n - k,
{
    if k < n {
        lemma_word_starts_rise(s, k, n - 1);
    }
}

/// A text with a word at its start and a word after a space has two words or more.
pub proof fn lemma_two_words(s: Seq<char>, j: int)
    requires
        0 < j < s.len(),
        !is_space(s[0]),
        is_space(s[j - 1]),
        !is_space(s[j]),
    ensures
        count_words(s) >= 2,
{
    assert(is_word_start(s, 0));
    assert(is_word_start(s, j));
    assert(word_starts(s, 1) == 1) by {
        assert(word_starts(s, 0) == 0);
    }
    lemma_word_starts_rise(s, 1, j);
    lemma_word_starts_rise(s, j + 1, s.len() as int);
}

/// A character found in a text is found at the same place with more text behind it.
pub proof fn lemma_find_char_in_front(a: Seq<char>, b: Seq<char>, c: char, i: int)
    requires
        0 <= i <= a.len(),
        find_char(a, c, i) < a.len(),
    ensures
        find_char(a + b, c, i) == find_char(a, c, i),
    decreases a.len() - i,
{
    if i < a.len() {
        assert((a + b)[i] == a[i]);
        if a[i] != c {
            lemma_find_char_in_front(a, b, c, i + 1);
        }
    }
}

/// A character is found in the second of two texts in a row where it is found in that text alone.
pub proof fn lemma_find_char_behind(a: Seq<char>, b: Seq<char>, c: char, j: int)
    requires
        0 <= j <= b.len(),
    ensures
        find_char(a + b, c, a.len() + j) == a.len() + find_char(b, c, j),
    decreases b.len() - j,
{
    if j < b.len() {
        assert((a + b)[a.len() + j] == b[j]);
        if b[j] != c {
            lemma_find_char_behind(a, b, c, j + 1);
        }
    }
}

/// The lines from a place in the second of two texts in a row are those of that text alone.
pub proof fn lemma_lines_behind(a: Seq<char>, b: Seq<char>, j: int)
    requires
        0 <= j <= b.len(),
    ensures
        lines_from(a + b, a.len() + j) == lines_from(b, j),
    decreases b.len() - j,
{
    if j < b.len() {
        let s = a + b;
        lemma_find_char_behind(a, b, '\n', j);
        lemma_find_char_bounds(b, '\n', j);
        let e = find_char(b, '\n', j);
        assert(s.subrange(a.len() + j, a.len() + e) =~= b.subrange(j, e));
        if e < b.len() {
            lemma_lines_behind(a, b, e + 1);
        } else {
            assert(lines_from(s, a.len() + e + 1) =~= Seq::<Seq<char>>::empty());
            assert(lines_from(b, e + 1) =~= Seq::<Seq<char>>::empty());
        }
    }
}

/// The lines of two texts in a row are the lines of the first and then
/// those of the second, where the first ends in a line feed.
pub proof fn lemma_lines_in_a_row(a: Seq<char>, b: Seq<char>, i: int)
    requires
        0 <= i <= a.len(),
        a.len() == 0 || a.last() == '\n',
    ensures
        lines_from(a + b, i) == lines_from(a, i) + lines_from(b, 0),
    decreases a.len() - i,
{
    let s = a + b;
    if i < a.len() {
        lemma_find_char_bounds(a, '\n', i);
        let e = find_char(a, '\n', i);
        assert(e < a.len()) by {
            if e >= a.len() {
                assert(a[a.len() - 1] != '\n');
            }
        }
        lemma_find_char_in_front(a, b, '\n', i);
        assert(s.subrange(i, e) =~= a.subrange(i, e));
        lemma_lines_in_a_row(a, b, e + 1);
        assert(seq![strip_line_end(a.subrange(i, e), true)] + (lines_from(a, e + 1) + lines_from(
            b,
            0,
        )) =~= seq![strip_line_end(a.subrange(i, e), true)] + lines_from(a, e + 1) + lines_from(
            b,
            0,
        ));
    } else {
        lemma_lines_behind(a, b, 0);
        assert(lines_from(a, i) =~= Seq::<Seq<char>>::empty());
        assert(Seq::<Seq<char>>::empty() + lines_from(b, 0) =~= lines_from(b, 0));
    }
}

/// A text without a line feed that does not end in a carriage return,
/// with a line feed put behind it, is one line.
pub proof fn lemma_one_line(l: Seq<char>)
    requires
        none_from(l, '\n', 0),
        l.len() == 0 || l.last() != '\r',
    ensures
        lines(l.push('\n')) == seq![l],
{
    let s = l.push('\n');
    assert(find_char(s, '\n', 0) == l.len()) by {
        lemma_find_char_bounds(s, '\n', 0);
        let e = find_char(s, '\n', 0);
        if e < l.len() {
            assert(s[e] == l[e]);
        }
        assert(s[l.len() as int] == '\n');
    }
    assert(s.subrange(0, l.len() as int) =~= l);
    assert(lines_from(s, l.len() + 1int) =~= Seq::<Seq<char>>::empty());
    assert(seq![l] + Seq::<Seq<char>>::empty() =~= seq![l]);
}

/// A time without what is less than a second.
pub open spec fn whole_seconds(ms: nat) -> nat {
    (ms / 1000) * 1000
}

/// The largest time that is written with two digits for the hours.
pub const HOURS_LIMIT_MS: u64 = 360_000_000;

/// Whether no opening bracket of `s` has a digit behind it.
pub open spec fn no_stamp_start(s: Seq<char>) -> bool {
    forall|i: int| 0 <= i && i + 1 < s.len() && #[trigger] s[i] == '[' ==> !is_digit(s[i + 1])
}

/// A form in brackets needs an opening bracket and a digit behind it.
pub proof fn lemma_bracket_needs_digit(s: Seq<char>, form: StampForm, i: int)
    requires
        !is_leading(form),
        form_at(s, form, i) is Some,
    ensures
        has_char(s, i, '['),
        i + 1 < s.len(),
        is_digit(s[i + 1]),
{
    assert(has_char(s, i, '['));
    if i + 1 >= s.len() || !is_digit(s[i + 1]) {
        assert(digit_run_end(s, i + 1) == i + 1);
    }
}

proof fn lemma_no_form_behind(s: Seq<char>, form: StampForm, i: int)
    requires
        1 <= i,
        !is_leading(form),
        forall|k: int| 1 <= k && k + 1 < s.len() && #[trigger] s[k] == '[' ==> !is_digit(s[k + 1]),
    ensures
        find_form(s, form, i) is None,
    decreases s.len() - i,
{
    if i < s.len() {
        if form_at(s, form, i) is Some {
            lemma_bracket_needs_digit(s, form, i);
        }
        lemma_no_form_behind(s, form, i + 1);
    }
}

/// The hours, minutes and seconds of a time make up its whole seconds.
proof fn lemma_clock_parts(ms: nat)
    ensures
        ((ms / 3_600_000) * 3600 + ((ms / 60_000) % 60) * 60 + (ms / 1000) % 60) * 1000
            == whole_seconds(ms),
        (ms / 60_000) % 60 < 60,
        (ms / 1000) % 60 < 60,
        ms < HOURS_LIMIT_MS ==> ms / 3_600_000 < 100,
{
    let t = ms / 1000;
    assert(ms / 60_000 == t / 60);
    assert(ms / 3_600_000 == t / 3600);
    assert(t / 3600 == (t / 60) / 60);
}

/// Two digits at `i` of `s`, with no digit after them, are read as a field.
proof fn lemma_pair_field(s: Seq<char>, i: int, x: nat, min: int)
    requires
        x < 100,
        min <= 2,
        stands_at(s, i, padded(x, 2)),
        i + 2 == s.len() || !is_digit(s[i + 2]),
    ensures
        field_at(s, i, min, 2) == Some((i + 2, x)),
{
    lemma_two_digits(x);
    lemma_field(s, i, padded(x, 2), min, 2);
}

/// `[MM:SS]`
pub open spec fn minute_stamp(m: nat, sec: nat) -> Seq<char> {
    seq!['['] + padded(m, 2) + seq![':'] + padded(sec, 2) + seq![']']
}

/// `[HH:MM:SS]`
pub open spec fn clock_stamp(h: nat, m: nat, sec: nat) -> Seq<char> {
    seq!['['] + padded(h, 2) + seq![':'] + padded(m, 2) + seq![':'] + padded(sec, 2) + seq![']']
}

/// Whether the timestamp at the start of `line` counts: no form that is
/// tried before it stands behind the start of the line. `hours` says
/// whether the timestamp has hours.
pub open spec fn start_counts(line: Seq<char>, hours: bool) -> bool {
    &&& find_form(line, StampForm::ClockRange, 1) is None
    &&& find_form(line, StampForm::MinuteRange, 1) is None
    &&& !hours ==> find_form(line, StampForm::BracketClock, 1) is None
}

/// A line that starts with `[MM:SS]` has this as its timestamp where it counts.
#[verifier::rlimit(40)]
proof fn lemma_minute_stamp_line(line: Seq<char>, m: nat, sec: nat)
    requires
        m < 100,
        sec < 100,
        stands_at(line, 0, minute_stamp(m, sec)),
        start_counts(line, false),
    ensures
        find_stamp(line) == Some(
            (
                0int,
                StampRead {
                    end: 7,
                    start_ms: Some(((m * 60 + sec) * 1000) as nat),
                    end_ms: None,
                },
            ),
        ),
{
    let text = minute_stamp(m, sec);
    lemma_two_digits(m);
    lemma_two_digits(sec);
    let pm = padded(m, 2);
    let ps = padded(sec, 2);
    assert(text.len() == 7);
    assert forall|k: int| 0 <= k < 7 implies line[k] == #[trigger] text[k] by {
        assert(line.subrange(0, 7)[k] == text[k]);
    }
    assert(text[0] == '[' && text[3] == ':' && text[6] == ']');
    assert(text[1] == pm[0] && text[2] == pm[1] && text[4] == ps[0] && text[5] == ps[1]);
    assert(line.subrange(1, 3) =~= pm);
    assert(line.subrange(4, 6) =~= ps);
    lemma_pair_field(line, 1, m, 1);
    lemma_pair_field(line, 4, sec, 2);
    assert(pair_at(line, 1, 1) == Some((6int, m, sec)));
    assert(minutes_at(line, 1) == Some((6int, ((m * 60 + sec) * 1000) as nat)));
    assert(pair_at(line, 4, 2) is None);
    assert(hours_at(line, 1) is None);
    assert(form_at(line, StampForm::ClockRange, 0) is None);
    assert(form_at(line, StampForm::MinuteRange, 0) is None);
    assert(form_at(line, StampForm::BracketClock, 0) is None);
    assert(form_at(line, StampForm::BracketMinute, 0) == Some(
        StampRead { end: 7, start_ms: Some(((m * 60 + sec) * 1000) as nat), end_ms: None },
    ));
}

/// A line that starts with `[HH:MM:SS]` has this as its timestamp where it counts.
#[verifier::rlimit(40)]
proof fn lemma_clock_stamp_line(line: Seq<char>, h: nat, m: nat, sec: nat)
    requires
        h < 100,
        m < 100,
        sec < 100,
        stands_at(line, 0, clock_stamp(h, m, sec)),
        start_counts(line, true),
    ensures
        find_stamp(line) == Some(
            (
                0int,
                StampRead {
                    end: 10,
                    start_ms: Some(((h * 3600 + m * 60 + sec) * 1000) as nat),
                    end_ms: None,
                },
            ),
        ),
{
    let text = clock_stamp(h, m, sec);
    lemma_two_digits(h);
    lemma_two_digits(m);
    lemma_two_digits(sec);
    let ph = padded(h, 2);
    let pm = padded(m, 2);
    let ps = padded(sec, 2);
    assert(text.len() == 10);
    assert forall|k: int| 0 <= k < 10 implies line[k] == #[trigger] text[k] by {
        assert(line.subrange(0, 10)[k] == text[k]);
    }
    assert(text[0] == '[' && text[3] == ':' && text[6] == ':' && text[9] == ']');
    assert(text[1] == ph[0] && text[2] == ph[1] && text[4] == pm[0] && text[5] == pm[1] && text[7]
        == ps[0] && text[8] == ps[1]);
    assert(line.subrange(1, 3) =~= ph);
    assert(line.subrange(4, 6) =~= pm);
    assert(line.subrange(7, 9) =~= ps);
    lemma_pair_field(line, 1, h, 1);
    lemma_pair_field(line, 4, m, 2);
    lemma_pair_field(line, 7, sec, 2);
    assert(pair_at(line, 4, 2) == Some((9int, m, sec)));
    assert(hours_at(line, 1) == Some((9int, ((h * 3600 + m * 60 + sec) * 1000) as nat)));
    assert(pair_at(line, 1, 1) == Some((6int, h, m)));
    assert(minutes_at(line, 1) == Some((6int, ((h * 60 + m) * 1000) as nat)));
    assert(fraction_at(line, 9) == Some((9int, 0nat)));
    assert(time_at(line, 1, true, true) == Some(
        (9int, ((h * 3600 + m * 60 + sec) * 1000) as nat),
    ));
    assert(form_at(line, StampForm::ClockRange, 0) is None);
    assert(form_at(line, StampForm::MinuteRange, 0) is None);
    assert(form_at(line, StampForm::BracketClock, 0) == Some(
        StampRead {
            end: 10,
            start_ms: Some(((h * 3600 + m * 60 + sec) * 1000) as nat),
            end_ms: None,
        },
    ));
}

/// The line of a segment in plain text with timestamps, without its line feed.
pub open spec fn entry_line(seg: SegmentView, markers: bool) -> Seq<char> {
    seq!['['] + txt_stamp(seg.start) + seq![']', ' '] + (if markers {
        marker(seg.filename)
    } else {
        Seq::empty()
    }) + seg.text
}

/// Whether a segment has the shape of a segment of one line: it starts
/// before the hundredth hour; its text is one line, not empty and trimmed;
/// its file name, where that is written, is one line; and where the file
/// name is not written, the text alone is not empty without its leading
/// colons and is no speaker's label.
pub open spec fn is_one_line(seg: SegmentView, markers: bool) -> bool {
    &&& seg.start < HOURS_LIMIT_MS
    &&& seg.text.len() > 0
    &&& !is_space(seg.text[0])
    &&& !is_space(seg.text.last())
    &&& none_from(seg.text, '\n', 0)
    &&& if markers {
        none_from(seg.filename, '\n', 0)
    } else {
        tidy(seg.text).len() > 0 && !is_label(tidy(seg.text))
    }
}

/// What a segment has to be like for its line to read back to it: it is
/// of one line, and the timestamp at the start of its line counts.
pub open spec fn reads_back(seg: SegmentView, markers: bool) -> bool {
    is_one_line(seg, markers) && start_counts(entry_line(seg, markers), seg.start >= 3_600_000)
}

/// Whether file name and text of a segment hold no opening bracket with a
/// digit behind it, in the text or at the start of the file name.
pub open spec fn brackets_are_text(seg: SegmentView, markers: bool) -> bool {
    &&& no_stamp_start(seg.text)
    &&& markers ==> no_stamp_start(seg.filename) && (seg.filename.len() > 0 ==> !is_digit(
        seg.filename[0],
    ))
}

/// The part of a line behind its timestamp and the space after it.
pub open spec fn entry_tail(seg: SegmentView, markers: bool) -> Seq<char> {
    (if markers {
        marker(seg.filename)
    } else {
        Seq::empty()
    }) + seg.text
}

/// How the part of a line behind its timestamp is made up, where the file name is written.
proof fn lemma_marked_tail(seg: SegmentView)
    ensures
        ({
            let tail = entry_tail(seg, true);
            let f = seg.filename.len() as int;
            &&& tail.len() == f + 3 + seg.text.len()
            &&& forall|k: int|
                0 <= k < tail.len() ==> (#[trigger] tail[k]) == (if k == 0 {
                    '['
                } else if k <= f {
                    seg.filename[k - 1]
                } else if k == f + 1 {
                    ']'
                } else if k == f + 2 {
                    ' '
                } else {
                    seg.text[k - f - 3]
                })
        }),
{
}

#[verifier::rlimit(40)]
proof fn lemma_tail(seg: SegmentView, markers: bool)
    requires
        is_one_line(seg, markers),
    ensures
        ({
            let tail = entry_tail(seg, markers);
            &&& tail.len() > 0
            &&& !is_space(tail[0])
            &&& !is_space(tail.last())
            &&& none_from(tail, '\n', 0)
            &&& tidy(tail).len() > 0
            &&& !is_label(tidy(tail))
        }),
{
    let tail = entry_tail(seg, markers);
    let text = seg.text;
    if markers {
        let name = seg.filename;
        let f = name.len() as int;
        lemma_marked_tail(seg);
        assert(tail[0] == '[');
        assert(tail.last() == text.last());
        assert forall|k: int| 0 <= k < tail.len() implies #[trigger] tail[k] != '\n' by {
            if 1 <= k <= f {
                assert(name[k - 1] != '\n');
            } else if k >= f + 3 {
                assert(text[k - f - 3] != '\n');
            }
        }
        assert(skip_colons(tail, 0) == 0);
        assert(tail.subrange(0, tail.len() as int) =~= tail);
        lemma_trim_fixed(tail);
        assert(tidy(tail) == tail);
        assert(tail[f + 2] == ' ');
        assert(tail[f + 3] == text[0]);
        lemma_two_words(tail, f + 3);
    } else {
        assert(tail =~= text);
    }
}

/// The timestamp that stands at the start of the line of a segment.
pub open spec fn entry_stamp(ms: nat) -> Seq<char> {
    if ms / 3_600_000 > 0 {
        clock_stamp(ms / 3_600_000, (ms / 60_000) % 60, (ms / 1000) % 60)
    } else {
        minute_stamp((ms / 60_000) % 60, (ms / 1000) % 60)
    }
}

#[verifier::rlimit(40)]
proof fn lemma_stamp_shape(ms: nat)
    requires
        ms < HOURS_LIMIT_MS,
    ensures
        entry_stamp(ms) == seq!['['] + txt_stamp(ms) + seq![']'],
        entry_stamp(ms).len() == if ms / 3_600_000 > 0 {
            10int
        } else {
            7int
        },
        entry_stamp(ms)[0] == '[',
        forall|k: int|
            1 <= k < entry_stamp(ms).len() ==> #[trigger] entry_stamp(ms)[k] != '[' && entry_stamp(
                ms,
            )[k] != '\n',
{
    let h = ms / 3_600_000;
    let m = (ms / 60_000) % 60;
    let sec = (ms / 1000) % 60;
    lemma_clock_parts(ms);
    lemma_two_digits(h);
    lemma_two_digits(m);
    lemma_two_digits(sec);
    reveal(txt_stamp);
    let stamp = entry_stamp(ms);
    assert(stamp =~= seq!['['] + txt_stamp(ms) + seq![']']);
    let ph = padded(h, 2);
    let pm = padded(m, 2);
    let ps = padded(sec, 2);
    assert forall|k: int| 1 <= k < stamp.len() implies #[trigger] stamp[k] != '[' && stamp[k]
        != '\n' by {
        if h > 0 {
            assert(stamp[1] == ph[0] && stamp[2] == ph[1] && stamp[4] == pm[0] && stamp[5] == pm[1]
                && stamp[7] == ps[0] && stamp[8] == ps[1]);
            assert(stamp[3] == ':' && stamp[6] == ':' && stamp[9] == ']');
        } else {
            assert(stamp[1] == pm[0] && stamp[2] == pm[1] && stamp[4] == ps[0] && stamp[5] == ps[1]);
            assert(stamp[3] == ':' && stamp[6] == ']');
        }
    }
}

/// How the line of a segment is made up.
#[verifier::rlimit(40)]
proof fn lemma_entry_shape(seg: SegmentView, markers: bool)
    requires
        is_one_line(seg, markers),
    ensures
        ({
            let line = entry_line(seg, markers);
            let stamp = entry_stamp(seg.start);
            let tail = entry_tail(seg, markers);
            &&& line == stamp + seq![' '] + tail
            &&& stands_at(line, 0, stamp)
            &&& stamp.len() < line.len()
            &&& line[stamp.len() as int] == ' '
            &&& forall|k: int|
                0 <= k < tail.len() ==> line[stamp.len() + 1 + k] == #[trigger] tail[k]
            &&& none_from(line, '\n', 0)
            &&& line.len() > 0
            &&& line[0] == '['
            &&& line.last() == tail.last()
            &&& without(line, 0, stamp.len() as int) == seq![' '] + tail
        }),
{
    let line = entry_line(seg, markers);
    let stamp = entry_stamp(seg.start);
    let tail = entry_tail(seg, markers);
    lemma_stamp_shape(seg.start);
    lemma_tail(seg, markers);
    let e = stamp.len() as int;
    assert(line =~= stamp + seq![' '] + tail);
    assert(line.subrange(0, e) =~= stamp);
    assert(forall|k: int| 0 <= k < e ==> line[k] == stamp[k]);
    assert(line[e] == ' ');
    assert(forall|k: int| 0 <= k < tail.len() ==> line[e + 1 + k] == tail[k]);
    assert forall|k: int| 0 <= k < line.len() implies #[trigger] line[k] != '\n' by {
        if 1 <= k < e {
            assert(stamp[k] != '\n');
        } else if k > e {
            assert(line[k] == tail[k - e - 1]);
        }
    }
    assert(without(line, 0, e) =~= seq![' '] + tail);
}

/// The line of a segment of one line reads back where its brackets are
/// text: the only timestamp that the line can then hold is the one at its start.
#[verifier::rlimit(40)]
pub proof fn lemma_brackets_as_text_read_back(seg: SegmentView, markers: bool)
    requires
        is_one_line(seg, markers),
        brackets_are_text(seg, markers),
    ensures
        reads_back(seg, markers),
{
    let line = entry_line(seg, markers);
    let stamp = entry_stamp(seg.start);
    let tail = entry_tail(seg, markers);
    let e = stamp.len() as int;
    lemma_stamp_shape(seg.start);
    lemma_entry_shape(seg, markers);
    assert forall|k: int| 0 <= k && k + 1 < tail.len() && #[trigger] tail[k]
        == '[' implies !is_digit(tail[k + 1]) by {
        if markers {
            let f = seg.filename.len() as int;
            lemma_marked_tail(seg);
            if k == 0 {
                if f > 0 {
                    assert(tail[1] == seg.filename[0]);
                } else {
                    assert(tail[1] == ']');
                }
            } else if k <= f {
                assert(seg.filename[k - 1] == '[');
                if k < f {
                    assert(tail[k + 1] == seg.filename[k]);
                } else {
                    assert(tail[k + 1] == ']');
                }
            } else if k >= f + 3 {
                assert(seg.text[k - f - 3] == '[');
                assert(tail[k + 1] == seg.text[k - f - 2]);
            }
        } else {
            assert(tail =~= seg.text);
        }
    }
    assert forall|k: int| 1 <= k && k + 1 < line.len() && #[trigger] line[k]
        == '[' implies !is_digit(line[k + 1]) by {
        if k < e {
            assert(line[k] == stamp[k]);
        } else if k > e {
            assert(line[k] == tail[k - e - 1]);
            assert(line[k + 1] == tail[k - e]);
        }
    }
    lemma_no_form_behind(line, StampForm::ClockRange, 1);
    lemma_no_form_behind(line, StampForm::MinuteRange, 1);
    lemma_no_form_behind(line, StampForm::BracketClock, 1);
}

/// A trimmed line with a timestamp at its start that gives a start, and
/// text behind it that is not empty and no label, has a segment at that start.
proof fn lemma_stamped_line(
    line: Seq<char>,
    end: int,
    t: nat,
    text: Seq<char>,
    cursor: nat,
    index: nat,
    filename: Seq<char>,
)
    requires
        line.len() > 0,
        trim(line) == line,
        find_stamp(line) == Some((0int, StampRead { end, start_ms: Some(t), end_ms: None })),
        tidy(trim(without(line, 0, end))) == text,
        text.len() > 0,
        !is_label(text),
    ensures
        read_line(line, cursor, index, filename).segment matches Some(sg) && sg.start == t,
{
}

/// The line of a segment reads back to a segment that starts at the whole
/// seconds of its start.
#[verifier::rlimit(40)]
proof fn lemma_entry_reads(
    seg: SegmentView,
    markers: bool,
    cursor: nat,
    index: nat,
    filename: Seq<char>,
)
    requires
        reads_back(seg, markers),
    ensures
        read_line(entry_line(seg, markers), cursor, index, filename).segment matches Some(sg)
            && sg.start == whole_seconds(seg.start),
{
    let ms = seg.start;
    let h = ms / 3_600_000;
    let m = (ms / 60_000) % 60;
    let sec = (ms / 1000) % 60;
    let line = entry_line(seg, markers);
    let tail = entry_tail(seg, markers);
    lemma_clock_parts(ms);
    lemma_stamp_shape(ms);
    lemma_entry_shape(seg, markers);
    lemma_tail(seg, markers);
    if h > 0 {
        lemma_clock_stamp_line(line, h, m, sec);
    } else {
        lemma_minute_stamp_line(line, m, sec);
    }
    lemma_trim_fixed(line);
    lemma_trim_after_space(tail);
    lemma_stamped_line(
        line,
        entry_stamp(ms).len() as int,
        whole_seconds(ms),
        tidy(tail),
        cursor,
        index,
        filename,
    );
}

/// The line of a segment of one line is one line, and its entry in the
/// text is that line and a line feed.
proof fn lemma_entry_is_one_line(seg: SegmentView, markers: bool)
    requires
        is_one_line(seg, markers),
    ensures
        none_from(entry_line(seg, markers), '\n', 0),
        entry_line(seg, markers).len() > 0,
        entry_line(seg, markers).last() != '\r',
        txt_entry(seg, true, markers) == entry_line(seg, markers).push('\n'),
{
    lemma_entry_shape(seg, markers);
    lemma_tail(seg, markers);
    assert(txt_entry(seg, true, markers) =~= entry_line(seg, markers).push('\n'));
}

/// A text of whole lines with one more line and a line feed behind it has
/// that line as its last line.
proof fn lemma_one_more_line(a: Seq<char>, l: Seq<char>)
    requires
        a.len() == 0 || a.last() == '\n',
        none_from(l, '\n', 0),
        l.len() == 0 || l.last() != '\r',
    ensures
        lines(a + l.push('\n')) == lines(a).push(l),
        (a + l.push('\n')).last() == '\n',
{
    lemma_one_line(l);
    lemma_lines_in_a_row(a, l.push('\n'), 0);
    assert(lines(a) + seq![l] =~= lines(a).push(l));
}

#[verifier::rlimit(40)]
proof fn lemma_text_lines(segs: Seq<SegmentView>, markers: bool, k: int)
    requires
        0 <= k <= segs.len(),
        forall|i: int| 0 <= i < segs.len() ==> reads_back(#[trigger] segs[i], markers),
    ensures
        lines(txt_text(segs, true, markers, k)) == Seq::new(
            k as nat,
            |i: int| entry_line(segs[i], markers),
        ),
        txt_text(segs, true, markers, k).len() == 0 || txt_text(segs, true, markers, k).last()
            == '\n',
        k > 0 ==> txt_text(segs, true, markers, k).len() > 0,
    decreases k,
{
    if k > 0 {
        lemma_text_lines(segs, markers, k - 1);
        let a = txt_text(segs, true, markers, k - 1);
        let l = entry_line(segs[k - 1], markers);
        assert(reads_back(segs[k - 1], markers));
        lemma_entry_is_one_line(segs[k - 1], markers);
        lemma_one_more_line(a, l);
        assert(txt_text(segs, true, markers, k) == a + l.push('\n'));
        assert(lines(a).push(l) =~= Seq::new(k as nat, |i: int| entry_line(segs[i], markers)));
    } else {
        assert(lines(txt_text(segs, true, markers, 0)) =~= Seq::new(
            0nat,
            |i: int| entry_line(segs[i], markers),
        ));
    }
}

proof fn lemma_fold_reads(segs: Seq<SegmentView>, markers: bool, filename: Seq<char>, k: int)
    requires
        0 <= k <= segs.len(),
        forall|i: int| 0 <= i < segs.len() ==> reads_back(#[trigger] segs[i], markers),
    ensures
        ({
            let ls = Seq::new(segs.len(), |i: int| entry_line(segs[i], markers));
            let back = txt_fold(ls, k, filename).segments;
            &&& back.len() == k
            &&& forall|i: int|
                0 <= i < k ==> (#[trigger] back[i]).start == whole_seconds(segs[i].start)
        }),
    decreases k,
{
    if k > 0 {
        lemma_fold_reads(segs, markers, filename, k - 1);
        let ls = Seq::new(segs.len(), |i: int| entry_line(segs[i], markers));
        let prev = txt_fold(ls, k - 1, filename);
        lemma_entry_reads(segs[k - 1], markers, prev.cursor, (k - 1) as nat, filename);
    }
}

/// Segments written as plain text with timestamps and read again as
/// plain text come back one for one, each at the whole seconds of its
/// start, as long as each of them `reads_back`.
pub proof fn law_plain_text_reads_back(segs: Seq<SegmentView>, markers: bool, filename: Seq<char>)
    requires
        forall|i: int| 0 <= i < segs.len() ==> reads_back(#[trigger] segs[i], markers),
    ensures
        ({
            let back = txt_segments(txt_text(segs, true, markers, segs.len() as int), filename);
            &&& back.len() == segs.len()
            &&& forall|i: int|
                0 <= i < segs.len() ==> (#[trigger] back[i]).start == whole_seconds(segs[i].start)
        }),
{
    let n = segs.len() as int;
    let content = txt_text(segs, true, markers, n);
    lemma_text_lines(segs, markers, n);
    lemma_fold_reads(segs, markers, filename, n);
    if n == 0 {
        assert(content =~= Seq::<char>::empty());
        assert(trim(content).len() == 0);
    }
}

} // verus!
