//! Subtitle blocks: an index line, a timecode line and text lines, with a
//! blank line between blocks.

use crate::model::{
    ends_in_time, in_file_order, segment_views, ErrorKind, SegmentView, TranscriptionSegment,
};
use crate::text::{
    all_digits, chars_of, digit_run, digit_run_end, digits_value, find_char, find_char_from,
    lemma_digit_run_bounds, lemma_digits_value_bound, lemma_trim_is_trimmed, lines, parse_number,
    pow10, split_lines, string_of, trim, trim_slice, views,
};
use vstd::prelude::*;
use vstd::slice::slice_subrange;

verus! {

/// The first `n` characters of `s` without each carriage return that
/// stands right before a line feed.
pub open spec fn crlf_dropped(s: Seq<char>, n: int) -> Seq<char>
    decreases n,
{
    if n <= 0 {
        Seq::empty()
    } else {
        let p = crlf_dropped(s, n - 1);
        if s[n - 1] == '\r' && n < s.len() && s[n] == '\n' {
            p
        } else {
            p.push(s[n - 1])
        }
    }
}

/// `s` with every carriage return and line feed in a row turned into a line feed.
pub open spec fn normalize(s: Seq<char>) -> Seq<char> {
    crlf_dropped(s, s.len() as int)
}

/// Whether a blank line starts at `i`: two line feeds in a row.
pub open spec fn blank_at(s: Seq<char>, i: int) -> bool {
    0 <= i && i + 1 < s.len() && s[i] == '\n' && s[i + 1] == '\n'
}

/// The first index at or after `i` where a blank line starts, or the length.
pub open spec fn find_blank(s: Seq<char>, i: int) -> int
    decreases s.len() - i,
{
    if 0 <= i < s.len() && !blank_at(s, i) {
        find_blank(s, i + 1)
    } else {
        i
    }
}

/// The blocks of `s` from index `i` on: what stands between blank lines.
pub open spec fn blocks_from(s: Seq<char>, i: int) -> Seq<Seq<char>>
    decreases s.len() - i,
{
    let e = find_blank(s, i);
    if 0 <= i <= e && e + 1 < s.len() {
        seq![s.subrange(i, e)] + blocks_from(s, e + 2)
    } else {
        seq![s.subrange(i, s.len() as int)]
    }
}

/// The blocks of `s`.
pub open spec fn blocks(s: Seq<char>) -> Seq<Seq<char>> {
    blocks_from(s, 0)
}

/// Whether ` --> ` stands at `i`.
pub open spec fn arrow_here(s: Seq<char>, i: int) -> bool {
    0 <= i && i + 5 <= s.len() && s[i] == ' ' && s[i + 1] == '-' && s[i + 2] == '-' && s[i + 3]
        == '>' && s[i + 4] == ' '
}

/// The first index at or after `i` where ` --> ` stands, or the length.
pub open spec fn find_arrow(s: Seq<char>, i: int) -> int
    decreases s.len() - i,
{
    if 0 <= i < s.len() && !arrow_here(s, i) {
        find_arrow(s, i + 1)
    } else {
        i
    }
}

/// Whether `s` is a numeral: one digit or more and nothing else.
pub open spec fn is_numeral(s: Seq<char>) -> bool {
    s.len() > 0 && all_digits(s)
}

/// The milliseconds that the digits after the decimal mark stand for:
/// the first three count, fewer are filled with zeros.
pub open spec fn millis_of(f: Seq<char>) -> nat {
    if f.len() >= 3 {
        digits_value(f.take(3))
    } else if f.len() == 2 {
        digits_value(f) * 10
    } else if f.len() == 1 {
        digits_value(f) * 100
    } else {
        0
    }
}

/// The seconds part of a timecode, in milliseconds: a numeral, or two
/// numerals with a comma or a dot between them.
pub open spec fn seconds_ms(s: Seq<char>) -> Option<nat> {
    let e = digit_run_end(s, 0);
    if e == s.len() {
        if is_numeral(s) {
            Some(digits_value(s) * 1000)
        } else {
            None
        }
    } else if 0 < e < s.len() && (s[e] == ',' || s[e] == '.') && is_numeral(
        s.subrange(e + 1, s.len() as int),
    ) {
        Some(digits_value(s.subrange(0, e)) * 1000 + millis_of(s.subrange(e + 1, s.len() as int)))
    } else {
        None
    }
}

/// The time that a subtitle timecode stands for, in milliseconds.
///
/// It is three parts with a colon between them: hours and minutes are
/// numerals, seconds a numeral with or without a fraction after a comma or a
/// dot. Anything else is malformed.
pub open spec fn timecode_ms(s: Seq<char>) -> Option<nat> {
    let c1 = find_char(s, ':', 0);
    let c2 = find_char(s, ':', c1 + 1);
    let c3 = find_char(s, ':', c2 + 1);
    if c1 < c2 < s.len() && c3 >= s.len() {
        let h = s.subrange(0, c1);
        let m = s.subrange(c1 + 1, c2);
        let sec = s.subrange(c2 + 1, s.len() as int);
        if is_numeral(h) && is_numeral(m) {
            match seconds_ms(sec) {
                Some(ms) => Some(digits_value(h) * 3_600_000 + digits_value(m) * 60_000 + ms),
                None => None,
            }
        } else {
            None
        }
    } else {
        None
    }
}

/// The time of a timecode where it is well-formed and fits in 64 bits.
pub open spec fn timecode(s: Seq<char>) -> Option<nat> {
    match timecode_ms(s) {
        Some(v) => if v <= u64::MAX {
            Some(v)
        } else {
            None
        },
        None => None,
    }
}

/// The lines `from..to` of `ls` with one space between them.
pub open spec fn join_lines(ls: Seq<Seq<char>>, from: int, to: int) -> Seq<char>
    decreases to - from,
{
    if to <= from {
        Seq::empty()
    } else if to == from + 1 {
        ls[from]
    } else {
        join_lines(ls, from, to - 1) + seq![' '] + ls[to - 1]
    }
}

/// What a block gives.
pub enum BlockRead {
    /// No segment: fewer than three lines, no arrow in the second, or no text.
    Skip,
    /// A timecode that is malformed.
    Bad,
    /// A segment.
    Segment(SegmentView),
}

/// Reads the block that is number `index` of its file.
pub open spec fn read_block(block: Seq<char>, index: nat, filename: Seq<char>) -> BlockRead {
    let ls = lines(trim(block));
    if ls.len() < 3 {
        BlockRead::Skip
    } else {
        let a = find_arrow(ls[1], 0);
        if a >= ls[1].len() {
            BlockRead::Skip
        } else {
            let text = trim(join_lines(ls, 2, ls.len() as int));
            match (timecode(ls[1].subrange(0, a)), timecode(ls[1].subrange(a + 5, ls[1].len() as int))) {
                (Some(start), Some(end)) => if text.len() == 0 {
                    BlockRead::Skip
                } else {
                    BlockRead::Segment(
                        SegmentView { start, end: Some(end), text, file_index: index, filename },
                    )
                },
                _ => BlockRead::Bad,
            }
        }
    }
}

/// The segments of the first `k` blocks, or none where one of them is bad.
pub open spec fn srt_fold(
    bs: Seq<Seq<char>>,
    k: int,
    filename: Seq<char>,
) -> Option<Seq<SegmentView>>
    decreases k,
{
    if k <= 0 {
        Some(Seq::empty())
    } else {
        match srt_fold(bs, k - 1, filename) {
            Some(p) => match read_block(bs[k - 1], (k - 1) as nat, filename) {
                BlockRead::Skip => Some(p),
                BlockRead::Bad => None,
                BlockRead::Segment(s) => Some(p.push(s)),
            },
            None => None,
        }
    }
}

/// The segments of a subtitle transcript, or none where a timecode is malformed.
pub open spec fn srt_segments(content: Seq<char>, filename: Seq<char>) -> Option<Seq<SegmentView>> {
    let bs = blocks(normalize(content));
    srt_fold(bs, bs.len() as int, filename)
}

/// Once a block is bad, the file stays bad whatever comes after it.
pub proof fn lemma_srt_fold_stays_bad(bs: Seq<Seq<char>>, k: int, n: int, filename: Seq<char>)
    requires
        0 <= k <= n,
        srt_fold(bs, k, filename) is None,
    ensures
        srt_fold(bs, n, filename) is None,
    decreases n - k,
{
    if k < n {
        lemma_srt_fold_stays_bad(bs, k, n - 1, filename);
    }
}

/// Turns each carriage return and line feed in a row into a line feed.
pub fn normalize_line_ends(s: &[char]) -> (r: Vec<char>)
    ensures
        r@ == normalize(s@),
{
    let n: usize = s.len();
    let mut out: Vec<char> = Vec::new();
    let mut i: usize = 0;
    while i < n
        invariant
            n == s@.len(),
            0 <= i <= n,
            out@ == crlf_dropped(s@, i as int),
        decreases n - i,
    {
        if !(s[i] == '\r' && i + 1 < n && s[i + 1] == '\n') {
            out.push(s[i]);
        }
        i = i + 1;
    }
    out
}

/// Splits a slice of characters at its blank lines.
pub fn split_blocks<'a>(s: &'a [char]) -> (r: Vec<&'a [char]>)
    ensures
        views(r@) == blocks(s@),
{
    let n: usize = s.len();
    let mut out: Vec<&'a [char]> = Vec::new();
    let mut i: usize = 0;
    assert(views(out@) + blocks_from(s@, 0) =~= blocks(s@));
    loop
        invariant_except_break
            n == s@.len(),
            0 <= i <= n,
            views(out@) + blocks_from(s@, i as int) == blocks(s@),
        ensures
            views(out@) == blocks(s@),
        decreases n - i,
    {
        let mut e: usize = i;
        while e < n && !(e + 1 < n && s[e] == '\n' && s[e + 1] == '\n')
            invariant
                n == s@.len(),
                i <= e <= n,
                find_blank(s@, e as int) == find_blank(s@, i as int),
            decreases n - e,
        {
            e = e + 1;
        }
        let ghost before = views(out@);
        if e < n {
            let block: &'a [char] = slice_subrange(s, i, e);
            out.push(block);
            proof {
                assert(views(out@) =~= before + seq![block@]);
                assert(before + seq![block@] + blocks_from(s@, e + 2) =~= before + (seq![block@]
                    + blocks_from(s@, e + 2)));
            }
            i = e + 2;
        } else {
            let block: &'a [char] = slice_subrange(s, i, n);
            out.push(block);
            proof {
                assert(views(out@) =~= before + seq![block@]);
            }
            break;
        }
    }
    out
}

/// Tells whether `s` is a numeral.
pub fn numeral(s: &[char]) -> (b: bool)
    ensures
        b == is_numeral(s@),
{
    let e: usize = digit_run(s, 0);
    proof {
        lemma_digit_run_bounds(s@, 0);
    }
    s.len() > 0 && e == s.len()
}

fn read_millis(f: &[char]) -> (r: u64)
    requires
        is_numeral(f@),
    ensures
        r == millis_of(f@),
        r <= 999,
{
    let n: usize = f.len();
    proof {
        reveal_with_fuel(pow10, 4);
    }
    if n >= 3 {
        let head: &[char] = slice_subrange(f, 0, 3);
        proof {
            assert(head@ =~= f@.take(3));
            lemma_digits_value_bound(head@);
        }
        match parse_number(head) {
            Some(v) => v,
            None => 0,
        }
    } else {
        proof {
            lemma_digits_value_bound(f@);
        }
        let v: u64 = match parse_number(f) {
            Some(v) => v,
            None => 0,
        };
        if n == 2 {
            v * 10
        } else {
            v * 100
        }
    }
}

/// Reads the seconds of a timecode. `None` where they are malformed or do not fit.
pub fn read_seconds_ms(s: &[char]) -> (r: Option<u64>)
    ensures
        match r {
            Some(v) => seconds_ms(s@) == Some(v as nat),
            None => match seconds_ms(s@) {
                Some(v) => v > u64::MAX,
                None => true,
            },
        },
{
    let n: usize = s.len();
    let e: usize = digit_run(s, 0);
    proof {
        lemma_digit_run_bounds(s@, 0);
    }
    if e == n {
        if n == 0 {
            return None;
        }
        match parse_number(s) {
            Some(v) => v.checked_mul(1000),
            None => None,
        }
    } else if e > 0 && (s[e] == ',' || s[e] == '.') {
        let frac: &[char] = slice_subrange(s, e + 1, n);
        if !numeral(frac) {
            return None;
        }
        let whole: &[char] = slice_subrange(s, 0, e);
        let f: u64 = read_millis(frac);
        match parse_number(whole) {
            Some(v) => match v.checked_mul(1000) {
                Some(w) => w.checked_add(f),
                None => None,
            },
            None => None,
        }
    } else {
        None
    }
}

/// Reads a subtitle timecode. `None` where it is malformed or does not fit.
pub fn parse_srt_timestamp(s: &[char]) -> (r: Option<u64>)
    ensures
        match r {
            Some(v) => timecode(s@) == Some(v as nat),
            None => timecode(s@) is None,
        },
{
    let n: usize = s.len();
    let c1: usize = find_char_from(s, ':', 0);
    if c1 >= n {
        return None;
    }
    let c2: usize = find_char_from(s, ':', c1 + 1);
    if c2 >= n {
        return None;
    }
    let c3: usize = find_char_from(s, ':', c2 + 1);
    if c3 < n {
        return None;
    }
    let h: &[char] = slice_subrange(s, 0, c1);
    let m: &[char] = slice_subrange(s, c1 + 1, c2);
    let sec: &[char] = slice_subrange(s, c2 + 1, n);
    if !numeral(h) || !numeral(m) {
        return None;
    }
    let ms: u64 = match read_seconds_ms(sec) {
        Some(v) => v,
        None => {
            return None;
        },
    };
    let hours: u64 = match parse_number(h) {
        Some(v) => match v.checked_mul(3_600_000) {
            Some(w) => w,
            None => {
                return None;
            },
        },
        None => {
            return None;
        },
    };
    let minutes: u64 = match parse_number(m) {
        Some(v) => match v.checked_mul(60_000) {
            Some(w) => w,
            None => {
                return None;
            },
        },
        None => {
            return None;
        },
    };
    match hours.checked_add(minutes) {
        Some(hm) => hm.checked_add(ms),
        None => None,
    }
}

fn join_text(ls: &Vec<&[char]>, from: usize) -> (r: Vec<char>)
    requires
        from <= ls@.len(),
    ensures
        r@ == join_lines(views(ls@), from as int, ls@.len() as int),
{
    let n: usize = ls.len();
    let mut out: Vec<char> = Vec::new();
    let mut k: usize = from;
    assert(out@ =~= join_lines(views(ls@), from as int, from as int));
    while k < n
        invariant
            n == ls@.len(),
            from <= k <= n,
            out@ == join_lines(views(ls@), from as int, k as int),
        decreases n - k,
    {
        if k > from {
            out.push(' ');
        }
        let line: &[char] = ls[k];
        let m: usize = line.len();
        let ghost base = out@;
        let mut j: usize = 0;
        while j < m
            invariant
                m == line@.len(),
                0 <= j <= m,
                out@ == base + line@.take(j as int),
            decreases m - j,
        {
            out.push(line[j]);
            proof {
                assert(line@.take(j + 1) =~= line@.take(j as int).push(line@[j as int]));
            }
            j = j + 1;
        }
        proof {
            assert(line@.take(m as int) =~= line@);
            assert(views(ls@)[k as int] == line@);
            if k > from {
                assert(out@ =~= join_lines(views(ls@), from as int, k as int) + seq![' '] + line@);
            } else {
                assert(out@ =~= line@);
            }
        }
        k = k + 1;
    }
    out
}

/// What reading a block gave.
pub enum BlockOutcome {
    Skip,
    Bad,
    Segment(TranscriptionSegment),
}

impl View for BlockOutcome {
    type V = BlockRead;

    open spec fn view(&self) -> BlockRead {
        match self {
            BlockOutcome::Skip => BlockRead::Skip,
            BlockOutcome::Bad => BlockRead::Bad,
            BlockOutcome::Segment(s) => BlockRead::Segment(s@),
        }
    }
}

fn find_arrow_from(s: &[char]) -> (r: usize)
    ensures
        r == find_arrow(s@, 0),
        r <= s@.len(),
        r < s@.len() ==> r + 5 <= s@.len(),
{
    let n: usize = s.len();
    let mut i: usize = 0;
    while i < n && !(n - i >= 5 && s[i] == ' ' && s[i + 1] == '-' && s[i + 2] == '-' && s[i + 3]
        == '>' && s[i + 4] == ' ')
        invariant
            n == s@.len(),
            0 <= i <= n,
            find_arrow(s@, i as int) == find_arrow(s@, 0),
        decreases n - i,
    {
        i = i + 1;
    }
    i
}

/// Reads the block that is number `index` of its file.
pub fn read_srt_block(block: &[char], index: usize, filename: &str) -> (r: BlockOutcome)
    ensures
        r@ == read_block(block@, index as nat, filename@),
{
    let ls: Vec<&[char]> = split_lines(trim_slice(block));
    if ls.len() < 3 {
        return BlockOutcome::Skip;
    }
    let stamp: &[char] = ls[1];
    assert(stamp@ == views(ls@)[1]);
    let a: usize = find_arrow_from(stamp);
    if a >= stamp.len() {
        return BlockOutcome::Skip;
    }
    let joined: Vec<char> = join_text(&ls, 2);
    let text: &[char] = trim_slice(joined.as_slice());
    let start: Option<u64> = parse_srt_timestamp(slice_subrange(stamp, 0, a));
    let end: Option<u64> = parse_srt_timestamp(slice_subrange(stamp, a + 5, stamp.len()));
    match (start, end) {
        (Some(t1), Some(t2)) => {
            if text.len() == 0 {
                BlockOutcome::Skip
            } else {
                BlockOutcome::Segment(
                    TranscriptionSegment {
                        start_ms: t1,
                        end_ms: Some(t2),
                        text: string_of(text),
                        file_index: index,
                        original_filename: filename.to_owned(),
                    },
                )
            }
        },
        _ => BlockOutcome::Bad,
    }
}

/// Parses a subtitle transcript.
///
/// Gives the segments of `srt_segments`, or `MalformedTimestamp` where a
/// timecode is malformed. Timecodes are taken as they are written: where
/// the second of a block lies before the first, the segment ends before it
/// starts.
pub fn parse_srt(content: &str, filename: &str) -> (r: Result<Vec<TranscriptionSegment>, ErrorKind>)
    ensures
        match r {
            Ok(v) => srt_segments(content@, filename@) == Some(segment_views(v@)),
            Err(e) => e == ErrorKind::MalformedTimestamp && srt_segments(content@, filename@)
                is None,
        },
{
    let chars: Vec<char> = chars_of(content);
    let plain: Vec<char> = normalize_line_ends(chars.as_slice());
    let bs: Vec<&[char]> = split_blocks(plain.as_slice());
    let n: usize = bs.len();
    let mut segments: Vec<TranscriptionSegment> = Vec::new();
    let mut k: usize = 0;
    assert(segment_views(segments@) =~= Seq::<SegmentView>::empty());
    while k < n
        invariant
            n == bs@.len(),
            0 <= k <= n,
            views(bs@) == blocks(normalize(content@)),
            srt_fold(views(bs@), k as int, filename@) == Some(segment_views(segments@)),
        decreases n - k,
    {
        let ghost before = segment_views(segments@);
        match read_srt_block(bs[k], k, filename) {
            BlockOutcome::Skip => {},
            BlockOutcome::Bad => {
                proof {
                    lemma_srt_fold_stays_bad(views(bs@), k + 1, n as int, filename@);
                }
                return Err(ErrorKind::MalformedTimestamp);
            },
            BlockOutcome::Segment(s) => {
                segments.push(s);
                proof {
                    assert(segment_views(segments@) =~= before.push(s@));
                }
            },
        }
        k = k + 1;
    }
    Ok(segments)
}

/// The first `n` characters of `s` with a carriage return put before each line feed.
pub open spec fn with_crlf(s: Seq<char>, n: int) -> Seq<char>
    decreases n,
{
    if n <= 0 {
        Seq::empty()
    } else if s[n - 1] == '\n' {
        with_crlf(s, n - 1).push('\r').push('\n')
    } else {
        with_crlf(s, n - 1).push(s[n - 1])
    }
}

/// Whether `s` holds no carriage return.
pub open spec fn no_carriage_return(s: Seq<char>) -> bool {
    forall|i: int| 0 <= i < s.len() ==> #[trigger] s[i] != '\r'
}

proof fn lemma_dropped_is_local(a: Seq<char>, b: Seq<char>, n: int)
    requires
        0 <= n <= a.len(),
        n <= b.len(),
        forall|i: int| 0 <= i < n ==> a[i] == b[i],
        n > 0 && a[n - 1] == '\r' ==> ((n < a.len() && a[n] == '\n') <==> (n < b.len() && b[n]
            == '\n')),
    ensures
        crlf_dropped(a, n) == crlf_dropped(b, n),
    decreases n,
{
    if n > 0 {
        lemma_dropped_is_local(a, b, n - 1);
    }
}

proof fn lemma_plain_stays(s: Seq<char>, n: int)
    requires
        0 <= n <= s.len(),
        no_carriage_return(s),
    ensures
        crlf_dropped(s, n) == s.take(n),
    decreases n,
{
    if n > 0 {
        lemma_plain_stays(s, n - 1);
        assert(s.take(n) =~= s.take(n - 1).push(s[n - 1]));
    } else {
        assert(s.take(0) =~= Seq::<char>::empty());
    }
}

proof fn lemma_crlf_comes_back(s: Seq<char>, n: int)
    requires
        0 <= n <= s.len(),
        no_carriage_return(s),
    ensures
        normalize(with_crlf(s, n)) == s.take(n),
        with_crlf(s, n).len() > 0 ==> with_crlf(s, n).last() != '\r',
    decreases n,
{
    if n > 0 {
        lemma_crlf_comes_back(s, n - 1);
        let u = with_crlf(s, n - 1);
        let w = with_crlf(s, n);
        let m = u.len() as int;
        assert(s.take(n) =~= s.take(n - 1).push(s[n - 1]));
        if s[n - 1] == '\n' {
            assert(w.len() == m + 2 && w[m] == '\r' && w[m + 1] == '\n');
            lemma_dropped_is_local(w, u, m);
            assert(crlf_dropped(w, m + 1) == crlf_dropped(w, m));
            assert(crlf_dropped(w, m + 2) == crlf_dropped(w, m + 1).push('\n'));
        } else {
            assert(w.len() == m + 1 && w[m] == s[n - 1]);
            lemma_dropped_is_local(w, u, m);
            assert(crlf_dropped(w, m + 1) == crlf_dropped(w, m).push(s[n - 1]));
        }
    } else {
        assert(s.take(0) =~= Seq::<char>::empty());
    }
}

/// A subtitle transcript reads the same whether its lines end in a line
/// feed or in a carriage return and a line feed.
pub proof fn law_line_ends_do_not_matter(content: Seq<char>, filename: Seq<char>)
    requires
        no_carriage_return(content),
    ensures
        srt_segments(with_crlf(content, content.len() as int), filename) == srt_segments(
            content,
            filename,
        ),
{
    lemma_crlf_comes_back(content, content.len() as int);
    lemma_plain_stays(content, content.len() as int);
    assert(content.take(content.len() as int) =~= content);
}

proof fn lemma_srt_fold_in_order(bs: Seq<Seq<char>>, k: int, filename: Seq<char>)
    requires
        0 <= k,
    ensures
        srt_fold(bs, k, filename) matches Some(segs) ==> in_file_order(segs, filename) && forall|
            i: int,
        |
            0 <= i < segs.len() ==> (#[trigger] segs[i]).file_index < k,
    decreases k,
{
    if k > 0 {
        lemma_srt_fold_in_order(bs, k - 1, filename);
        let ls = lines(trim(bs[k - 1]));
        lemma_trim_is_trimmed(join_lines(ls, 2, ls.len() as int));
    }
}

/// The segments of a subtitle transcript have text that is not empty and
/// trimmed, bear the name of the file, and stand in the order of their blocks.
pub proof fn law_srt_segments_in_file_order(content: Seq<char>, filename: Seq<char>)
    ensures
        srt_segments(content, filename) matches Some(segs) ==> in_file_order(segs, filename),
{
    let bs = blocks(normalize(content));
    lemma_srt_fold_in_order(bs, bs.len() as int, filename);
}

/// Whether the timecodes of a block are written with the end before the start.
pub open spec fn is_reversed_block(block: Seq<char>) -> bool {
    let ls = lines(trim(block));
    let a = if ls.len() >= 3 {
        find_arrow(ls[1], 0)
    } else {
        0
    };
    ls.len() >= 3 && a < ls[1].len() && match (
        timecode(ls[1].subrange(0, a)),
        timecode(ls[1].subrange(a + 5, ls[1].len() as int)),
    ) {
        (Some(start), Some(end)) => end < start,
        _ => false,
    }
}

/// Whether no block of `bs` is written with its end before its start.
pub open spec fn no_block_reversed(bs: Seq<Seq<char>>) -> bool {
    forall|k: int| 0 <= k < bs.len() ==> !is_reversed_block(#[trigger] bs[k])
}

proof fn lemma_srt_fold_ends_in_time(bs: Seq<Seq<char>>, k: int, filename: Seq<char>)
    requires
        0 <= k <= bs.len(),
        no_block_reversed(bs),
    ensures
        srt_fold(bs, k, filename) matches Some(segs) ==> forall|i: int|
            0 <= i < segs.len() ==> ends_in_time(#[trigger] segs[i]),
    decreases k,
{
    if k > 0 {
        lemma_srt_fold_ends_in_time(bs, k - 1, filename);
        assert(!is_reversed_block(bs[k - 1]));
    }
}

/// No segment of a subtitle transcript ends before it starts, as long as no
/// block is written with its end before its start.
pub proof fn law_srt_segments_end_in_time(content: Seq<char>, filename: Seq<char>)
    requires
        no_block_reversed(blocks(normalize(content))),
    ensures
        srt_segments(content, filename) matches Some(segs) ==> forall|i: int|
            0 <= i < segs.len() ==> ends_in_time(#[trigger] segs[i]),
{
    let bs = blocks(normalize(content));
    lemma_srt_fold_ends_in_time(bs, bs.len() as int, filename);
}

} // verus!
