//! Markdown: every line that is neither blank nor a heading is a segment,
//! timed one after the other at reading speed.

use crate::model::{
    in_file_order, lemma_views_fit, segment_views, times_fit, ErrorKind, SegmentView,
    TranscriptionSegment,
};
use crate::plain::{estimate, estimate_ms};
use crate::text::{
    chars_of, count_words, lemma_trim_is_trimmed, lines, split_lines, string_of, trim, trim_slice,
    views, word_count,
};
use vstd::prelude::*;

verus! {

/// Whether a raw line gives a segment: its trimmed text is neither empty nor a heading.
pub open spec fn md_counts(raw: Seq<char>) -> bool {
    trim(raw).len() > 0 && trim(raw)[0] != '#'
}

/// The running time and the segments after the first `k` lines.
pub struct MdState {
    pub cursor: nat,
    pub segments: Seq<SegmentView>,
}

/// Reads the first `k` lines in turn, from running time zero.
pub open spec fn md_fold(ls: Seq<Seq<char>>, k: int, filename: Seq<char>) -> MdState
    decreases k,
{
    if k <= 0 {
        MdState { cursor: 0, segments: Seq::empty() }
    } else {
        let prev = md_fold(ls, k - 1, filename);
        if md_counts(ls[k - 1]) {
            let text = trim(ls[k - 1]);
            let end = prev.cursor + estimate_ms(count_words(text));
            MdState {
                cursor: end,
                segments: prev.segments.push(
                    SegmentView {
                        start: prev.cursor,
                        end: Some(end),
                        text,
                        file_index: (k - 1) as nat,
                        filename,
                    },
                ),
            }
        } else {
            prev
        }
    }
}

/// The segments of a Markdown transcript.
pub open spec fn md_segments(content: Seq<char>, filename: Seq<char>) -> Seq<SegmentView> {
    let ls = lines(content);
    md_fold(ls, ls.len() as int, filename).segments
}

/// The segments of the first `k` lines are the first of those of the first `n`.
pub proof fn lemma_md_fold_grows(ls: Seq<Seq<char>>, k: int, n: int, filename: Seq<char>)
    requires
        0 <= k <= n,
    ensures
        md_fold(ls, k, filename).segments.len() <= md_fold(ls, n, filename).segments.len(),
        md_fold(ls, k, filename).segments =~= md_fold(ls, n, filename).segments.take(
            md_fold(ls, k, filename).segments.len() as int,
        ),
    decreases n - k,
{
    if k < n {
        lemma_md_fold_grows(ls, k, n - 1, filename);
    }
}

/// Parses a Markdown transcript.
///
/// Gives the segments of `md_segments`, or `TimeOverflow` when one of their
/// times does not fit in 64 bits.
pub fn parse_markdown(
    content: &str,
    filename: &str,
) -> (r: Result<Vec<TranscriptionSegment>, ErrorKind>)
    ensures
        r is Ok <==> times_fit(md_segments(content@, filename@)),
        match r {
            Ok(v) => segment_views(v@) == md_segments(content@, filename@),
            Err(e) => e == ErrorKind::TimeOverflow && !times_fit(md_segments(content@, filename@)),
        },
{
    let chars: Vec<char> = chars_of(content);
    let ls: Vec<&[char]> = split_lines(chars.as_slice());
    let n: usize = ls.len();
    let mut segments: Vec<TranscriptionSegment> = Vec::new();
    let mut cursor: u64 = 0;
    let mut k: usize = 0;
    assert(segment_views(segments@) =~= md_fold(views(ls@), 0, filename@).segments);
    while k < n
        invariant
            n == ls@.len(),
            0 <= k <= n,
            views(ls@) == lines(content@),
            cursor == md_fold(views(ls@), k as int, filename@).cursor,
            segment_views(segments@) == md_fold(views(ls@), k as int, filename@).segments,
        decreases n - k,
    {
        let ghost before = segment_views(segments@);
        let line: &[char] = trim_slice(ls[k]);
        if line.len() > 0 && line[0] != '#' {
            let end: Option<u64> = match estimate(word_count(line)) {
                Some(v) => cursor.checked_add(v),
                None => None,
            };
            match end {
                Some(e) => {
                    let s = TranscriptionSegment {
                        start_ms: cursor,
                        end_ms: Some(e),
                        text: string_of(line),
                        file_index: k,
                        original_filename: filename.to_owned(),
                    };
                    segments.push(s);
                    proof {
                        assert(segment_views(segments@) =~= before.push(s@));
                    }
                    cursor = e;
                },
                None => {
                    proof {
                        let all = views(ls@);
                        lemma_md_fold_grows(all, k + 1, n as int, filename@);
                        let part = md_fold(all, k + 1, filename@).segments;
                        let whole = md_fold(all, n as int, filename@).segments;
                        assert(part.len() == before.len() + 1);
                        assert(whole[before.len() as int] == part[before.len() as int]);
                    }
                    return Err(ErrorKind::TimeOverflow);
                },
            }
        }
        k = k + 1;
    }
    proof {
        lemma_views_fit(segments@);
    }
    Ok(segments)
}

/// Whether a segment has an end and ends after it starts.
pub open spec fn ends_after_start(s: SegmentView) -> bool {
    s.end matches Some(e) && s.start < e
}

proof fn lemma_md_fold_in_order(ls: Seq<Seq<char>>, k: int, filename: Seq<char>)
    requires
        0 <= k,
    ensures
        in_file_order(md_fold(ls, k, filename).segments, filename),
        forall|i: int|
            0 <= i < md_fold(ls, k, filename).segments.len() ==> (#[trigger] md_fold(
                ls,
                k,
                filename,
            ).segments[i]).file_index < k,
        forall|i: int|
            0 <= i < md_fold(ls, k, filename).segments.len() ==> ends_after_start(
                #[trigger] md_fold(ls, k, filename).segments[i],
            ),
    decreases k,
{
    if k > 0 {
        lemma_md_fold_in_order(ls, k - 1, filename);
        lemma_trim_is_trimmed(ls[k - 1]);
    }
}

/// The segments of a Markdown transcript have text that is not empty and
/// trimmed, bear the name of the file, stand in the order of their lines,
/// and each ends after it starts.
pub proof fn law_md_segments_in_file_order(content: Seq<char>, filename: Seq<char>)
    ensures
        in_file_order(md_segments(content, filename), filename),
        forall|i: int|
            0 <= i < md_segments(content, filename).len() ==> ends_after_start(
                #[trigger] md_segments(content, filename)[i],
            ),
{
    let ls = lines(content);
    lemma_md_fold_in_order(ls, ls.len() as int, filename);
}

} // verus!
