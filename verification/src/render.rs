//! Writing a merged transcript: subtitle blocks, plain text or Markdown.

use crate::model::{segment_views, FileFormat, MergeOptions, SegmentView, TranscriptionSegment};
use crate::text::{chars_of, decimal, padded, push_decimal, push_padded, string_of};
use vstd::prelude::*;

verus! {

/// Milliseconds that a subtitle without an end stays.
pub const DEFAULT_SHOWN_MS: u64 = 5000;

/// `HH:MM:SS,mmm`
#[verifier::opaque]
pub open spec fn srt_stamp(ms: nat) -> Seq<char> {
    padded(ms / 3_600_000, 2) + seq![':'] + padded((ms / 60_000) % 60, 2) + seq![':'] + padded(
        (ms / 1000) % 60,
        2,
    ) + seq![','] + padded(ms % 1000, 3)
}

/// `MM:SS`, or `HH:MM:SS` from one hour on.
#[verifier::opaque]
pub open spec fn txt_stamp(ms: nat) -> Seq<char> {
    let rest = padded((ms / 60_000) % 60, 2) + seq![':'] + padded((ms / 1000) % 60, 2);
    if ms / 3_600_000 > 0 {
        padded(ms / 3_600_000, 2) + seq![':'] + rest
    } else {
        rest
    }
}

/// `[name] `
pub open spec fn marker(filename: Seq<char>) -> Seq<char> {
    seq!['['] + filename + seq![']', ' ']
}

/// When the subtitle of `seg` ends.
pub open spec fn shown_until(seg: SegmentView) -> nat {
    match seg.end {
        Some(e) => e,
        None => (seg.start + DEFAULT_SHOWN_MS) as nat,
    }
}

/// The subtitle block of `seg`, numbered `number`.
pub open spec fn srt_entry(seg: SegmentView, number: nat, markers: bool) -> Seq<char> {
    decimal(number) + seq!['\n'] + srt_stamp(seg.start) + seq![' ', '-', '-', '>', ' ']
        + srt_stamp(shown_until(seg)) + seq!['\n'] + (if markers {
        marker(seg.filename)
    } else {
        Seq::empty()
    }) + seg.text + seq!['\n', '\n']
}

/// The subtitle blocks of the first `k` segments, numbered from one.
pub open spec fn srt_text(segs: Seq<SegmentView>, markers: bool, k: int) -> Seq<char>
    decreases k,
{
    if k <= 0 {
        Seq::empty()
    } else {
        srt_text(segs, markers, k - 1) + srt_entry(segs[k - 1], k as nat, markers)
    }
}

/// The plain-text line of `seg`.
pub open spec fn txt_entry(seg: SegmentView, stamps: bool, markers: bool) -> Seq<char> {
    (if stamps {
        seq!['['] + txt_stamp(seg.start) + seq![']', ' ']
    } else {
        Seq::empty()
    }) + (if markers {
        marker(seg.filename)
    } else {
        Seq::empty()
    }) + seg.text + seq!['\n']
}

/// The plain-text lines of the first `k` segments.
pub open spec fn txt_text(segs: Seq<SegmentView>, stamps: bool, markers: bool, k: int) -> Seq<char>
    decreases k,
{
    if k <= 0 {
        Seq::empty()
    } else {
        txt_text(segs, stamps, markers, k - 1) + txt_entry(segs[k - 1], stamps, markers)
    }
}

/// The file name of the segment before number `k`; the empty name before the first.
pub open spec fn name_before(segs: Seq<SegmentView>, k: int) -> Seq<char> {
    if 0 < k <= segs.len() {
        segs[k - 1].filename
    } else {
        Seq::empty()
    }
}

/// The Markdown paragraph of `seg`, with a heading where the file name changes.
pub open spec fn md_entry(
    seg: SegmentView,
    before: Seq<char>,
    stamps: bool,
    markers: bool,
) -> Seq<char> {
    (if markers && seg.filename != before {
        seq!['#', '#', ' '] + seg.filename + seq!['\n', '\n']
    } else {
        Seq::empty()
    }) + (if stamps {
        seq!['*', '*', '['] + txt_stamp(seg.start) + seq![']', '*', '*', ' ']
    } else {
        Seq::empty()
    }) + seg.text + seq!['\n', '\n']
}

/// The Markdown paragraphs of the first `k` segments.
pub open spec fn md_body(segs: Seq<SegmentView>, stamps: bool, markers: bool, k: int) -> Seq<char>
    decreases k,
{
    if k <= 0 {
        Seq::empty()
    } else {
        md_body(segs, stamps, markers, k - 1) + md_entry(
            segs[k - 1],
            name_before(segs, k - 1),
            stamps,
            markers,
        )
    }
}

/// The title and the line that says when the text was made.
pub open spec fn md_head(made: Seq<char>) -> Seq<char> {
    "# Merged Transcription\n\n"@ + "*Generated on: "@ + made + "*\n\n"@
}

/// The Markdown text of `segs`.
pub open spec fn md_text(
    segs: Seq<SegmentView>,
    stamps: bool,
    markers: bool,
    made: Seq<char>,
) -> Seq<char> {
    md_head(made) + md_body(segs, stamps, markers, segs.len() as int)
}

/// The text of `segs` in the format that `options` names.
pub open spec fn rendered(
    segs: Seq<SegmentView>,
    options: MergeOptions,
    made: Seq<char>,
) -> Seq<char> {
    match options.output_format {
        FileFormat::Srt => srt_text(segs, options.add_file_markers, segs.len() as int),
        FileFormat::Txt => txt_text(
            segs,
            !options.remove_timestamps,
            options.add_file_markers,
            segs.len() as int,
        ),
        FileFormat::Markdown => md_text(
            segs,
            !options.remove_timestamps,
            options.add_file_markers,
            made,
        ),
    }
}

/// Appends the characters of `s`.
pub fn push_chars(out: &mut Vec<char>, s: &[char])
    ensures
        final(out)@ == old(out)@ + s@,
{
    let n: usize = s.len();
    let mut i: usize = 0;
    assert(out@ =~= old(out)@ + s@.take(0));
    while i < n
        invariant
            n == s@.len(),
            0 <= i <= n,
            out@ == old(out)@ + s@.take(i as int),
        decreases n - i,
    {
        out.push(s[i]);
        proof {
            assert(s@.take(i + 1) =~= s@.take(i as int).push(s@[i as int]));
            assert((old(out)@ + s@.take(i as int)).push(s@[i as int]) =~= old(out)@ + s@.take(
                i + 1,
            ));
        }
        i = i + 1;
    }
    proof {
        assert(s@.take(n as int) =~= s@);
    }
}

/// Appends the characters of the string `s`.
pub fn push_str(out: &mut Vec<char>, s: &str)
    ensures
        final(out)@ == old(out)@ + s@,
{
    let chars: Vec<char> = chars_of(s);
    push_chars(out, chars.as_slice());
}

fn push_srt_stamp(out: &mut Vec<char>, ms: u128)
    ensures
        final(out)@ == old(out)@ + srt_stamp(ms as nat),
{
    push_padded(out, ms / 3_600_000, 2);
    out.push(':');
    push_padded(out, (ms / 60_000) % 60, 2);
    out.push(':');
    push_padded(out, (ms / 1000) % 60, 2);
    out.push(',');
    push_padded(out, ms % 1000, 3);
    proof {
        reveal(srt_stamp);
        assert(out@ =~= old(out)@ + srt_stamp(ms as nat));
    }
}

fn push_txt_stamp(out: &mut Vec<char>, ms: u64)
    ensures
        final(out)@ == old(out)@ + txt_stamp(ms as nat),
{
    let wide: u128 = ms as u128;
    if wide / 3_600_000 > 0 {
        push_padded(out, wide / 3_600_000, 2);
        out.push(':');
    }
    push_padded(out, (wide / 60_000) % 60, 2);
    out.push(':');
    push_padded(out, (wide / 1000) % 60, 2);
    proof {
        reveal(txt_stamp);
        assert(out@ =~= old(out)@ + txt_stamp(ms as nat));
    }
}

/// Writes a time as a subtitle timecode.
pub fn format_srt_timestamp(ms: u64) -> (r: String)
    ensures
        r@ == srt_stamp(ms as nat),
{
    let mut out: Vec<char> = Vec::new();
    push_srt_stamp(&mut out, ms as u128);
    assert(out@ =~= srt_stamp(ms as nat));
    string_of(out.as_slice())
}

/// Writes a time as minutes and seconds, with hours from one hour on.
pub fn format_txt_timestamp(ms: u64) -> (r: String)
    ensures
        r@ == txt_stamp(ms as nat),
{
    let mut out: Vec<char> = Vec::new();
    push_txt_stamp(&mut out, ms);
    assert(out@ =~= txt_stamp(ms as nat));
    string_of(out.as_slice())
}

fn push_marker(out: &mut Vec<char>, filename: &str)
    ensures
        final(out)@ == old(out)@ + marker(filename@),
{
    out.push('[');
    push_str(out, filename);
    out.push(']');
    out.push(' ');
    proof {
        assert(out@ =~= old(out)@ + marker(filename@));
    }
}

fn push_arrow(out: &mut Vec<char>)
    ensures
        final(out)@ == old(out)@ + seq![' ', '-', '-', '>', ' '],
{
    out.push(' ');
    out.push('-');
    out.push('-');
    out.push('>');
    out.push(' ');
    proof {
        assert(out@ =~= old(out)@ + seq![' ', '-', '-', '>', ' ']);
    }
}

#[verifier::rlimit(40)]
fn push_srt_entry(out: &mut Vec<char>, seg: &TranscriptionSegment, number: usize, markers: bool)
    ensures
        final(out)@ == old(out)@ + srt_entry(seg@, number as nat, markers),
{
    let ghost base = out@;
    push_decimal(out, number as u128);
    out.push('\n');
    let ghost a1 = decimal(number as nat) + seq!['\n'];
    assert(out@ =~= base + a1);
    push_srt_stamp(out, seg.start_ms as u128);
    let ghost a2 = a1 + srt_stamp(seg@.start);
    assert(out@ =~= base + a2);
    push_arrow(out);
    let ghost a3 = a2 + seq![' ', '-', '-', '>', ' '];
    assert(out@ =~= base + a3);
    let until: u128 = match seg.end_ms {
        Some(e) => e as u128,
        None => seg.start_ms as u128 + DEFAULT_SHOWN_MS as u128,
    };
    push_srt_stamp(out, until);
    out.push('\n');
    let ghost a4 = a3 + srt_stamp(shown_until(seg@)) + seq!['\n'];
    assert(out@ =~= base + a4);
    if markers {
        push_marker(out, seg.original_filename.as_str());
    }
    let ghost a5 = a4 + (if markers {
        marker(seg@.filename)
    } else {
        Seq::empty()
    });
    assert(out@ =~= base + a5);
    push_str(out, seg.text.as_str());
    out.push('\n');
    out.push('\n');
    proof {
        assert(out@ =~= base + (a5 + seg@.text + seq!['\n', '\n']));
        assert(a5 + seg@.text + seq!['\n', '\n'] =~= srt_entry(seg@, number as nat, markers));
    }
}

fn push_txt_entry(out: &mut Vec<char>, seg: &TranscriptionSegment, stamps: bool, markers: bool)
    ensures
        final(out)@ == old(out)@ + txt_entry(seg@, stamps, markers),
{
    if stamps {
        out.push('[');
        push_txt_stamp(out, seg.start_ms);
        out.push(']');
        out.push(' ');
    }
    if markers {
        push_marker(out, seg.original_filename.as_str());
    }
    push_str(out, seg.text.as_str());
    out.push('\n');
    proof {
        assert(out@ =~= old(out)@ + txt_entry(seg@, stamps, markers));
    }
}

#[verifier::rlimit(40)]
fn push_md_entry(
    out: &mut Vec<char>,
    seg: &TranscriptionSegment,
    new_name: bool,
    stamps: bool,
    markers: bool,
    Ghost(before): Ghost<Seq<char>>,
)
    requires
        new_name == (seg@.filename != before),
    ensures
        final(out)@ == old(out)@ + md_entry(seg@, before, stamps, markers),
{
    if markers && new_name {
        out.push('#');
        out.push('#');
        out.push(' ');
        push_str(out, seg.original_filename.as_str());
        out.push('\n');
        out.push('\n');
    }
    if stamps {
        out.push('*');
        out.push('*');
        out.push('[');
        push_txt_stamp(out, seg.start_ms);
        out.push(']');
        out.push('*');
        out.push('*');
        out.push(' ');
    }
    push_str(out, seg.text.as_str());
    out.push('\n');
    out.push('\n');
    proof {
        assert(out@ =~= old(out)@ + md_entry(seg@, before, stamps, markers));
    }
}

/// Writes segments as subtitle blocks, numbered from one.
pub fn format_as_srt(segments: &Vec<TranscriptionSegment>, markers: bool) -> (r: String)
    ensures
        r@ == srt_text(segment_views(segments@), markers, segments@.len() as int),
{
    let n: usize = segments.len();
    let mut out: Vec<char> = Vec::new();
    let mut k: usize = 0;
    assert(out@ =~= srt_text(segment_views(segments@), markers, 0));
    while k < n
        invariant
            n == segments@.len(),
            0 <= k <= n,
            out@ == srt_text(segment_views(segments@), markers, k as int),
        decreases n - k,
    {
        assert(segment_views(segments@)[k as int] == segments@[k as int]@);
        push_srt_entry(&mut out, &segments[k], k + 1, markers);
        k = k + 1;
    }
    string_of(out.as_slice())
}

/// Writes segments as plain text, one line each.
pub fn format_as_txt(
    segments: &Vec<TranscriptionSegment>,
    stamps: bool,
    markers: bool,
) -> (r: String)
    ensures
        r@ == txt_text(segment_views(segments@), stamps, markers, segments@.len() as int),
{
    let n: usize = segments.len();
    let mut out: Vec<char> = Vec::new();
    let mut k: usize = 0;
    assert(out@ =~= txt_text(segment_views(segments@), stamps, markers, 0));
    while k < n
        invariant
            n == segments@.len(),
            0 <= k <= n,
            out@ == txt_text(segment_views(segments@), stamps, markers, k as int),
        decreases n - k,
    {
        assert(segment_views(segments@)[k as int] == segments@[k as int]@);
        push_txt_entry(&mut out, &segments[k], stamps, markers);
        k = k + 1;
    }
    string_of(out.as_slice())
}

/// Writes segments as Markdown under a title and the line that says when
/// the text was made, with a heading wherever the file name changes.
pub fn format_as_markdown(
    segments: &Vec<TranscriptionSegment>,
    stamps: bool,
    markers: bool,
    made: &str,
) -> (r: String)
    ensures
        r@ == md_text(segment_views(segments@), stamps, markers, made@),
{
    let n: usize = segments.len();
    let mut out: Vec<char> = Vec::new();
    push_str(&mut out, "# Merged Transcription\n\n");
    push_str(&mut out, "*Generated on: ");
    push_str(&mut out, made);
    push_str(&mut out, "*\n\n");
    let ghost views = segment_views(segments@);
    assert(out@ =~= md_head(made@) + md_body(views, stamps, markers, 0));
    let mut k: usize = 0;
    while k < n
        invariant
            n == segments@.len(),
            0 <= k <= n,
            views == segment_views(segments@),
            out@ == md_head(made@) + md_body(views, stamps, markers, k as int),
        decreases n - k,
    {
        assert(views[k as int] == segments@[k as int]@);
        let new_name: bool = if k == 0 {
            assert(segments@[0]@.filename.len() == 0 <==> segments@[0]@.filename
                =~= Seq::<char>::empty());
            segments[k].original_filename.as_str().unicode_len() != 0
        } else {
            assert(views[k - 1] == segments@[k - 1]@);
            !(segments[k].original_filename == segments[k - 1].original_filename)
        };
        let ghost base = out@;
        push_md_entry(
            &mut out,
            &segments[k],
            new_name,
            stamps,
            markers,
            Ghost(name_before(views, k as int)),
        );
        proof {
            assert(out@ =~= md_head(made@) + md_body(views, stamps, markers, k + 1));
        }
        k = k + 1;
    }
    string_of(out.as_slice())
}

} // verus!
