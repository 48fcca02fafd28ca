//! One timeline out of many files: each file is shifted behind the one
//! before it, then all segments are put in order of their start.

use crate::model::{
    file_views, lemma_unfit_append, lemma_unfit_prefix, lemma_views_fit, segment_fits,
    segment_views, times_fit,
    ErrorKind, FileView, SegmentView, TranscriptionFile, TranscriptionSegment,
};
use crate::order::{
    arranged, index_ints, is_selection, key_ints, lemma_order_holds, lemma_stable_order,
    stable_order, stable_order_of,
};
use vstd::prelude::*;

verus! {

/// What a file whose last segment has no end is taken to last beyond that
/// segment's start, in milliseconds.
pub const FILE_GAP_MS: u64 = 30_000;

/// `s` moved later by `by` milliseconds.
pub open spec fn shifted(s: SegmentView, by: nat) -> SegmentView {
    SegmentView {
        start: (s.start + by) as nat,
        end: match s.end {
            Some(e) => Some((e + by) as nat),
            None => None,
        },
        text: s.text,
        file_index: s.file_index,
        filename: s.filename,
    }
}

/// Every segment of `segs` moved later by `by` milliseconds.
pub open spec fn shifted_all(segs: Seq<SegmentView>, by: nat) -> Seq<SegmentView> {
    Seq::new(segs.len(), |i: int| shifted(segs[i], by))
}

/// How far a file moves the files behind it: to the end of its last
/// segment, or half a minute past its start where it has no end; a file
/// without segments moves nothing.
pub open spec fn span(segs: Seq<SegmentView>) -> nat {
    if segs.len() == 0 {
        0
    } else {
        match segs.last().end {
            Some(e) => e,
            None => (segs.last().start + FILE_GAP_MS) as nat,
        }
    }
}

/// By how much file number `k` is shifted: the offset at the start and
/// the spans of the files before it.
pub open spec fn offset_before(files: Seq<FileView>, base: nat, k: int) -> nat
    decreases k,
{
    if k <= 0 {
        base
    } else {
        (offset_before(files, base, k - 1) + span(files[k - 1].segments)) as nat
    }
}

/// The segments of the first `k` files, each file shifted by its offset, file after file.
pub open spec fn gathered(files: Seq<FileView>, base: nat, k: int) -> Seq<SegmentView>
    decreases k,
{
    if k <= 0 {
        Seq::empty()
    } else {
        gathered(files, base, k - 1) + shifted_all(
            files[k - 1].segments,
            offset_before(files, base, k - 1),
        )
    }
}

/// The starts of `segs`.
pub open spec fn start_keys(segs: Seq<SegmentView>) -> Seq<int> {
    Seq::new(segs.len(), |i: int| segs[i].start as int)
}

/// `segs` in stable order of their starts.
pub open spec fn by_start(segs: Seq<SegmentView>) -> Seq<SegmentView> {
    arranged(segs, stable_order(start_keys(segs), segs.len() as int))
}

/// The merged timeline of `files`, which starts at `base`.
pub open spec fn merged_segments(files: Seq<FileView>, base: nat) -> Seq<SegmentView> {
    by_start(gathered(files, base, files.len() as int))
}

/// The segments of the first `k` files are the first of those of the first `n`.
pub proof fn lemma_gathered_grows(files: Seq<FileView>, base: nat, k: int, n: int)
    requires
        0 <= k <= n,
    ensures
        gathered(files, base, k).len() <= gathered(files, base, n).len(),
        gathered(files, base, k) =~= gathered(files, base, n).take(
            gathered(files, base, k).len() as int,
        ),
    decreases n - k,
{
    if k < n {
        lemma_gathered_grows(files, base, k, n - 1);
    }
}

proof fn lemma_unfit_file(files: Seq<FileView>, base: nat, k: int, n: int)
    requires
        0 <= k < n,
        !times_fit(shifted_all(files[k].segments, offset_before(files, base, k))),
    ensures
        !times_fit(gathered(files, base, n)),
{
    lemma_unfit_append(
        gathered(files, base, k),
        shifted_all(files[k].segments, offset_before(files, base, k)),
    );
    lemma_gathered_grows(files, base, k + 1, n);
    lemma_unfit_prefix(gathered(files, base, n), gathered(files, base, k + 1).len() as int);
}

/// Appends `segs`, moved later by `by`. Says `false`, with nothing
/// promised of `all`, where a moved time does not fit.
fn append_shifted(
    all: &mut Vec<TranscriptionSegment>,
    segs: &Vec<TranscriptionSegment>,
    by: u64,
) -> (ok: bool)
    ensures
        ok ==> segment_views(final(all)@) == segment_views(old(all)@) + shifted_all(
            segment_views(segs@),
            by as nat,
        ),
        !ok ==> !times_fit(shifted_all(segment_views(segs@), by as nat)),
{
    let n: usize = segs.len();
    let ghost base = segment_views(all@);
    let ghost moved = shifted_all(segment_views(segs@), by as nat);
    let mut j: usize = 0;
    assert(segment_views(all@) =~= base + moved.take(0));
    while j < n
        invariant
            n == segs@.len(),
            0 <= j <= n,
            moved == shifted_all(segment_views(segs@), by as nat),
            segment_views(all@) == base + moved.take(j as int),
        decreases n - j,
    {
        let seg: &TranscriptionSegment = &segs[j];
        assert(segment_views(segs@)[j as int] == seg@);
        let start: Option<u64> = seg.start_ms.checked_add(by);
        let end: Option<Option<u64>> = match seg.end_ms {
            Some(e) => match e.checked_add(by) {
                Some(x) => Some(Some(x)),
                None => None,
            },
            None => Some(None),
        };
        match (start, end) {
            (Some(s), Some(e)) => {
                let ghost before = segment_views(all@);
                let item = TranscriptionSegment {
                    start_ms: s,
                    end_ms: e,
                    text: seg.text.clone(),
                    file_index: seg.file_index,
                    original_filename: seg.original_filename.clone(),
                };
                assert(item@ == moved[j as int]);
                all.push(item);
                proof {
                    assert(segment_views(all@) =~= before.push(item@));
                    assert(moved.take(j + 1) =~= moved.take(j as int).push(moved[j as int]));
                    assert(before.push(item@) =~= base + moved.take(j + 1));
                }
            },
            _ => {
                proof {
                    assert(!segment_fits(moved[j as int]));
                }
                return false;
            },
        }
        j = j + 1;
    }
    proof {
        assert(moved.take(n as int) =~= moved);
    }
    true
}

/// How far a file moves the files behind it; `None` where that does not fit.
fn file_span(segs: &Vec<TranscriptionSegment>) -> (r: Option<u64>)
    ensures
        match r {
            Some(v) => v == span(segment_views(segs@)),
            None => span(segment_views(segs@)) > u64::MAX,
        },
{
    let n: usize = segs.len();
    if n == 0 {
        return Some(0);
    }
    let last: &TranscriptionSegment = &segs[n - 1];
    assert(segment_views(segs@).last() == last@);
    match last.end_ms {
        Some(e) => Some(e),
        None => last.start_ms.checked_add(FILE_GAP_MS),
    }
}

/// Puts segments in stable order of their starts.
pub fn sort_by_start(segs: &Vec<TranscriptionSegment>) -> (r: Vec<TranscriptionSegment>)
    ensures
        segment_views(r@) == by_start(segment_views(segs@)),
{
    let n: usize = segs.len();
    let mut keys: Vec<u128> = Vec::new();
    let mut i: usize = 0;
    while i < n
        invariant
            n == segs@.len(),
            0 <= i <= n,
            keys@.len() == i,
            forall|j: int| 0 <= j < i ==> #[trigger] keys@[j] == segs@[j].start_ms,
        decreases n - i,
    {
        keys.push(segs[i].start_ms as u128);
        i = i + 1;
    }
    assert(key_ints(keys@) =~= start_keys(segment_views(segs@)));
    let order: Vec<usize> = stable_order_of(&keys);
    let mut out: Vec<TranscriptionSegment> = Vec::new();
    let ghost want = arranged(segment_views(segs@), index_ints(order@));
    let mut k: usize = 0;
    while k < n
        invariant
            n == segs@.len(),
            n == order@.len(),
            0 <= k <= n,
            forall|i: int| 0 <= i < order@.len() ==> #[trigger] order@[i] < n,
            want == arranged(segment_views(segs@), index_ints(order@)),
            segment_views(out@) == want.take(k as int),
        decreases n - k,
    {
        let ghost before = segment_views(out@);
        let item = segs[order[k]].clone();
        out.push(item);
        proof {
            assert(segment_views(out@) =~= before.push(item@));
            assert(want[k as int] == item@);
            assert(want.take(k + 1) =~= before.push(item@));
        }
        k = k + 1;
    }
    proof {
        assert(want.take(n as int) =~= want);
    }
    out
}

/// Shifts each file behind the one before it and puts all segments in
/// stable order of their starts.
///
/// Gives the segments of `merged_segments`, or `TimeOverflow` where a
/// shifted time does not fit in 64 bits.
pub fn merge_segments(
    files: &Vec<TranscriptionFile>,
    base: u64,
) -> (r: Result<Vec<TranscriptionSegment>, ErrorKind>)
    ensures
        r is Ok <==> times_fit(gathered(file_views(files@), base as nat, files@.len() as int)),
        match r {
            Ok(v) => segment_views(v@) == merged_segments(file_views(files@), base as nat),
            Err(e) => e == ErrorKind::TimeOverflow && !times_fit(
                gathered(file_views(files@), base as nat, files@.len() as int),
            ),
        },
{
    let n: usize = files.len();
    let ghost fv = file_views(files@);
    let mut all: Vec<TranscriptionSegment> = Vec::new();
    let mut offset: Option<u64> = Some(base);
    let mut k: usize = 0;
    assert(segment_views(all@) =~= gathered(fv, base as nat, 0));
    while k < n
        invariant
            n == files@.len(),
            0 <= k <= n,
            fv == file_views(files@),
            segment_views(all@) == gathered(fv, base as nat, k as int),
            match offset {
                Some(o) => o == offset_before(fv, base as nat, k as int),
                None => offset_before(fv, base as nat, k as int) > u64::MAX,
            },
        decreases n - k,
    {
        let file: &TranscriptionFile = &files[k];
        assert(fv[k as int] == file@);
        let ghost off = offset_before(fv, base as nat, k as int);
        if file.segments.len() > 0 {
            match offset {
                Some(o) => {
                    if !append_shifted(&mut all, &file.segments, o) {
                        proof {
                            lemma_unfit_file(fv, base as nat, k as int, n as int);
                        }
                        return Err(ErrorKind::TimeOverflow);
                    }
                    offset = match file_span(&file.segments) {
                        Some(v) => o.checked_add(v),
                        None => None,
                    };
                },
                None => {
                    proof {
                        let moved = shifted_all(fv[k as int].segments, off);
                        assert(!segment_fits(moved[0]));
                        lemma_unfit_file(fv, base as nat, k as int, n as int);
                    }
                    return Err(ErrorKind::TimeOverflow);
                },
            }
        } else {
            proof {
                assert(shifted_all(fv[k as int].segments, off) =~= Seq::<SegmentView>::empty());
                assert(gathered(fv, base as nat, k + 1) =~= gathered(fv, base as nat, k as int));
            }
        }
        k = k + 1;
    }
    proof {
        lemma_views_fit(all@);
    }
    Ok(sort_by_start(&all))
}

/// Putting segments in order of their starts loses none and adds none,
/// the starts do not fall, and two segments with the same start stand as
/// they stood before.
///
/// `stable_order(start_keys(segs), n)[i]` is the place that the segment at
/// place `i` of the result had before.
pub proof fn law_order_is_stable(segs: Seq<SegmentView>)
    ensures
        by_start(segs).len() == segs.len(),
        is_selection(stable_order(start_keys(segs), segs.len() as int), segs.len() as int),
        forall|i: int|
            0 <= i < segs.len() ==> #[trigger] by_start(segs)[i] == segs[stable_order(
                start_keys(segs),
                segs.len() as int,
            )[i]],
        forall|i: int, j: int|
            0 <= i < j < segs.len() ==> (#[trigger] by_start(segs)[i]).start <= (#[trigger] by_start(
                segs,
            )[j]).start,
        forall|i: int, j: int|
            0 <= i < j < segs.len() && (#[trigger] by_start(segs)[i]).start == (#[trigger] by_start(
                segs,
            )[j]).start ==> stable_order(start_keys(segs), segs.len() as int)[i] < stable_order(
                start_keys(segs),
                segs.len() as int,
            )[j],
{
    let keys = start_keys(segs);
    let order = stable_order(keys, segs.len() as int);
    lemma_stable_order(keys, segs.len() as int);
    assert forall|i: int, j: int| 0 <= i < j < segs.len() implies (#[trigger] by_start(segs)[i]).start
        <= (#[trigger] by_start(segs)[j]).start && (by_start(segs)[i].start == by_start(
        segs,
    )[j].start ==> order[i] < order[j]) by {
        assert(keys[order[i]] <= keys[order[j]]);
    }
}

/// Every segment stands somewhere in the segments put in order.
pub proof fn law_order_keeps_all(segs: Seq<SegmentView>, x: int) -> (at: int)
    requires
        0 <= x < segs.len(),
    ensures
        0 <= at < by_start(segs).len(),
        by_start(segs)[at] == segs[x],
{
    lemma_order_holds(start_keys(segs), segs.len() as int, x)
}

/// Merging two files leaves the first where the timeline starts and
/// shifts every time of the second by what the first spans on top of that:
/// the end of its last segment, or half a minute past its start where it
/// has no end.
pub proof fn law_second_file_follows(a: FileView, b: FileView, base: nat)
    ensures
        gathered(seq![a, b], base, 2) == shifted_all(a.segments, base) + shifted_all(
            b.segments,
            base + span(a.segments),
        ),
        a.segments.len() > 0 ==> span(a.segments) == match a.segments.last().end {
            Some(e) => e,
            None => (a.segments.last().start + FILE_GAP_MS) as nat,
        },
        ({
            let merged = merged_segments(seq![a, b], base);
            forall|j: int|
                0 <= j < b.segments.len() ==> exists|i: int|
                    0 <= i < merged.len() && #[trigger] merged[i] == shifted(
                        #[trigger] b.segments[j],
                        base + span(a.segments),
                    )
        }),
{
    let files = seq![a, b];
    assert(gathered(files, base, 0) =~= Seq::<SegmentView>::empty());
    assert(gathered(files, base, 1) =~= shifted_all(a.segments, base)) by {
        assert(offset_before(files, base, 0) == base);
    }
    assert(offset_before(files, base, 1) == base + span(a.segments));
    let all = gathered(files, base, 2);
    assert(all =~= shifted_all(a.segments, base) + shifted_all(
        b.segments,
        base + span(a.segments),
    ));
    let merged = merged_segments(files, base);
    assert forall|j: int| 0 <= j < b.segments.len() implies exists|i: int|
        0 <= i < merged.len() && #[trigger] merged[i] == shifted(
            #[trigger] b.segments[j],
            base + span(a.segments),
        ) by {
        let x = a.segments.len() + j;
        assert(all[x] == shifted(b.segments[j], base + span(a.segments)));
        let at = law_order_keeps_all(all, x);
        assert(merged[at] == all[x]);
    }
}

/// Whether no segment starts after what the segments span together.
pub open spec fn starts_within_span(segs: Seq<SegmentView>) -> bool {
    forall|i: int| 0 <= i < segs.len() ==> (#[trigger] segs[i]).start <= span(segs)
}

/// The offsets do not fall from file to file.
pub proof fn lemma_offsets_rise(files: Seq<FileView>, base: nat, a: int, b: int)
    requires
        0 <= a <= b,
    ensures
        offset_before(files, base, a) <= offset_before(files, base, b),
    decreases b - a,
{
    if a < b {
        lemma_offsets_rise(files, base, a, b - 1);
    }
}

/// Files follow each other on the merged timeline: where no segment of a
/// file starts after what the file spans, no segment of a later file starts
/// before any of its segments.
pub proof fn law_files_follow_each_other(
    files: Seq<FileView>,
    base: nat,
    a: int,
    i: int,
    b: int,
    j: int,
)
    requires
        0 <= a < b < files.len(),
        0 <= i < files[a].segments.len(),
        0 <= j < files[b].segments.len(),
        starts_within_span(files[a].segments),
    ensures
        shifted(files[a].segments[i], offset_before(files, base, a)).start <= shifted(
            files[b].segments[j],
            offset_before(files, base, b),
        ).start,
{
    lemma_offsets_rise(files, base, a + 1, b);
}

/// The merged timeline holds the segments of all files, each shifted by
/// the offset of its file, once each; its starts do not fall; and two
/// segments with the same start stand as they stood file after file.
///
/// `stable_order(..)[i]` is the place that the segment at place `i` of the
/// merged timeline had among the segments gathered file after file.
pub proof fn law_merge_is_stable(files: Seq<FileView>, base: nat)
    ensures
        ({
            let all = gathered(files, base, files.len() as int);
            let order = stable_order(start_keys(all), all.len() as int);
            let merged = merged_segments(files, base);
            &&& merged.len() == all.len()
            &&& is_selection(order, all.len() as int)
            &&& forall|i: int| 0 <= i < merged.len() ==> #[trigger] merged[i] == all[order[i]]
            &&& forall|i: int, j: int|
                0 <= i < j < merged.len() ==> (#[trigger] merged[i]).start <= (
                #[trigger] merged[j]).start
            &&& forall|i: int, j: int|
                0 <= i < j < merged.len() && (#[trigger] merged[i]).start == (
                #[trigger] merged[j]).start ==> order[i] < order[j]
        }),
{
    law_order_is_stable(gathered(files, base, files.len() as int));
}

} // verus!
