//! Splitting an audio file: the options, what the media tool says about
//! silence, and the plan of the pieces.

use crate::ffmpeg::{
    app_data_dir_under, bundled_path, join_path, joined, FFmpegManager, FfmpegError, Platform,
};
use crate::order::{
    arranged, index_ints, key_ints, lemma_stable_order, stable_order, stable_order_of,
};
use crate::render::push_str;
use crate::subtitle::{read_seconds_ms, seconds_ms};
use crate::text::{
    chars_of, find_char, find_char_from, find_part, find_part_from, lines, opt_str, padded,
    push_padded, split_lines, string_of, views,
};
use vstd::prelude::*;
use vstd::slice::slice_subrange;

verus! {

/// How to split an audio file.
#[derive(Debug)]
pub struct ProcessingOptions {
    /// The longest a piece may be, in seconds.
    pub max_duration_seconds: u32,
    /// Split where it is silent rather than at fixed times.
    pub use_silence_detection: bool,
    /// The format of the pieces.
    pub output_format: String,
}

impl Default for ProcessingOptions {
    fn default() -> (r: Self)
        ensures
            r.max_duration_seconds == 1800,
            r.use_silence_detection,
            r.output_format@ == "mp3"@,
    {
        ProcessingOptions {
            max_duration_seconds: 1800,
            use_silence_detection: true,
            output_format: "mp3".to_owned(),
        }
    }
}

/// Splits audio files with the media tool.
#[derive(Debug)]
pub struct AudioProcessor {
    ffmpeg_manager: FFmpegManager,
}

impl AudioProcessor {
    /// The manager of the media tool.
    pub closed spec fn manager(&self) -> FFmpegManager {
        self.ffmpeg_manager
    }

    /// A processor for `platform`, with the program's data under `home`.
    /// `NoAppDataDir` where the system names no such directory.
    pub fn new(platform: Platform, home: Option<&str>) -> (r: Result<Self, FfmpegError>)
        ensures
            match home {
                Some(h) => r matches Ok(p) && p.manager().platform() == platform
                    && p.manager().app_data_dir() == app_data_dir_under(platform, h@)
                    && p.manager().ffmpeg_path() == bundled_path(
                    platform,
                    p.manager().app_data_dir(),
                ),
                None => r matches Err(e) && e == FfmpegError::NoAppDataDir,
            },
    {
        match FFmpegManager::new(platform, home) {
            Ok(ffmpeg_manager) => Ok(AudioProcessor { ffmpeg_manager }),
            Err(e) => Err(e),
        }
    }

    /// The manager of the media tool.
    pub fn ffmpeg(&self) -> (r: &FFmpegManager)
        ensures
            *r == self.manager(),
    {
        &self.ffmpeg_manager
    }
}

/// The label that the media tool puts before the time at which a silence ends.
pub open spec fn silence_label() -> Seq<char> {
    seq!['s', 'i', 'l', 'e', 'n', 'c', 'e', '_', 'e', 'n', 'd', ':', ' ']
}

/// The first index at or after `i` that holds a space, or the length.
pub open spec fn find_space(s: Seq<char>, i: int) -> int
    decreases s.len() - i,
{
    if 0 <= i < s.len() && s[i] != ' ' {
        find_space(s, i + 1)
    } else {
        i
    }
}

/// The time at which a silence ends, as the line says it: what stands
/// between the first label and the next space. None without the label or
/// without a space after it.
pub open spec fn silence_time(line: Seq<char>) -> Option<Seq<char>> {
    let at = find_part(line, silence_label(), 0);
    let from = at + silence_label().len();
    let to = find_space(line, from);
    if at < line.len() && to < line.len() {
        Some(line.subrange(from, to))
    } else {
        None
    }
}

/// Takes the time at which a silence ends out of a line of the media tool.
pub fn extract_time_from_silence_line(line: &str) -> (r: Option<String>)
    ensures
        match r {
            Some(t) => silence_time(line@) == Some(t@),
            None => silence_time(line@) is None,
        },
{
    let chars: Vec<char> = chars_of(line);
    let s: &[char] = chars.as_slice();
    let label: Vec<char> = vec!['s', 'i', 'l', 'e', 'n', 'c', 'e', '_', 'e', 'n', 'd', ':', ' '];
    assert(label@ =~= silence_label());
    let n: usize = s.len();
    let at: usize = find_part_from(s, label.as_slice(), 0);
    if at >= n {
        return None;
    }
    let from: usize = at + 13;
    let mut to: usize = from;
    while to < n && s[to] != ' '
        invariant
            n == s@.len(),
            from <= to <= n,
            find_space(s@, to as int) == find_space(s@, from as int),
        decreases n - to,
    {
        to = to + 1;
    }
    if to >= n {
        return None;
    }
    Some(string_of(slice_subrange(s, from, to)))
}

/// A piece of an audio file, as a mathematical value.
pub struct ChunkView {
    pub path: Seq<char>,
    pub start: nat,
    pub duration: nat,
    pub number: nat,
}

/// A piece of an audio file.
#[derive(Debug)]
pub struct AudioChunk {
    pub path: String,
    /// Where the piece starts in the file, in milliseconds.
    pub start_ms: u64,
    /// How long the piece is, in milliseconds.
    pub duration_ms: u64,
    /// The number of the piece, from one.
    pub chunk_number: usize,
}

impl View for AudioChunk {
    type V = ChunkView;

    open spec fn view(&self) -> ChunkView {
        ChunkView {
            path: self.path@,
            start: self.start_ms as nat,
            duration: self.duration_ms as nat,
            number: self.chunk_number as nat,
        }
    }
}

/// The views of a sequence of pieces.
pub open spec fn chunk_views(s: Seq<AudioChunk>) -> Seq<ChunkView> {
    Seq::new(s.len(), |i: int| s[i]@)
}

/// `chunk_NNN.format`
pub open spec fn chunk_name(number: nat, format: Seq<char>) -> Seq<char> {
    "chunk_"@ + padded(number, 3) + seq!['.'] + format
}

/// The path of piece number `number` in the directory `dir`.
pub open spec fn chunk_path(
    platform: Platform,
    dir: Seq<char>,
    number: nat,
    format: Seq<char>,
) -> Seq<char> {
    joined(platform, dir, chunk_name(number, format))
}

/// The directory for the pieces of a file: beside the file, named after
/// it; in the working directory where the file has no directory.
pub open spec fn pieces_dir(
    platform: Platform,
    parent: Option<Seq<char>>,
    stem: Seq<char>,
) -> Seq<char> {
    match parent {
        Some(p) => joined(platform, p, stem + "_segments"@),
        None => joined(platform, "."@, "audio_segments"@),
    }
}

/// Names the directory for the pieces of a file.
pub fn output_dir_for(platform: Platform, parent: Option<&str>, stem: &str) -> (r: String)
    ensures
        r@ == pieces_dir(platform, opt_str(parent), stem@),
{
    match parent {
        Some(p) => {
            let mut name: Vec<char> = chars_of(stem);
            push_str(&mut name, "_segments");
            let name: String = string_of(name.as_slice());
            join_path(platform, p, name.as_str())
        },
        None => join_path(platform, ".", "audio_segments"),
    }
}

fn make_chunk(
    platform: Platform,
    dir: &str,
    format: &str,
    start: u64,
    duration: u64,
    number: usize,
) -> (r: AudioChunk)
    ensures
        r@ == (ChunkView {
            path: chunk_path(platform, dir@, number as nat, format@),
            start: start as nat,
            duration: duration as nat,
            number: number as nat,
        }),
{
    let mut name: Vec<char> = chars_of("chunk_");
    push_padded(&mut name, number as u128, 3);
    name.push('.');
    push_str(&mut name, format);
    assert(name@ =~= chunk_name(number as nat, format@));
    let name: String = string_of(name.as_slice());
    AudioChunk {
        path: join_path(platform, dir, name.as_str()),
        start_ms: start,
        duration_ms: duration,
        chunk_number: number,
    }
}

/// The number of pieces of at most `max` that make up `total`.
pub open spec fn piece_count(total: nat, max: nat) -> nat {
    if max == 0 {
        0
    } else {
        ((total + max - 1) / (max as int)) as nat
    }
}

/// Piece number `i`, from zero, where a file of `total` milliseconds is
/// cut every `max` milliseconds: all pieces are `max` long but the last,
/// which is what is left.
pub open spec fn time_piece(
    platform: Platform,
    dir: Seq<char>,
    format: Seq<char>,
    total: nat,
    max: nat,
    i: int,
) -> ChunkView {
    ChunkView {
        path: chunk_path(platform, dir, (i + 1) as nat, format),
        start: (i * max) as nat,
        duration: if i * max + max > total {
            (total - i * max) as nat
        } else {
            max
        },
        number: (i + 1) as nat,
    }
}

/// The pieces of a file of `total` milliseconds cut every `max` milliseconds.
pub open spec fn time_plan(
    platform: Platform,
    dir: Seq<char>,
    format: Seq<char>,
    total: nat,
    max: nat,
) -> Seq<ChunkView> {
    Seq::new(piece_count(total, max), |i: int| time_piece(platform, dir, format, total, max, i))
}

proof fn lemma_piece_count(total: nat, max: nat, i: nat)
    requires
        max > 0,
        i * max < total,
    ensures
        i < piece_count(total, max),
        total <= (i + 1) * max ==> piece_count(total, max) == i + 1,
{
    let c = (total + max - 1) / (max as int);
    assert(c * max <= total + max - 1 < c * max + max) by (nonlinear_arith)
        requires
            max > 0,
            c == (total + max - 1) / (max as int),
    ;
    assert(i < c) by (nonlinear_arith)
        requires
            max > 0,
            i * max < total,
            total + max - 1 < c * max + max,
    ;
    if total <= (i + 1) * max {
        assert(c <= i + 1) by (nonlinear_arith)
            requires
                max > 0,
                total <= (i + 1) * max,
                c * max <= total + max - 1,
        ;
    }
}

proof fn lemma_no_pieces(max: nat)
    requires
        max > 0,
    ensures
        piece_count(0, max) == 0,
{
    assert((max - 1) / (max as int) == 0) by (nonlinear_arith)
        requires
            max > 0,
    ;
}

/// Whether a file of `total` milliseconds can be cut every `max`
/// milliseconds: a piece is longer than nothing, and the pieces can be counted.
pub open spec fn can_cut(total: nat, max: nat) -> bool {
    max > 0 && piece_count(total, max) <= usize::MAX
}

/// Plans the pieces of a file of `total_ms` milliseconds, cut every
/// `max_ms` milliseconds, in the directory `dir`.
pub fn plan_by_time(
    platform: Platform,
    dir: &str,
    format: &str,
    total_ms: u64,
    max_ms: u64,
) -> (r: Vec<AudioChunk>)
    requires
        can_cut(total_ms as nat, max_ms as nat),
    ensures
        chunk_views(r@) == time_plan(platform, dir@, format@, total_ms as nat, max_ms as nat),
{
    let mut chunks: Vec<AudioChunk> = Vec::new();
    let mut start: u64 = 0;
    let mut i: usize = 0;
    let ghost want = time_plan(platform, dir@, format@, total_ms as nat, max_ms as nat);
    proof {
        assert(0 * max_ms == 0);
        if total_ms == 0 {
            lemma_no_pieces(max_ms as nat);
        }
        assert(chunk_views(chunks@) =~= want.take(0));
    }
    while start < total_ms
        invariant
            max_ms > 0,
            want == time_plan(platform, dir@, format@, total_ms as nat, max_ms as nat),
            want.len() <= usize::MAX,
            start < total_ms ==> start == i * max_ms,
            start <= total_ms,
            i <= want.len(),
            start >= total_ms ==> i == want.len(),
            chunk_views(chunks@) == want.take(i as int),
        decreases total_ms - start,
    {
        proof {
            lemma_piece_count(total_ms as nat, max_ms as nat, i as nat);
            assert((i + 1) * max_ms == i * max_ms + max_ms) by (nonlinear_arith);
        }
        let left: u64 = total_ms - start;
        let duration: u64 = if left < max_ms {
            left
        } else {
            max_ms
        };
        let ghost before = chunk_views(chunks@);
        let chunk = make_chunk(platform, dir, format, start, duration, i + 1);
        assert(chunk@ == want[i as int]);
        chunks.push(chunk);
        proof {
            assert(chunk_views(chunks@) =~= before.push(chunk@));
            assert(want.take(i + 1) =~= want.take(i as int).push(want[i as int]));
        }
        start = start + duration;
        i = i + 1;
    }
    proof {
        assert(want.take(want.len() as int) =~= want);
    }
    chunks
}

/// Seconds written as a decimal number with a dot, in milliseconds, where they fit.
pub open spec fn plain_seconds(t: Seq<char>) -> Option<nat> {
    if find_char(t, ',', 0) < t.len() {
        None
    } else {
        match seconds_ms(t) {
            Some(v) => if v <= u64::MAX {
                Some(v)
            } else {
                None
            },
            None => None,
        }
    }
}

/// The time at which the silence of a line ends, in milliseconds, if the
/// line tells one that can be read.
pub open spec fn silence_end_ms(line: Seq<char>) -> Option<nat> {
    match silence_time(line) {
        Some(t) => plain_seconds(t),
        None => None,
    }
}

/// The ends of silence that the first `k` lines tell, as they come.
pub open spec fn silence_ends(ls: Seq<Seq<char>>, k: int) -> Seq<nat>
    decreases k,
{
    if k <= 0 {
        Seq::empty()
    } else {
        match silence_end_ms(ls[k - 1]) {
            Some(ms) => silence_ends(ls, k - 1).push(ms),
            None => silence_ends(ls, k - 1),
        }
    }
}

/// How close two ends of silence may be to count as one, in milliseconds.
pub const SAME_SILENCE_MS: u64 = 100;

/// The first `k` of `times` without each that is less than a tenth of a
/// second after the one kept before it.
pub open spec fn kept_apart(times: Seq<nat>, k: int) -> Seq<nat>
    decreases k,
{
    if k <= 0 {
        Seq::empty()
    } else {
        let kept = kept_apart(times, k - 1);
        if kept.len() > 0 && times[k - 1] - kept.last() < SAME_SILENCE_MS && kept.last() - times[k
            - 1] < SAME_SILENCE_MS {
            kept
        } else {
            kept.push(times[k - 1])
        }
    }
}

/// The keys by which times are put in order: the times themselves.
pub open spec fn time_keys(times: Seq<nat>) -> Seq<int> {
    Seq::new(times.len(), |i: int| times[i] as int)
}

/// `times` in rising order.
pub open spec fn in_time_order(times: Seq<nat>) -> Seq<nat> {
    arranged(times, stable_order(time_keys(times), times.len() as int))
}

/// The points of silence that the output of the media tool tells: the
/// ends of silence in rising order, none less than a tenth of a second
/// after the one before it.
pub open spec fn silence_points_of(output: Seq<char>) -> Seq<nat> {
    let ls = lines(output);
    let sorted = in_time_order(silence_ends(ls, ls.len() as int));
    kept_apart(sorted, sorted.len() as int)
}

/// The times as mathematical values.
pub open spec fn time_views(v: Seq<u64>) -> Seq<nat> {
    Seq::new(v.len(), |i: int| v[i] as nat)
}

/// Whether times do not fall.
pub open spec fn rising(times: Seq<nat>) -> bool {
    forall|i: int, j: int| 0 <= i < j < times.len() ==> times[i] <= times[j]
}

fn read_plain_seconds(t: &[char]) -> (r: Option<u64>)
    ensures
        match r {
            Some(v) => plain_seconds(t@) == Some(v as nat),
            None => plain_seconds(t@) is None,
        },
{
    if find_char_from(t, ',', 0) < t.len() {
        return None;
    }
    read_seconds_ms(t)
}

fn sort_times(times: &Vec<u64>) -> (r: Vec<u64>)
    ensures
        time_views(r@) == in_time_order(time_views(times@)),
        rising(time_views(r@)),
{
    let n: usize = times.len();
    let mut keys: Vec<u128> = Vec::new();
    let mut i: usize = 0;
    while i < n
        invariant
            n == times@.len(),
            0 <= i <= n,
            keys@.len() == i,
            forall|j: int| 0 <= j < i ==> #[trigger] keys@[j] == times@[j],
        decreases n - i,
    {
        keys.push(times[i] as u128);
        i = i + 1;
    }
    assert(key_ints(keys@) =~= time_keys(time_views(times@)));
    let order: Vec<usize> = stable_order_of(&keys);
    let ghost want = arranged(time_views(times@), index_ints(order@));
    let mut out: Vec<u64> = Vec::new();
    let mut k: usize = 0;
    while k < n
        invariant
            n == times@.len(),
            n == order@.len(),
            0 <= k <= n,
            forall|i: int| 0 <= i < order@.len() ==> #[trigger] order@[i] < n,
            want == arranged(time_views(times@), index_ints(order@)),
            time_views(out@) == want.take(k as int),
        decreases n - k,
    {
        let ghost before = time_views(out@);
        let item: u64 = times[order[k]];
        out.push(item);
        proof {
            assert(time_views(out@) =~= before.push(item as nat));
            assert(want.take(k + 1) =~= before.push(item as nat));
        }
        k = k + 1;
    }
    proof {
        assert(want.take(n as int) =~= want);
        lemma_stable_order(time_keys(time_views(times@)), n as int);
        let p = stable_order(time_keys(time_views(times@)), n as int);
        assert forall|i: int, j: int| 0 <= i < j < want.len() implies want[i] <= want[j] by {
            assert(time_keys(time_views(times@))[p[i]] <= time_keys(time_views(times@))[p[j]]);
        }
    }
    out
}

proof fn lemma_kept_apart_rises(times: Seq<nat>, k: int)
    requires
        0 <= k <= times.len(),
        rising(times),
    ensures
        rising(kept_apart(times, k)),
        forall|i: int|
            0 <= i < kept_apart(times, k).len() ==> k > 0 && #[trigger] kept_apart(times, k)[i]
                <= times[k - 1],
    decreases k,
{
    if k > 0 {
        lemma_kept_apart_rises(times, k - 1);
        let kept = kept_apart(times, k - 1);
        assert forall|i: int| 0 <= i < kept.len() implies #[trigger] kept[i] <= times[k - 1] by {
            assert(kept[i] <= times[k - 2]);
        }
    }
}

/// Reads the points of silence from what the media tool wrote.
pub fn detect_silence_points(output: &str) -> (r: Vec<u64>)
    ensures
        time_views(r@) == silence_points_of(output@),
        rising(time_views(r@)),
{
    let chars: Vec<char> = chars_of(output);
    let ls: Vec<&[char]> = split_lines(chars.as_slice());
    let n: usize = ls.len();
    let mut ends: Vec<u64> = Vec::new();
    let mut k: usize = 0;
    assert(time_views(ends@) =~= silence_ends(views(ls@), 0));
    while k < n
        invariant
            n == ls@.len(),
            0 <= k <= n,
            views(ls@) == lines(output@),
            time_views(ends@) == silence_ends(views(ls@), k as int),
        decreases n - k,
    {
        assert(views(ls@)[k as int] == ls@[k as int]@);
        let ghost before = time_views(ends@);
        let line: String = string_of(ls[k]);
        match extract_time_from_silence_line(line.as_str()) {
            Some(t) => {
                let tc: Vec<char> = chars_of(t.as_str());
                match read_plain_seconds(tc.as_slice()) {
                    Some(ms) => {
                        ends.push(ms);
                        proof {
                            assert(time_views(ends@) =~= before.push(ms as nat));
                        }
                    },
                    None => {},
                }
            },
            None => {},
        }
        k = k + 1;
    }
    let sorted: Vec<u64> = sort_times(&ends);
    let m: usize = sorted.len();
    let mut kept: Vec<u64> = Vec::new();
    let mut j: usize = 0;
    assert(time_views(kept@) =~= kept_apart(time_views(sorted@), 0));
    while j < m
        invariant
            m == sorted@.len(),
            0 <= j <= m,
            time_views(kept@) == kept_apart(time_views(sorted@), j as int),
        decreases m - j,
    {
        let ghost before = time_views(kept@);
        let t: u64 = sorted[j];
        let len: usize = kept.len();
        let close: bool = if len > 0 {
            let last: u64 = kept[len - 1];
            assert(before.last() == last);
            if t >= last {
                t - last < SAME_SILENCE_MS
            } else {
                last - t < SAME_SILENCE_MS
            }
        } else {
            false
        };
        if !close {
            kept.push(t);
            proof {
                assert(time_views(kept@) =~= before.push(t as nat));
            }
        }
        j = j + 1;
    }
    proof {
        lemma_kept_apart_rises(time_views(sorted@), m as int);
    }
    kept
}

/// Whether a file can be cut at `points`: it can be cut by time, the
/// points do not fall, and none lies behind the end of the file.
pub open spec fn can_cut_at(points: Seq<nat>, total: nat, max: nat) -> bool {
    can_cut(total, max) && rising(points) && (points.len() > 0 ==> points.last() <= total)
}

/// Where the next piece starts, its number, and the pieces so far.
pub struct SilenceState {
    pub start: nat,
    pub number: nat,
    pub chunks: Seq<ChunkView>,
}

/// The pieces after the first `k` points of silence: a piece ends at a
/// point where it is `max` long or more by then, and at the last point,
/// where it runs to the end of the file.
pub open spec fn silence_fold(
    platform: Platform,
    dir: Seq<char>,
    format: Seq<char>,
    points: Seq<nat>,
    total: nat,
    max: nat,
    k: int,
) -> SilenceState
    decreases k,
{
    if k <= 0 {
        SilenceState { start: 0, number: 1, chunks: Seq::empty() }
    } else {
        let p = silence_fold(platform, dir, format, points, total, max, k - 1);
        let point = points[k - 1];
        let last = k == points.len();
        if point - p.start >= max || last {
            let end = if last {
                total
            } else {
                point
            };
            SilenceState {
                start: point,
                number: p.number + 1,
                chunks: p.chunks.push(
                    ChunkView {
                        path: chunk_path(platform, dir, p.number, format),
                        start: p.start,
                        duration: (end - p.start) as nat,
                        number: p.number,
                    },
                ),
            }
        } else {
            p
        }
    }
}

/// The pieces of a file cut at its points of silence; cut by time where
/// fewer than two points are known.
pub open spec fn silence_plan(
    platform: Platform,
    dir: Seq<char>,
    format: Seq<char>,
    points: Seq<nat>,
    total: nat,
    max: nat,
) -> Seq<ChunkView> {
    if points.len() < 2 {
        time_plan(platform, dir, format, total, max)
    } else {
        silence_fold(platform, dir, format, points, total, max, points.len() as int).chunks
    }
}

/// Plans the pieces of a file of `total_ms` milliseconds cut at its
/// points of silence, none shorter than `max_ms` but the last.
pub fn plan_by_silence(
    platform: Platform,
    dir: &str,
    format: &str,
    points: &Vec<u64>,
    total_ms: u64,
    max_ms: u64,
) -> (r: Vec<AudioChunk>)
    requires
        can_cut_at(time_views(points@), total_ms as nat, max_ms as nat),
    ensures
        chunk_views(r@) == silence_plan(
            platform,
            dir@,
            format@,
            time_views(points@),
            total_ms as nat,
            max_ms as nat,
        ),
{
    let n: usize = points.len();
    if n < 2 {
        return plan_by_time(platform, dir, format, total_ms, max_ms);
    }
    let ghost pv = time_views(points@);
    let mut chunks: Vec<AudioChunk> = Vec::new();
    let mut cur: u64 = 0;
    let mut number: usize = 1;
    let mut k: usize = 0;
    assert(chunk_views(chunks@) =~= Seq::<ChunkView>::empty());
    assert(pv.last() == points@.last());
    while k < n
        invariant
            n == points@.len(),
            n >= 2,
            0 <= k <= n,
            pv == time_views(points@),
            rising(pv),
            pv[n - 1] <= total_ms,
            forall|j: int| k <= j < n ==> cur <= #[trigger] pv[j],
            cur <= total_ms,
            number <= k + 1,
            ({
                let st = silence_fold(
                    platform,
                    dir@,
                    format@,
                    pv,
                    total_ms as nat,
                    max_ms as nat,
                    k as int,
                );
                &&& st.chunks == chunk_views(chunks@)
                &&& st.start == cur
                &&& (k < n ==> st.number == number)
            }),
        decreases n - k,
    {
        let point: u64 = points[k];
        assert(pv[k as int] == point);
        assert(pv[k as int] <= pv[n - 1]);
        let last: bool = k == n - 1;
        if point - cur >= max_ms || last {
            let end: u64 = if last {
                total_ms
            } else {
                point
            };
            let ghost before = chunk_views(chunks@);
            let chunk = make_chunk(platform, dir, format, cur, end - cur, number);
            chunks.push(chunk);
            proof {
                assert(chunk_views(chunks@) =~= before.push(chunk@));
            }
            cur = point;
            if !last {
                number = number + 1;
            }
        }
        k = k + 1;
    }
    chunks
}

fn cuttable(total_ms: u64, max_ms: u64) -> (b: bool)
    ensures
        b == can_cut(total_ms as nat, max_ms as nat),
{
    if max_ms == 0 {
        return false;
    }
    let wide: u128 = (total_ms as u128 + max_ms as u128 - 1) / (max_ms as u128);
    wide <= usize::MAX as u128
}

/// Plans the pieces of a file cut by time, where it can be cut.
pub fn try_plan_by_time(
    platform: Platform,
    dir: &str,
    format: &str,
    total_ms: u64,
    max_ms: u64,
) -> (r: Option<Vec<AudioChunk>>)
    ensures
        match r {
            Some(chunks) => can_cut(total_ms as nat, max_ms as nat) && chunk_views(chunks@)
                == time_plan(platform, dir@, format@, total_ms as nat, max_ms as nat),
            None => !can_cut(total_ms as nat, max_ms as nat),
        },
{
    if cuttable(total_ms, max_ms) {
        Some(plan_by_time(platform, dir, format, total_ms, max_ms))
    } else {
        None
    }
}

fn points_rise(points: &Vec<u64>) -> (b: bool)
    ensures
        b == rising(time_views(points@)),
{
    let n: usize = points.len();
    let ghost pv = time_views(points@);
    let mut k: usize = 1;
    while k < n
        invariant
            n == points@.len(),
            1 <= k,
            pv == time_views(points@),
            forall|i: int, j: int| 0 <= i < j < k && j < n ==> pv[i] <= pv[j],
        decreases n - k,
    {
        if points[k - 1] > points[k] {
            assert(!(pv[k - 1] <= pv[k as int]));
            return false;
        }
        proof {
            assert forall|i: int, j: int| 0 <= i < j < k + 1 && j < n implies pv[i] <= pv[j] by {
                if j == k && i < k - 1 {
                    assert(pv[i] <= pv[k - 1]);
                }
            }
        }
        k = k + 1;
    }
    true
}

/// Plans the pieces of a file cut at its points of silence, where it can be cut at them.
pub fn try_plan_by_silence(
    platform: Platform,
    dir: &str,
    format: &str,
    points: &Vec<u64>,
    total_ms: u64,
    max_ms: u64,
) -> (r: Option<Vec<AudioChunk>>)
    ensures
        match r {
            Some(chunks) => can_cut_at(time_views(points@), total_ms as nat, max_ms as nat)
                && chunk_views(chunks@) == silence_plan(
                platform,
                dir@,
                format@,
                time_views(points@),
                total_ms as nat,
                max_ms as nat,
            ),
            None => !can_cut_at(time_views(points@), total_ms as nat, max_ms as nat),
        },
{
    let n: usize = points.len();
    if !cuttable(total_ms, max_ms) || !points_rise(points) {
        return None;
    }
    if n > 0 {
        assert(time_views(points@).last() == points@[n - 1]);
        if points[n - 1] > total_ms {
            return None;
        }
    }
    Some(plan_by_silence(platform, dir, format, points, total_ms, max_ms))
}

} // verus!
