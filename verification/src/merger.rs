//! A merge session: files are parsed and added, put in order of their
//! sequence keys, and merged into one text.

use crate::clock::{clock_seconds, made_at, made_text};
use crate::decode::{decode_text, decoded};
use crate::detect::{detect_format, extract_sequence_number, format_of, sequence_number};
use crate::markdown::{md_segments, parse_markdown};
use crate::model::{
    file_views, segment_views, times_fit, ErrorKind, FileFormat, FileView, MergeError,
    MergeOptions, SegmentView, TranscriptionFile, TranscriptionSegment,
};
use crate::order::{arranged, index_ints, key_ints, stable_order, stable_order_of};
use crate::plain::{parse_txt, txt_segments};
use crate::render::{format_as_markdown, format_as_srt, format_as_txt, rendered, srt_text};
use crate::subtitle::{parse_srt, srt_segments};
use crate::timeline::{gathered, law_merge_is_stable, merge_segments, merged_segments};
use vstd::prelude::*;

verus! {

/// A file as it was read: its path, the file name and the extension
/// (without the dot) that the path ends in, if it has them, and its bytes.
#[derive(Debug)]
pub struct SourceFile {
    pub path: String,
    pub filename: Option<String>,
    pub extension: Option<String>,
    pub bytes: Vec<u8>,
}

/// A file as it was read, as a mathematical value.
pub struct SourceView {
    pub path: Seq<char>,
    pub filename: Option<Seq<char>>,
    pub extension: Option<Seq<char>>,
    pub bytes: Seq<u8>,
}

/// The view of an optional string.
pub open spec fn opt_text(s: Option<String>) -> Option<Seq<char>> {
    match s {
        Some(x) => Some(x@),
        None => None,
    }
}

impl View for SourceFile {
    type V = SourceView;

    open spec fn view(&self) -> SourceView {
        SourceView {
            path: self.path@,
            filename: opt_text(self.filename),
            extension: opt_text(self.extension),
            bytes: self.bytes@,
        }
    }
}

/// The views of a sequence of sources.
pub open spec fn source_views(s: Seq<SourceFile>) -> Seq<SourceView> {
    Seq::new(s.len(), |i: int| s[i]@)
}

/// The segments of `content` read in the format `format`, or why they cannot be had.
pub open spec fn segments_in(
    format: FileFormat,
    content: Seq<char>,
    filename: Seq<char>,
) -> Result<Seq<SegmentView>, ErrorKind> {
    match format {
        FileFormat::Srt => match srt_segments(content, filename) {
            Some(s) => Ok(s),
            None => Err(ErrorKind::MalformedTimestamp),
        },
        FileFormat::Txt => if times_fit(txt_segments(content, filename)) {
            Ok(txt_segments(content, filename))
        } else {
            Err(ErrorKind::TimeOverflow)
        },
        FileFormat::Markdown => if times_fit(md_segments(content, filename)) {
            Ok(md_segments(content, filename))
        } else {
            Err(ErrorKind::TimeOverflow)
        },
    }
}

/// What a source parses to: a path without a file name is refused; else
/// the bytes are decoded, the format is told from extension and content,
/// the sequence key is taken from the file name and the content is parsed.
pub open spec fn parsed(src: SourceView) -> Result<FileView, (ErrorKind, Seq<char>)> {
    match src.filename {
        None => Err((ErrorKind::InvalidFilename, src.path)),
        Some(name) => {
            let content = decoded(src.bytes);
            let format = format_of(src.extension, content);
            match segments_in(format, content, name) {
                Ok(segments) => Ok(
                    FileView {
                        path: src.path,
                        filename: name,
                        sequence_number: sequence_number(name),
                        format,
                        segments,
                    },
                ),
                Err(kind) => Err((kind, src.path)),
            }
        },
    }
}

/// The first index at or after `i` of a source that does not parse, or the length.
pub open spec fn first_failure(sources: Seq<SourceView>, i: int) -> int
    decreases sources.len() - i,
{
    if 0 <= i < sources.len() && parsed(sources[i]) is Ok {
        first_failure(sources, i + 1)
    } else {
        i
    }
}

/// The files that the first `k` sources parse to.
pub open spec fn parsed_files(sources: Seq<SourceView>, k: int) -> Seq<FileView> {
    Seq::new(k as nat, |i: int| parsed(sources[i])->Ok_0)
}

/// The key by which a file is put in order: its sequence key, and one
/// beyond every sequence key where it has none.
pub open spec fn file_key(f: FileView) -> int {
    match f.sequence_number {
        Some(n) => n as int,
        None => usize::MAX + 1,
    }
}

/// The keys of `files`.
pub open spec fn file_keys(files: Seq<FileView>) -> Seq<int> {
    Seq::new(files.len(), |i: int| file_key(files[i]))
}

/// `files` in stable order of their keys: files without a sequence key
/// come last, and files with the same key stay as they came.
pub open spec fn in_sequence(files: Seq<FileView>) -> Seq<FileView> {
    arranged(files, stable_order(file_keys(files), files.len() as int))
}

/// The number of segments in `files`.
pub open spec fn total_segments(files: Seq<FileView>, k: int) -> nat
    decreases k,
{
    if k <= 0 {
        0
    } else {
        total_segments(files, k - 1) + files[k - 1].segments.len()
    }
}

/// Parses one source.
pub fn parse_transcription_file(source: &SourceFile) -> (r: Result<TranscriptionFile, MergeError>)
    ensures
        match r {
            Ok(f) => parsed(source@) == Ok::<FileView, (ErrorKind, Seq<char>)>(f@),
            Err(e) => parsed(source@) == Err::<FileView, (ErrorKind, Seq<char>)>(e@),
        },
{
    let filename: &String = match &source.filename {
        Some(name) => name,
        None => {
            return Err(MergeError { kind: ErrorKind::InvalidFilename, path: source.path.clone() });
        },
    };
    let content: String = decode_text(source.bytes.as_slice());
    let format: FileFormat = match &source.extension {
        Some(e) => detect_format(Some(e.as_str()), content.as_str()),
        None => detect_format(None, content.as_str()),
    };
    let sequence: Option<usize> = extract_sequence_number(filename.as_str());
    let segments: Result<Vec<TranscriptionSegment>, ErrorKind> = match format {
        FileFormat::Srt => parse_srt(content.as_str(), filename.as_str()),
        FileFormat::Txt => parse_txt(content.as_str(), filename.as_str()),
        FileFormat::Markdown => parse_markdown(content.as_str(), filename.as_str()),
    };
    match segments {
        Ok(segments) => Ok(
            TranscriptionFile {
                path: source.path.clone(),
                filename: filename.clone(),
                sequence_number: sequence,
                format,
                segments,
            },
        ),
        Err(kind) => Err(MergeError { kind, path: source.path.clone() }),
    }
}

/// Puts files in stable order of their sequence keys, files without one last.
pub fn sort_files(files: &Vec<TranscriptionFile>) -> (r: Vec<TranscriptionFile>)
    ensures
        file_views(r@) == in_sequence(file_views(files@)),
{
    let n: usize = files.len();
    let mut keys: Vec<u128> = Vec::new();
    let mut i: usize = 0;
    while i < n
        invariant
            n == files@.len(),
            0 <= i <= n,
            keys@.len() == i,
            forall|j: int| 0 <= j < i ==> #[trigger] keys@[j] as int == file_key(files@[j]@),
        decreases n - i,
    {
        let key: u128 = match files[i].sequence_number {
            Some(v) => v as u128,
            None => usize::MAX as u128 + 1,
        };
        keys.push(key);
        i = i + 1;
    }
    assert(key_ints(keys@) =~= file_keys(file_views(files@)));
    let order: Vec<usize> = stable_order_of(&keys);
    let mut out: Vec<TranscriptionFile> = Vec::new();
    let ghost want = arranged(file_views(files@), index_ints(order@));
    let mut k: usize = 0;
    while k < n
        invariant
            n == files@.len(),
            n == order@.len(),
            0 <= k <= n,
            forall|i: int| 0 <= i < order@.len() ==> #[trigger] order@[i] < n,
            want == arranged(file_views(files@), index_ints(order@)),
            file_views(out@) == want.take(k as int),
        decreases n - k,
    {
        let ghost before = file_views(out@);
        let item = files[order[k]].clone();
        out.push(item);
        proof {
            assert(file_views(out@) =~= before.push(item@));
            assert(want[k as int] == item@);
            assert(want.take(k + 1) =~= before.push(item@));
        }
        k = k + 1;
    }
    proof {
        assert(want.take(n as int) =~= want);
    }
    out
}

/// A merge session.
pub struct TranscriptionMerger {
    files: Vec<TranscriptionFile>,
    merge_options: MergeOptions,
}

impl TranscriptionMerger {
    /// The files of the session, in their order.
    pub closed spec fn files(&self) -> Seq<FileView> {
        file_views(self.files@)
    }

    /// The options of the session.
    pub closed spec fn options(&self) -> MergeOptions {
        self.merge_options
    }

    /// A session without files.
    pub fn new(options: MergeOptions) -> (r: Self)
        ensures
            r.files() == Seq::<FileView>::empty(),
            r.options() == options,
    {
        let r = TranscriptionMerger { files: Vec::new(), merge_options: options };
        assert(file_views(r.files@) =~= Seq::<FileView>::empty());
        r
    }

    /// Parses one source and adds its file behind the files of the session;
    /// where the source does not parse, its error is returned and nothing is added.
    pub fn add_file(&mut self, source: &SourceFile) -> (r: Result<(), MergeError>)
        ensures
            final(self).options() == old(self).options(),
            match r {
                Ok(_) => parsed(source@) matches Ok(f) && final(self).files() == old(self).files().push(
                    f,
                ),
                Err(e) => parsed(source@) == Err::<FileView, (ErrorKind, Seq<char>)>(e@)
                    && final(self).files() == old(self).files(),
            },
    {
        let ghost before = file_views(self.files@);
        match parse_transcription_file(source) {
            Ok(file) => {
                self.files.push(file);
                proof {
                    assert(file_views(self.files@) =~= before.push(file@));
                }
                Ok(())
            },
            Err(e) => Err(e),
        }
    }

    /// Puts the files of the session in stable order of their sequence
    /// keys, files without one last.
    pub fn put_in_sequence(&mut self)
        ensures
            final(self).options() == old(self).options(),
            final(self).files() == in_sequence(old(self).files()),
    {
        self.files = sort_files(&self.files);
    }

    /// Parses the sources in turn and adds their files.
    ///
    /// Where all of them parse, the files of the session, old and new, are
    /// then put in stable order of their sequence keys. At the first source
    /// that does not parse, its error is returned; the files of the sources
    /// before it stay added, behind the old ones, and nothing is put in order.
    /// This is `add_file` for each source in turn and then `put_in_sequence`.
    pub fn add_files(&mut self, sources: Vec<SourceFile>) -> (r: Result<(), MergeError>)
        ensures
            final(self).options() == old(self).options(),
            match r {
                Ok(_) => {
                    let all = source_views(sources@);
                    first_failure(all, 0) == all.len() && final(self).files() == in_sequence(
                        old(self).files() + parsed_files(all, all.len() as int),
                    )
                },
                Err(e) => {
                    let all = source_views(sources@);
                    let k = first_failure(all, 0);
                    0 <= k < all.len() && parsed(all[k]) == Err::<FileView, (ErrorKind, Seq<char>)>(
                        e@,
                    ) && final(self).files() == old(self).files() + parsed_files(all, k)
                },
            },
    {
        let n: usize = sources.len();
        let ghost all = source_views(sources@);
        let ghost start = file_views(self.files@);
        let mut k: usize = 0;
        assert(file_views(self.files@) =~= start + parsed_files(all, 0));
        while k < n
            invariant
                n == sources@.len(),
                0 <= k <= n,
                all == source_views(sources@),
                start == old(self).files(),
                self.merge_options == old(self).merge_options,
                first_failure(all, k as int) == first_failure(all, 0),
                file_views(self.files@) == start + parsed_files(all, k as int),
            decreases n - k,
        {
            assert(all[k as int] == sources@[k as int]@);
            let ghost before = file_views(self.files@);
            match parse_transcription_file(&sources[k]) {
                Ok(file) => {
                    self.files.push(file);
                    proof {
                        assert(file_views(self.files@) =~= before.push(file@));
                        assert(parsed_files(all, k + 1) =~= parsed_files(all, k as int).push(file@));
                        assert(before.push(file@) =~= start + parsed_files(all, k + 1));
                    }
                },
                Err(e) => {
                    proof {
                        assert(parsed(all[k as int]) is Err);
                        assert(first_failure(all, k as int) == k);
                        assert(self.files() == old(self).files() + parsed_files(all, k as int));
                    }
                    return Err(e);
                },
            }
            k = k + 1;
        }
        proof {
            assert(first_failure(all, n as int) == n);
        }
        self.files = sort_files(&self.files);
        Ok(())
    }

    /// Merges the files of the session into one text.
    ///
    /// The text is the one of `merge_at` for the time that the clock tells,
    /// which only Markdown shows: it is written as `made_text` says for
    /// what the clock told, and as `unknown` where the clock tells no time.
    pub fn merge(&self) -> (r: Result<String, ErrorKind>)
        ensures
            r is Ok <==> times_fit(
                gathered(
                    self.files(),
                    self.options().time_offset_ms as nat,
                    self.files().len() as int,
                ),
            ),
            match r {
                Ok(s) => exists|seconds: Option<u64>|
                    s@ == rendered(
                        merged_segments(self.files(), self.options().time_offset_ms as nat),
                        self.options(),
                        #[trigger] made_text(seconds),
                    ),
                Err(e) => e == ErrorKind::TimeOverflow && !times_fit(
                    gathered(
                        self.files(),
                        self.options().time_offset_ms as nat,
                        self.files().len() as int,
                    ),
                ),
            },
    {
        let seconds: Option<u64> = match self.merge_options.output_format {
            FileFormat::Markdown => clock_seconds(),
            _ => None,
        };
        let made: String = made_at(seconds);
        let r = self.merge_at(made.as_str());
        proof {
            if r is Ok {
                assert(r->Ok_0@ == rendered(
                    merged_segments(self.files(), self.options().time_offset_ms as nat),
                    self.options(),
                    made_text(seconds),
                ));
            }
        }
        r
    }

    /// Merges the files of the session into one text, made at the time
    /// that `made` tells.
    ///
    /// Each file is shifted behind the one before it, the segments are put
    /// in stable order of their starts and written in the format of the
    /// options. `TimeOverflow` where a shifted time does not fit in 64 bits.
    pub fn merge_at(&self, made: &str) -> (r: Result<String, ErrorKind>)
        ensures
            r is Ok <==> times_fit(
                gathered(
                    self.files(),
                    self.options().time_offset_ms as nat,
                    self.files().len() as int,
                ),
            ),
            match r {
                Ok(s) => s@ == rendered(
                    merged_segments(self.files(), self.options().time_offset_ms as nat),
                    self.options(),
                    made@,
                ),
                Err(e) => e == ErrorKind::TimeOverflow && !times_fit(
                    gathered(
                        self.files(),
                        self.options().time_offset_ms as nat,
                        self.files().len() as int,
                    ),
                ),
            },
    {
        let segments: Vec<TranscriptionSegment> = match merge_segments(
            &self.files,
            self.merge_options.time_offset_ms,
        ) {
            Ok(v) => v,
            Err(e) => {
                return Err(e);
            },
        };
        Ok(render(&segments, &self.merge_options, made))
    }

    /// The number of files in the session.
    pub fn get_file_count(&self) -> (r: usize)
        ensures
            r == self.files().len(),
    {
        self.files.len()
    }

    /// The number of segments in the files of the session, where it fits.
    pub fn try_total_segments(&self) -> (r: Option<usize>)
        ensures
            match r {
                Some(v) => v == total_segments(self.files(), self.files().len() as int),
                None => total_segments(self.files(), self.files().len() as int) > usize::MAX,
            },
    {
        let n: usize = self.files.len();
        let ghost fv = file_views(self.files@);
        let mut total: usize = 0;
        let mut k: usize = 0;
        while k < n
            invariant
                n == self.files@.len(),
                0 <= k <= n,
                fv == file_views(self.files@),
                total == total_segments(fv, k as int),
            decreases n - k,
        {
            assert(fv[k as int] == self.files@[k as int]@);
            total = match total.checked_add(self.files[k].segments.len()) {
                Some(t) => t,
                None => {
                    proof {
                        lemma_total_grows(fv, k + 1, n as int);
                    }
                    return None;
                },
            };
            k = k + 1;
        }
        Some(total)
    }

    /// The number of segments in the files of the session, which has to fit.
    pub fn get_total_segments(&self) -> (r: usize)
        requires
            total_segments(self.files(), self.files().len() as int) <= usize::MAX,
        ensures
            r == total_segments(self.files(), self.files().len() as int),
    {
        match self.try_total_segments() {
            Some(total) => total,
            None => 0,
        }
    }
}

/// The number of segments does not fall from file to file.
pub proof fn lemma_total_grows(files: Seq<FileView>, k: int, n: int)
    requires
        0 <= k <= n,
    ensures
        total_segments(files, k) <= total_segments(files, n),
    decreases n - k,
{
    if k < n {
        lemma_total_grows(files, k, n - 1);
    }
}

/// Writes segments in the format that `options` names.
pub fn render(
    segments: &Vec<TranscriptionSegment>,
    options: &MergeOptions,
    made: &str,
) -> (r: String)
    ensures
        r@ == rendered(segment_views(segments@), *options, made@),
{
    match options.output_format {
        FileFormat::Srt => format_as_srt(segments, options.add_file_markers),
        FileFormat::Txt => format_as_txt(
            segments,
            !options.remove_timestamps,
            options.add_file_markers,
        ),
        FileFormat::Markdown => format_as_markdown(
            segments,
            !options.remove_timestamps,
            options.add_file_markers,
            made,
        ),
    }
}

/// As many segments are gathered from files as the files hold.
pub proof fn lemma_gathered_count(files: Seq<FileView>, base: nat, k: int)
    requires
        0 <= k,
    ensures
        gathered(files, base, k).len() == total_segments(files, k),
    decreases k,
{
    if k > 0 {
        lemma_gathered_count(files, base, k - 1);
    }
}

/// Merging loses no segment and adds none: the merged timeline holds as
/// many segments as the files hold together.
pub proof fn law_merge_keeps_every_segment(files: Seq<FileView>, base: nat)
    ensures
        merged_segments(files, base).len() == total_segments(files, files.len() as int),
{
    lemma_gathered_count(files, base, files.len() as int);
    law_merge_is_stable(files, base);
}

/// Files merged to subtitles give one block for each of their segments,
/// numbered from one in the order of the merged timeline.
pub proof fn law_one_block_per_segment(
    files: Seq<FileView>,
    options: MergeOptions,
    made: Seq<char>,
)
    requires
        options.output_format == FileFormat::Srt,
    ensures
        rendered(merged_segments(files, options.time_offset_ms as nat), options, made)
            == srt_text(
            merged_segments(files, options.time_offset_ms as nat),
            options.add_file_markers,
            total_segments(files, files.len() as int) as int,
        ),
{
    law_merge_keeps_every_segment(files, options.time_offset_ms as nat);
}

} // verus!
