//! The data that a merge works on: segments, files, options and errors.
//! All times are whole milliseconds.

use crate::text::is_trimmed;
use vstd::prelude::*;

verus! {

/// The format of a transcript, read or written.
#[derive(Clone, Copy, Debug, PartialEq, Eq, Structural)]
pub enum FileFormat {
    /// Plain text, one segment per line.
    Txt,
    /// Subtitle blocks.
    Srt,
    /// Markdown.
    Markdown,
}

/// Why a merge failed.
#[derive(Clone, Copy, Debug, PartialEq, Eq, Structural)]
pub enum ErrorKind {
    /// The path has no file name.
    InvalidFilename,
    /// The file could not be read.
    IoFailure,
    /// A subtitle timecode is not three numbers with colons between them.
    MalformedTimestamp,
    /// A time does not fit in 64 bits of milliseconds.
    TimeOverflow,
}

/// A failure and the file it came from.
#[derive(Debug)]
pub struct MergeError {
    pub kind: ErrorKind,
    pub path: String,
}

impl View for MergeError {
    type V = (ErrorKind, Seq<char>);

    open spec fn view(&self) -> (ErrorKind, Seq<char>) {
        (self.kind, self.path@)
    }
}

/// What a failure of a kind says.
pub open spec fn kind_text(kind: ErrorKind) -> Seq<char> {
    match kind {
        ErrorKind::InvalidFilename => "Invalid filename"@,
        ErrorKind::IoFailure => "The file could not be read"@,
        ErrorKind::MalformedTimestamp => "Invalid timestamp format"@,
        ErrorKind::TimeOverflow => "A time is out of range"@,
    }
}

impl ErrorKind {
    /// What a failure of this kind says.
    pub fn message(&self) -> (r: String)
        ensures
            r@ == kind_text(*self),
    {
        match self {
            ErrorKind::InvalidFilename => "Invalid filename".to_owned(),
            ErrorKind::IoFailure => "The file could not be read".to_owned(),
            ErrorKind::MalformedTimestamp => "Invalid timestamp format".to_owned(),
            ErrorKind::TimeOverflow => "A time is out of range".to_owned(),
        }
    }
}

impl MergeError {
    /// The file and what went wrong with it: the path, a colon and a
    /// space, and what the kind of failure says.
    pub fn message(&self) -> (r: String)
        ensures
            r@ == self.path@ + seq![':', ' '] + kind_text(self.kind),
    {
        let mut out: String = self.path.clone();
        out.push(':');
        out.push(' ');
        let said: String = self.kind.message();
        out.append(said.as_str());
        proof {
            assert(out@ =~= self.path@ + seq![':', ' '] + kind_text(self.kind));
        }
        out
    }
}

/// One timed unit of transcript text, as a mathematical value.
pub struct SegmentView {
    pub start: nat,
    pub end: Option<nat>,
    pub text: Seq<char>,
    pub file_index: nat,
    pub filename: Seq<char>,
}

/// One timed unit of transcript text.
#[derive(Debug)]
pub struct TranscriptionSegment {
    /// Start, in milliseconds.
    pub start_ms: u64,
    /// End, in milliseconds, where known.
    pub end_ms: Option<u64>,
    pub text: String,
    /// The place in the source file that the segment came from.
    pub file_index: usize,
    pub original_filename: String,
}

impl View for TranscriptionSegment {
    type V = SegmentView;

    open spec fn view(&self) -> SegmentView {
        SegmentView {
            start: self.start_ms as nat,
            end: match self.end_ms {
                Some(e) => Some(e as nat),
                None => None,
            },
            text: self.text@,
            file_index: self.file_index as nat,
            filename: self.original_filename@,
        }
    }
}

impl Clone for TranscriptionSegment {
    fn clone(&self) -> (r: Self)
        ensures
            r@ == self@,
    {
        TranscriptionSegment {
            start_ms: self.start_ms,
            end_ms: self.end_ms,
            text: self.text.clone(),
            file_index: self.file_index,
            original_filename: self.original_filename.clone(),
        }
    }
}

/// The views of a sequence of segments.
pub open spec fn segment_views(s: Seq<TranscriptionSegment>) -> Seq<SegmentView> {
    Seq::new(s.len(), |i: int| s[i]@)
}

/// Whether the segments are as segments of one file are: each has text
/// that is not empty and trimmed and bears the name of the file, and their
/// places in the file rise from one to the next.
pub open spec fn in_file_order(s: Seq<SegmentView>, filename: Seq<char>) -> bool {
    &&& forall|i: int|
        0 <= i < s.len() ==> is_trimmed((#[trigger] s[i]).text) && s[i].filename
            == filename
    &&& forall|i: int, j: int|
        0 <= i < j < s.len() ==> (#[trigger] s[i]).file_index < (#[trigger] s[j]).file_index
}

/// Whether a segment does not end before it starts.
pub open spec fn ends_in_time(s: SegmentView) -> bool {
    match s.end {
        Some(e) => s.start <= e,
        None => true,
    }
}

/// Whether the times of `s` fit in 64 bits.
pub open spec fn segment_fits(s: SegmentView) -> bool {
    s.start <= u64::MAX && (s.end matches Some(e) ==> e <= u64::MAX)
}

/// Whether every time of `s` fits in 64 bits.
pub open spec fn times_fit(s: Seq<SegmentView>) -> bool {
    forall|i: int| 0 <= i < s.len() ==> segment_fits(#[trigger] s[i])
}

/// The times of segments that are held fit.
pub proof fn lemma_views_fit(s: Seq<TranscriptionSegment>)
    ensures
        times_fit(segment_views(s)),
{
}

/// Segments whose times do not all fit do not fit behind others either.
pub proof fn lemma_unfit_append(x: Seq<SegmentView>, y: Seq<SegmentView>)
    requires
        !times_fit(y),
    ensures
        !times_fit(x + y),
{
    let i = choose|i: int| 0 <= i < y.len() && !segment_fits(#[trigger] y[i]);
    assert((x + y)[x.len() + i] == y[i]);
}

/// Where the first `n` segments do not all fit, the whole does not.
pub proof fn lemma_unfit_prefix(x: Seq<SegmentView>, n: int)
    requires
        0 <= n <= x.len(),
        !times_fit(x.take(n)),
    ensures
        !times_fit(x),
{
    let i = choose|i: int| 0 <= i < x.take(n).len() && !segment_fits(#[trigger] x.take(n)[i]);
    assert(x[i] == x.take(n)[i]);
}

/// A parsed transcript file, as a mathematical value.
pub struct FileView {
    pub path: Seq<char>,
    pub filename: Seq<char>,
    pub sequence_number: Option<nat>,
    pub format: FileFormat,
    pub segments: Seq<SegmentView>,
}

/// A parsed transcript file.
#[derive(Debug)]
pub struct TranscriptionFile {
    pub path: String,
    pub filename: String,
    /// The sequence key taken from the file name, if it has one.
    pub sequence_number: Option<usize>,
    pub format: FileFormat,
    pub segments: Vec<TranscriptionSegment>,
}

impl View for TranscriptionFile {
    type V = FileView;

    open spec fn view(&self) -> FileView {
        FileView {
            path: self.path@,
            filename: self.filename@,
            sequence_number: match self.sequence_number {
                Some(n) => Some(n as nat),
                None => None,
            },
            format: self.format,
            segments: segment_views(self.segments@),
        }
    }
}

impl Clone for TranscriptionFile {
    fn clone(&self) -> (r: Self)
        ensures
            r@ == self@,
    {
        let n: usize = self.segments.len();
        let mut segments: Vec<TranscriptionSegment> = Vec::new();
        let mut i: usize = 0;
        while i < n
            invariant
                n == self.segments@.len(),
                0 <= i <= n,
                segment_views(segments@) == segment_views(self.segments@).take(i as int),
            decreases n - i,
        {
            let ghost before = segment_views(segments@);
            let s = self.segments[i].clone();
            segments.push(s);
            proof {
                assert(segment_views(segments@) =~= before.push(s@));
                assert(segment_views(self.segments@)[i as int] == s@);
                assert(segment_views(self.segments@).take(i + 1) =~= before.push(s@));
            }
            i = i + 1;
        }
        proof {
            assert(segment_views(self.segments@).take(n as int) =~= segment_views(self.segments@));
        }
        TranscriptionFile {
            path: self.path.clone(),
            filename: self.filename.clone(),
            sequence_number: self.sequence_number,
            format: self.format,
            segments,
        }
    }
}

/// The views of a sequence of files.
pub open spec fn file_views(s: Seq<TranscriptionFile>) -> Seq<FileView> {
    Seq::new(s.len(), |i: int| s[i]@)
}

/// How to merge and what to write.
#[derive(Clone, Copy, Debug)]
pub struct MergeOptions {
    pub output_format: FileFormat,
    /// Where the merged timeline starts, in milliseconds.
    pub time_offset_ms: u64,
    /// Leave timestamps out of plain text and Markdown.
    pub remove_timestamps: bool,
    /// Say which file each segment came from.
    pub add_file_markers: bool,
}

impl Default for MergeOptions {
    fn default() -> (r: Self)
        ensures
            r.output_format == FileFormat::Txt,
            r.time_offset_ms == 0,
            !r.remove_timestamps,
            r.add_file_markers,
    {
        MergeOptions {
            output_format: FileFormat::Txt,
            time_offset_ms: 0,
            remove_timestamps: false,
            add_file_markers: true,
        }
    }
}

} // verus!
