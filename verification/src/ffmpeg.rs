//! Where the media tool lives, where it is fetched from and what it says
//! of the duration of a file. The file system and the network are the
//! caller's part: what was found there comes in as plain values.

use crate::render::push_str;
use crate::subtitle::{parse_srt_timestamp, timecode};
use crate::text::{
    chars_of, decimal, find_char, find_char_from, find_part, find_part_from, lines, padded,
    push_decimal, push_padded, split_lines, stands_at, stands_here, string_of, trim, trim_slice,
    views,
};
use vstd::slice::slice_subrange;
use vstd::prelude::*;

verus! {

/// The system that the program runs on.
#[derive(Clone, Copy, Debug, PartialEq, Eq, Structural)]
pub enum Platform {
    Windows,
    MacOs,
    Linux,
}

/// Why the media tool cannot be had.
#[derive(Clone, Copy, Debug, PartialEq, Eq, Structural)]
pub enum FfmpegError {
    /// The directory for the program's data is not known.
    NoAppDataDir,
    /// The tool is neither installed by the program nor by the system.
    NotFound,
}

/// What a failure to have the media tool says.
pub open spec fn ffmpeg_error_text(e: FfmpegError) -> Seq<char> {
    match e {
        FfmpegError::NoAppDataDir => "Could not determine app data directory"@,
        FfmpegError::NotFound => "FFmpeg not found"@,
    }
}

impl FfmpegError {
    /// What the error says.
    pub fn message(&self) -> (r: String)
        ensures
            r@ == ffmpeg_error_text(*self),
    {
        match self {
            FfmpegError::NoAppDataDir => "Could not determine app data directory".to_owned(),
            FfmpegError::NotFound => "FFmpeg not found".to_owned(),
        }
    }
}

/// The character between the parts of a path.
pub open spec fn separator(platform: Platform) -> char {
    if platform == Platform::Windows {
        '\\'
    } else {
        '/'
    }
}

/// Whether a path ends in a separator: a slash, or on Windows a backslash too.
pub open spec fn ends_in_separator(platform: Platform, path: Seq<char>) -> bool {
    path.len() > 0 && (path.last() == '/' || (platform == Platform::Windows && path.last()
        == '\\'))
}

/// `part` put behind `base`, with a separator between them unless `base`
/// is empty or ends in one.
pub open spec fn joined(platform: Platform, base: Seq<char>, part: Seq<char>) -> Seq<char> {
    if base.len() == 0 || ends_in_separator(platform, base) {
        base + part
    } else {
        base.push(separator(platform)) + part
    }
}

/// The directory for the program's data under `home`: the directory that the
/// system names for it, `APPDATA` on Windows and `HOME` elsewhere.
pub open spec fn app_data_dir_under(platform: Platform, home: Seq<char>) -> Seq<char> {
    match platform {
        Platform::Windows => joined(platform, home, "TranscriptionAssistant"@),
        Platform::MacOs => joined(
            platform,
            joined(platform, joined(platform, home, "Library"@), "Application Support"@),
            "TranscriptionAssistant"@,
        ),
        Platform::Linux => joined(
            platform,
            joined(platform, home, ".config"@),
            "transcription-assistant"@,
        ),
    }
}

/// The name of the tool's file.
pub open spec fn binary_name(platform: Platform) -> Seq<char> {
    if platform == Platform::Windows {
        "ffmpeg.exe"@
    } else {
        "ffmpeg"@
    }
}

/// Where the program keeps its own copy of the tool.
pub open spec fn bundled_path(platform: Platform, app_data_dir: Seq<char>) -> Seq<char> {
    joined(platform, joined(platform, app_data_dir, "ffmpeg"@), binary_name(platform))
}

/// Where the tool is fetched from.
pub open spec fn download_url(platform: Platform) -> Seq<char> {
    match platform {
        Platform::Windows => "https://github.com/BtbN/FFmpeg-Builds/releases/download/latest/ffmpeg-master-latest-win64-gpl.zip"@,
        Platform::MacOs => "https://evermeet.cx/ffmpeg/ffmpeg-6.0.zip"@,
        Platform::Linux => "https://github.com/BtbN/FFmpeg-Builds/releases/download/latest/ffmpeg-master-latest-linux64-gpl.tar.xz"@,
    }
}

/// Puts `part` behind `base`.
pub fn join_path(platform: Platform, base: &str, part: &str) -> (r: String)
    ensures
        r@ == joined(platform, base@, part@),
{
    let mut out: Vec<char> = chars_of(base);
    let n: usize = out.len();
    let windows: bool = match platform {
        Platform::Windows => true,
        _ => false,
    };
    if n > 0 && !(out[n - 1] == '/' || (windows && out[n - 1] == '\\')) {
        if windows {
            out.push('\\');
        } else {
            out.push('/');
        }
    }
    push_str(&mut out, part);
    string_of(out.as_slice())
}

/// The directory for the program's data, under the directory `home` that
/// the system names for it.
pub fn get_app_data_dir(platform: Platform, home: Option<&str>) -> (r: Result<String, FfmpegError>)
    ensures
        match home {
            Some(h) => r matches Ok(dir) && dir@ == app_data_dir_under(platform, h@),
            None => r == Err::<String, FfmpegError>(FfmpegError::NoAppDataDir),
        },
{
    let h: &str = match home {
        Some(h) => h,
        None => {
            return Err(FfmpegError::NoAppDataDir);
        },
    };
    match platform {
        Platform::Windows => Ok(join_path(platform, h, "TranscriptionAssistant")),
        Platform::MacOs => {
            let library: String = join_path(platform, h, "Library");
            let support: String = join_path(platform, library.as_str(), "Application Support");
            Ok(join_path(platform, support.as_str(), "TranscriptionAssistant"))
        },
        Platform::Linux => {
            let config: String = join_path(platform, h, ".config");
            Ok(join_path(platform, config.as_str(), "transcription-assistant"))
        },
    }
}

/// Knows where the media tool is kept and how to get it.
#[derive(Debug)]
pub struct FFmpegManager {
    platform: Platform,
    ffmpeg_path: String,
    app_data_dir: String,
}

impl FFmpegManager {
    /// The system that the manager works for.
    pub closed spec fn platform(&self) -> Platform {
        self.platform
    }

    /// Where the program keeps its own copy of the tool.
    pub closed spec fn ffmpeg_path(&self) -> Seq<char> {
        self.ffmpeg_path@
    }

    /// The directory for the program's data.
    pub closed spec fn app_data_dir(&self) -> Seq<char> {
        self.app_data_dir@
    }

    /// A manager for `platform`, with the program's data under `home`.
    /// `NoAppDataDir` where the system names no such directory.
    pub fn new(platform: Platform, home: Option<&str>) -> (r: Result<Self, FfmpegError>)
        ensures
            match home {
                Some(h) => r matches Ok(m) && m.platform() == platform && m.app_data_dir()
                    == app_data_dir_under(platform, h@) && m.ffmpeg_path() == bundled_path(
                    platform,
                    m.app_data_dir(),
                ),
                None => r matches Err(e) && e == FfmpegError::NoAppDataDir,
            },
    {
        let app_data_dir: String = match get_app_data_dir(platform, home) {
            Ok(dir) => dir,
            Err(e) => {
                return Err(e);
            },
        };
        let ffmpeg_dir: String = join_path(platform, app_data_dir.as_str(), "ffmpeg");
        let ffmpeg_path: String = match platform {
            Platform::Windows => join_path(platform, ffmpeg_dir.as_str(), "ffmpeg.exe"),
            _ => join_path(platform, ffmpeg_dir.as_str(), "ffmpeg"),
        };
        Ok(FFmpegManager { platform, ffmpeg_path, app_data_dir })
    }

    /// Where the program keeps its own copy of the tool.
    pub fn bundled(&self) -> (r: &str)
        ensures
            r@ == self.ffmpeg_path(),
    {
        self.ffmpeg_path.as_str()
    }

    /// The directory for the program's data.
    pub fn data_dir(&self) -> (r: &str)
        ensures
            r@ == self.app_data_dir(),
    {
        self.app_data_dir.as_str()
    }

    /// Whether the tool can be used: the program's own copy decides where
    /// there is one, else the system's, and without either there is none.
    /// `bundled_works` and `system_works` say whether the copy, where it
    /// exists, runs.
    pub fn is_ffmpeg_available(
        &self,
        bundled_works: Option<bool>,
        system_works: Option<bool>,
    ) -> (r: bool)
        ensures
            r == match bundled_works {
                Some(b) => b,
                None => match system_works {
                    Some(s) => s,
                    None => false,
                },
            },
    {
        match bundled_works {
            Some(b) => b,
            None => match system_works {
                Some(s) => s,
                None => false,
            },
        }
    }

    /// Whether the tool has to be fetched: it cannot be used and the system has none.
    pub fn needs_download(&self, available: bool, system_found: bool) -> (r: bool)
        ensures
            r == (!available && !system_found),
    {
        !available && !system_found
    }

    /// The path of the tool: the program's own copy where it exists, else
    /// the system's, else `NotFound`.
    pub fn get_ffmpeg_path(
        &self,
        bundled_exists: bool,
        system_path: Option<String>,
    ) -> (r: Result<String, FfmpegError>)
        ensures
            bundled_exists ==> (r matches Ok(p) && p@ == self.ffmpeg_path()),
            !bundled_exists ==> (match system_path {
                Some(s) => r matches Ok(p) && p@ == s@,
                None => r matches Err(e) && e == FfmpegError::NotFound,
            }),
    {
        if bundled_exists {
            return Ok(self.ffmpeg_path.clone());
        }
        match system_path {
            Some(s) => Ok(s),
            None => Err(FfmpegError::NotFound),
        }
    }

    /// Where the tool is fetched from.
    pub fn get_download_url(&self) -> (r: String)
        ensures
            r@ == download_url(self.platform()),
    {
        match self.platform {
            Platform::Windows => "https://github.com/BtbN/FFmpeg-Builds/releases/download/latest/ffmpeg-master-latest-win64-gpl.zip".to_owned(),
            Platform::MacOs => "https://evermeet.cx/ffmpeg/ffmpeg-6.0.zip".to_owned(),
            Platform::Linux => "https://github.com/BtbN/FFmpeg-Builds/releases/download/latest/ffmpeg-master-latest-linux64-gpl.tar.xz".to_owned(),
        }
    }
}

/// Whether a file of an archive is the tool, by its name.
pub fn is_ffmpeg_binary(name: &str) -> (r: bool)
    ensures
        r == (name@ == "ffmpeg"@ || name@ == "ffmpeg.exe"@),
{
    let n: String = name.to_owned();
    n == "ffmpeg".to_owned() || n == "ffmpeg.exe".to_owned()
}

/// The label that the media tool puts before the duration of a file.
pub open spec fn duration_label() -> Seq<char> {
    seq!['D', 'u', 'r', 'a', 't', 'i', 'o', 'n', ':']
}

/// A duration written as hours, minutes and seconds with colons between
/// them and a dot before the fraction, in milliseconds, where it can be read.
pub open spec fn clock_duration(t: Seq<char>) -> Option<nat> {
    if find_char(t, ',', 0) < t.len() {
        None
    } else {
        timecode(t)
    }
}

/// What a line says of the duration: what stands behind the first label,
/// up to the next label or the first comma, trimmed; nothing without a label.
pub open spec fn duration_text(line: Seq<char>) -> Seq<char> {
    let at = find_part(line, duration_label(), 0);
    let from = if at < line.len() {
        at + duration_label().len()
    } else {
        line.len() as int
    };
    let rest = line.subrange(from, line.len() as int);
    let part = rest.subrange(0, find_part(rest, duration_label(), 0));
    trim(part.subrange(0, find_char(part, ',', 0)))
}

/// Whether a line tells the duration: it starts with the label, whitespace
/// aside, or, where `anywhere` says so, it holds the label.
pub open spec fn tells_duration(line: Seq<char>, anywhere: bool) -> bool {
    if anywhere {
        find_part(trim(line), duration_label(), 0) < trim(line).len()
    } else {
        stands_at(trim(line), 0, duration_label())
    }
}

/// The first line at or after number `i` that tells the duration, or the number of lines.
pub open spec fn duration_line(ls: Seq<Seq<char>>, anywhere: bool, i: int) -> int
    decreases ls.len() - i,
{
    if 0 <= i < ls.len() && !tells_duration(ls[i], anywhere) {
        duration_line(ls, anywhere, i + 1)
    } else {
        i
    }
}

/// The duration that the output of the media tool tells, in milliseconds:
/// that of the first line that tells one, zero where it cannot be read,
/// and none where no line tells one.
pub open spec fn stated_duration(output: Seq<char>, anywhere: bool) -> Option<nat> {
    let ls = lines(output);
    let at = duration_line(ls, anywhere, 0);
    if at < ls.len() {
        match clock_duration(duration_text(ls[at])) {
            Some(v) => Some(v),
            None => Some(0nat),
        }
    } else {
        None
    }
}

/// Reads a duration written as `HH:MM:SS.ss`. `None` where it cannot be read.
pub fn parse_duration_string(duration: &str) -> (r: Option<u64>)
    ensures
        match r {
            Some(v) => clock_duration(duration@) == Some(v as nat),
            None => clock_duration(duration@) is None,
        },
{
    let chars: Vec<char> = chars_of(duration);
    if find_char_from(chars.as_slice(), ',', 0) < chars.len() {
        return None;
    }
    parse_srt_timestamp(chars.as_slice())
}

fn line_tells_duration(line: &[char], label: &[char], anywhere: bool) -> (b: bool)
    requires
        label@ == duration_label(),
    ensures
        b == tells_duration(line@, anywhere),
{
    let t: &[char] = trim_slice(line);
    if anywhere {
        find_part_from(t, label, 0) < t.len()
    } else {
        stands_here(t, 0, label)
    }
}

fn read_duration_of(line: &[char], label: &[char]) -> (r: u64)
    requires
        label@ == duration_label(),
    ensures
        r == match clock_duration(duration_text(line@)) {
            Some(v) => v,
            None => 0nat,
        },
{
    let n: usize = line.len();
    let at: usize = find_part_from(line, label, 0);
    let from: usize = if at < n {
        at + 9
    } else {
        n
    };
    let rest: &[char] = slice_subrange(line, from, n);
    let part: &[char] = slice_subrange(rest, 0, find_part_from(rest, label, 0));
    let text: &[char] = trim_slice(slice_subrange(part, 0, find_char_from(part, ',', 0)));
    let t: String = string_of(text);
    match parse_duration_string(t.as_str()) {
        Some(v) => v,
        None => 0,
    }
}

/// Reads the duration of a file from what the media tool wrote: from the
/// first line that starts with the label, or, where `anywhere` says so,
/// from the first line that holds it.
pub fn duration_in(output: &str, anywhere: bool) -> (r: Option<u64>)
    ensures
        match r {
            Some(v) => stated_duration(output@, anywhere) == Some(v as nat),
            None => stated_duration(output@, anywhere) is None,
        },
{
    let chars: Vec<char> = chars_of(output);
    let ls: Vec<&[char]> = split_lines(chars.as_slice());
    let label: Vec<char> = vec!['D', 'u', 'r', 'a', 't', 'i', 'o', 'n', ':'];
    assert(label@ =~= duration_label());
    let n: usize = ls.len();
    let mut i: usize = 0;
    while i < n
        invariant
            n == ls@.len(),
            0 <= i <= n,
            label@ == duration_label(),
            views(ls@) == lines(output@),
            duration_line(views(ls@), anywhere, i as int) == duration_line(
                views(ls@),
                anywhere,
                0,
            ),
        decreases n - i,
    {
        assert(views(ls@)[i as int] == ls@[i as int]@);
        if line_tells_duration(ls[i], label.as_slice(), anywhere) {
            return Some(read_duration_of(ls[i], label.as_slice()));
        }
        i = i + 1;
    }
    None
}

/// `H:MM:SS`, or `M:SS` below one hour.
pub open spec fn duration_shown(ms: nat) -> Seq<char> {
    let total = ms / 1000;
    let rest = padded(total % 60, 2);
    if total / 3600 > 0 {
        decimal(total / 3600) + seq![':'] + padded((total % 3600) / 60, 2) + seq![':'] + rest
    } else {
        decimal((total % 3600) / 60) + seq![':'] + rest
    }
}

/// Writes a duration for people to read.
pub fn format_duration(ms: u64) -> (r: String)
    ensures
        r@ == duration_shown(ms as nat),
{
    let total: u64 = ms / 1000;
    let mut out: Vec<char> = Vec::new();
    if total / 3600 > 0 {
        push_decimal(&mut out, (total / 3600) as u128);
        out.push(':');
        push_padded(&mut out, ((total % 3600) / 60) as u128, 2);
    } else {
        push_decimal(&mut out, ((total % 3600) / 60) as u128);
    }
    out.push(':');
    push_padded(&mut out, (total % 60) as u128, 2);
    proof {
        assert(out@ =~= duration_shown(ms as nat));
    }
    string_of(out.as_slice())
}

} // verus!
