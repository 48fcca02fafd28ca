//! What a file is and where it belongs: the format, by extension and by
//! content, and the sequence key in the file name.

use crate::model::FileFormat;
use crate::stamp::has_char;
use crate::subtitle::{arrow_here, is_numeral, numeral};
use crate::text::{
    char_is_digit, chars_of, digit_run, digit_run_end, digits_value, is_digit,
    lemma_digit_run_bounds, lines, opt_str, or_else, parse_number, split_lines, stands_at,
    stands_here, views,
};
use vstd::prelude::*;
use vstd::slice::slice_subrange;

verus! {

/// Whether `n` digits stand at `i`.
pub open spec fn fixed_digits(s: Seq<char>, i: int, n: int) -> bool {
    0 <= i && i + n <= s.len() && forall|k: int| i <= k < i + n ==> is_digit(#[trigger] s[k])
}

/// Whether a timecode `HH:MM:SS,mmm` (or with a dot) stands at `i`.
pub open spec fn code_at(s: Seq<char>, i: int) -> bool {
    fixed_digits(s, i, 2) && has_char(s, i + 2, ':') && fixed_digits(s, i + 3, 2) && has_char(
        s,
        i + 5,
        ':',
    ) && fixed_digits(s, i + 6, 2) && (has_char(s, i + 8, ',') || has_char(s, i + 8, '.'))
        && fixed_digits(s, i + 9, 3)
}

/// Whether a line starts with two timecodes and ` --> ` between them.
pub open spec fn is_timecode_line(line: Seq<char>) -> bool {
    code_at(line, 0) && arrow_here(line, 12) && code_at(line, 17)
}

/// Whether the lines `i` and `i + 1` are an index line and a timecode line.
pub open spec fn signature_at(ls: Seq<Seq<char>>, i: int) -> bool {
    0 <= i && i + 1 < ls.len() && is_numeral(ls[i]) && is_timecode_line(ls[i + 1])
}

/// The subtitle signature: a line that is a decimal index and nothing
/// else, and right after it a line that starts with a pair of timecodes.
pub open spec fn has_subtitle_signature(content: Seq<char>) -> bool {
    exists|i: int| signature_at(lines(content), i)
}

/// Whether `# ` stands somewhere in `content`.
pub open spec fn has_heading_mark(content: Seq<char>) -> bool {
    exists|i: int| 0 <= i && i + 1 < content.len() && content[i] == '#' && #[trigger] content[i + 1] == ' '
}

/// Whether `c` is the lower-case ASCII letter `low` or a character whose
/// lower case it is: its upper-case form, and for `k` the Kelvin sign too.
pub open spec fn same_letter(c: char, low: char) -> bool {
    c == low || (0x41 <= c as u32 <= 0x5A && c as u32 + 0x20 == low as u32) || (low == 'k' && c
        == '\u{212A}')
}

/// Whether `ext` is `word`, whatever the case of its ASCII letters.
pub open spec fn ext_is(ext: Seq<char>, word: Seq<char>) -> bool {
    ext.len() == word.len() && forall|i: int|
        0 <= i < ext.len() ==> same_letter(#[trigger] ext[i], word[i])
}

/// The format that the content alone points to.
pub open spec fn sniffed_format(content: Seq<char>) -> FileFormat {
    if has_subtitle_signature(content) {
        FileFormat::Srt
    } else if has_heading_mark(content) {
        FileFormat::Markdown
    } else {
        FileFormat::Txt
    }
}

/// The format of a file with extension `ext` (without the dot) and content `content`.
pub open spec fn format_of(ext: Option<Seq<char>>, content: Seq<char>) -> FileFormat {
    match ext {
        Some(e) => if ext_is(e, seq!['s', 'r', 't']) {
            FileFormat::Srt
        } else if ext_is(e, seq!['m', 'd']) {
            FileFormat::Markdown
        } else if ext_is(e, seq!['t', 'x', 't']) {
            if has_subtitle_signature(content) {
                FileFormat::Srt
            } else {
                FileFormat::Txt
            }
        } else {
            sniffed_format(content)
        },
        None => sniffed_format(content),
    }
}

fn digits_here(s: &[char], i: usize, n: usize) -> (b: bool)
    requires
        n <= 3,
    ensures
        b == fixed_digits(s@, i as int, n as int),
{
    let len: usize = s.len();
    if i > len || len - i < n {
        return false;
    }
    let mut k: usize = 0;
    while k < n
        invariant
            i + n <= len,
            len == s@.len(),
            0 <= k <= n,
            forall|j: int| i <= j < i + k ==> is_digit(#[trigger] s@[j]),
        decreases n - k,
    {
        if !char_is_digit(s[i + k]) {
            return false;
        }
        k = k + 1;
    }
    true
}

fn code_here(s: &[char], i: usize) -> (b: bool)
    requires
        i <= 17,
    ensures
        b == code_at(s@, i as int),
{
    let n: usize = s.len();
    digits_here(s, i, 2) && i + 2 < n && s[i + 2] == ':' && digits_here(s, i + 3, 2) && i + 5 < n
        && s[i + 5] == ':' && digits_here(s, i + 6, 2) && i + 8 < n && (s[i + 8] == ',' || s[i + 8]
        == '.') && digits_here(s, i + 9, 3)
}

fn timecode_line(line: &[char]) -> (b: bool)
    ensures
        b == is_timecode_line(line@),
{
    let n: usize = line.len();
    code_here(line, 0) && n >= 17 && line[12] == ' ' && line[13] == '-' && line[14] == '-'
        && line[15] == '>' && line[16] == ' ' && code_here(line, 17)
}

/// Whether the content carries the subtitle signature.
pub fn looks_like_srt(content: &[char]) -> (b: bool)
    ensures
        b == has_subtitle_signature(content@),
{
    let ls: Vec<&[char]> = split_lines(content);
    let n: usize = ls.len();
    let mut i: usize = 0;
    while i < n && i + 1 < n
        invariant
            n == ls@.len(),
            views(ls@) == lines(content@),
            forall|j: int| 0 <= j < i ==> !signature_at(lines(content@), j),
        decreases n - i,
    {
        assert(views(ls@)[i as int] == ls@[i as int]@);
        assert(views(ls@)[i + 1] == ls@[i + 1]@);
        if numeral(ls[i]) && timecode_line(ls[i + 1]) {
            assert(signature_at(lines(content@), i as int));
            return true;
        }
        i = i + 1;
    }
    false
}

fn heading_mark(content: &[char]) -> (b: bool)
    ensures
        b == has_heading_mark(content@),
{
    let n: usize = content.len();
    let mut i: usize = 0;
    while i < n && i + 1 < n
        invariant
            n == content@.len(),
            forall|j: int|
                0 <= j < i ==> !(content@[j] == '#' && #[trigger] content@[j + 1] == ' '),
        decreases n - i,
    {
        if content[i] == '#' && content[i + 1] == ' ' {
            return true;
        }
        i = i + 1;
    }
    false
}

fn letter_matches(c: char, low: char) -> (b: bool)
    ensures
        b == same_letter(c, low),
{
    let u: u32 = c as u32;
    c == low || (0x41 <= u && u <= 0x5A && u + 0x20 == low as u32) || (low == 'k' && c
        == '\u{212A}')
}

fn ext_matches(ext: &[char], word: &[char]) -> (b: bool)
    ensures
        b == ext_is(ext@, word@),
{
    let n: usize = ext.len();
    if n != word.len() {
        return false;
    }
    let mut i: usize = 0;
    while i < n
        invariant
            n == ext@.len(),
            n == word@.len(),
            0 <= i <= n,
            forall|j: int| 0 <= j < i ==> same_letter(#[trigger] ext@[j], word@[j]),
        decreases n - i,
    {
        if !letter_matches(ext[i], word[i]) {
            return false;
        }
        i = i + 1;
    }
    true
}

fn sniff(content: &[char]) -> (f: FileFormat)
    ensures
        f == sniffed_format(content@),
{
    if looks_like_srt(content) {
        FileFormat::Srt
    } else if heading_mark(content) {
        FileFormat::Markdown
    } else {
        FileFormat::Txt
    }
}

/// Tells the format of a file from its extension (without the dot), if it
/// has one, and its content.
///
/// `srt` and `md` decide by themselves; `txt` is a subtitle file where the
/// content carries the subtitle signature; any other extension, or none,
/// leaves it to the content: the signature, else a heading mark, else plain text.
pub fn detect_format(extension: Option<&str>, content: &str) -> (f: FileFormat)
    ensures
        f == format_of(opt_str(extension), content@),
{
    let chars: Vec<char> = chars_of(content);
    match extension {
        Some(e) => {
            let ext: Vec<char> = chars_of(e);
            let srt: Vec<char> = vec!['s', 'r', 't'];
            let md: Vec<char> = vec!['m', 'd'];
            let txt: Vec<char> = vec!['t', 'x', 't'];
            assert(srt@ =~= seq!['s', 'r', 't']);
            assert(md@ =~= seq!['m', 'd']);
            assert(txt@ =~= seq!['t', 'x', 't']);
            if ext_matches(ext.as_slice(), srt.as_slice()) {
                FileFormat::Srt
            } else if ext_matches(ext.as_slice(), md.as_slice()) {
                FileFormat::Markdown
            } else if ext_matches(ext.as_slice(), txt.as_slice()) {
                if looks_like_srt(chars.as_slice()) {
                    FileFormat::Srt
                } else {
                    FileFormat::Txt
                }
            } else {
                sniff(chars.as_slice())
            }
        },
        None => sniff(chars.as_slice()),
    }
}

/// The first index at or after `i` that holds a digit, or the length.
pub open spec fn first_digit(s: Seq<char>, i: int) -> int
    decreases s.len() - i,
{
    if 0 <= i < s.len() && !is_digit(s[i]) {
        first_digit(s, i + 1)
    } else {
        i
    }
}

/// The number that the first run of digits of `s` stands for.
pub open spec fn first_number(s: Seq<char>) -> Option<nat> {
    let a = first_digit(s, 0);
    if a < s.len() {
        Some(digits_value(s.subrange(a, digit_run_end(s, a))))
    } else {
        None
    }
}

/// The number after `word` at `i`: the word, then one `_` or `-` or neither,
/// then a run of digits.
pub open spec fn numbered_at(s: Seq<char>, i: int, word: Seq<char>) -> Option<nat> {
    let j = i + word.len();
    let d = if has_char(s, j, '_') || has_char(s, j, '-') {
        j + 1
    } else {
        j
    };
    if stands_at(s, i, word) && digit_run_end(s, d) > d {
        Some(digits_value(s.subrange(d, digit_run_end(s, d))))
    } else {
        None
    }
}

/// The number after the leftmost `word` at or after `i` that has one.
pub open spec fn find_numbered(s: Seq<char>, word: Seq<char>, i: int) -> Option<nat>
    decreases s.len() - i,
{
    if 0 <= i < s.len() {
        match numbered_at(s, i, word) {
            Some(v) => Some(v),
            None => find_numbered(s, word, i + 1),
        }
    } else {
        None
    }
}

/// A number that fits in `usize`, or none.
pub open spec fn fitting(v: Option<nat>) -> Option<nat> {
    match v {
        Some(x) => if x <= usize::MAX {
            Some(x)
        } else {
            None
        },
        None => None,
    }
}

/// The sequence key of a file name: the first run of digits; where that
/// does not fit, the number after the first `chunk`, then `part`, then
/// `segment` that has one and fits.
pub open spec fn sequence_number(name: Seq<char>) -> Option<nat> {
    or_else(
        fitting(first_number(name)),
        or_else(
            fitting(find_numbered(name, seq!['c', 'h', 'u', 'n', 'k'], 0)),
            or_else(
                fitting(find_numbered(name, seq!['p', 'a', 'r', 't'], 0)),
                fitting(find_numbered(name, seq!['s', 'e', 'g', 'm', 'e', 'n', 't'], 0)),
            ),
        ),
    )
}

/// Whether a key that was read is the one that `m` names.
pub open spec fn same_key(r: Option<usize>, m: Option<nat>) -> bool {
    match r {
        Some(v) => m == Some(v as nat),
        None => m is None,
    }
}

fn read_key(s: &[char], lo: usize) -> (r: Option<usize>)
    requires
        lo <= s@.len(),
    ensures
        same_key(
            r,
            fitting(Some(digits_value(s@.subrange(lo as int, digit_run_end(s@, lo as int))))),
        ),
{
    let e: usize = digit_run(s, lo);
    proof {
        lemma_digit_run_bounds(s@, lo as int);
    }
    match parse_number(slice_subrange(s, lo, e)) {
        Some(v) => if v <= usize::MAX as u64 {
            Some(v as usize)
        } else {
            None
        },
        None => None,
    }
}

fn first_key(s: &[char]) -> (r: Option<usize>)
    ensures
        same_key(r, fitting(first_number(s@))),
{
    let n: usize = s.len();
    let mut a: usize = 0;
    while a < n && !char_is_digit(s[a])
        invariant
            n == s@.len(),
            0 <= a <= n,
            first_digit(s@, a as int) == first_digit(s@, 0),
        decreases n - a,
    {
        a = a + 1;
    }
    if a < n {
        read_key(s, a)
    } else {
        None
    }
}

/// Whether a key was found at a place, and which.
enum KeyAt {
    Nothing,
    TooLarge,
    Key(usize),
}

fn numbered_here(s: &[char], i: usize, word: &[char]) -> (r: KeyAt)
    requires
        i <= s@.len(),
    ensures
        match r {
            KeyAt::Nothing => numbered_at(s@, i as int, word@) is None,
            KeyAt::TooLarge => numbered_at(s@, i as int, word@) matches Some(v) && v > usize::MAX,
            KeyAt::Key(k) => numbered_at(s@, i as int, word@) == Some(k as nat),
        },
{
    if !stands_here(s, i, word) {
        return KeyAt::Nothing;
    }
    let n: usize = s.len();
    let j: usize = i + word.len();
    let d: usize = if j < n && (s[j] == '_' || s[j] == '-') {
        j + 1
    } else {
        j
    };
    let e: usize = digit_run(s, d);
    if e == d {
        return KeyAt::Nothing;
    }
    match read_key(s, d) {
        Some(k) => KeyAt::Key(k),
        None => KeyAt::TooLarge,
    }
}

fn numbered_key(s: &[char], word: &[char]) -> (r: Option<usize>)
    ensures
        same_key(r, fitting(find_numbered(s@, word@, 0))),
{
    let n: usize = s.len();
    let mut i: usize = 0;
    while i < n
        invariant
            n == s@.len(),
            0 <= i <= n,
            find_numbered(s@, word@, i as int) == find_numbered(s@, word@, 0),
        decreases n - i,
    {
        match numbered_here(s, i, word) {
            KeyAt::Nothing => {},
            KeyAt::TooLarge => {
                return None;
            },
            KeyAt::Key(k) => {
                return Some(k);
            },
        }
        i = i + 1;
    }
    None
}

/// Takes the sequence key from a file name.
pub fn extract_sequence_number(filename: &str) -> (r: Option<usize>)
    ensures
        same_key(r, sequence_number(filename@)),
{
    let name: Vec<char> = chars_of(filename);
    let s: &[char] = name.as_slice();
    let first: Option<usize> = first_key(s);
    if first.is_some() {
        return first;
    }
    let chunk: Vec<char> = vec!['c', 'h', 'u', 'n', 'k'];
    assert(chunk@ =~= seq!['c', 'h', 'u', 'n', 'k']);
    let by_chunk: Option<usize> = numbered_key(s, chunk.as_slice());
    if by_chunk.is_some() {
        return by_chunk;
    }
    let part: Vec<char> = vec!['p', 'a', 'r', 't'];
    assert(part@ =~= seq!['p', 'a', 'r', 't']);
    let by_part: Option<usize> = numbered_key(s, part.as_slice());
    if by_part.is_some() {
        return by_part;
    }
    let segment: Vec<char> = vec!['s', 'e', 'g', 'm', 'e', 'n', 't'];
    assert(segment@ =~= seq!['s', 'e', 'g', 'm', 'e', 'n', 't']);
    numbered_key(s, segment.as_slice())
}

/// The format that a name stands for: `srt`, `md` or `markdown`, whatever
/// the case of the letters; any other name stands for plain text.
pub open spec fn format_named(name: Seq<char>) -> FileFormat {
    if ext_is(name, seq!['s', 'r', 't']) {
        FileFormat::Srt
    } else if ext_is(name, seq!['m', 'd']) || ext_is(
        name,
        seq!['m', 'a', 'r', 'k', 'd', 'o', 'w', 'n'],
    ) {
        FileFormat::Markdown
    } else {
        FileFormat::Txt
    }
}

/// Tells the output format from its name.
pub fn format_from_name(name: &str) -> (f: FileFormat)
    ensures
        f == format_named(name@),
{
    let chars: Vec<char> = chars_of(name);
    let srt: Vec<char> = vec!['s', 'r', 't'];
    let md: Vec<char> = vec!['m', 'd'];
    let markdown: Vec<char> = vec!['m', 'a', 'r', 'k', 'd', 'o', 'w', 'n'];
    assert(srt@ =~= seq!['s', 'r', 't']);
    assert(md@ =~= seq!['m', 'd']);
    assert(markdown@ =~= seq!['m', 'a', 'r', 'k', 'd', 'o', 'w', 'n']);
    if ext_matches(chars.as_slice(), srt.as_slice()) {
        FileFormat::Srt
    } else if ext_matches(chars.as_slice(), md.as_slice()) || ext_matches(
        chars.as_slice(),
        markdown.as_slice(),
    ) {
        FileFormat::Markdown
    } else {
        FileFormat::Txt
    }
}

} // verus!
