//! What the commands of the program decide: the output format by its
//! name, the name of the exported file, and the timecodes of an exported text.

use crate::render::{push_chars, push_str};
use crate::text::{
    all_digits, chars_of, decimal, digit_run, digits_value, find_char, find_char_from,
    lemma_digit_run_bounds, lines, opt_str, padded, parse_number, push_decimal, push_padded,
    same_text, split_lines, stands_at, stands_here, string_of, trim, trim_slice, views,
};
use vstd::prelude::*;
use vstd::slice::slice_subrange;

verus! {

/// What is known of a media file.
#[derive(Debug)]
pub struct FileInfo {
    pub name: String,
    pub duration: String,
    pub size: String,
    pub path: String,
}

/// Why a timecode cannot be written anew.
#[derive(Debug)]
pub enum TimecodeError {
    /// The pattern for a line was refused; the text is what the pattern library said.
    Pattern(String),
    /// The hours are no number.
    InvalidHours,
    /// The minutes are no number.
    InvalidMinutes,
    /// The seconds are no number.
    InvalidSeconds,
    /// The timecode has more than three parts; the text is the timecode.
    Unsupported(String),
    /// A custom format was asked for and none was given.
    NoCustomFormat,
    /// The seconds of the timecode do not fit in 32 bits.
    TooLarge,
}

/// Why a timecode cannot be written anew, as a mathematical value.
pub enum TimecodeFault {
    Pattern(Seq<char>),
    InvalidHours,
    InvalidMinutes,
    InvalidSeconds,
    Unsupported(Seq<char>),
    NoCustomFormat,
    TooLarge,
}

impl View for TimecodeError {
    type V = TimecodeFault;

    open spec fn view(&self) -> TimecodeFault {
        match self {
            TimecodeError::Pattern(s) => TimecodeFault::Pattern(s@),
            TimecodeError::InvalidHours => TimecodeFault::InvalidHours,
            TimecodeError::InvalidMinutes => TimecodeFault::InvalidMinutes,
            TimecodeError::InvalidSeconds => TimecodeFault::InvalidSeconds,
            TimecodeError::Unsupported(s) => TimecodeFault::Unsupported(s@),
            TimecodeError::NoCustomFormat => TimecodeFault::NoCustomFormat,
            TimecodeError::TooLarge => TimecodeFault::TooLarge,
        }
    }
}

/// The number that `s` stands for as a 32-bit number: digits, with or
/// without a plus sign before them.
pub open spec fn number_u32(s: Seq<char>) -> Option<nat> {
    let d = if s.len() > 0 && s[0] == '+' {
        s.subrange(1, s.len() as int)
    } else {
        s
    };
    if d.len() > 0 && all_digits(d) && digits_value(d) <= u32::MAX {
        Some(digits_value(d))
    } else {
        None
    }
}

/// The seconds of a timecode that fit or the fault.
pub open spec fn fit_seconds(v: nat) -> Result<nat, TimecodeFault> {
    if v <= u32::MAX {
        Ok(v)
    } else {
        Err(TimecodeFault::TooLarge)
    }
}

/// The seconds that a timecode stands for: seconds alone, minutes and
/// seconds, or hours, minutes and seconds, with colons between them. The
/// first part that is no number is the fault.
pub open spec fn timecode_seconds(s: Seq<char>) -> Result<nat, TimecodeFault> {
    let c1 = find_char(s, ':', 0);
    let c2 = find_char(s, ':', c1 + 1);
    let c3 = find_char(s, ':', c2 + 1);
    let n = s.len() as int;
    if c1 >= n {
        match number_u32(s) {
            Some(sec) => Ok(sec),
            None => Err(TimecodeFault::InvalidSeconds),
        }
    } else if c2 >= n {
        match number_u32(s.subrange(0, c1)) {
            None => Err(TimecodeFault::InvalidMinutes),
            Some(m) => match number_u32(s.subrange(c1 + 1, n)) {
                None => Err(TimecodeFault::InvalidSeconds),
                Some(sec) => fit_seconds(m * 60 + sec),
            },
        }
    } else if c3 >= n {
        match number_u32(s.subrange(0, c1)) {
            None => Err(TimecodeFault::InvalidHours),
            Some(h) => match number_u32(s.subrange(c1 + 1, c2)) {
                None => Err(TimecodeFault::InvalidMinutes),
                Some(m) => match number_u32(s.subrange(c2 + 1, n)) {
                    None => Err(TimecodeFault::InvalidSeconds),
                    Some(sec) => fit_seconds(h * 3600 + m * 60 + sec),
                },
            },
        }
    } else {
        Err(TimecodeFault::Unsupported(s))
    }
}

fn read_u32(s: &[char]) -> (r: Option<u32>)
    ensures
        match r {
            Some(v) => number_u32(s@) == Some(v as nat),
            None => number_u32(s@) is None,
        },
{
    let n: usize = s.len();
    let d: &[char] = if n > 0 && s[0] == '+' {
        slice_subrange(s, 1, n)
    } else {
        s
    };
    let e: usize = digit_run(d, 0);
    proof {
        lemma_digit_run_bounds(d@, 0);
    }
    if d.len() == 0 || e != d.len() {
        return None;
    }
    match parse_number(d) {
        Some(v) => if v <= u32::MAX as u64 {
            Some(v as u32)
        } else {
            None
        },
        None => None,
    }
}

/// Whether seconds that were read, or their fault, are what `m` names.
pub open spec fn same_seconds(
    r: Result<u32, TimecodeError>,
    m: Result<nat, TimecodeFault>,
) -> bool {
    match r {
        Ok(v) => m == Ok::<nat, TimecodeFault>(v as nat),
        Err(e) => m == Err::<nat, TimecodeFault>(e@),
    }
}

fn checked_seconds(h: u32, m: u32, sec: u32) -> (r: Result<u32, TimecodeError>)
    ensures
        same_seconds(r, fit_seconds((h * 3600 + m * 60 + sec) as nat)),
{
    let total: u64 = h as u64 * 3600 + m as u64 * 60 + sec as u64;
    if total <= u32::MAX as u64 {
        Ok(total as u32)
    } else {
        Err(TimecodeError::TooLarge)
    }
}

/// Reads a timecode as seconds.
pub fn parse_timecode_to_seconds(timecode: &str) -> (r: Result<u32, TimecodeError>)
    ensures
        same_seconds(r, timecode_seconds(timecode@)),
{
    let chars: Vec<char> = chars_of(timecode);
    let s: &[char] = chars.as_slice();
    let n: usize = s.len();
    let c1: usize = find_char_from(s, ':', 0);
    if c1 >= n {
        return match read_u32(s) {
            Some(sec) => Ok(sec),
            None => Err(TimecodeError::InvalidSeconds),
        };
    }
    let c2: usize = find_char_from(s, ':', c1 + 1);
    if c2 >= n {
        let m: u32 = match read_u32(slice_subrange(s, 0, c1)) {
            Some(v) => v,
            None => {
                return Err(TimecodeError::InvalidMinutes);
            },
        };
        let sec: u32 = match read_u32(slice_subrange(s, c1 + 1, n)) {
            Some(v) => v,
            None => {
                return Err(TimecodeError::InvalidSeconds);
            },
        };
        return checked_seconds(0, m, sec);
    }
    let c3: usize = find_char_from(s, ':', c2 + 1);
    if c3 >= n {
        let h: u32 = match read_u32(slice_subrange(s, 0, c1)) {
            Some(v) => v,
            None => {
                return Err(TimecodeError::InvalidHours);
            },
        };
        let m: u32 = match read_u32(slice_subrange(s, c1 + 1, c2)) {
            Some(v) => v,
            None => {
                return Err(TimecodeError::InvalidMinutes);
            },
        };
        let sec: u32 = match read_u32(slice_subrange(s, c2 + 1, n)) {
            Some(v) => v,
            None => {
                return Err(TimecodeError::InvalidSeconds);
            },
        };
        return checked_seconds(h, m, sec);
    }
    Err(TimecodeError::Unsupported(timecode.to_owned()))
}

/// `s` from index `i` on with `with` in place of each `pat`, found from left to right.
pub open spec fn replaced_from(s: Seq<char>, pat: Seq<char>, with: Seq<char>, i: int) -> Seq<char>
    decreases s.len() - i,
{
    if 0 <= i < s.len() && pat.len() > 0 {
        if stands_at(s, i, pat) {
            with + replaced_from(s, pat, with, i + pat.len())
        } else {
            seq![s[i]] + replaced_from(s, pat, with, i + 1)
        }
    } else {
        Seq::empty()
    }
}

/// `s` with `with` in place of each `pat`.
pub open spec fn replaced(s: Seq<char>, pat: Seq<char>, with: Seq<char>) -> Seq<char> {
    replaced_from(s, pat, with, 0)
}

/// `HH:MM:SS`
#[verifier::opaque]
pub open spec fn clock_text(total: nat) -> Seq<char> {
    padded(total / 3600, 2) + seq![':'] + padded((total % 3600) / 60, 2) + seq![':'] + padded(
        total % 60,
        2,
    )
}

/// A custom format with `HH`, `MM`, `SS` and `MS` filled in, in this order.
#[verifier::opaque]
pub open spec fn custom_text(format: Seq<char>, total: nat) -> Seq<char> {
    replaced(
        replaced(
            replaced(
                replaced(format, seq!['H', 'H'], padded(total / 3600, 2)),
                seq!['M', 'M'],
                padded((total % 3600) / 60, 2),
            ),
            seq!['S', 'S'],
            padded(total % 60, 2),
        ),
        seq!['M', 'S'],
        seq!['0', '0', '0'],
    )
}

/// A timecode of `total` seconds in the format `target`; `timecode` itself
/// where `target` is none of the formats that are known.
pub open spec fn written(
    timecode: Seq<char>,
    total: nat,
    target: Seq<char>,
    custom: Option<Seq<char>>,
) -> Result<Seq<char>, TimecodeFault> {
    if target == "hms"@ {
        Ok(clock_text(total))
    } else if target == "hms_ms"@ {
        Ok(clock_text(total) + seq!['.', '0', '0', '0'])
    } else if target == "seconds"@ {
        Ok(decimal(total))
    } else if target == "seconds_ms"@ {
        Ok(decimal(total) + seq!['.', '0'])
    } else if target == "custom"@ {
        match custom {
            Some(f) => Ok(custom_text(f, total)),
            None => Err(TimecodeFault::NoCustomFormat),
        }
    } else {
        Ok(timecode)
    }
}

/// A timecode written anew in the format `target`. A timecode that cannot
/// be read is a fault whatever the format.
pub open spec fn converted(
    timecode: Seq<char>,
    target: Seq<char>,
    custom: Option<Seq<char>>,
) -> Result<Seq<char>, TimecodeFault> {
    match timecode_seconds(timecode) {
        Ok(total) => written(timecode, total, target, custom),
        Err(e) => Err(e),
    }
}

/// Puts `with` in place of each `pat`.
fn replace_all(s: &[char], pat: &[char], with: &[char]) -> (r: Vec<char>)
    requires
        pat@.len() > 0,
    ensures
        r@ == replaced(s@, pat@, with@),
{
    let n: usize = s.len();
    let m: usize = pat.len();
    let mut out: Vec<char> = Vec::new();
    let mut i: usize = 0;
    assert(out@ + replaced_from(s@, pat@, with@, 0) =~= replaced(s@, pat@, with@));
    while i < n
        invariant
            n == s@.len(),
            m == pat@.len(),
            m > 0,
            0 <= i <= n,
            out@ + replaced_from(s@, pat@, with@, i as int) == replaced(s@, pat@, with@),
        decreases n - i,
    {
        let ghost before = out@;
        if stands_here(s, i, pat) {
            push_chars(&mut out, with);
            proof {
                assert(before + with@ + replaced_from(s@, pat@, with@, i + m) =~= before + (with@
                    + replaced_from(s@, pat@, with@, i + m)));
            }
            i = i + m;
        } else {
            out.push(s[i]);
            proof {
                assert(before.push(s@[i as int]) + replaced_from(s@, pat@, with@, i + 1) =~= before
                    + (seq![s@[i as int]] + replaced_from(s@, pat@, with@, i + 1)));
            }
            i = i + 1;
        }
    }
    proof {
        assert(out@ + Seq::<char>::empty() =~= out@);
    }
    out
}

fn two_digits(v: u32) -> (r: Vec<char>)
    ensures
        r@ == padded(v as nat, 2),
{
    let mut out: Vec<char> = Vec::new();
    push_padded(&mut out, v as u128, 2);
    assert(out@ =~= padded(v as nat, 2));
    out
}

fn clock(total: u32) -> (r: Vec<char>)
    ensures
        r@ == clock_text(total as nat),
{
    let mut out: Vec<char> = Vec::new();
    push_padded(&mut out, (total / 3600) as u128, 2);
    out.push(':');
    push_padded(&mut out, ((total % 3600) / 60) as u128, 2);
    out.push(':');
    push_padded(&mut out, (total % 60) as u128, 2);
    proof {
        reveal(clock_text);
        assert(out@ =~= clock_text(total as nat));
    }
    out
}

fn custom(format: &str, total: u32) -> (r: Vec<char>)
    ensures
        r@ == custom_text(format@, total as nat),
{
    let f: Vec<char> = chars_of(format);
    let hh: Vec<char> = vec!['H', 'H'];
    let mm: Vec<char> = vec!['M', 'M'];
    let ss: Vec<char> = vec!['S', 'S'];
    let ms: Vec<char> = vec!['M', 'S'];
    let zeros: Vec<char> = vec!['0', '0', '0'];
    assert(hh@ =~= seq!['H', 'H']);
    assert(mm@ =~= seq!['M', 'M']);
    assert(ss@ =~= seq!['S', 'S']);
    assert(ms@ =~= seq!['M', 'S']);
    assert(zeros@ =~= seq!['0', '0', '0']);
    let a: Vec<char> = replace_all(
        f.as_slice(),
        hh.as_slice(),
        two_digits(total / 3600).as_slice(),
    );
    let b: Vec<char> = replace_all(
        a.as_slice(),
        mm.as_slice(),
        two_digits((total % 3600) / 60).as_slice(),
    );
    let c: Vec<char> = replace_all(b.as_slice(), ss.as_slice(), two_digits(total % 60).as_slice());
    proof {
        reveal(custom_text);
    }
    replace_all(c.as_slice(), ms.as_slice(), zeros.as_slice())
}

/// Whether a text that was written, or its fault, is what `m` names.
pub open spec fn same_result(
    r: Result<String, TimecodeError>,
    m: Result<Seq<char>, TimecodeFault>,
) -> bool {
    match r {
        Ok(v) => m == Ok::<Seq<char>, TimecodeFault>(v@),
        Err(e) => m == Err::<Seq<char>, TimecodeFault>(e@),
    }
}

#[verifier::rlimit(40)]
fn write_timecode(
    timecode: &str,
    total: u32,
    target: &str,
    custom_format: Option<&str>,
) -> (r: Result<String, TimecodeError>)
    ensures
        same_result(r, written(timecode@, total as nat, target@, opt_str(custom_format))),
{
    if same_text(target, "hms") {
        Ok(string_of(clock(total).as_slice()))
    } else if same_text(target, "hms_ms") {
        let mut out: Vec<char> = clock(total);
        push_str(&mut out, ".000");
        proof {
            reveal_strlit(".000");
            assert(".000"@ =~= seq!['.', '0', '0', '0']);
        }
        Ok(string_of(out.as_slice()))
    } else if same_text(target, "seconds") {
        let mut out: Vec<char> = Vec::new();
        push_decimal(&mut out, total as u128);
        assert(out@ =~= decimal(total as nat));
        Ok(string_of(out.as_slice()))
    } else if same_text(target, "seconds_ms") {
        let mut out: Vec<char> = Vec::new();
        push_decimal(&mut out, total as u128);
        assert(out@ =~= decimal(total as nat));
        push_str(&mut out, ".0");
        proof {
            reveal_strlit(".0");
            assert(".0"@ =~= seq!['.', '0']);
        }
        Ok(string_of(out.as_slice()))
    } else if same_text(target, "custom") {
        match custom_format {
            Some(f) => Ok(string_of(custom(f, total).as_slice())),
            None => Err(TimecodeError::NoCustomFormat),
        }
    } else {
        Ok(timecode.to_owned())
    }
}

/// Writes a timecode anew in the format `target_format`.
pub fn convert_timecode(
    timecode: &str,
    target_format: &str,
    custom_format: Option<&str>,
) -> (r: Result<String, TimecodeError>)
    ensures
        same_result(r, converted(timecode@, target_format@, opt_str(custom_format))),
{
    match parse_timecode_to_seconds(timecode) {
        Ok(total) => write_timecode(timecode, total, target_format, custom_format),
        Err(e) => Err(e),
    }
}

/// The groups of a match, as mathematical values.
pub open spec fn group_views(g: Seq<Option<String>>) -> Seq<Option<Seq<char>>> {
    Seq::new(
        g.len(),
        |i: int|
            match g[i] {
                Some(s) => Some(s@),
                None => None,
            },
    )
}

/// What a search gave, as a mathematical value.
pub open spec fn search_view(
    r: Result<Option<Vec<Option<String>>>, String>,
) -> Result<Option<Seq<Option<Seq<char>>>>, Seq<char>> {
    match r {
        Ok(Some(g)) => Ok(Some(group_views(g@))),
        Ok(None) => Ok(None),
        Err(e) => Err(e@),
    }
}

/// What a search for the regular expression `pattern` in `text` gives: the
/// groups of the leftmost match, the whole match first and a group that
/// took no part as none, or no match, or what is wrong with the pattern.
pub uninterp spec fn captured(pattern: Seq<char>, text: Seq<char>) -> Result<Option<Seq<Option<Seq<char>>>>, Seq<char>>;

/// `regex::Regex::captures` with the expression made by `regex::Regex::new`.
/// The contract only names the result.
#[verifier::external_body]
fn capture(pattern: &str, text: &str) -> (r: Result<Option<Vec<Option<String>>>, String>)
    ensures
        search_view(r) == captured(pattern@, text@),
{
    let re = match regex::Regex::new(pattern) {
        Ok(re) => re,
        Err(e) => return Err(e.to_string()),
    };
    let Some(found) = re.captures(text) else { return Ok(None) };
    let mut groups = Vec::new();
    for i in 0..found.len() {
        groups.push(match found.get(i) {
            Some(m) => Some(m.as_str().to_owned()),
            None => None,
        });
    }
    Ok(Some(groups))
}

/// A timecode in brackets, a note in brackets, perhaps a second note in brackets, and text.
pub open spec fn two_notes_pattern() -> Seq<char> {
    r"^\[(\d{1,2}:\d{2}(?::\d{2})?|\d+)\]\s*\[([^\]]+)\]\s*(?:\[([^\]]+)\]\s*)?(.*)$"@
}

/// A timecode in brackets, a note in brackets, and text.
pub open spec fn one_note_pattern() -> Seq<char> {
    r"^\[(\d{1,2}:\d{2}(?::\d{2})?|\d+)\]\s*\[([^\]]+)\]\s*(.*)$"@
}

/// A timecode in brackets and text.
pub open spec fn no_note_pattern() -> Seq<char> {
    r"^\[(\d{1,2}:\d{2}(?::\d{2})?|\d+)\]\s*(.*)$"@
}

/// Group number `i` of a match, where it took part.
pub open spec fn group(found: Option<Seq<Option<Seq<char>>>>, i: int) -> Option<Seq<char>> {
    match found {
        Some(g) => if 0 <= i < g.len() {
            g[i]
        } else {
            None
        },
        None => None,
    }
}

/// `[timecode] text`, with the notes between them in brackets where there are any.
pub open spec fn line_with(
    timecode: Seq<char>,
    notes: Option<Seq<char>>,
    text: Seq<char>,
) -> Seq<char> {
    seq!['['] + timecode + seq![']', ' '] + (match notes {
        Some(n) => seq!['['] + n + seq![']', ' '],
        None => Seq::empty(),
    }) + text
}

/// The notes of a line, where they are wanted: the first, and the second
/// behind it after a space where there is one.
pub open spec fn notes_of(
    first: Seq<char>,
    second: Option<Seq<char>>,
    wanted: bool,
) -> Option<Seq<char>> {
    if wanted {
        match second {
            Some(s) => Some(first + seq![' '] + s),
            None => Some(first),
        }
    } else {
        None
    }
}

/// A trimmed line with its timecode written anew.
///
/// `two`, `one` and `none` are what the searches for the three patterns
/// gave, and the first of them that matched, with every group it needs,
/// decides: the timecode is its first group, the notes are kept where
/// `extended` says so, the text is its last group. A line that none of them
/// matched stays as it is.
pub open spec fn rewritten(
    line: Seq<char>,
    two: Option<Seq<Option<Seq<char>>>>,
    one: Option<Seq<Option<Seq<char>>>>,
    none: Option<Seq<Option<Seq<char>>>>,
    target: Seq<char>,
    custom: Option<Seq<char>>,
    extended: bool,
) -> Result<Seq<char>, TimecodeFault> {
    if group(two, 1) is Some && group(two, 2) is Some && group(two, 4) is Some {
        match converted(group(two, 1)->0, target, custom) {
            Ok(t) => Ok(
                line_with(t, notes_of(group(two, 2)->0, group(two, 3), extended), group(two, 4)->0),
            ),
            Err(e) => Err(e),
        }
    } else if group(one, 1) is Some && group(one, 2) is Some && group(one, 3) is Some {
        match converted(group(one, 1)->0, target, custom) {
            Ok(t) => Ok(line_with(t, notes_of(group(one, 2)->0, None, extended), group(one, 3)->0)),
            Err(e) => Err(e),
        }
    } else if group(none, 1) is Some && group(none, 2) is Some {
        match converted(group(none, 1)->0, target, custom) {
            Ok(t) => Ok(line_with(t, None, group(none, 2)->0)),
            Err(e) => Err(e),
        }
    } else {
        Ok(line)
    }
}

fn pick<'a>(found: &'a Option<Vec<Option<String>>>, i: usize) -> (r: Option<&'a String>)
    ensures
        match r {
            Some(s) => group(search_view(Ok(*found))->Ok_0, i as int) == Some(s@),
            None => group(search_view(Ok(*found))->Ok_0, i as int) is None,
        },
{
    match found {
        Some(g) => if i < g.len() {
            match &g[i] {
                Some(s) => Some(s),
                None => None,
            }
        } else {
            None
        },
        None => None,
    }
}

#[verifier::rlimit(40)]
fn write_line(timecode: &str, first: Option<&str>, second: Option<&str>, text: &str) -> (r: String)
    ensures
        r@ == line_with(
            timecode@,
            match first {
                Some(f) => notes_of(f@, opt_str(second), true),
                None => None,
            },
            text@,
        ),
{
    let mut out: Vec<char> = Vec::new();
    out.push('[');
    push_str(&mut out, timecode);
    out.push(']');
    out.push(' ');
    let ghost head = out@;
    assert(head =~= seq!['['] + timecode@ + seq![']', ' ']);
    match first {
        Some(f) => {
            out.push('[');
            push_str(&mut out, f);
            match second {
                Some(s) => {
                    out.push(' ');
                    push_str(&mut out, s);
                },
                None => {},
            }
            out.push(']');
            out.push(' ');
            proof {
                let notes = notes_of(f@, opt_str(second), true)->0;
                assert(out@ =~= head + (seq!['['] + notes + seq![']', ' ']));
            }
        },
        None => {
            assert(out@ =~= head + Seq::<char>::empty());
        },
    }
    let ghost mid = out@;
    push_str(&mut out, text);
    string_of(out.as_slice())
}

/// The groups of a search that gave a match or none.
pub open spec fn found_view(found: Option<Vec<Option<String>>>) -> Option<Seq<Option<Seq<char>>>> {
    match found {
        Some(g) => Some(group_views(g@)),
        None => None,
    }
}

/// Writes the timecode of a trimmed line anew, given what the searches
/// for the three patterns gave.
pub fn rewrite_line(
    line: &str,
    two: &Option<Vec<Option<String>>>,
    one: &Option<Vec<Option<String>>>,
    none: &Option<Vec<Option<String>>>,
    timecode_format: &str,
    custom_format: Option<&str>,
    include_extended_info: bool,
) -> (r: Result<String, TimecodeError>)
    ensures
        same_result(
            r,
            rewritten(
                line@,
                found_view(*two),
                found_view(*one),
                found_view(*none),
                timecode_format@,
                opt_str(custom_format),
                include_extended_info,
            ),
        ),
{
    match (pick(two, 1), pick(two, 2), pick(two, 4)) {
        (Some(code), Some(first), Some(text)) => {
            let t: String = match convert_timecode(code.as_str(), timecode_format, custom_format) {
                Ok(t) => t,
                Err(e) => {
                    return Err(e);
                },
            };
            let second: Option<&str> = match pick(two, 3) {
                Some(s) => Some(s.as_str()),
                None => None,
            };
            return Ok(
                if include_extended_info {
                    write_line(t.as_str(), Some(first.as_str()), second, text.as_str())
                } else {
                    write_line(t.as_str(), None, None, text.as_str())
                },
            );
        },
        _ => {},
    }
    match (pick(one, 1), pick(one, 2), pick(one, 3)) {
        (Some(code), Some(first), Some(text)) => {
            let t: String = match convert_timecode(code.as_str(), timecode_format, custom_format) {
                Ok(t) => t,
                Err(e) => {
                    return Err(e);
                },
            };
            return Ok(
                if include_extended_info {
                    write_line(t.as_str(), Some(first.as_str()), None, text.as_str())
                } else {
                    write_line(t.as_str(), None, None, text.as_str())
                },
            );
        },
        _ => {},
    }
    match (pick(none, 1), pick(none, 2)) {
        (Some(code), Some(text)) => {
            let t: String = match convert_timecode(code.as_str(), timecode_format, custom_format) {
                Ok(t) => t,
                Err(e) => {
                    return Err(e);
                },
            };
            Ok(write_line(t.as_str(), None, None, text.as_str()))
        },
        _ => Ok(line.to_owned()),
    }
}

/// The lines `from..to` of `ls` with a line feed between them.
pub open spec fn join_with_feeds(ls: Seq<Seq<char>>, to: int) -> Seq<char>
    decreases to,
{
    if to <= 0 {
        Seq::empty()
    } else if to == 1 {
        ls[0]
    } else {
        join_with_feeds(ls, to - 1) + seq!['\n'] + ls[to - 1]
    }
}

/// What the three searches gave for a line.
pub struct Searches {
    pub two: Option<Seq<Option<Seq<char>>>>,
    pub one: Option<Seq<Option<Seq<char>>>>,
    pub none: Option<Seq<Option<Seq<char>>>>,
}

/// The three searches for a line, or the fault of the first pattern that was refused.
pub open spec fn searched(line: Seq<char>) -> Result<Searches, TimecodeFault> {
    match captured(two_notes_pattern(), line) {
        Err(e) => Err(TimecodeFault::Pattern(e)),
        Ok(two) => match captured(one_note_pattern(), line) {
            Err(e) => Err(TimecodeFault::Pattern(e)),
            Ok(one) => match captured(no_note_pattern(), line) {
                Err(e) => Err(TimecodeFault::Pattern(e)),
                Ok(none) => Ok(Searches { two, one, none }),
            },
        },
    }
}

/// A line of an exported text: blank lines are empty, every other line
/// is trimmed and its timecode written anew.
pub open spec fn processed_line(
    raw: Seq<char>,
    target: Seq<char>,
    custom: Option<Seq<char>>,
    extended: bool,
) -> Result<Seq<char>, TimecodeFault> {
    let line = trim(raw);
    if line.len() == 0 {
        Ok(Seq::empty())
    } else {
        match searched(line) {
            Ok(s) => rewritten(line, s.two, s.one, s.none, target, custom, extended),
            Err(e) => Err(e),
        }
    }
}

/// The first `k` lines of an exported text, each written anew, or the first fault.
pub open spec fn processed_lines(
    ls: Seq<Seq<char>>,
    k: int,
    target: Seq<char>,
    custom: Option<Seq<char>>,
    extended: bool,
) -> Result<Seq<Seq<char>>, TimecodeFault>
    decreases k,
{
    if k <= 0 {
        Ok(Seq::empty())
    } else {
        match processed_lines(ls, k - 1, target, custom, extended) {
            Ok(done) => match processed_line(ls[k - 1], target, custom, extended) {
                Ok(l) => Ok(done.push(l)),
                Err(e) => Err(e),
            },
            Err(e) => Err(e),
        }
    }
}

/// An exported text with its timecodes written anew, line by line.
pub open spec fn processed(
    content: Seq<char>,
    target: Seq<char>,
    custom: Option<Seq<char>>,
    extended: bool,
) -> Result<Seq<char>, TimecodeFault> {
    let ls = lines(content);
    match processed_lines(ls, ls.len() as int, target, custom, extended) {
        Ok(done) => Ok(join_with_feeds(done, done.len() as int)),
        Err(e) => Err(e),
    }
}

proof fn lemma_fault_stays(
    ls: Seq<Seq<char>>,
    k: int,
    n: int,
    target: Seq<char>,
    custom: Option<Seq<char>>,
    extended: bool,
)
    requires
        0 <= k <= n,
        processed_lines(ls, k, target, custom, extended) is Err,
    ensures
        processed_lines(ls, n, target, custom, extended) == processed_lines(
            ls,
            k,
            target,
            custom,
            extended,
        ),
    decreases n - k,
{
    if k < n {
        lemma_fault_stays(ls, k, n - 1, target, custom, extended);
    }
}

fn process_line(
    raw: &[char],
    timecode_format: &str,
    custom_format: Option<&str>,
    extended: bool,
) -> (r: Result<String, TimecodeError>)
    ensures
        same_result(r, processed_line(raw@, timecode_format@, opt_str(custom_format), extended)),
{
    let trimmed: &[char] = trim_slice(raw);
    if trimmed.len() == 0 {
        return Ok(String::new());
    }
    let line: String = string_of(trimmed);
    let two: Option<Vec<Option<String>>> = match capture(
        r"^\[(\d{1,2}:\d{2}(?::\d{2})?|\d+)\]\s*\[([^\]]+)\]\s*(?:\[([^\]]+)\]\s*)?(.*)$",
        line.as_str(),
    ) {
        Ok(f) => f,
        Err(e) => {
            return Err(TimecodeError::Pattern(e));
        },
    };
    let one: Option<Vec<Option<String>>> = match capture(
        r"^\[(\d{1,2}:\d{2}(?::\d{2})?|\d+)\]\s*\[([^\]]+)\]\s*(.*)$",
        line.as_str(),
    ) {
        Ok(f) => f,
        Err(e) => {
            return Err(TimecodeError::Pattern(e));
        },
    };
    let none: Option<Vec<Option<String>>> = match capture(r"^\[(\d{1,2}:\d{2}(?::\d{2})?|\d+)\]\s*(.*)$", line.as_str()) {
        Ok(f) => f,
        Err(e) => {
            return Err(TimecodeError::Pattern(e));
        },
    };
    rewrite_line(line.as_str(), &two, &one, &none, timecode_format, custom_format, extended)
}

/// Writes the timecodes of an exported text anew, line by line.
///
/// The text is what `processed` names: for each line the pattern library
/// says what its timecode, notes and text are, and `rewrite_line` does the rest.
pub fn process_transcription_content(
    content: &str,
    timecode_format: &str,
    custom_format: Option<&str>,
    include_extended_info: bool,
) -> (r: Result<String, TimecodeError>)
    ensures
        same_result(
            r,
            processed(content@, timecode_format@, opt_str(custom_format), include_extended_info),
        ),
{
    let chars: Vec<char> = chars_of(content);
    let ls: Vec<&[char]> = split_lines(chars.as_slice());
    let n: usize = ls.len();
    let ghost all = views(ls@);
    let ghost target = timecode_format@;
    let ghost custom = opt_str(custom_format);
    let mut out: Vec<char> = Vec::new();
    let ghost mut done: Seq<Seq<char>> = Seq::empty();
    let mut k: usize = 0;
    while k < n
        invariant
            n == ls@.len(),
            0 <= k <= n,
            all == views(ls@),
            all == lines(content@),
            target == timecode_format@,
            custom == opt_str(custom_format),
            processed_lines(all, k as int, target, custom, include_extended_info) == Ok::<
                Seq<Seq<char>>,
                TimecodeFault,
            >(done),
            done.len() == k,
            out@ == join_with_feeds(done, k as int),
        decreases n - k,
    {
        assert(all[k as int] == ls@[k as int]@);
        let line: String = match process_line(
            ls[k],
            timecode_format,
            custom_format,
            include_extended_info,
        ) {
            Ok(l) => l,
            Err(e) => {
                proof {
                    lemma_fault_stays(
                        all,
                        k + 1,
                        n as int,
                        target,
                        custom,
                        include_extended_info,
                    );
                }
                return Err(e);
            },
        };
        if k > 0 {
            out.push('\n');
        }
        push_str(&mut out, line.as_str());
        proof {
            let next = done.push(line@);
            lemma_join_grows(done, next, k as int);
            done = next;
        }
        k = k + 1;
    }
    Ok(string_of(out.as_slice()))
}

proof fn lemma_join_grows(a: Seq<Seq<char>>, b: Seq<Seq<char>>, k: int)
    requires
        0 <= k <= a.len(),
        k <= b.len(),
        forall|i: int| 0 <= i < k ==> a[i] == b[i],
    ensures
        join_with_feeds(a, k) == join_with_feeds(b, k),
    decreases k,
{
    if k > 0 {
        lemma_join_grows(a, b, k - 1);
    }
}

/// The extension of an exported file: `srt` and `md` for the formats of
/// these names, `txt` for any other.
pub open spec fn export_extension(format: Seq<char>) -> Seq<char> {
    if format == "srt"@ {
        "srt"@
    } else if format == "md"@ {
        "md"@
    } else {
        "txt"@
    }
}

/// The name of an exported file: the name given where it holds a dot, else
/// the name, a dot and the extension of the format.
pub open spec fn export_name(file_name: Seq<char>, format: Seq<char>) -> Seq<char> {
    if find_char(file_name, '.', 0) < file_name.len() {
        file_name
    } else {
        file_name.push('.') + export_extension(format)
    }
}

/// Gives an exported file its name.
pub fn export_file_name(file_name: &str, output_format: &str) -> (r: String)
    ensures
        r@ == export_name(file_name@, output_format@),
{
    let mut name: Vec<char> = chars_of(file_name);
    let dot: usize = find_char_from(name.as_slice(), '.', 0);
    if dot < name.len() {
        return file_name.to_owned();
    }
    name.push('.');
    if same_text(output_format, "srt") {
        push_str(&mut name, "srt");
    } else if same_text(output_format, "md") {
        push_str(&mut name, "md");
    } else {
        push_str(&mut name, "txt");
    }
    string_of(name.as_slice())
}

/// What a fault says, as a mathematical value.
pub open spec fn fault_text(e: TimecodeFault) -> Seq<char> {
    match e {
        TimecodeFault::Pattern(p) => "Regex error: "@ + p,
        TimecodeFault::InvalidHours => "Invalid hours"@,
        TimecodeFault::InvalidMinutes => "Invalid minutes"@,
        TimecodeFault::InvalidSeconds => "Invalid seconds"@,
        TimecodeFault::Unsupported(t) => "Unsupported timecode format: "@ + t,
        TimecodeFault::NoCustomFormat => "Custom format specified but no format provided"@,
        TimecodeFault::TooLarge => "Timecode out of range"@,
    }
}

impl TimecodeError {
    /// What the error says.
    pub fn message(&self) -> (r: String)
        ensures
            r@ == fault_text(self@),
    {
        match self {
            TimecodeError::Pattern(p) => {
                let mut out: Vec<char> = chars_of("Regex error: ");
                push_str(&mut out, p.as_str());
                string_of(out.as_slice())
            },
            TimecodeError::InvalidHours => "Invalid hours".to_owned(),
            TimecodeError::InvalidMinutes => "Invalid minutes".to_owned(),
            TimecodeError::InvalidSeconds => "Invalid seconds".to_owned(),
            TimecodeError::Unsupported(t) => {
                let mut out: Vec<char> = chars_of("Unsupported timecode format: ");
                push_str(&mut out, t.as_str());
                string_of(out.as_slice())
            },
            TimecodeError::NoCustomFormat => "Custom format specified but no format provided".to_owned(),
            TimecodeError::TooLarge => "Timecode out of range".to_owned(),
        }
    }
}

} // verus!
