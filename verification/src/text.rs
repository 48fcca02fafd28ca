//! Character-level building blocks: whitespace, trimming, lines, words,
//! decimal numerals and conversions between strings and character vectors.

use vstd::prelude::*;
use vstd::slice::slice_subrange;

verus! {

/// Whether `c` has the Unicode `White_Space` property.
pub open spec fn is_space(c: char) -> bool {
    let u = c as u32;
    (0x09 <= u <= 0x0D) || u == 0x20 || u == 0x85 || u == 0xA0 || u == 0x1680 || (0x2000 <= u
        <= 0x200A) || u == 0x2028 || u == 0x2029 || u == 0x202F || u == 0x205F || u == 0x3000
}

/// Whether `c` is one of the ASCII decimal digits.
pub open spec fn is_digit(c: char) -> bool {
    0x30 <= c as u32 <= 0x39
}

/// The value of the ASCII decimal digit `c`.
pub open spec fn digit_of(c: char) -> nat {
    if is_digit(c) {
        (c as u32 - 0x30) as nat
    } else {
        0
    }
}

/// Tells whether `c` is whitespace.
pub fn char_is_space(c: char) -> (b: bool)
    ensures
        b == is_space(c),
{
    let u: u32 = c as u32;
    (0x09 <= u && u <= 0x0D) || u == 0x20 || u == 0x85 || u == 0xA0 || u == 0x1680 || (0x2000 <= u
        && u <= 0x200A) || u == 0x2028 || u == 0x2029 || u == 0x202F || u == 0x205F || u == 0x3000
}

/// Tells whether `c` is a digit.
pub fn char_is_digit(c: char) -> (b: bool)
    ensures
        b == is_digit(c),
{
    let u: u32 = c as u32;
    0x30 <= u && u <= 0x39
}

/// The value of `c` as a digit, if it is one.
pub fn char_digit(c: char) -> (d: Option<u64>)
    ensures
        match d {
            Some(v) => is_digit(c) && v == digit_of(c) && v <= 9,
            None => !is_digit(c),
        },
{
    let u: u32 = c as u32;
    if 0x30 <= u && u <= 0x39 {
        Some((u - 0x30) as u64)
    } else {
        None
    }
}

/// The first index at or after `i` that holds no whitespace, or the length.
pub open spec fn skip_spaces(s: Seq<char>, i: int) -> int
    decreases s.len() - i,
{
    if 0 <= i < s.len() && is_space(s[i]) {
        skip_spaces(s, i + 1)
    } else {
        i
    }
}

/// The smallest index `j` with `lo <= j <= hi` such that `s[j..hi]` is all whitespace.
pub open spec fn back_spaces(s: Seq<char>, lo: int, hi: int) -> int
    decreases hi - lo,
{
    if lo < hi <= s.len() && is_space(s[hi - 1]) {
        back_spaces(s, lo, hi - 1)
    } else {
        hi
    }
}

/// `s` without its leading and trailing whitespace.
pub open spec fn trim(s: Seq<char>) -> Seq<char> {
    let a = skip_spaces(s, 0);
    s.subrange(a, back_spaces(s, a, s.len() as int))
}

/// Where the whitespace from `i` on ends: within the text, behind
/// whitespace only, and before something else.
pub proof fn lemma_skip_spaces_bounds(s: Seq<char>, i: int)
    requires
        0 <= i <= s.len(),
    ensures
        i <= skip_spaces(s, i) <= s.len(),
        forall|k: int| i <= k < skip_spaces(s, i) ==> is_space(#[trigger] s[k]),
        skip_spaces(s, i) < s.len() ==> !is_space(s[skip_spaces(s, i)]),
    decreases s.len() - i,
{
    if i < s.len() && is_space(s[i]) {
        lemma_skip_spaces_bounds(s, i + 1);
    }
}

/// Where the whitespace before `hi` starts: not before `lo`, before
/// whitespace only, and behind something else.
pub proof fn lemma_back_spaces_bounds(s: Seq<char>, lo: int, hi: int)
    requires
        0 <= lo <= hi <= s.len(),
    ensures
        lo <= back_spaces(s, lo, hi) <= hi,
        forall|k: int| back_spaces(s, lo, hi) <= k < hi ==> is_space(#[trigger] s[k]),
        lo < back_spaces(s, lo, hi) ==> !is_space(s[back_spaces(s, lo, hi) - 1]),
    decreases hi - lo,
{
    if lo < hi && is_space(s[hi - 1]) {
        lemma_back_spaces_bounds(s, lo, hi - 1);
    }
}

/// Finds the first index at or after `i` that holds no whitespace.
pub fn skip_space_run(s: &[char], i: usize) -> (r: usize)
    requires
        i <= s@.len(),
    ensures
        r == skip_spaces(s@, i as int),
        i <= r <= s@.len(),
{
    let n: usize = s.len();
    let mut a: usize = i;
    while a < n && char_is_space(s[a])
        invariant
            n == s@.len(),
            i <= a <= n,
            skip_spaces(s@, a as int) == skip_spaces(s@, i as int),
        decreases n - a,
    {
        a = a + 1;
    }
    a
}

/// Trims a slice of characters on both sides.
pub fn trim_slice<'a>(s: &'a [char]) -> (r: &'a [char])
    ensures
        r@ == trim(s@),
{
    let n: usize = s.len();
    let a: usize = skip_space_run(s, 0);
    let mut b: usize = n;
    while a < b && char_is_space(s[b - 1])
        invariant
            n == s@.len(),
            0 <= a <= b <= n,
            back_spaces(s@, a as int, b as int) == back_spaces(s@, a as int, n as int),
        decreases b - a,
    {
        b = b - 1;
    }
    slice_subrange(s, a, b)
}

/// The first index at or after `i` that holds `c`, or the length.
pub open spec fn find_char(s: Seq<char>, c: char, i: int) -> int
    decreases s.len() - i,
{
    if 0 <= i < s.len() && s[i] != c {
        find_char(s, c, i + 1)
    } else {
        i
    }
}

/// Where `c` is found from `i` on: within the text, behind characters
/// other than `c`, and at a `c` unless at the end.
pub proof fn lemma_find_char_bounds(s: Seq<char>, c: char, i: int)
    requires
        0 <= i <= s.len(),
    ensures
        i <= find_char(s, c, i) <= s.len(),
        forall|k: int| i <= k < find_char(s, c, i) ==> #[trigger] s[k] != c,
        find_char(s, c, i) < s.len() ==> s[find_char(s, c, i)] == c,
    decreases s.len() - i,
{
    if i < s.len() && s[i] != c {
        lemma_find_char_bounds(s, c, i + 1);
    }
}

/// Finds the first occurrence of `c` at or after `i`.
pub fn find_char_from(s: &[char], c: char, i: usize) -> (r: usize)
    requires
        i <= s@.len(),
    ensures
        r == find_char(s@, c, i as int),
        i <= r <= s@.len(),
{
    let n: usize = s.len();
    let mut k: usize = i;
    while k < n && s[k] != c
        invariant
            n == s@.len(),
            i <= k <= n,
            find_char(s@, c, k as int) == find_char(s@, c, i as int),
        decreases n - k,
    {
        k = k + 1;
    }
    k
}

/// A line as it stands between two line feeds: one carriage return before
/// the line feed belongs to the line break.
pub open spec fn strip_line_end(line: Seq<char>, terminated: bool) -> Seq<char> {
    if terminated && line.len() > 0 && line.last() == '\r' {
        line.drop_last()
    } else {
        line
    }
}

/// The lines of `s` that start at or after index `i`.
pub open spec fn lines_from(s: Seq<char>, i: int) -> Seq<Seq<char>>
    decreases s.len() + 1 - i,
{
    if 0 <= i < s.len() {
        let e = find_char(s, '\n', i);
        if i <= e <= s.len() {
            seq![strip_line_end(s.subrange(i, e), e < s.len())] + lines_from(s, e + 1)
        } else {
            Seq::empty()
        }
    } else {
        Seq::empty()
    }
}

/// The lines of `s`: split at line feeds, a final empty line is not a line,
/// and a carriage return right before a line feed is dropped.
pub open spec fn lines(s: Seq<char>) -> Seq<Seq<char>> {
    lines_from(s, 0)
}

/// The views of a sequence of slices.
pub open spec fn views(v: Seq<&[char]>) -> Seq<Seq<char>> {
    Seq::new(v.len(), |i: int| v[i]@)
}

/// Splits a slice of characters into its lines.
pub fn split_lines<'a>(s: &'a [char]) -> (r: Vec<&'a [char]>)
    ensures
        views(r@) == lines(s@),
{
    let n: usize = s.len();
    let mut out: Vec<&'a [char]> = Vec::new();
    let mut i: usize = 0;
    assert(views(out@) + lines_from(s@, 0) =~= lines(s@));
    while i < n
        invariant
            n == s@.len(),
            0 <= i <= n,
            views(out@) + lines_from(s@, i as int) == lines(s@),
        decreases n - i,
    {
        let e: usize = find_char_from(s, '\n', i);
        let terminated: bool = e < n;
        let mut hi: usize = e;
        if terminated && i < e && s[e - 1] == '\r' {
            hi = e - 1;
        }
        let line: &'a [char] = slice_subrange(s, i, hi);
        proof {
            let full = s@.subrange(i as int, e as int);
            assert(line@ == strip_line_end(full, terminated)) by {
                if terminated && i < e && s@[e - 1] == '\r' {
                    assert(full.last() == '\r');
                    assert(full.drop_last() =~= s@.subrange(i as int, hi as int));
                }
            }
            let ghost_prev = views(out@);
            assert(views(out@.push(line)) =~= ghost_prev + seq![line@]);
            assert(ghost_prev + seq![line@] + lines_from(s@, e + 1) =~= ghost_prev + (seq![line@]
                + lines_from(s@, e + 1)));
        }
        out.push(line);
        if terminated {
            i = e + 1;
        } else {
            proof {
                assert(lines_from(s@, e + 1) =~= lines_from(s@, n as int));
            }
            i = n;
        }
    }
    proof {
        assert(lines_from(s@, i as int) =~= Seq::<Seq<char>>::empty());
        assert(views(out@) + Seq::<Seq<char>>::empty() =~= views(out@));
    }
    out
}

/// Whether a word starts at index `i`: a character that is no whitespace,
/// at the start or after whitespace.
pub open spec fn is_word_start(s: Seq<char>, i: int) -> bool {
    0 <= i < s.len() && !is_space(s[i]) && (i == 0 || is_space(s[i - 1]))
}

/// The number of words that start before index `n`.
pub open spec fn word_starts(s: Seq<char>, n: int) -> nat
    decreases n,
{
    if n <= 0 {
        0
    } else {
        word_starts(s, n - 1) + if is_word_start(s, n - 1) {
            1nat
        } else {
            0nat
        }
    }
}

/// The number of maximal runs of characters that are no whitespace.
pub open spec fn count_words(s: Seq<char>) -> nat {
    word_starts(s, s.len() as int)
}

/// Counts the words of a slice of characters.
pub fn word_count(s: &[char]) -> (r: usize)
    ensures
        r == count_words(s@),
{
    let n: usize = s.len();
    let mut count: usize = 0;
    let mut i: usize = 0;
    let mut prev_space: bool = true;
    while i < n
        invariant
            n == s@.len(),
            0 <= i <= n,
            count == word_starts(s@, i as int),
            count <= i,
            prev_space == (i == 0 || is_space(s@[i - 1])),
        decreases n - i,
    {
        let sp: bool = char_is_space(s[i]);
        if !sp && prev_space {
            count = count + 1;
        }
        prev_space = sp;
        i = i + 1;
    }
    count
}

/// `String::push` appends one character at the end of the string.
pub assume_specification[ String::push ](s: &mut String, c: char)
    ensures
        final(s)@ == old(s)@.push(c),
;

/// The characters of a string, in order.
pub fn chars_of(s: &str) -> (v: Vec<char>)
    ensures
        v@ == s@,
{
    broadcast use vstd::string::group_string_axioms;

    let mut v: Vec<char> = Vec::new();
    for c in it: s.chars()
        invariant
            it.seq() == s@,
            v@ == it.seq().take(it.index()),
    {
        v.push(c);
    }
    v
}

/// The string made of the characters of `v`, in order.
pub fn string_of(v: &[char]) -> (s: String)
    ensures
        s@ == v@,
{
    let n: usize = v.len();
    let mut s: String = String::new();
    let mut i: usize = 0;
    while i < n
        invariant
            n == v@.len(),
            0 <= i <= n,
            s@ == v@.take(i as int),
        decreases n - i,
    {
        s.push(v[i]);
        i = i + 1;
    }
    s
}

/// The first index at or after `i` that holds no digit, or the length.
pub open spec fn digit_run_end(s: Seq<char>, i: int) -> int
    decreases s.len() - i,
{
    if 0 <= i < s.len() && is_digit(s[i]) {
        digit_run_end(s, i + 1)
    } else {
        i
    }
}

/// Where the digits from `i` on end: within the text, behind digits only,
/// and before something else.
pub proof fn lemma_digit_run_bounds(s: Seq<char>, i: int)
    requires
        0 <= i <= s.len(),
    ensures
        i <= digit_run_end(s, i) <= s.len(),
        forall|k: int| i <= k < digit_run_end(s, i) ==> is_digit(#[trigger] s[k]),
        digit_run_end(s, i) < s.len() ==> !is_digit(s[digit_run_end(s, i)]),
    decreases s.len() - i,
{
    if i < s.len() && is_digit(s[i]) {
        lemma_digit_run_bounds(s, i + 1);
    }
}

/// Finds where the run of digits that starts at `i` ends.
pub fn digit_run(s: &[char], i: usize) -> (e: usize)
    requires
        i <= s@.len(),
    ensures
        e == digit_run_end(s@, i as int),
        i <= e <= s@.len(),
{
    let n: usize = s.len();
    let mut k: usize = i;
    while k < n && char_is_digit(s[k])
        invariant
            n == s@.len(),
            i <= k <= n,
            digit_run_end(s@, k as int) == digit_run_end(s@, i as int),
        decreases n - k,
    {
        k = k + 1;
    }
    k
}

/// Whether `s` holds digits only.
pub open spec fn all_digits(s: Seq<char>) -> bool {
    forall|i: int| 0 <= i < s.len() ==> is_digit(#[trigger] s[i])
}

/// The number that the decimal numeral `s` stands for.
pub open spec fn digits_value(s: Seq<char>) -> nat
    decreases s.len(),
{
    if s.len() == 0 {
        0
    } else {
        digits_value(s.drop_last()) * 10 + digit_of(s.last())
    }
}

/// Ten to the power `n`.
pub open spec fn pow10(n: nat) -> nat
    decreases n,
{
    if n == 0 {
        1
    } else {
        10 * pow10((n - 1) as nat)
    }
}

/// A numeral of `n` digits stands for a number below ten to the power `n`.
pub proof fn lemma_digits_value_bound(s: Seq<char>)
    ensures
        digits_value(s) < pow10(s.len()),
    decreases s.len(),
{
    if s.len() > 0 {
        lemma_digits_value_bound(s.drop_last());
    }
}

/// The start of a numeral stands for no more than the whole.
pub proof fn lemma_digits_value_prefix(s: Seq<char>, k: int)
    requires
        0 <= k <= s.len(),
    ensures
        digits_value(s.take(k)) <= digits_value(s),
    decreases s.len() - k,
{
    if k < s.len() {
        lemma_digits_value_prefix(s, k + 1);
        assert(s.take(k + 1).drop_last() =~= s.take(k));
    } else {
        assert(s.take(k) =~= s);
    }
}

/// Reads a decimal numeral; `None` when it holds anything but digits or
/// its value does not fit. The empty numeral stands for zero.
pub fn parse_number(s: &[char]) -> (r: Option<u64>)
    ensures
        r == (if all_digits(s@) && digits_value(s@) <= u64::MAX {
            Some(digits_value(s@) as u64)
        } else {
            None
        }),
{
    let n: usize = s.len();
    let mut acc: u64 = 0;
    let mut i: usize = 0;
    while i < n
        invariant
            n == s@.len(),
            0 <= i <= n,
            all_digits(s@.take(i as int)),
            acc == digits_value(s@.take(i as int)),
        decreases n - i,
    {
        let d: u64 = match char_digit(s[i]) {
            Some(d) => d,
            None => {
                return None;
            },
        };
        proof {
            assert(s@.take(i + 1).drop_last() =~= s@.take(i as int));
            assert(s@.take(i + 1).last() == s@[i as int]);
            lemma_digits_value_prefix(s@, i + 1);
        }
        if acc > (u64::MAX - d) / 10 {
            return None;
        }
        acc = acc * 10 + d;
        i = i + 1;
    }
    proof {
        assert(s@.take(n as int) =~= s@);
    }
    Some(acc)
}

/// Reads a numeral of at most three digits.
pub(crate) fn small_number(s: &[char], lo: usize, hi: usize) -> (r: u64)
    requires
        lo <= hi <= s@.len(),
        hi - lo <= 3,
        all_digits(s@.subrange(lo as int, hi as int)),
    ensures
        r == digits_value(s@.subrange(lo as int, hi as int)),
        r < pow10((hi - lo) as nat),
        r <= 999,
{
    let part: &[char] = slice_subrange(s, lo, hi);
    proof {
        lemma_digits_value_bound(part@);
        reveal_with_fuel(pow10, 4);
    }
    match parse_number(part) {
        Some(v) => v,
        None => 0,
    }
}

/// The ASCII digit for `d`.
pub open spec fn digit_char(d: nat) -> char {
    if d == 0 {
        '0'
    } else if d == 1 {
        '1'
    } else if d == 2 {
        '2'
    } else if d == 3 {
        '3'
    } else if d == 4 {
        '4'
    } else if d == 5 {
        '5'
    } else if d == 6 {
        '6'
    } else if d == 7 {
        '7'
    } else if d == 8 {
        '8'
    } else {
        '9'
    }
}

/// The decimal numeral of `n`, without leading zeros.
pub open spec fn decimal(n: nat) -> Seq<char>
    decreases n,
{
    if n < 10 {
        seq![digit_char(n)]
    } else {
        decimal(n / 10).push(digit_char(n % 10))
    }
}

/// The decimal numeral of `n`, filled with zeros on the left up to `width`.
pub open spec fn padded(n: nat, width: nat) -> Seq<char> {
    let d = decimal(n);
    if d.len() >= width {
        d
    } else {
        Seq::new((width - d.len()) as nat, |i: int| '0') + d
    }
}

/// The digit for `d` is a digit and stands for `d`.
pub proof fn lemma_digit_char(d: nat)
    requires
        d < 10,
    ensures
        is_digit(digit_char(d)),
        digit_of(digit_char(d)) == d,
{
}

/// The decimal numeral of `n` is digits only and stands for `n`.
pub proof fn lemma_decimal_digits(n: nat)
    ensures
        decimal(n).len() >= 1,
        all_digits(decimal(n)),
        digits_value(decimal(n)) == n,
    decreases n,
{
    if n < 10 {
        lemma_digit_char(n);
        assert(decimal(n).drop_last() =~= Seq::<char>::empty());
        assert(decimal(n).last() == digit_char(n));
        assert(digits_value(decimal(n).drop_last()) == 0);
    } else {
        lemma_decimal_digits(n / 10);
        lemma_digit_char(n % 10);
        assert(decimal(n).drop_last() =~= decimal(n / 10));
        assert(decimal(n).last() == digit_char(n % 10));
    }
}

fn digit_to_char(d: u8) -> (c: char)
    requires
        d < 10,
    ensures
        c == digit_char(d as nat),
{
    if d == 0 {
        '0'
    } else if d == 1 {
        '1'
    } else if d == 2 {
        '2'
    } else if d == 3 {
        '3'
    } else if d == 4 {
        '4'
    } else if d == 5 {
        '5'
    } else if d == 6 {
        '6'
    } else if d == 7 {
        '7'
    } else if d == 8 {
        '8'
    } else {
        '9'
    }
}

/// Appends the decimal numeral of `n`.
pub fn push_decimal(out: &mut Vec<char>, n: u128)
    ensures
        final(out)@ == old(out)@ + decimal(n as nat),
    decreases n,
{
    if n >= 10 {
        push_decimal(out, n / 10);
    }
    let d: u8 = (n % 10) as u8;
    out.push(digit_to_char(d));
    proof {
        if n >= 10 {
            assert(old(out)@ + decimal((n / 10) as nat).push(digit_char((n % 10) as nat)) =~= (old(
                out,
            )@ + decimal((n / 10) as nat)).push(digit_char((n % 10) as nat)));
        } else {
            assert(old(out)@.push(digit_char(n as nat)) =~= old(out)@ + seq![digit_char(n as nat)]);
        }
    }
}

/// Appends the decimal numeral of `n`, at least `width` characters wide.
pub fn push_padded(out: &mut Vec<char>, n: u128, width: usize)
    ensures
        final(out)@ == old(out)@ + padded(n as nat, width as nat),
{
    let mut digits: Vec<char> = Vec::new();
    push_decimal(&mut digits, n);
    assert(digits@ =~= decimal(n as nat));
    let len: usize = digits.len();
    let mut i: usize = len;
    while i < width
        invariant
            len <= i,
            i <= width || i == len,
            out@ == old(out)@ + Seq::new((i - len) as nat, |k: int| '0'),
        decreases width - i,
    {
        proof {
            assert(Seq::new((i - len) as nat, |k: int| '0').push('0') =~= Seq::new(
                (i + 1 - len) as nat,
                |k: int| '0',
            ));
        }
        out.push('0');
        i = i + 1;
    }
    let mut k: usize = 0;
    let ghost zeros = out@;
    while k < len
        invariant
            len == digits@.len(),
            0 <= k <= len,
            out@ == zeros + digits@.take(k as int),
        decreases len - k,
    {
        out.push(digits[k]);
        proof {
            assert(digits@.take(k + 1) =~= digits@.take(k as int).push(digits@[k as int]));
        }
        k = k + 1;
    }
    proof {
        assert(digits@.take(len as int) =~= digits@);
        if len >= width {
            assert(Seq::new(0nat, |k: int| '0') =~= Seq::<char>::empty());
            assert(zeros =~= old(out)@);
        } else {
            assert(old(out)@ + Seq::new((width - len) as nat, |k: int| '0') + digits@ =~= old(out)@
                + (Seq::new((width - len) as nat, |k: int| '0') + digits@));
        }
    }
}

/// Whether two strings hold the same text.
pub fn same_text(a: &str, b: &str) -> (r: bool)
    ensures
        r == (a@ == b@),
{
    let x: String = a.to_owned();
    let y: String = b.to_owned();
    x == y
}

/// Whether `part` stands at index `at` of `s`.
pub open spec fn stands_at(s: Seq<char>, at: int, part: Seq<char>) -> bool {
    0 <= at && at + part.len() <= s.len() && s.subrange(at, at + part.len()) == part
}

/// Tells whether `part` stands at index `at` of `s`.
pub fn stands_here(s: &[char], at: usize, part: &[char]) -> (b: bool)
    requires
        at <= s@.len(),
    ensures
        b == stands_at(s@, at as int, part@),
        b ==> at + part@.len() <= s@.len(),
{
    let n: usize = s.len();
    let m: usize = part.len();
    if n - at < m {
        return false;
    }
    let mut k: usize = 0;
    while k < m
        invariant
            n == s@.len(),
            m == part@.len(),
            at + m <= n,
            0 <= k <= m,
            forall|j: int| 0 <= j < k ==> s@[at + j] == #[trigger] part@[j],
        decreases m - k,
    {
        if s[at + k] != part[k] {
            proof {
                assert(s@.subrange(at as int, at + m)[k as int] != part@[k as int]);
            }
            return false;
        }
        k = k + 1;
    }
    proof {
        assert(s@.subrange(at as int, at + m) =~= part@);
    }
    true
}

/// Whether `t` is not empty and neither starts nor ends with whitespace.
pub open spec fn is_trimmed(t: Seq<char>) -> bool {
    t.len() > 0 && !is_space(t[0]) && !is_space(t.last())
}

/// What is left of a text after trimming is empty or trimmed.
pub proof fn lemma_trim_is_trimmed(s: Seq<char>)
    ensures
        trim(s).len() == 0 || is_trimmed(trim(s)),
{
    lemma_skip_spaces_bounds(s, 0);
    let a = skip_spaces(s, 0);
    lemma_back_spaces_bounds(s, a, s.len() as int);
}

/// The first index at or after `i` where `part` stands, or the length.
pub open spec fn find_part(s: Seq<char>, part: Seq<char>, i: int) -> int
    decreases s.len() - i,
{
    if 0 <= i < s.len() && !stands_at(s, i, part) {
        find_part(s, part, i + 1)
    } else {
        i
    }
}

/// Finds the first place at or after `i` where `part` stands.
pub fn find_part_from(s: &[char], part: &[char], i: usize) -> (r: usize)
    requires
        i <= s@.len(),
    ensures
        r == find_part(s@, part@, i as int),
        i <= r <= s@.len(),
        r < s@.len() ==> stands_at(s@, r as int, part@),
{
    let n: usize = s.len();
    let mut at: usize = i;
    while at < n && !stands_here(s, at, part)
        invariant
            n == s@.len(),
            i <= at <= n,
            find_part(s@, part@, at as int) == find_part(s@, part@, i as int),
        decreases n - at,
    {
        at = at + 1;
    }
    at
}

/// The view of an optional string.
pub open spec fn opt_str(s: Option<&str>) -> Option<Seq<char>> {
    match s {
        Some(x) => Some(x@),
        None => None,
    }
}

/// The first of two values that is there.
pub open spec fn or_else<T>(a: Option<T>, b: Option<T>) -> Option<T> {
    match a {
        Some(_) => a,
        None => b,
    }
}

} // verus!
