//! Turning the bytes of a file into text: UTF-8 where the bytes are UTF-8,
//! else Windows-1251, the usual 8-bit encoding of Cyrillic text, else UTF-8
//! with a replacement character for what cannot be read.

use vstd::prelude::*;
use vstd::slice::slice_subrange;
use vstd::utf8::{decode_utf8, valid_utf8};

verus! {

/// The byte that Windows-1251 gives no character.
pub const UNASSIGNED: u8 = 0x98;

/// The characters of the bytes `0x80..=0xFF` in Windows-1251, in order,
/// eight to a row. The entry of the unassigned byte is a replacement
/// character that is never read.
pub open spec fn high_chars() -> Seq<char> {
    seq![
        '\u{0402}', '\u{0403}', '\u{201A}', '\u{0453}', '\u{201E}', '\u{2026}', '\u{2020}', '\u{2021}',
        '\u{20AC}', '\u{2030}', '\u{0409}', '\u{2039}', '\u{040A}', '\u{040C}', '\u{040B}', '\u{040F}',
        '\u{0452}', '\u{2018}', '\u{2019}', '\u{201C}', '\u{201D}', '\u{2022}', '\u{2013}', '\u{2014}',
        '\u{FFFD}', '\u{2122}', '\u{0459}', '\u{203A}', '\u{045A}', '\u{045C}', '\u{045B}', '\u{045F}',
        '\u{00A0}', '\u{040E}', '\u{045E}', '\u{0408}', '\u{00A4}', '\u{0490}', '\u{00A6}', '\u{00A7}',
        '\u{0401}', '\u{00A9}', '\u{0404}', '\u{00AB}', '\u{00AC}', '\u{00AD}', '\u{00AE}', '\u{0407}',
        '\u{00B0}', '\u{00B1}', '\u{0406}', '\u{0456}', '\u{0491}', '\u{00B5}', '\u{00B6}', '\u{00B7}',
        '\u{0451}', '\u{2116}', '\u{0454}', '\u{00BB}', '\u{0458}', '\u{0405}', '\u{0455}', '\u{0457}',
        '\u{0410}', '\u{0411}', '\u{0412}', '\u{0413}', '\u{0414}', '\u{0415}', '\u{0416}', '\u{0417}',
        '\u{0418}', '\u{0419}', '\u{041A}', '\u{041B}', '\u{041C}', '\u{041D}', '\u{041E}', '\u{041F}',
        '\u{0420}', '\u{0421}', '\u{0422}', '\u{0423}', '\u{0424}', '\u{0425}', '\u{0426}', '\u{0427}',
        '\u{0428}', '\u{0429}', '\u{042A}', '\u{042B}', '\u{042C}', '\u{042D}', '\u{042E}', '\u{042F}',
        '\u{0430}', '\u{0431}', '\u{0432}', '\u{0433}', '\u{0434}', '\u{0435}', '\u{0436}', '\u{0437}',
        '\u{0438}', '\u{0439}', '\u{043A}', '\u{043B}', '\u{043C}', '\u{043D}', '\u{043E}', '\u{043F}',
        '\u{0440}', '\u{0441}', '\u{0442}', '\u{0443}', '\u{0444}', '\u{0445}', '\u{0446}', '\u{0447}',
        '\u{0448}', '\u{0449}', '\u{044A}', '\u{044B}', '\u{044C}', '\u{044D}', '\u{044E}', '\u{044F}',
    ]
}

/// The character of one byte in Windows-1251: ASCII as it is, the upper
/// half by the table, nothing for the unassigned byte.
pub open spec fn cyrillic_char(b: u8) -> Option<char> {
    if b < 0x80 {
        Some(b as char)
    } else if b == UNASSIGNED {
        None
    } else {
        Some(high_chars()[b - 0x80])
    }
}

/// Whether every byte of `b` has a character in Windows-1251.
pub open spec fn is_cyrillic(b: Seq<u8>) -> bool {
    forall|i: int| 0 <= i < b.len() ==> #[trigger] b[i] != UNASSIGNED
}

/// The text of `b` read as Windows-1251, byte by byte.
pub open spec fn cyrillic_text(b: Seq<u8>) -> Seq<char> {
    Seq::new(
        b.len(),
        |i: int|
            match cyrillic_char(b[i]) {
                Some(c) => c,
                None => '\u{FFFD}',
            },
    )
}

/// `b` without the byte-order mark of UTF-8 at its start, if it has one.
pub open spec fn without_mark(b: Seq<u8>) -> Seq<u8> {
    if b.len() >= 3 && b[0] == 0xEF && b[1] == 0xBB && b[2] == 0xBF {
        b.skip(3)
    } else {
        b
    }
}

/// What `String::from_utf8_lossy` makes of bytes: the text they encode,
/// with a replacement character for each part that is no UTF-8.
pub uninterp spec fn lossy_text(b: Seq<u8>) -> Seq<char>;

/// The text of the bytes of a file.
pub open spec fn decoded(bytes: Seq<u8>) -> Seq<char> {
    let b = without_mark(bytes);
    if valid_utf8(b) {
        decode_utf8(b)
    } else if is_cyrillic(b) {
        cyrillic_text(b)
    } else {
        lossy_text(b)
    }
}

/// `std::str::from_utf8`, which reads bytes as UTF-8 and refuses what is
/// none. The contract says in the terms of `vstd::utf8` that it gives the
/// text exactly where the bytes are valid UTF-8, and then the text they encode.
#[verifier::external_body]
fn utf8_text(b: &[u8]) -> (r: Option<String>)
    ensures
        r is Some <==> valid_utf8(b@),
        r matches Some(s) ==> s@ == decode_utf8(b@),
{
    match std::str::from_utf8(b) {
        Ok(s) => Some(s.to_owned()),
        Err(_) => None,
    }
}

/// `String::from_utf8_lossy`, which reads bytes as UTF-8 and puts a
/// replacement character where they are none. The contract only names the result.
#[verifier::external_body]
fn utf8_lossy(b: &[u8]) -> (r: String)
    ensures
        r@ == lossy_text(b@),
{
    String::from_utf8_lossy(b).into_owned()
}

fn high_table() -> (t: Vec<char>)
    ensures
        t@ == high_chars(),
{
    let t: Vec<char> = vec![
        '\u{0402}', '\u{0403}', '\u{201A}', '\u{0453}', '\u{201E}', '\u{2026}', '\u{2020}', '\u{2021}',
        '\u{20AC}', '\u{2030}', '\u{0409}', '\u{2039}', '\u{040A}', '\u{040C}', '\u{040B}', '\u{040F}',
        '\u{0452}', '\u{2018}', '\u{2019}', '\u{201C}', '\u{201D}', '\u{2022}', '\u{2013}', '\u{2014}',
        '\u{FFFD}', '\u{2122}', '\u{0459}', '\u{203A}', '\u{045A}', '\u{045C}', '\u{045B}', '\u{045F}',
        '\u{00A0}', '\u{040E}', '\u{045E}', '\u{0408}', '\u{00A4}', '\u{0490}', '\u{00A6}', '\u{00A7}',
        '\u{0401}', '\u{00A9}', '\u{0404}', '\u{00AB}', '\u{00AC}', '\u{00AD}', '\u{00AE}', '\u{0407}',
        '\u{00B0}', '\u{00B1}', '\u{0406}', '\u{0456}', '\u{0491}', '\u{00B5}', '\u{00B6}', '\u{00B7}',
        '\u{0451}', '\u{2116}', '\u{0454}', '\u{00BB}', '\u{0458}', '\u{0405}', '\u{0455}', '\u{0457}',
        '\u{0410}', '\u{0411}', '\u{0412}', '\u{0413}', '\u{0414}', '\u{0415}', '\u{0416}', '\u{0417}',
        '\u{0418}', '\u{0419}', '\u{041A}', '\u{041B}', '\u{041C}', '\u{041D}', '\u{041E}', '\u{041F}',
        '\u{0420}', '\u{0421}', '\u{0422}', '\u{0423}', '\u{0424}', '\u{0425}', '\u{0426}', '\u{0427}',
        '\u{0428}', '\u{0429}', '\u{042A}', '\u{042B}', '\u{042C}', '\u{042D}', '\u{042E}', '\u{042F}',
        '\u{0430}', '\u{0431}', '\u{0432}', '\u{0433}', '\u{0434}', '\u{0435}', '\u{0436}', '\u{0437}',
        '\u{0438}', '\u{0439}', '\u{043A}', '\u{043B}', '\u{043C}', '\u{043D}', '\u{043E}', '\u{043F}',
        '\u{0440}', '\u{0441}', '\u{0442}', '\u{0443}', '\u{0444}', '\u{0445}', '\u{0446}', '\u{0447}',
        '\u{0448}', '\u{0449}', '\u{044A}', '\u{044B}', '\u{044C}', '\u{044D}', '\u{044E}', '\u{044F}',
    ];
    assert(t@ =~= high_chars());
    t
}

/// Reads bytes as Windows-1251. `None` where a byte has no character.
fn read_cyrillic(b: &[u8]) -> (r: Option<String>)
    ensures
        r is Some <==> is_cyrillic(b@),
        r matches Some(s) ==> s@ == cyrillic_text(b@),
{
    let table: Vec<char> = high_table();
    let n: usize = b.len();
    let mut out: String = String::new();
    let mut i: usize = 0;
    while i < n
        invariant
            n == b@.len(),
            0 <= i <= n,
            table@ == high_chars(),
            is_cyrillic(b@.take(i as int)),
            out@ == cyrillic_text(b@.take(i as int)),
        decreases n - i,
    {
        let x: u8 = b[i];
        if x == UNASSIGNED {
            return None;
        }
        let c: char = if x < 0x80 {
            x as char
        } else {
            table[(x - 0x80) as usize]
        };
        out.push(c);
        proof {
            assert(b@.take(i + 1) =~= b@.take(i as int).push(x));
            assert(cyrillic_text(b@.take(i + 1)) =~= cyrillic_text(b@.take(i as int)).push(c));
        }
        i = i + 1;
    }
    proof {
        assert(b@.take(n as int) =~= b@);
    }
    Some(out)
}

/// Turns the bytes of a file into text. It never fails.
///
/// A byte-order mark of UTF-8 at the start is dropped. Valid UTF-8 is read
/// as such; other bytes are read as Windows-1251 if each has a character
/// there; what is left is read as UTF-8 with replacement characters.
pub fn decode_text(bytes: &[u8]) -> (r: String)
    ensures
        r@ == decoded(bytes@),
{
    let n: usize = bytes.len();
    let b: &[u8] = if n >= 3 && bytes[0] == 0xEF && bytes[1] == 0xBB && bytes[2] == 0xBF {
        let rest: &[u8] = slice_subrange(bytes, 3, n);
        assert(rest@ =~= bytes@.skip(3));
        rest
    } else {
        bytes
    };
    match utf8_text(b) {
        Some(s) => s,
        None => match read_cyrillic(b) {
            Some(s) => s,
            None => utf8_lossy(b),
        },
    }
}

} // verus!
