use transcription_assistant::text::{
    chars_of, char_is_space, digit_run, find_char_from, parse_number, push_decimal, push_padded,
    same_text, skip_space_run, split_lines, string_of, trim_slice, word_count,
};

fn text(s: &[char]) -> String {
    string_of(s)
}

#[test]
fn strings_and_characters_convert_both_ways() {
    let s = "a\u{44f}\u{1F600} b";
    let chars = chars_of(s);
    assert_eq!(chars, vec!['a', '\u{44f}', '\u{1F600}', ' ', 'b']);
    assert_eq!(string_of(&chars), s);
    assert_eq!(string_of(&[]), "");
    assert_eq!(chars_of(""), Vec::<char>::new());
}

#[test]
fn whitespace_is_what_unicode_says() {
    for c in [' ', '\t', '\n', '\r', '\u{0B}', '\u{0C}', '\u{85}', '\u{A0}', '\u{1680}', '\u{2000}', '\u{200A}', '\u{2028}', '\u{2029}', '\u{202F}', '\u{205F}', '\u{3000}'] {
        assert!(char_is_space(c));
        assert!(c.is_whitespace());
    }
    for c in ['a', '0', '\u{200B}', '\u{FEFF}', '\u{1F}', '\u{180E}'] {
        assert!(!char_is_space(c));
        assert!(!c.is_whitespace());
    }
}

#[test]
fn whitespace_of_every_character() {
    for u in 0..=0x10FFFFu32 {
        if let Some(c) = char::from_u32(u) {
            assert_eq!(char_is_space(c), c.is_whitespace());
        }
    }
}

#[test]
fn trimming_cuts_both_sides() {
    assert_eq!(text(trim_slice(&chars_of("  a b \t\n"))), "a b");
    assert_eq!(text(trim_slice(&chars_of("\u{A0}x\u{3000}"))), "x");
    assert_eq!(text(trim_slice(&chars_of("   "))), "");
    assert_eq!(text(trim_slice(&chars_of(""))), "");
    assert_eq!(text(trim_slice(&chars_of("x"))), "x");
}

#[test]
fn lines_are_split_as_the_standard_library_does() {
    for s in ["", "\n", "a", "a\n", "a\n\n", "a\r\nb", "a\rb\r", "a\r\n", "\r\n\r\n", "a\n\rb", "x\r\r\ny"] {
        let chars = chars_of(s);
        let ours: Vec<String> = split_lines(&chars).iter().map(|l| string_of(l)).collect();
        let theirs: Vec<String> = s.lines().map(String::from).collect();
        assert_eq!(ours, theirs);
    }
}

#[test]
fn words_are_counted_as_the_standard_library_does() {
    for s in ["", " ", "a", " a ", "a b", "a  b\tc\nd", "\u{A0}x\u{3000}y", "one,two three"] {
        assert_eq!(word_count(&chars_of(s)), s.split_whitespace().count());
    }
}

#[test]
fn numbers_are_read_and_written() {
    assert_eq!(parse_number(&chars_of("")), Some(0));
    assert_eq!(parse_number(&chars_of("007")), Some(7));
    assert_eq!(parse_number(&chars_of("18446744073709551615")), Some(u64::MAX));
    assert_eq!(parse_number(&chars_of("18446744073709551616")), None);
    assert_eq!(parse_number(&chars_of("99999999999999999999999")), None);
    assert_eq!(parse_number(&chars_of("12a")), None);
    assert_eq!(parse_number(&chars_of("-1")), None);
    let mut out = vec!['x'];
    push_decimal(&mut out, 0);
    push_decimal(&mut out, 340282366920938463463374607431768211455);
    assert_eq!(string_of(&out), "x0340282366920938463463374607431768211455");
    let mut padded = Vec::new();
    push_padded(&mut padded, 7, 2);
    push_padded(&mut padded, 7, 0);
    push_padded(&mut padded, 123, 2);
    push_padded(&mut padded, 4, 3);
    assert_eq!(string_of(&padded), "077123004");
}

#[test]
fn runs_are_found() {
    let s = chars_of("ab  12c:");
    assert_eq!(skip_space_run(&s, 2), 4);
    assert_eq!(skip_space_run(&s, 0), 0);
    assert_eq!(digit_run(&s, 4), 6);
    assert_eq!(digit_run(&s, 0), 0);
    assert_eq!(find_char_from(&s, ':', 0), 7);
    assert_eq!(find_char_from(&s, 'z', 0), 8);
    assert_eq!(find_char_from(&s, 'a', 1), 8);
}

#[test]
fn texts_are_compared() {
    assert!(same_text("abc", "abc"));
    assert!(!same_text("abc", "abd"));
    assert!(!same_text("abc", "ab"));
}
