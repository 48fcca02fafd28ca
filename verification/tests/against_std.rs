use regex::Regex;
use transcription_assistant::detect::extract_sequence_number;
use transcription_assistant::text::{chars_of, split_lines, string_of, trim_slice, word_count};

struct Texts {
    state: u64,
}

impl Texts {
    fn next(&mut self) -> u64 {
        self.state = self.state.wrapping_mul(6364136223846793005).wrapping_add(1442695040888963407);
        self.state >> 33
    }

    fn text(&mut self, alphabet: &str, longest: u64) -> String {
        let alphabet: Vec<char> = alphabet.chars().collect();
        let len = self.next() % longest;
        let mut s = String::new();
        for _ in 0..len {
            s.push(alphabet[(self.next() % alphabet.len() as u64) as usize]);
        }
        s
    }
}

#[test]
fn lines_words_and_trimming_on_random_texts() {
    let mut texts = Texts { state: 3 };
    for _ in 0..20_000 {
        let s = texts.text("ab \t\r\r\n\n\n\u{A0}\u{2003}\u{44f}:", 16);
        let chars = chars_of(&s);
        let ours: Vec<String> = split_lines(&chars).iter().map(|l| string_of(l)).collect();
        let theirs: Vec<String> = s.lines().map(String::from).collect();
        assert_eq!(ours, theirs, "lines of {:?}", s);
        assert_eq!(string_of(trim_slice(&chars)), s.trim(), "trim of {:?}", s);
        assert_eq!(word_count(&chars), s.split_whitespace().count(), "words of {:?}", s);
    }
}

fn by_patterns(patterns: &Vec<Regex>, name: &str) -> Option<usize> {
    for pattern in patterns {
        if let Some(captures) = pattern.captures(name) {
            if let Some(number) = captures.get(1) {
                if let Ok(n) = number.as_str().parse::<usize>() {
                    return Some(n);
                }
            }
        }
    }
    None
}

#[test]
fn sequence_numbers_on_random_names() {
    let patterns: Vec<Regex> = [r"(\d+)", r"chunk[_-]?(\d+)", r"part[_-]?(\d+)", r"segment[_-]?(\d+)"]
        .iter()
        .map(|p| Regex::new(p).unwrap())
        .collect();
    let mut texts = Texts { state: 5 };
    let words = ["chunk", "part", "segment", "chun", "_", "-", "__", " ", ".txt", "x"];
    for _ in 0..20_000 {
        let mut name = String::new();
        for _ in 0..texts.next() % 6 {
            match texts.next() % 4 {
                0 => name.push_str(&texts.text("0123456789", 4)),
                1 => name.push_str(&texts.text("9", 30)),
                _ => name.push_str(words[(texts.next() % words.len() as u64) as usize]),
            }
        }
        assert_eq!(extract_sequence_number(&name), by_patterns(&patterns, &name), "key of {:?}", name);
    }
}
