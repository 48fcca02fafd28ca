use regex::Regex;
use transcription_assistant::stamp::{locate_form, locate_stamp, StampForm};
use transcription_assistant::text::chars_of;

struct Lines {
    state: u64,
}

impl Lines {
    fn next(&mut self) -> u64 {
        self.state = self.state.wrapping_mul(6364136223846793005).wrapping_add(1442695040888963407);
        self.state >> 33
    }

    fn line(&mut self) -> String {
        let alphabet: Vec<char> =
            "[[]]0123456789012345::::..,,  \t-->>ab\u{A0}".chars().collect();
        let len = self.next() % 24;
        let mut s = String::new();
        for _ in 0..len {
            s.push(alphabet[(self.next() % alphabet.len() as u64) as usize]);
        }
        s
    }

    fn stamped(&mut self) -> String {
        let shapes = [
            "[D:DD:DD-DD:DD:DD]", "[DD:DD-D:DD]", "[DD:DD:DD]", "[D:DD:DD.DDD]", "[DD:DD:DD,D]",
            "[DD:DD]", "DD:DD:DD ", "D:DD:DD.DD", "DD:DD\t", "D:DD", "[DD:DD:DD.DDD --> DD:DD:DD.DDD]",
            "[D:DD:DD-->D:DD:DD,D]", "[DDDD]", "[D]", "[DD:DD:DD:DD]", "[DDD:DD]", "[DD:DD.D]",
        ];
        let shape = shapes[(self.next() % shapes.len() as u64) as usize];
        let mut s = String::new();
        if self.next() % 3 == 0 {
            s.push_str(&self.line());
        }
        for c in shape.chars() {
            if c == 'D' {
                s.push(char::from(b'0' + (self.next() % 10) as u8));
            } else {
                s.push(c);
            }
        }
        if self.next() % 2 == 0 {
            s.push_str(&self.line());
        }
        s
    }
}

fn number(m: Option<regex::Match>) -> u64 {
    m.map(|x| x.as_str().parse::<u64>().unwrap()).unwrap_or(0)
}

fn clock(caps: &regex::Captures, first: usize) -> u64 {
    (number(caps.get(first)) * 3600 + number(caps.get(first + 1)) * 60 + number(caps.get(first + 2))) * 1000
}

fn minutes(caps: &regex::Captures, first: usize) -> u64 {
    (number(caps.get(first)) * 60 + number(caps.get(first + 1))) * 1000
}

fn char_index(s: &str, byte: usize) -> usize {
    s[..byte].chars().count()
}

fn pattern(form: StampForm) -> (Regex, u8) {
    let (pattern, kind) = match form {
        StampForm::ClockRange => (r"\[(\d{1,2}):(\d{2}):(\d{2})-(\d{1,2}):(\d{2}):(\d{2})\]", 0),
        StampForm::MinuteRange => (r"\[(\d{1,2}):(\d{2})-(\d{1,2}):(\d{2})\]", 1),
        StampForm::BracketClock => (r"\[(\d{1,2}):(\d{2}):(\d{2})(?:[\.,](\d{1,3}))?\]", 2),
        StampForm::BracketMinute => (r"\[(\d{1,2}):(\d{2})\]", 3),
        StampForm::LeadingClock => (r"^(\d{1,2}):(\d{2}):(\d{2})(?:[\.,](\d{1,3}))?(?:\s|$)", 2),
        StampForm::LeadingMinute => (r"^(\d{1,2}):(\d{2})(?:\s|$)", 3),
        StampForm::ArrowRange => (
            r"\[(\d{1,2}):(\d{2}):(\d{2})(?:[\.,](\d{1,3}))?\s*-->\s*\d{1,2}:\d{2}:\d{2}(?:[\.,]\d{1,3})?\]",
            2,
        ),
        StampForm::BracketSeconds => (r"\[(\d+)\]", 4),
    };
    (Regex::new(pattern).unwrap(), kind)
}

fn expected(pattern: &(Regex, u8), line: &str) -> Option<(usize, usize, Option<u64>, Option<u64>)> {
    let caps = pattern.0.captures(line)?;
    let kind = pattern.1;
    let all = caps.get(0).unwrap();
    let (start, end) = match kind {
        0 => (Some(clock(&caps, 1)), Some(clock(&caps, 4))),
        1 => (Some(minutes(&caps, 1)), Some(minutes(&caps, 3))),
        2 => (Some(clock(&caps, 1) + number(caps.get(4))), None),
        3 => (Some(minutes(&caps, 1)), None),
        _ => {
            let n = caps.get(1).unwrap().as_str().parse::<f64>().unwrap();
            (if n < 3600.0 { Some((n * 1000.0) as u64) } else { None }, None)
        }
    };
    Some((char_index(line, all.start()), char_index(line, all.end()), start, end))
}

const FORMS: [StampForm; 8] = [
    StampForm::ClockRange,
    StampForm::MinuteRange,
    StampForm::BracketClock,
    StampForm::BracketMinute,
    StampForm::LeadingClock,
    StampForm::LeadingMinute,
    StampForm::ArrowRange,
    StampForm::BracketSeconds,
];

fn patterns() -> Vec<(Regex, u8)> {
    FORMS.iter().map(|f| pattern(*f)).collect()
}

fn compare(patterns: &Vec<(Regex, u8)>, line: &str) {
    let chars = chars_of(line);
    let mut first = None;
    for (i, form) in FORMS.iter().enumerate() {
        let ours = locate_form(&chars, *form).map(|s| (s.at, s.end, s.start_ms, s.end_ms));
        let theirs = expected(&patterns[i], line);
        assert_eq!(ours, theirs, "form {:?} in {:?}", form, line);
        if first.is_none() {
            first = ours;
        }
    }
    let found = locate_stamp(&chars).map(|s| (s.at, s.end, s.start_ms, s.end_ms));
    assert_eq!(found, first, "timestamp of {:?}", line);
}

#[test]
fn forms_are_recognised_as_their_patterns_say_on_random_lines() {
    let mut lines = Lines { state: 7 };
    let patterns = patterns();
    for _ in 0..20_000 {
        compare(&patterns, &lines.line());
    }
}

#[test]
fn forms_are_recognised_as_their_patterns_say_on_stamped_lines() {
    let mut lines = Lines { state: 11 };
    let patterns = patterns();
    for _ in 0..20_000 {
        compare(&patterns, &lines.stamped());
    }
}

#[test]
fn forms_are_recognised_as_their_patterns_say_on_chosen_lines() {
    for line in [
        "", "[", "[]", "[1]", "[12:34]", "[12:34] [01:02:03]", "x[1[12:34]", "12:34", "12:34 ",
        "12:34x", "1:02:03.5\u{A0}x", "[1:02:03.5 -->  1:02:03]", "[00:00:01.5555]", "[00:00:01.]",
        "[99999999999999999999999999]", "[3599]", "[3600]", "[0:00-0:00]", "[00:00-00:00:00]",
        "00:00:01\r", "[12:34:56-12:34:56][12:34-12:34][12:34:56][12:34]",
    ] {
        compare(&patterns(), line);
    }
}
