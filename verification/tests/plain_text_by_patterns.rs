use regex::Regex;
use transcription_assistant::plain::parse_txt;

struct Contents {
    state: u64,
}

impl Contents {
    fn next(&mut self) -> u64 {
        self.state = self.state.wrapping_mul(6364136223846793005).wrapping_add(1442695040888963407);
        self.state >> 33
    }

    fn pick<'a>(&mut self, from: &[&'a str]) -> &'a str {
        from[(self.next() % from.len() as u64) as usize]
    }

    fn line(&mut self) -> String {
        let stamps = [
            "[D:DD:DD-DD:DD:DD]", "[DD:DD-D:DD]", "[DD:DD:DD]", "[D:DD:DD.DDD]", "[DD:DD]",
            "DD:DD:DD", "D:DD:DD.DD", "DD:DD", "[DD:DD:DD.DDD --> DD:DD:DD.DDD]", "[DDDD]", "[DD]",
            "[D]", "DDDD", "[DD:DD:DD:DD]",
        ];
        let words = [
            "hello", "Anna:", ":", "::", "a", "b c", "  ", " ", "\t", "[x]", "x:", "- ", "\u{A0}",
            "\u{43f}\u{440}\u{438}", "2024", ": x",
        ];
        let mut s = String::new();
        for _ in 0..self.next() % 5 {
            if self.next() % 3 == 0 {
                let shape = self.pick(&stamps);
                for c in shape.chars() {
                    if c == 'D' {
                        s.push(char::from(b'0' + (self.next() % 10) as u8));
                    } else {
                        s.push(c);
                    }
                }
            } else {
                s.push_str(self.pick(&words));
            }
            if self.next() % 2 == 0 {
                s.push(' ');
            }
        }
        s
    }

    fn content(&mut self) -> String {
        let mut s = String::new();
        for _ in 0..self.next() % 6 {
            s.push_str(&self.line());
            s.push_str(self.pick(&["\n", "\n", "\r\n", "\n\n"]));
        }
        if self.next() % 2 == 0 {
            s.push_str(&self.line());
        }
        s
    }
}

fn number(caps: &regex::Captures, i: usize) -> f64 {
    caps.get(i).map(|m| m.as_str().parse::<f64>().unwrap()).unwrap_or(0.0)
}

fn by_the_book(patterns: &Vec<(Regex, u8)>, content: &str) -> Vec<(u64, Option<u64>, String, usize)> {
    let ms = |seconds: f64| (seconds * 1000.0).round() as u64;
    let mut segments = Vec::new();
    let mut current_time = 0.0;
    for (index, line) in content.lines().enumerate() {
        let line = line.trim();
        if line.is_empty() {
            continue;
        }
        let mut start = current_time;
        let mut end = None;
        let mut text = line.to_string();
        let mut found = false;
        for (pattern, kind) in patterns {
            if let Some(caps) = pattern.captures(line) {
                let clock = |i: usize| number(&caps, i) * 3600.0 + number(&caps, i + 1) * 60.0 + number(&caps, i + 2);
                let minutes = |i: usize| number(&caps, i) * 60.0 + number(&caps, i + 1);
                match kind {
                    0 => {
                        start = clock(1);
                        end = Some(clock(4));
                    }
                    1 => {
                        start = minutes(1);
                        end = Some(minutes(3));
                    }
                    2 => start = clock(1) + number(&caps, 4) / 1000.0,
                    3 => start = minutes(1),
                    _ => {
                        let seconds = number(&caps, 1);
                        start = if seconds < 3600.0 { seconds } else { current_time };
                    }
                }
                current_time = start;
                text = pattern.replace(&text, "").trim().to_string();
                found = true;
                break;
            }
        }
        text = text.trim_start_matches(':').trim().to_string();
        if text.ends_with(':') && text.split_whitespace().count() == 1 {
            continue;
        }
        if !text.is_empty() {
            let estimate = ((text.split_whitespace().count() as f64 / 150.0) * 60.0).max(1.0);
            if !found {
                current_time += estimate;
            }
            let end = match end {
                Some(e) => e,
                None => if found { start + estimate } else { current_time },
            };
            segments.push((ms(start), Some(ms(end)), text, index));
        }
    }
    if segments.is_empty() && !content.trim().is_empty() {
        segments.push((0, None, content.trim().to_string(), 0));
    }
    segments
}

#[test]
fn plain_text_is_read_by_the_book_on_random_contents() {
    let patterns: Vec<(Regex, u8)> = [
        (r"\[(\d{1,2}):(\d{2}):(\d{2})-(\d{1,2}):(\d{2}):(\d{2})\]", 0),
        (r"\[(\d{1,2}):(\d{2})-(\d{1,2}):(\d{2})\]", 1),
        (r"\[(\d{1,2}):(\d{2}):(\d{2})(?:[\.,](\d{1,3}))?\]", 2),
        (r"\[(\d{1,2}):(\d{2})\]", 3),
        (r"^(\d{1,2}):(\d{2}):(\d{2})(?:[\.,](\d{1,3}))?(?:\s|$)", 2),
        (r"^(\d{1,2}):(\d{2})(?:\s|$)", 3),
        (r"\[(\d{1,2}):(\d{2}):(\d{2})(?:[\.,](\d{1,3}))?\s*-->\s*\d{1,2}:\d{2}:\d{2}(?:[\.,]\d{1,3})?\]", 2),
        (r"\[(\d+)\]", 4),
    ]
    .iter()
    .map(|(p, k)| (Regex::new(p).unwrap(), *k))
    .collect();
    let mut contents = Contents { state: 13 };
    for _ in 0..10_000 {
        let content = contents.content();
        let ours: Vec<(u64, Option<u64>, String, usize)> = parse_txt(&content, "f")
            .unwrap()
            .into_iter()
            .map(|s| (s.start_ms, s.end_ms, s.text, s.file_index))
            .collect();
        assert_eq!(ours, by_the_book(&patterns, &content), "segments of {:?}", content);
    }
}
