use regex::Regex;
use transcription_assistant::subtitle::parse_srt;

struct Contents {
    state: u64,
}

impl Contents {
    fn next(&mut self) -> u64 {
        self.state = self.state.wrapping_mul(6364136223846793005).wrapping_add(1442695040888963407);
        self.state >> 33
    }

    fn pick<'a>(&mut self, from: &[&'a str]) -> &'a str {
        from[(self.next() % from.len() as u64) as usize]
    }

    fn digits(&mut self, shapes: &[&str]) -> String {
        let shape = self.pick(shapes);
        let mut s = String::new();
        for c in shape.chars() {
            if c == 'D' {
                s.push(char::from(b'0' + (self.next() % 10) as u8));
            } else {
                s.push(c);
            }
        }
        s
    }

    fn content(&mut self) -> String {
        let times = [
            "DD:DD:DD,DDD", "DD:DD:DD.DDD", "D:D:D", "DD:DD:DD", "DD:DD:DD,D", "DD:DD:DD,DDDD",
        ];
        let odd_times = ["DD:DD", "DD:DD:DD:DD", "DD:DD:DD,", "DD::DD", "DD:DD:xD", ""];
        let texts = ["Hello", "world ", " two words", "", " ", "Anna:", "\u{43f}\u{440}", "-->"];
        let breaks = ["\n", "\n", "\n", "\r\n", "\n\n", "\r\n\r\n", "\n\n\n", "\r\r\n"];
        let mut s = String::new();
        for _ in 0..self.next() % 5 {
            s.push_str(&self.digits(&["D", "DD", "x", ""]));
            s.push_str(self.pick(&breaks));
            match self.next() % 8 {
                0 => s.push_str(self.pick(&texts)),
                1 => {
                    let a = self.digits(&odd_times);
                    let b = self.digits(&times);
                    s.push_str(&format!("{} --> {}", a, b));
                }
                2 => {
                    let a = self.digits(&times);
                    let b = self.digits(&odd_times);
                    let arrow = self.pick(&[" --> ", "-->", " -> "]);
                    s.push_str(&format!("{}{}{}", a, arrow, b));
                }
                _ => {
                    let a = self.digits(&times);
                    let b = self.digits(&times);
                    s.push_str(&format!("{} --> {}", a, b));
                }
            }
            for _ in 0..self.next() % 3 {
                s.push_str(self.pick(&breaks));
                s.push_str(self.pick(&texts));
            }
            s.push_str(self.pick(&breaks));
        }
        s
    }
}

fn time(parts: &(Regex, Regex), text: &str) -> Option<u64> {
    let fields: Vec<&str> = text.split(':').collect();
    if fields.len() != 3 || !parts.0.is_match(fields[0]) || !parts.0.is_match(fields[1]) {
        return None;
    }
    let seconds = parts.1.captures(fields[2])?;
    let fraction = seconds.get(2).map(|m| m.as_str()).unwrap_or("");
    let millis: String = fraction.chars().chain("000".chars()).take(3).collect();
    let number = |s: &str| s.parse::<u64>().ok();
    Some(
        number(fields[0])? * 3_600_000
            + number(fields[1])? * 60_000
            + number(seconds.get(1).unwrap().as_str())? * 1000
            + number(&millis)?,
    )
}

fn by_the_book(
    parts: &(Regex, Regex),
    content: &str,
) -> Option<Vec<(u64, Option<u64>, String, usize)>> {
    let mut segments = Vec::new();
    let content = content.replace("\r\n", "\n");
    for (index, block) in content.split("\n\n").enumerate() {
        let lines: Vec<&str> = block.trim().lines().collect();
        if lines.len() < 3 {
            continue;
        }
        if let Some((start, end)) = lines[1].split_once(" --> ") {
            let start = time(parts, start);
            let end = time(parts, end);
            let text = lines[2..].join(" ").trim().to_string();
            match (start, end) {
                (Some(start), Some(end)) => {
                    if !text.is_empty() {
                        segments.push((start, Some(end), text, index));
                    }
                }
                _ => return None,
            }
        }
    }
    Some(segments)
}

#[test]
fn subtitles_are_read_by_the_book_on_random_contents() {
    let parts = (Regex::new(r"^[0-9]+$").unwrap(), Regex::new(r"^([0-9]+)(?:[.,]([0-9]+))?$").unwrap());
    let mut contents = Contents { state: 17 };
    let mut good = 0;
    for _ in 0..10_000 {
        let content = contents.content();
        let ours = parse_srt(&content, "f").ok().map(|v| {
            v.into_iter().map(|s| (s.start_ms, s.end_ms, s.text, s.file_index)).collect::<Vec<_>>()
        });
        let theirs = by_the_book(&parts, &content);
        if theirs.as_ref().is_some_and(|v| !v.is_empty()) {
            good += 1;
        }
        assert_eq!(ours, theirs, "segments of {:?}", content);
    }
    assert!(good > 1_000);
}
