use transcription_assistant::clock::made_at;
use transcription_assistant::merger::{
    parse_transcription_file, sort_files, SourceFile, TranscriptionMerger,
};
use transcription_assistant::model::{
    ErrorKind, FileFormat, MergeOptions, TranscriptionFile, TranscriptionSegment,
};
use transcription_assistant::order::stable_order_of;
use transcription_assistant::timeline::{merge_segments, sort_by_start};

fn source(name: &str, content: &str) -> SourceFile {
    let extension = match name.rfind('.') {
        Some(dot) => Some(String::from(&name[dot + 1..])),
        None => None,
    };
    SourceFile {
        path: format!("/data/{}", name),
        filename: Some(String::from(name)),
        extension,
        bytes: content.as_bytes().to_vec(),
    }
}

fn options(format: FileFormat) -> MergeOptions {
    MergeOptions {
        output_format: format,
        time_offset_ms: 0,
        remove_timestamps: false,
        add_file_markers: true,
    }
}

fn segment(start: u64, end: Option<u64>, text: &str, name: &str) -> TranscriptionSegment {
    TranscriptionSegment {
        start_ms: start,
        end_ms: end,
        text: String::from(text),
        file_index: 0,
        original_filename: String::from(name),
    }
}

fn file(name: &str, key: Option<usize>, segments: Vec<TranscriptionSegment>) -> TranscriptionFile {
    TranscriptionFile {
        path: String::from(name),
        filename: String::from(name),
        sequence_number: key,
        format: FileFormat::Txt,
        segments,
    }
}

#[test]
fn default_options() {
    let o = MergeOptions::default();
    assert_eq!(o.output_format, FileFormat::Txt);
    assert_eq!(o.time_offset_ms, 0);
    assert!(!o.remove_timestamps);
    assert!(o.add_file_markers);
}

#[test]
fn new_session_is_empty() {
    let m = TranscriptionMerger::new(MergeOptions::default());
    assert_eq!(m.get_file_count(), 0);
    assert_eq!(m.get_total_segments(), 0);
    assert_eq!(m.merge_at("").unwrap(), "");
}

#[test]
fn second_file_is_shifted_by_the_end_of_the_first() {
    let a = file("a", Some(1), vec![segment(0, Some(120_000), "a", "a")]);
    let b = file("b", Some(2), vec![segment(0, Some(5_000), "b", "b"), segment(7_000, None, "c", "b")]);
    let merged = merge_segments(&vec![a, b], 0).unwrap();
    assert_eq!(merged.len(), 3);
    assert_eq!((merged[0].start_ms, merged[0].end_ms), (0, Some(120_000)));
    assert_eq!((merged[1].start_ms, merged[1].end_ms), (120_000, Some(125_000)));
    assert_eq!((merged[2].start_ms, merged[2].end_ms), (127_000, None));
    assert_eq!(merged[1].text, "b");
}

#[test]
fn file_without_a_last_end_counts_half_a_minute_past_its_last_start() {
    let a = file("a", None, vec![segment(0, Some(4_000), "x", "a"), segment(10_000, None, "y", "a")]);
    let b = file("b", None, vec![segment(1_000, Some(2_000), "z", "b")]);
    let merged = merge_segments(&vec![a, b], 0).unwrap();
    assert_eq!((merged[2].start_ms, merged[2].end_ms), (41_000, Some(42_000)));
}

#[test]
fn offset_at_the_start_shifts_everything() {
    let a = file("a", None, vec![segment(0, Some(1_000), "x", "a")]);
    let b = file("b", None, vec![segment(0, None, "y", "b")]);
    let merged = merge_segments(&vec![a, b], 500).unwrap();
    assert_eq!((merged[0].start_ms, merged[0].end_ms), (500, Some(1_500)));
    assert_eq!((merged[1].start_ms, merged[1].end_ms), (1_500, None));
}

#[test]
fn file_without_segments_shifts_nothing() {
    let a = file("a", None, vec![segment(0, Some(1_000), "x", "a")]);
    let empty = file("e", None, vec![]);
    let b = file("b", None, vec![segment(0, Some(1_000), "y", "b")]);
    let merged = merge_segments(&vec![a, empty, b], 0).unwrap();
    assert_eq!(merged.len(), 2);
    assert_eq!(merged[1].start_ms, 1_000);
}

#[test]
fn segments_are_put_in_order_of_their_starts() {
    let a = file("a", None, vec![segment(5_000, Some(1_000), "late", "a"), segment(2_000, Some(3_000), "early", "a")]);
    let merged = merge_segments(&vec![a], 0).unwrap();
    assert_eq!(merged[0].text, "early");
    assert_eq!(merged[1].text, "late");
}

#[test]
fn equal_starts_keep_their_order() {
    let segs = vec![
        segment(3_000, None, "c1", "f"),
        segment(1_000, None, "a1", "f"),
        segment(3_000, None, "c2", "f"),
        segment(1_000, None, "a2", "f"),
        segment(2_000, None, "b", "f"),
        segment(1_000, None, "a3", "f"),
    ];
    let sorted = sort_by_start(&segs);
    let texts: Vec<&str> = sorted.iter().map(|s| s.text.as_str()).collect();
    assert_eq!(texts, vec!["a1", "a2", "a3", "b", "c1", "c2"]);
}

#[test]
fn stable_order_of_keys() {
    assert_eq!(stable_order_of(&vec![5, 1, 5, 0, 1]), vec![3, 1, 4, 0, 2]);
    assert_eq!(stable_order_of(&vec![]), Vec::<usize>::new());
    assert_eq!(stable_order_of(&vec![7, 7, 7]), vec![0, 1, 2]);
}

#[test]
fn shifted_time_that_does_not_fit_is_an_error() {
    let a = file("a", None, vec![segment(0, Some(u64::MAX - 10), "x", "a")]);
    let b = file("b", None, vec![segment(11, None, "y", "b")]);
    assert!(matches!(merge_segments(&vec![a, b], 0), Err(ErrorKind::TimeOverflow)));
    let c = file("c", None, vec![segment(0, Some(u64::MAX - 10), "x", "c")]);
    let d = file("d", None, vec![segment(10, None, "y", "d")]);
    let merged = merge_segments(&vec![c, d], 0).unwrap();
    assert_eq!(merged[1].start_ms, u64::MAX);
}

#[test]
fn span_that_does_not_fit_harms_only_files_behind_it() {
    let a = file("a", None, vec![segment(u64::MAX - 5, None, "x", "a")]);
    assert_eq!(merge_segments(&vec![a], 0).unwrap().len(), 1);
    let b = file("b", None, vec![segment(u64::MAX - 5, None, "x", "b")]);
    let empty = file("e", None, vec![]);
    assert_eq!(merge_segments(&vec![b, empty], 0).unwrap().len(), 1);
    let c = file("c", None, vec![segment(u64::MAX - 5, None, "x", "c")]);
    let d = file("d", None, vec![segment(0, None, "y", "d")]);
    assert!(matches!(merge_segments(&vec![c, d], 0), Err(ErrorKind::TimeOverflow)));
}

#[test]
fn files_are_put_in_order_of_their_keys_and_keyless_files_last() {
    let files = vec![
        file("none-1", None, vec![]),
        file("three", Some(3), vec![]),
        file("one-a", Some(1), vec![]),
        file("none-2", None, vec![]),
        file("max", Some(usize::MAX), vec![]),
        file("one-b", Some(1), vec![]),
        file("million", Some(1_000_000), vec![]),
    ];
    let sorted = sort_files(&files);
    let names: Vec<&str> = sorted.iter().map(|f| f.filename.as_str()).collect();
    assert_eq!(names, vec!["one-a", "one-b", "three", "million", "max", "none-1", "none-2"]);
}

#[test]
fn source_is_decoded_detected_and_parsed() {
    let f = parse_transcription_file(&source("Part 2.txt", "[00:01] hello\n")).unwrap();
    assert_eq!(f.path, "/data/Part 2.txt");
    assert_eq!(f.filename, "Part 2.txt");
    assert_eq!(f.sequence_number, Some(2));
    assert_eq!(f.format, FileFormat::Txt);
    assert_eq!(f.segments.len(), 1);
    assert_eq!(f.segments[0].original_filename, "Part 2.txt");
    let g = parse_transcription_file(&source("x.txt", "1\n00:00:01,000 --> 00:00:02,000\nHi")).unwrap();
    assert_eq!(g.format, FileFormat::Srt);
    assert_eq!(g.sequence_number, None);
    let h = parse_transcription_file(&source("notes.md", "# t\nline")).unwrap();
    assert_eq!(h.format, FileFormat::Markdown);
    assert_eq!(h.segments[0].text, "line");
}

#[test]
fn source_in_windows_1251_is_read() {
    let s = SourceFile {
        path: String::from("r.txt"),
        filename: Some(String::from("r.txt")),
        extension: Some(String::from("txt")),
        bytes: vec![b'[', b'0', b'0', b':', b'0', b'2', b']', b' ', 0xC4, 0xE0],
    };
    let f = parse_transcription_file(&s).unwrap();
    assert_eq!(f.segments[0].text, "\u{414}\u{430}");
    assert_eq!(f.segments[0].start_ms, 2_000);
}

#[test]
fn path_without_a_file_name_is_refused() {
    let s = SourceFile {
        path: String::from("/data/.."),
        filename: None,
        extension: None,
        bytes: vec![],
    };
    let e = parse_transcription_file(&s).unwrap_err();
    assert_eq!(e.kind, ErrorKind::InvalidFilename);
    assert_eq!(e.path, "/data/..");
}

#[test]
fn malformed_subtitles_name_their_file() {
    let e = parse_transcription_file(&source("bad.srt", "1\n00:01 --> 00:02\ntext")).unwrap_err();
    assert_eq!(e.kind, ErrorKind::MalformedTimestamp);
    assert_eq!(e.path, "/data/bad.srt");
}

#[test]
fn added_files_are_sorted_and_counted() {
    let mut m = TranscriptionMerger::new(options(FileFormat::Txt));
    m.add_files(vec![
        source("Transcript 2.txt", "[00:00-00:02] second\n"),
        source("Transcript 1.txt", "[00:00-00:03] first\nmore\n"),
    ])
    .unwrap();
    assert_eq!(m.get_file_count(), 2);
    assert_eq!(m.get_total_segments(), 3);
    assert_eq!(
        m.merge().unwrap(),
        "[00:00] [Transcript 1.txt] first\n[00:00] [Transcript 1.txt] more\n[00:01] [Transcript 2.txt] second\n"
    );
}

#[test]
fn failing_source_stops_adding_and_keeps_what_came_before() {
    let mut m = TranscriptionMerger::new(options(FileFormat::Txt));
    let r = m.add_files(vec![
        source("b 2.txt", "x"),
        source("a 1.txt", "y"),
        source("bad.srt", "1\n00:01 --> 00:02\ntext"),
        source("c 0.txt", "z"),
    ]);
    let e = r.unwrap_err();
    assert_eq!(e.kind, ErrorKind::MalformedTimestamp);
    assert_eq!(e.path, "/data/bad.srt");
    assert_eq!(m.get_file_count(), 2);
    assert_eq!(
        m.merge().unwrap(),
        "[00:00] [b 2.txt] x\n[00:01] [a 1.txt] y\n"
    );
}

#[test]
fn merged_in_every_format() {
    let sources = || {
        vec![
            source("Transcript 2.txt", "[00:00-00:02] second\n"),
            source("Transcript 1.txt", "[00:00-00:03] first\n"),
        ]
    };
    let mut srt = TranscriptionMerger::new(options(FileFormat::Srt));
    srt.add_files(sources()).unwrap();
    assert_eq!(
        srt.merge().unwrap(),
        "1\n00:00:00,000 --> 00:00:03,000\n[Transcript 1.txt] first\n\n2\n00:00:03,000 --> 00:00:05,000\n[Transcript 2.txt] second\n\n"
    );
    let mut txt = TranscriptionMerger::new(options(FileFormat::Txt));
    txt.add_files(sources()).unwrap();
    assert_eq!(
        txt.merge().unwrap(),
        "[00:00] [Transcript 1.txt] first\n[00:03] [Transcript 2.txt] second\n"
    );
    let mut md = TranscriptionMerger::new(options(FileFormat::Markdown));
    md.add_files(sources()).unwrap();
    assert_eq!(
        md.merge_at("2024-01-01 00:00:00 UTC").unwrap(),
        "# Merged Transcription\n\n*Generated on: 2024-01-01 00:00:00 UTC*\n\n## Transcript 1.txt\n\n**[00:00]** first\n\n## Transcript 2.txt\n\n**[00:03]** second\n\n"
    );
}

#[test]
fn markdown_says_when_it_was_made() {
    let mut md = TranscriptionMerger::new(options(FileFormat::Markdown));
    md.add_files(vec![source("a.txt", "hello")]).unwrap();
    let text = md.merge().unwrap();
    let head = "# Merged Transcription\n\n*Generated on: ";
    assert!(text.starts_with(head));
    let rest = &text[head.len()..];
    let stamp = &rest[..rest.find('*').unwrap()];
    assert_eq!(stamp.len(), "2024-01-01 00:00:00 UTC".len());
    assert!(stamp.ends_with(" UTC"));
    assert!(stamp.as_bytes()[0].is_ascii_digit());
    assert_eq!(stamp.as_bytes()[4], b'-');
    assert_eq!(stamp.as_bytes()[13], b':');
    assert!(rest.ends_with("*\n\n## a.txt\n\n**[00:00]** hello\n\n"));
}

#[test]
fn three_transcripts_merged_to_subtitles() {
    let body = "[00:00-00:10] alpha\n[00:10-00:20] beta\n[00:20-00:30] gamma\n";
    let mut m = TranscriptionMerger::new(options(FileFormat::Srt));
    m.add_files(vec![
        source("Transcript 3.txt", body),
        source("Transcript 1.txt", body),
        source("Transcript 2.txt", body),
    ])
    .unwrap();
    assert_eq!(m.get_file_count(), 3);
    assert_eq!(m.get_total_segments(), 9);
    let text = m.merge().unwrap();
    let blocks: Vec<&str> = text.split("\n\n").filter(|b| !b.is_empty()).collect();
    assert_eq!(blocks.len(), 9);
    for (i, block) in blocks.iter().enumerate() {
        let lines: Vec<&str> = block.lines().collect();
        assert_eq!(lines.len(), 3);
        assert_eq!(lines[0], format!("{}", i + 1));
        assert!(lines[1].contains("-->"));
        let marker = format!("[Transcript {}.txt] ", i / 3 + 1);
        assert!(lines[2].starts_with(&marker));
    }
    assert_eq!(blocks[0], "1\n00:00:00,000 --> 00:00:10,000\n[Transcript 1.txt] alpha");
    assert_eq!(blocks[3], "4\n00:00:30,000 --> 00:00:40,000\n[Transcript 2.txt] alpha");
    assert_eq!(blocks[8], "9\n00:01:20,000 --> 00:01:30,000\n[Transcript 3.txt] gamma");
}

#[test]
fn three_transcripts_without_markers() {
    let body = "[00:00-00:10] alpha\n";
    let mut o = options(FileFormat::Srt);
    o.add_file_markers = false;
    let mut m = TranscriptionMerger::new(o);
    m.add_files(vec![source("Transcript 1.txt", body), source("Transcript 2.txt", body)]).unwrap();
    assert_eq!(
        m.merge().unwrap(),
        "1\n00:00:00,000 --> 00:00:10,000\nalpha\n\n2\n00:00:10,000 --> 00:00:20,000\nalpha\n\n"
    );
}

#[test]
fn overflow_in_a_session_is_reported() {
    let mut m = TranscriptionMerger::new(options(FileFormat::Txt));
    m.add_files(vec![
        source("1.srt", "1\n00:00:00,000 --> 5124095576030:00:00,000\nA"),
        source("2.txt", "[99:59-99:59] b"),
    ])
    .unwrap();
    assert!(matches!(m.merge(), Err(ErrorKind::TimeOverflow)));
}

#[test]
fn adding_twice_sorts_old_and_new_together() {
    let mut m = TranscriptionMerger::new(options(FileFormat::Txt));
    m.add_files(vec![source("5.txt", "five")]).unwrap();
    m.add_files(vec![source("6.txt", "six"), source("4.txt", "four")]).unwrap();
    assert_eq!(
        m.merge().unwrap(),
        "[00:00] [4.txt] four\n[00:01] [5.txt] five\n[00:02] [6.txt] six\n"
    );
}

#[test]
fn store_holds_what_was_set_last() {
    let mut store = transcription_assistant::session::SessionStore::new();
    assert!(store.get().is_none());
    store.set(String::from("first"));
    assert_eq!(store.get().map(|s| s.as_str()), Some("first"));
    store.set(String::from("second"));
    assert_eq!(store.get().map(|s| s.as_str()), Some("second"));
}

#[test]
fn time_of_making_is_written_as_the_calendar_says() {
    assert_eq!(made_at(Some(0)), "1970-01-01 00:00:00 UTC");
    assert_eq!(made_at(Some(1_700_000_000)), "2023-11-14 22:13:20 UTC");
    assert_eq!(made_at(Some(951_782_399)), "2000-02-28 23:59:59 UTC");
}

#[test]
fn time_of_making_is_unknown_without_a_clock_or_a_calendar() {
    assert_eq!(made_at(None), "unknown");
    assert_eq!(made_at(Some(u64::MAX)), "unknown");
    assert_eq!(made_at(Some(i64::MAX as u64)), "unknown");
}

#[test]
fn adding_file_by_file_gives_the_order_of_adding_all_at_once() {
    let names = ["b 2.txt", "x.txt", "a 1.txt", "c 2.txt", "y.txt", "d 1.txt"];
    let mut at_once = TranscriptionMerger::new(options(FileFormat::Txt));
    at_once.add_files(names.iter().map(|n| source(n, n)).collect()).unwrap();
    let mut in_turn = TranscriptionMerger::new(options(FileFormat::Txt));
    for n in names {
        in_turn.add_files(vec![source(n, n)]).unwrap();
    }
    assert_eq!(in_turn.merge().unwrap(), at_once.merge().unwrap());
    let mut one_by_one = TranscriptionMerger::new(options(FileFormat::Txt));
    for n in names {
        one_by_one.add_file(&source(n, n)).unwrap();
    }
    assert_eq!(one_by_one.merge().unwrap(), "[00:00] [b 2.txt] b 2.txt\n[00:01] [x.txt] x.txt\n[00:02] [a 1.txt] a 1.txt\n[00:03] [c 2.txt] c 2.txt\n[00:04] [y.txt] y.txt\n[00:05] [d 1.txt] d 1.txt\n");
    one_by_one.put_in_sequence();
    assert_eq!(one_by_one.merge().unwrap(), at_once.merge().unwrap());
    assert_eq!(at_once.merge().unwrap(), "[00:00] [a 1.txt] a 1.txt\n[00:01] [d 1.txt] d 1.txt\n[00:02] [b 2.txt] b 2.txt\n[00:03] [c 2.txt] c 2.txt\n[00:04] [x.txt] x.txt\n[00:05] [y.txt] y.txt\n");
}

#[test]
fn file_that_does_not_parse_is_not_added() {
    let mut m = TranscriptionMerger::new(options(FileFormat::Txt));
    m.add_file(&source("a.txt", "x")).unwrap();
    let e = m.add_file(&source("bad.srt", "1\n00:01 --> 00:02\ntext")).unwrap_err();
    assert_eq!(e.kind, ErrorKind::MalformedTimestamp);
    assert_eq!(m.get_file_count(), 1);
}
