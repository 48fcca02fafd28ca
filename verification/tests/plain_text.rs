use transcription_assistant::model::{ErrorKind, TranscriptionSegment};
use transcription_assistant::plain::{estimate, parse_txt, read_text_line};
use transcription_assistant::stamp::{locate_stamp, read_form, StampForm};
use transcription_assistant::text::chars_of;

fn parsed(content: &str) -> Vec<TranscriptionSegment> {
    match parse_txt(content, "notes.txt") {
        Ok(v) => v,
        Err(e) => panic!("unexpected error {:?}", e),
    }
}

#[test]
fn minute_range_gives_start_and_end() {
    let segs = parsed("[00:00-01:06] text");
    assert_eq!(segs.len(), 1);
    assert_eq!(segs[0].start_ms, 0);
    assert_eq!(segs[0].end_ms, Some(66_000));
    assert_eq!(segs[0].text, "text");
    assert_eq!(segs[0].file_index, 0);
    assert_eq!(segs[0].original_filename, "notes.txt");
}

#[test]
fn second_minute_range_of_the_examples() {
    let segs = parsed("[01:06-02:27] text");
    assert_eq!(segs[0].start_ms, 66_000);
    assert_eq!(segs[0].end_ms, Some(147_000));
}

#[test]
fn minute_range_with_one_digit_minutes() {
    let segs = parsed("[1:06-2:27] text");
    assert_eq!(segs[0].start_ms, 66_000);
    assert_eq!(segs[0].end_ms, Some(147_000));
}

#[test]
fn clock_range_gives_start_and_end() {
    let segs = parsed("[01:00:00-01:00:30] long talk");
    assert_eq!(segs[0].start_ms, 3_600_000);
    assert_eq!(segs[0].end_ms, Some(3_630_000));
    assert_eq!(segs[0].text, "long talk");
}

#[test]
fn clock_range_is_tried_before_everything_else() {
    let segs = parsed("[00:10] then [00:00:20-00:00:30] x");
    assert_eq!(segs[0].start_ms, 20_000);
    assert_eq!(segs[0].end_ms, Some(30_000));
    assert_eq!(segs[0].text, "[00:10] then  x");
}

#[test]
fn bracketed_clock_with_milliseconds() {
    let segs = parsed("[00:00:01,250] x");
    assert_eq!(segs[0].start_ms, 1_250);
    assert_eq!(segs[0].end_ms, Some(2_250));
}

#[test]
fn short_fraction_counts_as_milliseconds() {
    let segs = parsed("00:00:01.5 hi");
    assert_eq!(segs[0].start_ms, 1_005);
    assert_eq!(segs[0].text, "hi");
}

#[test]
fn bracketed_minutes() {
    let segs = parsed("[02:05] two words");
    assert_eq!(segs[0].start_ms, 125_000);
    assert_eq!(segs[0].end_ms, Some(126_000));
    assert_eq!(segs[0].text, "two words");
}

#[test]
fn leading_clock_and_leading_minutes() {
    let a = parsed("00:01:05 text");
    assert_eq!(a[0].start_ms, 65_000);
    assert_eq!(a[0].text, "text");
    let b = parsed("01:05 text");
    assert_eq!(b[0].start_ms, 65_000);
    assert_eq!(b[0].text, "text");
}

#[test]
fn leading_time_needs_whitespace_after_it() {
    let segs = parsed("01:05text");
    assert_eq!(segs[0].start_ms, 0);
    assert_eq!(segs[0].text, "01:05text");
}

#[test]
fn time_in_the_middle_without_brackets_is_text() {
    let segs = parsed("at 01:05 we met");
    assert_eq!(segs[0].start_ms, 0);
    assert_eq!(segs[0].text, "at 01:05 we met");
}

#[test]
fn arrow_range_takes_only_the_start() {
    let segs = parsed("[00:00:01.000 --> 00:00:04.000] hello");
    assert_eq!(segs[0].start_ms, 1_000);
    assert_eq!(segs[0].end_ms, Some(2_000));
    assert_eq!(segs[0].text, "hello");
}

#[test]
fn bracketed_number_is_seconds() {
    let segs = parsed("[120] text");
    assert_eq!(segs[0].start_ms, 120_000);
    assert_eq!(segs[0].end_ms, Some(121_000));
    assert_eq!(segs[0].text, "text");
}

#[test]
fn bracketed_number_from_an_hour_on_keeps_the_running_time() {
    let segs = parsed("one two three\n[5000] text\nafter");
    assert_eq!(segs.len(), 3);
    assert_eq!(segs[0].start_ms, 0);
    assert_eq!(segs[0].end_ms, Some(1_200));
    assert_eq!(segs[1].start_ms, 1_200);
    assert_eq!(segs[1].end_ms, Some(2_200));
    assert_eq!(segs[1].text, "text");
    assert_eq!(segs[2].start_ms, 1_200);
}

#[test]
fn bracketed_number_just_below_the_limit() {
    let segs = parsed("[3599] x");
    assert_eq!(segs[0].start_ms, 3_599_000);
    let over = parsed("[3600] x");
    assert_eq!(over[0].start_ms, 0);
    assert_eq!(over[0].text, "x");
}

#[test]
fn bare_number_is_never_a_timestamp() {
    let line = "\u{412} 2024 \u{433}\u{43e}\u{434}\u{443} \u{431}\u{44b}\u{43b}\u{43e}";
    let segs = parsed(line);
    assert_eq!(segs.len(), 1);
    assert_eq!(segs[0].start_ms, 0);
    assert_eq!(segs[0].end_ms, Some(1_600));
    assert_eq!(segs[0].text, line);
    assert!(locate_stamp(&chars_of(line)).is_none());
    assert!(locate_stamp(&chars_of("2024 was a year")).is_none());
    assert!(locate_stamp(&chars_of("120")).is_none());
}

#[test]
fn lines_without_timestamps_follow_each_other() {
    let segs = parsed("hello world\na b c d e\n");
    assert_eq!(segs.len(), 2);
    assert_eq!((segs[0].start_ms, segs[0].end_ms), (0, Some(1_000)));
    assert_eq!((segs[1].start_ms, segs[1].end_ms), (1_000, Some(3_000)));
    assert_eq!(segs[1].file_index, 1);
}

#[test]
fn timestamp_sets_the_running_time_without_advancing_it() {
    let segs = parsed("[00:10] one\ntwo");
    assert_eq!((segs[0].start_ms, segs[0].end_ms), (10_000, Some(11_000)));
    assert_eq!((segs[1].start_ms, segs[1].end_ms), (10_000, Some(11_000)));
}

#[test]
fn speaker_label_alone_gives_no_segment() {
    let segs = parsed("Anna:\nhello there");
    assert_eq!(segs.len(), 1);
    assert_eq!(segs[0].text, "hello there");
    assert_eq!(segs[0].file_index, 1);
    assert_eq!(segs[0].start_ms, 0);
}

#[test]
fn stamped_speaker_label_still_sets_the_running_time() {
    let segs = parsed("[00:05] Anna:\nhello");
    assert_eq!(segs.len(), 1);
    assert_eq!((segs[0].start_ms, segs[0].end_ms), (5_000, Some(6_000)));
}

#[test]
fn speaker_label_with_speech_is_kept() {
    let segs = parsed("Anna: hello");
    assert_eq!(segs[0].text, "Anna: hello");
}

#[test]
fn leading_colons_and_whitespace_are_stripped() {
    let segs = parsed("[00:01] : hello ");
    assert_eq!(segs[0].text, "hello");
    let more = parsed(":: twice");
    assert_eq!(more[0].text, "twice");
}

#[test]
fn blank_lines_are_skipped_and_keep_their_numbers() {
    let segs = parsed("\n  \n[00:01] x\r\n\r\ny");
    assert_eq!(segs.len(), 2);
    assert_eq!(segs[0].file_index, 2);
    assert_eq!(segs[1].file_index, 4);
    assert_eq!(segs[1].text, "y");
}

#[test]
fn content_without_segments_becomes_one_segment() {
    let segs = parsed("  Anna:\n");
    assert_eq!(segs.len(), 1);
    assert_eq!(segs[0].start_ms, 0);
    assert_eq!(segs[0].end_ms, None);
    assert_eq!(segs[0].text, "Anna:");
    assert_eq!(segs[0].file_index, 0);
}

#[test]
fn blank_content_gives_nothing() {
    assert_eq!(parsed("").len(), 0);
    assert_eq!(parsed(" \n\t\n").len(), 0);
}

#[test]
fn estimate_is_four_hundred_milliseconds_a_word_and_a_second_at_least() {
    assert_eq!(estimate(0), Some(1_000));
    assert_eq!(estimate(2), Some(1_000));
    assert_eq!(estimate(3), Some(1_200));
    assert_eq!(estimate(150), Some(60_000));
    assert_eq!(estimate(usize::MAX), None);
}

#[test]
fn line_whose_end_does_not_fit_is_reported() {
    let line = chars_of("one");
    assert!(read_text_line(&line, u64::MAX - 500, 0, "f").is_none());
    let ok = read_text_line(&line, u64::MAX - 1_000, 0, "f");
    assert!(matches!(ok, Some((u64::MAX, Some(_)))));
}

#[test]
fn forms_are_read_where_they_stand() {
    let line = chars_of("x [07:08] y");
    let hit = read_form(&line, StampForm::BracketMinute, 2);
    assert!(hit.is_some());
    let st = hit.unwrap();
    assert_eq!((st.at, st.end), (2, 9));
    assert_eq!(st.start_ms, Some(428_000));
    assert_eq!(st.end_ms, None);
    assert!(read_form(&line, StampForm::BracketMinute, 0).is_none());
    assert!(read_form(&line, StampForm::BracketClock, 2).is_none());
}

#[test]
fn three_digit_minutes_are_no_timestamp() {
    let segs = parsed("[123:45] x");
    assert_eq!(segs[0].start_ms, 0);
    assert_eq!(segs[0].text, "[123:45] x");
}

#[test]
fn parse_txt_error_kind_is_time_overflow_only() {
    let r = parse_txt("plain", "f");
    assert!(!matches!(r, Err(ErrorKind::TimeOverflow)));
}

#[test]
fn range_that_ends_before_it_starts_is_taken_as_written() {
    let segs = parsed("[02:00-01:00] back\nnext");
    assert_eq!((segs[0].start_ms, segs[0].end_ms), (120_000, Some(60_000)));
    assert_eq!((segs[1].start_ms, segs[1].end_ms), (120_000, Some(121_000)));
}
