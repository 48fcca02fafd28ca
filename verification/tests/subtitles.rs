use transcription_assistant::model::ErrorKind;
use transcription_assistant::subtitle::{parse_srt, parse_srt_timestamp};
use transcription_assistant::text::chars_of;

const TWO_BLOCKS: &str =
    "1\n00:00:01,000 --> 00:00:02,500\nHello\nworld\n\n2\n00:00:03.000 --> 00:00:04.000\nBye\n";

#[test]
fn subtitle_blocks_become_segments() {
    let segs = parse_srt(TWO_BLOCKS, "a.srt").unwrap();
    assert_eq!(segs.len(), 2);
    assert_eq!((segs[0].start_ms, segs[0].end_ms), (1_000, Some(2_500)));
    assert_eq!(segs[0].text, "Hello world");
    assert_eq!(segs[0].file_index, 0);
    assert_eq!(segs[0].original_filename, "a.srt");
    assert_eq!((segs[1].start_ms, segs[1].end_ms), (3_000, Some(4_000)));
    assert_eq!(segs[1].text, "Bye");
    assert_eq!(segs[1].file_index, 1);
}

#[test]
fn line_ends_do_not_matter() {
    let lf = parse_srt(TWO_BLOCKS, "a.srt").unwrap();
    let crlf = parse_srt(&TWO_BLOCKS.replace('\n', "\r\n"), "a.srt").unwrap();
    assert_eq!(lf.len(), crlf.len());
    for i in 0..lf.len() {
        assert_eq!(lf[i].start_ms, crlf[i].start_ms);
        assert_eq!(lf[i].end_ms, crlf[i].end_ms);
        assert_eq!(lf[i].text, crlf[i].text);
        assert_eq!(lf[i].file_index, crlf[i].file_index);
    }
}

#[test]
fn timecode_with_two_parts_is_malformed() {
    let r = parse_srt("1\n00:01 --> 00:00:02,000\ntext", "a.srt");
    assert!(matches!(r, Err(ErrorKind::MalformedTimestamp)));
}

#[test]
fn timecode_with_a_letter_is_malformed() {
    let r = parse_srt("1\n00:00:0x,000 --> 00:00:02,000\ntext", "a.srt");
    assert!(matches!(r, Err(ErrorKind::MalformedTimestamp)));
}

#[test]
fn blocks_that_are_too_short_or_have_no_arrow_are_skipped() {
    let segs = parse_srt("1\n00:00:01,000 --> 00:00:02,000\n\n7\nno arrow here\ntext\n\n3\n00:00:05,000 --> 00:00:06,000\nkept", "a.srt").unwrap();
    assert_eq!(segs.len(), 1);
    assert_eq!(segs[0].text, "kept");
    assert_eq!(segs[0].file_index, 2);
}

#[test]
fn timecodes_are_read_to_the_millisecond() {
    assert_eq!(parse_srt_timestamp(&chars_of("01:02:03,004")), Some(3_723_004));
    assert_eq!(parse_srt_timestamp(&chars_of("01:02:03.4")), Some(3_723_400));
    assert_eq!(parse_srt_timestamp(&chars_of("01:02:03.45")), Some(3_723_450));
    assert_eq!(parse_srt_timestamp(&chars_of("01:02:03.4567")), Some(3_723_456));
    assert_eq!(parse_srt_timestamp(&chars_of("0:0:7")), Some(7_000));
    assert_eq!(parse_srt_timestamp(&chars_of("100:00:00,000")), Some(360_000_000));
}

#[test]
fn malformed_timecodes_are_refused() {
    assert_eq!(parse_srt_timestamp(&chars_of("")), None);
    assert_eq!(parse_srt_timestamp(&chars_of("00:00")), None);
    assert_eq!(parse_srt_timestamp(&chars_of("00:00:00:00")), None);
    assert_eq!(parse_srt_timestamp(&chars_of("00::00")), None);
    assert_eq!(parse_srt_timestamp(&chars_of("00:00:01,")), None);
    assert_eq!(parse_srt_timestamp(&chars_of("00:00:,5")), None);
    assert_eq!(parse_srt_timestamp(&chars_of("00:00:01 ")), None);
    assert_eq!(parse_srt_timestamp(&chars_of("-1:00:00")), None);
    assert_eq!(parse_srt_timestamp(&chars_of("99999999999999999999:00:00")), None);
    assert_eq!(parse_srt_timestamp(&chars_of("5124095576030432:00:00")), None);
}

#[test]
fn largest_timecode_that_fits() {
    assert_eq!(
        parse_srt_timestamp(&chars_of("5124095576030:25:51,615")),
        Some(u64::MAX)
    );
    assert_eq!(parse_srt_timestamp(&chars_of("5124095576030:25:51,616")), None);
}

#[test]
fn empty_subtitle_file_has_no_segments() {
    assert_eq!(parse_srt("", "a.srt").unwrap().len(), 0);
}

#[test]
fn block_that_ends_before_it_starts_is_taken_as_written() {
    let segs = parse_srt("1\n00:00:05,000 --> 00:00:02,000\nback", "a.srt").unwrap();
    assert_eq!((segs[0].start_ms, segs[0].end_ms), (5_000, Some(2_000)));
}
