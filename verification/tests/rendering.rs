use transcription_assistant::merger::render;
use transcription_assistant::model::{FileFormat, MergeOptions, TranscriptionSegment};
use transcription_assistant::plain::parse_txt;
use transcription_assistant::render::{
    format_as_markdown, format_as_srt, format_as_txt, format_srt_timestamp, format_txt_timestamp,
};

fn seg(start: u64, end: Option<u64>, text: &str, name: &str) -> TranscriptionSegment {
    TranscriptionSegment {
        start_ms: start,
        end_ms: end,
        text: String::from(text),
        file_index: 0,
        original_filename: String::from(name),
    }
}

#[test]
fn subtitle_timestamps() {
    assert_eq!(format_srt_timestamp(0), "00:00:00,000");
    assert_eq!(format_srt_timestamp(3_723_004), "01:02:03,004");
    assert_eq!(format_srt_timestamp(59_999), "00:00:59,999");
    assert_eq!(format_srt_timestamp(360_000_000), "100:00:00,000");
    assert_eq!(format_srt_timestamp(u64::MAX), "5124095576030:25:51,615");
}

#[test]
fn plain_timestamps_leave_out_zero_hours() {
    assert_eq!(format_txt_timestamp(0), "00:00");
    assert_eq!(format_txt_timestamp(65_999), "01:05");
    assert_eq!(format_txt_timestamp(3_599_999), "59:59");
    assert_eq!(format_txt_timestamp(3_600_000), "01:00:00");
    assert_eq!(format_txt_timestamp(3_723_004), "01:02:03");
    assert_eq!(format_txt_timestamp(360_000_000), "100:00:00");
}

#[test]
fn subtitle_without_an_end_stays_five_seconds() {
    let segs = vec![seg(1_500, None, "hi", "a.txt"), seg(u64::MAX, None, "last", "a.txt")];
    assert_eq!(
        format_as_srt(&segs, false),
        "1\n00:00:01,500 --> 00:00:06,500\nhi\n\n2\n5124095576030:25:51,615 --> 5124095576030:25:56,615\nlast\n\n"
    );
}

#[test]
fn subtitles_with_markers() {
    let segs = vec![seg(0, Some(2_000), "hi", "a.txt")];
    assert_eq!(format_as_srt(&segs, true), "1\n00:00:00,000 --> 00:00:02,000\n[a.txt] hi\n\n");
    assert_eq!(format_as_srt(&vec![], true), "");
}

#[test]
fn plain_text_with_and_without_timestamps_and_markers() {
    let segs = vec![seg(61_000, None, "one", "a.txt"), seg(3_661_000, None, "two", "b.txt")];
    assert_eq!(format_as_txt(&segs, true, true), "[01:01] [a.txt] one\n[01:01:01] [b.txt] two\n");
    assert_eq!(format_as_txt(&segs, true, false), "[01:01] one\n[01:01:01] two\n");
    assert_eq!(format_as_txt(&segs, false, true), "[a.txt] one\n[b.txt] two\n");
    assert_eq!(format_as_txt(&segs, false, false), "one\ntwo\n");
}

#[test]
fn markdown_puts_a_heading_where_the_file_changes() {
    let segs = vec![
        seg(0, None, "one", "a.txt"),
        seg(1_000, None, "two", "a.txt"),
        seg(2_000, None, "three", "b.txt"),
        seg(3_000, None, "four", "a.txt"),
    ];
    assert_eq!(
        format_as_markdown(&segs, true, true, "now"),
        "# Merged Transcription\n\n*Generated on: now*\n\n## a.txt\n\n**[00:00]** one\n\n**[00:01]** two\n\n## b.txt\n\n**[00:02]** three\n\n## a.txt\n\n**[00:03]** four\n\n"
    );
    assert_eq!(
        format_as_markdown(&segs, false, false, "now"),
        "# Merged Transcription\n\n*Generated on: now*\n\none\n\ntwo\n\nthree\n\nfour\n\n"
    );
}

#[test]
fn markdown_has_no_heading_for_an_empty_first_name() {
    let segs = vec![seg(0, None, "one", ""), seg(0, None, "two", "b")];
    assert_eq!(
        format_as_markdown(&segs, false, true, ""),
        "# Merged Transcription\n\n*Generated on: *\n\none\n\n## b\n\ntwo\n\n"
    );
}

#[test]
fn render_follows_the_options() {
    let segs = vec![seg(5_000, Some(6_000), "x", "f")];
    let mut o = MergeOptions {
        output_format: FileFormat::Srt,
        time_offset_ms: 0,
        remove_timestamps: true,
        add_file_markers: false,
    };
    assert_eq!(render(&segs, &o, "t"), "1\n00:00:05,000 --> 00:00:06,000\nx\n\n");
    o.output_format = FileFormat::Txt;
    assert_eq!(render(&segs, &o, "t"), "x\n");
    o.remove_timestamps = false;
    assert_eq!(render(&segs, &o, "t"), "[00:05] x\n");
    o.output_format = FileFormat::Markdown;
    assert_eq!(render(&segs, &o, "t"), "# Merged Transcription\n\n*Generated on: t*\n\n**[00:05]** x\n\n");
}

#[test]
fn plain_text_reads_back_to_the_same_seconds() {
    let segs = vec![
        seg(0, Some(900), "first words", "a 1.txt"),
        seg(1_999, None, "Anna: second", "a 1.txt"),
        seg(65_250, None, "third [sic]", "b.txt"),
        seg(3_600_000, None, "fourth", "b.txt"),
        seg(359_999_999, None, "fifth", "b.txt"),
    ];
    for markers in [true, false] {
        let text = format_as_txt(&segs, true, markers);
        let back = parse_txt(&text, "merged.txt").unwrap();
        assert_eq!(back.len(), segs.len());
        for i in 0..segs.len() {
            assert_eq!(back[i].start_ms, segs[i].start_ms / 1000 * 1000);
        }
    }
}

#[test]
fn plain_text_of_a_hundred_hours_does_not_read_back() {
    let segs = vec![seg(360_000_000, None, "late", "b.txt")];
    let back = parse_txt(&format_as_txt(&segs, true, false), "m.txt").unwrap();
    assert_eq!(back[0].start_ms, 0);
}
