use transcription_assistant::markdown::parse_markdown;

#[test]
fn markdown_lines_follow_each_other() {
    let segs = parse_markdown("# Title\n\nFirst line here\n  Second  \n## More\nlast", "n.md").unwrap();
    assert_eq!(segs.len(), 3);
    assert_eq!((segs[0].start_ms, segs[0].end_ms), (0, Some(1_200)));
    assert_eq!(segs[0].text, "First line here");
    assert_eq!(segs[0].file_index, 2);
    assert_eq!((segs[1].start_ms, segs[1].end_ms), (1_200, Some(2_200)));
    assert_eq!(segs[1].text, "Second");
    assert_eq!(segs[1].file_index, 3);
    assert_eq!((segs[2].start_ms, segs[2].end_ms), (2_200, Some(3_200)));
    assert_eq!(segs[2].file_index, 5);
    assert_eq!(segs[2].original_filename, "n.md");
}

#[test]
fn markdown_does_not_read_timestamps() {
    let segs = parse_markdown("[00:10] hello", "n.md").unwrap();
    assert_eq!(segs[0].start_ms, 0);
    assert_eq!(segs[0].text, "[00:10] hello");
}

#[test]
fn markdown_of_headings_only_is_empty() {
    assert_eq!(parse_markdown("# a\n## b\n\n", "n.md").unwrap().len(), 0);
}
