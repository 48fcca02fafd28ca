use transcription_assistant::audio::{
    detect_silence_points, output_dir_for, plan_by_silence, plan_by_time, try_plan_by_silence,
    try_plan_by_time, AudioChunk,
};
use transcription_assistant::ffmpeg::{duration_in, format_duration, parse_duration_string, Platform};

fn shape(chunks: &Vec<AudioChunk>) -> Vec<(u64, u64, usize)> {
    chunks.iter().map(|c| (c.start_ms, c.duration_ms, c.chunk_number)).collect()
}

#[test]
fn file_is_cut_every_so_often() {
    let chunks = plan_by_time(Platform::Linux, "/out", "mp3", 4_500_000, 1_800_000);
    assert_eq!(
        shape(&chunks),
        vec![(0, 1_800_000, 1), (1_800_000, 1_800_000, 2), (3_600_000, 900_000, 3)]
    );
    assert_eq!(chunks[0].path, "/out/chunk_001.mp3");
    assert_eq!(chunks[2].path, "/out/chunk_003.mp3");
}

#[test]
fn file_that_is_a_whole_number_of_pieces() {
    let chunks = plan_by_time(Platform::Windows, "C:\\out", "wav", 20, 10);
    assert_eq!(shape(&chunks), vec![(0, 10, 1), (10, 10, 2)]);
    assert_eq!(chunks[1].path, "C:\\out\\chunk_002.wav");
}

#[test]
fn short_file_is_one_piece_and_empty_file_is_none() {
    assert_eq!(shape(&plan_by_time(Platform::Linux, "d", "mp3", 5, 10)), vec![(0, 5, 1)]);
    assert_eq!(shape(&plan_by_time(Platform::Linux, "d", "mp3", 0, 10)), vec![]);
    assert_eq!(shape(&plan_by_time(Platform::Linux, "d", "mp3", u64::MAX, u64::MAX)), vec![(0, u64::MAX, 1)]);
}

#[test]
fn piece_numbers_have_three_digits_at_least() {
    let chunks = plan_by_time(Platform::Linux, "", "mp3", 1_000, 1);
    assert_eq!(chunks.len(), 1_000);
    assert_eq!(chunks[8].path, "chunk_009.mp3");
    assert_eq!(chunks[99].path, "chunk_100.mp3");
    assert_eq!(chunks[999].path, "chunk_1000.mp3");
}

#[test]
fn file_is_cut_at_silence_once_a_piece_is_long_enough() {
    let points = vec![400, 1_000, 1_500, 2_600, 2_900];
    let chunks = plan_by_silence(Platform::Linux, "/o", "mp3", &points, 3_000, 1_000);
    assert_eq!(
        shape(&chunks),
        vec![(0, 1_000, 1), (1_000, 1_600, 2), (2_600, 400, 3)]
    );
    assert_eq!(chunks[2].path, "/o/chunk_003.mp3");
}

#[test]
fn last_piece_runs_to_the_end_of_the_file() {
    let chunks = plan_by_silence(Platform::Linux, "/o", "mp3", &vec![100, 200], 5_000, 10_000);
    assert_eq!(shape(&chunks), vec![(0, 5_000, 1)]);
    let more = plan_by_silence(Platform::Linux, "/o", "mp3", &vec![100, 200], 5_000, 50);
    assert_eq!(shape(&more), vec![(0, 100, 1), (100, 4_900, 2)]);
}

#[test]
fn fewer_than_two_points_of_silence_cut_by_time() {
    let one = plan_by_silence(Platform::Linux, "/o", "mp3", &vec![700], 2_500, 1_000);
    assert_eq!(shape(&one), vec![(0, 1_000, 1), (1_000, 1_000, 2), (2_000, 500, 3)]);
    let none = plan_by_silence(Platform::Linux, "/o", "mp3", &vec![], 900, 1_000);
    assert_eq!(shape(&none), vec![(0, 900, 1)]);
}

#[test]
fn silence_is_read_sorted_and_thinned() {
    let output = "frame 1\n\
        [silencedetect @ 0x1] silence_end: 12.5 | silence_duration: 1\n\
        [silencedetect @ 0x1] silence_start: 3\n\
        [silencedetect @ 0x1] silence_end: 3.25 | silence_duration: 1\n\
        [silencedetect @ 0x1] silence_end: 3.349 | silence_duration: 1\n\
        [silencedetect @ 0x1] silence_end: 3.35 | silence_duration: 1\n\
        [silencedetect @ 0x1] silence_end: 3.45 | silence_duration: 1\n\
        [silencedetect @ 0x1] silence_end: nan | silence_duration: 1\n\
        [silencedetect @ 0x1] silence_end: 1,5 | silence_duration: 1\n\
        [silencedetect @ 0x1] silence_end: 7\n\
        [silencedetect @ 0x1] silence_end: 0.0004 | x\n";
    assert_eq!(detect_silence_points(output), vec![0, 3_250, 3_350, 3_450, 12_500]);
    assert_eq!(detect_silence_points(""), Vec::<u64>::new());
}

#[test]
fn pieces_go_beside_the_file() {
    assert_eq!(output_dir_for(Platform::Linux, Some("/music"), "talk"), "/music/talk_segments");
    assert_eq!(output_dir_for(Platform::Linux, Some(""), "talk"), "talk_segments");
    assert_eq!(output_dir_for(Platform::Windows, Some("C:\\m"), "talk"), "C:\\m\\talk_segments");
    assert_eq!(output_dir_for(Platform::Linux, None, "talk"), "./audio_segments");
}

#[test]
fn durations_are_read() {
    assert_eq!(parse_duration_string("00:03:25.45"), Some(205_450));
    assert_eq!(parse_duration_string("01:00:00"), Some(3_600_000));
    assert_eq!(parse_duration_string("00:03:25,45"), None);
    assert_eq!(parse_duration_string("N/A"), None);
    assert_eq!(parse_duration_string("03:25"), None);
}

#[test]
fn duration_is_found_in_the_output_of_the_tool() {
    let output = "Input #0, mp3, from 'a.mp3':\n  Duration: 00:03:25.45, start: 0.025, bitrate: 128 kb/s\n  Duration: 00:00:01.00, x\n";
    assert_eq!(duration_in(output, false), Some(205_450));
    assert_eq!(duration_in(output, true), Some(205_450));
    assert_eq!(duration_in("  Duration: N/A, bitrate: N/A", false), Some(0));
    assert_eq!(duration_in("x\nThe Duration: 00:00:02.5 Duration: 9", false), None);
    assert_eq!(duration_in("x\nThe Duration: 00:00:02.5 Duration: 9", true), Some(2_500));
    assert_eq!(duration_in("Duration:00:00:02,5", false), Some(2_000));
    assert_eq!(duration_in("no such line\n", true), None);
    assert_eq!(duration_in("", false), None);
}

#[test]
fn durations_are_shown_for_people() {
    assert_eq!(format_duration(0), "0:00");
    assert_eq!(format_duration(65_999), "1:05");
    assert_eq!(format_duration(3_599_000), "59:59");
    assert_eq!(format_duration(3_600_000), "1:00:00");
    assert_eq!(format_duration(360_000_000), "100:00:00");
    assert_eq!(format_duration(3_723_004), "1:02:03");
}

#[test]
fn file_that_cannot_be_cut_has_no_plan() {
    assert!(try_plan_by_time(Platform::Linux, "d", "mp3", 10, 0).is_none());
    assert!(try_plan_by_silence(Platform::Linux, "d", "mp3", &vec![1, 2], 10, 0).is_none());
    assert!(try_plan_by_silence(Platform::Linux, "d", "mp3", &vec![2, 1], 10, 5).is_none());
    assert!(try_plan_by_silence(Platform::Linux, "d", "mp3", &vec![1, 11], 10, 5).is_none());
    assert!(try_plan_by_silence(Platform::Linux, "d", "mp3", &vec![11], 10, 5).is_none());
}

#[test]
fn file_that_can_be_cut_has_the_same_plan_either_way() {
    let checked = try_plan_by_time(Platform::Linux, "d", "mp3", 25, 10).unwrap();
    assert_eq!(shape(&checked), shape(&plan_by_time(Platform::Linux, "d", "mp3", 25, 10)));
    let points = vec![5, 5, 20];
    let checked = try_plan_by_silence(Platform::Linux, "d", "mp3", &points, 25, 10).unwrap();
    assert_eq!(shape(&checked), vec![(0, 25, 1)]);
    assert_eq!(shape(&checked), shape(&plan_by_silence(Platform::Linux, "d", "mp3", &points, 25, 10)));
}
