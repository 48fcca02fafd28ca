use transcription_assistant::audio::{
    extract_time_from_silence_line, AudioProcessor, ProcessingOptions,
};
use transcription_assistant::ffmpeg::{
    get_app_data_dir, is_ffmpeg_binary, join_path, FFmpegManager, FfmpegError, Platform,
};

#[test]
fn paths_are_joined_with_the_separator_of_the_platform() {
    assert_eq!(join_path(Platform::Linux, "/home/u", "x"), "/home/u/x");
    assert_eq!(join_path(Platform::Linux, "/home/u/", "x"), "/home/u/x");
    assert_eq!(join_path(Platform::MacOs, "", "x"), "x");
    assert_eq!(join_path(Platform::Windows, "C:\\a", "x"), "C:\\a\\x");
    assert_eq!(join_path(Platform::Windows, "C:\\a\\", "x"), "C:\\a\\x");
    assert_eq!(join_path(Platform::Windows, "C:/a/", "x"), "C:/a/x");
    assert_eq!(join_path(Platform::Linux, "a\\", "x"), "a\\/x");
}

#[test]
fn app_data_dir_on_each_platform() {
    assert_eq!(
        get_app_data_dir(Platform::Linux, Some("/home/u")).unwrap(),
        "/home/u/.config/transcription-assistant"
    );
    assert_eq!(
        get_app_data_dir(Platform::MacOs, Some("/Users/u")).unwrap(),
        "/Users/u/Library/Application Support/TranscriptionAssistant"
    );
    assert_eq!(
        get_app_data_dir(Platform::Windows, Some("C:\\Users\\u\\AppData\\Roaming")).unwrap(),
        "C:\\Users\\u\\AppData\\Roaming\\TranscriptionAssistant"
    );
    assert_eq!(get_app_data_dir(Platform::Linux, None), Err(FfmpegError::NoAppDataDir));
}

#[test]
fn manager_knows_where_its_copy_is_kept() {
    let m = FFmpegManager::new(Platform::Linux, Some("/home/u")).unwrap();
    assert_eq!(m.data_dir(), "/home/u/.config/transcription-assistant");
    assert_eq!(m.bundled(), "/home/u/.config/transcription-assistant/ffmpeg/ffmpeg");
    let w = FFmpegManager::new(Platform::Windows, Some("C:\\R")).unwrap();
    assert_eq!(w.bundled(), "C:\\R\\TranscriptionAssistant\\ffmpeg\\ffmpeg.exe");
    let mac = FFmpegManager::new(Platform::MacOs, Some("/Users/u")).unwrap();
    assert_eq!(
        mac.bundled(),
        "/Users/u/Library/Application Support/TranscriptionAssistant/ffmpeg/ffmpeg"
    );
}

#[test]
fn manager_without_a_home_cannot_be_made() {
    assert!(matches!(
        FFmpegManager::new(Platform::Windows, None),
        Err(FfmpegError::NoAppDataDir)
    ));
    assert!(matches!(AudioProcessor::new(Platform::Linux, None), Err(FfmpegError::NoAppDataDir)));
}

#[test]
fn own_copy_is_preferred_to_the_one_of_the_system() {
    let m = FFmpegManager::new(Platform::Linux, Some("/h")).unwrap();
    assert_eq!(
        m.get_ffmpeg_path(true, Some(String::from("/usr/bin/ffmpeg"))).unwrap(),
        "/h/.config/transcription-assistant/ffmpeg/ffmpeg"
    );
    assert_eq!(
        m.get_ffmpeg_path(true, None).unwrap(),
        "/h/.config/transcription-assistant/ffmpeg/ffmpeg"
    );
    assert_eq!(
        m.get_ffmpeg_path(false, Some(String::from("/usr/bin/ffmpeg"))).unwrap(),
        "/usr/bin/ffmpeg"
    );
    assert_eq!(m.get_ffmpeg_path(false, None), Err(FfmpegError::NotFound));
}

#[test]
fn tool_is_available_where_the_copy_that_counts_runs() {
    let m = FFmpegManager::new(Platform::Linux, Some("/h")).unwrap();
    assert!(m.is_ffmpeg_available(Some(true), None));
    assert!(m.is_ffmpeg_available(Some(true), Some(false)));
    assert!(!m.is_ffmpeg_available(Some(false), Some(true)));
    assert!(m.is_ffmpeg_available(None, Some(true)));
    assert!(!m.is_ffmpeg_available(None, Some(false)));
    assert!(!m.is_ffmpeg_available(None, None));
}

#[test]
fn tool_is_fetched_only_as_a_last_resort() {
    let m = FFmpegManager::new(Platform::Linux, Some("/h")).unwrap();
    assert!(m.needs_download(false, false));
    assert!(!m.needs_download(true, false));
    assert!(!m.needs_download(false, true));
    assert!(!m.needs_download(true, true));
}

#[test]
fn download_address_of_each_platform() {
    let url = |p: Platform| FFmpegManager::new(p, Some("h")).unwrap().get_download_url();
    assert_eq!(
        url(Platform::Windows),
        "https://github.com/BtbN/FFmpeg-Builds/releases/download/latest/ffmpeg-master-latest-win64-gpl.zip"
    );
    assert_eq!(url(Platform::MacOs), "https://evermeet.cx/ffmpeg/ffmpeg-6.0.zip");
    assert_eq!(
        url(Platform::Linux),
        "https://github.com/BtbN/FFmpeg-Builds/releases/download/latest/ffmpeg-master-latest-linux64-gpl.tar.xz"
    );
}

#[test]
fn tool_is_known_by_its_name_in_an_archive() {
    assert!(is_ffmpeg_binary("ffmpeg"));
    assert!(is_ffmpeg_binary("ffmpeg.exe"));
    assert!(!is_ffmpeg_binary("ffprobe"));
    assert!(!is_ffmpeg_binary("FFMPEG"));
    assert!(!is_ffmpeg_binary(""));
}

#[test]
fn processing_options_by_default() {
    let o = ProcessingOptions::default();
    assert_eq!(o.max_duration_seconds, 1800);
    assert!(o.use_silence_detection);
    assert_eq!(o.output_format, "mp3");
}

#[test]
fn processor_holds_a_manager() {
    let p = AudioProcessor::new(Platform::Linux, Some("/h")).unwrap();
    assert_eq!(p.ffmpeg().bundled(), "/h/.config/transcription-assistant/ffmpeg/ffmpeg");
}

#[test]
fn end_of_a_silence_is_taken_from_the_line() {
    assert_eq!(
        extract_time_from_silence_line(
            "[silencedetect @ 0x55] silence_end: 123.456 | silence_duration: 2.345"
        ),
        Some(String::from("123.456"))
    );
    assert_eq!(
        extract_time_from_silence_line("silence_end:  7 |"),
        Some(String::from(""))
    );
    assert_eq!(
        extract_time_from_silence_line("silence_end: 1 silence_end: 2 "),
        Some(String::from("1"))
    );
}

#[test]
fn line_without_label_or_without_a_space_after_the_time_gives_nothing() {
    assert_eq!(extract_time_from_silence_line("silence_end: 5"), None);
    assert_eq!(extract_time_from_silence_line("silence_start: 5 "), None);
    assert_eq!(extract_time_from_silence_line("silence_end:5 "), None);
    assert_eq!(extract_time_from_silence_line(""), None);
}
