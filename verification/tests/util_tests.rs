use stream_clipper::stats::{isqrt, median, percentile_value, sort_values, standard_deviation};
use stream_clipper::timefmt::{format_duration, format_timestamp, parse_timestamp};
use stream_clipper::video::{
    is_supported_format, parse_duration, FFmpegError, OutputResolution,
};

#[test]
fn test_median() {
    // Values in milli-units: the midpoint of an even count stays exact.
    assert_eq!(median(&vec![1000, 2000, 3000]), 2000);
    assert_eq!(median(&vec![1000, 2000, 3000, 4000]), 2500);
}

#[test]
fn test_stats_empty_inputs() {
    assert_eq!(median(&vec![]), 0);
    assert_eq!(percentile_value(&vec![], 90), 0);
    assert_eq!(standard_deviation(&vec![], 0), 0);
}

#[test]
fn test_percentile_value() {
    let v: Vec<u64> = (1..=100).collect();
    assert_eq!(percentile_value(&v, 75), 75);
    assert_eq!(percentile_value(&v, 0), 1);
    assert_eq!(percentile_value(&v, 100), 100);
}

#[test]
fn test_standard_deviation_exact() {
    // Values 2 and 6 around mean 4: variance 4, deviation 2.
    assert_eq!(standard_deviation(&vec![2, 6], 4), 2);
    assert_eq!(standard_deviation(&vec![5, 5, 5], 5), 0);
}

#[test]
fn test_sort_and_isqrt() {
    let mut v: Vec<u64> = vec![3, 1, 2, 2];
    sort_values(&mut v);
    assert_eq!(v, vec![1, 2, 2, 3]);
    assert_eq!(isqrt(0), 0);
    assert_eq!(isqrt(15), 3);
    assert_eq!(isqrt(16), 4);
    assert_eq!(isqrt(u64::MAX), 0xFFFF_FFFF);
}

#[test]
fn test_format_timestamp() {
    assert_eq!(format_timestamp(65000), "01m05s");
    assert_eq!(format_timestamp(3665000), "01h01m05s");
}

#[test]
fn test_format_duration() {
    assert_eq!(format_duration(65000), "1:05");
    assert_eq!(format_duration(3665000), "1:01:05");
}

#[test]
fn test_parse_timestamp() {
    assert_eq!(parse_timestamp("1:05"), Some(65000));
    assert_eq!(parse_timestamp("1:01:05"), Some(3665000));
    assert_eq!(parse_timestamp("1:05.5"), Some(65500));
    assert_eq!(parse_timestamp("105"), None);
    assert_eq!(parse_timestamp("1:a5"), None);
    assert_eq!(parse_timestamp("1:2:3:4"), None);
}

#[test]
fn test_is_supported_format() {
    assert!(is_supported_format("video.mp4"));
    assert!(is_supported_format("video.MKV"));
    assert!(!is_supported_format("video.txt"));
    assert!(is_supported_format("/tmp/clips/video.webm"));
    assert!(!is_supported_format("no_extension"));
    assert!(!is_supported_format(".mp4"));
}

#[test]
fn test_parse_duration() {
    assert_eq!(parse_duration("00:01:30.50"), 90500);
    assert_eq!(parse_duration("01:00:00.00"), 3600000);
    assert_eq!(parse_duration("bogus"), 0);
}

#[test]
fn test_resolution_heights() {
    assert_eq!(OutputResolution::R720p.to_height(), Some(720));
    assert_eq!(OutputResolution::R1080p.to_height(), Some(1080));
    assert_eq!(OutputResolution::R1440p.to_height(), Some(1440));
    assert_eq!(OutputResolution::R4K.to_height(), Some(2160));
    assert_eq!(OutputResolution::Source.to_height(), None);
}

#[test]
fn test_ffmpeg_error_text() {
    assert_eq!(FFmpegError::BinaryNotFound.describe(), "FFmpeg binary not found");
    assert_eq!(
        FFmpegError::ExecutionFailed(String::from("boom")).describe(),
        "FFmpeg execution failed: boom"
    );
}
