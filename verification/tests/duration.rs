//! Durations of files and groups of files.

use ltc_timecode::duration::{
    build_duration_args, file_duration_secs_with as file_duration_nanos,
    format_duration_secs as format_duration_nanos, group_duration_secs as group_duration_nanos,
    parse_ffprobe_duration,
};
use ltc_timecode::settings::RecordingType;
use ltc_timecode::wav::read_wav_sample_rate;

fn nanos(secs: f64) -> i64 {
    (secs * 1e9).round() as i64
}

fn file_duration_secs(path: &str, bytes: Option<&[u8]>) -> Option<f64> {
    file_duration_nanos(path, bytes, None).map(|n| n as f64 / 1e9)
}

fn file_duration_secs_with(path: &str, probed: Option<f64>) -> Option<f64> {
    file_duration_nanos(path, None, probed.map(nanos)).map(|n| n as f64 / 1e9)
}

fn group_duration_secs(recording_type: &RecordingType, durations: &[Option<f64>]) -> Option<f64> {
    let durations: Vec<Option<i64>> = durations.iter().map(|d| d.map(nanos)).collect();
    group_duration_nanos(recording_type, &durations).map(|n| n as f64 / 1e9)
}

fn format_duration_secs(secs: f64) -> String {
    format_duration_nanos(nanos(secs))
}

fn test_wav(sample_rate: u32, channels: u16, bits_per_sample: u16, num_samples: u64) -> Vec<u8> {
    let spec = hound::WavSpec {
        channels,
        sample_rate,
        bits_per_sample,
        sample_format: hound::SampleFormat::Int,
    };
    let mut cursor = std::io::Cursor::new(Vec::new());
    let mut writer = hound::WavWriter::new(&mut cursor, spec).unwrap();
    for _ in 0..num_samples {
        for _ in 0..channels {
            writer.write_sample(0i16).unwrap();
        }
    }
    writer.finalize().unwrap();
    cursor.into_inner()
}

#[test]
fn test_wav_duration_48k_mono_16bit() {
    let path = "test.wav";
    let bytes = test_wav(48000, 1, 16, 96000);
    let dur = file_duration_secs(path, Some(&bytes)).expect("should parse duration");
    assert!((dur - 2.0).abs() < 0.001, "expected 2.0s, got {}", dur);
}

#[test]
fn test_wav_duration_44100_stereo_24bit() {
    let path = "test.wav";
    let bytes = test_wav(44100, 2, 24, 44100);
    let dur = file_duration_secs(path, Some(&bytes)).expect("should parse duration");
    assert!((dur - 1.0).abs() < 0.001, "expected 1.0s, got {}", dur);
}

#[test]
fn test_wav_duration_8000_mono_8bit() {
    let path = "test.wav";
    let bytes = test_wav(8000, 1, 8, 4000);
    let dur = file_duration_secs(path, Some(&bytes)).expect("should parse duration");
    assert!((dur - 0.5).abs() < 0.001, "expected 0.5s, got {}", dur);
}

#[test]
fn test_wav_duration_zero_samples() {
    let path = "empty.wav";
    let bytes = test_wav(48000, 1, 16, 0);
    let dur = file_duration_secs(path, Some(&bytes)).expect("should parse duration for empty wav");
    assert!((dur).abs() < 0.001, "expected 0.0s, got {}", dur);
}

#[test]
fn test_missing_file_returns_none() {
    let result = file_duration_secs("/nonexistent/file.wav", None);
    assert!(result.is_none());
}

#[test]
fn test_corrupt_wav_returns_none() {
    let result = file_duration_secs("corrupt.wav", Some(b"not a wav file at all"));
    assert!(result.is_none());
}

#[test]
fn test_non_wav_uses_ffprobe_runner() {
    // A non-.wav path — the ffprobe runner should be called.
    let path = "/some/video.mp4";
    let result = file_duration_secs_with(path, Some(123.456));
    assert!((result.unwrap() - 123.456).abs() < 0.001);
}

#[test]
fn test_non_wav_runner_returns_none() {
    let path = "/some/video.mp4";
    let result = file_duration_secs_with(path, None);
    assert!(result.is_none());
}

#[test]
fn test_wav_ignores_ffprobe_runner() {
    // .wav should go by its header, not by what ffprobe found.
    let bytes = test_wav(48000, 1, 16, 48000);
    let result = file_duration_nanos("test.wav", Some(&bytes), Some(nanos(7.0)));
    assert!((result.unwrap() as f64 / 1e9 - 1.0).abs() < 0.001);
    let result = file_duration_nanos("test.WAV", Some(&bytes), Some(nanos(7.0)));
    assert_eq!(result, Some(nanos(1.0)));
}

#[test]
fn test_group_duration_audio_take_length() {
    // MultiTrackAudio → max
    let durs = [Some(10.0), Some(20.0), Some(15.0)];
    let result = group_duration_secs(&RecordingType::MultiTrackAudio, &durs);
    assert!((result.unwrap() - 20.0).abs() < 0.001);
}

#[test]
fn test_group_duration_audio_all_none() {
    let durs = [None, None];
    let result = group_duration_secs(&RecordingType::MultiTrackAudio, &durs);
    assert!(result.is_none());
}

#[test]
fn test_group_duration_audio_partial_none() {
    let durs = [None, Some(30.0), None];
    let result = group_duration_secs(&RecordingType::MultiTrackAudio, &durs);
    assert!((result.unwrap() - 30.0).abs() < 0.001);
}

#[test]
fn test_group_duration_video_total() {
    let durs = [Some(60.0), Some(120.0), Some(30.0)];
    let result = group_duration_secs(&RecordingType::VideoClipSequence, &durs);
    assert!((result.unwrap() - 210.0).abs() < 0.001);
}

#[test]
fn test_group_duration_video_single_clip() {
    let durs = [Some(45.0)];
    let result = group_duration_secs(&RecordingType::VideoClipSequence, &durs);
    assert!((result.unwrap() - 45.0).abs() < 0.001);
}

#[test]
fn test_group_duration_video_all_none() {
    let durs = [None, None];
    let result = group_duration_secs(&RecordingType::VideoClipSequence, &durs);
    assert!(result.is_none());
}

#[test]
fn test_group_duration_video_zero_from_none() {
    let durs = [None, Some(0.0)];
    let result = group_duration_secs(&RecordingType::VideoClipSequence, &durs);
    assert!(result.is_none(), "sum of zero should be None");
}

#[test]
fn test_format_duration_typical() {
    assert_eq!(format_duration_secs(3723.0), "1:02:03");
}

#[test]
fn test_format_duration_less_than_hour() {
    assert_eq!(format_duration_secs(45.0), "0:00:45");
}

#[test]
fn test_format_duration_exact_hour() {
    assert_eq!(format_duration_secs(3600.0), "1:00:00");
}

#[test]
fn test_format_duration_many_hours() {
    assert_eq!(format_duration_secs(90061.0), "25:01:01");
}

#[test]
fn test_format_duration_rounds() {
    assert_eq!(format_duration_secs(61.7), "0:01:02");
    assert_eq!(format_duration_secs(59.4), "0:00:59");
}

#[test]
fn test_format_duration_zero() {
    assert_eq!(format_duration_secs(0.0), "0:00:00");
}

#[test]
fn what_ffprobe_prints_is_read() {
    assert_eq!(parse_ffprobe_duration("12.500000\n"), Some(nanos(12.5)));
    assert_eq!(parse_ffprobe_duration("  \n"), None);
    assert_eq!(parse_ffprobe_duration("N/A\n"), None);
    assert_eq!(
        build_duration_args("/in/a.mp4"),
        vec![
            "-v",
            "error",
            "-show_entries",
            "format=duration",
            "-of",
            "default=noprint_wrappers=1:nokey=1",
            "/in/a.mp4",
        ]
    );
}

#[test]
fn negative_durations_are_shown_as_none() {
    assert_eq!(format_duration_secs(-3.0), "0:00:00");
}

#[test]
fn the_rate_is_read_from_the_start_of_a_wav_file() {
    let bytes = test_wav(44100, 2, 16, 10);
    assert_eq!(read_wav_sample_rate(&bytes), Some(44100));
    assert_eq!(read_wav_sample_rate(&bytes[..27]), None);
    let mut other = bytes.clone();
    other[8] = b'X';
    assert_eq!(read_wav_sample_rate(&other), None);
}
