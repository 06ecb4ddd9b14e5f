//! Probing files and their key frames.

use ltc_timecode::ffprobe::{
    build_extract_args, build_probe_args, extraction_error, is_video_extension, path_is_video,
    probe_video_audio, stderr_tail, ProbeRun,
};
use ltc_timecode::keyframes::{
    build_keyframe_args, parse_last_keyframe as last_keyframe_nanos, read_decimal,
    snap_trim_to_keyframe,
};

fn nanos(secs: f64) -> i64 {
    (secs * 1e9).round() as i64
}

fn parse_last_keyframe(json: &str, offset_secs: f64) -> Option<f64> {
    last_keyframe_nanos(json, nanos(offset_secs)).map(|n| n as f64 / 1e9)
}

fn p(s: &str) -> String {
    s.to_string()
}

#[test]
fn test_path_is_video_extensions() {
    assert!(path_is_video(&p("clip.mp4")));
    assert!(path_is_video(&p("clip.MOV")));
    assert!(path_is_video(&p("clip.Mkv")));
    assert!(path_is_video(&p("clip.mxf")));
    assert!(!path_is_video(&p("tone.wav")));
    assert!(!path_is_video(&p("notes.txt")));
    assert!(!path_is_video(&p("noext")));
}

#[test]
fn test_build_extract_args_maps_absolute_stream_index() {
    let args = build_extract_args(&p("/in/c0003.mp4"), 1, 0, &p("/tmp/out.wav"));
    let map_pos = args.iter().position(|a| a == "-map").expect("-map present");
    assert_eq!(
        args[map_pos + 1],
        "0:1",
        "-map must use the absolute stream index (ffprobe `index` numbering), \
         not the n-th-audio-stream form; args: {:?}",
        args
    );
}

#[test]
fn test_build_extract_args_channel_filter_and_pcm() {
    let args = build_extract_args(&p("/in/c0003.mp4"), 2, 1, &p("/tmp/out.wav"));
    let af_pos = args.iter().position(|a| a == "-af").expect("-af present");
    assert_eq!(args[af_pos + 1], "pan=mono|FC=c1");
    let codec_pos = args.iter().position(|a| a == "-c:a").expect("-c:a present");
    assert_eq!(args[codec_pos + 1], "pcm_s24le");
    assert_eq!(args.last().unwrap(), "/tmp/out.wav");
    assert_eq!(args.first().unwrap(), "-y");
}

#[test]
fn test_build_extract_args_stream_zero() {
    let args = build_extract_args(&p("/in/a.mkv"), 0, 3, &p("/tmp/o.wav"));
    let map_pos = args.iter().position(|a| a == "-map").unwrap();
    assert_eq!(args[map_pos + 1], "0:0");
    let af_pos = args.iter().position(|a| a == "-af").unwrap();
    assert_eq!(args[af_pos + 1], "pan=mono|FC=c3");
}

#[test]
fn test_parse_sample_rate_from_ffprobe_json() {
    let json = r#"{"streams":[{"index":1,"codec_name":"aac","channels":2,"sample_rate":"48000"}]}"#;
    let probe = probe_video_audio("/in/clip.mp4", &ProbeRun::Output(json.to_string())).unwrap();
    let sr = probe.streams[0].sample_rate;
    assert_eq!(sr, 48000);
}

#[test]
fn test_parse_sample_rate_fallback_on_missing() {
    let json = r#"{"streams":[{"index":1,"codec_name":"pcm_s16le","channels":1}]}"#;
    let probe = probe_video_audio("/in/clip.mp4", &ProbeRun::Output(json.to_string())).unwrap();
    let sr = probe.streams[0].sample_rate;
    assert_eq!(sr, 48000);
}

#[test]
fn test_stderr_tail_short_input() {
    assert_eq!(stderr_tail("  hello\n", 400), "hello");
}

#[test]
fn test_stderr_tail_truncates_from_the_end() {
    let long = "0123456789".repeat(100); // 1000 chars
    let tail = stderr_tail(&long, 10);
    assert_eq!(tail, "…0123456789");
    assert_eq!(tail.chars().count(), 11);
}

// ── parse_last_keyframe ──────────────────────────────────────────────

/// Real ffprobe output shape (timestamps absolute, packets unordered
/// due to B-frame reordering) from a 25 fps H.264 clip with GOP 50.
const KEYFRAME_JSON: &str = r#"{
    "packets": [
        { "pts_time": "1.080000", "flags": "___" },
        { "pts_time": "0.000000", "flags": "K__" },
        { "pts_time": "1.040000", "flags": "___" },
        { "pts_time": "0.960000", "flags": "___" },
        { "pts_time": "2.000000", "flags": "K__" },
        { "pts_time": "2.160000", "flags": "___" },
        { "pts_time": "2.040000", "flags": "___" }
    ]
}"#;

#[test]
fn test_parse_last_keyframe_picks_max_qualifying() {
    // Offset mid-GOP: last keyframe at or before 3.0 is 2.0
    assert_eq!(parse_last_keyframe(KEYFRAME_JSON, 3.0), Some(2.0));
    assert_eq!(parse_last_keyframe(KEYFRAME_JSON, 2.0), Some(2.0));
    assert_eq!(parse_last_keyframe(KEYFRAME_JSON, 2.0001), Some(2.0));
}

#[test]
fn test_parse_last_keyframe_first_gop() {
    assert_eq!(parse_last_keyframe(KEYFRAME_JSON, 0.5), Some(0.0));
    assert_eq!(parse_last_keyframe(KEYFRAME_JSON, 0.0), Some(0.0));
}

#[test]
fn test_parse_last_keyframe_none_before_any_keyframe() {
    // Negative offsets have no keyframe
    assert_eq!(parse_last_keyframe(KEYFRAME_JSON, -1.0), None);
}

#[test]
fn test_parse_last_keyframe_empty_or_garbage() {
    assert_eq!(parse_last_keyframe(r#"{"packets": []}"#, 5.0), None);
    assert_eq!(parse_last_keyframe("not json", 5.0), None);
    assert_eq!(parse_last_keyframe(r#"{"other": 1}"#, 5.0), None);
}

#[test]
fn test_parse_last_keyframe_flags_without_k_ignored() {
    let json = r#"{"packets": [
        { "pts_time": "1.0", "flags": "__" },
        { "pts_time": "2.0", "flags": "___" }
    ]}"#;
    assert_eq!(parse_last_keyframe(json, 5.0), None);
}

#[test]
fn test_parse_last_keyframe_mixed_k_flags() {
    // Discard/corrupt flag combos like "K_" or "-K-" still count
    let json = r#"{"packets": [
        { "pts_time": "1.5", "flags": "K_" }
    ]}"#;
    assert_eq!(parse_last_keyframe(json, 5.0), Some(1.5));
}

#[test]
fn a_probe_holds_every_audio_stream() {
    let json = r#"{"streams":[
        {"index":1,"codec_name":"aac","channels":2,"sample_rate":"44100"},
        {"index":3,"codec_name":"pcm_s24le","channels":4}
    ]}"#;
    let probe = probe_video_audio("/in/clip.mp4", &ProbeRun::Output(json.to_string())).unwrap();
    assert_eq!(probe.streams.len(), 2);
    assert_eq!(probe.streams[0].stream_index, 1);
    assert_eq!(probe.streams[0].codec_name, "aac");
    assert_eq!(probe.streams[0].sample_rate, 44100);
    assert_eq!(probe.streams[1].stream_index, 3);
    assert_eq!(probe.streams[1].channels, 4);
    assert_eq!(probe.streams[1].sample_rate, 48000);
    assert_eq!(probe.total_audio_channels, 6);
    assert!(probe.is_video_file);
}

#[test]
fn a_probe_that_did_not_run_is_an_error() {
    let e = probe_video_audio("a.mp4", &ProbeRun::NotRun("no such file".to_string())).unwrap_err();
    assert_eq!(e, "Failed to run ffprobe: no such file");
    let e = probe_video_audio("a.mp4", &ProbeRun::Failed("bad".to_string())).unwrap_err();
    assert_eq!(e, "ffprobe failed: bad");
    assert!(probe_video_audio("a.mp4", &ProbeRun::Output("not json".to_string())).is_err());
    assert!(probe_video_audio("a.mp4", &ProbeRun::Output("{}".to_string())).is_err());
}

#[test]
fn probing_asks_for_the_audio_streams() {
    let args = build_probe_args("/in/a.mp4");
    assert!(args.contains(&"-show_streams".to_string()));
    assert_eq!(args.last().unwrap(), "/in/a.mp4");
}

#[test]
fn an_extraction_that_failed_is_described() {
    assert_eq!(
        extraction_error("/in/a.mp4", 1, 2, "  no such stream \n"),
        "ffmpeg audio extraction failed: stream 1 channel 2 in '/in/a.mp4': no such stream"
    );
}

#[test]
fn video_extensions_are_lower_case() {
    assert!(is_video_extension("mp4"));
    assert!(!is_video_extension("MP4"));
    assert!(!is_video_extension("wav"));
}

#[test]
fn a_cut_moves_back_to_its_key_frame() {
    assert_eq!(snap_trim_to_keyframe(3_000_000_000, Some(KEYFRAME_JSON)), nanos(2.0));
    assert_eq!(snap_trim_to_keyframe(3_000_000_000, Some("not json")), 0);
    assert_eq!(snap_trim_to_keyframe(3_000_000_000, None), nanos(3.0));
    assert_eq!(snap_trim_to_keyframe(1_000_000, None), 0);
}

#[test]
fn key_frames_are_looked_for_around_the_cut() {
    let args = build_keyframe_args("/in/a.mp4", 3_000_000_000);
    assert!(args.contains(&"/in/a.mp4".to_string()));
    assert!(args.contains(&"-read_intervals".to_string()));
}

#[test]
fn decimal_seconds_are_read_to_the_nanosecond() {
    assert_eq!(read_decimal("2.000001"), Some(2_000_001_000));
    assert_eq!(read_decimal("-0.5"), Some(-500_000_000));
    assert_eq!(read_decimal("7"), Some(7_000_000_000));
    assert_eq!(read_decimal(""), None);
    assert_eq!(read_decimal("abc"), None);
    assert_eq!(read_decimal("1.2.3"), None);
}

#[test]
fn a_key_frame_just_behind_the_offset_does_not_count() {
    let json = r#"{"packets": [{ "pts_time": "2.0005", "flags": "K_" }]}"#;
    assert_eq!(parse_last_keyframe(json, 2.0), None);
    assert_eq!(parse_last_keyframe(json, 2.0005), Some(2.0005));
}

#[test]
fn decimal_seconds_may_have_an_exponent() {
    assert_eq!(read_decimal("1e3"), Some(1_000_000_000_000));
    assert_eq!(read_decimal("1.5E-1"), Some(150_000_000));
    assert_eq!(read_decimal("+2e+1"), Some(20_000_000_000));
    assert_eq!(read_decimal("-.25e1"), Some(-2_500_000_000));
    assert_eq!(read_decimal("5.e0"), Some(5_000_000_000));
    assert_eq!(read_decimal("0e99999999999999999999"), Some(0));
    assert_eq!(read_decimal("1e-30"), Some(0));
    assert_eq!(read_decimal("1e"), None);
    assert_eq!(read_decimal("1e+"), None);
    assert_eq!(read_decimal("e3"), None);
    assert_eq!(read_decimal("1e3.5"), None);
}

#[test]
fn seconds_without_end_are_held_to_the_clock() {
    let end = read_decimal("1e30").unwrap();
    assert_eq!(read_decimal("inf"), Some(end));
    assert_eq!(read_decimal("+Infinity"), Some(end));
    assert_eq!(read_decimal("-INF"), Some(-end));
    assert!(end > 1_000_000_000_000_000_000);
    assert_eq!(read_decimal("infinite"), None);
    assert_eq!(read_decimal("nan"), None);
}
