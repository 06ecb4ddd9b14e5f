//! Settings, plans and arguments of a conversion.

use std::collections::BTreeSet;

use ltc_timecode::capabilities::{
    capabilities_from, parse_listing, FfmpegCapabilities, HwDeviceCapabilities, Listing, VersionRun,
};
use ltc_timecode::channel_map::ChannelMap;
use ltc_timecode::conversion::{ConversionState, ConversionStatus};
use ltc_timecode::fallback::{resolve_device_for_candidate, EncoderFallback, HwDeviceContext};
use ltc_timecode::ffmpeg_args::{
    build_audio_to_audio_args, build_audio_to_synthetic_video_args, build_concat_audio_args,
    build_split_track_args, build_video_mux_args, build_video_only_args,
    build_video_to_video_args, build_video_track_extract_args, push_hw_device_prelude,
    push_video_encoder,
};
use ltc_timecode::ffprobe::{AudioStreamInfo, VideoAudioProbe};
use ltc_timecode::formats::{
    apply_available_defaults, audio_encoder_to_output_format,
    available_audio_encoders_for_container, available_containers,
    container_supports_audio_encoder, container_to_ffmpeg_format, copy_mode_container_for_input,
    extension_for_container, select_best_combination, supported_audio_encoders,
    supported_containers,
};
use ltc_timecode::ltc_decoder::FrameTimecode;
use ltc_timecode::outputs::{preview_output_files, OutputKind};
use ltc_timecode::paths::{file_name, file_stem, join_path};
use ltc_timecode::planner::{
    plan_concat_outputs, plan_video_outputs, plan_video_outputs_for_file, AudioKeep,
    VideoOutputStep,
};
use ltc_timecode::progress::{classify_step_failure, clock_of_groups, StepFailure, StepRun};
use ltc_timecode::readiness::{evaluate_readiness, format_blockers, ConvertBlocker};
use ltc_timecode::sanity::InputFile;
use ltc_timecode::settings::{
    ConversionPipeline, ConverterSettings, OutputNamingMode, RecordingType, ResolvedHwDevice,
    DEFAULT_AUDIO_SUFFIX, DEFAULT_VIDEO_SUFFIX,
};
use ltc_timecode::timecode::{format_ffmpeg_timecode, FrameRate, Timecode};
use ltc_timecode::timecode_meta::TimecodeMetadata;
use ltc_timecode::video_codecs::available_video_codecs;

/// A rate given with up to three decimals.
fn rate(fps: f64) -> FrameRate {
    FrameRate { num: (fps * 1000.0).round() as u32, den: 1000 }
}

fn nanos(secs: f64) -> i64 {
    (secs * 1e9).round() as i64
}

fn find_timecode_at_offset(timecodes: &[FrameTimecode], secs: f64) -> Option<Timecode> {
    ltc_timecode::timecode_meta::find_timecode_at_offset(timecodes, nanos(secs))
}

fn shift_timecode_back(tc: &Timecode, secs: f64, fps: f64, drop_frame: bool) -> Timecode {
    let delta = (secs * 1e9).round() as i64;
    ltc_timecode::timecode::shift_timecode_back(tc, delta, rate(fps), drop_frame)
}

fn increment_timecode(tc: &Timecode, fps: f64, drop_frame: bool) -> Timecode {
    ltc_timecode::timecode::increment_timecode(tc, rate(fps), drop_frame)
}

fn parse_out_time(line: &str) -> Option<f64> {
    ltc_timecode::progress::parse_out_time(line).map(|us| us as f64 / 1e6)
}

/// The duration that a line of ffmpeg's output tells, in seconds.
fn parse_duration(line: &str) -> Option<f64> {
    let mut run = StepRun::new();
    run.read_line(line);
    run.duration.map(|us| us as f64 / 1e6)
}

fn existing(paths: &[String]) -> Vec<InputFile> {
    paths.iter().map(|p| InputFile { path: p.clone(), exists: true }).collect()
}

fn conversion_sanity_check(
    container: &str,
    video_codec: &str,
    audio_encoder: &str,
    inputs: &[String],
    folder: &str,
    prefix: &str,
    caps: &FfmpegCapabilities,
    audio_suffix: Option<&str>,
    video_suffix: Option<&str>,
) -> Result<(), String> {
    ltc_timecode::sanity::conversion_sanity_check(
        container,
        video_codec,
        audio_encoder,
        &existing(inputs),
        folder,
        true,
        prefix,
        caps,
        audio_suffix,
        video_suffix,
    )
}

fn conversion_sanity_check_copy(
    container: &str,
    video_codec: &str,
    audio_encoder: &str,
    inputs: &[String],
    folder: &str,
    prefix: &str,
    caps: &FfmpegCapabilities,
    audio_suffix: Option<&str>,
    video_suffix: Option<&str>,
) -> Result<(), String> {
    ltc_timecode::sanity::conversion_sanity_check_copy(
        container,
        video_codec,
        audio_encoder,
        &existing(inputs),
        folder,
        true,
        prefix,
        caps,
        audio_suffix,
        video_suffix,
    )
}

fn conversion_sanity_check_with_naming(
    container: &str,
    video_codec: &str,
    audio_encoder: &str,
    inputs: &[String],
    folder: &str,
    prefix: &str,
    caps: &FfmpegCapabilities,
    audio_suffix: Option<&str>,
    video_suffix: Option<&str>,
    naming_mode: Option<OutputNamingMode>,
    copy_video: bool,
) -> Result<(), String> {
    ltc_timecode::sanity::conversion_sanity_check_with_naming(
        container,
        video_codec,
        audio_encoder,
        &existing(inputs),
        folder,
        true,
        prefix,
        caps,
        audio_suffix,
        video_suffix,
        naming_mode,
        copy_video,
    )
}

fn output_collision_warning(
    inputs: &[String],
    folder: &str,
    prefix: &str,
    naming_mode: &OutputNamingMode,
    video_suffix: &str,
    container: &str,
    copy_video: bool,
) -> Option<String> {
    ltc_timecode::outputs::output_collision_warning(
        &inputs.to_vec(),
        folder,
        prefix,
        naming_mode,
        video_suffix,
        container,
        copy_video,
    )
}

fn make_settings_audio_only() -> ConverterSettings {
    ConverterSettings {
        pipeline: ConversionPipeline::AudioOnly { generate_synthetic_video: false },
        input_files: vec![
            "/tmp/input1.wav".to_string(),
            "/tmp/input2.wav".to_string(),
        ],
        recording_type: RecordingType::MultiTrackAudio,
        ltc_track_channel_index: 1,
        channel_map: ChannelMap::identity(2),
        split_tracks: false,
        drop_ltc_track: false,
        ltc_video_source: None,
        container: "mkv".to_string(),
        copy_video: false,
        video_encoder: "h264".to_string(),
        audio_encoder: "pcm_s24le".to_string(),
        resolved_video_encoder: String::new(),
        output_folder: "/tmp".to_string(),
        filename_prefix: "output".to_string(),
        audio_suffix_template: DEFAULT_AUDIO_SUFFIX.to_string(),
        video_suffix_template: DEFAULT_VIDEO_SUFFIX.to_string(),
        naming_mode: OutputNamingMode::PrefixTemplates,
        trim_to_first_ltc: false,
        trim_offsets_nanos: vec![0; 2],
        timecode_meta_per_file: vec![None; 2],
        concat_audio: false,
        resolved_hw_device: None,
    }
}

fn make_settings_synthetic_video(trim: f64) -> ConverterSettings {
    let mut s = make_settings_audio_only();
    s.pipeline = ConversionPipeline::AudioOnly { generate_synthetic_video: true };
    s.trim_offsets_nanos = vec![nanos(trim) as u64; 2];
    s
}

fn make_caps(has_ffmpeg: bool, encoders: BTreeSet<&str>, formats: BTreeSet<&str>) -> FfmpegCapabilities {
    FfmpegCapabilities {
        has_ffmpeg,
        available_encoders: encoders.into_iter().map(String::from).collect(),
        available_formats: formats.into_iter().map(String::from).collect(),
        error_message: None,
        hw: HwDeviceCapabilities::default(),
    }
}

// ── evaluate_readiness / format_blockers ────────────────────────────

#[test]
fn test_readiness_unqueried_caps_is_not_missing() {
    let r = evaluate_readiness(true, false, false, None);
    assert!(!r.can_convert);
    assert_eq!(r.blockers, vec![ConvertBlocker::FfmpegNotQueried]);
}

#[test]
fn test_readiness_ready_when_all_met() {
    let caps = make_caps(true, BTreeSet::from(["libx264"]), BTreeSet::from(["matroska"]));
    let r = evaluate_readiness(true, false, false, Some(&caps));
    assert!(r.can_convert);
    assert!(r.blockers.is_empty());
}

#[test]
fn test_readiness_missing_ffmpeg() {
    let caps = make_caps(false, BTreeSet::new(), BTreeSet::new());
    let r = evaluate_readiness(true, false, false, Some(&caps));
    assert!(!r.can_convert);
    assert_eq!(r.blockers, vec![ConvertBlocker::FfmpegMissing(None)]);
}

#[test]
fn test_readiness_missing_ffmpeg_with_error() {
    let caps = FfmpegCapabilities {
        has_ffmpeg: false,
        available_encoders: Vec::new(),
        available_formats: Vec::new(),
        error_message: Some("ffmpeg found but returned non-zero exit status".to_string()),
        hw: HwDeviceCapabilities::default(),
    };
    let r = evaluate_readiness(true, false, false, Some(&caps));
    assert_eq!(r.blockers, vec![ConvertBlocker::FfmpegMissing(Some("ffmpeg found but returned non-zero exit status".to_string()))]);
}

#[test]
fn test_readiness_no_group() {
    let caps = make_caps(true, BTreeSet::from(["libx264"]), BTreeSet::from(["matroska"]));
    let r = evaluate_readiness(false, false, false, Some(&caps));
    assert!(!r.can_convert);
    assert_eq!(r.blockers, vec![ConvertBlocker::NoRecording]);
}

#[test]
fn test_readiness_no_prefix() {
    let caps = make_caps(true, BTreeSet::from(["libx264"]), BTreeSet::from(["matroska"]));
    let r = evaluate_readiness(true, true, false, Some(&caps));
    assert!(!r.can_convert);
    assert_eq!(r.blockers, vec![ConvertBlocker::NoPrefix]);
}

#[test]
fn test_readiness_no_output_folder() {
    let caps = make_caps(true, BTreeSet::from(["libx264"]), BTreeSet::from(["matroska"]));
    let r = evaluate_readiness(true, false, true, Some(&caps));
    assert!(!r.can_convert);
    assert_eq!(r.blockers, vec![ConvertBlocker::NoOutputFolder]);
}

#[test]
fn test_readiness_multiple_blockers() {
    let r = evaluate_readiness(false, true, true, None);
    assert!(!r.can_convert);
    assert_eq!(r.blockers.len(), 4);
    assert!(r.blockers.contains(&ConvertBlocker::NoRecording));
    assert!(r.blockers.contains(&ConvertBlocker::NoPrefix));
    assert!(r.blockers.contains(&ConvertBlocker::NoOutputFolder));
    assert!(r.blockers.contains(&ConvertBlocker::FfmpegNotQueried));
}

#[test]
fn test_format_blockers_imperative_only() {
    let blockers = vec![ConvertBlocker::NoRecording, ConvertBlocker::NoPrefix];
    let msg = format_blockers(&blockers);
    assert_eq!(msg, "To convert, please select a recording, set a filename prefix.");
}

#[test]
fn test_format_blockers_ffmpeg_not_queried() {
    let blockers = vec![ConvertBlocker::FfmpegNotQueried];
    let msg = format_blockers(&blockers);
    assert_eq!(msg, "ffmpeg availability is being checked…");
}

#[test]
fn test_format_blockers_ffmpeg_missing() {
    let blockers = vec![ConvertBlocker::FfmpegMissing(None)];
    let msg = format_blockers(&blockers);
    assert!(msg.contains("ffmpeg is not available"));
    assert!(msg.contains("install ffmpeg"));
}

#[test]
fn test_format_blockers_mixed() {
    let blockers = vec![ConvertBlocker::NoRecording, ConvertBlocker::FfmpegNotQueried];
    let msg = format_blockers(&blockers);
    assert!(msg.starts_with("To convert, please select a recording."));
    assert!(msg.contains("ffmpeg availability is being checked"));
}

// ── apply_available_defaults ────────────────────────────────────────

#[test]
fn test_apply_defaults_replaces_invalid_container() {
    let caps = make_caps(true, BTreeSet::from(["prores_ks", "libx264", "pcm_s24le"]), BTreeSet::from(["mov", "matroska"]));
    let mut c = "mxf".to_string();
    let mut v = "h264".to_string();
    let mut a = "pcm_s24le".to_string();
    apply_available_defaults(&mut c, &mut v, &mut a, &caps);
    assert_eq!(c, "mov");
    assert_eq!(v, "prores");
    assert_eq!(a, "pcm_s24le");
}

#[test]
fn test_apply_defaults_replaces_missing_encoder() {
    let caps = make_caps(true, BTreeSet::from(["libx264", "pcm_s24le"]), BTreeSet::from(["matroska"]));
    let mut c = "mkv".to_string();
    let mut v = "av1".to_string();
    let mut a = "pcm_s24le".to_string();
    apply_available_defaults(&mut c, &mut v, &mut a, &caps);
    assert_eq!(c, "mkv");
    assert_eq!(v, "h264");
    assert_eq!(a, "pcm_s24le");
}

#[test]
fn test_apply_defaults_normalizes_legacy_encoder_names() {
    let caps = make_caps(true, BTreeSet::from(["libx264", "pcm_s24le"]), BTreeSet::from(["matroska"]));
    let mut c = "mkv".to_string();
    let mut v = "libx264".to_string();
    let mut a = "pcm_s24le".to_string();
    apply_available_defaults(&mut c, &mut v, &mut a, &caps);
    assert_eq!(c, "mkv");
    assert_eq!(v, "h264", "legacy 'libx264' must normalize to codec id 'h264'");
    assert_eq!(a, "pcm_s24le");
}

#[test]
fn test_apply_defaults_keeps_valid_selection() {
    let caps = make_caps(true, BTreeSet::from(["prores_ks", "pcm_s24le"]), BTreeSet::from(["mov"]));
    let mut c = "mov".to_string();
    let mut v = "prores".to_string();
    let mut a = "pcm_s24le".to_string();
    apply_available_defaults(&mut c, &mut v, &mut a, &caps);
    assert_eq!(c, "mov");
    assert_eq!(v, "prores");
    assert_eq!(a, "pcm_s24le");
}

#[test]
fn test_format_ffmpeg_timecode_non_drop() {
    let tc = Timecode { hours: 1, minutes: 23, seconds: 45, frames: 16 };
    assert_eq!(format_ffmpeg_timecode(&tc, false), "01:23:45:16");
}

#[test]
fn test_format_ffmpeg_timecode_drop() {
    let tc = Timecode { hours: 23, minutes: 59, seconds: 59, frames: 29 };
    assert_eq!(format_ffmpeg_timecode(&tc, true), "23:59:59;29");
}

#[test]
fn test_format_ffmpeg_timecode_zero() {
    let tc = Timecode { hours: 0, minutes: 0, seconds: 0, frames: 0 };
    assert_eq!(format_ffmpeg_timecode(&tc, false), "00:00:00:00");
    assert_eq!(format_ffmpeg_timecode(&tc, true), "00:00:00;00");
}

#[test]
fn test_find_timecode_at_offset_exact() {
    let tcs = vec![
        FrameTimecode { frame_index: 0, timecode: Timecode { hours: 1, minutes: 0, seconds: 0, frames: 0 }, timecode_nanos: nanos(0.0) },
        FrameTimecode { frame_index: 25, timecode: Timecode { hours: 1, minutes: 0, seconds: 1, frames: 0 }, timecode_nanos: nanos(1.0) },
        FrameTimecode { frame_index: 50, timecode: Timecode { hours: 1, minutes: 0, seconds: 2, frames: 0 }, timecode_nanos: nanos(2.0) },
    ];
    let found = find_timecode_at_offset(&tcs, 1.0).unwrap();
    assert_eq!(found.hours, 1);
    assert_eq!(found.minutes, 0);
    assert_eq!(found.seconds, 1);
}

#[test]
fn test_find_timecode_at_offset_closest() {
    let tcs = vec![
        FrameTimecode { frame_index: 0, timecode: Timecode { hours: 1, minutes: 0, seconds: 0, frames: 0 }, timecode_nanos: nanos(0.0) },
        FrameTimecode { frame_index: 25, timecode: Timecode { hours: 1, minutes: 0, seconds: 1, frames: 0 }, timecode_nanos: nanos(1.0) },
        FrameTimecode { frame_index: 50, timecode: Timecode { hours: 1, minutes: 0, seconds: 2, frames: 0 }, timecode_nanos: nanos(2.0) },
    ];
    // 1.9 is closer to idx 2 (2.0) than idx 1 (1.0)
    let found = find_timecode_at_offset(&tcs, 1.9).unwrap();
    assert_eq!(found.seconds, 2);
}

#[test]
fn test_find_timecode_at_offset_empty() {
    assert!(find_timecode_at_offset(&[], 42.0).is_none());
}

#[test]
fn test_find_timecode_at_offset_before_first() {
    let tcs = vec![
        FrameTimecode { frame_index: 0, timecode: Timecode { hours: 1, minutes: 0, seconds: 5, frames: 0 }, timecode_nanos: nanos(5.0) },
        FrameTimecode { frame_index: 1, timecode: Timecode { hours: 1, minutes: 0, seconds: 6, frames: 0 }, timecode_nanos: nanos(6.0) },
    ];
    let found = find_timecode_at_offset(&tcs, 0.0).unwrap();
    assert_eq!(found.seconds, 5);
}

#[test]
fn a_timecode_before_the_start_can_be_found() {
    let tc = |frames| Timecode { hours: 1, minutes: 0, seconds: 0, frames };
    let tcs = vec![
        FrameTimecode { frame_index: 0, timecode: tc(0), timecode_nanos: nanos(-0.02) },
        FrameTimecode { frame_index: 1, timecode: tc(1), timecode_nanos: nanos(0.02) },
    ];
    assert_eq!(find_timecode_at_offset(&tcs, -1.0), Some(tc(0)));
    assert_eq!(find_timecode_at_offset(&tcs, -0.01), Some(tc(0)));
    assert_eq!(find_timecode_at_offset(&tcs, 0.01), Some(tc(1)));
}

#[test]
fn test_build_synthetic_video_args_contains_timecode() {
    let mut s = make_settings_synthetic_video(0.0);
    s.timecode_meta_per_file[0] = Some(TimecodeMetadata {
        start: Timecode { hours: 10, minutes: 0, seconds: 0, frames: 0 },
        fps: rate(25.0),
        drop_frame: false,
    });
    let args = build_audio_to_synthetic_video_args(&s);
    let tc_pos = args.iter().position(|a| a == "-timecode").unwrap();
    assert_eq!(args[tc_pos + 1], "10:00:00:00");
}

#[test]
fn test_build_synthetic_video_args_drop_frame() {
    let mut s = make_settings_synthetic_video(0.0);
    s.timecode_meta_per_file[0] = Some(TimecodeMetadata {
        start: Timecode { hours: 1, minutes: 0, seconds: 0, frames: 0 },
        fps: rate(29.97),
        drop_frame: true,
    });
    let args = build_audio_to_synthetic_video_args(&s);
    let tc_pos = args.iter().position(|a| a == "-timecode").unwrap();
    assert_eq!(args[tc_pos + 1], "01:00:00;00");
}

#[test]
fn test_build_synthetic_video_args_contains_filter_complex() {
    let args = build_audio_to_synthetic_video_args(&make_settings_synthetic_video(1.500));
    assert!(args.contains(&"-filter_complex".to_string()));
    let fc_idx = args.iter().position(|a| a == "-filter_complex").unwrap();
    let fc = &args[fc_idx + 1];
    assert!(fc.contains("atrim=start=1.500"));
}

#[test]
fn test_build_synthetic_video_args_channel_count() {
    let mut s = make_settings_synthetic_video(0.0);
    s.channel_map = ChannelMap::identity(4);
    let args = build_audio_to_synthetic_video_args(&s);
    let maps: Vec<&String> = args.iter().filter(|a| a.starts_with("[a") && a.ends_with(']')).collect();
    assert_eq!(maps.len(), 4, "should have 4 audio output maps for 4 channels");
}

#[test]
fn test_build_audio_to_audio_args_no_timecode() {
    let s = make_settings_audio_only();
    let args = build_audio_to_audio_args(&s, "wav", None, 48000);
    assert!(!args.contains(&"-timecode".to_string()), "no -timecode when metadata absent");
    assert!(!args.contains(&"-write_bext".to_string()), "no -write_bext when metadata absent");
}

#[test]
fn test_build_audio_to_audio_args_wav_timecode() {
    let s = make_settings_audio_only();
    let tc = TimecodeMetadata {
        start: Timecode { hours: 1, minutes: 0, seconds: 0, frames: 0 },
        fps: rate(25.0),
        drop_frame: false,
    };
    let args = build_audio_to_audio_args(&s, "wav", Some(tc), 48000);
    let tc_pos = args.iter().position(|a| a == "-timecode").unwrap();
    assert_eq!(args[tc_pos + 1], "01:00:00:00");
    let bext_pos = args.iter().position(|a| a == "-write_bext").unwrap();
    assert_eq!(args[bext_pos + 1], "1");
    let ref_pos = args.iter().position(|a| a == "time_reference=172800000").unwrap_or(0);
    assert!(ref_pos > 0, "should have time_reference for 1 hour at 48kHz");
}

#[test]
fn test_build_audio_to_audio_args_wav_timecode_drop_frame() {
    let s = make_settings_audio_only();
    let tc = TimecodeMetadata {
        start: Timecode { hours: 1, minutes: 0, seconds: 0, frames: 0 },
        fps: rate(29.97),
        drop_frame: true,
    };
    let args = build_audio_to_audio_args(&s, "wav", Some(tc), 48000);
    let tc_pos = args.iter().position(|a| a == "-timecode").unwrap();
    assert_eq!(args[tc_pos + 1], "01:00:00;00");
    assert!(args.contains(&"-write_bext".to_string()));
}

#[test]
fn test_build_audio_to_audio_args_mov_format_no_bext() {
    let s = make_settings_audio_only();
    let tc = TimecodeMetadata {
        start: Timecode { hours: 10, minutes: 30, seconds: 0, frames: 0 },
        fps: rate(25.0),
        drop_frame: false,
    };
    let args = build_audio_to_audio_args(&s, "mov", Some(tc), 48000);
    // For MOV: -timecode should be present, but no -write_bext (BWF is WAV-only)
    let tc_pos = args.iter().position(|a| a == "-timecode").unwrap();
    assert_eq!(args[tc_pos + 1], "10:30:00:00");
    assert!(!args.contains(&"-write_bext".to_string()), "no bext for MOV");
}

#[test]
fn test_build_split_track_args_wav_timecode() {
    let mut s = make_settings_audio_only();
    s.split_tracks = true;
    s.channel_map = ChannelMap::identity(2);
    let tc = TimecodeMetadata {
        start: Timecode { hours: 2, minutes: 15, seconds: 30, frames: 12 },
        fps: rate(24.0),
        drop_frame: false,
    };
    let args = build_split_track_args(&s, "wav", 0, Some(tc), 44100);
    let tc_pos = args.iter().position(|a| a == "-timecode").unwrap();
    assert_eq!(args[tc_pos + 1], "02:15:30:12");
    assert!(args.contains(&"-write_bext".to_string()));
    let total_secs: f64 = 2.0 * 3600.0 + 15.0 * 60.0 + 30.0 + 12.0 / 24.0;
    let expected_ref = (total_secs * 44100.0).round() as u64;
    let ref_string = format!("time_reference={}", expected_ref);
    let ref_found = args.iter().any(|a| a.contains(&ref_string));
    assert!(ref_found, "time_reference should be calculated for 2:15:30:12 at 44.1kHz, got expected={}", expected_ref);
}

fn make_probe(stream_index: usize, channels: usize, sample_rate: u32) -> VideoAudioProbe {
    VideoAudioProbe {
        streams: vec![AudioStreamInfo {
            stream_index,
            channels,
            codec_name: "pcm_s24le".to_string(),
            sample_rate,
        }],
        total_audio_channels: channels,
        is_video_file: true,
    }
}

#[test]
fn test_build_video_track_extract_args_wav_timecode() {
    let mut s = make_video_settings();
    s.timecode_meta_per_file[0] = Some(TimecodeMetadata {
        start: Timecode { hours: 1, minutes: 0, seconds: 0, frames: 0 },
        fps: rate(25.0),
        drop_frame: false,
    });
    let args = build_video_track_extract_args(&s, 0, 1, 0, "wav", 44100);
    let tc_pos = args.iter().position(|a| a == "-timecode").unwrap();
    assert_eq!(args[tc_pos + 1], "01:00:00:00");
    let bext_pos = args.iter().position(|a| a == "-write_bext").unwrap();
    assert_eq!(args[bext_pos + 1], "1");
    // 1 hour at the probed 44.1 kHz rate — not the old 48 kHz hardcode
    assert!(
        args.contains(&"time_reference=158760000".to_string()),
        "expected time_reference=158760000 (1h @ 44.1kHz), args: {:?}",
        args
    );
}

#[test]
fn test_build_video_track_extract_args_no_timecode() {
    let s = make_video_settings();
    let args = build_video_track_extract_args(&s, 0, 1, 0, "wav", 48000);
    assert!(!args.contains(&"-timecode".to_string()), "no -timecode when metadata absent");
    assert!(!args.contains(&"-write_bext".to_string()), "no -write_bext when metadata absent");
}

#[test]
fn test_build_video_track_extract_args_adts_timecode() {
    let mut s = make_video_settings();
    s.timecode_meta_per_file[0] = Some(TimecodeMetadata {
        start: Timecode { hours: 10, minutes: 30, seconds: 0, frames: 0 },
        fps: rate(25.0),
        drop_frame: false,
    });
    let args = build_video_track_extract_args(&s, 0, 1, 0, "adts", 48000);
    let tc_pos = args.iter().position(|a| a == "-timecode").unwrap();
    assert_eq!(args[tc_pos + 1], "10:30:00:00");
    assert!(!args.contains(&"-write_bext".to_string()), "no bext for non-WAV");
}

#[test]
fn test_build_video_to_video_args_uses_probed_sample_rate() {
    let mut s = make_video_settings();
    s.timecode_meta_per_file[0] = Some(TimecodeMetadata {
        start: Timecode { hours: 1, minutes: 0, seconds: 0, frames: 0 },
        fps: rate(25.0),
        drop_frame: false,
    });
    let probe = make_probe(1, 4, 44100);
    let step = VideoOutputStep::AudioChannel {
        file_idx: 0,
        stream_idx: 1,
        channel_idx: 0,
        output: "/tmp/out.wav".to_string(),
        format: "wav".to_string(),
    };
    let args = build_video_to_video_args(&s, &step, &probe);
    assert!(
        args.contains(&"time_reference=158760000".to_string()),
        "time_reference must use the probed 44.1 kHz rate, args: {:?}",
        args
    );
}

#[test]
fn test_output_path_for_index_audio_01d() {
    let s = make_settings_audio_only();
    let path = s.output_path_for_index("audio", 1, "wav");
    assert_eq!(path, "/tmp/output_audio_track1.wav");
}

#[test]
fn test_output_path_for_index_audio_02d() {
    let s = make_settings_audio_only();
    let path = s.output_path_for_index("audio", 10, "wav");
    assert_eq!(path, "/tmp/output_audio_track10.wav");
}

#[test]
fn test_output_path_for_index_video_02d() {
    let s = make_settings_audio_only();
    let path = s.output_path_for_index("video", 2, "mov");
    assert_eq!(path, "/tmp/output_video_clip02.mov");
}

#[test]
fn test_all_output_paths_split_tracks() {
    let mut s = make_settings_audio_only();
    s.split_tracks = true;
    s.drop_ltc_track = true;
    s.ltc_track_channel_index = 1;
    let paths = s.all_output_paths(4, 0, "wav", &[]);
    // LTC track (index 1) should be dropped, so 3 audio paths
    assert_eq!(paths.len(), 3, "expected 3 paths (4 tracks - 1 LTC dropped)");
    assert!(paths[0].ends_with("audio_track1.wav"));
    assert!(paths[1].ends_with("audio_track3.wav"));
    assert!(paths[2].ends_with("audio_track4.wav"));
}

#[test]
fn test_all_output_paths_with_video_clips() {
    let mut s = make_settings_audio_only();
    s.split_tracks = false;
    let paths = s.all_output_paths(2, 3, "mkv", &[]);
    // 1 audio file (multi-track) + 3 video clips = 4
    assert_eq!(paths.len(), 4, "expected 4 paths");
    assert!(paths[0].ends_with("output.mkv"));
    assert!(paths[1].ends_with("video_clip01.mkv"));
    assert!(paths[2].ends_with("video_clip02.mkv"));
    assert!(paths[3].ends_with("video_clip03.mkv"));
}

#[test]
fn test_conversion_pipeline_audio_only_default() {
    let p = ConversionPipeline::AudioOnly { generate_synthetic_video: false };
    assert_eq!(p, ConversionPipeline::AudioOnly { generate_synthetic_video: false });
    assert_ne!(p, ConversionPipeline::AudioOnly { generate_synthetic_video: true });
}

#[test]
fn test_recording_type_debug() {
    let rt = RecordingType::MultiTrackAudio;
    assert_eq!(format!("{:?}", rt), "MultiTrackAudio");
    let rt = RecordingType::VideoClipSequence;
    assert_eq!(format!("{:?}", rt), "VideoClipSequence");
}

#[test]
fn test_out_time_regex_matches() {
    let secs = parse_out_time("out_time=00:01:23.456789").unwrap();
    assert!((secs - 83.456789).abs() < 1e-9);
}

#[test]
fn test_out_time_regex_zero() {
    let secs = parse_out_time("out_time=00:00:00.000000").unwrap();
    assert!((secs - 0.0).abs() < 1e-9);
}

#[test]
fn test_out_time_regex_does_not_match_stderr_time() {
    // stderr uses "time=" not "out_time=" — it must NOT match
    assert!(parse_out_time("time=00:01:23.45").is_none());
}

#[test]
fn test_duration_regex_matches() {
    let secs = parse_duration("  Duration: 00:01:30.00, start: 0.000000, bitrate: 1411 kb/s").unwrap();
    assert!((secs - 90.0).abs() < 1e-6);
}

#[test]
fn test_duration_regex_zero_duration() {
    let groups: Vec<Option<String>> = ["Duration: 00:00:00.00", "00", "00", "00", "00"]
        .iter()
        .map(|g| Some(g.to_string()))
        .collect();
    let secs = clock_of_groups(&groups, 10_000) as f64 / 1e6;
    assert!((secs - 0.0).abs() < 1e-6);
    // A duration of nothing is none
    assert!(parse_duration("  Duration: 00:00:00.00, start: 0.000000").is_none());
}

#[test]
fn test_duration_regex_none_on_input_without_duration() {
    // lavfi-generated streams have Duration: N/A
    assert!(parse_duration("  Duration: N/A, start: 0.000000").is_none());
}

#[test]
fn test_parse_out_time_happy_path() {
    // ffmpeg -progress output uses 6‑digit fractional microseconds
    assert_eq!(parse_out_time("out_time=00:00:01.200000"), Some(1.2));
    assert_eq!(parse_out_time("out_time=00:01:02.030000"), Some(62.03));
    assert!((parse_out_time("out_time=00:00:00.000000").unwrap() - 0.0).abs() < 1e-12);
}

#[test]
fn test_parse_out_time_na() {
    assert_eq!(parse_out_time("out_time=N/A"), None);
}

#[test]
fn test_parse_out_time_key_suffixes() {
    // _us and _ms variants must NOT match
    assert_eq!(parse_out_time("out_time_us=N/A"), None);
    assert_eq!(parse_out_time("out_time_ms=0"), None);
}

#[test]
fn test_parse_out_time_progress_lines() {
    assert_eq!(parse_out_time("progress=end"), None);
    assert_eq!(parse_out_time("progress=continue"), None);
}

#[test]
fn test_parse_out_time_stderr_time_not_mistaken() {
    // stderr "time=" / "time:" lines must not match
    assert_eq!(parse_out_time("time=00:01:23.45"), None);
    assert_eq!(parse_out_time("size=    1024kB time=00:00:04.56"), None);
}

#[test]
fn test_parse_out_time_empty() {
    assert_eq!(parse_out_time(""), None);
}

#[test]
fn test_classify_step_failure_no_output_file_missing() {
    // No output file
    assert!(matches!(
        classify_step_failure(false, 0, "187"),
        StepFailure::EncoderInit(_)
    ));
}

#[test]
fn test_classify_step_failure_no_output_zero_byte() {
    assert!(matches!(
        classify_step_failure(false, 0, "187"),
        StepFailure::EncoderInit(_)
    ));
}

#[test]
fn test_classify_step_failure_no_output_header_only() {
    // 44 bytes — typical WAV header size, well under 4 KiB
    assert!(matches!(
        classify_step_failure(false, 44, "187"),
        StepFailure::EncoderInit(_)
    ));
}

#[test]
fn test_classify_step_failure_real_output_file() {
    // 8 KiB — above the 4 KiB threshold, suggests real data
    assert!(matches!(
        classify_step_failure(false, 8192, "1"),
        StepFailure::Fatal(_)
    ));
}

#[test]
fn test_classify_step_failure_produced_output_trumps_no_file() {
    assert!(matches!(
        classify_step_failure(true, 0, "1"),
        StepFailure::Fatal(_)
    ));
}

#[test]
fn regress_nvenc_progress_end_is_retryable() {
    // The lines of an av1_nvenc run that encoded nothing: out_time=N/A,
    // progress=end, 0-byte output.
    let lines = &[
        "frame=    0 fps=0.0 q=0.0 Lsize=       0KiB time=N/A bitrate=N/A speed=N/A",
        "out_time=N/A",
        "out_time_us=N/A",
        "progress=end",
        "Conversion failed!",
    ];
    let mut produced = false;
    for line in lines {
        if let Some(secs) = parse_out_time(line) {
            if secs > 0.0 {
                produced = true;
            }
        }
    }
    assert!(!produced, "no out_time with value > 0 should have been parsed");
    assert!(matches!(
        classify_step_failure(produced, 0, "187"),
        StepFailure::EncoderInit(_)
    ));
}

// ── ConversionState tests ───────────────────────────────────────────

#[test]
fn test_conversion_state_idle_initial() {
    let s = ConversionState::idle();
    assert_eq!(s.status, ConversionStatus::Idle);
    assert!(s.ffmpeg_output.is_empty());
    assert!(s.current_line.is_empty());
}

// ── Container/codec compatibility ───────────────────────────────────

#[test]
fn test_container_supports_audio_encoder_valid() {
    assert!(container_supports_audio_encoder("mkv", "pcm_s24le"));
    assert!(container_supports_audio_encoder("mov", "libopus"));
    assert!(container_supports_audio_encoder("mp4", "aac"));
    assert!(container_supports_audio_encoder("mxf", "pcm_s24le"));
    assert!(container_supports_audio_encoder("mxf", "aac"));
}

#[test]
fn test_container_rejects_incompatible_audio_encoder() {
    assert!(!container_supports_audio_encoder("mp4", "libopus"));
    assert!(!container_supports_audio_encoder("mxf", "libopus"));
    assert!(!container_supports_audio_encoder("mp4", "nonexistent"));
}

#[test]
fn test_container_to_ffmpeg_format() {
    assert_eq!(container_to_ffmpeg_format("mkv"), "matroska");
    assert_eq!(container_to_ffmpeg_format("mov"), "mov");
    assert_eq!(container_to_ffmpeg_format("mp4"), "mp4");
    assert_eq!(container_to_ffmpeg_format("mxf"), "mxf");
}

#[test]
fn test_select_best_combination_prefers_prores() {
    let caps = FfmpegCapabilities {
        has_ffmpeg: true,
        available_encoders: vec![
            "prores_ks".into(),
            "libx264".into(),
            "pcm_s24le".into(),
        ],
        available_formats: vec!["mov".into(), "matroska".into(), "mp4".into()],
        error_message: None,
        hw: HwDeviceCapabilities::default(),
    };
    let (c, v, a) = select_best_combination(&caps);
    assert_eq!((c.as_str(), v.as_str(), a.as_str()), ("mov", "prores", "pcm_s24le"));
}

#[test]
fn test_select_best_combination_falls_back_to_dnxhd() {
    let caps = FfmpegCapabilities {
        has_ffmpeg: true,
        available_encoders: vec![
            "dnxhd".into(),
            "libx264".into(),
            "pcm_s24le".into(),
        ],
        available_formats: vec!["mxf".into(), "matroska".into()],
        error_message: None,
        hw: HwDeviceCapabilities::default(),
    };
    let (c, v, a) = select_best_combination(&caps);
    assert_eq!((c.as_str(), v.as_str(), a.as_str()), ("mxf", "dnxhd", "pcm_s24le"));
}

#[test]
fn test_available_video_codecs_for_container_filters_correctly() {
    let caps = FfmpegCapabilities {
        has_ffmpeg: true,
        available_encoders: vec![
            "libx264".into(),
            "libx265".into(),
            "pcm_s24le".into(),
        ],
        available_formats: vec!["mov".into()],
        error_message: None,
        hw: HwDeviceCapabilities::default(),
    };
    let available = available_video_codecs("mov", &caps);
    let keys: Vec<&str> = available.iter().map(|(k, _)| *k).collect();
    assert!(keys.contains(&"h264"));
    assert!(keys.contains(&"h265"));
    assert!(!keys.contains(&"prores"), "prores_ks not installed → codec hidden");
}

// ── Encoder fallback tracking ────────────────────────────────────────

#[test]
fn test_encoder_fallback_remaining_skips_failed() {
    let mut fb = EncoderFallback::new_with_hw(vec!["av1_nvenc".into(), "libsvtav1".into(), "libaom-av1".into()], HwDeviceContext::default());
    assert_eq!(fb.remaining(), vec!["av1_nvenc", "libsvtav1", "libaom-av1"]);
    fb.note_failure("av1_nvenc");
    assert_eq!(fb.remaining(), vec!["libsvtav1", "libaom-av1"]);
    fb.note_failure("libsvtav1");
    assert_eq!(fb.remaining(), vec!["libaom-av1"]);
}

#[test]
fn test_encoder_fallback_pins_resolved_encoder() {
    let mut fb = EncoderFallback::new_with_hw(vec!["av1_nvenc".into(), "libsvtav1".into()], HwDeviceContext::default());
    fb.note_success("av1_nvenc");
    assert_eq!(fb.remaining(), vec!["av1_nvenc"], "pinned encoder is reused");
    assert_eq!(fb.resolved(), Some("av1_nvenc"));
}

#[test]
fn test_encoder_fallback_exhausted_chain() {
    let mut fb = EncoderFallback::new_with_hw(vec!["av1_nvenc".into()], HwDeviceContext::default());
    fb.note_failure("av1_nvenc");
    assert!(fb.remaining().is_empty());
    assert_eq!(fb.resolved(), None);
}

#[test]
fn test_resolve_device_for_candidate_vaapi_available() {
    let ctx = HwDeviceContext {
        vaapi_device: Some("/dev/dri/renderD128".to_string()),
        vulkan_available: false,
    };
    let hw = resolve_device_for_candidate("h264_vaapi", &ctx).unwrap();
    assert!(matches!(hw, ResolvedHwDevice::Vaapi { device_path } if device_path == "/dev/dri/renderD128"));
}

#[test]
fn test_resolve_device_for_candidate_vaapi_unavailable() {
    let ctx = HwDeviceContext {
        vaapi_device: None,
        vulkan_available: false,
    };
    assert!(resolve_device_for_candidate("h264_vaapi", &ctx).is_none());
}

#[test]
fn test_resolve_device_for_candidate_vulkan_available() {
    let ctx = HwDeviceContext {
        vaapi_device: None,
        vulkan_available: true,
    };
    let hw = resolve_device_for_candidate("h264_vulkan", &ctx).unwrap();
    assert!(matches!(hw, ResolvedHwDevice::Vulkan));
}

#[test]
fn test_resolve_device_for_candidate_vulkan_unavailable() {
    let ctx = HwDeviceContext {
        vaapi_device: None,
        vulkan_available: false,
    };
    assert!(resolve_device_for_candidate("h264_vulkan", &ctx).is_none());
}

#[test]
fn test_resolve_device_for_candidate_software_encoder() {
    let ctx = HwDeviceContext {
        vaapi_device: Some("/dev/dri/renderD128".to_string()),
        vulkan_available: true,
    };
    // Software encoders return None regardless of available devices.
    assert!(resolve_device_for_candidate("libx264", &ctx).is_none());
    assert!(resolve_device_for_candidate("av1_nvenc", &ctx).is_none());
}

// ── effective_video_encoder / push_video_encoder ─────────────────────

#[test]
fn test_effective_video_encoder_prefers_resolved() {
    let mut s = make_video_settings();
    s.video_encoder = "av1".to_string();
    s.resolved_video_encoder = "av1_nvenc".to_string();
    assert_eq!(s.effective_video_encoder(), "av1_nvenc");
}

#[test]
fn test_effective_video_encoder_codec_uses_static_head() {
    let mut s = make_video_settings();
    s.video_encoder = "h265".to_string();
    assert_eq!(s.effective_video_encoder(), "hevc_nvenc");
}

#[test]
fn test_effective_video_encoder_legacy_name_passthrough() {
    let mut s = make_video_settings();
    s.video_encoder = "libx264".to_string();
    assert_eq!(s.effective_video_encoder(), "libx264");
}

#[test]
fn test_push_video_encoder_codec_and_candidate_args() {
    let mut s = make_video_settings();
    s.video_encoder = "h265".to_string();
    s.resolved_video_encoder = "libx265".to_string();
    let mut args = Vec::new();
    push_video_encoder(&mut args, &s);
    let cv = args.iter().position(|a| a == "-c:v").unwrap();
    assert_eq!(args[cv + 1], "libx265");
    assert!(args.contains(&"-pix_fmt".to_string()));
    assert!(args.contains(&"yuv420p".to_string()));
    let tag = args.iter().position(|a| a == "-tag:v").unwrap();
    assert_eq!(args[tag + 1], "hvc1", "HEVC codec-level arg applies regardless of encoder");
}

#[test]
fn test_push_video_encoder_hardware_candidate() {
    let mut s = make_video_settings();
    s.video_encoder = "av1".to_string();
    s.resolved_video_encoder = "av1_nvenc".to_string();
    let mut args = Vec::new();
    push_video_encoder(&mut args, &s);
    let cv = args.iter().position(|a| a == "-c:v").unwrap();
    assert_eq!(args[cv + 1], "av1_nvenc");
    assert!(!args.contains(&"-pix_fmt".to_string()), "HW candidates negotiate pix_fmt themselves");
}

#[test]
fn test_push_video_encoder_prores_args() {
    let mut s = make_video_settings();
    s.video_encoder = "prores".to_string();
    s.resolved_video_encoder = "prores_ks".to_string();
    s.container = "mov".to_string();
    let mut args = Vec::new();
    push_video_encoder(&mut args, &s);
    let cv = args.iter().position(|a| a == "-c:v").unwrap();
    assert_eq!(args[cv + 1], "prores_ks");
    let prof = args.iter().position(|a| a == "-profile:v").unwrap();
    assert_eq!(args[prof + 1], "0");
    assert!(args.contains(&"yuv422p10le".to_string()));
}

// ── hw-device prelude (push_hw_device_prelude) ────────────────────────

#[test]
fn test_push_hw_device_prelude_vaapi() {
    let mut s = make_video_settings();
    s.resolved_hw_device = Some(ResolvedHwDevice::Vaapi {
        device_path: "/dev/dri/renderD128".to_string(),
    });
    let mut args = vec!["-y".to_string()];
    push_hw_device_prelude(&mut args, &s);
    assert!(args.contains(&"-init_hw_device".to_string()));
    let init = args.iter().position(|a| a == "-init_hw_device").unwrap();
    assert_eq!(args[init + 1], "vaapi=vaapi0:/dev/dri/renderD128");
    let filter = args.iter().position(|a| a == "-filter_hw_device").unwrap();
    assert_eq!(args[filter + 1], "vaapi0");
    // Prelude comes after -y, before any -i
    assert_eq!(args[0], "-y");
}

#[test]
fn test_push_hw_device_prelude_vulkan() {
    let mut s = make_video_settings();
    s.resolved_hw_device = Some(ResolvedHwDevice::Vulkan);
    let mut args = vec!["-y".to_string()];
    push_hw_device_prelude(&mut args, &s);
    let init = args.iter().position(|a| a == "-init_hw_device").unwrap();
    assert_eq!(args[init + 1], "vulkan=vulkan0");
    let filter = args.iter().position(|a| a == "-filter_hw_device").unwrap();
    assert_eq!(args[filter + 1], "vulkan0");
}

#[test]
fn test_push_hw_device_prelude_copy_mode_noop() {
    let mut s = make_video_settings();
    s.copy_video = true;
    s.resolved_hw_device = Some(ResolvedHwDevice::Vaapi {
        device_path: "/dev/dri/renderD128".to_string(),
    });
    let mut args = vec!["-y".to_string()];
    push_hw_device_prelude(&mut args, &s);
    // Only -y, nothing added
    assert_eq!(args.len(), 1);
}

#[test]
fn test_push_hw_device_prelude_none_noop() {
    let mut s = make_video_settings();
    s.resolved_hw_device = None;
    let mut args = vec!["-y".to_string()];
    push_hw_device_prelude(&mut args, &s);
    assert_eq!(args.len(), 1);
}

#[test]
fn test_push_video_encoder_hwupload_for_hw_frames_candidate() {
    let mut s = make_video_settings();
    s.video_encoder = "h264".to_string();
    s.resolved_video_encoder = "h264_vaapi".to_string();
    let mut args = Vec::new();
    push_video_encoder(&mut args, &s);
    let cv = args.iter().position(|a| a == "-c:v").unwrap();
    assert_eq!(args[cv + 1], "h264_vaapi");
    let vf = args.iter().position(|a| a == "-vf").unwrap();
    assert_eq!(args[vf + 1], "format=nv12,hwupload");
}

#[test]
fn test_push_video_encoder_no_hwupload_for_software_candidate() {
    let mut s = make_video_settings();
    s.video_encoder = "h264".to_string();
    s.resolved_video_encoder = "libx264".to_string();
    let mut args = Vec::new();
    push_video_encoder(&mut args, &s);
    assert!(args.contains(&"-c:v".to_string()));
    assert!(!args.contains(&"-vf".to_string()));
}

#[test]
fn test_push_video_encoder_hwupload_for_vulkan() {
    let mut s = make_video_settings();
    s.video_encoder = "av1".to_string();
    s.resolved_video_encoder = "av1_vulkan".to_string();
    let mut args = Vec::new();
    push_video_encoder(&mut args, &s);
    let vf = args.iter().position(|a| a == "-vf").unwrap();
    assert_eq!(args[vf + 1], "format=nv12,hwupload");
}

#[test]
fn test_build_video_only_args_prelude_before_input() {
    let tmp = "/work";
    let input = join_path(tmp, "test.mp4");
    let mut s = make_video_settings();
    s.input_files = vec![input.clone()];
    s.resolved_video_encoder = "h264_vaapi".to_string();
    s.resolved_hw_device = Some(ResolvedHwDevice::Vaapi {
        device_path: "/dev/dri/renderD128".to_string(),
    });
    // Use the builder that actually processes the input
    let args = build_video_only_args(&s, 0);
    let y_pos = args.iter().position(|a| a == "-y").unwrap();
    let init_pos = args.iter().position(|a| a == "-init_hw_device").unwrap();
    let i_pos = args.iter().position(|a| a == "-i").unwrap();
    // -init_hw_device comes after -y but before -i
    assert!(y_pos < init_pos, "-y must come before -init_hw_device");
    assert!(init_pos < i_pos, "-init_hw_device must come before -i");
}

#[test]
fn test_build_video_mux_args_prelude_before_input() {
    let tmp = "/work";
    let input = join_path(tmp, "test.mp4");
    let mut s = make_video_settings();
    s.input_files = vec![input.clone()];
    s.resolved_video_encoder = "h264_vaapi".to_string();
    s.resolved_hw_device = Some(ResolvedHwDevice::Vaapi {
        device_path: "/dev/dri/renderD128".to_string(),
    });
    // Minimal probe: empty streams since we keep AllAudio
    let probe = VideoAudioProbe {
        total_audio_channels: 1,
        is_video_file: true,
        streams: vec![],
    };
    let args = build_video_mux_args(&s, 0, &AudioKeep::AllAudio, &probe);
    let y_pos = args.iter().position(|a| a == "-y").unwrap();
    let init_pos = args.iter().position(|a| a == "-init_hw_device").unwrap();
    let i_pos = args.iter().position(|a| a == "-i").unwrap();
    assert!(y_pos < init_pos, "-y before -init_hw_device");
    assert!(init_pos < i_pos, "-init_hw_device before -i");
}

// ── sanity check (codec-based) ───────────────────────────────────────

#[test]
fn test_sanity_check_no_encoder_for_codec() {
    let tmp = "/work";
    let input = join_path(tmp, "in.wav");
    let caps = make_caps(true, BTreeSet::from(["libx264", "pcm_s24le"]), BTreeSet::from(["matroska"]));
    let err = conversion_sanity_check(
        "mkv", "av1", "pcm_s24le",
        &[input], tmp, "out", &caps, None, None,
    ).unwrap_err();
    assert!(err.contains("No av1 encoder is available"), "got: {}", err);
    assert!(err.contains("av1_nvenc"), "error should name expected encoders");
}

#[test]
fn test_sanity_check_codec_container_mismatch() {
    let tmp = "/work";
    let input = join_path(tmp, "in.wav");
    let caps = make_caps(true, BTreeSet::from(["libsvtav1", "pcm_s24le"]), BTreeSet::from(["mxf", "matroska"]));
    let err = conversion_sanity_check(
        "mxf", "av1", "pcm_s24le",
        &[input], tmp, "out", &caps, None, None,
    ).unwrap_err();
    assert!(err.contains("not compatible with container"), "got: {}", err);
}

#[test]
fn test_sanity_check_legacy_encoder_name_ok() {
    let tmp = "/work";
    let input = join_path(tmp, "in.wav");
    let caps = make_caps(true, BTreeSet::from(["libx264", "pcm_s24le"]), BTreeSet::from(["matroska"]));
    assert!(conversion_sanity_check(
        "mkv", "libx264", "pcm_s24le",
        &[input], tmp, "out", &caps, None, None,
    ).is_ok(), "legacy concrete encoder names must keep passing");
}

// ── Video pipeline helpers ────────────────────────────────────────────

fn make_video_settings() -> ConverterSettings {
    ConverterSettings {
        pipeline: ConversionPipeline::VideoPassthrough,
        input_files: vec!["/tmp/test.mp4".to_string()],
        recording_type: RecordingType::VideoClipSequence,
        ltc_track_channel_index: 0,
        channel_map: ChannelMap::identity(1),
        split_tracks: false,
        drop_ltc_track: false,
        ltc_video_source: None,
        container: "mkv".to_string(),
        copy_video: false,
        video_encoder: "h264".to_string(),
        audio_encoder: "pcm_s24le".to_string(),
        resolved_video_encoder: String::new(),
        output_folder: "/tmp".to_string(),
        filename_prefix: "output".to_string(),
        audio_suffix_template: DEFAULT_AUDIO_SUFFIX.to_string(),
        video_suffix_template: DEFAULT_VIDEO_SUFFIX.to_string(),
        naming_mode: OutputNamingMode::PrefixTemplates,
        trim_to_first_ltc: false,
        trim_offsets_nanos: vec![0],
        timecode_meta_per_file: vec![None],
        concat_audio: false,
        resolved_hw_device: None,
    }
}

fn make_stereo_probe() -> VideoAudioProbe {
    VideoAudioProbe {
        streams: vec![
            AudioStreamInfo {
                stream_index: 1,
                channels: 2,
                codec_name: "aac".to_string(),
                sample_rate: 48000,
            },
        ],
        total_audio_channels: 2,
        is_video_file: true,
    }
}

fn make_mono_probe() -> VideoAudioProbe {
    VideoAudioProbe {
        streams: vec![
            AudioStreamInfo {
                stream_index: 1,
                channels: 1,
                codec_name: "aac".to_string(),
                sample_rate: 48000,
            },
        ],
        total_audio_channels: 1,
        is_video_file: true,
    }
}

fn make_multi_stream_probe() -> VideoAudioProbe {
    VideoAudioProbe {
        streams: vec![
            AudioStreamInfo {
                stream_index: 1,
                channels: 2,
                codec_name: "aac".to_string(),
                sample_rate: 48000,
            },
            AudioStreamInfo {
                stream_index: 2,
                channels: 1,
                codec_name: "pcm_s16le".to_string(),
                sample_rate: 48000,
            },
        ],
        total_audio_channels: 3,
        is_video_file: true,
    }
}

// ── planner tests ─────────────────────────────────────────────────────

#[test]
fn test_plan_split_drop_stereo_ltc_at_1_0() {
    let mut s = make_video_settings();
    s.split_tracks = true;
    s.drop_ltc_track = true;
    s.ltc_video_source = Some((1, 0));
    let probe = make_stereo_probe();
    let steps = plan_video_outputs(&s, &probe);
    // VideoOnly + AudioChannel for ch1 (ch0 dropped)
    assert_eq!(steps.len(), 2);
    assert!(matches!(steps[0], VideoOutputStep::VideoOnly { .. }));
    assert!(matches!(steps[1], VideoOutputStep::AudioChannel { channel_idx: 1, .. }));
}

#[test]
fn test_plan_split_no_drop_stereo() {
    let mut s = make_video_settings();
    s.split_tracks = true;
    s.drop_ltc_track = false;
    let probe = make_stereo_probe();
    let steps = plan_video_outputs(&s, &probe);
    // VideoOnly + AudioChannel ch0 + AudioChannel ch1
    assert_eq!(steps.len(), 3);
    assert!(matches!(steps[0], VideoOutputStep::VideoOnly { .. }));
    assert!(matches!(steps[1], VideoOutputStep::AudioChannel { channel_idx: 0, .. }));
    assert!(matches!(steps[2], VideoOutputStep::AudioChannel { channel_idx: 1, .. }));
}

#[test]
fn test_plan_split_drop_mono_ltc_at_1_0() {
    let mut s = make_video_settings();
    s.split_tracks = true;
    s.drop_ltc_track = true;
    s.ltc_video_source = Some((1, 0));
    let probe = make_mono_probe();
    let steps = plan_video_outputs(&s, &probe);
    // VideoOnly only (the only channel is dropped)
    assert_eq!(steps.len(), 1);
    assert!(matches!(steps[0], VideoOutputStep::VideoOnly { .. }));
}

#[test]
fn test_plan_multi_stream_global_channel_numbering() {
    let mut s = make_video_settings();
    s.split_tracks = true;
    s.drop_ltc_track = true;
    s.ltc_video_source = Some((2, 0)); // drop stream 2 ch 0 (the mono stream)
    let probe = make_multi_stream_probe();
    let steps = plan_video_outputs(&s, &probe);
    // VideoOnly + AudioChannel(stream=1,ch=0) + AudioChannel(stream=1,ch=1) = 3
    assert_eq!(steps.len(), 3);
    assert!(matches!(steps[0], VideoOutputStep::VideoOnly { .. }));
    assert!(matches!(steps[1], VideoOutputStep::AudioChannel { stream_idx: 1, channel_idx: 0, .. }));
    assert!(matches!(steps[2], VideoOutputStep::AudioChannel { stream_idx: 1, channel_idx: 1, .. }));
}

#[test]
fn test_plan_no_split_no_drop() {
    let s = make_video_settings();
    let probe = make_stereo_probe();
    let steps = plan_video_outputs(&s, &probe);
    assert_eq!(steps.len(), 1);
    assert!(matches!(steps[0], VideoOutputStep::VideoMux { keep: AudioKeep::AllAudio, .. }));
}

#[test]
fn test_plan_no_split_drop_stereo() {
    let mut s = make_video_settings();
    s.drop_ltc_track = true;
    s.ltc_video_source = Some((1, 0));
    let probe = make_stereo_probe();
    let steps = plan_video_outputs(&s, &probe);
    assert_eq!(steps.len(), 1);
    match &steps[0] {
        VideoOutputStep::VideoMux { keep: AudioKeep::ChannelsExcept(pairs), .. } => {
            assert_eq!(pairs.len(), 1);
            assert_eq!(pairs[0], (1, 0));
        }
        other => panic!("expected VideoMux(ChannelsExcept), got {:?}", other),
    }
}

#[test]
fn test_plan_no_split_drop_mono() {
    let mut s = make_video_settings();
    s.drop_ltc_track = true;
    s.ltc_video_source = Some((1, 0));
    let probe = make_mono_probe();
    let steps = plan_video_outputs(&s, &probe);
    assert_eq!(steps.len(), 1);
    assert!(matches!(steps[0], VideoOutputStep::VideoOnly { .. }));
}

// ── per-file planner tests ───────────────────────────────────────────

#[test]
fn test_plan_video_outputs_for_file_no_duplicates() {
    let mut s = make_video_settings();
    s.input_files = vec![
        "/tmp/clip_A.mov".to_string(),
        "/tmp/clip_B.mov".to_string(),
    ];
    s.split_tracks = true;
    s.drop_ltc_track = true;
    s.ltc_video_source = Some((1, 0));
    let probe = make_stereo_probe();

    // Per-file → file 0: VideoOnly + 1×AudioChannel
    let steps_0 = plan_video_outputs_for_file(&s, 0, &probe);
    assert_eq!(steps_0.len(), 2, "file 0: video + 1 audio");
    assert!(matches!(steps_0[0], VideoOutputStep::VideoOnly { file_idx: 0, .. }));
    assert!(matches!(steps_0[1], VideoOutputStep::AudioChannel { file_idx: 0, channel_idx: 1, .. }));

    // Per-file → file 1: VideoOnly + 1×AudioChannel (no carries from file 0)
    let steps_1 = plan_video_outputs_for_file(&s, 1, &probe);
    assert_eq!(steps_1.len(), 2, "file 1: video + 1 audio");
    assert!(matches!(steps_1[0], VideoOutputStep::VideoOnly { file_idx: 1, .. }));
    assert!(matches!(steps_1[1], VideoOutputStep::AudioChannel { file_idx: 1, channel_idx: 1, .. }));

    // Combined via wrapper: 4 total, no duplicates
    let combined = plan_video_outputs(&s, &probe);
    assert_eq!(combined.len(), 4, "2 files × 2 steps = 4");
    assert_eq!(combined.iter().filter(|s| matches!(s, VideoOutputStep::VideoOnly { .. })).count(), 2);
    assert_eq!(combined.iter().filter(|s| matches!(s, VideoOutputStep::AudioChannel { .. })).count(), 2);
}

#[test]
fn test_plan_per_file_audio_numbering() {
    let mut s = make_video_settings();
    s.input_files = vec![
        "/tmp/clip_A.mov".to_string(),
        "/tmp/clip_B.mov".to_string(),
    ];
    s.split_tracks = true;
    s.naming_mode = OutputNamingMode::SourceStems;
    let probe = make_stereo_probe();

    // No LTC drop → both channels survive per file.
    // Per-file numbering: each clip gets _audio_track1 and _audio_track2.
    let steps_0 = plan_video_outputs_for_file(&s, 0, &probe);
    let steps_1 = plan_video_outputs_for_file(&s, 1, &probe);
    // Audio step output names: clip_A_audio_track1.wav / clip_A_audio_track2.wav
    // and clip_B_audio_track1.wav / clip_B_audio_track2.wav
    if let VideoOutputStep::AudioChannel { output, .. } = &steps_0[1] {
        let name = file_stem(output).unwrap_or_default();
        assert!(name.contains("_audio_track1"), "file 0 first audio = track1, got: {}", name);
    }
    if let VideoOutputStep::AudioChannel { output, .. } = &steps_0[2] {
        let name = file_stem(output).unwrap_or_default();
        assert!(name.contains("_audio_track2"), "file 0 second audio = track2, got: {}", name);
    }

    // File 1 also numbers from track1 (per-file, not global).
    assert_eq!(steps_1.len(), 3, "file 1: 1 video + 2 audio = 3");
    if let VideoOutputStep::AudioChannel { output, .. } = &steps_1[1] {
        let name = file_stem(output).unwrap_or_default();
        assert!(name.contains("_audio_track1"), "file 1 first audio = track1, got: {}", name);
    }
}

// ── preview_output_files tests ──────────────────────────────────────

#[test]
fn test_preview_video_split_stereo_drop_ltc() {
    let mut s = make_video_settings();
    s.input_files = vec![
        "/tmp/clip_A.mov".to_string(),
        "/tmp/clip_B.mov".to_string(),
    ];
    s.split_tracks = true;
    s.drop_ltc_track = true;
    s.ltc_video_source = Some((1, 0));
    s.naming_mode = OutputNamingMode::SourceStems;
    let probe = make_stereo_probe();

    let previews = preview_output_files(&s, Some(&probe));
    // 2 files × (1 video + 1 audio) = 4
    assert_eq!(previews.len(), 4, "expected 4 preview outputs (2 video + 2 audio)");

    let video_count = previews.iter().filter(|p| p.kind == OutputKind::Video).count();
    let audio_count = previews.iter().filter(|p| p.kind == OutputKind::Audio).count();
    assert_eq!(video_count, 2, "2 video outputs");
    assert_eq!(audio_count, 2, "2 audio outputs (one per file)");
}

#[test]
fn test_preview_video_split_no_drop() {
    let mut s = make_video_settings();
    s.input_files = vec![
        "/tmp/clip_A.mov".to_string(),
        "/tmp/clip_B.mov".to_string(),
    ];
    s.split_tracks = true;
    s.naming_mode = OutputNamingMode::SourceStems;
    let probe = make_stereo_probe();

    let previews = preview_output_files(&s, Some(&probe));
    // 2 files × (1 video + 2 audio) = 6
    assert_eq!(previews.len(), 6);
}

#[test]
fn test_preview_video_no_split() {
    let mut s = make_video_settings();
    s.input_files = vec![
        "/tmp/clip_A.mov".to_string(),
        "/tmp/clip_B.mov".to_string(),
    ];
    let probe = make_stereo_probe();

    let previews = preview_output_files(&s, Some(&probe));
    // 2 video mux files (1 per input, no split)
    assert_eq!(previews.len(), 2);
    assert!(previews.iter().all(|p| p.kind == OutputKind::Video));
}

#[test]
fn test_preview_video_no_probe_fallback() {
    let s = make_video_settings();
    let previews = preview_output_files(&s, None);
    // No probe → video-only fallback: 1 video file
    assert_eq!(previews.len(), 1);
    assert!(matches!(previews[0].kind, OutputKind::Video));
}

#[test]
fn test_preview_copy_mode_container() {
    let mut s = make_video_settings();
    s.input_files = vec!["/tmp/clip.mov".to_string()];
    s.copy_video = true;
    s.naming_mode = OutputNamingMode::SourceStems;
    let probe = make_stereo_probe();

    let previews = preview_output_files(&s, Some(&probe));
    assert!(!previews.is_empty());
    let name = previews[0].path.as_str();
    // copy-mode container derived from .mov input = "mov"
    assert!(name.ends_with(".mov"), "expected .mov in copy mode, got: {}", name);
}

#[test]
fn test_preview_concat_audio() {
    let mut s = make_video_settings();
    s.input_files = vec![
        "/tmp/clip_A.mov".to_string(),
        "/tmp/clip_B.mov".to_string(),
    ];
    s.split_tracks = true;
    s.concat_audio = true;
    s.drop_ltc_track = true;
    s.ltc_video_source = Some((1, 0));
    let probe = make_stereo_probe();

    let previews = preview_output_files(&s, Some(&probe));
    // 2 video files + 1 concatenated audio track
    assert!(previews.len() >= 3, "concat: 2 video + 1 audio, got {}", previews.len());
    let audio_count = previews.iter().filter(|p| p.kind == OutputKind::Audio).count();
    assert_eq!(audio_count, 1, "concat → 1 audio output");
}

#[test]
fn test_preview_audio_only_split() {
    let mut s = make_settings_audio_only();
    s.split_tracks = true;
    s.drop_ltc_track = false;

    let previews = preview_output_files(&s, None);
    // 2 audio tracks, no video
    assert_eq!(previews.len(), 2);
    assert!(previews.iter().all(|p| p.kind == OutputKind::Audio));
}

#[test]
fn test_preview_audio_only_split_drop_ltc() {
    let mut s = make_settings_audio_only();
    s.split_tracks = true;
    s.drop_ltc_track = true;
    s.ltc_track_channel_index = 1;

    let previews = preview_output_files(&s, None);
    // 2 channels, drop channel 1 → 1 audio output
    assert_eq!(previews.len(), 1);
    assert!(matches!(previews[0].kind, OutputKind::Audio));
}

#[test]
fn test_preview_audio_only_synthetic_video() {
    let mut s = make_settings_audio_only();
    s.pipeline = ConversionPipeline::AudioOnly { generate_synthetic_video: true };
    s.split_tracks = false;

    let previews = preview_output_files(&s, None);
    // 1 audio + 1 synthetic video
    assert_eq!(previews.len(), 2, "expected audio + synthetic video, got {}", previews.len());
    let audio_count = previews.iter().filter(|p| p.kind == OutputKind::Audio).count();
    let video_count = previews.iter().filter(|p| p.kind == OutputKind::Video).count();
    assert_eq!(audio_count, 1);
    assert_eq!(video_count, 1);
}

// ── arg builder tests ─────────────────────────────────────────────────

#[test]
fn test_build_video_only_has_map_v_and_an() {
    let s = make_video_settings();
    let args = build_video_only_args(&s, 0);
    assert!(args.contains(&"-map".to_string()));
    let map_pos = args.iter().position(|a| a == "-map").unwrap();
    assert_eq!(args[map_pos + 1], "0:v");
    assert!(args.contains(&"-an".to_string()), "video-only must have -an");
    assert!(!args.contains(&"-c:a".to_string()), "no -c:a in video-only");
    assert!(!args.contains(&"0:a?".to_string()), "no 0:a? in video-only");
}

#[test]
fn test_build_video_mux_no_drop_has_audio_map() {
    let s = make_video_settings();
    let probe = make_stereo_probe();
    let args = build_video_mux_args(&s, 0, &AudioKeep::AllAudio, &probe);
    assert!(args.contains(&"-map".to_string()));
    let map_v_pos = args.iter().position(|a| a == "0:v").expect("expected 0:v map");
    assert!(map_v_pos > 0);
    assert!(args.contains(&"0:a?".to_string()), "mux must map audio");
    assert!(args.contains(&"-c:a".to_string()), "mux must have -c:a");
}

#[test]
fn test_build_video_mux_drop_stereo_has_pan_filter() {
    let s = make_video_settings();
    let probe = make_stereo_probe();
    let keep = AudioKeep::ChannelsExcept(vec![(1, 0)]);
    let args = build_video_mux_args(&s, 0, &keep, &probe);
    // Should have -filter_complex with pan=mono|FC=c1
    let fc_pos = args.iter().position(|a| a == "-filter_complex");
    assert!(fc_pos.is_some(), "expected -filter_complex for dropped channel: {:?}", args);
    let fc = &args[fc_pos.unwrap() + 1];
    assert!(fc.contains("pan=mono|FC=c1"), "filter should keep channel 1, got: {}", fc);
    assert!(fc.contains("[0:1]"), "filter should reference stream 1");
    // Should have -map for filtered label
    assert!(args.contains(&"[a0]".to_string()), "should map filtered output");
}

#[test]
fn test_build_video_track_extract_args_wav() {
    let s = make_video_settings();
    let args = build_video_track_extract_args(&s, 0, 1, 0, "wav", 48000);
    let map_pos = args.iter().position(|a| a == "-map").unwrap();
    assert_eq!(args[map_pos + 1], "0:1");
    let af_pos = args.iter().position(|a| a == "-af").unwrap();
    assert_eq!(args[af_pos + 1], "pan=mono|FC=c0");
    let codec_pos = args.iter().position(|a| a == "-c:a").unwrap();
    assert_eq!(args[codec_pos + 1], "pcm_s24le");
    let f_pos = args.iter().position(|a| a == "-f").unwrap();
    assert_eq!(args[f_pos + 1], "wav");
}

#[test]
fn test_build_video_track_extract_args_aac() {
    let s = make_video_settings();
    let args = build_video_track_extract_args(&s, 0, 2, 1, "adts", 48000);
    let map_pos = args.iter().position(|a| a == "-map").unwrap();
    assert_eq!(args[map_pos + 1], "0:2");
    let af_pos = args.iter().position(|a| a == "-af").unwrap();
    assert_eq!(args[af_pos + 1], "pan=mono|FC=c1");
    let codec_pos = args.iter().position(|a| a == "-c:a").unwrap();
    assert_eq!(args[codec_pos + 1], "aac");
    let f_pos = args.iter().position(|a| a == "-f").unwrap();
    assert_eq!(args[f_pos + 1], "adts");
}

#[test]
fn test_build_video_mux_all_audio_regression() {
    // No split, no drop: all audio is mapped
    let s = make_video_settings();
    let probe = make_stereo_probe();
    let args = build_video_mux_args(&s, 0, &AudioKeep::AllAudio, &probe);
    assert!(args.contains(&"-map".to_string()));
    assert!(args.contains(&"0:a?".to_string()));
    assert!(args.contains(&"-c:a".to_string()));
}

// ── Stream-copy mode ("Leave Video Encoding Untouched") ─────────────

fn make_copy_settings() -> ConverterSettings {
    let mut s = make_video_settings();
    s.copy_video = true;
    s
}

fn codec_after_flag<'a>(args: &'a [String], flag: &str) -> Option<&'a String> {
    args.iter()
        .position(|a| a == flag)
        .and_then(|i| args.get(i + 1))
}

#[test]
fn test_copy_mode_container_for_input() {
    assert_eq!(copy_mode_container_for_input("/x/clip.mp4"), "mp4");
    assert_eq!(copy_mode_container_for_input("/x/clip.m4v"), "mp4");
    assert_eq!(copy_mode_container_for_input("/x/CLIP.MOV"), "mov");
    assert_eq!(copy_mode_container_for_input("/x/clip.mkv"), "mkv");
    assert_eq!(copy_mode_container_for_input("/x/clip.MXF"), "mxf");
    // MPEG-TS based recordings remux into MP4 (keeps -timecode support)
    assert_eq!(copy_mode_container_for_input("/x/clip.mts"), "mp4");
    assert_eq!(copy_mode_container_for_input("/x/clip.M2TS"), "mp4");
    assert_eq!(copy_mode_container_for_input("/x/clip.ts"), "mp4");
    // Everything else lands in Matroska
    assert_eq!(copy_mode_container_for_input("/x/clip.avi"), "mkv");
    assert_eq!(copy_mode_container_for_input("/x/clip.webm"), "mkv");
    assert_eq!(copy_mode_container_for_input("/x/noext"), "mkv");
}

#[test]
fn test_shift_timecode_back_ndf() {
    let tc = Timecode { hours: 1, minutes: 0, seconds: 0, frames: 0 };
    // 1.5 s at 25 fps = 37.5 frames → rounds to 38
    let out = shift_timecode_back(&tc, 1.5, 25.0, false);
    assert_eq!(format_ffmpeg_timecode(&out, false), "00:59:58:12");
}

#[test]
fn test_shift_timecode_back_zero_is_identity() {
    let tc = Timecode { hours: 1, minutes: 0, seconds: 0, frames: 12 };
    let out = shift_timecode_back(&tc, 0.0, 25.0, false);
    assert_eq!(out, tc);
    let out = shift_timecode_back(&tc, -3.0, 25.0, false);
    assert_eq!(out, tc);
}

#[test]
fn test_shift_timecode_back_drop_frame_skips_nonexistent() {
    // 29.97 DF: minute 1 starts at frame 2 — frames 0/1 don't exist.
    // Shifting back 2 frames from 01:01:00;02 must land on 01:00:59;29,
    // never on the nonexistent 01:01:00;00.
    let tc = Timecode { hours: 1, minutes: 1, seconds: 0, frames: 2 };
    let out = shift_timecode_back(&tc, 2.0 / 29.97, 29.97, true);
    assert_eq!(format_ffmpeg_timecode(&out, true), "01:00:59;29");
}

#[test]
fn test_shift_timecode_back_drop_frame_minute_start() {
    // 01:00:00;00 minus one frame → 00:59:59;29 (minute 0 keeps frame 0)
    let tc = Timecode { hours: 1, minutes: 0, seconds: 0, frames: 0 };
    let out = shift_timecode_back(&tc, 1.0 / 29.97, 29.97, true);
    assert_eq!(format_ffmpeg_timecode(&out, true), "00:59:59;29");
}

#[test]
fn test_shift_timecode_back_wraps_midnight() {
    let tc = Timecode { hours: 0, minutes: 0, seconds: 0, frames: 0 };
    let out = shift_timecode_back(&tc, 1.0 / 25.0, 25.0, false);
    assert_eq!(format_ffmpeg_timecode(&out, false), "23:59:59:24");
}

#[test]
fn test_shift_timecode_back_roundtrip_with_increment() {
    // Stepping back must be the exact inverse of stepping forward
    let mut tc = Timecode { hours: 12, minutes: 34, seconds: 56, frames: 7 };
    for _ in 0..200 {
        tc = increment_timecode(&tc, 25.0, false);
    }
    let out = shift_timecode_back(&tc, 200.0 / 25.0, 25.0, false);
    assert_eq!(out, Timecode { hours: 12, minutes: 34, seconds: 56, frames: 7 });
}

#[test]
fn test_build_video_only_args_copy_mode() {
    let s = make_copy_settings();
    let args = build_video_only_args(&s, 0);
    assert_eq!(codec_after_flag(&args, "-c:v"), Some(&"copy".to_string()),
        "copy mode must stream-copy the video, args: {:?}", args);
    assert!(!args.contains(&"-r".to_string()),
        "output -r must not be forced on a copied stream");
    // Timecode metadata is still written in copy mode
    let s2 = make_copy_settings();
    let mut s2 = s2;
    s2.timecode_meta_per_file[0] = Some(TimecodeMetadata {
        start: Timecode { hours: 9, minutes: 0, seconds: 0, frames: 0 },
        fps: rate(25.0),
        drop_frame: false,
    });
    let args = build_video_only_args(&s2, 0);
    assert_eq!(codec_after_flag(&args, "-c:v"), Some(&"copy".to_string()));
    let tc_pos = args.iter().position(|a| a == "-timecode").expect("timecode kept in copy mode");
    assert_eq!(args[tc_pos + 1], "09:00:00:00");
    assert!(args.contains(&"-write_tmcd".to_string()));
    assert!(!args.contains(&"-r".to_string()));
    // No encoder-specific pixel format args
    assert!(!args.contains(&"yuv420p".to_string()));
}

#[test]
fn test_build_video_mux_args_copy_mode_all_audio_copies_audio() {
    let s = make_copy_settings();
    let probe = make_stereo_probe();
    let args = build_video_mux_args(&s, 0, &AudioKeep::AllAudio, &probe);
    assert_eq!(codec_after_flag(&args, "-c:v"), Some(&"copy".to_string()));
    assert_eq!(codec_after_flag(&args, "-c:a"), Some(&"copy".to_string()),
        "unfiltered audio must be stream-copied too, args: {:?}", args);
    assert!(!args.contains(&"-r".to_string()));
}

#[test]
fn test_build_video_mux_args_copy_mode_drop_channel_reencodes_audio_only() {
    let mut s = make_copy_settings();
    s.audio_encoder = "pcm_s24le".to_string();
    let probe = make_stereo_probe();
    let keep = AudioKeep::ChannelsExcept(vec![(1, 0)]);
    let args = build_video_mux_args(&s, 0, &keep, &probe);
    assert_eq!(codec_after_flag(&args, "-c:v"), Some(&"copy".to_string()),
        "video must stay copied even when audio is filtered");
    assert_eq!(codec_after_flag(&args, "-c:a"), Some(&"pcm_s24le".to_string()),
        "channel filtering requires re-encoding only the audio");
    assert!(args.contains(&"-filter_complex".to_string()));
}

#[test]
fn test_build_video_only_args_encode_mode_unchanged() {
    // Regression: without copy_video the encoder path is untouched
    let mut s = make_video_settings();
    s.resolved_video_encoder = "libx264".to_string();
    let args = build_video_only_args(&s, 0);
    assert_eq!(codec_after_flag(&args, "-c:v"), Some(&"libx264".to_string()));
    assert!(args.contains(&"-pix_fmt".to_string()));
}

#[test]
fn test_sanity_check_copy_mode_skips_video_codec_validation() {
    let tmp = "/work";
    let input = join_path(tmp, "in.mp4");
    // caps with no video encoders at all — encode mode would fail
    let caps = make_caps(true, BTreeSet::from(["pcm_s24le"]), BTreeSet::from(["mp4"]));

    // Copy mode: unknown codec id is irrelevant, conversion is valid
    assert!(conversion_sanity_check(
        "mp4", "weird-codec", "pcm_s24le",
        &[input.clone()], tmp, "out", &caps, None, None,
    ).is_err(), "encode mode with unknown codec must fail");

    assert!(conversion_sanity_check_copy(
        "mp4", "weird-codec", "pcm_s24le",
        &[input.clone()], tmp, "out", &caps, None, None,
    ).is_ok(), "copy mode must not validate the video codec");

    // Copy mode still validates the container against ffmpeg
    assert!(conversion_sanity_check_copy(
        "webp", "weird-codec", "pcm_s24le",
        &[input.clone()], tmp, "out", &caps, None, None,
    ).is_err(), "copy mode must still reject unavailable containers");
}

// ── Output naming mode tests ──────────────────────────────────────────

#[test]
fn test_output_base_for_file_prefix_mode() {
    let s = ConverterSettings {
        filename_prefix: "session1".to_string(),
        naming_mode: OutputNamingMode::PrefixTemplates,
        input_files: vec![
            "/tmp/C0001.MP4".to_string(),
            "/tmp/C0002.MP4".to_string(),
        ],
        ..make_settings_audio_only()
    };
    assert_eq!(s.output_base_for_file(0), "session1");
    assert_eq!(s.output_base_for_file(1), "session1");
    assert_eq!(s.output_base_for_file(99), "session1");
}

#[test]
fn test_output_base_for_file_source_stems_mode() {
    let s = ConverterSettings {
        filename_prefix: "session1".to_string(),
        naming_mode: OutputNamingMode::SourceStems,
        input_files: vec![
            "/tmp/C0001.MP4".to_string(),
            "/tmp/C0002.MP4".to_string(),
            "/tmp/C0003.MP4".to_string(),
        ],
        ..make_settings_audio_only()
    };
    assert_eq!(s.output_base_for_file(0), "C0001");
    assert_eq!(s.output_base_for_file(1), "C0002");
    assert_eq!(s.output_base_for_file(2), "C0003");
}

#[test]
fn test_output_path_for_file_source_stems_naming() {
    let s = ConverterSettings {
        filename_prefix: "ignored".to_string(),
        naming_mode: OutputNamingMode::SourceStems,
        input_files: vec![
            "/tmp/C0001.MP4".to_string(),
            "/tmp/C0002.MP4".to_string(),
        ],
        output_folder: "/out".to_string(),
        container: "mkv".to_string(),
        video_suffix_template: "_clip{:02d}".to_string(),
        ..make_settings_audio_only()
    };
    let ext = "mkv";
    let p0 = s.output_path_for_file("video", 0, 1, ext);
    assert!(p0.ends_with("C0001_clip01.mkv"),
        "expected C0001-clip01, got {}", p0);
    let p1 = s.output_path_for_file("video", 1, 2, ext);
    assert!(p1.ends_with("C0002_clip02.mkv"),
        "expected C0002-clip02, got {}", p1);
}

#[test]
fn test_output_path_for_file_prefix_mode_unchanged() {
    // PrefixTemplates mode must produce the same name as before
    let s = ConverterSettings {
        filename_prefix: "session".to_string(),
        naming_mode: OutputNamingMode::PrefixTemplates,
        input_files: vec!["/tmp/C0001.MP4".to_string()],
        output_folder: "/out".to_string(),
        container: "mkv".to_string(),
        video_suffix_template: "_video_clip{:02d}".to_string(),
        ..make_settings_audio_only()
    };
    let p0 = s.output_path_for_file("video", 0, 1, "mkv");
    assert!(p0.ends_with("session_video_clip01.mkv"),
        "expected session_video_clip01.mkv, got {}", p0);
}

#[test]
fn test_output_path_collision_fallback() {
    // Input file collides with computed output path when suffix is empty
    // in source-stems mode and output folder == input folder.
    let s = ConverterSettings {
        filename_prefix: String::new(),
        naming_mode: OutputNamingMode::SourceStems,
        input_files: vec!["/work/C0001.mp4".to_string()],
        output_folder: "/work".to_string(),
        container: "mp4".to_string(),
        video_suffix_template: String::new(),
        audio_suffix_template: String::new(),
        ..make_settings_audio_only()
    };
    let path = s.output_path_for_file("video", 0, 1, "mp4");
    let name = file_name(&path).unwrap();
    assert!(name.contains("_conv"), "expected _conv suffix, got {}", name);
}

#[test]
fn an_output_that_is_its_input_is_set_aside_before_its_extension() {
    let s = ConverterSettings {
        filename_prefix: "A".to_string(),
        naming_mode: OutputNamingMode::PrefixTemplates,
        input_files: vec!["/tmp/A_clip01.mp4".to_string()],
        output_folder: "/tmp".to_string(),
        container: "mp4".to_string(),
        video_suffix_template: "_clip{:02d}".to_string(),
        ..make_settings_audio_only()
    };
    assert_eq!(s.output_path_for_file("video", 0, 1, "mp4"), "/tmp/A_clip01_conv.mp4");
    assert_eq!(s.output_path_for_file("video", 0, 2, "mp4"), "/tmp/A_clip02.mp4");
    let text = output_collision_warning(
        &s.input_files, "/tmp", "A",
        &OutputNamingMode::PrefixTemplates, "_clip{:02d}",
        "mp4", true,
    ).unwrap();
    assert!(text.contains("'A_clip01.mp4' will be written as 'A_clip01_conv.mp4'"),
        "got: {}", text);
}

#[test]
fn test_validate_suffix_template_source_stems_relaxed() {
    // In SourceStems mode, a template without placeholders is valid
    assert!(ConverterSettings::validate_suffix_template_for_mode("_sync", &OutputNamingMode::SourceStems).is_ok());
    assert!(ConverterSettings::validate_suffix_template_for_mode("", &OutputNamingMode::SourceStems).is_ok());
    // In PrefixTemplates mode, no-placeholder templates should still fail
    assert!(ConverterSettings::validate_suffix_template_for_mode("_sync", &OutputNamingMode::PrefixTemplates).is_err());
}

#[test]
fn test_plan_video_mux_source_stems_naming() {
    let mut s = make_video_settings();
    s.naming_mode = OutputNamingMode::SourceStems;
    s.input_files = vec![
        "/tmp/C0001.MP4".to_string(),
        "/tmp/C0002.MP4".to_string(),
    ];
    let probe = make_stereo_probe();
    let steps = plan_video_outputs(&s, &probe);
    assert_eq!(steps.len(), 2, "2 clips → 2 mux steps");
    if let VideoOutputStep::VideoMux { file_idx, output, .. } = &steps[0] {
        assert_eq!(*file_idx, 0);
        assert!(output.contains("C0001"), "step 0 named after C0001: {}", output);
    } else {
        panic!("expected VideoMux step 0");
    }
    if let VideoOutputStep::VideoMux { file_idx, output, .. } = &steps[1] {
        assert_eq!(*file_idx, 1);
        assert!(output.contains("C0002"), "step 1 named after C0002: {}", output);
    } else {
        panic!("expected VideoMux step 1");
    }
}

#[test]
fn test_plan_video_split_source_stems_naming() {
    let mut s = make_video_settings();
    s.naming_mode = OutputNamingMode::SourceStems;
    s.split_tracks = true;
    s.input_files = vec![
        "/tmp/C0001.MP4".to_string(),
        "/tmp/C0002.MP4".to_string(),
    ];
    let probe = make_stereo_probe();
    let steps = plan_video_outputs(&s, &probe);
    // 2 clips × (1 VideoOnly + 2 AudioChannel) = 6 steps
    assert_eq!(steps.len(), 6);
    // Step 0: VideoOnly for C0001
    assert!(matches!(steps[0], VideoOutputStep::VideoOnly { file_idx: 0, .. }));
    assert!(steps[0].output().contains("C0001"), "video-only 0 stems from C0001");
    // Step 3: VideoOnly for C0002
    assert!(matches!(steps[3], VideoOutputStep::VideoOnly { file_idx: 1, .. }));
    assert!(steps[3].output().contains("C0002"), "video-only 1 stems from C0002");
    // Audio channels should also use per-file stems
    assert!(steps[1].output().contains("C0001"), "audio 0 stems from C0001");
    assert!(steps[4].output().contains("C0002"), "audio 3 stems from C0002");
}

// ── Concat planner tests ──────────────────────────────────────────────

#[test]
fn test_plan_concat_stereo_no_drop() {
    let mut s = make_video_settings();
    s.split_tracks = true;
    s.concat_audio = true;
    s.input_files = vec![
        "/tmp/C0001.MP4".to_string(),
        "/tmp/C0002.MP4".to_string(),
    ];
    let probe = make_stereo_probe();
    let all_probes = vec![Some(probe.clone()), Some(probe)];
    let (steps, warning) = plan_concat_outputs(&s, &all_probes);
    assert!(warning.is_empty(), "expected no warning, got: {}", warning);
    // 2 concat steps for 2 tracks (ch0, ch1), no video steps here
    assert_eq!(steps.len(), 2);
    for (i, step) in steps.iter().enumerate() {
        match step {
            VideoOutputStep::AudioChannelConcat { segments, output, .. } => {
                assert_eq!(segments.len(), 2, "track {} should have 2 segments", i);
                // Each segment references the correct file index
                assert_eq!(segments[0].0, 0);
                assert_eq!(segments[1].0, 1);
                assert!(output.contains(&format!("audio_track{}", i + 1)),
                    "output should have track {}: {}", i + 1, output);
            }
            other => panic!("expected AudioChannelConcat, got {:?}", other),
        }
    }
}

#[test]
fn test_plan_concat_drop_ltc_track() {
    let mut s = make_video_settings();
    s.split_tracks = true;
    s.concat_audio = true;
    s.drop_ltc_track = true;
    s.ltc_video_source = Some((1, 0)); // drop channel 0 (stream 1, ch 0)
    s.input_files = vec![
        "/tmp/C0001.MP4".to_string(),
        "/tmp/C0002.MP4".to_string(),
    ];
    let probe = make_stereo_probe();
    let all_probes = vec![Some(probe.clone()), Some(probe)];
    let (steps, _warning) = plan_concat_outputs(&s, &all_probes);
    // Only 1 surviving channel (ch1), so 1 concat step
    assert_eq!(steps.len(), 1);
    match &steps[0] {
        VideoOutputStep::AudioChannelConcat { segments, .. } => {
            assert_eq!(segments.len(), 2);
            // Both segments should reference channel_idx == 1
            assert_eq!(segments[0].2, 1);
            assert_eq!(segments[1].2, 1);
        }
        other => panic!("expected AudioChannelConcat, got {:?}", other),
    }
}

#[test]
fn test_plan_concat_inconsistent_layout_fallback() {
    let mut s = make_video_settings();
    s.split_tracks = true;
    s.concat_audio = true;
    s.input_files = vec![
        "/tmp/C0001.MP4".to_string(),
        "/tmp/C0002.MP4".to_string(),
    ];
    let stereo = make_stereo_probe();
    let mono = make_mono_probe();
    let all_probes = vec![Some(stereo), Some(mono)];
    let (steps, warning) = plan_concat_outputs(&s, &all_probes);
    // Should fall back to per-clip AudioChannel steps
    assert!(!warning.is_empty(), "expected fallback warning");
    assert!(warning.contains("falling back"), "warning should mention fallback");
    for step in &steps {
        assert!(
            matches!(step, VideoOutputStep::AudioChannel { .. }),
            "expected AudioChannel fallback, got {:?}", step
        );
    }
}

// ── Concat arg builder tests ───────────────────────────────────────────

#[test]
fn test_build_concat_audio_args_basic() {
    let mut s = make_video_settings();
    s.input_files = vec![
        "/tmp/C0001.MP4".to_string(),
        "/tmp/C0002.MP4".to_string(),
    ];
    s.trim_offsets_nanos = vec![nanos(1.5) as u64, nanos(2.0) as u64];
    let segments = vec![(0, 1, 0), (1, 1, 0)];
    let args = build_concat_audio_args(&s, &segments, "wav", 48000);
    // Should have two input files with -ss
    let input_positions: Vec<usize> = args.iter().enumerate()
        .filter(|(_, a)| a.contains("-i"))
        .map(|(i, _)| i)
        .collect();
    assert_eq!(input_positions.len(), 2, "should have 2 -i inputs");
    // Should have -ss before each input
    assert!(args.contains(&"-ss".to_string()), "should have at least one -ss");
    let ss_positions: Vec<usize> = args.iter().enumerate()
        .filter(|(_, a)| *a == "-ss")
        .map(|(i, _)| i)
        .collect();
    assert_eq!(ss_positions.len(), 2, "should have 2 -ss flags");
    assert!(
        args[ss_positions[0] + 1].contains("1.5"),
        "first -ss should be 1.5, got: {}", args[ss_positions[0] + 1]
    );
    assert!(
        args[ss_positions[1] + 1].contains("2.0"),
        "second -ss should be 2.0, got: {}", args[ss_positions[1] + 1]
    );
    // Should have -filter_complex with pan and concat
    let fc_pos = args.iter().position(|a| a == "-filter_complex").expect("should have -filter_complex");
    let fc = &args[fc_pos + 1];
    assert!(fc.contains("pan=mono|FC=c0"), "should have pan for ch0");
    assert!(fc.contains("[0:1]"), "should reference first input's stream 1");
    assert!(fc.contains("[1:1]"), "should reference second input's stream 1");
    assert!(fc.contains("concat=n=2:v=0:a=1"), "should concat 2 segments");
    assert!(fc.contains("[out]"), "filter_complex should produce [out]");
    // Should have -map [out]
    let map_pos = args.iter().position(|a| a == "-map").expect("should have -map");
    assert_eq!(args[map_pos + 1], "[out]");
    assert!(args.contains(&"-vn".to_string()), "should have -vn for audio-only");
    assert!(args.contains(&"-c:a".to_string()), "should have -c:a");
    // Should have -f wav
    let f_pos = args.iter().position(|a| a == "-f").expect("should have -f");
    assert_eq!(args[f_pos + 1], "wav");
}

#[test]
fn test_build_concat_audio_args_timecode() {
    let mut s = make_video_settings();
    s.input_files = vec![
        "/tmp/C0001.MP4".to_string(),
        "/tmp/C0002.MP4".to_string(),
    ];
    s.timecode_meta_per_file[0] = Some(TimecodeMetadata {
        start: Timecode { hours: 1, minutes: 0, seconds: 0, frames: 0 },
        fps: rate(25.0),
        drop_frame: false,
    });
    let segments = vec![(0, 1, 0), (1, 1, 0)];
    let args = build_concat_audio_args(&s, &segments, "wav", 48000);
    // Should have timecode metadata from clip 0
    let tc_pos = args.iter().position(|a| a == "-timecode").expect("should have -timecode");
    assert_eq!(args[tc_pos + 1], "01:00:00:00");
    assert!(args.contains(&"-write_bext".to_string()), "WAV should have BWF");
}

// ── same-folder collision / output_collision_warning ─────────────────

#[test]
fn test_sanity_check_same_folder_source_stems_ok() {
    let tmp = "/work";
    let input = join_path(tmp, "C0001.MP4");
    let caps = make_caps(true, BTreeSet::from(["libx264", "pcm_s24le"]), BTreeSet::from(["matroska"]));
    let result = conversion_sanity_check_with_naming(
        "mkv", "h264", "pcm_s24le",
        &[input], tmp, "prefix", &caps,
        Some("_audio_track{:01d}"), Some("_video_clip{:02d}"),
        Some(OutputNamingMode::SourceStems), false,
    );
    assert!(result.is_ok(),
        "SourceStems + same folder + non-empty suffix should be Ok, got: {:?}",
        result.err());
}

#[test]
fn test_collision_warning_none_when_suffix_differs() {
    let tmp = "/work";
    let input = join_path(tmp, "C0001.MP4");
    let msg = output_collision_warning(
        &[input], tmp, "prefix",
        &OutputNamingMode::SourceStems, "_video_clip{:02d}",
        "mkv", false,
    );
    assert!(msg.is_none(),
        "non-empty suffix should prevent collision warning, got: {:?}", msg);
}

#[test]
fn test_collision_warning_some_on_true_collision() {
    let tmp = "/work";
    let input = join_path(tmp, "C0001.mp4");
    let msg = output_collision_warning(
        &[input.clone()], tmp, "prefix",
        &OutputNamingMode::SourceStems, "",
        "mp4", true,
    );
    assert!(msg.is_some(), "empty suffix + same ext + copy mode should warn");
    let text = msg.unwrap();
    assert!(text.contains("_conv"), "message should mention _conv mitigation, got: {}", text);
    assert!(text.contains("C0001.mp4"), "message should name the colliding file, got: {}", text);
}

#[test]
fn test_collision_warning_prefix_mode_no_false_positive() {
    let tmp = "/work";
    let input = join_path(tmp, "C0001.MP4");
    let msg = output_collision_warning(
        &[input], tmp, "out",
        &OutputNamingMode::PrefixTemplates, "_video_clip{:02d}",
        "mkv", false,
    );
    assert!(msg.is_none(),
        "PrefixTemplates with non-colliding prefix should be None, got: {:?}", msg);
}

#[test]
fn test_collision_warning_copy_mode_ext_no_false() {
    // MTS input → copy mode maps ext to mp4; output name won't match .mts input
    let tmp = "/work";
    let input = join_path(tmp, "C0001.MTS");
    let msg = output_collision_warning(
        &[input], tmp, "prefix",
        &OutputNamingMode::SourceStems, "_video_clip{:02d}",
        "mkv", true,
    );
    assert!(msg.is_none(),
        "MTS in copy mode → planned ext is mp4, no collision, got: {:?}", msg);
}

// ── What ffmpeg can do ───────────────────────────────────────────────

#[test]
fn listings_are_read_line_by_line() {
    let encoders = " V..... = Video\n A..... = Audio\n ------\n V....D libx264   H.264\n A....D pcm_s24le PCM\n S..... srt  subtitles\n";
    let found = parse_listing(encoders, Listing::Encoders);
    assert!(found.contains(&"libx264".to_string()));
    assert!(found.contains(&"pcm_s24le".to_string()));
    assert!(!found.contains(&"srt".to_string()));
    let formats = "  E matroska        Matroska\n DE mov,mp4,m4a  QuickTime\n D  aac  raw\n";
    let found = parse_listing(formats, Listing::Formats);
    assert!(found.contains(&"matroska".to_string()));
    assert!(found.contains(&"mp4".to_string()));
    assert!(!found.contains(&"aac".to_string()));
}

#[test]
fn a_missing_ffmpeg_is_explained() {
    let hw = HwDeviceCapabilities::default();
    let caps = capabilities_from(VersionRun::NotFound("no such file".to_string()), None, None, hw.clone());
    assert!(!caps.has_ffmpeg);
    assert!(caps.error_message.unwrap().contains("no such file"));
    let caps = capabilities_from(VersionRun::Failed, None, None, hw.clone());
    assert!(!caps.has_ffmpeg);
    assert_eq!(
        caps.error_message.as_deref(),
        Some("ffmpeg found but returned a non-zero exit status")
    );
    let caps = capabilities_from(
        VersionRun::Succeeded,
        Some(" V....D libx264 x".to_string()),
        Some("  E mov x".to_string()),
        hw,
    );
    assert!(caps.has_ffmpeg);
    assert_eq!(caps.available_encoders, vec!["libx264"]);
    assert_eq!(caps.available_formats, vec!["mov"]);
    assert!(caps.error_message.is_none());
}

// ── Formats ──────────────────────────────────────────────────────────

#[test]
fn the_best_combination_is_usable() {
    let caps = make_caps(
        true,
        BTreeSet::from(["libx264", "aac"]),
        BTreeSet::from(["mp4", "matroska"]),
    );
    let (container, codec, audio) = select_best_combination(&caps);
    assert!(available_containers(&caps).iter().any(|(k, _)| *k == container));
    assert!(available_video_codecs(&container, &caps).iter().any(|(k, _)| *k == codec));
    assert!(available_audio_encoders_for_container(&container, &caps).iter().any(|(k, _)| *k == audio));
    assert!(container_supports_audio_encoder(&container, &audio));
    let (mut c, mut v, mut a) = (container.clone(), codec.clone(), audio.clone());
    apply_available_defaults(&mut c, &mut v, &mut a, &caps);
    assert_eq!((c, v, a), (container, codec, audio));
}

#[test]
fn formats_have_extensions() {
    assert_eq!(extension_for_container("mkv"), "mkv");
    assert_eq!(audio_encoder_to_output_format("pcm_s24le"), ("wav", "wav"));
    assert_eq!(supported_containers().len(), 4);
    assert!(supported_audio_encoders().iter().any(|(k, _)| *k == "libopus"));
}

// ── Channel maps ─────────────────────────────────────────────────────

#[test]
fn swapping_channels_keeps_a_permutation() {
    let mut map = ChannelMap::identity(4);
    map.swap(0, 2);
    assert_eq!(map.mapping(), &[2, 1, 0, 3]);
    assert_eq!(map.get(0), 2);
    assert_eq!(map.input_of(2), 0);
    assert_eq!(map.num_channels(), 4);
    map.swap(0, 0);
    assert_eq!(map.mapping(), &[0, 1, 2, 3]);
    assert_eq!(ChannelMap::from_mapping(vec![1, 0]).get(1), 0);
}

// ── Sanity ───────────────────────────────────────────────────────────

#[test]
fn a_conversion_that_cannot_work_is_refused() {
    let caps = make_caps(true, BTreeSet::from(["libx264", "pcm_s24le"]), BTreeSet::from(["matroska"]));
    let input = vec!["/work/in.wav".to_string()];
    let check = |container: &str, codec: &str, audio: &str, prefix: &str| {
        conversion_sanity_check(container, codec, audio, &input, "/work", prefix, &caps, None, None)
    };
    assert!(check("mkv", "h264", "pcm_s24le", "out").is_ok());
    assert!(check("mp4", "h264", "pcm_s24le", "out").is_err());
    assert!(check("mkv", "h264", "aac", "out").is_err());
    assert!(check("mkv", "h264", "pcm_s24le", "").is_err());
    let none: Vec<String> = Vec::new();
    assert!(conversion_sanity_check("mkv", "h264", "pcm_s24le", &none, "/work", "out", &caps, None, None).is_err());
    let missing = vec![InputFile { path: "/work/gone.wav".to_string(), exists: false }];
    assert!(ltc_timecode::sanity::conversion_sanity_check(
        "mkv", "h264", "pcm_s24le", &missing, "/work", true, "out", &caps, None, None,
    )
    .is_err());
    assert!(ltc_timecode::sanity::conversion_sanity_check(
        "mkv", "h264", "pcm_s24le", &existing(&input), "/gone", false, "out", &caps, None, None,
    )
    .is_err());
}

#[test]
fn suffix_templates_need_a_number() {
    assert!(ConverterSettings::validate_suffix_template("_track{:01d}").is_ok());
    assert!(ConverterSettings::validate_suffix_template("_track").is_err());
}
