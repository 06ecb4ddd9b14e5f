//! Running a conversion command by command.

use ltc_timecode::capabilities::{FfmpegCapabilities, HwDeviceCapabilities};
use ltc_timecode::channel_map::ChannelMap;
use ltc_timecode::conversion::{opening_state, Conversion, ConversionStatus};
use ltc_timecode::copy_mode::{needs_keyframe, prepare_copy_mode};
use ltc_timecode::ffprobe::{AudioStreamInfo, VideoAudioProbe};
use ltc_timecode::progress::{format_step_label, RunEnd, StepRun, FULL};
use ltc_timecode::settings::{
    ConversionPipeline, ConverterSettings, OutputNamingMode, RecordingType, DEFAULT_AUDIO_SUFFIX,
    DEFAULT_VIDEO_SUFFIX,
};
use ltc_timecode::timecode::{FrameRate, Timecode};
use ltc_timecode::timecode_meta::TimecodeMetadata;

fn settings() -> ConverterSettings {
    ConverterSettings {
        pipeline: ConversionPipeline::VideoPassthrough,
        input_files: vec!["/in/a.mp4".to_string(), "/in/b.mp4".to_string()],
        recording_type: RecordingType::VideoClipSequence,
        ltc_track_channel_index: 0,
        channel_map: ChannelMap::identity(1),
        split_tracks: false,
        drop_ltc_track: false,
        ltc_video_source: None,
        container: "mkv".to_string(),
        copy_video: false,
        video_encoder: "h264".to_string(),
        audio_encoder: "pcm_s24le".to_string(),
        resolved_video_encoder: String::new(),
        resolved_hw_device: None,
        output_folder: "/out".to_string(),
        filename_prefix: "take".to_string(),
        audio_suffix_template: DEFAULT_AUDIO_SUFFIX.to_string(),
        video_suffix_template: DEFAULT_VIDEO_SUFFIX.to_string(),
        naming_mode: OutputNamingMode::PrefixTemplates,
        trim_to_first_ltc: false,
        trim_offsets_nanos: vec![0, 0],
        timecode_meta_per_file: vec![None, None],
        concat_audio: false,
    }
}

fn probe() -> Option<VideoAudioProbe> {
    Some(VideoAudioProbe {
        streams: vec![AudioStreamInfo {
            stream_index: 1,
            channels: 2,
            codec_name: "aac".to_string(),
            sample_rate: 48000,
        }],
        total_audio_channels: 2,
        is_video_file: true,
    })
}

fn caps(encoders: &[&str]) -> FfmpegCapabilities {
    FfmpegCapabilities {
        has_ffmpeg: true,
        available_encoders: encoders.iter().map(|e| e.to_string()).collect(),
        available_formats: vec!["matroska".to_string()],
        hw: HwDeviceCapabilities::default(),
        error_message: None,
    }
}

fn start(encoders: &[&str]) -> Conversion {
    Conversion::start(settings(), vec![probe(), probe()], None, Some(&caps(encoders)))
}

fn encoder_of(args: &[String]) -> String {
    let at = args.iter().position(|a| a == "-c:v").unwrap();
    args[at + 1].clone()
}

#[test]
fn commands_come_one_after_the_other() {
    let mut conversion = start(&["libx264"]);
    let first = conversion.next(false).unwrap();
    assert_eq!(first.output, "/out/take_video_clip01.mkv");
    assert_eq!(first.args.last().unwrap(), &first.output);
    assert!(first.shown.contains("ffmpeg"));
    conversion.report(&StepRun::new(), &RunEnd::Succeeded);
    let second = conversion.next(false).unwrap();
    assert_eq!(second.output, "/out/take_video_clip02.mkv");
    conversion.report(&StepRun::new(), &RunEnd::Succeeded);
    assert!(conversion.next(false).is_none());
    assert_eq!(conversion.closing_state(String::new()).status, ConversionStatus::Completed);
}

#[test]
fn an_encoder_that_fails_gives_way_to_the_next() {
    let mut conversion = start(&["h264_nvenc", "libx264"]);
    let first = conversion.next(false).unwrap();
    assert_eq!(encoder_of(&first.args), "h264_nvenc");
    conversion.report(&StepRun::new(), &RunEnd::Exited { code: Some(187), output_bytes: 0 });
    let again = conversion.next(false).unwrap();
    assert_eq!(encoder_of(&again.args), "libx264");
    assert_eq!(again.output, first.output);
    conversion.report(&StepRun::new(), &RunEnd::Succeeded);
    let second = conversion.next(false).unwrap();
    assert_eq!(encoder_of(&second.args), "libx264");
}

#[test]
fn a_failure_with_output_ends_the_conversion() {
    let mut conversion = start(&["h264_nvenc", "libx264"]);
    conversion.next(false).unwrap();
    conversion.report(&StepRun::new(), &RunEnd::Exited { code: Some(1), output_bytes: 8192 });
    assert!(conversion.next(false).is_none());
    assert!(matches!(
        conversion.closing_state(String::new()).status,
        ConversionStatus::Failed { .. }
    ));
}

#[test]
fn without_an_encoder_left_the_conversion_fails() {
    let mut conversion = start(&["libx264"]);
    conversion.next(false).unwrap();
    conversion.report(&StepRun::new(), &RunEnd::Exited { code: Some(187), output_bytes: 0 });
    assert!(conversion.next(false).is_none());
    assert!(matches!(
        conversion.closing_state(String::new()).status,
        ConversionStatus::Failed { .. }
    ));
}

#[test]
fn a_cancelled_conversion_starts_nothing_more() {
    let mut conversion = start(&["libx264"]);
    conversion.next(false).unwrap();
    conversion.report(&StepRun::new(), &RunEnd::Cancelled);
    assert!(conversion.next(true).is_none());
}

#[test]
fn a_conversion_cancelled_between_two_jobs_gives_up_the_rest() {
    let mut conversion = start(&["libx264"]);
    assert!(conversion.next(true).is_none());
    assert!(conversion.next(false).is_none());
    assert_eq!(conversion.closing_state(String::new()).status, ConversionStatus::Completed);

    let mut conversion = start(&["libx264"]);
    conversion.next(false).unwrap();
    conversion.report(&StepRun::new(), &RunEnd::Succeeded);
    assert!(conversion.next(true).is_none());
    let state = conversion.closing_state(String::new());
    assert_eq!(state.status, ConversionStatus::Completed);
    assert!(state.ffmpeg_output.contains("COMPLETED"));
}

#[test]
fn a_job_cancelled_before_an_encoder_is_tried_has_failed() {
    let mut conversion = start(&["h264_nvenc", "libx264"]);
    conversion.next(false).unwrap();
    conversion.report(&StepRun::new(), &RunEnd::Exited { code: Some(187), output_bytes: 0 });
    assert!(conversion.next(true).is_none());
    assert!(matches!(
        conversion.closing_state(String::new()).status,
        ConversionStatus::Failed { .. }
    ));

    let mut conversion = start(&["libx264"]);
    assert!(conversion.next_for_job(true).is_none());
    assert!(matches!(
        conversion.closing_state(String::new()).status,
        ConversionStatus::Failed { .. }
    ));

    let mut s = settings();
    s.pipeline = ConversionPipeline::AudioOnly { generate_synthetic_video: true };
    let mut conversion = Conversion::start(s, Vec::new(), None, Some(&caps(&["libx264"])));
    assert!(conversion.next(true).is_none());
    assert!(matches!(
        conversion.closing_state(String::new()).status,
        ConversionStatus::Failed { .. }
    ));
}

#[test]
fn a_single_audio_job_is_begun_though_cancelled() {
    let mut s = settings();
    s.pipeline = ConversionPipeline::AudioOnly { generate_synthetic_video: false };
    let mut conversion = Conversion::start(s.clone(), Vec::new(), None, None);
    assert!(conversion.next(true).is_some());
    conversion.report(&StepRun::new(), &RunEnd::Cancelled);
    assert!(matches!(
        conversion.closing_state(String::new()).status,
        ConversionStatus::Failed { .. }
    ));

    s.split_tracks = true;
    let mut conversion = Conversion::start(s, Vec::new(), None, None);
    assert!(conversion.next(true).is_none());
    assert_eq!(conversion.closing_state(String::new()).status, ConversionStatus::Completed);
}

#[test]
fn commands_are_built_with_the_streams_of_the_first_file() {
    let mut s = settings();
    s.split_tracks = true;
    s.timecode_meta_per_file = vec![
        None,
        Some(TimecodeMetadata {
            start: Timecode { hours: 0, minutes: 0, seconds: 1, frames: 0 },
            fps: FrameRate { num: 25, den: 1 },
            drop_frame: false,
        }),
    ];
    let mut other = probe();
    other.as_mut().unwrap().streams[0].sample_rate = 44100;
    let run = |probes: Vec<Option<VideoAudioProbe>>| {
        let mut conversion =
            Conversion::start(s.clone(), probes, None, Some(&caps(&["libx264"])));
        let mut args: Vec<String> = Vec::new();
        while let Some(command) = conversion.next(false) {
            args.extend(command.args);
            conversion.report(&StepRun::new(), &RunEnd::Succeeded);
        }
        args
    };
    let holds = |args: &Vec<String>, text: &str| args.iter().any(|a| a.contains(text));
    let args = run(vec![probe(), other.clone()]);
    assert!(holds(&args, "time_reference=48000"), "{:?}", args);
    assert!(!holds(&args, "time_reference=44100"));
    let args = run(vec![other, probe()]);
    assert!(holds(&args, "time_reference=44100"), "{:?}", args);
    assert!(!holds(&args, "time_reference=48000"));
}

#[test]
fn without_ffmpeg_no_hardware_device_is_used() {
    let mut known = caps(&["h264_vaapi"]);
    known.hw.vaapi_device = Some("/dev/dri/renderD128".to_string());
    let devices = |known: &FfmpegCapabilities| {
        let mut conversion =
            Conversion::start(settings(), vec![probe(), probe()], None, Some(known));
        let mut found = false;
        while let Some(command) = conversion.next(false) {
            found = found || command.args.iter().any(|a| a.contains("renderD128"));
            conversion.report(&StepRun::new(), &RunEnd::Exited { code: Some(187), output_bytes: 0 });
        }
        found
    };
    assert!(devices(&known));
    known.has_ffmpeg = false;
    assert!(!devices(&known));
}

#[test]
fn progress_follows_the_clock_of_ffmpeg() {
    let mut run = StepRun::new();
    run.read_line("  Duration: 00:00:10.00, start: 0.000000");
    run.read_line("out_time=00:00:05.000000");
    assert_eq!(run.progress, FULL / 2);
    assert!(run.produced_output);
    assert!(run.log.contains("Duration"));
    let mut conversion = start(&["libx264"]);
    conversion.next(false).unwrap();
    assert_eq!(conversion.shown_progress(&run), FULL / 4);
}

#[test]
fn a_conversion_opens_with_no_progress() {
    let state = opening_state(&settings(), false);
    assert_eq!(state.status, ConversionStatus::Running { progress: 0 });
    assert_eq!(format_step_label(2, 3), "[2/3]");
}

#[test]
fn copied_video_is_cut_at_key_frames() {
    let mut s = settings();
    s.copy_video = true;
    s.trim_offsets_nanos = vec![3_000_000_000, 500_000];
    assert!(needs_keyframe(&s, 0));
    assert!(!needs_keyframe(&s, 1));
    prepare_copy_mode(&mut s, &vec![2_000_000_000, 0]);
    assert_eq!(s.trim_offsets_nanos[0], 2_000_000_000);
}
