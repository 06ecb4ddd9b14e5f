//! The engine: commands, events and what comes back from outside.

use ltc_timecode::capabilities::{FfmpegCapabilities, HwDeviceCapabilities};
use ltc_timecode::command::GuiCommand;
use ltc_timecode::engine::Engine;
use ltc_timecode::engine_commands::Stamp;
use ltc_timecode::engine_decode::{drain_ffmpeg_probe_result, ProbeInbox};
use ltc_timecode::ffprobe::{AudioStreamInfo, VideoAudioProbe};
use ltc_timecode::ltc_chunks::WavChunkReader;
use ltc_timecode::ltc_decoder::{LtcDecodeStatus, LtcDetectionResult, Share};
use ltc_timecode::state::{
    AppState, AudioDeviceInfo, AudioEvent, ClapLogItem, ClipResult, FileDuration, FpsOption,
};
use ltc_timecode::steppers::{stepper_frame, stepper_hour, stepper_minute, stepper_second};
use ltc_timecode::timecode::{FrameRate, Timecode};
use ltc_timecode::turns::{Ask, Effect, Turn};
use ltc_timecode::wav::WavInfo;

/// A rate given with up to three decimals.
fn rate(fps: f64) -> FrameRate {
    FrameRate { num: (fps * 1000.0).round() as u32, den: 1000 }
}

/// A rate as a number.
fn fps(rate: FrameRate) -> f64 {
    rate.num as f64 / rate.den as f64
}

fn options() -> Vec<FpsOption> {
    [("24", 24.0, false), ("25", 25.0, false), ("29.97", 29.97, false), ("29.97 DF", 29.97, true), ("30", 30.0, false)]
        .iter()
        .map(|(name, fps, drop_frame)| FpsOption {
            name: name.to_string(),
            fps: rate(*fps),
            drop_frame: *drop_frame,
        })
        .collect()
}

fn setup_state() -> AppState {
    AppState::initial()
}

fn setup_engine() -> Engine {
    Engine::new(false, options())
}

fn stamp() -> Stamp {
    Stamp {
        now: "12:00:00".to_string(),
        timecode: "01:02:03:04".to_string(),
        milliseconds: "3723160".to_string(),
    }
}

fn process_command(cmd: GuiCommand, engine: &mut Engine) -> Turn {
    engine.process_command(cmd, stamp())
}

// ── stepper_hour ──────────────────────────────────────────────────────

#[test]
fn test_stepper_hour_up() {
    let mut state = setup_state();
    state.transport.start_timecode.hours = 0;
    stepper_hour(&mut state.transport, 1);
    assert_eq!(state.transport.start_timecode.hours, 1);
}

#[test]
fn test_stepper_hour_down() {
    let mut state = setup_state();
    state.transport.start_timecode.hours = 5;
    stepper_hour(&mut state.transport, -1);
    assert_eq!(state.transport.start_timecode.hours, 4);
}

#[test]
fn test_stepper_hour_wrap_forward() {
    let mut state = setup_state();
    state.transport.start_timecode.hours = 23;
    stepper_hour(&mut state.transport, 1);
    assert_eq!(state.transport.start_timecode.hours, 0);
}

#[test]
fn test_stepper_hour_wrap_backward() {
    let mut state = setup_state();
    state.transport.start_timecode.hours = 0;
    stepper_hour(&mut state.transport, -1);
    assert_eq!(state.transport.start_timecode.hours, 23);
}

#[test]
fn test_stepper_hour_multiple_steps() {
    let mut state = setup_state();
    state.transport.start_timecode.hours = 22;
    stepper_hour(&mut state.transport, 5);
    assert_eq!(state.transport.start_timecode.hours, 3);
}

#[test]
fn test_stepper_hour_other_fields_unchanged() {
    let mut state = setup_state();
    state.transport.start_timecode = Timecode { hours: 5, minutes: 30, seconds: 15, frames: 10 };
    stepper_hour(&mut state.transport, 1);
    assert_eq!(state.transport.start_timecode.minutes, 30);
    assert_eq!(state.transport.start_timecode.seconds, 15);
    assert_eq!(state.transport.start_timecode.frames, 10);
}

// ── stepper_minute ────────────────────────────────────────────────────

#[test]
fn test_stepper_minute_up() {
    let mut state = setup_state();
    state.transport.start_timecode.minutes = 0;
    stepper_minute(&mut state.transport, 1);
    assert_eq!(state.transport.start_timecode.minutes, 1);
}

#[test]
fn test_stepper_minute_down() {
    let mut state = setup_state();
    state.transport.start_timecode.minutes = 30;
    stepper_minute(&mut state.transport, -1);
    assert_eq!(state.transport.start_timecode.minutes, 29);
}

#[test]
fn test_stepper_minute_wrap_forward() {
    let mut state = setup_state();
    state.transport.start_timecode.minutes = 59;
    stepper_minute(&mut state.transport, 1);
    assert_eq!(state.transport.start_timecode.minutes, 0);
}

#[test]
fn test_stepper_minute_wrap_backward() {
    let mut state = setup_state();
    state.transport.start_timecode.minutes = 0;
    stepper_minute(&mut state.transport, -1);
    assert_eq!(state.transport.start_timecode.minutes, 59);
}

#[test]
fn test_stepper_minute_large_delta() {
    let mut state = setup_state();
    state.transport.start_timecode.minutes = 5;
    stepper_minute(&mut state.transport, 100);
    assert_eq!(state.transport.start_timecode.minutes, 45);
}

// ── stepper_second ────────────────────────────────────────────────────

#[test]
fn test_stepper_second_up() {
    let mut state = setup_state();
    state.transport.start_timecode.seconds = 0;
    stepper_second(&mut state.transport, 1);
    assert_eq!(state.transport.start_timecode.seconds, 1);
}

#[test]
fn test_stepper_second_wrap_forward() {
    let mut state = setup_state();
    state.transport.start_timecode.seconds = 59;
    stepper_second(&mut state.transport, 1);
    assert_eq!(state.transport.start_timecode.seconds, 0);
}

#[test]
fn test_stepper_second_wrap_backward() {
    let mut state = setup_state();
    state.transport.start_timecode.seconds = 0;
    stepper_second(&mut state.transport, -1);
    assert_eq!(state.transport.start_timecode.seconds, 59);
}

#[test]
fn test_stepper_second_down() {
    let mut state = setup_state();
    state.transport.start_timecode.seconds = 30;
    stepper_second(&mut state.transport, -5);
    assert_eq!(state.transport.start_timecode.seconds, 25);
}

// ── stepper_frame ─────────────────────────────────────────────────────

#[test]
fn test_stepper_frame_up() {
    let mut state = setup_state();
    state.transport.fps = rate(25.0);
    state.transport.start_timecode.frames = 0;
    stepper_frame(&mut state.transport, 1);
    assert_eq!(state.transport.start_timecode.frames, 1);
}

#[test]
fn test_stepper_frame_wrap_forward_25fps() {
    let mut state = setup_state();
    state.transport.fps = rate(25.0);
    state.transport.start_timecode.frames = 24;
    stepper_frame(&mut state.transport, 1);
    assert_eq!(state.transport.start_timecode.frames, 0);
}

#[test]
fn test_stepper_frame_wrap_forward_30fps() {
    let mut state = setup_state();
    state.transport.fps = rate(30.0);
    state.transport.start_timecode.frames = 29;
    stepper_frame(&mut state.transport, 1);
    assert_eq!(state.transport.start_timecode.frames, 0);
}

#[test]
fn test_stepper_frame_wrap_forward_24fps() {
    let mut state = setup_state();
    state.transport.fps = rate(24.0);
    state.transport.start_timecode.frames = 23;
    stepper_frame(&mut state.transport, 1);
    assert_eq!(state.transport.start_timecode.frames, 0);
}

#[test]
fn test_stepper_frame_down() {
    let mut state = setup_state();
    state.transport.fps = rate(25.0);
    state.transport.start_timecode.frames = 15;
    stepper_frame(&mut state.transport, -1);
    assert_eq!(state.transport.start_timecode.frames, 14);
}

#[test]
fn test_stepper_frame_wrap_backward_25fps() {
    let mut state = setup_state();
    state.transport.fps = rate(25.0);
    state.transport.start_timecode.frames = 0;
    stepper_frame(&mut state.transport, -1);
    assert_eq!(state.transport.start_timecode.frames, 24);
}

#[test]
fn test_stepper_frame_wrap_backward_30fps() {
    let mut state = setup_state();
    state.transport.fps = rate(30.0);
    state.transport.start_timecode.frames = 0;
    stepper_frame(&mut state.transport, -1);
    assert_eq!(state.transport.start_timecode.frames, 29);
}

#[test]
fn test_stepper_frame_fps_changes_max() {
    let mut state = setup_state();
    state.transport.fps = rate(25.0);
    state.transport.start_timecode.frames = 24;
    stepper_frame(&mut state.transport, 1);
    assert_eq!(state.transport.start_timecode.frames, 0, "25fps: 24→0");

    state.transport.fps = rate(30.0);
    state.transport.start_timecode.frames = 29;
    stepper_frame(&mut state.transport, 1);
    assert_eq!(state.transport.start_timecode.frames, 0, "30fps: 29→0");

    state.transport.fps = rate(24.0);
    state.transport.start_timecode.frames = 23;
    stepper_frame(&mut state.transport, 1);
    assert_eq!(state.transport.start_timecode.frames, 0, "24fps: 23→0");
}

#[test]
fn test_stepper_frame_large_delta() {
    let mut state = setup_state();
    state.transport.fps = rate(25.0);
    state.transport.start_timecode.frames = 5;
    stepper_frame(&mut state.transport, 50);
    assert_eq!(state.transport.start_timecode.frames, 5);
}

// ── ProcessCommand: basic command effects on state ────────────────────

#[test]
fn test_process_command_toggle_lock() {
    let mut engine = setup_engine();

    // ToggleLock on: false → true
    process_command(GuiCommand::ToggleLock, &mut engine);
    assert!(engine.state.transport.is_locked);
}

#[test]
fn test_process_command_toggle_lock_twice() {
    let mut engine = setup_engine();

    process_command(GuiCommand::ToggleLock, &mut engine);
    process_command(GuiCommand::ToggleLock, &mut engine);
    assert!(!engine.state.transport.is_locked);
}

#[test]
fn test_process_command_set_fps_index_valid() {
    let mut engine = setup_engine();

    process_command(GuiCommand::SetFpsIndex(4), &mut engine);
    assert_eq!(engine.state.transport.fps_index, 4);
    assert_eq!(fps(engine.state.transport.fps), 30.0);
    assert!(!engine.state.transport.drop_frame);
}

#[test]
fn test_process_command_set_fps_index_drop_frame() {
    let mut engine = setup_engine();

    process_command(GuiCommand::SetFpsIndex(3), &mut engine);
    assert_eq!(engine.state.transport.fps_index, 3);
    assert!((fps(engine.state.transport.fps) - 29.97).abs() < 0.01);
    assert!(engine.state.transport.drop_frame);
}

#[test]
fn test_process_command_set_fps_index_out_of_range() {
    let mut engine = setup_engine();

    process_command(GuiCommand::SetFpsIndex(99), &mut engine);
    assert_eq!(engine.state.transport.fps_index, 1);
    assert_eq!(fps(engine.state.transport.fps), 25.0);
}

#[test]
fn test_process_command_set_theme() {
    let mut engine = setup_engine();

    process_command(GuiCommand::SetTheme(true), &mut engine);
    assert!(engine.state.notices.is_dark_theme);

    process_command(GuiCommand::SetTheme(false), &mut engine);
    assert!(!engine.state.notices.is_dark_theme);
}

#[test]
fn test_process_command_toggle_theme() {
    let mut engine = setup_engine();

    process_command(GuiCommand::ToggleTheme, &mut engine);
    assert!(engine.state.notices.is_dark_theme, "toggle from initial false → true");

    process_command(GuiCommand::ToggleTheme, &mut engine);
    assert!(!engine.state.notices.is_dark_theme, "toggle again true → false");
}

#[test]
fn test_process_command_clear_logs() {
    let mut engine = setup_engine();
    engine.state.clapper.logs.push(ClapLogItem {
        id: "1".into(), timestamp: "12:00:00".into(),
        timecode: "01:00:00:00".into(), milliseconds: "0".into(), note: "test".into(),
    });
    engine.state.clapper.logs.push(ClapLogItem {
        id: "2".into(), timestamp: "12:00:01".into(),
        timecode: "01:00:00:01".into(), milliseconds: "0".into(), note: "test2".into(),
    });

    process_command(GuiCommand::ClearLogs, &mut engine);
    assert!(engine.state.clapper.logs.is_empty());
}

#[test]
fn test_process_command_set_ltc_channel() {
    let mut engine = setup_engine();

    process_command(GuiCommand::SetLtcChannel("both".into()), &mut engine);
    assert_eq!(engine.state.sound.ltc_channel, "both");
}

#[test]
fn test_process_command_set_beep_volume() {
    let mut engine = setup_engine();

    process_command(GuiCommand::SetBeepVolume(0.75f32.to_bits()), &mut engine);
    assert!((f32::from_bits(engine.state.sound.beep_volume) - 0.75).abs() < 1e-6);
}

#[test]
fn test_process_command_set_start_timecode() {
    let mut engine = setup_engine();
    let tc = Timecode { hours: 10, minutes: 20, seconds: 30, frames: 15 };

    process_command(GuiCommand::SetStartTimecode(tc), &mut engine);
    assert_eq!(engine.state.transport.start_timecode, tc);
}

#[test]
fn test_process_command_set_scene_take_roll() {
    let mut engine = setup_engine();

    process_command(GuiCommand::SetScene(42), &mut engine);
    assert_eq!(engine.state.clapper.scene, 42);

    process_command(GuiCommand::SetTake(7), &mut engine);
    assert_eq!(engine.state.clapper.take, 7);

    process_command(GuiCommand::SetRoll("B002".into()), &mut engine);
    assert_eq!(engine.state.clapper.roll, "B002");
}

#[test]
fn test_process_command_scene_up_down() {
    let mut engine = setup_engine();

    engine.state.clapper.scene = 5;
    process_command(GuiCommand::SceneUp, &mut engine);
    assert_eq!(engine.state.clapper.scene, 6);

    process_command(GuiCommand::SceneDown, &mut engine);
    assert_eq!(engine.state.clapper.scene, 5);
}

#[test]
fn test_process_command_take_up_down() {
    let mut engine = setup_engine();

    engine.state.clapper.take = 3;
    process_command(GuiCommand::TakeUp, &mut engine);
    assert_eq!(engine.state.clapper.take, 4);

    process_command(GuiCommand::TakeDown, &mut engine);
    assert_eq!(engine.state.clapper.take, 3);
}

#[test]
fn test_process_command_scene_down_at_zero() {
    let mut engine = setup_engine();

    engine.state.clapper.scene = 0;
    process_command(GuiCommand::SceneDown, &mut engine);
    assert_eq!(engine.state.clapper.scene, 0, "scene should not go below 0");
}

#[test]
fn test_process_command_take_down_at_zero() {
    let mut engine = setup_engine();

    engine.state.clapper.take = 0;
    process_command(GuiCommand::TakeDown, &mut engine);
    assert_eq!(engine.state.clapper.take, 0, "take should not go below 0");
}

#[test]
fn test_process_command_set_sample_rate() {
    let mut engine = setup_engine();

    process_command(GuiCommand::SetSampleRate(48000), &mut engine);
    assert_eq!(engine.state.audio.sample_rate, 48000);
}

#[test]
fn test_process_command_set_auto_increment() {
    let mut engine = setup_engine();

    process_command(GuiCommand::SetAutoIncrement(false), &mut engine);
    assert!(!engine.state.clapper.auto_increment_take);

    process_command(GuiCommand::SetAutoIncrement(true), &mut engine);
    assert!(engine.state.clapper.auto_increment_take);
}

#[test]
fn test_process_command_set_decode_fps_index() {
    let mut engine = setup_engine();

    process_command(GuiCommand::SetDecodeFpsIndex(4), &mut engine);
    assert_eq!(engine.state.decode.decode_fps_index, 4);
    assert_eq!(fps(engine.state.decode.decode_fps), 30.0);
    assert!(!engine.state.decode.decode_drop_frame);
}

#[test]
fn test_process_command_set_decode_fps_index_drop_frame() {
    let mut engine = setup_engine();

    process_command(GuiCommand::SetDecodeFpsIndex(3), &mut engine);
    assert!((fps(engine.state.decode.decode_fps) - 29.97).abs() < 0.01);
    assert!(engine.state.decode.decode_drop_frame);
}

#[test]
fn test_process_command_set_decode_fps_index_out_of_range() {
    let mut engine = setup_engine();

    process_command(GuiCommand::SetDecodeFpsIndex(99), &mut engine);
    // Should not change since index is out of range
    assert_eq!(engine.state.decode.decode_fps_index, 1);
}

#[test]
fn test_drain_ffmpeg_probe_receives_result_and_clears_no_disconnect() {
    let caps = FfmpegCapabilities {
        has_ffmpeg: true,
        available_encoders: Vec::new(),
        available_formats: Vec::new(),
        hw: HwDeviceCapabilities::default(),
        error_message: None,
    };
    let mut state = AppState::initial();
    state.files.ffmpeg_probe_running = true;

    let unexpected = drain_ffmpeg_probe_result(ProbeInbox::Received(caps), &mut state.files);

    assert!(!unexpected, "should NOT report disconnect when result was received");
    assert!(state.files.ffmpeg_caps.is_some(), "caps should be stored");
    assert!(!state.files.ffmpeg_probe_running, "probe flag should be cleared");
}

#[test]
fn test_drain_ffmpeg_probe_disconnect_without_result_still_warns() {
    let mut state = AppState::initial();
    state.files.ffmpeg_probe_running = true;

    let unexpected = drain_ffmpeg_probe_result(ProbeInbox::Disconnected, &mut state.files);

    assert!(unexpected, "should report disconnect when thread died without sending");
    assert!(state.files.ffmpeg_caps.is_none(), "caps should NOT be stored");
    assert!(!state.files.ffmpeg_probe_running, "probe flag should be cleared");
}

#[test]
fn test_drain_ffmpeg_probe_empty_noop_when_not_running() {
    let mut state = AppState::initial();
    state.files.ffmpeg_probe_running = false;

    let unexpected = drain_ffmpeg_probe_result(ProbeInbox::Empty, &mut state.files);

    assert!(!unexpected);
    assert!(state.files.ffmpeg_caps.is_none());
}

// ── Audio output ──────────────────────────────────────────────────────

fn device(id: &str) -> AudioDeviceInfo {
    AudioDeviceInfo {
        id: id.to_string(),
        name: id.to_string(),
        is_default: false,
        formats: Vec::new(),
        channels_min: 1,
        channels_max: 2,
        sample_rate_min: 44100,
        sample_rate_max: 96000,
        buffer_min: 64,
        buffer_max: 4096,
    }
}

fn asked_device(turn: &Turn) -> Option<String> {
    match &turn.ask {
        Some(Ask::InitOutput { device_id, .. }) => Some(device_id.clone()),
        _ => None,
    }
}

#[test]
fn starting_asks_for_the_output_and_then_plays() {
    let mut engine = setup_engine();
    engine.state.transport.start_timecode = Timecode { hours: 10, minutes: 0, seconds: 0, frames: 0 };
    let turn = process_command(GuiCommand::StartLtc, &mut engine);
    assert!(turn.effects.is_empty());
    assert_eq!(asked_device(&turn), Some(String::new()));

    let turn = engine.init_answered(Ok((44100, "F32".to_string())));
    assert_eq!(engine.state.audio.sample_rate, 44100);
    assert_eq!(engine.state.audio.sample_format_name, "F32");
    assert!(matches!(turn.ask, Some(Ask::StartLtc { .. })));

    let turn = engine.start_answered(Ok(()));
    assert!(turn.ask.is_none());
    assert!(engine.state.transport.is_playing);
    assert_eq!(engine.state.notices.status_message, "Streaming LTC");
    assert_eq!(engine.state.transport.current_timecode.hours, 10);
}

#[test]
fn the_output_is_asked_for_three_times() {
    let mut engine = setup_engine();
    process_command(GuiCommand::StartLtc, &mut engine);
    let turn = engine.init_answered(Err(("busy".to_string(), false)));
    assert!(matches!(turn.effects[0], Effect::Sleep { millis: 50 }));
    assert!(turn.ask.is_some());
    let turn = engine.init_answered(Err(("busy".to_string(), false)));
    assert!(matches!(turn.effects[0], Effect::Sleep { millis: 100 }));
    assert!(turn.ask.is_some());
    let turn = engine.init_answered(Err(("busy".to_string(), false)));
    assert!(turn.ask.is_none());
    assert_eq!(engine.state.notices.status_message, "Cannot start — audio not initialized");
    assert!(matches!(&engine.state.notices.events[0], AudioEvent::StreamError(e) if e == "busy"));
}

#[test]
fn a_lasting_error_is_not_tried_again() {
    let mut engine = setup_engine();
    process_command(GuiCommand::InitAudio, &mut engine);
    let turn = engine.init_answered(Err(("no such device".to_string(), true)));
    assert!(turn.ask.is_none());
    assert_eq!(engine.state.notices.status_message, "Audio init failed: no such device");
}

#[test]
fn a_start_that_fails_is_told() {
    let mut engine = setup_engine();
    process_command(GuiCommand::StartLtc, &mut engine);
    engine.init_answered(Ok((48000, "F32".to_string())));
    engine.start_answered(Err("no stream".to_string()));
    assert!(!engine.state.transport.is_playing);
    assert_eq!(engine.state.notices.status_message, "Start failed: no stream");
}

#[test]
fn a_device_that_fails_gives_way_to_the_one_before() {
    let mut engine = setup_engine();
    engine.state.audio.devices = vec![device("a"), device("b")];
    engine.state.transport.is_playing = true;
    let turn = process_command(GuiCommand::SetDevice(1), &mut engine);
    assert!(matches!(turn.effects[0], Effect::StopLtc));
    assert!(matches!(turn.effects[1], Effect::StopOutput));
    assert_eq!(asked_device(&turn), Some("b".to_string()));
    assert!(!engine.state.transport.is_playing);

    let turn = engine.init_answered(Err(("busy".to_string(), false)));
    assert_eq!(asked_device(&turn), Some("a".to_string()));
    let turn = engine.init_answered(Ok((48000, "I16".to_string())));
    assert!(turn.ask.is_none());
    assert_eq!(engine.state.audio.selected_device, 0);
    assert_eq!(engine.state.notices.status_message, "Device selection reverted to previous");
    assert_eq!(engine.last_device_id.as_deref(), Some("a"));
}

#[test]
fn a_device_beyond_the_list_is_not_tried() {
    let mut engine = setup_engine();
    engine.state.audio.devices = vec![device("a")];
    let turn = process_command(GuiCommand::SetDevice(7), &mut engine);
    assert_eq!(asked_device(&turn), Some("a".to_string()));
    assert_eq!(engine.state.audio.selected_device, 0);
}

#[test]
fn listing_devices_keeps_the_choice_in_range() {
    let mut engine = setup_engine();
    engine.state.audio.selected_device = 4;
    let turn = process_command(GuiCommand::RefreshDevices, &mut engine);
    assert!(matches!(turn.ask, Some(Ask::ListDevices)));
    engine.devices_answered(Ok(vec![device("a"), device("b")]));
    assert_eq!(engine.state.audio.selected_device, 0);
    assert_eq!(engine.state.notices.status_message, "2 devices found");

    process_command(GuiCommand::RefreshDevices, &mut engine);
    engine.devices_answered(Err("no host".to_string()));
    assert_eq!(engine.state.notices.status_message, "Device scan failed: no host");
}

#[test]
fn a_stream_that_dies_is_revived_where_it_was() {
    let mut engine = setup_engine();
    engine.state.transport.is_playing = true;
    engine.state.transport.current_timecode = Timecode { hours: 1, minutes: 2, seconds: 3, frames: 4 };
    let turn = engine.handle_event(AudioEvent::StreamDied);
    assert_eq!(engine.state.notices.status_message, "Recovery attempt 1/3");
    assert!(matches!(turn.effects[2], Effect::Sleep { millis: 150 }));
    assert!(asked_device(&turn).is_some());
    let turn = engine.init_answered(Ok((48000, "F32".to_string())));
    assert!(matches!(turn.effects[0], Effect::ResetLtc(tc) if tc.frames == 4));
    engine.start_answered(Ok(()));
    assert!(engine.state.transport.is_playing);
    assert_eq!(engine.state.transport.current_timecode.seconds, 3);
    assert_eq!(engine.recovery_attempts, 0);
    assert!(matches!(engine.state.notices.events[0], AudioEvent::StreamDied));
}

#[test]
fn recovery_ends_after_three_attempts() {
    let mut engine = setup_engine();
    engine.state.transport.is_playing = true;
    for n in 1..=3 {
        engine.handle_event(AudioEvent::RecoveryNeeded { reason: "gone".to_string() });
        assert_eq!(engine.state.notices.status_message, format!("Recovery attempt {}/3", n));
        engine.init_answered(Err(("lost".to_string(), true)));
        engine.state.transport.is_playing = true;
    }
    let turn = engine.handle_event(AudioEvent::StreamDied);
    assert!(turn.ask.is_none());
    assert!(!engine.state.transport.is_playing);
    assert_eq!(engine.state.notices.status_message, "Recovery exhausted");
}

#[test]
fn a_dead_stream_is_always_reset() {
    let mut engine = setup_engine();
    engine.recovery_attempts = 3;
    let turn = engine.handle_event(AudioEvent::StreamDead);
    assert!(turn.ask.is_some());
    assert_eq!(engine.state.notices.status_message, "Stream dead — performing hard reset");
}

#[test]
fn other_events_are_only_kept() {
    let mut engine = setup_engine();
    let turn = engine.handle_event(AudioEvent::Underrun);
    assert!(turn.effects.is_empty() && turn.ask.is_none());
    engine.handle_event(AudioEvent::FramesDropped { total: 7 });
    assert_eq!(engine.state.notices.events.len(), 2);
}

// ── Clapping ──────────────────────────────────────────────────────────

#[test]
fn a_clap_is_logged() {
    let mut engine = setup_engine();
    engine.state.clapper.scene = 12;
    engine.state.clapper.take = 3;
    let turn = process_command(GuiCommand::Clap, &mut engine);
    assert!(matches!(&turn.effects[0], Effect::PlayBeep { channel, .. } if channel == "right"));
    assert!(matches!(turn.effects[1], Effect::StartClapAnimation));
    assert_eq!(
        engine.state.clapper.logs,
        vec![ClapLogItem {
            id: "1".to_string(),
            timestamp: "12:00:00".to_string(),
            timecode: "01:02:03:04".to_string(),
            milliseconds: "3723160".to_string(),
            note: "Scene 12".to_string(),
        }]
    );
    assert_eq!(engine.state.clapper.take, 4);
    assert_eq!(engine.state.notices.status_message, "Clap!");
}

#[test]
fn the_clap_log_keeps_a_thousand_lines() {
    let mut engine = setup_engine();
    for _ in 0..1005 {
        process_command(GuiCommand::Clap, &mut engine);
    }
    assert_eq!(engine.state.clapper.logs.len(), 1000);
    assert_eq!(engine.state.clapper.logs[0].id, "6");
    assert_eq!(engine.state.clapper.logs[999].id, "1005");
}

// ── Decoding ──────────────────────────────────────────────────────────

fn probe() -> VideoAudioProbe {
    VideoAudioProbe {
        streams: vec![
            AudioStreamInfo { stream_index: 1, channels: 2, codec_name: "aac".to_string(), sample_rate: 48000 },
            AudioStreamInfo { stream_index: 3, channels: 1, codec_name: "aac".to_string(), sample_rate: 48000 },
        ],
        total_audio_channels: 3,
        is_video_file: true,
    }
}

fn report() -> LtcDetectionResult {
    LtcDetectionResult {
        status: LtcDecodeStatus::Success,
        detected_fps: rate(29.97),
        drop_frame: true,
        total_possible_frames: 8,
        valid_frames: 7,
        timecodes: Vec::new(),
        avg_confidence: Share { num: 7, den: 8 },
        details: Vec::new(),
        total_samples: 0,
        sample_rate: 48000,
        first_ltc_nanos: 0,
    }
}

#[test]
fn a_probed_video_is_shown() {
    let mut engine = setup_engine();
    let turn = process_command(GuiCommand::ProbeVideo("/in/a.mp4".to_string()), &mut engine);
    assert!(matches!(&turn.ask, Some(Ask::ProbeVideo(p)) if p == "/in/a.mp4"));
    engine.probe_answered(Ok(probe()));
    assert!(engine.state.decode.ltc_decode_is_video);
    assert_eq!(
        engine.state.notices.status_message,
        "Video probed: 2 audio stream(s), 3 total channel(s)"
    );

    process_command(GuiCommand::ProbeVideo("/in/b.mp4".to_string()), &mut engine);
    engine.probe_answered(Err("no such file".to_string()));
    assert!(engine.state.decode.ltc_probe.is_none());
    assert_eq!(engine.state.decode.ltc_decode_error.as_deref(), Some("no such file"));
    assert_eq!(engine.state.notices.status_message, "Video probe failed: no such file");
}

#[test]
fn a_channel_the_video_does_not_have_is_refused() {
    let mut engine = setup_engine();
    engine.state.decode.ltc_probe = Some(probe());
    let turn = process_command(GuiCommand::ParseLtcVideo("/in/a.mp4".to_string(), 2, 0), &mut engine);
    assert!(turn.effects.is_empty());
    let error = "Stream 2 not found in '/in/a.mp4' (available audio streams: [1, 3])";
    assert_eq!(engine.state.decode.ltc_decode_error.as_deref(), Some(error));
    assert_eq!(engine.state.notices.status_message, format!("Parse failed: {}", error));
    assert!(!engine.state.decode.ltc_is_detecting);

    process_command(GuiCommand::ParseLtcVideo("/in/a.mp4".to_string(), 3, 1), &mut engine);
    assert_eq!(
        engine.state.decode.ltc_decode_error.as_deref(),
        Some("Channel 1 out of range for stream 3 in '/in/a.mp4' (1 channels available)")
    );

    let turn = process_command(GuiCommand::ParseLtcVideo("/in/a.mp4".to_string(), 1, 1), &mut engine);
    assert!(matches!(turn.effects[0], Effect::DecodeVideo { stream: 1, channel: 1, generation: 3, .. }));
    assert_eq!(
        engine.state.notices.status_message,
        "Extracting audio from: /in/a.mp4 stream=1 ch=1"
    );
}

fn wav(bytes: u64) -> WavChunkReader {
    let info = WavInfo {
        channels: 1,
        sample_rate: 48000,
        bits_per_sample: 16,
        is_float: false,
        duration: 0,
        data_offset: 44,
    };
    WavChunkReader::from_info(info, 44 + bytes)
}

#[test]
fn a_wav_file_is_decoded_in_chunks() {
    let mut engine = setup_engine();
    let turn = process_command(GuiCommand::ParseLtcWavFile("/in/a.wav".to_string()), &mut engine);
    assert!(matches!(&turn.ask, Some(Ask::OpenWav(p)) if p == "/in/a.wav"));
    // Chunks of 25 million samples that overlap by 96000.
    let turn = engine.wav_answered(Ok(wav(120_000_000)));
    assert!(matches!(turn.effects[0], Effect::DecodeWav { chunks: 3, generation: 1, .. }));
    assert_eq!(
        engine.state.notices.status_message,
        "Decoding LTC from: /in/a.wav [builtin] at 25.00 fps (3 chunks)"
    );
    engine.poll_progress(2);
    assert_eq!(engine.state.decode.ltc_decode_progress, Share { num: 2, den: 3 });
    assert_eq!(engine.state.decode.ltc_decode_progress_str, "Chunk 2/3");
    let turn = process_command(GuiCommand::CancelDecode, &mut engine);
    assert!(matches!(turn.effects[0], Effect::CancelDecode));
    engine.decode_ended(1, Err("Decode canceled by user".to_string()));
    assert_eq!(engine.state.notices.status_message, "Decode canceled");
    assert!(engine.state.decode.ltc_decode_error.is_none());
    assert!(process_command(GuiCommand::CancelDecode, &mut engine).effects.is_empty());
}

#[test]
fn a_short_wav_file_is_one_chunk() {
    let mut engine = setup_engine();
    process_command(GuiCommand::ParseLtcWavFile("/in/a.wav".to_string()), &mut engine);
    let turn = engine.wav_answered(Ok(wav(50_100_000)));
    assert!(matches!(turn.effects[0], Effect::DecodeWav { chunks: 1, .. }));
}

#[test]
fn a_wav_file_that_cannot_be_opened_is_told() {
    let mut engine = setup_engine();
    process_command(GuiCommand::ParseLtcWavFile("/in/a.wav".to_string()), &mut engine);
    let turn = engine.wav_answered(Err("no header".to_string()));
    assert!(turn.effects.is_empty());
    assert_eq!(engine.state.notices.status_message, "Parse failed: no header");
    assert_eq!(engine.state.decode.ltc_decode_generation, 0);
}

#[test]
fn only_the_last_decode_is_heard() {
    let mut engine = setup_engine();
    process_command(GuiCommand::ParseLtcVideo("/in/a.mp4".to_string(), 0, 0), &mut engine);
    process_command(GuiCommand::ParseLtcVideo("/in/b.mp4".to_string(), 0, 0), &mut engine);
    engine.decode_ended(1, Ok(report()));
    assert!(engine.state.decode.ltc_is_detecting);
    assert!(engine.state.decode.ltc_decode_result.is_none());
    engine.decode_ended(2, Ok(report()));
    assert!(!engine.state.decode.ltc_is_detecting);
    assert_eq!(
        engine.state.notices.status_message,
        "LTC decode: 7 frames (confidence 87.5%, 29.97 fps DF)"
    );
    engine.poll_progress(0);
    assert_eq!(engine.state.decode.ltc_decode_progress, Share { num: 0, den: 1 });
}

#[test]
fn a_decode_that_fails_is_told() {
    let mut engine = setup_engine();
    process_command(GuiCommand::ParseLtcVideo("/in/a.mp4".to_string(), 0, 0), &mut engine);
    engine.decode_ended(1, Err("no samples".to_string()));
    assert_eq!(engine.state.notices.status_message, "Parse failed: no samples");
    assert_eq!(engine.state.decode.ltc_decode_error.as_deref(), Some("no samples"));
}

#[test]
fn groups_and_durations_are_collected() {
    let mut engine = setup_engine();
    let paths = vec!["/in/a.mp4".to_string()];
    let turn = process_command(
        GuiCommand::DecodeLtcVideoGroup { paths: paths.clone(), stream_index: 1, channel_index: 0 },
        &mut engine,
    );
    assert!(matches!(&turn.effects[0], Effect::DecodeGroup { paths, stream: 1, channel: 0, .. } if paths.len() == 1));
    engine.clip_decoded(ClipResult { path: paths[0].clone(), report: None, error: Some("x".to_string()) });
    assert_eq!(engine.state.decode.ltc_group_results.len(), 1);
    process_command(GuiCommand::ClearLtcGroupResults, &mut engine);
    assert!(engine.state.decode.ltc_group_results.is_empty());

    let turn = process_command(GuiCommand::ProbeFileDurations(paths.clone()), &mut engine);
    assert!(matches!(&turn.effects[0], Effect::ProbeDurations(p) if p == &paths));
    engine.duration_probed(FileDuration { path: paths[0].clone(), nanos: Some(2_000_000_000) });
    assert_eq!(engine.state.files.file_durations[0].nanos, Some(2_000_000_000));
}

#[test]
fn ticks_show_time_and_timecode() {
    let mut engine = setup_engine();
    let tc = Timecode { hours: 1, minutes: 0, seconds: 0, frames: 0 };
    engine.poll_timecode(tc);
    assert_eq!(engine.state.transport.current_timecode.hours, 0);
    engine.state.transport.is_playing = true;
    engine.poll_timecode(tc);
    assert_eq!(engine.state.transport.current_timecode.hours, 1);
    engine.publish("12:00:01".to_string());
    assert_eq!(engine.state.notices.generation, 1);
    assert_eq!(engine.state.notices.system_time, "12:00:01");
}

#[test]
fn stopping_and_resetting() {
    let mut engine = setup_engine();
    engine.state.transport.is_playing = true;
    let turn = process_command(GuiCommand::StopLtc, &mut engine);
    assert!(matches!(turn.effects[0], Effect::StopLtc));
    assert!(!engine.state.transport.is_playing);
    assert_eq!(engine.state.notices.status_message, "Stopped");
    engine.state.transport.start_timecode.hours = 9;
    process_command(GuiCommand::Reset, &mut engine);
    assert_eq!(engine.state.transport.current_timecode.hours, 9);
    assert_eq!(engine.state.notices.status_message, "Reset");
    let turn = process_command(GuiCommand::Shutdown, &mut engine);
    assert_eq!(turn.effects.len(), 2);
}
