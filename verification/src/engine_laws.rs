//! What the engine promises of sessions: what a command changes and what it leaves, what
//! is played, on which device, and what is decoded.

use vstd::prelude::*;

use crate::command::GuiCommand;
use crate::engine::{event_told, init_told, start_told, EngineModel};
use crate::engine_commands::{commanded, devices_told, Stamp};
use crate::engine_decode::{decode_told, probe_told, progress_told, wav_told};
use crate::ffprobe::VideoAudioProbe;
use crate::ltc_chunks::WavChunkReader;
use crate::ltc_decoder::LtcDetectionResult;
use crate::messages::find_stream;
use crate::state::{AudioDeviceInfo, AudioEvent, StateModel, Transport};
use crate::text_laws::{law_decimal_spells, spells_number};
use crate::timecode::Timecode;
use crate::turns::{Ask, Effect};

verus! {

// ── Playing ────────────────────────────────────────────────────────────────

/// Starting where the output runs asks for LTC from the start timecode at the rate, on
/// the channel and at the volume that are set; once it plays, the engine is playing at
/// that timecode.
pub proof fn law_start_plays(e: EngineModel, stamp: Stamp)
    requires
        e.state.audio.audio_initialized,
    ensures
        ({
            let asked = commanded(e, GuiCommand::StartLtc, stamp);
            let played = start_told(asked.engine, Ok(()));
            let t = played.engine.state.transport;
            &&& asked.ask == Some(
                Ask::StartLtc {
                    timecode: e.state.transport.start_timecode,
                    fps: e.state.transport.fps,
                    drop_frame: e.state.transport.drop_frame,
                    channel: e.state.sound.ltc_channel@,
                    volume: e.state.sound.ltc_volume,
                },
            )
            &&& asked.engine.state == e.state
            &&& t.is_playing
            &&& t.current_timecode == e.state.transport.start_timecode
            &&& t.start_timecode == e.state.transport.start_timecode
            &&& t.fps == e.state.transport.fps
            &&& played.engine.pending is Idle
            &&& played.engine.state.audio == e.state.audio
            &&& played.engine.state.sound == e.state.sound
        }),
{
}

/// A start that fails leaves the transport as it was.
pub proof fn law_failed_start(e: EngineModel, stamp: Stamp, error: String)
    requires
        e.state.audio.audio_initialized,
    ensures
        ({
            let told = start_told(commanded(e, GuiCommand::StartLtc, stamp).engine, Err(error));
            &&& told.engine.state.transport == e.state.transport
            &&& told.engine.state.notices.status_message == "Start failed: "@ + error@
            &&& told.engine.pending is Idle
        }),
{
}

/// Starting where the output does not run asks for it first: on the selected device, or
/// the first where none is selected, at the rate that is set. Once it runs, at the rate
/// that the device tells, LTC is asked for.
pub proof fn law_start_opens_the_output(e: EngineModel, stamp: Stamp, rate: u32, format: String)
    requires
        !e.state.audio.audio_initialized,
        e.state.audio.devices@.len() > 0,
    ensures
        ({
            let devices = e.state.audio.devices@;
            let index: usize = if e.state.audio.selected_device < devices.len() {
                e.state.audio.selected_device
            } else {
                0
            };
            let asked = commanded(e, GuiCommand::StartLtc, stamp);
            let told = init_told(asked.engine, Ok((rate, format)));
            &&& asked.ask matches Some(Ask::InitOutput { device_id, sample_rate, .. }) && device_id
                == devices[index as int].id@ && sample_rate == e.state.audio.sample_rate
            &&& asked.engine.state.audio.selected_device == index
            &&& told.engine.state.audio.audio_initialized
            &&& told.engine.state.audio.sample_rate == rate
            &&& told.engine.state.audio.sample_format_name == format
            &&& told.engine.state.audio.selected_device == index
            &&& told.engine.last_device_id == Some(devices[index as int].id@)
            &&& told.ask matches Some(Ask::StartLtc { timecode, .. }) && timecode
                == e.state.transport.start_timecode
        }),
{
}

/// Stopping ends playing and nothing else; the timecodes stay.
pub proof fn law_stop(e: EngineModel, stamp: Stamp)
    ensures
        ({
            let o = commanded(e, GuiCommand::StopLtc, stamp);
            let t = o.engine.state.transport;
            &&& o.effects == seq![Effect::<Seq<char>>::StopLtc]
            &&& o.ask is None
            &&& !t.is_playing
            &&& !t.wake_lock_active
            &&& t.current_timecode == e.state.transport.current_timecode
            &&& t.start_timecode == e.state.transport.start_timecode
            &&& o.engine.state.audio == e.state.audio
            &&& o.engine.state.clapper == e.state.clapper
        }),
{
}

/// A reset puts the timecode back to the start, there and in the output.
pub proof fn law_reset(e: EngineModel, stamp: Stamp)
    ensures
        ({
            let o = commanded(e, GuiCommand::Reset, stamp);
            let t = o.engine.state.transport;
            &&& o.effects == seq![
                Effect::<Seq<char>>::ResetLtc(e.state.transport.start_timecode),
            ]
            &&& t.current_timecode == e.state.transport.start_timecode
            &&& t.start_timecode == e.state.transport.start_timecode
            &&& t.is_playing == e.state.transport.is_playing
            &&& commanded(o.engine, GuiCommand::Reset, stamp).engine == o.engine
        }),
{
}

// ── Devices ────────────────────────────────────────────────────────────────

/// Choosing a device stops what plays and the output, and asks for the output on that
/// device. Where it cannot be had, the device that was selected before is asked for, and
/// where that runs it is selected again.
pub proof fn law_device_is_chosen(
    e: EngineModel,
    stamp: Stamp,
    index: usize,
    error: (String, bool),
    rate: u32,
    format: String,
)
    requires
        index < e.state.audio.devices@.len(),
        e.state.audio.selected_device < e.state.audio.devices@.len(),
    ensures
        ({
            let devices = e.state.audio.devices@;
            let o = commanded(e, GuiCommand::SetDevice(index), stamp);
            let works = init_told(o.engine, Ok((rate, format)));
            let fails = init_told(o.engine, Err(error));
            let back = init_told(fails.engine, Ok((rate, format)));
            &&& o.effects.last() == Effect::<Seq<char>>::StopOutput
            &&& e.state.transport.is_playing ==> o.effects[0] == Effect::<Seq<char>>::StopLtc
            &&& !o.engine.state.transport.is_playing
            &&& !o.engine.state.audio.audio_initialized
            &&& o.ask matches Some(Ask::InitOutput { device_id, sample_rate, .. }) && device_id
                == devices[index as int].id@ && sample_rate == e.state.audio.sample_rate
            &&& works.engine.state.audio.selected_device == index
            &&& works.engine.state.audio.audio_initialized
            &&& works.engine.state.audio.sample_rate == rate
            &&& works.ask is None
            &&& fails.ask matches Some(Ask::InitOutput { device_id, .. }) && device_id
                == devices[e.state.audio.selected_device as int].id@
            &&& back.engine.state.audio.selected_device == e.state.audio.selected_device
            &&& back.engine.state.audio.audio_initialized
            &&& back.engine.state.notices.status_message
                == "Device selection reverted to previous"@
            &&& init_told(fails.engine, Err(error)).ask is None
        }),
{
}

/// The devices that were found are listed; the selection stays where there is one, and
/// is the first device where there is none.
pub proof fn law_devices_are_listed(e: EngineModel, stamp: Stamp, devices: Vec<AudioDeviceInfo>)
    ensures
        ({
            let asked = commanded(e, GuiCommand::RefreshDevices, stamp);
            let told = devices_told(asked.engine, Ok(devices)).engine.state.audio;
            let n = devices@.len();
            &&& asked.ask == Some(Ask::<Seq<char>>::ListDevices)
            &&& told.devices == devices
            &&& e.state.audio.selected_device < n ==> told.selected_device
                == e.state.audio.selected_device
            &&& e.state.audio.selected_device >= n ==> told.selected_device == 0
            &&& told.audio_initialized == e.state.audio.audio_initialized
        }),
{
}

/// A stream that died is opened again: the output is stopped and asked for anew, and
/// the try is counted; a stream that runs sets the count back.
pub proof fn law_recovery_is_counted(e: EngineModel, rate: u32, format: String)
    requires
        e.recovery_attempts < 3,
        e.state.audio.devices@.len() > 0,
    ensures
        ({
            let o = event_told(e, AudioEvent::StreamDied);
            &&& o.engine.recovery_attempts == e.recovery_attempts + 1
            &&& o.effects.len() == 3
            &&& o.effects[0] == Effect::<Seq<char>>::StopLtc
            &&& o.effects[1] == Effect::<Seq<char>>::StopOutput
            &&& o.ask is Some && o.ask->0 is InitOutput
            &&& !o.engine.state.transport.is_playing
            &&& init_told(o.engine, Ok((rate, format))).engine.recovery_attempts == 0
        }),
{
}

// ── Settings ───────────────────────────────────────────────────────────────

/// Nothing but the sound settings differs.
pub open spec fn only_sound(a: EngineModel, b: EngineModel) -> bool {
    b == (EngineModel { state: StateModel { sound: b.state.sound, ..a.state }, ..a })
}

/// Every sound setting is set to what is asked, and no other changes.
pub proof fn law_sound_is_set(e: EngineModel, stamp: Stamp, cmd: GuiCommand)
    requires
        cmd is SetLtcChannel || cmd is SetBeepChannel || cmd is SetLtcVolume || cmd is SetBeepVolume
            || cmd is SetBeepFrequency || cmd is SetBeepDuration,
    ensures
        ({
            let o = commanded(e, cmd, stamp);
            let a = e.state.sound;
            let b = o.engine.state.sound;
            &&& o.effects.len() == 0 && o.ask is None
            &&& only_sound(e, o.engine)
            &&& b.ltc_channel == (if let GuiCommand::SetLtcChannel(c) = cmd {
                c
            } else {
                a.ltc_channel
            })
            &&& b.beep_channel == (if let GuiCommand::SetBeepChannel(c) = cmd {
                c
            } else {
                a.beep_channel
            })
            &&& b.ltc_volume == (if let GuiCommand::SetLtcVolume(v) = cmd {
                v
            } else {
                a.ltc_volume
            })
            &&& b.beep_volume == (if let GuiCommand::SetBeepVolume(v) = cmd {
                v
            } else {
                a.beep_volume
            })
            &&& b.beep_frequency == (if let GuiCommand::SetBeepFrequency(v) = cmd {
                v
            } else {
                a.beep_frequency
            })
            &&& b.beep_duration == (if let GuiCommand::SetBeepDuration(v) = cmd {
                v
            } else {
                a.beep_duration
            })
        }),
{
}

/// Nothing but the start timecode differs.
pub open spec fn only_start(a: EngineModel, b: EngineModel) -> bool {
    b == (EngineModel {
        state: StateModel {
            transport: Transport {
                start_timecode: b.state.transport.start_timecode,
                ..a.state.transport
            },
            ..a.state
        },
        ..a
    })
}

/// `b` is the number after `a`, of those below `count`, round and round.
pub open spec fn comes_next(a: u32, b: u32, count: int) -> bool {
    if a == count - 1 {
        b == 0
    } else {
        b == a + 1
    }
}

/// The start timecode is stepped field by field, each round its own range, which for
/// frames is that of the nearest whole rate; a step down undoes a step up.
pub proof fn law_start_is_stepped(e: EngineModel, stamp: Stamp, frames: int)
    requires
        e.state.transport.start_timecode.hours < 24,
        e.state.transport.start_timecode.minutes < 60,
        e.state.transport.start_timecode.seconds < 60,
        e.state.transport.start_timecode.frames < frames <= i32::MAX,
        e.state.transport.fps.valid(),
        1 <= frames,
        2 * frames * e.state.transport.fps.den <= 2 * e.state.transport.fps.num
            + e.state.transport.fps.den < 2 * (frames + 1) * e.state.transport.fps.den,
    ensures
        ({
            let a = e.state.transport.start_timecode;
            let h = commanded(e, GuiCommand::HourUp, stamp).engine;
            let m = commanded(e, GuiCommand::MinuteUp, stamp).engine;
            let s = commanded(e, GuiCommand::SecondUp, stamp).engine;
            let f = commanded(e, GuiCommand::FrameUp, stamp).engine;
            let h2 = commanded(e, GuiCommand::HourDown, stamp).engine;
            let m2 = commanded(e, GuiCommand::MinuteDown, stamp).engine;
            let s2 = commanded(e, GuiCommand::SecondDown, stamp).engine;
            let f2 = commanded(e, GuiCommand::FrameDown, stamp).engine;
            &&& only_start(e, h) && only_start(e, m) && only_start(e, s) && only_start(e, f)
            &&& only_start(e, h2) && only_start(e, m2) && only_start(e, s2) && only_start(e, f2)
            &&& steps_hour(a, h.state.transport.start_timecode)
            &&& steps_minute(a, m.state.transport.start_timecode)
            &&& steps_second(a, s.state.transport.start_timecode)
            &&& steps_frame(a, f.state.transport.start_timecode, frames)
            &&& steps_hour(h2.state.transport.start_timecode, a)
            &&& steps_minute(m2.state.transport.start_timecode, a)
            &&& steps_second(s2.state.transport.start_timecode, a)
            &&& steps_frame(f2.state.transport.start_timecode, a, frames)
        }),
{
    let a = e.state.transport.start_timecode;
    let fps = e.state.transport.fps;
    assert(crate::steppers::frames_in_second(fps) == frames) by {
        let x = 2 * fps.num + fps.den;
        let d = 2 * fps.den as int;
        assert(frames * d <= x < (frames + 1) * d) by (nonlinear_arith)
            requires
                2 * frames * fps.den <= x < 2 * (frames + 1) * fps.den,
                d == 2 * fps.den as int,
        ;
        assert(0 <= x - frames * d < d) by (nonlinear_arith)
            requires
                frames * d <= x < (frames + 1) * d,
        ;
        vstd::arithmetic::div_mod::lemma_fundamental_div_mod_converse(
            x,
            d,
            frames,
            x - frames * d,
        );
    }
    lemma_step(a.hours, 24);
    lemma_step(a.minutes, 60);
    lemma_step(a.seconds, 60);
    lemma_step(a.frames, frames as nat);
}

proof fn lemma_step(n: u32, count: nat)
    requires
        n < count <= i32::MAX,
    ensures
        comes_next(n, crate::steppers::stepped(n, 1, count), count as int),
        comes_next(crate::steppers::stepped(n, -1i32, count), n, count as int),
{
    let c = count as int;
    if n + 1 == c {
        vstd::arithmetic::div_mod::lemma_mod_self_0(c);
    } else {
        vstd::arithmetic::div_mod::lemma_small_mod((n + 1) as nat, count);
    }
    if n == 0 {
        vstd::arithmetic::div_mod::lemma_fundamental_div_mod_converse(-1, c, -1, c - 1);
    } else {
        vstd::arithmetic::div_mod::lemma_small_mod((n - 1) as nat, count);
    }
}

/// `b` is `a` an hour on, within the day.
pub open spec fn steps_hour(a: Timecode, b: Timecode) -> bool {
    comes_next(a.hours, b.hours, 24) && b.minutes == a.minutes && b.seconds == a.seconds && b.frames
        == a.frames
}

/// `b` is `a` a minute on, within the hour.
pub open spec fn steps_minute(a: Timecode, b: Timecode) -> bool {
    comes_next(a.minutes, b.minutes, 60) && b.hours == a.hours && b.seconds == a.seconds && b.frames
        == a.frames
}

/// `b` is `a` a second on, within the minute.
pub open spec fn steps_second(a: Timecode, b: Timecode) -> bool {
    comes_next(a.seconds, b.seconds, 60) && b.hours == a.hours && b.minutes == a.minutes && b.frames
        == a.frames
}

/// `b` is `a` a frame on, within the second.
pub open spec fn steps_frame(a: Timecode, b: Timecode, frames: int) -> bool {
    comes_next(a.frames, b.frames, frames) && b.hours == a.hours && b.minutes == a.minutes
        && b.seconds == a.seconds
}

/// Rates are chosen from the list of options, for playing and for decoding alike; a
/// number beyond the list changes nothing.
pub proof fn law_rate_is_chosen(e: EngineModel, stamp: Stamp, i: usize)
    ensures
        ({
            let t = commanded(e, GuiCommand::SetFpsIndex(i), stamp).engine;
            let d = commanded(e, GuiCommand::SetDecodeFpsIndex(i), stamp).engine;
            &&& i >= e.fps_options.len() ==> t == e && d == e
            &&& i < e.fps_options.len() ==> {
                &&& t.state.transport.fps_index == i
                &&& t.state.transport.fps == e.fps_options[i as int].fps
                &&& t.state.transport.drop_frame == e.fps_options[i as int].drop_frame
                &&& t.state.transport.start_timecode == e.state.transport.start_timecode
                &&& t.state.decode == e.state.decode
                &&& d.state.decode.decode_fps_index == i
                &&& d.state.decode.decode_fps == e.fps_options[i as int].fps
                &&& d.state.decode.decode_drop_frame == e.fps_options[i as int].drop_frame
                &&& d.state.transport == e.state.transport
            }
        }),
{
}

// ── The clapperboard ───────────────────────────────────────────────────────

/// A clap sounds the beep as it is set and logs the time, timecode and scene under the
/// next number; the take is counted up where that is wanted, and only then.
pub proof fn law_clap(e: EngineModel, stamp: Stamp)
    requires
        e.log_id_counter < u64::MAX,
    ensures
        ({
            let o = commanded(e, GuiCommand::Clap, stamp);
            let before = e.state.clapper;
            let after = o.engine.state.clapper;
            let line = after.logs.last();
            &&& o.effects.len() == 2
            &&& o.effects[0] matches Effect::PlayBeep {
                sample_rate,
                frequency,
                duration,
                volume,
                channel,
            } && sample_rate == e.state.audio.sample_rate && frequency
                == e.state.sound.beep_frequency && duration == e.state.sound.beep_duration
                && volume == e.state.sound.beep_volume && channel == e.state.sound.beep_channel@
            &&& o.effects[1] is StartClapAnimation
            &&& after.logs.len() > 0
            &&& line.timestamp == stamp.now@
            &&& line.timecode == stamp.timecode@
            &&& line.milliseconds == stamp.milliseconds@
            &&& spells_number(line.id, e.log_id_counter + 1)
            &&& o.engine.log_id_counter == e.log_id_counter + 1
            &&& exists|n: Seq<char>| #[trigger]
                spells_number(n, before.scene as int) && line.note == "Scene "@ + n
            &&& after.scene == before.scene
            &&& after.take == if before.auto_increment_take && before.take < u32::MAX {
                before.take + 1
            } else {
                before.take as int
            }
            &&& o.engine.state.transport == e.state.transport
        }),
{
    law_decimal_spells((e.log_id_counter + 1) as nat);
    law_decimal_spells(e.state.clapper.scene as nat);
    let n = crate::text::decimal(e.state.clapper.scene as nat);
    assert(spells_number(n, e.state.clapper.scene as int));
    let o = commanded(e, GuiCommand::Clap, stamp);
    let line = o.engine.state.clapper.logs.last();
    assert(line.note == "Scene "@ + n);
}

/// Nothing but the clapperboard differs.
pub open spec fn only_clapper(a: EngineModel, b: EngineModel) -> bool {
    b == (EngineModel { state: StateModel { clapper: b.state.clapper, ..a.state }, ..a })
}

/// The fields of the clapperboard are set and counted one by one; no count leaves its
/// range, and clearing the log clears nothing else.
pub proof fn law_clapperboard_is_set(e: EngineModel, stamp: Stamp, n: u32, roll: String, auto: bool)
    ensures
        ({
            let c = e.state.clapper;
            let scene = commanded(e, GuiCommand::SetScene(n), stamp).engine;
            let take = commanded(e, GuiCommand::SetTake(n), stamp).engine;
            let rolled = commanded(e, GuiCommand::SetRoll(roll), stamp).engine;
            let counting = commanded(e, GuiCommand::SetAutoIncrement(auto), stamp).engine;
            let cleared = commanded(e, GuiCommand::ClearLogs, stamp).engine;
            let s1 = commanded(e, GuiCommand::SceneUp, stamp).engine;
            let s2 = commanded(e, GuiCommand::SceneDown, stamp).engine;
            let t1 = commanded(e, GuiCommand::TakeUp, stamp).engine;
            let t2 = commanded(e, GuiCommand::TakeDown, stamp).engine;
            &&& only_clapper(e, scene) && only_clapper(e, take) && only_clapper(e, rolled)
            &&& only_clapper(e, counting) && only_clapper(e, cleared)
            &&& only_clapper(e, s1) && only_clapper(e, s2) && only_clapper(e, t1) && only_clapper(
                e,
                t2,
            )
            &&& scene.state.clapper.scene == n && scene.state.clapper.take == c.take
            &&& take.state.clapper.take == n && take.state.clapper.scene == c.scene
            &&& rolled.state.clapper.roll == roll@ && rolled.state.clapper.scene == c.scene
            &&& counting.state.clapper.auto_increment_take == auto
            &&& cleared.state.clapper.logs.len() == 0 && cleared.state.clapper.take == c.take
            &&& c.scene < u32::MAX ==> s1.state.clapper.scene == c.scene + 1
            &&& c.scene > 0 ==> s2.state.clapper.scene == c.scene - 1
            &&& c.scene == 0 ==> s2.state.clapper.scene == 0
            &&& c.take < u32::MAX ==> t1.state.clapper.take == c.take + 1
            &&& c.take > 0 ==> t2.state.clapper.take == c.take - 1
            &&& c.take == 0 ==> t2.state.clapper.take == 0
            &&& s1.state.clapper.take == c.take && t1.state.clapper.scene == c.scene
            &&& s1.state.clapper.logs == c.logs && t1.state.clapper.logs == c.logs
        }),
{
}

/// A sample rate, a theme and a start timecode are taken as they are given, and nothing
/// else changes with them.
pub proof fn law_plain_settings(e: EngineModel, stamp: Stamp, rate: u32, dark: bool, tc: Timecode)
    ensures
        ({
            let r = commanded(e, GuiCommand::SetSampleRate(rate), stamp);
            let d = commanded(e, GuiCommand::SetTheme(dark), stamp);
            let t = commanded(e, GuiCommand::SetStartTimecode(tc), stamp);
            &&& r.engine.state.audio.sample_rate == rate
            &&& r.engine.state.audio.selected_device == e.state.audio.selected_device
            &&& r.engine.state.audio.audio_initialized == e.state.audio.audio_initialized
            &&& r.engine.state.transport == e.state.transport
            &&& d.engine.state.notices.is_dark_theme == dark
            &&& d.engine.state.notices.status_message == e.state.notices.status_message
            &&& d.engine.state.transport == e.state.transport
            &&& only_start(e, t.engine)
            &&& t.engine.state.transport.start_timecode == tc
            &&& r.ask is None && d.ask is None && t.ask is None
            &&& r.effects.len() == 0 && d.effects.len() == 0 && t.effects.len() == 0
        }),
{
}

/// A group of videos is decoded from the stream and channel that are asked for, at the
/// rate that is set; durations are asked for; the decode under way is called off where
/// that is possible; and a shutdown stops what plays and the output.
pub proof fn law_requests_are_passed_on(
    e: EngineModel,
    stamp: Stamp,
    paths: Vec<String>,
    stream_index: usize,
    channel_index: usize,
)
    ensures
        ({
            let g = commanded(
                e,
                GuiCommand::DecodeLtcVideoGroup { paths, stream_index, channel_index },
                stamp,
            );
            let d = commanded(e, GuiCommand::ProbeFileDurations(paths), stamp);
            let c = commanded(e, GuiCommand::CancelDecode, stamp);
            let s = commanded(e, GuiCommand::Shutdown, stamp);
            &&& g.engine == e && d.engine == e && c.engine == e && s.engine == e
            &&& g.effects.len() == 1
            &&& g.effects[0] matches Effect::DecodeGroup {
                paths: p,
                stream,
                channel,
                use_libltc,
                fps,
                drop_frame,
            } && p == paths && stream == stream_index && channel == channel_index && use_libltc
                == e.state.decode.use_libltc && fps == e.state.decode.decode_fps && drop_frame
                == e.state.decode.decode_drop_frame
            &&& d.effects == seq![Effect::<Seq<char>>::ProbeDurations(paths)]
            &&& e.cancellable ==> c.effects == seq![Effect::<Seq<char>>::CancelDecode]
            &&& !e.cancellable ==> c.effects.len() == 0
            &&& s.effects == seq![Effect::<Seq<char>>::StopLtc, Effect::<Seq<char>>::StopOutput]
        }),
{
}

// ── Decoding ───────────────────────────────────────────────────────────────

/// A video that was not probed is decoded from the stream and channel that are asked
/// for, at the rate that is set for decoding, under a new number; the result before it
/// is forgotten.
pub proof fn law_video_is_decoded(e: EngineModel, stamp: Stamp, path: String, stream: usize, channel: usize)
    requires
        e.state.decode.ltc_probe is None,
        e.state.decode.ltc_decode_generation < u64::MAX,
    ensures
        ({
            let o = commanded(e, GuiCommand::ParseLtcVideo(path, stream, channel), stamp);
            let d = o.engine.state.decode;
            &&& o.effects == seq![
                Effect::DecodeVideo {
                    path: path@,
                    stream,
                    channel,
                    generation: (e.state.decode.ltc_decode_generation + 1) as u64,
                    use_libltc: e.state.decode.use_libltc,
                    fps: e.state.decode.decode_fps,
                    drop_frame: e.state.decode.decode_drop_frame,
                },
            ]
            &&& d.ltc_is_detecting
            &&& d.ltc_decode_result is None && d.ltc_decode_error is None
            &&& d.ltc_decode_generation == e.state.decode.ltc_decode_generation + 1
        }),
{
}

/// The first audio stream of that number.
pub open spec fn is_stream(probe: VideoAudioProbe, stream: usize, i: int) -> bool {
    &&& 0 <= i < probe.streams@.len()
    &&& probe.streams@[i].stream_index == stream
    &&& forall|j: int| 0 <= j < i ==> (#[trigger] probe.streams@[j]).stream_index != stream
}

/// A video that was probed is decoded where it has the stream and the channel that are
/// asked for, and refused with an error where it has not.
pub proof fn law_selection_is_checked(
    e: EngineModel,
    stamp: Stamp,
    path: String,
    stream: usize,
    channel: usize,
    probe: VideoAudioProbe,
)
    requires
        e.state.decode.ltc_probe == Some(probe),
    ensures
        ({
            let o = commanded(e, GuiCommand::ParseLtcVideo(path, stream, channel), stamp);
            let fits = exists|i: int| #[trigger]
                is_stream(probe, stream, i) && channel < probe.streams@[i].channels;
            &&& fits ==> o.effects.len() == 1 && o.effects[0] is DecodeVideo
                && o.engine.state.decode.ltc_is_detecting
                && o.engine.state.decode.ltc_decode_error is None
            &&& !fits ==> o.effects.len() == 0 && !o.engine.state.decode.ltc_is_detecting
                && o.engine.state.decode.ltc_decode_error is Some
        }),
{
    lemma_find_stream(probe, stream, 0);
    if exists|i: int| #[trigger]
        is_stream(probe, stream, i) && channel < probe.streams@[i].channels {
        let i = choose|i: int| #[trigger]
            is_stream(probe, stream, i) && channel < probe.streams@[i].channels;
        let j = find_stream(probe, stream, 0)->0;
        if i < j {
            assert(probe.streams@[i].stream_index != stream);
        } else if j < i {
            assert(probe.streams@[j].stream_index != stream);
        }
    }
}

proof fn lemma_find_stream(probe: VideoAudioProbe, stream: usize, from: int)
    requires
        0 <= from <= probe.streams@.len(),
        forall|j: int| 0 <= j < from ==> (#[trigger] probe.streams@[j]).stream_index != stream,
    ensures
        match find_stream(probe, stream, from) {
            Some(i) => is_stream(probe, stream, i),
            None => forall|i: int| !#[trigger] is_stream(probe, stream, i),
        },
    decreases probe.streams@.len() - from,
{
    if from < probe.streams@.len() && probe.streams@[from].stream_index != stream {
        lemma_find_stream(probe, stream, from + 1);
    }
}

/// The result of the decode under way is kept and ends it: a report, or the error, and
/// neither where it was called off.
pub proof fn law_result_is_kept(e: EngineModel, result: LtcDetectionResult, error: String)
    ensures
        ({
            let g = e.state.decode.ltc_decode_generation;
            let good = decode_told(e, g, Ok(result));
            let bad = decode_told(e, g, Err(error));
            &&& good.state.decode.ltc_decode_result == Some(result)
            &&& good.state.decode.ltc_decode_error is None
            &&& !good.state.decode.ltc_is_detecting && !bad.state.decode.ltc_is_detecting
            &&& bad.state.decode.ltc_decode_result is None
            &&& error@ != crate::engine::CANCELED@ ==> bad.state.decode.ltc_decode_error
                == Some(error@)
            &&& error@ == crate::engine::CANCELED@ ==> bad.state.decode.ltc_decode_error is None
            &&& good.state.decode.ltc_decode_progress.num
                == good.state.decode.ltc_decode_progress.den
            &&& !good.cancellable && !bad.cancellable
            &&& good.state.transport == e.state.transport
        }),
{
}

/// The progress of a decode is the share of its chunks that are done.
pub proof fn law_decode_progress(e: EngineModel, done: usize, total: usize)
    requires
        e.state.decode.ltc_is_detecting,
        e.decode_chunks == Some(total),
        total > 0,
    ensures
        ({
            let p = progress_told(e, done).state.decode.ltc_decode_progress;
            p.num * total == done * p.den && p.den > 0
        }),
{
    assert(done as u64 * total == done * total as u64) by (nonlinear_arith);
}

/// What a probe tells of a video is kept, and its first channel is selected; without an
/// answer there is none.
pub proof fn law_probe_is_kept(e: EngineModel, stamp: Stamp, path: String, probe: VideoAudioProbe, error: String)
    ensures
        ({
            let asked = commanded(e, GuiCommand::ProbeVideo(path), stamp);
            let good = probe_told(asked.engine, Ok(probe)).engine.state.decode;
            let bad = probe_told(asked.engine, Err(error)).engine.state.decode;
            &&& asked.ask == Some(Ask::ProbeVideo(path@))
            &&& good.ltc_probe == Some(probe)
            &&& good.ltc_selected_stream == 0 && good.ltc_selected_channel == 0
            &&& good.ltc_decode_is_video
            &&& bad.ltc_probe is None && !bad.ltc_decode_is_video && bad.ltc_decode_error == Some(
                error@,
            )
        }),
{
}

/// A WAV file is opened and then decoded under a new number, in chunks that are counted;
/// it can be called off.
pub proof fn law_wav_is_decoded(e: EngineModel, stamp: Stamp, path: String, reader: WavChunkReader)
    requires
        e.state.decode.ltc_decode_generation < u64::MAX,
    ensures
        ({
            let asked = commanded(e, GuiCommand::ParseLtcWavFile(path), stamp);
            let o = wav_told(asked.engine, Ok(reader));
            &&& asked.ask == Some(Ask::OpenWav(path@))
            &&& o.engine.cancellable
            &&& o.engine.state.decode.ltc_is_detecting
            &&& o.effects.len() == 1
            &&& o.effects[0] matches Effect::DecodeWav {
                path: p,
                generation,
                chunks,
                use_libltc,
                fps,
                drop_frame,
            } && p == path@ && generation == e.state.decode.ltc_decode_generation + 1 && generation
                == o.engine.state.decode.ltc_decode_generation && o.engine.decode_chunks == Some(
                chunks,
            ) && use_libltc == e.state.decode.use_libltc && fps == e.state.decode.decode_fps
                && drop_frame == e.state.decode.decode_drop_frame
        }),
{
}

} // verus!
