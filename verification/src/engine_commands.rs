//! What the engine does on a command of the user.

use vstd::prelude::*;

use crate::command::GuiCommand;
use crate::engine::{
    device_set, event_told, idle, init_told, init_wanted, options_valid, outcome, quiet, said,
    start_told, with_audio, with_notices, with_transport, Engine, EngineModel, Outcome,
    MAX_CLAP_LOGS, MAX_INIT_ATTEMPTS, MAX_RECOVERY_ATTEMPTS,
};
use crate::engine_decode::video_requested;
use crate::state::{
    initial_state, log_lines, AppState, AudioDeviceInfo, AudioEvent, AudioState, ClapLogItem,
    Clapper, ClapperModel, DecodeModel, DecodeState, FileModel, FpsOption, LogLine, NoticesModel,
    SoundSettings, StateModel, Transport,
};
use crate::steppers::{
    frame_stepped, hour_stepped, minute_stepped, second_stepped, stepper_frame, stepper_hour,
    stepper_minute, stepper_second,
};
use crate::text::{concat2, decimal, push_decimal};
use crate::timecode::Timecode;
use crate::turns::{
    effect_models, turn_ask, turn_first, turn_quiet, After, Ask, Effect, Pending, Turn,
};

verus! {

/// The text of the clock and of the timecode at a moment.
#[derive(Clone, Debug)]
pub struct Stamp {
    pub now: String,
    pub timecode: String,
    pub milliseconds: String,
}

/// The engine with another clapperboard.
pub open spec fn with_clapper(e: EngineModel, clapper: ClapperModel) -> EngineModel {
    EngineModel { state: StateModel { clapper, ..e.state }, ..e }
}

// ── Settings ───────────────────────────────────────────────────────────────

/// How timecode and beep sound after a command.
pub open spec fn sound_set(s: SoundSettings, cmd: GuiCommand) -> SoundSettings {
    match cmd {
        GuiCommand::SetLtcChannel(c) => SoundSettings { ltc_channel: c, ..s },
        GuiCommand::SetBeepChannel(c) => SoundSettings { beep_channel: c, ..s },
        GuiCommand::SetLtcVolume(v) => SoundSettings { ltc_volume: v, ..s },
        GuiCommand::SetBeepVolume(v) => SoundSettings { beep_volume: v, ..s },
        GuiCommand::SetBeepFrequency(f) => SoundSettings { beep_frequency: f, ..s },
        GuiCommand::SetBeepDuration(d) => SoundSettings { beep_duration: d, ..s },
        _ => s,
    }
}

/// The transport after a command. A frame rate that is not offered is not chosen.
pub open spec fn transport_set(t: Transport, cmd: GuiCommand, options: Seq<FpsOption>) -> Transport {
    match cmd {
        GuiCommand::ToggleLock => Transport { is_locked: !t.is_locked, ..t },
        GuiCommand::SetStartTimecode(tc) => Transport { start_timecode: tc, ..t },
        GuiCommand::SetFpsIndex(i) => if i < options.len() {
            Transport {
                fps_index: i,
                fps: options[i as int].fps,
                drop_frame: options[i as int].drop_frame,
                ..t
            }
        } else {
            t
        },
        GuiCommand::HourUp => hour_stepped(t, 1),
        GuiCommand::HourDown => hour_stepped(t, -1i32),
        GuiCommand::MinuteUp => minute_stepped(t, 1),
        GuiCommand::MinuteDown => minute_stepped(t, -1i32),
        GuiCommand::SecondUp => second_stepped(t, 1),
        GuiCommand::SecondDown => second_stepped(t, -1i32),
        GuiCommand::FrameUp => frame_stepped(t, 1),
        GuiCommand::FrameDown => frame_stepped(t, -1i32),
        _ => t,
    }
}

/// One more, as far as there is one.
pub open spec fn up(n: u32) -> u32 {
    if n == u32::MAX {
        n
    } else {
        (n + 1) as u32
    }
}

/// One less, as far as there is one.
pub open spec fn down(n: u32) -> u32 {
    if n == 0 {
        n
    } else {
        (n - 1) as u32
    }
}

/// The clapperboard after a command.
pub open spec fn clapper_set(c: ClapperModel, cmd: GuiCommand) -> ClapperModel {
    match cmd {
        GuiCommand::SetScene(n) => ClapperModel { scene: n, ..c },
        GuiCommand::SetTake(n) => ClapperModel { take: n, ..c },
        GuiCommand::SetRoll(r) => ClapperModel { roll: r@, ..c },
        GuiCommand::SetAutoIncrement(b) => ClapperModel { auto_increment_take: b, ..c },
        GuiCommand::ClearLogs => ClapperModel { logs: seq![], ..c },
        GuiCommand::SceneUp => ClapperModel { scene: up(c.scene), ..c },
        GuiCommand::SceneDown => ClapperModel { scene: down(c.scene), ..c },
        GuiCommand::TakeUp => ClapperModel { take: up(c.take), ..c },
        GuiCommand::TakeDown => ClapperModel { take: down(c.take), ..c },
        _ => c,
    }
}

/// How recordings are decoded after a command. A frame rate that is not offered is
/// not chosen.
pub open spec fn decode_set(d: DecodeModel, cmd: GuiCommand, options: Seq<FpsOption>) -> DecodeModel {
    match cmd {
        GuiCommand::SetDecodeFpsIndex(i) => if i < options.len() {
            DecodeModel {
                decode_fps_index: i,
                decode_fps: options[i as int].fps,
                decode_drop_frame: options[i as int].drop_frame,
                ..d
            }
        } else {
            d
        },
        GuiCommand::SetLtcDecodeStream(i) => DecodeModel { ltc_selected_stream: i, ..d },
        GuiCommand::SetLtcDecodeChannel(i) => DecodeModel { ltc_selected_channel: i, ..d },
        GuiCommand::ClearLtcGroupResults => DecodeModel { ltc_group_results: seq![], ..d },
        _ => d,
    }
}

/// The engine after a command that changes a setting.
pub open spec fn adjusted(e: EngineModel, cmd: GuiCommand) -> EngineModel {
    EngineModel {
        state: StateModel {
            sound: sound_set(e.state.sound, cmd),
            transport: transport_set(e.state.transport, cmd, e.fps_options),
            clapper: clapper_set(e.state.clapper, cmd),
            decode: decode_set(e.state.decode, cmd, e.fps_options),
            ..e.state
        },
        ..e
    }
}

fn count_up(n: u32) -> (r: u32)
    ensures
        r == up(n),
{
    if n == u32::MAX {
        n
    } else {
        n + 1
    }
}

fn count_down(n: u32) -> (r: u32)
    ensures
        r == down(n),
{
    if n == 0 {
        n
    } else {
        n - 1
    }
}

fn adjust_sound(s: &mut SoundSettings, cmd: GuiCommand)
    ensures
        *final(s) == sound_set(*old(s), cmd),
{
    match cmd {
        GuiCommand::SetLtcChannel(c) => {
            s.ltc_channel = c;
        },
        GuiCommand::SetBeepChannel(c) => {
            s.beep_channel = c;
        },
        GuiCommand::SetLtcVolume(v) => {
            s.ltc_volume = v;
        },
        GuiCommand::SetBeepVolume(v) => {
            s.beep_volume = v;
        },
        GuiCommand::SetBeepFrequency(f) => {
            s.beep_frequency = f;
        },
        GuiCommand::SetBeepDuration(d) => {
            s.beep_duration = d;
        },
        _ => {},
    }
}

fn adjust_transport(t: &mut Transport, cmd: &GuiCommand, options: &Vec<FpsOption>)
    requires
        old(t).fps.valid(),
        options_valid(options@),
    ensures
        *final(t) == transport_set(*old(t), *cmd, options@),
        final(t).fps.valid(),
{
    match cmd {
        GuiCommand::ToggleLock => {
            t.is_locked = !t.is_locked;
        },
        GuiCommand::SetStartTimecode(tc) => {
            t.start_timecode = *tc;
        },
        GuiCommand::SetFpsIndex(i) => {
            if *i < options.len() {
                t.fps_index = *i;
                t.fps = options[*i].fps;
                t.drop_frame = options[*i].drop_frame;
            }
        },
        GuiCommand::HourUp => stepper_hour(t, 1),
        GuiCommand::HourDown => stepper_hour(t, -1),
        GuiCommand::MinuteUp => stepper_minute(t, 1),
        GuiCommand::MinuteDown => stepper_minute(t, -1),
        GuiCommand::SecondUp => stepper_second(t, 1),
        GuiCommand::SecondDown => stepper_second(t, -1),
        GuiCommand::FrameUp => stepper_frame(t, 1),
        GuiCommand::FrameDown => stepper_frame(t, -1),
        _ => {},
    }
}

fn adjust_clapper(c: &mut Clapper, cmd: GuiCommand)
    ensures
        final(c)@ == clapper_set(old(c)@, cmd),
{
    match cmd {
        GuiCommand::SetScene(n) => {
            c.scene = n;
        },
        GuiCommand::SetTake(n) => {
            c.take = n;
        },
        GuiCommand::SetRoll(r) => {
            c.roll = r;
        },
        GuiCommand::SetAutoIncrement(b) => {
            c.auto_increment_take = b;
        },
        GuiCommand::ClearLogs => {
            c.logs = Vec::new();
            assert(log_lines(c.logs@) =~= seq![]);
        },
        GuiCommand::SceneUp => {
            c.scene = count_up(c.scene);
        },
        GuiCommand::SceneDown => {
            c.scene = count_down(c.scene);
        },
        GuiCommand::TakeUp => {
            c.take = count_up(c.take);
        },
        GuiCommand::TakeDown => {
            c.take = count_down(c.take);
        },
        _ => {},
    }
}

fn adjust_decode(d: &mut DecodeState, cmd: &GuiCommand, options: &Vec<FpsOption>)
    requires
        old(d).decode_fps.valid(),
        options_valid(options@),
    ensures
        final(d)@ == decode_set(old(d)@, *cmd, options@),
        final(d).decode_fps.valid(),
{
    match cmd {
        GuiCommand::SetDecodeFpsIndex(i) => {
            if *i < options.len() {
                d.decode_fps_index = *i;
                d.decode_fps = options[*i].fps;
                d.decode_drop_frame = options[*i].drop_frame;
            }
        },
        GuiCommand::SetLtcDecodeStream(i) => {
            d.ltc_selected_stream = *i;
        },
        GuiCommand::SetLtcDecodeChannel(i) => {
            d.ltc_selected_channel = *i;
        },
        GuiCommand::ClearLtcGroupResults => {
            d.ltc_group_results = Vec::new();
            assert(d.ltc_group_results@ =~= seq![]);
        },
        _ => {},
    }
}

impl Engine {
    fn adjust(&mut self, cmd: GuiCommand)
        requires
            old(self)@.valid(),
        ensures
            final(self)@ == adjusted(old(self)@, cmd),
            final(self)@.valid(),
    {
        adjust_transport(&mut self.state.transport, &cmd, &self.fps_options);
        adjust_decode(&mut self.state.decode, &cmd, &self.fps_options);
        if matches!(
            cmd,
            GuiCommand::SetLtcChannel(_) | GuiCommand::SetBeepChannel(_)
            | GuiCommand::SetLtcVolume(_) | GuiCommand::SetBeepVolume(_)
            | GuiCommand::SetBeepFrequency(_) | GuiCommand::SetBeepDuration(_)
        ) {
            adjust_sound(&mut self.state.sound, cmd);
        } else {
            adjust_clapper(&mut self.state.clapper, cmd);
        }
    }
}

// ── Commands ───────────────────────────────────────────────────────────────

/// The last lines of a log, as many as it keeps.
pub open spec fn last_lines(lines: Seq<LogLine>) -> Seq<LogLine> {
    if lines.len() > MAX_CLAP_LOGS {
        lines.skip(lines.len() - MAX_CLAP_LOGS)
    } else {
        lines
    }
}

/// The clapperboard is closed: a beep, a line in the log and, if so chosen, the next
/// take.
pub open spec fn clapped(e: EngineModel, stamp: Stamp) -> Outcome {
    let c = e.state.clapper;
    let id = (e.log_id_counter + 1) as u64;
    let line = LogLine {
        id: decimal(id as nat),
        timestamp: stamp.now@,
        timecode: stamp.timecode@,
        milliseconds: stamp.milliseconds@,
        note: "Scene "@ + decimal(c.scene as nat),
    };
    let clapper = ClapperModel {
        logs: last_lines(c.logs.push(line)),
        take: if c.auto_increment_take {
            up(c.take)
        } else {
            c.take
        },
        ..c
    };
    Outcome {
        engine: EngineModel { log_id_counter: id, ..said(with_clapper(e, clapper), "Clap!"@) },
        effects: seq![
            Effect::PlayBeep {
                sample_rate: e.state.audio.sample_rate,
                frequency: e.state.sound.beep_frequency,
                duration: e.state.sound.beep_duration,
                volume: e.state.sound.beep_volume,
                channel: e.state.sound.beep_channel@,
            },
            Effect::StartClapAnimation,
        ],
        ask: None,
    }
}

/// Playing is stopped.
pub open spec fn stopped(e: EngineModel) -> Outcome {
    let t = Transport { is_playing: false, wake_lock_active: false, ..e.state.transport };
    Outcome {
        engine: said(with_transport(e, t), "Stopped"@),
        effects: seq![Effect::StopLtc],
        ask: None,
    }
}

/// The timecode goes back to its start.
pub open spec fn reset(e: EngineModel) -> Outcome {
    let t = e.state.transport;
    Outcome {
        engine: said(
            with_transport(e, Transport { current_timecode: t.start_timecode, ..t }),
            "Reset"@,
        ),
        effects: seq![Effect::ResetLtc(t.start_timecode)],
        ask: None,
    }
}

/// A question that leaves the state as it is.
pub open spec fn asked(e: EngineModel, pending: Pending<Seq<char>>, ask: Ask<Seq<char>>) -> Outcome {
    Outcome { engine: EngineModel { pending, ..e }, effects: seq![], ask: Some(ask) }
}

/// Something to be done that leaves the state as it is.
pub open spec fn done(e: EngineModel, effect: Effect<Seq<char>>) -> Outcome {
    Outcome { engine: e, effects: seq![effect], ask: None }
}

/// The engine with another theme.
pub open spec fn themed(e: EngineModel, dark: bool) -> EngineModel {
    with_notices(e, NoticesModel { is_dark_theme: dark, ..e.state.notices })
}

/// What a command leads to.
pub open spec fn commanded(e: EngineModel, cmd: GuiCommand, stamp: Stamp) -> Outcome {
    match cmd {
        GuiCommand::StartLtc => init_wanted(e, After::Start),
        GuiCommand::InitAudio => init_wanted(e, After::Nothing),
        GuiCommand::StopLtc => stopped(e),
        GuiCommand::Reset => reset(e),
        GuiCommand::Clap => clapped(e, stamp),
        GuiCommand::SetSampleRate(rate) => quiet(
            with_audio(e, AudioState { sample_rate: rate, ..e.state.audio }),
        ),
        GuiCommand::SetDevice(index) => device_set(e, index),
        GuiCommand::RefreshDevices => asked(e, Pending::Devices, Ask::ListDevices),
        GuiCommand::SetTheme(dark) => quiet(themed(e, dark)),
        GuiCommand::ToggleTheme => quiet(themed(e, !e.state.notices.is_dark_theme)),
        GuiCommand::ProbeVideo(path) => asked(e, Pending::Probe, Ask::ProbeVideo(path@)),
        GuiCommand::ParseLtcVideo(path, stream, channel) => video_requested(
            e,
            path@,
            stream,
            channel,
        ),
        GuiCommand::ParseLtcWavFile(path) => asked(
            e,
            Pending::OpenWav(path@),
            Ask::OpenWav(path@),
        ),
        GuiCommand::DecodeLtcVideoGroup { paths, stream_index, channel_index } => done(
            e,
            Effect::DecodeGroup {
                paths,
                stream: stream_index,
                channel: channel_index,
                use_libltc: e.state.decode.use_libltc,
                fps: e.state.decode.decode_fps,
                drop_frame: e.state.decode.decode_drop_frame,
            },
        ),
        GuiCommand::ProbeFileDurations(paths) => done(e, Effect::ProbeDurations(paths)),
        GuiCommand::CancelDecode => if e.cancellable {
            done(e, Effect::CancelDecode)
        } else {
            quiet(e)
        },
        GuiCommand::Shutdown => Outcome {
            engine: e,
            effects: seq![Effect::StopLtc, Effect::StopOutput],
            ask: None,
        },
        _ => quiet(adjusted(e, cmd)),
    }
}

spec fn of_audio(cmd: GuiCommand) -> bool {
    cmd is StartLtc || cmd is InitAudio || cmd is SetDevice || cmd is StopLtc || cmd is Reset
        || cmd is SetSampleRate || cmd is RefreshDevices
}

fn is_of_audio(cmd: &GuiCommand) -> (r: bool)
    ensures
        r == of_audio(*cmd),
{
    matches!(
        cmd,
        GuiCommand::StartLtc | GuiCommand::InitAudio | GuiCommand::SetDevice(_)
        | GuiCommand::StopLtc | GuiCommand::Reset | GuiCommand::SetSampleRate(_)
        | GuiCommand::RefreshDevices
    )
}

spec fn of_decode(cmd: GuiCommand) -> bool {
    cmd is ProbeVideo || cmd is ParseLtcVideo || cmd is ParseLtcWavFile
        || cmd is DecodeLtcVideoGroup || cmd is ProbeFileDurations || cmd is CancelDecode
}

fn is_of_decode(cmd: &GuiCommand) -> (r: bool)
    ensures
        r == of_decode(*cmd),
{
    matches!(
        cmd,
        GuiCommand::ProbeVideo(_) | GuiCommand::ParseLtcVideo(_, _, _)
        | GuiCommand::ParseLtcWavFile(_) | GuiCommand::DecodeLtcVideoGroup { .. }
        | GuiCommand::ProbeFileDurations(_) | GuiCommand::CancelDecode
    )
}

fn drop_old_lines(logs: &mut Vec<ClapLogItem>)
    ensures
        log_lines(final(logs)@) == last_lines(log_lines(old(logs)@)),
{
    let ghost all = logs@;
    let n: usize = logs.len();
    assert(logs@ =~= all.skip(0));
    while logs.len() > MAX_CLAP_LOGS
        invariant
            n == all.len(),
            logs@.len() <= n,
            logs@ == all.skip(n - logs@.len()),
            logs@.len() >= MAX_CLAP_LOGS || logs@.len() == n,
        decreases logs@.len(),
    {
        let ghost before = logs@;
        let _oldest = logs.remove(0);
        assert(logs@ =~= before.skip(1));
        assert(logs@ =~= all.skip(n - logs@.len()));
    }
    assert(log_lines(logs@) =~= last_lines(log_lines(all)));
}

impl Engine {
    /// The engine at the start, with the search for what ffmpeg can do under way.
    pub fn new(use_libltc: bool, fps_options: Vec<FpsOption>) -> (r: Engine)
        requires
            options_valid(fps_options@),
        ensures
            r@.valid(),
            r.pending is Idle,
            r.fps_options == fps_options,
            r.recovery_attempts == 0,
            r.log_id_counter == 0,
            r.last_device_id is None,
            r.previous_device is None,
            !r.cancellable,
            r.decode_chunks is None,
            r.state.decode.use_libltc == use_libltc,
            r.state.files.ffmpeg_probe_running,
            exists|s: StateModel| #[trigger] initial_state(s) && r.state@ == (StateModel {
                decode: DecodeModel { use_libltc, ..s.decode },
                files: FileModel { ffmpeg_probe_running: true, ..s.files },
                ..s
            }),
    {
        let mut state = AppState::initial();
        let ghost s = state@;
        state.decode.use_libltc = use_libltc;
        state.files.ffmpeg_probe_running = true;
        assert(initial_state(s));
        Engine {
            state,
            fps_options,
            recovery_attempts: 0,
            log_id_counter: 0,
            last_device_id: None,
            previous_device: None,
            cancellable: false,
            decode_chunks: None,
            pending: Pending::Idle,
        }
    }

    fn clap(&mut self, stamp: Stamp) -> (t: Turn)
        requires
            old(self).log_id_counter < u64::MAX,
        ensures
            outcome(final(self)@, t) == clapped(old(self)@, stamp),
    {
        self.log_id_counter = self.log_id_counter + 1;
        let mut id: String = String::new();
        push_decimal(&mut id, self.log_id_counter);
        let mut note: String = "Scene ".to_owned();
        push_decimal(&mut note, self.state.clapper.scene as u64);
        let ghost lines = self.state.clapper.logs@;
        let item = ClapLogItem {
            id,
            timestamp: stamp.now,
            timecode: stamp.timecode,
            milliseconds: stamp.milliseconds,
            note,
        };
        self.state.clapper.logs.push(item);
        proof {
            assert(item.id@ =~= decimal(self.log_id_counter as nat));
            assert(log_lines(lines.push(item)) =~= log_lines(lines).push(item@));
        }
        drop_old_lines(&mut self.state.clapper.logs);
        if self.state.clapper.auto_increment_take {
            self.state.clapper.take = count_up(self.state.clapper.take);
        }
        self.state.notices.status_message = "Clap!".to_owned();
        let beep = Effect::PlayBeep {
            sample_rate: self.state.audio.sample_rate,
            frequency: self.state.sound.beep_frequency,
            duration: self.state.sound.beep_duration,
            volume: self.state.sound.beep_volume,
            channel: self.state.sound.beep_channel.clone(),
        };
        let t = turn_first(beep, turn_first(Effect::StartClapAnimation, turn_quiet()));
        assert(effect_models(t.effects@) =~= clapped(old(self)@, stamp).effects);
        t
    }

    fn run_audio(&mut self, cmd: GuiCommand) -> (t: Turn)
        requires
            old(self)@.valid(),
            of_audio(cmd),
        ensures
            forall|stamp: Stamp|
                outcome(final(self)@, t) == #[trigger] commanded(old(self)@, cmd, stamp),
            final(self)@.valid(),
    {
        match cmd {
            GuiCommand::StartLtc => self.ensure_audio_init(After::Start),
            GuiCommand::InitAudio => self.ensure_audio_init(After::Nothing),
            GuiCommand::SetDevice(index) => self.set_device(index),
            GuiCommand::StopLtc => {
                self.state.transport.is_playing = false;
                self.state.transport.wake_lock_active = false;
                self.state.notices.status_message = "Stopped".to_owned();
                turn_first(Effect::StopLtc, turn_quiet())
            },
            GuiCommand::Reset => {
                let start = self.state.transport.start_timecode;
                self.state.transport.current_timecode = start;
                self.state.notices.status_message = "Reset".to_owned();
                turn_first(Effect::ResetLtc(start), turn_quiet())
            },
            GuiCommand::SetSampleRate(rate) => {
                self.state.audio.sample_rate = rate;
                turn_quiet()
            },
            _ => {
                self.pending = Pending::Devices;
                turn_ask(Ask::ListDevices)
            },
        }
    }

    fn run_decode(&mut self, cmd: GuiCommand) -> (t: Turn)
        requires
            old(self)@.valid(),
            of_decode(cmd),
        ensures
            forall|stamp: Stamp|
                outcome(final(self)@, t) == #[trigger] commanded(old(self)@, cmd, stamp),
            final(self)@.valid(),
    {
        match cmd {
            GuiCommand::ProbeVideo(path) => {
                self.pending = Pending::Probe;
                turn_ask(Ask::ProbeVideo(path))
            },
            GuiCommand::ParseLtcVideo(path, stream, channel) => self.request_video(
                path,
                stream,
                channel,
            ),
            GuiCommand::ParseLtcWavFile(path) => {
                self.pending = Pending::OpenWav(path.clone());
                turn_ask(Ask::OpenWav(path))
            },
            GuiCommand::DecodeLtcVideoGroup { paths, stream_index, channel_index } => {
                let d = &self.state.decode;
                turn_first(
                    Effect::DecodeGroup {
                        paths,
                        stream: stream_index,
                        channel: channel_index,
                        use_libltc: d.use_libltc,
                        fps: d.decode_fps,
                        drop_frame: d.decode_drop_frame,
                    },
                    turn_quiet(),
                )
            },
            GuiCommand::ProbeFileDurations(paths) => turn_first(
                Effect::ProbeDurations(paths),
                turn_quiet(),
            ),
            _ => if self.cancellable {
                turn_first(Effect::CancelDecode, turn_quiet())
            } else {
                turn_quiet()
            },
        }
    }

    fn run_other(&mut self, cmd: GuiCommand) -> (t: Turn)
        requires
            old(self)@.valid(),
            !of_audio(cmd),
            !of_decode(cmd),
            !(cmd is Clap),
        ensures
            forall|stamp: Stamp|
                outcome(final(self)@, t) == #[trigger] commanded(old(self)@, cmd, stamp),
            final(self)@.valid(),
    {
        match cmd {
            GuiCommand::SetTheme(dark) => {
                self.state.notices.is_dark_theme = dark;
                turn_quiet()
            },
            GuiCommand::ToggleTheme => {
                self.state.notices.is_dark_theme = !self.state.notices.is_dark_theme;
                turn_quiet()
            },
            GuiCommand::Shutdown => {
                let t = turn_first(
                    Effect::StopLtc,
                    turn_first(Effect::StopOutput, turn_quiet()),
                );
                assert(effect_models(t.effects@) =~= seq![Effect::StopLtc, Effect::StopOutput]);
                t
            },
            other => {
                self.adjust(other);
                turn_quiet()
            },
        }
    }

    /// Carries out a command, given the text of the clock and of the timecode.
    pub fn process_command(&mut self, cmd: GuiCommand, stamp: Stamp) -> (t: Turn)
        requires
            old(self)@.valid(),
            old(self).pending is Idle,
            old(self).log_id_counter < u64::MAX,
        ensures
            outcome(final(self)@, t) == commanded(old(self)@, cmd, stamp),
            final(self)@.valid(),
    {
        if matches!(cmd, GuiCommand::Clap) {
            self.clap(stamp)
        } else if is_of_audio(&cmd) {
            self.run_audio(cmd)
        } else if is_of_decode(&cmd) {
            self.run_decode(cmd)
        } else {
            self.run_other(cmd)
        }
    }

    /// The audio devices have been listed, or could not be.
    pub fn devices_answered(&mut self, answer: Result<Vec<AudioDeviceInfo>, String>) -> (t: Turn)
        requires
            old(self)@.valid(),
        ensures
            outcome(final(self)@, t) == devices_told(old(self)@, answer),
            final(self)@.valid(),
    {
        if !matches!(self.pending, Pending::Devices) {
            return turn_quiet();
        }
        self.pending = Pending::Idle;
        match answer {
            Ok(devices) => {
                let n: usize = devices.len();
                self.state.audio.devices = devices;
                if self.state.audio.selected_device >= n {
                    self.state.audio.selected_device = 0;
                }
                let mut s: String = String::new();
                push_decimal(&mut s, n as u64);
                s.append(" devices found");
                assert(s@ =~= decimal(n as nat) + " devices found"@);
                self.state.notices.status_message = s;
            },
            Err(error) => {
                self.state.notices.status_message = concat2("Device scan failed: ", error.as_str());
            },
        }
        turn_quiet()
    }

    /// Shows the timecode that is being played.
    pub fn poll_timecode(&mut self, playing: Timecode)
        requires
            old(self)@.valid(),
        ensures
            final(self)@ == if old(self)@.state.transport.is_playing {
                with_transport(
                    old(self)@,
                    Transport { current_timecode: playing, ..old(self)@.state.transport },
                )
            } else {
                old(self)@
            },
            final(self)@.valid(),
    {
        if self.state.transport.is_playing {
            self.state.transport.current_timecode = playing;
        }
    }

    /// Marks the state as shown at the given time.
    pub fn publish(&mut self, system_time: String)
        requires
            old(self)@.valid(),
            old(self).state.notices.generation < u64::MAX,
        ensures
            final(self)@ == with_notices(
                old(self)@,
                NoticesModel {
                    system_time: system_time@,
                    generation: (old(self).state.notices.generation + 1) as u64,
                    ..old(self)@.state.notices
                },
            ),
            final(self)@.valid(),
    {
        self.state.notices.system_time = system_time;
        self.state.notices.generation = self.state.notices.generation + 1;
    }
}

/// The audio devices have been listed, or could not be. A choice that the list does
/// not have becomes the first.
pub open spec fn devices_told(e: EngineModel, answer: Result<Vec<AudioDeviceInfo>, String>) -> Outcome {
    match e.pending {
        Pending::Devices => match answer {
            Ok(devices) => quiet(
                idle(
                    said(
                        with_audio(
                            e,
                            AudioState {
                                selected_device: if e.state.audio.selected_device >= devices@.len() {
                                    0
                                } else {
                                    e.state.audio.selected_device
                                },
                                devices,
                                ..e.state.audio
                            },
                        ),
                        decimal(devices@.len()) + " devices found"@,
                    ),
                ),
            ),
            Err(error) => quiet(idle(said(e, "Device scan failed: "@ + error@))),
        },
        _ => quiet(e),
    }
}

// ── Laws ───────────────────────────────────────────────────────────────────

/// Whether a command undoes itself when it is given twice.
pub open spec fn toggles(cmd: GuiCommand) -> bool {
    cmd is ToggleLock || cmd is ToggleTheme
}

/// Locking and changing the theme twice leaves everything as it was.
pub proof fn law_toggling_twice_restores(e: EngineModel, cmd: GuiCommand, stamp: Stamp)
    requires
        toggles(cmd),
    ensures
        commanded(commanded(e, cmd, stamp).engine, cmd, stamp).engine == e,
{
}

/// A scene or take that was counted up is counted down to what it was, unless it was
/// the last one.
pub proof fn law_counting_back(e: EngineModel, stamp: Stamp)
    ensures
        e.state.clapper.scene < u32::MAX ==> commanded(
            commanded(e, GuiCommand::SceneUp, stamp).engine,
            GuiCommand::SceneDown,
            stamp,
        ).engine == e,
        e.state.clapper.take < u32::MAX ==> commanded(
            commanded(e, GuiCommand::TakeUp, stamp).engine,
            GuiCommand::TakeDown,
            stamp,
        ).engine == e,
{
}

/// The clap log never holds more lines than it keeps, and its last line is the one
/// of the last clap.
pub proof fn law_clap_log_is_bounded(e: EngineModel, stamp: Stamp)
    ensures
        ({
            let logs = commanded(e, GuiCommand::Clap, stamp).engine.state.clapper.logs;
            0 < logs.len() <= MAX_CLAP_LOGS && logs.last().timestamp == stamp.now@
                && logs.last().timecode == stamp.timecode@
        }),
{
}

/// An unsuccessful try to start the audio output is followed by at most two more: the
/// engine asks again with a higher count, or stops asking.
pub proof fn law_init_gives_up(e: EngineModel, error: String, permanent: bool)
    requires
        e.valid(),
        e.pending is Init,
    ensures
        ({
            let o = init_told(e, Err((error, permanent)));
            match o.engine.pending {
                Pending::Init { attempt, .. } => !permanent && e.pending->attempt < attempt
                    <= MAX_INIT_ATTEMPTS,
                _ => o.ask is None && (permanent || e.pending->attempt == MAX_INIT_ATTEMPTS),
            }
        }),
{
}

/// A question is open exactly when one was asked.
pub proof fn law_asks_are_pending(e: EngineModel, cmd: GuiCommand, stamp: Stamp)
    requires
        e.pending is Idle,
    ensures
        commanded(e, cmd, stamp).ask is Some <==> !(commanded(e, cmd, stamp).engine.pending is Idle),
{
}

/// However often the stream dies, the engine tries to revive it at most three times
/// until it runs again, unless it is declared dead.
pub proof fn law_recovery_is_bounded(e: EngineModel)
    requires
        e.valid(),
        e.recovery_attempts == MAX_RECOVERY_ATTEMPTS,
    ensures
        event_told(e, AudioEvent::StreamDied).ask is None,
        event_told(e, AudioEvent::StreamDied).effects == Seq::<Effect<Seq<char>>>::empty(),
        !event_told(e, AudioEvent::StreamDied).engine.state.transport.is_playing,
{
}

/// What was playing when the stream died plays on from the same timecode once the
/// output runs again and starts to play.
pub proof fn law_recovery_resumes(e: EngineModel, rate: u32, format: String)
    requires
        e.valid(),
        e.pending is Idle,
        e.state.transport.is_playing,
        e.recovery_attempts < MAX_RECOVERY_ATTEMPTS,
    ensures
        ({
            let tried = event_told(e, AudioEvent::StreamDied).engine;
            let runs = init_told(tried, Ok((rate, format))).engine;
            let plays = start_told(runs, Ok(())).engine;
            plays.state.transport == e.state.transport && plays.state.audio.audio_initialized
                && plays.recovery_attempts == 0 && plays.pending is Idle
        }),
{
}

} // verus!
