//! The engine: what becomes of the state on a command of the user, an event of the
//! audio output or the end of some work, and what is to be done outside.
//!
//! The engine does nothing outside itself. Each step answers with a [`Turn`]: what is
//! to be done, in order, and at most one question, whose answer the engine waits for.

use vstd::prelude::*;

use crate::state::{
    told, AppState, AudioEvent, AudioState, FpsOption, NoticesModel, StateModel, Transport,
};
use crate::text::{concat2, decimal, push_decimal};
use crate::timecode::Timecode;
use crate::turns::{
    effect_models, turn_ask, turn_first, turn_quiet, After, Ask, Effect, Pending, Turn,
};

verus! {

/// How often the engine tries to revive the audio output before it gives up.
pub const MAX_RECOVERY_ATTEMPTS: u8 = 3;

/// The lines the clap log keeps.
pub const MAX_CLAP_LOGS: usize = 1000;

/// The buffer size asked of the audio output: its own choice.
pub const BUFFER_SIZE: u32 = 0;

/// How often the audio output is asked to start.
pub const MAX_INIT_ATTEMPTS: u8 = 3;

/// How long the audio driver is given to let go of a device, in milliseconds.
pub const RELEASE_MILLIS: u64 = 150;

/// What a decode that was cancelled says.
pub const CANCELED: &'static str = "Decode canceled by user";

/// The engine.
#[derive(Clone, Debug)]
pub struct Engine {
    pub state: AppState,
    /// The frame rates the user can choose from.
    pub fps_options: Vec<FpsOption>,
    pub recovery_attempts: u8,
    pub log_id_counter: u64,
    /// The device that was used last.
    pub last_device_id: Option<String>,
    /// The device that was chosen before the present one.
    pub previous_device: Option<usize>,
    /// A decode that can be told to stop is running.
    pub cancellable: bool,
    /// The number of chunks of the running decode.
    pub decode_chunks: Option<usize>,
    pub pending: Pending<String>,
}

/// The engine as mathematical values.
pub struct EngineModel {
    pub state: StateModel,
    pub fps_options: Seq<FpsOption>,
    pub recovery_attempts: u8,
    pub log_id_counter: u64,
    pub last_device_id: Option<Seq<char>>,
    pub previous_device: Option<usize>,
    pub cancellable: bool,
    pub decode_chunks: Option<usize>,
    pub pending: Pending<Seq<char>>,
}

impl View for Engine {
    type V = EngineModel;

    open spec fn view(&self) -> EngineModel {
        EngineModel {
            state: self.state@,
            fps_options: self.fps_options@,
            recovery_attempts: self.recovery_attempts,
            log_id_counter: self.log_id_counter,
            last_device_id: told(self.last_device_id),
            previous_device: self.previous_device,
            cancellable: self.cancellable,
            decode_chunks: self.decode_chunks,
            pending: self.pending.model(),
        }
    }
}

/// Every frame rate of a list is a real one.
pub open spec fn options_valid(options: Seq<FpsOption>) -> bool {
    forall|i: int| 0 <= i < options.len() ==> (#[trigger] options[i]).fps.valid()
}

impl EngineModel {
    /// The frame rates are real ones, and no attempt is counted beyond its limit.
    pub open spec fn valid(self) -> bool {
        &&& self.state.transport.fps.valid()
        &&& self.state.decode.decode_fps.valid()
        &&& options_valid(self.fps_options)
        &&& self.recovery_attempts <= MAX_RECOVERY_ATTEMPTS
        &&& self.pending matches Pending::Init { attempt, .. } ==> 1 <= attempt <= MAX_INIT_ATTEMPTS
    }
}

/// The engine after a step, what is to be done and what is asked.
pub struct Outcome {
    pub engine: EngineModel,
    pub effects: Seq<Effect<Seq<char>>>,
    pub ask: Option<Ask<Seq<char>>>,
}

/// The outcome of a step that left the engine at `e` and answered with `t`.
pub open spec fn outcome(e: EngineModel, t: Turn) -> Outcome {
    Outcome {
        engine: e,
        effects: effect_models(t.effects@),
        ask: match t.ask {
            Some(a) => Some(a.model()),
            None => None,
        },
    }
}

/// A step after which nothing is to be done and nothing is asked.
pub open spec fn quiet(e: EngineModel) -> Outcome {
    Outcome { engine: e, effects: seq![], ask: None }
}

/// An outcome with something to be done before the rest.
pub open spec fn preceded(first: Seq<Effect<Seq<char>>>, o: Outcome) -> Outcome {
    Outcome { effects: first + o.effects, ..o }
}

/// The engine without an open question.
pub open spec fn idle(e: EngineModel) -> EngineModel {
    EngineModel { pending: Pending::Idle, ..e }
}

/// The engine with another audio output.
pub open spec fn with_audio(e: EngineModel, audio: AudioState) -> EngineModel {
    EngineModel { state: StateModel { audio, ..e.state }, ..e }
}

/// The engine with another transport.
pub open spec fn with_transport(e: EngineModel, transport: Transport) -> EngineModel {
    EngineModel { state: StateModel { transport, ..e.state }, ..e }
}

/// The engine with other notices.
pub open spec fn with_notices(e: EngineModel, notices: NoticesModel) -> EngineModel {
    EngineModel { state: StateModel { notices, ..e.state }, ..e }
}

/// The engine with another status message.
pub open spec fn said(e: EngineModel, text: Seq<char>) -> EngineModel {
    with_notices(e, NoticesModel { status_message: text, ..e.state.notices })
}

/// The engine with one more event to show.
pub open spec fn event_kept(e: EngineModel, event: AudioEvent) -> EngineModel {
    with_notices(e, NoticesModel { events: e.state.notices.events.push(event), ..e.state.notices })
}

// ── Audio output ───────────────────────────────────────────────────────────

/// The device to use: the chosen one, the first where the choice is not in the list,
/// or the default one, which has no name, where the list is empty.
pub open spec fn chosen_device(s: AudioState) -> (usize, Seq<char>) {
    if s.selected_device < s.devices@.len() {
        (s.selected_device, s.devices@[s.selected_device as int].id@)
    } else if s.devices@.len() > 0 {
        (0, s.devices@[0].id@)
    } else {
        (s.selected_device, seq![])
    }
}

/// The question to start the audio output, for the `attempt`th time.
pub open spec fn init_asked(e: EngineModel, device: Seq<char>, attempt: u8, after: After) -> Outcome {
    Outcome {
        engine: EngineModel { pending: Pending::Init { device_id: device, attempt, after }, ..e },
        effects: seq![],
        ask: Some(
            Ask::InitOutput {
                device_id: device,
                sample_rate: e.state.audio.sample_rate,
                buffer_size: BUFFER_SIZE,
            },
        ),
    }
}

/// The question to play timecode from `tc` on.
pub open spec fn start_asked(e: EngineModel, tc: Timecode, event: Option<AudioEvent>) -> Outcome {
    Outcome {
        engine: EngineModel { pending: Pending::Start { timecode: tc, event }, ..e },
        effects: seq![],
        ask: Some(
            Ask::StartLtc {
                timecode: tc,
                fps: e.state.transport.fps,
                drop_frame: e.state.transport.drop_frame,
                channel: e.state.sound.ltc_channel@,
                volume: e.state.sound.ltc_volume,
            },
        ),
    }
}

/// What follows once it is known whether the audio output runs.
pub open spec fn init_ended(e: EngineModel, after: After, runs: bool) -> Outcome {
    match after {
        After::Nothing => quiet(idle(e)),
        After::Start => if runs {
            start_asked(e, e.state.transport.start_timecode, None)
        } else {
            quiet(idle(said(e, "Cannot start — audio not initialized"@)))
        },
        After::Recover { was_playing, timecode, event } => if runs && was_playing {
            preceded(
                seq![Effect::ResetLtc(timecode)],
                start_asked(e, timecode, Some(event)),
            )
        } else {
            quiet(idle(event_kept(e, event)))
        },
    }
}

/// The audio output is to run before something else follows.
pub open spec fn init_wanted(e: EngineModel, after: After) -> Outcome {
    if e.state.audio.audio_initialized {
        init_ended(e, after, true)
    } else {
        let (index, device) = chosen_device(e.state.audio);
        init_asked(
            with_audio(e, AudioState { selected_device: index, ..e.state.audio }),
            device,
            1,
            after,
        )
    }
}

/// The engine once the audio output runs on a device.
pub open spec fn output_runs(e: EngineModel, device: Seq<char>, rate: u32, format: String) -> EngineModel {
    EngineModel {
        last_device_id: Some(device),
        recovery_attempts: 0,
        ..with_audio(
            e,
            AudioState {
                sample_rate: rate,
                audio_initialized: true,
                sample_format_name: format,
                ..e.state.audio
            },
        )
    }
}

/// How long the engine waits before it asks again, in milliseconds.
pub open spec fn retry_millis(attempt: u8) -> u64 {
    if attempt == 1 {
        50
    } else {
        100
    }
}

/// The chosen device is tried, where the list has it.
pub open spec fn device_tried(e: EngineModel, reverting: bool) -> Option<Outcome> {
    let s = e.state.audio;
    if s.selected_device < s.devices@.len() {
        let device = s.devices@[s.selected_device as int].id@;
        Some(
            Outcome {
                engine: EngineModel { pending: Pending::Switch { device_id: device, reverting }, ..e },
                effects: seq![],
                ask: Some(
                    Ask::InitOutput {
                        device_id: device,
                        sample_rate: s.sample_rate,
                        buffer_size: BUFFER_SIZE,
                    },
                ),
            },
        )
    } else {
        None
    }
}

/// A device that does not run gives way to the one before it, once.
pub open spec fn switch_failed(e: EngineModel, reverting: bool) -> Outcome {
    match e.previous_device {
        Some(prev) if !reverting => {
            let back = with_audio(e, AudioState { selected_device: prev, ..e.state.audio });
            match device_tried(back, true) {
                Some(o) => o,
                None => quiet(idle(back)),
            }
        },
        _ => quiet(idle(e)),
    }
}

/// Another device is chosen: what plays stops, and the device is tried.
pub open spec fn device_set(e: EngineModel, index: usize) -> Outcome {
    let s = e.state;
    let stopped = with_transport(e, Transport { is_playing: false, ..s.transport });
    let switched = EngineModel {
        previous_device: Some(s.audio.selected_device),
        ..with_audio(
            stopped,
            AudioState { audio_initialized: false, selected_device: index, ..s.audio },
        )
    };
    let first = if s.transport.is_playing {
        seq![Effect::StopLtc, Effect::StopOutput]
    } else {
        seq![Effect::StopOutput]
    };
    preceded(
        first,
        match device_tried(switched, false) {
            Some(o) => o,
            None => switch_failed(switched, false),
        },
    )
}

/// The audio output has started with this rate and sample format, or it has not, for
/// a reason that may last.
pub open spec fn init_told(e: EngineModel, answer: Result<(u32, String), (String, bool)>) -> Outcome {
    match e.pending {
        Pending::Init { device_id, attempt, after } => match answer {
            Ok((rate, format)) => init_ended(output_runs(e, device_id, rate, format), after, true),
            Err((error, permanent)) => if !permanent && attempt < MAX_INIT_ATTEMPTS {
                preceded(
                    seq![Effect::Sleep { millis: retry_millis(attempt) }],
                    init_asked(e, device_id, (attempt + 1) as u8, after),
                )
            } else {
                let failed = event_kept(
                    said(e, "Audio init failed: "@ + error@),
                    AudioEvent::StreamError(error),
                );
                init_ended(failed, after, false)
            },
        },
        Pending::Switch { device_id, reverting } => match answer {
            Ok((rate, format)) => {
                let runs = output_runs(e, device_id, rate, format);
                if reverting {
                    quiet(idle(said(runs, "Device selection reverted to previous"@)))
                } else {
                    quiet(idle(runs))
                }
            },
            Err(_) => switch_failed(
                with_audio(e, AudioState { audio_initialized: false, ..e.state.audio }),
                reverting,
            ),
        },
        _ => quiet(e),
    }
}

/// Timecode plays, or it does not.
pub open spec fn start_told(e: EngineModel, answer: Result<(), String>) -> Outcome {
    match e.pending {
        Pending::Start { timecode, event } => {
            let playing = with_transport(
                e,
                Transport { is_playing: true, current_timecode: timecode, ..e.state.transport },
            );
            quiet(
                idle(
                    match (answer, event) {
                        (Ok(()), None) => said(playing, "Streaming LTC"@),
                        (Err(error), None) => said(e, "Start failed: "@ + error@),
                        (Ok(()), Some(ev)) => event_kept(playing, ev),
                        (Err(_), Some(ev)) => event_kept(e, ev),
                    },
                ),
            )
        },
        _ => quiet(e),
    }
}

/// The audio output is torn down and asked to start again.
pub open spec fn recovery_tried(e: EngineModel, event: AudioEvent) -> Outcome {
    let t = e.state.transport;
    let stopped = with_transport(e, Transport { is_playing: false, ..t });
    let torn_down = with_audio(stopped, AudioState { audio_initialized: false, ..e.state.audio });
    preceded(
        seq![Effect::StopLtc, Effect::StopOutput, Effect::Sleep { millis: RELEASE_MILLIS }],
        init_wanted(
            torn_down,
            After::Recover { was_playing: t.is_playing, timecode: t.current_timecode, event },
        ),
    )
}

/// An event of the audio output. A stream that is gone is torn down and started
/// again: always when it is declared dead, else as long as attempts are left.
pub open spec fn event_told(e: EngineModel, event: AudioEvent) -> Outcome {
    match event {
        AudioEvent::StreamDead => recovery_tried(
            said(e, "Stream dead — performing hard reset"@),
            event,
        ),
        AudioEvent::RecoveryNeeded { .. } | AudioEvent::StreamDied => if e.recovery_attempts
            < MAX_RECOVERY_ATTEMPTS {
            let n = (e.recovery_attempts + 1) as u8;
            recovery_tried(
                said(
                    EngineModel { recovery_attempts: n, ..e },
                    "Recovery attempt "@ + decimal(n as nat) + "/"@ + decimal(
                        MAX_RECOVERY_ATTEMPTS as nat,
                    ),
                ),
                event,
            )
        } else {
            let stopped = with_transport(e, Transport { is_playing: false, ..e.state.transport });
            quiet(event_kept(said(stopped, "Recovery exhausted"@), event))
        },
        _ => quiet(event_kept(e, event)),
    }
}

impl Engine {
    fn ask_init(&mut self, device_id: String, attempt: u8, after: After) -> (t: Turn)
        ensures
            outcome(final(self)@, t) == init_asked(old(self)@, device_id@, attempt, after),
    {
        let asked = device_id.clone();
        self.pending = Pending::Init { device_id, attempt, after };
        turn_ask(
            Ask::InitOutput {
                device_id: asked,
                sample_rate: self.state.audio.sample_rate,
                buffer_size: BUFFER_SIZE,
            },
        )
    }

    fn ask_start(&mut self, timecode: Timecode, event: Option<AudioEvent>) -> (t: Turn)
        ensures
            outcome(final(self)@, t) == start_asked(old(self)@, timecode, event),
    {
        self.pending = Pending::Start { timecode, event };
        turn_ask(
            Ask::StartLtc {
                timecode,
                fps: self.state.transport.fps,
                drop_frame: self.state.transport.drop_frame,
                channel: self.state.sound.ltc_channel.clone(),
                volume: self.state.sound.ltc_volume,
            },
        )
    }

    fn keep_event(&mut self, event: AudioEvent)
        ensures
            final(self)@ == event_kept(old(self)@, event),
    {
        self.state.notices.events.push(event);
    }

    fn end_init(&mut self, after: After, runs: bool) -> (t: Turn)
        ensures
            outcome(final(self)@, t) == init_ended(old(self)@, after, runs),
    {
        match after {
            After::Nothing => {
                self.pending = Pending::Idle;
                turn_quiet()
            },
            After::Start => if runs {
                let timecode = self.state.transport.start_timecode;
                self.ask_start(timecode, None)
            } else {
                self.pending = Pending::Idle;
                self.state.notices.status_message = "Cannot start — audio not initialized".to_owned();
                turn_quiet()
            },
            After::Recover { was_playing, timecode, event } => if runs && was_playing {
                let t = self.ask_start(timecode, Some(event));
                turn_first(Effect::ResetLtc(timecode), t)
            } else {
                self.pending = Pending::Idle;
                self.keep_event(event);
                turn_quiet()
            },
        }
    }

    /// Sees to it that the audio output runs before something else follows.
    pub(crate) fn ensure_audio_init(&mut self, after: After) -> (t: Turn)
        ensures
            outcome(final(self)@, t) == init_wanted(old(self)@, after),
            old(self)@.valid() ==> final(self)@.valid(),
    {
        if self.state.audio.audio_initialized {
            return self.end_init(after, true);
        }
        let n: usize = self.state.audio.devices.len();
        let device_id: String = if self.state.audio.selected_device < n {
            self.state.audio.devices[self.state.audio.selected_device].id.clone()
        } else if n > 0 {
            self.state.audio.selected_device = 0;
            self.state.audio.devices[0].id.clone()
        } else {
            String::new()
        };
        self.ask_init(device_id, 1, after)
    }

    fn note_output(&mut self, device_id: String, rate: u32, format: String)
        ensures
            final(self)@ == output_runs(old(self)@, device_id@, rate, format),
    {
        self.state.audio.sample_rate = rate;
        self.state.audio.audio_initialized = true;
        self.state.audio.sample_format_name = format;
        self.last_device_id = Some(device_id);
        self.recovery_attempts = 0;
    }

    /// Tries the chosen device, where the list has it.
    fn try_init_device(&mut self, reverting: bool) -> (t: Option<Turn>)
        ensures
            match t {
                Some(turn) => device_tried(old(self)@, reverting) == Some(outcome(final(self)@, turn)),
                None => device_tried(old(self)@, reverting) is None && *final(self) == *old(self),
            },
    {
        if self.state.audio.selected_device < self.state.audio.devices.len() {
            let device_id: String = self.state.audio.devices[self.state.audio.selected_device].id.clone();
            let asked = device_id.clone();
            self.pending = Pending::Switch { device_id, reverting };
            Some(
                turn_ask(
                    Ask::InitOutput {
                        device_id: asked,
                        sample_rate: self.state.audio.sample_rate,
                        buffer_size: BUFFER_SIZE,
                    },
                ),
            )
        } else {
            None
        }
    }

    fn fail_switch(&mut self, reverting: bool) -> (t: Turn)
        ensures
            outcome(final(self)@, t) == switch_failed(old(self)@, reverting),
    {
        if !reverting {
            if let Some(prev) = self.previous_device {
                self.state.audio.selected_device = prev;
                match self.try_init_device(true) {
                    Some(t) => {
                        return t;
                    },
                    None => {
                        self.pending = Pending::Idle;
                        return turn_quiet();
                    },
                }
            }
        }
        self.pending = Pending::Idle;
        turn_quiet()
    }

    pub(crate) fn set_device(&mut self, index: usize) -> (t: Turn)
        ensures
            outcome(final(self)@, t) == device_set(old(self)@, index),
            old(self)@.valid() ==> final(self)@.valid(),
    {
        let was_playing = self.state.transport.is_playing;
        self.state.transport.is_playing = false;
        self.state.audio.audio_initialized = false;
        self.previous_device = Some(self.state.audio.selected_device);
        self.state.audio.selected_device = index;
        let t = match self.try_init_device(false) {
            Some(t) => t,
            None => self.fail_switch(false),
        };
        let t = turn_first(Effect::StopOutput, t);
        if was_playing {
            let t = turn_first(Effect::StopLtc, t);
            assert(effect_models(t.effects@) =~= device_set(old(self)@, index).effects);
            t
        } else {
            t
        }
    }

    pub(crate) fn take_pending(&mut self) -> (p: Pending<String>)
        ensures
            final(self)@ == idle(old(self)@),
            p == old(self).pending,
    {
        let mut p: Pending<String> = Pending::Idle;
        std::mem::swap(&mut p, &mut self.pending);
        p
    }

    /// The audio output has answered: its sample rate and sample format, or an error
    /// and whether it will last.
    pub fn init_answered(&mut self, answer: Result<(u32, String), (String, bool)>) -> (t: Turn)
        requires
            old(self)@.valid(),
        ensures
            outcome(final(self)@, t) == init_told(old(self)@, answer),
            final(self)@.valid(),
    {
        match self.take_pending() {
            Pending::Init { device_id, attempt, after } => match answer {
                Ok((rate, format)) => {
                    self.note_output(device_id, rate, format);
                    self.end_init(after, true)
                },
                Err((error, permanent)) => if !permanent && attempt < MAX_INIT_ATTEMPTS {
                    let t = self.ask_init(device_id, attempt + 1, after);
                    turn_first(
                        Effect::Sleep {
                            millis: if attempt == 1 {
                                50
                            } else {
                                100
                            },
                        },
                        t,
                    )
                } else {
                    self.state.notices.status_message = concat2("Audio init failed: ", error.as_str());
                    self.state.notices.events.push(AudioEvent::StreamError(error));
                    self.end_init(after, false)
                },
            },
            Pending::Switch { device_id, reverting } => match answer {
                Ok((rate, format)) => {
                    self.note_output(device_id, rate, format);
                    if reverting {
                        self.state.notices.status_message = "Device selection reverted to previous".to_owned();
                    }
                    turn_quiet()
                },
                Err(_) => {
                    self.state.audio.audio_initialized = false;
                    self.fail_switch(reverting)
                },
            },
            other => {
                self.pending = other;
                turn_quiet()
            },
        }
    }

    /// The audio output has answered whether timecode plays.
    pub fn start_answered(&mut self, answer: Result<(), String>) -> (t: Turn)
        requires
            old(self)@.valid(),
        ensures
            outcome(final(self)@, t) == start_told(old(self)@, answer),
            final(self)@.valid(),
    {
        match self.take_pending() {
            Pending::Start { timecode, event } => {
                match (answer, event) {
                    (Ok(()), None) => {
                        self.state.transport.is_playing = true;
                        self.state.notices.status_message = "Streaming LTC".to_owned();
                        self.state.transport.current_timecode = timecode;
                    },
                    (Err(error), None) => {
                        self.state.notices.status_message = concat2("Start failed: ", error.as_str());
                    },
                    (Ok(()), Some(ev)) => {
                        self.state.transport.is_playing = true;
                        self.state.transport.current_timecode = timecode;
                        self.keep_event(ev);
                    },
                    (Err(_), Some(ev)) => {
                        self.keep_event(ev);
                    },
                }
                turn_quiet()
            },
            other => {
                self.pending = other;
                turn_quiet()
            },
        }
    }

    fn attempt_recovery(&mut self, event: AudioEvent) -> (t: Turn)
        ensures
            outcome(final(self)@, t) == recovery_tried(old(self)@, event),
    {
        let was_playing = self.state.transport.is_playing;
        let timecode = self.state.transport.current_timecode;
        self.state.audio.audio_initialized = false;
        self.state.transport.is_playing = false;
        let t = self.ensure_audio_init(After::Recover { was_playing, timecode, event });
        let t = turn_first(Effect::Sleep { millis: RELEASE_MILLIS }, t);
        let t = turn_first(Effect::StopOutput, t);
        let t = turn_first(Effect::StopLtc, t);
        assert(effect_models(t.effects@) =~= recovery_tried(old(self)@, event).effects);
        t
    }

    /// The audio output has reported an event.
    pub fn handle_event(&mut self, event: AudioEvent) -> (t: Turn)
        requires
            old(self)@.valid(),
            old(self).pending is Idle,
        ensures
            outcome(final(self)@, t) == event_told(old(self)@, event),
            final(self)@.valid(),
    {
        let dead = matches!(event, AudioEvent::StreamDead);
        let gone = matches!(event, AudioEvent::RecoveryNeeded { .. } | AudioEvent::StreamDied);
        if dead {
            self.state.notices.status_message = "Stream dead — performing hard reset".to_owned();
            self.attempt_recovery(event)
        } else if gone {
            if self.recovery_attempts < MAX_RECOVERY_ATTEMPTS {
                self.recovery_attempts = self.recovery_attempts + 1;
                let mut s: String = "Recovery attempt ".to_owned();
                push_decimal(&mut s, self.recovery_attempts as u64);
                s.append("/");
                push_decimal(&mut s, MAX_RECOVERY_ATTEMPTS as u64);
                self.state.notices.status_message = s;
                self.attempt_recovery(event)
            } else {
                self.state.transport.is_playing = false;
                self.state.notices.status_message = "Recovery exhausted".to_owned();
                self.keep_event(event);
                turn_quiet()
            }
        } else {
            self.keep_event(event);
            turn_quiet()
        }
    }
}

} // verus!
