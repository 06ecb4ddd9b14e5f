//! What a step of the engine wants of the world outside.

use vstd::prelude::*;

use crate::state::AudioEvent;
use crate::timecode::{FrameRate, Timecode};

verus! {

/// Something to be done outside. Texts are of type `S`: `String`, or `Seq<char>` in
/// contracts.
#[derive(Clone, Debug)]
pub enum Effect<S> {
    StopLtc,
    StopOutput,
    ResetLtc(Timecode),
    PlayBeep { sample_rate: u32, frequency: u32, duration: u32, volume: u32, channel: S },
    Sleep { millis: u64 },
    /// Tell the running decode to stop.
    CancelDecode,
    StartClapAnimation,
    DecodeWav {
        path: S,
        generation: u64,
        chunks: usize,
        use_libltc: bool,
        fps: FrameRate,
        drop_frame: bool,
    },
    DecodeVideo {
        path: S,
        stream: usize,
        channel: usize,
        generation: u64,
        use_libltc: bool,
        fps: FrameRate,
        drop_frame: bool,
    },
    DecodeGroup {
        paths: Vec<String>,
        stream: usize,
        channel: usize,
        use_libltc: bool,
        fps: FrameRate,
        drop_frame: bool,
    },
    ProbeDurations(Vec<String>),
}

impl Effect<String> {
    /// The effect with its texts as sequences of characters.
    pub open spec fn model(self) -> Effect<Seq<char>> {
        match self {
            Effect::StopLtc => Effect::StopLtc,
            Effect::StopOutput => Effect::StopOutput,
            Effect::ResetLtc(tc) => Effect::ResetLtc(tc),
            Effect::PlayBeep { sample_rate, frequency, duration, volume, channel } => Effect::PlayBeep {
                sample_rate,
                frequency,
                duration,
                volume,
                channel: channel@,
            },
            Effect::Sleep { millis } => Effect::Sleep { millis },
            Effect::CancelDecode => Effect::CancelDecode,
            Effect::StartClapAnimation => Effect::StartClapAnimation,
            Effect::DecodeWav { path, generation, chunks, use_libltc, fps, drop_frame } => Effect::DecodeWav {
                path: path@,
                generation,
                chunks,
                use_libltc,
                fps,
                drop_frame,
            },
            Effect::DecodeVideo { path, stream, channel, generation, use_libltc, fps, drop_frame } =>
            Effect::DecodeVideo {
                path: path@,
                stream,
                channel,
                generation,
                use_libltc,
                fps,
                drop_frame,
            },
            Effect::DecodeGroup { paths, stream, channel, use_libltc, fps, drop_frame } =>
            Effect::DecodeGroup { paths, stream, channel, use_libltc, fps, drop_frame },
            Effect::ProbeDurations(paths) => Effect::ProbeDurations(paths),
        }
    }
}

/// A question to the world outside.
#[derive(Clone, Debug)]
pub enum Ask<S> {
    /// Start the audio output, and tell its sample rate and sample format.
    InitOutput { device_id: S, sample_rate: u32, buffer_size: u32 },
    /// Start to play timecode.
    StartLtc { timecode: Timecode, fps: FrameRate, drop_frame: bool, channel: S, volume: u32 },
    ListDevices,
    ProbeVideo(S),
    OpenWav(S),
}

impl Ask<String> {
    /// The question with its texts as sequences of characters.
    pub open spec fn model(self) -> Ask<Seq<char>> {
        match self {
            Ask::InitOutput { device_id, sample_rate, buffer_size } => Ask::InitOutput {
                device_id: device_id@,
                sample_rate,
                buffer_size,
            },
            Ask::StartLtc { timecode, fps, drop_frame, channel, volume } => Ask::StartLtc {
                timecode,
                fps,
                drop_frame,
                channel: channel@,
                volume,
            },
            Ask::ListDevices => Ask::ListDevices,
            Ask::ProbeVideo(path) => Ask::ProbeVideo(path@),
            Ask::OpenWav(path) => Ask::OpenWav(path@),
        }
    }
}

/// What is to follow when the audio output has been asked to start.
#[derive(Clone, Debug)]
pub enum After {
    Nothing,
    /// Play timecode.
    Start,
    /// Go on where the output failed, and keep the event that told of it.
    Recover { was_playing: bool, timecode: Timecode, event: AudioEvent },
}

/// The question whose answer the engine waits for.
#[derive(Clone, Debug)]
pub enum Pending<S> {
    Idle,
    Init { device_id: S, attempt: u8, after: After },
    Start { timecode: Timecode, event: Option<AudioEvent> },
    /// Another device is being tried, or the one before it again.
    Switch { device_id: S, reverting: bool },
    Devices,
    Probe,
    OpenWav(S),
}

impl Pending<String> {
    /// The question with its texts as sequences of characters.
    pub open spec fn model(self) -> Pending<Seq<char>> {
        match self {
            Pending::Idle => Pending::Idle,
            Pending::Init { device_id, attempt, after } => Pending::Init {
                device_id: device_id@,
                attempt,
                after,
            },
            Pending::Start { timecode, event } => Pending::Start { timecode, event },
            Pending::Switch { device_id, reverting } => Pending::Switch {
                device_id: device_id@,
                reverting,
            },
            Pending::Devices => Pending::Devices,
            Pending::Probe => Pending::Probe,
            Pending::OpenWav(path) => Pending::OpenWav(path@),
        }
    }
}

/// What a step of the engine leads to: things to be done, in order, and then a
/// question.
#[derive(Clone, Debug)]
pub struct Turn {
    pub effects: Vec<Effect<String>>,
    pub ask: Option<Ask<String>>,
}

/// Things to be done, with their texts as sequences of characters.
pub open spec fn effect_models(effects: Seq<Effect<String>>) -> Seq<Effect<Seq<char>>> {
    Seq::new(effects.len(), |i: int| effects[i].model())
}

/// Nothing to be done, nothing asked.
pub fn turn_quiet() -> (t: Turn)
    ensures
        effect_models(t.effects@) == Seq::<Effect<Seq<char>>>::empty(),
        t.ask is None,
{
    let t = Turn { effects: Vec::new(), ask: None };
    assert(effect_models(t.effects@) =~= Seq::<Effect<Seq<char>>>::empty());
    t
}

/// Only a question.
pub fn turn_ask(ask: Ask<String>) -> (t: Turn)
    ensures
        effect_models(t.effects@) == Seq::<Effect<Seq<char>>>::empty(),
        t.ask == Some(ask),
{
    let t = Turn { effects: Vec::new(), ask: Some(ask) };
    assert(effect_models(t.effects@) =~= Seq::<Effect<Seq<char>>>::empty());
    t
}

/// Something to be done before the rest.
pub fn turn_first(effect: Effect<String>, after: Turn) -> (t: Turn)
    ensures
        effect_models(t.effects@) == seq![effect.model()] + effect_models(after.effects@),
        t.ask == after.ask,
{
    let mut after = after;
    let ghost rest = after.effects@;
    let mut effects: Vec<Effect<String>> = Vec::new();
    effects.push(effect);
    effects.append(&mut after.effects);
    assert(effect_models(effects@) =~= seq![effect.model()] + effect_models(rest));
    Turn { effects, ask: after.ask }
}

} // verus!
