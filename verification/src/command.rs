//! What a user of the program can ask of the engine.

use vstd::prelude::*;

use crate::timecode::Timecode;

verus! {

/// A request. Volumes, the frequency and the duration of the beep are the bits of
/// 32-bit floating point numbers.
#[derive(Clone, Debug)]
pub enum GuiCommand {
    // ── Transport ──────────────────────────────────────────────────────────
    StartLtc,
    StopLtc,
    Reset,
    ToggleLock,
    Clap,
    // ── Timecode and frame rate ────────────────────────────────────────────
    SetStartTimecode(Timecode),
    SetFpsIndex(usize),
    // ── Audio ──────────────────────────────────────────────────────────────
    InitAudio,
    SetSampleRate(u32),
    SetDevice(usize),
    RefreshDevices,
    SetLtcChannel(String),
    SetBeepChannel(String),
    SetLtcVolume(u32),
    SetBeepVolume(u32),
    SetBeepFrequency(u32),
    SetBeepDuration(u32),
    // ── Clapper ────────────────────────────────────────────────────────────
    SetScene(u32),
    SetTake(u32),
    SetRoll(String),
    SetAutoIncrement(bool),
    // ── Theme ──────────────────────────────────────────────────────────────
    SetTheme(bool),
    ToggleTheme,
    // ── Logs ───────────────────────────────────────────────────────────────
    ClearLogs,
    // ── Decoding ───────────────────────────────────────────────────────────
    SetDecodeFpsIndex(usize),
    ParseLtcWavFile(String),
    ProbeVideo(String),
    /// A file, the number of an audio stream and a channel of that stream.
    ParseLtcVideo(String, usize, usize),
    /// Decode every clip of a recording group.
    DecodeLtcVideoGroup { paths: Vec<String>, stream_index: usize, channel_index: usize },
    /// Forget what the clips of a group held.
    ClearLtcGroupResults,
    SetLtcDecodeStream(usize),
    SetLtcDecodeChannel(usize),
    /// Find out how long files are.
    ProbeFileDurations(Vec<String>),
    CancelDecode,
    Shutdown,
    // ── Steppers ───────────────────────────────────────────────────────────
    SceneUp,
    SceneDown,
    TakeUp,
    TakeDown,
    HourUp,
    HourDown,
    MinuteUp,
    MinuteDown,
    SecondUp,
    SecondDown,
    FrameUp,
    FrameDown,
}

} // verus!
