//! The state of the engine, as it is shown to the user.

use vstd::prelude::*;

use crate::capabilities::FfmpegCapabilities;
use crate::ffprobe::VideoAudioProbe;
use crate::ltc_decoder::{LtcDetectionResult, Share};
use crate::timecode::{FrameRate, Timecode};

verus! {

/// What the audio output reports on its own.
#[derive(Clone, Debug)]
pub enum AudioEvent {
    StreamError(String),
    StreamDied,
    StreamRecovering { attempt: u8 },
    StreamDead,
    RecoveryNeeded { reason: String },
    Underrun,
    FramesDropped { total: u64 },
}

/// An audio output.
#[derive(Clone, Debug)]
pub struct AudioDeviceInfo {
    pub id: String,
    pub name: String,
    pub is_default: bool,
    pub formats: Vec<String>,
    pub channels_min: u16,
    pub channels_max: u16,
    pub sample_rate_min: u32,
    pub sample_rate_max: u32,
    pub buffer_min: u32,
    pub buffer_max: u32,
}

/// A frame rate the user can choose.
#[derive(Clone, Debug)]
pub struct FpsOption {
    pub name: String,
    pub fps: FrameRate,
    pub drop_frame: bool,
}

/// A line of the clap log.
#[derive(Clone, Debug, PartialEq)]
pub struct ClapLogItem {
    pub id: String,
    pub timestamp: String,
    pub timecode: String,
    pub milliseconds: String,
    pub note: String,
}

/// A line of the clap log, as text.
#[verifier::ext_equal]
pub struct LogLine {
    pub id: Seq<char>,
    pub timestamp: Seq<char>,
    pub timecode: Seq<char>,
    pub milliseconds: Seq<char>,
    pub note: Seq<char>,
}

impl View for ClapLogItem {
    type V = LogLine;

    open spec fn view(&self) -> LogLine {
        LogLine {
            id: self.id@,
            timestamp: self.timestamp@,
            timecode: self.timecode@,
            milliseconds: self.milliseconds@,
            note: self.note@,
        }
    }
}

/// The lines of a log, as text.
pub open spec fn log_lines(items: Seq<ClapLogItem>) -> Seq<LogLine> {
    Seq::new(items.len(), |i: int| items[i]@)
}

/// A text that may be missing.
pub open spec fn told(s: Option<String>) -> Option<Seq<char>> {
    match s {
        Some(t) => Some(t@),
        None => None,
    }
}

/// What a clip of a group held: a report, or the reason there is none.
#[derive(Clone, Debug)]
pub struct ClipResult {
    pub path: String,
    pub report: Option<LtcDetectionResult>,
    pub error: Option<String>,
}

/// How long a file is, in nanoseconds; `None` where that cannot be found out.
#[derive(Clone, Debug)]
pub struct FileDuration {
    pub path: String,
    pub nanos: Option<i64>,
}

/// The audio output.
#[derive(Clone, Debug)]
pub struct AudioState {
    pub devices: Vec<AudioDeviceInfo>,
    pub selected_device: usize,
    pub audio_initialized: bool,
    pub sample_rate: u32,
    pub sample_format_name: String,
}

/// How timecode and beep sound. Volumes, the frequency and the duration are the bits
/// of 32-bit floating point numbers.
#[derive(Clone, Debug)]
pub struct SoundSettings {
    pub ltc_channel: String,
    pub beep_channel: String,
    pub ltc_volume: u32,
    pub beep_volume: u32,
    pub beep_frequency: u32,
    pub beep_duration: u32,
}

/// The timecode that is played.
#[derive(Clone, Copy, Debug, PartialEq, Eq, Structural)]
pub struct Transport {
    pub is_locked: bool,
    pub is_playing: bool,
    pub wake_lock_active: bool,
    pub start_timecode: Timecode,
    pub current_timecode: Timecode,
    pub fps_index: usize,
    pub fps: FrameRate,
    pub drop_frame: bool,
}

/// The clapperboard.
#[derive(Clone, Debug)]
pub struct Clapper {
    pub scene: u32,
    pub take: u32,
    pub roll: String,
    pub auto_increment_take: bool,
    pub logs: Vec<ClapLogItem>,
}

/// The clapperboard as mathematical values.
pub struct ClapperModel {
    pub scene: u32,
    pub take: u32,
    pub roll: Seq<char>,
    pub auto_increment_take: bool,
    pub logs: Seq<LogLine>,
}

impl View for Clapper {
    type V = ClapperModel;

    open spec fn view(&self) -> ClapperModel {
        ClapperModel {
            scene: self.scene,
            take: self.take,
            roll: self.roll@,
            auto_increment_take: self.auto_increment_take,
            logs: log_lines(self.logs@),
        }
    }
}

/// How recordings are decoded, and what came of it.
#[derive(Clone, Debug)]
pub struct DecodeState {
    pub use_libltc: bool,
    pub decode_fps_index: usize,
    pub decode_fps: FrameRate,
    pub decode_drop_frame: bool,
    pub ltc_is_detecting: bool,
    pub ltc_decode_result: Option<LtcDetectionResult>,
    pub ltc_decode_error: Option<String>,
    /// Counts the decodes that were started.
    pub ltc_decode_generation: u64,
    pub ltc_decode_progress: Share,
    pub ltc_decode_progress_str: String,
    pub ltc_probe: Option<VideoAudioProbe>,
    pub ltc_selected_stream: usize,
    pub ltc_selected_channel: usize,
    pub ltc_decode_is_video: bool,
    /// What the clips of the chosen group held.
    pub ltc_group_results: Vec<ClipResult>,
}

/// The state of decoding as mathematical values.
pub struct DecodeModel {
    pub use_libltc: bool,
    pub decode_fps_index: usize,
    pub decode_fps: FrameRate,
    pub decode_drop_frame: bool,
    pub ltc_is_detecting: bool,
    pub ltc_decode_result: Option<LtcDetectionResult>,
    pub ltc_decode_error: Option<Seq<char>>,
    pub ltc_decode_generation: u64,
    pub ltc_decode_progress: Share,
    pub ltc_decode_progress_str: Seq<char>,
    pub ltc_probe: Option<VideoAudioProbe>,
    pub ltc_selected_stream: usize,
    pub ltc_selected_channel: usize,
    pub ltc_decode_is_video: bool,
    pub ltc_group_results: Seq<ClipResult>,
}

impl View for DecodeState {
    type V = DecodeModel;

    open spec fn view(&self) -> DecodeModel {
        DecodeModel {
            use_libltc: self.use_libltc,
            decode_fps_index: self.decode_fps_index,
            decode_fps: self.decode_fps,
            decode_drop_frame: self.decode_drop_frame,
            ltc_is_detecting: self.ltc_is_detecting,
            ltc_decode_result: self.ltc_decode_result,
            ltc_decode_error: told(self.ltc_decode_error),
            ltc_decode_generation: self.ltc_decode_generation,
            ltc_decode_progress: self.ltc_decode_progress,
            ltc_decode_progress_str: self.ltc_decode_progress_str@,
            ltc_probe: self.ltc_probe,
            ltc_selected_stream: self.ltc_selected_stream,
            ltc_selected_channel: self.ltc_selected_channel,
            ltc_decode_is_video: self.ltc_decode_is_video,
            ltc_group_results: self.ltc_group_results@,
        }
    }
}

/// What the user is told.
#[derive(Clone, Debug)]
pub struct Notices {
    /// How many times the state has been published.
    pub generation: u64,
    pub system_time: String,
    pub status_message: String,
    pub events: Vec<AudioEvent>,
    pub is_dark_theme: bool,
}

/// What the user is told, as mathematical values.
pub struct NoticesModel {
    pub generation: u64,
    pub system_time: Seq<char>,
    pub status_message: Seq<char>,
    pub events: Seq<AudioEvent>,
    pub is_dark_theme: bool,
}

impl View for Notices {
    type V = NoticesModel;

    open spec fn view(&self) -> NoticesModel {
        NoticesModel {
            generation: self.generation,
            system_time: self.system_time@,
            status_message: self.status_message@,
            events: self.events@,
            is_dark_theme: self.is_dark_theme,
        }
    }
}

/// What is known of files and of the programs that read them.
#[derive(Clone, Debug)]
pub struct FileFacts {
    /// How long files are, as far as it was found out.
    pub file_durations: Vec<FileDuration>,
    pub ffmpeg_caps: Option<FfmpegCapabilities>,
    pub ffmpeg_probe_running: bool,
}

/// What is known of files, as mathematical values.
pub struct FileModel {
    pub file_durations: Seq<FileDuration>,
    pub ffmpeg_caps: Option<FfmpegCapabilities>,
    pub ffmpeg_probe_running: bool,
}

impl View for FileFacts {
    type V = FileModel;

    open spec fn view(&self) -> FileModel {
        FileModel {
            file_durations: self.file_durations@,
            ffmpeg_caps: self.ffmpeg_caps,
            ffmpeg_probe_running: self.ffmpeg_probe_running,
        }
    }
}

/// Everything the user is shown.
#[derive(Clone, Debug)]
pub struct AppState {
    pub audio: AudioState,
    pub sound: SoundSettings,
    pub transport: Transport,
    pub clapper: Clapper,
    pub decode: DecodeState,
    pub notices: Notices,
    pub files: FileFacts,
}

/// The state as mathematical values.
pub struct StateModel {
    pub audio: AudioState,
    pub sound: SoundSettings,
    pub transport: Transport,
    pub clapper: ClapperModel,
    pub decode: DecodeModel,
    pub notices: NoticesModel,
    pub files: FileModel,
}

impl View for AppState {
    type V = StateModel;

    open spec fn view(&self) -> StateModel {
        StateModel {
            audio: self.audio,
            sound: self.sound,
            transport: self.transport,
            clapper: self.clapper@,
            decode: self.decode@,
            notices: self.notices@,
            files: self.files@,
        }
    }
}

/// The rate that is chosen at the start: twenty-five frames per second.
pub open spec fn initial_rate() -> FrameRate {
    FrameRate { num: 25, den: 1 }
}

/// The state at the start: nothing playing, nothing known of devices or files.
pub open spec fn initial_state(s: StateModel) -> bool {
    let zero = Timecode { hours: 0, minutes: 0, seconds: 0, frames: 0 };
    &&& s.audio.devices@ == Seq::<AudioDeviceInfo>::empty()
    &&& s.audio.selected_device == 0
    &&& !s.audio.audio_initialized
    &&& s.audio.sample_rate == 48_000
    &&& s.audio.sample_format_name@ == Seq::<char>::empty()
    &&& s.sound.ltc_channel@ == "left"@
    &&& s.sound.beep_channel@ == "right"@
    &&& s.sound.ltc_volume == 0x3f80_0000
    &&& s.sound.beep_volume == 0x3f80_0000
    &&& s.sound.beep_frequency == 0x447a_0000
    &&& s.sound.beep_duration == 0x3e80_0000
    &&& s.transport == (Transport {
        is_locked: false,
        is_playing: false,
        wake_lock_active: false,
        start_timecode: zero,
        current_timecode: zero,
        fps_index: 1,
        fps: initial_rate(),
        drop_frame: false,
    })
    &&& s.clapper == (ClapperModel {
        scene: 1,
        take: 1,
        roll: seq![],
        auto_increment_take: true,
        logs: seq![],
    })
    &&& s.decode == (DecodeModel {
        use_libltc: false,
        decode_fps_index: 1,
        decode_fps: initial_rate(),
        decode_drop_frame: false,
        ltc_is_detecting: false,
        ltc_decode_result: None,
        ltc_decode_error: None,
        ltc_decode_generation: 0,
        ltc_decode_progress: Share { num: 0, den: 1 },
        ltc_decode_progress_str: seq![],
        ltc_probe: None,
        ltc_selected_stream: 0,
        ltc_selected_channel: 0,
        ltc_decode_is_video: false,
        ltc_group_results: seq![],
    })
    &&& s.notices == (NoticesModel {
        generation: 0,
        system_time: seq![],
        status_message: seq![],
        events: seq![],
        is_dark_theme: false,
    })
    &&& s.files == (FileModel {
        file_durations: seq![],
        ffmpeg_caps: None,
        ffmpeg_probe_running: false,
    })
}

impl AppState {
    /// The state at the start.
    pub fn initial() -> (r: AppState)
        ensures
            initial_state(r@),
    {
        let zero = Timecode { hours: 0, minutes: 0, seconds: 0, frames: 0 };
        let rate = FrameRate { num: 25, den: 1 };
        let r = AppState {
            audio: AudioState {
                devices: Vec::new(),
                selected_device: 0,
                audio_initialized: false,
                sample_rate: 48_000,
                sample_format_name: String::new(),
            },
            sound: SoundSettings {
                ltc_channel: "left".to_owned(),
                beep_channel: "right".to_owned(),
                ltc_volume: 0x3f80_0000,
                beep_volume: 0x3f80_0000,
                beep_frequency: 0x447a_0000,
                beep_duration: 0x3e80_0000,
            },
            transport: Transport {
                is_locked: false,
                is_playing: false,
                wake_lock_active: false,
                start_timecode: zero,
                current_timecode: zero,
                fps_index: 1,
                fps: rate,
                drop_frame: false,
            },
            clapper: Clapper {
                scene: 1,
                take: 1,
                roll: String::new(),
                auto_increment_take: true,
                logs: Vec::new(),
            },
            decode: DecodeState {
                use_libltc: false,
                decode_fps_index: 1,
                decode_fps: rate,
                decode_drop_frame: false,
                ltc_is_detecting: false,
                ltc_decode_result: None,
                ltc_decode_error: None,
                ltc_decode_generation: 0,
                ltc_decode_progress: Share { num: 0, den: 1 },
                ltc_decode_progress_str: String::new(),
                ltc_probe: None,
                ltc_selected_stream: 0,
                ltc_selected_channel: 0,
                ltc_decode_is_video: false,
                ltc_group_results: Vec::new(),
            },
            notices: Notices {
                generation: 0,
                system_time: String::new(),
                status_message: String::new(),
                events: Vec::new(),
                is_dark_theme: false,
            },
            files: FileFacts {
                file_durations: Vec::new(),
                ffmpeg_caps: None,
                ffmpeg_probe_running: false,
            },
        };
        assert(log_lines(r.clapper.logs@) =~= seq![]);
        assert(r.clapper.roll@ =~= seq![]);
        assert(r.notices.events@ =~= seq![]);
        assert(r.decode.ltc_group_results@ =~= seq![]);
        assert(r.files.file_durations@ =~= seq![]);
        r
    }
}

} // verus!
