//! How the engine has recordings probed and decoded, and what it makes of the
//! results.

use vstd::prelude::*;

use crate::capabilities::FfmpegCapabilities;
use crate::engine::{idle, outcome, quiet, said, Engine, EngineModel, Outcome, CANCELED};
use crate::ffprobe::VideoAudioProbe;
use crate::ltc_chunks::{chunk_total, count_chunks, DecodeConfig, WavChunkReader};
use crate::ltc_decoder::{LtcDetectionResult, Share};
use crate::messages::{
    check_selection, chunk_line, chunk_text, decoding_line, decoding_text, extracting_line,
    extracting_text, probed_line, probed_text, selection_error, summary, summary_text,
};
use crate::state::{ClipResult, DecodeModel, FileDuration, FileFacts, FileModel, StateModel};
use crate::text::{concat2, same};
use crate::turns::{turn_first, turn_quiet, Effect, Pending, Turn};

verus! {

/// The engine with another state of decoding.
pub open spec fn with_decode(e: EngineModel, decode: DecodeModel) -> EngineModel {
    EngineModel { state: StateModel { decode, ..e.state }, ..e }
}

/// The engine with other facts on files.
pub open spec fn with_files(e: EngineModel, files: FileModel) -> EngineModel {
    EngineModel { state: StateModel { files, ..e.state }, ..e }
}

/// The number of the decode after the `n`th; the count starts again at its end.
pub open spec fn next_generation(n: u64) -> u64 {
    if n == u64::MAX {
        0
    } else {
        (n + 1) as u64
    }
}

/// The state of decoding when a decode starts: nothing is known of the last one.
pub open spec fn decode_started(d: DecodeModel) -> DecodeModel {
    DecodeModel {
        ltc_is_detecting: true,
        ltc_decode_result: None,
        ltc_decode_error: None,
        ltc_decode_generation: next_generation(d.ltc_decode_generation),
        ..d
    }
}

/// The engine when a decode cannot be started.
pub open spec fn decode_refused(e: EngineModel, error: Seq<char>) -> EngineModel {
    said(
        with_decode(
            e,
            DecodeModel {
                ltc_is_detecting: false,
                ltc_decode_error: Some(error),
                ..e.state.decode
            },
        ),
        "Parse failed: "@ + error,
    )
}

// ── Videos ─────────────────────────────────────────────────────────────────

/// A channel of a video is to be decoded. What the probe of the file does not hold
/// is refused at once.
pub open spec fn video_requested(e: EngineModel, path: Seq<char>, stream: usize, channel: usize) -> Outcome {
    let d = decode_started(e.state.decode);
    let started = said(with_decode(e, d), extracting_text(path, stream as nat, channel as nat));
    let refusal = match d.ltc_probe {
        Some(probe) => selection_error(probe, path, stream, channel),
        None => None,
    };
    match refusal {
        Some(error) => quiet(decode_refused(started, error)),
        None => Outcome {
            engine: started,
            effects: seq![
                Effect::DecodeVideo {
                    path,
                    stream,
                    channel,
                    generation: d.ltc_decode_generation,
                    use_libltc: d.use_libltc,
                    fps: d.decode_fps,
                    drop_frame: d.decode_drop_frame,
                },
            ],
            ask: None,
        },
    }
}

/// A video has been probed, or could not be.
pub open spec fn probe_told(e: EngineModel, answer: Result<VideoAudioProbe, String>) -> Outcome {
    match e.pending {
        Pending::Probe => {
            let d = e.state.decode;
            match answer {
                Ok(probe) => quiet(
                    idle(
                        said(
                            with_decode(
                                e,
                                DecodeModel {
                                    ltc_probe: Some(probe),
                                    ltc_selected_stream: 0,
                                    ltc_selected_channel: 0,
                                    ltc_decode_is_video: true,
                                    ..d
                                },
                            ),
                            probed_text(probe),
                        ),
                    ),
                ),
                Err(error) => quiet(
                    idle(
                        said(
                            with_decode(
                                e,
                                DecodeModel {
                                    ltc_probe: None,
                                    ltc_decode_error: Some(error@),
                                    ltc_decode_is_video: false,
                                    ..d
                                },
                            ),
                            "Video probe failed: "@ + error@,
                        ),
                    ),
                ),
            }
        },
        _ => quiet(e),
    }
}

// ── WAV files ──────────────────────────────────────────────────────────────

/// The chunks in which a WAV file is decoded.
pub open spec fn wav_chunks(reader: WavChunkReader) -> nat {
    let config = DecodeConfig { chunk_size_bytes: 50_000_000, overlap_nanos: 2_000_000_000 };
    let size = reader.frame_bytes();
    chunk_total(
        config,
        reader.header().sample_rate,
        if size == 0 {
            1
        } else {
            size as u64
        },
        reader.mono_samples() as nat,
    )
}

/// Counts the chunks in which a WAV file is decoded.
pub fn count_wav_chunks(reader: &WavChunkReader) -> (r: usize)
    ensures
        r == wav_chunks(*reader),
{
    let channels: u64 = reader.channels() as u64;
    let bytes: u64 = (reader.spec().bits_per_sample / 8) as u64;
    assert(channels * bytes <= 0xffff * 0x1fff) by (nonlinear_arith)
        requires
            channels <= 0xffff,
            bytes <= 0x1fff,
    ;
    let size: u64 = channels * bytes;
    assert(size == reader.frame_bytes());
    count_chunks(
        &DecodeConfig::default(),
        reader.sample_rate(),
        if size == 0 {
            1
        } else {
            size
        },
        reader.total_mono_samples(),
    )
}

/// A WAV file that is to be decoded has been opened, or could not be.
pub open spec fn wav_told(e: EngineModel, answer: Result<WavChunkReader, String>) -> Outcome {
    match e.pending {
        Pending::OpenWav(path) => match answer {
            Ok(reader) => {
                let d = decode_started(e.state.decode);
                let chunks = wav_chunks(reader);
                let started = said(
                    with_decode(e, d),
                    decoding_text(path, d.use_libltc, d.decode_fps, chunks),
                );
                Outcome {
                    engine: idle(
                        EngineModel {
                            cancellable: true,
                            decode_chunks: Some(chunks as usize),
                            ..started
                        },
                    ),
                    effects: seq![
                        Effect::DecodeWav {
                            path,
                            generation: d.ltc_decode_generation,
                            chunks: chunks as usize,
                            use_libltc: d.use_libltc,
                            fps: d.decode_fps,
                            drop_frame: d.decode_drop_frame,
                        },
                    ],
                    ask: None,
                }
            },
            Err(error) => quiet(idle(decode_refused(e, error@))),
        },
        _ => quiet(e),
    }
}

// ── Results ────────────────────────────────────────────────────────────────

/// A decode has ended. The result of any but the last one started is dropped.
pub open spec fn decode_told(
    e: EngineModel,
    generation: u64,
    result: Result<LtcDetectionResult, String>,
) -> EngineModel {
    let d = e.state.decode;
    if generation != d.ltc_decode_generation {
        e
    } else {
        let ended = DecodeModel {
            ltc_is_detecting: false,
            ltc_decode_progress: Share { num: 1, den: 1 },
            ltc_decode_progress_str: seq![],
            ..d
        };
        let free = EngineModel { cancellable: false, decode_chunks: None, ..e };
        match result {
            Ok(r) => said(
                with_decode(
                    free,
                    DecodeModel { ltc_decode_result: Some(r), ltc_decode_error: None, ..ended },
                ),
                summary_text(r),
            ),
            Err(error) => if error@ == CANCELED@ {
                said(
                    with_decode(
                        free,
                        DecodeModel { ltc_decode_result: None, ltc_decode_error: None, ..ended },
                    ),
                    "Decode canceled"@,
                )
            } else {
                said(
                    with_decode(
                        free,
                        DecodeModel {
                            ltc_decode_result: None,
                            ltc_decode_error: Some(error@),
                            ..ended
                        },
                    ),
                    "Parse failed: "@ + error@,
                )
            },
        }
    }
}

/// `done` chunks of the running decode are read.
pub open spec fn progress_told(e: EngineModel, done: usize) -> EngineModel {
    let d = e.state.decode;
    if d.ltc_is_detecting {
        match e.decode_chunks {
            Some(total) => with_decode(
                e,
                DecodeModel {
                    ltc_decode_progress: if total > 0 {
                        Share { num: done as u64, den: total as u64 }
                    } else {
                        Share { num: 0, den: 1 }
                    },
                    ltc_decode_progress_str: chunk_text(done as nat, total as nat),
                    ..d
                },
            ),
            None => e,
        }
    } else {
        with_decode(
            EngineModel { decode_chunks: None, ..e },
            DecodeModel {
                ltc_decode_progress: Share { num: 0, den: 1 },
                ltc_decode_progress_str: seq![],
                ..d
            },
        )
    }
}

/// What has come from the search for what ffmpeg can do.
#[derive(Clone, Debug)]
pub enum ProbeInbox {
    Received(FfmpegCapabilities),
    /// The search has ended without a result.
    Disconnected,
    Empty,
}

/// What is known of ffmpeg after a look for the result of the search.
pub open spec fn caps_told(f: FileModel, inbox: ProbeInbox) -> FileModel {
    if !f.ffmpeg_probe_running {
        f
    } else {
        match inbox {
            ProbeInbox::Received(caps) => FileModel {
                ffmpeg_caps: Some(caps),
                ffmpeg_probe_running: false,
                ..f
            },
            ProbeInbox::Disconnected => FileModel { ffmpeg_probe_running: false, ..f },
            ProbeInbox::Empty => f,
        }
    }
}

/// Takes the result of the search for what ffmpeg can do. Returns whether the search
/// has ended without one.
pub fn drain_ffmpeg_probe_result(inbox: ProbeInbox, files: &mut FileFacts) -> (r: bool)
    ensures
        final(files)@ == caps_told(old(files)@, inbox),
        r == (old(files).ffmpeg_probe_running && inbox is Disconnected),
{
    if !files.ffmpeg_probe_running {
        return false;
    }
    match inbox {
        ProbeInbox::Received(caps) => {
            files.ffmpeg_caps = Some(caps);
            files.ffmpeg_probe_running = false;
            false
        },
        ProbeInbox::Disconnected => {
            files.ffmpeg_probe_running = false;
            true
        },
        ProbeInbox::Empty => false,
    }
}

impl Engine {
    fn start_decode(&mut self) -> (generation: u64)
        ensures
            final(self)@ == with_decode(old(self)@, decode_started(old(self)@.state.decode)),
            generation == final(self)@.state.decode.ltc_decode_generation,
    {
        let last: u64 = self.state.decode.ltc_decode_generation;
        let generation: u64 = if last == u64::MAX {
            0
        } else {
            last + 1
        };
        self.state.decode.ltc_is_detecting = true;
        self.state.decode.ltc_decode_result = None;
        self.state.decode.ltc_decode_error = None;
        self.state.decode.ltc_decode_generation = generation;
        generation
    }

    fn refuse_decode(&mut self, error: String)
        ensures
            final(self)@ == decode_refused(old(self)@, error@),
    {
        self.state.decode.ltc_is_detecting = false;
        self.state.notices.status_message = concat2("Parse failed: ", error.as_str());
        self.state.decode.ltc_decode_error = Some(error);
    }

    /// Has a channel of a video decoded.
    pub fn request_video(&mut self, path: String, stream: usize, channel: usize) -> (t: Turn)
        ensures
            outcome(final(self)@, t) == video_requested(old(self)@, path@, stream, channel),
            old(self)@.valid() ==> final(self)@.valid(),
    {
        let generation: u64 = self.start_decode();
        self.state.notices.status_message = extracting_line(path.as_str(), stream, channel);
        let refusal: Option<String> = match &self.state.decode.ltc_probe {
            Some(probe) => check_selection(probe, path.as_str(), stream, channel),
            None => None,
        };
        match refusal {
            Some(error) => {
                self.refuse_decode(error);
                turn_quiet()
            },
            None => turn_first(
                Effect::DecodeVideo {
                    path,
                    stream,
                    channel,
                    generation,
                    use_libltc: self.state.decode.use_libltc,
                    fps: self.state.decode.decode_fps,
                    drop_frame: self.state.decode.decode_drop_frame,
                },
                turn_quiet(),
            ),
        }
    }

    /// A video has been probed, or could not be.
    pub fn probe_answered(&mut self, answer: Result<VideoAudioProbe, String>) -> (t: Turn)
        requires
            old(self)@.valid(),
        ensures
            outcome(final(self)@, t) == probe_told(old(self)@, answer),
            final(self)@.valid(),
    {
        if !matches!(self.pending, Pending::Probe) {
            return turn_quiet();
        }
        self.pending = Pending::Idle;
        match answer {
            Ok(probe) => {
                self.state.notices.status_message = probed_line(&probe);
                self.state.decode.ltc_probe = Some(probe);
                self.state.decode.ltc_selected_stream = 0;
                self.state.decode.ltc_selected_channel = 0;
                self.state.decode.ltc_decode_is_video = true;
            },
            Err(error) => {
                self.state.notices.status_message = concat2("Video probe failed: ", error.as_str());
                self.state.decode.ltc_probe = None;
                self.state.decode.ltc_decode_error = Some(error);
                self.state.decode.ltc_decode_is_video = false;
            },
        }
        turn_quiet()
    }

    /// A WAV file that is to be decoded has been opened, or could not be.
    pub fn wav_answered(&mut self, answer: Result<WavChunkReader, String>) -> (t: Turn)
        requires
            old(self)@.valid(),
        ensures
            outcome(final(self)@, t) == wav_told(old(self)@, answer),
            final(self)@.valid(),
    {
        match self.take_pending() {
            Pending::OpenWav(path) => match answer {
                Ok(reader) => {
                    let chunks: usize = count_wav_chunks(&reader);
                    let generation: u64 = self.start_decode();
                    let use_libltc = self.state.decode.use_libltc;
                    let fps = self.state.decode.decode_fps;
                    let drop_frame = self.state.decode.decode_drop_frame;
                    self.state.notices.status_message = decoding_line(
                        path.as_str(),
                        use_libltc,
                        &fps,
                        chunks,
                    );
                    self.cancellable = true;
                    self.decode_chunks = Some(chunks);
                    turn_first(
                        Effect::DecodeWav { path, generation, chunks, use_libltc, fps, drop_frame },
                        turn_quiet(),
                    )
                },
                Err(error) => {
                    self.refuse_decode(error);
                    turn_quiet()
                },
            },
            other => {
                self.pending = other;
                turn_quiet()
            },
        }
    }

    /// A decode has ended.
    pub fn decode_ended(&mut self, generation: u64, result: Result<LtcDetectionResult, String>)
        requires
            old(self)@.valid(),
            result matches Ok(r) ==> r.detected_fps.den > 0,
        ensures
            final(self)@ == decode_told(old(self)@, generation, result),
            final(self)@.valid(),
    {
        if generation != self.state.decode.ltc_decode_generation {
            return ;
        }
        self.cancellable = false;
        self.decode_chunks = None;
        self.state.decode.ltc_is_detecting = false;
        self.state.decode.ltc_decode_progress = Share { num: 1, den: 1 };
        self.state.decode.ltc_decode_progress_str = String::new();
        match result {
            Ok(r) => {
                self.state.notices.status_message = summary(&r);
                self.state.decode.ltc_decode_result = Some(r);
                self.state.decode.ltc_decode_error = None;
            },
            Err(error) => {
                self.state.decode.ltc_decode_result = None;
                if same(error.as_str(), CANCELED) {
                    self.state.decode.ltc_decode_error = None;
                    self.state.notices.status_message = "Decode canceled".to_owned();
                } else {
                    self.state.notices.status_message = concat2("Parse failed: ", error.as_str());
                    self.state.decode.ltc_decode_error = Some(error);
                }
            },
        }
    }

    /// Shows how many chunks of the running decode are read.
    pub fn poll_progress(&mut self, done: usize)
        requires
            old(self)@.valid(),
        ensures
            final(self)@ == progress_told(old(self)@, done),
            final(self)@.valid(),
    {
        if self.state.decode.ltc_is_detecting {
            if let Some(total) = self.decode_chunks {
                self.state.decode.ltc_decode_progress = if total > 0 {
                    Share { num: done as u64, den: total as u64 }
                } else {
                    Share { num: 0, den: 1 }
                };
                self.state.decode.ltc_decode_progress_str = chunk_line(done, total);
            }
        } else {
            self.decode_chunks = None;
            self.state.decode.ltc_decode_progress = Share { num: 0, den: 1 };
            self.state.decode.ltc_decode_progress_str = String::new();
        }
    }

    /// Keeps what a clip of a group held.
    pub fn clip_decoded(&mut self, clip: ClipResult)
        requires
            old(self)@.valid(),
        ensures
            final(self)@ == with_decode(
                old(self)@,
                DecodeModel {
                    ltc_group_results: old(self)@.state.decode.ltc_group_results.push(clip),
                    ..old(self)@.state.decode
                },
            ),
            final(self)@.valid(),
    {
        self.state.decode.ltc_group_results.push(clip);
    }

    /// Keeps how long a file is.
    pub fn duration_probed(&mut self, duration: FileDuration)
        requires
            old(self)@.valid(),
        ensures
            final(self)@ == with_files(
                old(self)@,
                FileModel {
                    file_durations: old(self)@.state.files.file_durations.push(duration),
                    ..old(self)@.state.files
                },
            ),
            final(self)@.valid(),
    {
        self.state.files.file_durations.push(duration);
    }
}

/// Only the decode that was started last is heard: the result of any other changes
/// nothing.
pub proof fn law_stale_results_are_dropped(
    e: EngineModel,
    generation: u64,
    result: Result<LtcDetectionResult, String>,
)
    requires
        generation != e.state.decode.ltc_decode_generation,
    ensures
        decode_told(e, generation, result) == e,
{
}

/// The decode that is started supersedes the one before it: a result of the earlier
/// one, which comes later, is dropped.
pub proof fn law_new_decode_supersedes(
    e: EngineModel,
    path: Seq<char>,
    stream: usize,
    channel: usize,
    result: Result<LtcDetectionResult, String>,
)
    ensures
        ({
            let after = video_requested(e, path, stream, channel).engine;
            decode_told(after, e.state.decode.ltc_decode_generation, result) == after
        }),
{
}

} // verus!
