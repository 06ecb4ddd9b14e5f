//! Running a conversion: which commands are due, what becomes of their outcomes,
//! and what is told at the end.
//!
//! A [`Conversion`] hands out one command at a time and is told how it ended.

use vstd::prelude::*;

use crate::capabilities::FfmpegCapabilities;
use crate::channel_map::input_for;
use crate::fallback::{
    device_for, device_model, first_ready, next_ready, passed_over, skip_log, EncoderFallback,
    Fallback, HwDeviceContext,
};
use crate::ffmpeg_args::{
    audio_args, build_audio_to_audio_args, build_audio_to_synthetic_video_args,
    build_split_track_args, build_step_args, meta_at, meta_of, rates_valid, split_track_args,
    step_args, step_in_range, synthetic_args,
};
use crate::ffprobe::{AudioStreamInfo, VideoAudioProbe};
use crate::formats::{audio_encoder_to_output_format, audio_output_format, extension_for_container};
use crate::planner::{
    channel_step, channel_steps, concat_plan, file_steps, joined_tracks, kept, layouts_of,
    list_channels, plan_concat_outputs, plan_file, segments_upto, single_tracks, steps_of,
    video_path, Layout, Step, VideoOutputStep,
};
use crate::progress::{
    end_failure, end_log, finish_run, format_step_label, step_label, Run, RunEnd, StepFailure,
    StepRun, FULL,
};
use crate::settings::{ConversionPipeline, ConverterSettings};
use crate::text::{concat2, concat3, decimal, join, joined, push_decimal, strs, trim, trimmed};
use crate::video_codecs::{
    normalize_video_codec, normalized_codec, resolve_encoder_chain, resolved_chain, static_chain,
    static_encoder_chain,
};

verus! {

// ── What is shown ──────────────────────────────────────────────────────────

/// How far a conversion is.
#[derive(Clone, Debug, PartialEq)]
pub enum ConversionStatus {
    Idle,
    /// Under way; the progress is in millionths.
    Running { progress: u32 },
    Completed,
    Failed { error_log: String },
}

/// What is shown of a conversion.
#[derive(Clone, Debug)]
pub struct ConversionState {
    pub status: ConversionStatus,
    pub ffmpeg_output: String,
    pub current_line: String,
}

impl ConversionState {
    /// Nothing under way.
    pub fn idle() -> (r: ConversionState)
        ensures
            r.status is Idle,
            r.ffmpeg_output@ == Seq::<char>::empty(),
            r.current_line@ == Seq::<char>::empty(),
    {
        ConversionState {
            status: ConversionStatus::Idle,
            ffmpeg_output: String::new(),
            current_line: String::new(),
        }
    }
}

/// The name of a pipeline.
pub open spec fn pipeline_text(p: ConversionPipeline) -> Seq<char> {
    match p {
        ConversionPipeline::VideoPassthrough => "VideoPassthrough"@,
        ConversionPipeline::AudioOnly { generate_synthetic_video } => if generate_synthetic_video {
            "AudioOnly { generate_synthetic_video: true }"@
        } else {
            "AudioOnly { generate_synthetic_video: false }"@
        },
    }
}

/// The number of steps that is shown at the start.
pub open spec fn announced_steps(s: ConverterSettings) -> nat {
    match s.pipeline {
        ConversionPipeline::VideoPassthrough => s.input_files@.len(),
        _ => if s.split_tracks {
            s.channel_map@.len()
        } else {
            1
        },
    }
}

/// What is shown when a conversion starts, or when it was cancelled before.
pub fn opening_state(settings: &ConverterSettings, cancelled: bool) -> (r: ConversionState)
    ensures
        cancelled ==> (r.status matches ConversionStatus::Failed { error_log } && error_log@
            == "Canceled before start"@),
        !cancelled ==> r.status == (ConversionStatus::Running { progress: 0 }),
        r.ffmpeg_output@ == "Pipeline: "@ + pipeline_text(settings.pipeline) + ", "@ + decimal(
            announced_steps(*settings),
        ) + " steps"@,
        r.current_line@ == Seq::<char>::empty(),
{
    let name = match settings.pipeline {
        ConversionPipeline::VideoPassthrough => "VideoPassthrough",
        ConversionPipeline::AudioOnly { generate_synthetic_video } => if generate_synthetic_video {
            "AudioOnly { generate_synthetic_video: true }"
        } else {
            "AudioOnly { generate_synthetic_video: false }"
        },
    };
    let steps: usize = match settings.pipeline {
        ConversionPipeline::VideoPassthrough => settings.input_files.len(),
        _ => if settings.split_tracks {
            settings.channel_map.num_channels()
        } else {
            1
        },
    };
    let mut text = concat3("Pipeline: ", name, ", ");
    push_decimal(&mut text, steps as u64);
    text.append(" steps");
    let status = if cancelled {
        ConversionStatus::Failed { error_log: "Canceled before start".to_string() }
    } else {
        ConversionStatus::Running { progress: 0 }
    };
    ConversionState { status, ffmpeg_output: text, current_line: String::new() }
}

// ── Encoders ───────────────────────────────────────────────────────────────

/// The video is copied.
pub open spec fn copies(s: ConverterSettings) -> bool {
    s.copy_video && s.pipeline == ConversionPipeline::VideoPassthrough
}

/// The encoders that a conversion may use: those of the codec that ffmpeg has,
/// or all of the codec's where nothing is known of ffmpeg or it has none. A
/// copied video needs none.
pub open spec fn chain_for(s: ConverterSettings, available: Option<Seq<Seq<char>>>) -> Seq<Seq<char>> {
    let codec = normalized_codec(s.video_encoder@);
    if copies(s) {
        seq![]
    } else {
        match available {
            Some(encoders) => if resolved_chain(codec, encoders).len() > 0 {
                resolved_chain(codec, encoders)
            } else {
                static_chain(codec)
            },
            None => static_chain(codec),
        }
    }
}

/// The encoders of an ffmpeg that works.
pub open spec fn working_encoders(caps: Option<&FfmpegCapabilities>) -> Option<Seq<Seq<char>>> {
    match caps {
        Some(c) => if c.has_ffmpeg {
            Some(c.encoders())
        } else {
            None
        },
        None => None,
    }
}

/// The encoders that a conversion may use, in order.
pub fn encoder_chain(settings: &ConverterSettings, caps: Option<&FfmpegCapabilities>) -> (r: Vec<
    String,
>)
    ensures
        strs(r@) == chain_for(*settings, working_encoders(caps)),
{
    let nothing: Vec<String> = Vec::new();
    assert(strs(nothing@) =~= seq![]);
    if settings.copy_video && settings.pipeline == ConversionPipeline::VideoPassthrough {
        return nothing;
    }
    let codec = normalize_video_codec(settings.video_encoder.as_str());
    match caps {
        Some(c) => {
            if c.has_ffmpeg {
                let chain = resolve_encoder_chain(codec, c);
                assert(strs(chain@).len() == chain@.len());
                if chain.len() > 0 {
                    return chain;
                }
            }
        },
        None => {},
    }
    static_encoder_chain(codec)
}

/// The hardware devices of an ffmpeg that works.
pub fn device_context(caps: Option<&FfmpegCapabilities>) -> (r: HwDeviceContext)
    ensures
        match caps {
            Some(c) => if c.has_ffmpeg {
                r.vulkan_available == c.hw.vulkan_available && r.vaapi() == match c.hw.vaapi_device {
                    Some(path) => Some(path@),
                    None => None,
                }
            } else {
                !r.vulkan_available && r.vaapi() is None
            },
            None => !r.vulkan_available && r.vaapi() is None,
        },
{
    match caps {
        Some(c) => {
            if c.has_ffmpeg {
                let vaapi_device = match &c.hw.vaapi_device {
                    Some(path) => Some(path.clone()),
                    None => None,
                };
                return HwDeviceContext { vaapi_device, vulkan_available: c.hw.vulkan_available };
            }
        },
        None => {},
    }
    HwDeviceContext::default()
}

// ── Jobs ───────────────────────────────────────────────────────────────────

/// What a job does.
#[derive(Clone, Debug)]
pub enum Task {
    /// Runs ffmpeg with the given arguments.
    Fixed(Vec<String>),
    /// Puts audio under a picture, with whichever encoder works.
    Synthetic,
    /// Writes a planned output, with whichever encoder works.
    Encoded(VideoOutputStep),
}

/// One output of a conversion.
#[derive(Clone, Debug)]
pub struct Job {
    pub task: Task,
    pub output: String,
    pub label: String,
    /// The job's share of the conversion, in millionths.
    pub weight: u32,
    /// Whether its share is counted a second time when it is done.
    pub twice: bool,
    /// Whether a conversion that is cancelled stops before it.
    pub stoppable: bool,
}

/// The model of [`Task`].
#[verifier::ext_equal]
pub enum TaskModel {
    Fixed(Seq<Seq<char>>),
    Synthetic,
    Encoded(Step),
}

/// The model of [`Job`].
#[verifier::ext_equal]
pub struct JobModel {
    pub task: TaskModel,
    pub output: Seq<char>,
    pub label: Seq<char>,
    pub weight: nat,
    pub twice: bool,
    pub stoppable: bool,
}

impl View for Task {
    type V = TaskModel;

    open spec fn view(&self) -> TaskModel {
        match self {
            Task::Fixed(args) => TaskModel::Fixed(strs(args@)),
            Task::Synthetic => TaskModel::Synthetic,
            Task::Encoded(step) => TaskModel::Encoded(step@),
        }
    }
}

impl View for Job {
    type V = JobModel;

    open spec fn view(&self) -> JobModel {
        JobModel {
            task: self.task@,
            output: self.output@,
            label: self.label@,
            weight: self.weight as nat,
            twice: self.twice,
            stoppable: self.stoppable,
        }
    }
}

/// The jobs of a list.
pub open spec fn jobs_of(v: Seq<Job>) -> Seq<JobModel> {
    v.map_values(|j: Job| j@)
}

fn push_job(jobs: &mut Vec<Job>, job: Job)
    ensures
        jobs_of(final(jobs)@) == jobs_of(old(jobs)@).push(job@),
        final(jobs)@.len() == old(jobs)@.len() + 1,
{
    jobs.push(job);
    assert(jobs_of(jobs@) =~= jobs_of(old(jobs)@).push(job@));
}

/// The streams that commands are built with: those of the first file, none where it
/// could not be probed.
pub open spec fn first_streams(probes: Seq<Option<VideoAudioProbe>>) -> Seq<AudioStreamInfo> {
    if probes.len() > 0 && probes[0] is Some {
        probes[0]->0.streams@
    } else {
        seq![]
    }
}

/// The jobs for the first `n` tracks of a conversion with split tracks.
pub open spec fn track_jobs(s: ConverterSettings, sample_rate: u32, n: int) -> Seq<JobModel>
    decreases n,
{
    if n <= 0 {
        seq![]
    } else {
        let before = track_jobs(s, sample_rate, n - 1);
        let track = n - 1;
        let (format, extension) = audio_output_format(s.audio_encoder@);
        let total = s.channel_map@.len();
        if s.drop_ltc_track && track == s.ltc_track_channel_index {
            before
        } else {
            before.push(
                JobModel {
                    task: TaskModel::Fixed(
                        split_track_args(
                            s,
                            format,
                            track,
                            meta_of(s, input_for(s.channel_map@, track, track)),
                            sample_rate,
                        ),
                    ),
                    output: s.path_for("audio"@, 0, n as nat, extension),
                    label: step_label(1, total),
                    weight: FULL as nat / total,
                    twice: true,
                    stoppable: true,
                },
            )
        }
    }
}

/// The job that puts all tracks into one file.
pub open spec fn mixed_job(s: ConverterSettings, sample_rate: u32) -> JobModel {
    let (format, extension) = audio_output_format(s.audio_encoder@);
    JobModel {
        task: TaskModel::Fixed(audio_args(s, format, meta_of(s, 0), sample_rate)),
        output: s.path_for("audio"@, 0, 0, extension),
        label: step_label(1, 1),
        weight: FULL as nat,
        twice: false,
        stoppable: false,
    }
}

/// The job that puts audio under a picture.
pub open spec fn synthetic_job(s: ConverterSettings) -> JobModel {
    JobModel {
        task: TaskModel::Synthetic,
        output: s.path_for("video"@, 0, 1, s.container@),
        label: step_label(1, 1),
        weight: FULL as nat,
        twice: false,
        stoppable: false,
    }
}

/// The steps of the first `n` files, planned one by one.
pub open spec fn planned_steps(s: ConverterSettings, clips: Seq<Option<Layout>>, n: int) -> Seq<Step>
    decreases n,
{
    if n <= 0 {
        seq![]
    } else {
        planned_steps(s, clips, n - 1) + file_steps(
            s,
            s.container@,
            (n - 1) as usize,
            match clips[n - 1] {
                Some(l) => l.channels,
                None => seq![],
            },
        )
    }
}

/// The videos without audio of all files.
pub open spec fn silent_videos(s: ConverterSettings) -> Seq<Step> {
    Seq::new(
        s.input_files@.len(),
        |i: int| Step::VideoOnly { file_idx: i as usize, output: video_path(s, i, s.container@) },
    )
}

/// The job for one of the steps of a conversion of videos. Joined tracks and
/// copied videos need no encoder.
pub open spec fn step_job(
    s: ConverterSettings,
    probes: Seq<Option<VideoAudioProbe>>,
    step: Step,
    plain: bool,
    number: nat,
    total: nat,
) -> JobModel {
    JobModel {
        task: if plain || s.copy_video {
            TaskModel::Fixed(step_args(s, step, first_streams(probes)))
        } else {
            TaskModel::Encoded(step)
        },
        output: step.output(),
        label: step_label(number, total),
        weight: FULL as nat / total,
        twice: true,
        stoppable: true,
    }
}

/// The jobs of a conversion of videos: `first` steps with an encoder, the others
/// without.
pub open spec fn step_jobs(
    s: ConverterSettings,
    probes: Seq<Option<VideoAudioProbe>>,
    steps: Seq<Step>,
    first: int,
) -> Seq<JobModel> {
    Seq::new(
        steps.len(),
        |i: int| step_job(s, probes, steps[i], i >= first, (i + 1) as nat, steps.len()),
    )
}

/// The jobs of a conversion, and what is logged about the plan.
pub open spec fn planned_jobs(
    s: ConverterSettings,
    probes: Seq<Option<VideoAudioProbe>>,
    sample_rate: u32,
) -> (Seq<JobModel>, Seq<char>) {
    match s.pipeline {
        ConversionPipeline::AudioOnly { generate_synthetic_video } => if generate_synthetic_video {
            (seq![synthetic_job(s)], seq![])
        } else if s.split_tracks {
            (track_jobs(s, sample_rate, s.channel_map@.len() as int), seq![])
        } else {
            (seq![mixed_job(s, sample_rate)], seq![])
        },
        ConversionPipeline::VideoPassthrough => {
            let clips = layouts_of(probes);
            if s.joins_clips() {
                let (audio, warnings) = concat_plan(s, clips);
                (
                    step_jobs(
                        s,
                        probes,
                        silent_videos(s) + audio,
                        silent_videos(s).len() as int,
                    ),
                    if warnings.len() > 0 {
                        "\n--- "@ + trimmed(warnings) + "\n"@
                    } else {
                        seq![]
                    },
                )
            } else {
                let steps = planned_steps(s, clips, clips.len() as int);
                (step_jobs(s, probes, steps, steps.len() as int), seq![])
            }
        },
    }
}

/// What the jobs of a conversion can be made of: every file has a probe or was
/// found to have none, start timecodes have real rates, and output channels can
/// be numbered.
pub open spec fn convertible(s: ConverterSettings, probes: Seq<Option<VideoAudioProbe>>) -> bool {
    &&& s.pipeline == ConversionPipeline::VideoPassthrough ==> probes.len() == s.input_files@.len()
    &&& rates_valid(s)
    &&& forall|i: int| 0 <= i < s.channel_map@.len() ==> #[trigger] s.channel_map@[i] < usize::MAX
}

// ── Planning ───────────────────────────────────────────────────────────────

/// Every step of a list can be built.
pub open spec fn all_in_range(s: ConverterSettings, steps: Seq<Step>) -> bool {
    forall|i: int| 0 <= i < steps.len() ==> step_in_range(s, #[trigger] steps[i])
}

proof fn lemma_append_in_range(s: ConverterSettings, a: Seq<Step>, b: Seq<Step>)
    requires
        all_in_range(s, a),
        all_in_range(s, b),
    ensures
        all_in_range(s, a + b),
{
    assert forall|i: int| 0 <= i < (a + b).len() implies step_in_range(s, #[trigger] (a + b)[i]) by {
        if i < a.len() {
            assert((a + b)[i] == a[i]);
        } else {
            assert((a + b)[i] == b[i - a.len()]);
        }
    }
}

proof fn lemma_planned_in_range(s: ConverterSettings, clips: Seq<Option<Layout>>, n: int)
    requires
        n <= clips.len(),
        clips.len() == s.input_files@.len(),
        clips.len() <= usize::MAX,
    ensures
        all_in_range(s, planned_steps(s, clips, n)),
    decreases n,
{
    if n > 0 {
        lemma_planned_in_range(s, clips, n - 1);
        let channels = match clips[n - 1] {
            Some(l) => l.channels,
            None => seq![],
        };
        let more = file_steps(s, s.container@, (n - 1) as usize, channels);
        let kept_channels = kept(channels, s.dropped());
        assert forall|i: int| 0 <= i < more.len() implies step_in_range(s, #[trigger] more[i]) by {
            if s.split_tracks && i > 0 {
                assert(more[i] == channel_step(s, (n - 1) as usize, kept_channels, i - 1));
            }
        }
        lemma_append_in_range(s, planned_steps(s, clips, n - 1), more);
    }
}

proof fn lemma_segments_in_range(clips: Seq<Option<Layout>>, channel: (usize, usize), n: int)
    requires
        n <= clips.len() <= usize::MAX,
    ensures
        forall|i: int|
            0 <= i < segments_upto(clips, channel, n).len() ==> (#[trigger] segments_upto(
                clips,
                channel,
                n,
            )[i]).0 < clips.len(),
    decreases n,
{
    if n > 0 {
        lemma_segments_in_range(clips, channel, n - 1);
        let before = segments_upto(clips, channel, n - 1);
        let now = segments_upto(clips, channel, n);
        assert forall|i: int| 0 <= i < now.len() implies (#[trigger] now[i]).0 < clips.len() by {
            if i < before.len() {
                assert(now[i] == before[i]);
            }
        }
    }
}

proof fn lemma_joined_in_range(
    s: ConverterSettings,
    clips: Seq<Option<Layout>>,
    channels: Seq<(usize, usize)>,
    rate: u32,
    n: int,
)
    requires
        clips.len() == s.input_files@.len(),
        clips.len() <= usize::MAX,
    ensures
        all_in_range(s, joined_tracks(s, clips, channels, rate, n)),
    decreases n,
{
    if n > 0 {
        lemma_joined_in_range(s, clips, channels, rate, n - 1);
        let before = joined_tracks(s, clips, channels, rate, n - 1);
        let now = joined_tracks(s, clips, channels, rate, n);
        lemma_segments_in_range(clips, channels[n - 1], clips.len() as int);
        assert forall|i: int| 0 <= i < now.len() implies step_in_range(s, #[trigger] now[i]) by {
            if i < before.len() {
                assert(now[i] == before[i]);
            }
        }
    }
}

proof fn lemma_single_in_range(s: ConverterSettings, clips: Seq<Option<Layout>>, n: int)
    requires
        n <= clips.len(),
        clips.len() == s.input_files@.len(),
        clips.len() <= usize::MAX,
    ensures
        all_in_range(s, single_tracks(s, clips, n)),
    decreases n,
{
    if n > 0 {
        lemma_single_in_range(s, clips, n - 1);
        if let Some(l) = clips[n - 1] {
            let kept_channels = kept(l.channels, s.dropped());
            let more = channel_steps(s, (n - 1) as usize, kept_channels);
            assert forall|i: int| 0 <= i < more.len() implies step_in_range(
                s,
                #[trigger] more[i],
            ) by {
                assert(more[i] == channel_step(s, (n - 1) as usize, kept_channels, i));
            }
            lemma_append_in_range(s, single_tracks(s, clips, n - 1), more);
        }
    }
}

proof fn lemma_concat_in_range(s: ConverterSettings, clips: Seq<Option<Layout>>)
    requires
        clips.len() == s.input_files@.len(),
        clips.len() <= usize::MAX,
    ensures
        all_in_range(s, concat_plan(s, clips).0),
        all_in_range(s, silent_videos(s)),
{
    lemma_single_in_range(s, clips, clips.len() as int);
    if let Some(channels) = crate::planner::reference_channels(clips, 0) {
        lemma_joined_in_range(
            s,
            clips,
            channels,
            crate::planner::reference_rate(clips, 0),
            channels.len() as int,
        );
    }
}

fn plan_track_jobs(settings: &ConverterSettings, sample_rate: u32) -> (r: Vec<Job>)
    requires
        rates_valid(*settings),
    ensures
        jobs_of(r@) == track_jobs(*settings, sample_rate, settings.channel_map@.len() as int),
{
    let (format, extension) = audio_encoder_to_output_format(settings.audio_encoder.as_str());
    let n: usize = settings.channel_map.num_channels();
    let mut jobs: Vec<Job> = Vec::new();
    let mut track: usize = 0;
    assert(jobs_of(jobs@) =~= seq![]);
    while track < n
        invariant
            track <= n,
            n == settings.channel_map@.len(),
            rates_valid(*settings),
            (format@, extension@) == audio_output_format(settings.audio_encoder@),
            jobs_of(jobs@) == track_jobs(*settings, sample_rate, track as int),
        decreases n - track,
    {
        if !(settings.drop_ltc_track && track == settings.ltc_track_channel_index) {
            let input = settings.channel_map.input_of(track);
            let meta = meta_at(settings, input);
            let args = build_split_track_args(settings, format, track, meta, sample_rate);
            let output = settings.output_path_for_index("audio", track + 1, extension);
            let weight = weight_of(n);
            push_job(
                &mut jobs,
                Job {
                    task: Task::Fixed(args),
                    output,
                    label: format_step_label(1, n),
                    weight,
                    twice: true,
                    stoppable: true,
                },
            );
        }
        track += 1;
    }
    jobs
}

fn weight_of(total: usize) -> (r: u32)
    requires
        total > 0,
    ensures
        r == FULL as nat / total as nat,
{
    let q: u64 = FULL as u64 / total as u64;
    assert(q <= FULL) by (nonlinear_arith)
        requires
            q == 1_000_000int / (total as int),
            total > 0,
            FULL == 1_000_000,
    ;
    q as u32
}

fn plan_file_steps(settings: &ConverterSettings, probes: &[Option<VideoAudioProbe>]) -> (r: Vec<
    VideoOutputStep,
>)
    ensures
        steps_of(r@) == planned_steps(*settings, layouts_of(probes@), probes@.len() as int),
{
    let n: usize = probes.len();
    let mut steps: Vec<VideoOutputStep> = Vec::new();
    let mut i: usize = 0;
    assert(steps_of(steps@) =~= seq![]);
    while i < n
        invariant
            i <= n,
            n == probes@.len(),
            steps_of(steps@) == planned_steps(*settings, layouts_of(probes@), i as int),
        decreases n - i,
    {
        let channels = match &probes[i] {
            Some(probe) => list_channels(probe),
            None => Vec::new(),
        };
        let ghost model = layouts_of(probes@)[i as int];
        assert(channels@ =~= match model {
            Some(l) => l.channels,
            None => seq![],
        });
        let mut more = plan_file(settings, settings.container.as_str(), i, &channels);
        let ghost before = steps@;
        let ghost added = more@;
        steps.append(&mut more);
        assert(steps_of(steps@) =~= steps_of(before) + steps_of(added));
        i += 1;
    }
    steps
}

fn plan_silent_videos(settings: &ConverterSettings) -> (r: Vec<VideoOutputStep>)
    ensures
        steps_of(r@) == silent_videos(*settings),
{
    let n: usize = settings.input_files.len();
    let ghost wanted = silent_videos(*settings);
    let mut steps: Vec<VideoOutputStep> = Vec::new();
    let mut i: usize = 0;
    assert(steps_of(steps@) =~= wanted.take(0));
    while i < n
        invariant
            i <= n,
            n == settings.input_files@.len(),
            wanted == silent_videos(*settings),
            steps_of(steps@) == wanted.take(i as int),
        decreases n - i,
    {
        let output = settings.output_path_for_file(
            "video",
            i,
            i + 1,
            extension_for_container(settings.container.as_str()),
        );
        let step = VideoOutputStep::VideoOnly { file_idx: i, output };
        let ghost before = steps_of(steps@);
        steps.push(step);
        assert(steps_of(steps@) =~= before.push(wanted[i as int]));
        assert(wanted.take(i + 1) =~= wanted.take(i as int).push(wanted[i as int]));
        i += 1;
    }
    assert(wanted.take(n as int) =~= wanted);
    steps
}

fn args_for_step(
    settings: &ConverterSettings,
    probes: &[Option<VideoAudioProbe>],
    step: &VideoOutputStep,
) -> (r: Vec<String>)
    requires
        step_in_range(*settings, step@),
        rates_valid(*settings),
    ensures
        strs(r@) == step_args(*settings, step@, first_streams(probes@)),
{
    if probes.len() > 0 {
        match &probes[0] {
            Some(probe) => {
                return build_step_args(settings, step, probe);
            },
            None => {},
        }
    }
    let none = VideoAudioProbe {
        streams: Vec::new(),
        total_audio_channels: 0,
        is_video_file: true,
    };
    assert(none.streams@ =~= seq![]);
    build_step_args(settings, step, &none)
}

fn jobs_for_steps(
    settings: &ConverterSettings,
    probes: &[Option<VideoAudioProbe>],
    steps: Vec<VideoOutputStep>,
    first: usize,
) -> (r: Vec<Job>)
    requires
        all_in_range(*settings, steps_of(steps@)),
        rates_valid(*settings),
    ensures
        jobs_of(r@) == step_jobs(*settings, probes@, steps_of(steps@), first as int),
{
    let n: usize = steps.len();
    let ghost models = steps_of(steps@);
    let ghost wanted = step_jobs(*settings, probes@, models, first as int);
    let mut rest = steps;
    let mut jobs: Vec<Job> = Vec::new();
    // Taken from the end, so that each step moves into its job.
    let mut left: usize = n;
    let mut reversed: Vec<VideoOutputStep> = Vec::new();
    while left > 0
        invariant
            left <= n,
            n == models.len(),
            rest@.len() == left,
            forall|k: int| 0 <= k < left ==> (#[trigger] rest@[k])@ == models[k],
            reversed@.len() == n - left,
            forall|k: int|
                0 <= k < n - left ==> (#[trigger] reversed@[k])@ == models[n - 1 - k],
        decreases left,
    {
        match rest.pop() {
            Some(step) => {
                reversed.push(step);
            },
            None => {},
        }
        left -= 1;
    }
    let mut i: usize = 0;
    assert(jobs_of(jobs@) =~= wanted.take(0));
    while i < n
        invariant
            i <= n,
            n == models.len(),
            wanted == step_jobs(*settings, probes@, models, first as int),
            all_in_range(*settings, models),
            rates_valid(*settings),
            reversed@.len() == n - i,
            forall|k: int| 0 <= k < n - i ==> (#[trigger] reversed@[k])@ == models[n - 1 - k],
            jobs_of(jobs@) == wanted.take(i as int),
        decreases n - i,
    {
        match reversed.pop() {
            Some(step) => {
                assert(step@ == models[i as int]);
                let output = step.output().to_owned();
                let plain = i >= first || settings.copy_video;
                let task = if plain {
                    Task::Fixed(args_for_step(settings, probes, &step))
                } else {
                    Task::Encoded(step)
                };
                let weight = weight_of(n);
                let job = Job {
                    task,
                    output,
                    label: format_step_label(i + 1, n),
                    weight,
                    twice: true,
                    stoppable: true,
                };
                assert(job@ == wanted[i as int]);
                push_job(&mut jobs, job);
            },
            None => {},
        }
        assert(wanted.take(i + 1) =~= wanted.take(i as int).push(wanted[i as int]));
        i += 1;
    }
    assert(wanted.take(n as int) =~= wanted);
    jobs
}

fn plan_jobs(
    settings: &ConverterSettings,
    probes: &[Option<VideoAudioProbe>],
    sample_rate: u32,
) -> (r: (Vec<Job>, String))
    requires
        convertible(*settings, probes@),
    ensures
        (jobs_of(r.0@), r.1@) == planned_jobs(*settings, probes@, sample_rate),
{
    let mut log = String::new();
    assert(log@ =~= seq![]);
    let mut jobs: Vec<Job> = Vec::new();
    assert(jobs_of(jobs@) =~= seq![]);
    match settings.pipeline {
        ConversionPipeline::AudioOnly { generate_synthetic_video } => {
            if generate_synthetic_video {
                let output = settings.output_path_for_index(
                    "video",
                    1,
                    extension_for_container(settings.container.as_str()),
                );
                push_job(
                    &mut jobs,
                    Job {
                        task: Task::Synthetic,
                        output,
                        label: format_step_label(1, 1),
                        weight: FULL,
                        twice: false,
                        stoppable: false,
                    },
                );
                assert(jobs_of(jobs@) =~= seq![synthetic_job(*settings)]);
                (jobs, log)
            } else if settings.split_tracks {
                (plan_track_jobs(settings, sample_rate), log)
            } else {
                let (format, extension) = audio_encoder_to_output_format(
                    settings.audio_encoder.as_str(),
                );
                let args = build_audio_to_audio_args(
                    settings,
                    format,
                    meta_at(settings, 0),
                    sample_rate,
                );
                let output = settings.output_path_for_index("audio", 0, extension);
                push_job(
                    &mut jobs,
                    Job {
                        task: Task::Fixed(args),
                        output,
                        label: format_step_label(1, 1),
                        weight: FULL,
                        twice: false,
                        stoppable: false,
                    },
                );
                assert(jobs_of(jobs@) =~= seq![mixed_job(*settings, sample_rate)]);
                (jobs, log)
            }
        },
        ConversionPipeline::VideoPassthrough => {
            let n: usize = probes.len();
            if settings.use_concat() {
                let mut steps = plan_silent_videos(settings);
                let first: usize = steps.len();
                let (mut audio, warnings) = plan_concat_outputs(settings, probes);
                proof {
                    lemma_concat_in_range(*settings, layouts_of(probes@));
                    lemma_append_in_range(*settings, steps_of(steps@), steps_of(audio@));
                    assert(steps_of(steps@ + audio@) =~= steps_of(steps@) + steps_of(audio@));
                    assert(steps_of(steps@).len() == steps@.len());
                }
                steps.append(&mut audio);
                if !warnings.as_str().is_empty() {
                    let text = trim(warnings.as_str());
                    log.append("\n--- ");
                    log.append(text.as_str());
                    log.append("\n");
                    assert(log@ =~= "\n--- "@ + trimmed(warnings@) + "\n"@);
                }
                (jobs_for_steps(settings, probes, steps, first), log)
            } else {
                let steps = plan_file_steps(settings, probes);
                let first: usize = steps.len();
                proof {
                    lemma_planned_in_range(*settings, layouts_of(probes@), n as int);
                    assert(steps_of(steps@).len() == steps@.len());
                    assert(layouts_of(probes@).len() == n);
                }
                (jobs_for_steps(settings, probes, steps, first), log)
            }
        },
    }
}

// ── Running ────────────────────────────────────────────────────────────────

/// What is known of a conversion while it runs.
#[verifier::ext_equal]
pub struct Machine {
    pub jobs: Seq<JobModel>,
    /// The job that is due.
    pub at: int,
    /// The encoders that the job tries, and the number of the one that is due.
    pub trying: Option<(Seq<Seq<char>>, int)>,
    pub fallback: Fallback,
    /// In millionths.
    pub progress: nat,
    pub log: Seq<char>,
    /// The log at the time of failure.
    pub failed: Option<Seq<char>>,
    /// The jobs that are left were given up.
    pub stopped: bool,
    pub codec: Seq<char>,
    pub copies: bool,
}

impl Machine {
    /// After a failure; `text` is the log then.
    pub open spec fn failing(self, text: Seq<char>) -> Machine {
        Machine { log: text, failed: Some(text), ..self }
    }

    /// Nothing is left to run.
    pub open spec fn over(self) -> bool {
        self.failed is Some || self.stopped || self.at >= self.jobs.len()
    }

    /// A job is due that has not been begun.
    pub open spec fn between_jobs(self) -> bool {
        !self.over() && self.trying is None
    }

    /// After a job is done.
    pub open spec fn advanced(self) -> Machine {
        let job = self.jobs[self.at];
        let sum = self.progress + job.weight + if job.twice {
            job.weight
        } else {
            0
        };
        Machine {
            at: self.at + 1,
            trying: None,
            progress: if sum <= FULL {
                sum
            } else {
                FULL as nat
            },
            ..self
        }
    }
}

/// What is told when there is no encoder to try.
pub open spec fn no_candidate_text() -> Seq<char> {
    "\n\n--- no video encoder candidate available ---"@
}

/// What is told when every encoder has failed.
pub open spec fn all_failed_text(codec: Seq<char>, failed: Seq<Seq<char>>) -> Seq<char> {
    "\n\n--- "@ + ("all encoder candidates for codec '"@ + codec + "' failed to initialize ("@
        + joined(failed, ", "@) + ")"@) + " ---"@
}

/// What is told when one encoder is given up for the next.
pub open spec fn fall_back_text(encoder: Seq<char>, next: Seq<char>) -> Seq<char> {
    "\n--- "@ + ("--- encoder '"@ + encoder + "' failed to initialize; falling back to '"@ + next
        + "' ---"@) + " ---\n"@
}

/// What is to be run next.
#[verifier::ext_equal]
pub enum Choice {
    Nothing,
    /// The job's own command.
    Fixed,
    /// The job with an encoder.
    With(Seq<char>),
}

/// The choice of what to run for the job that is due. An encoder whose device is
/// missing is passed over. A job for which an encoder is yet to be tried when it is
/// cancelled has failed; a command of its own is run.
pub open spec fn choose_for_job(m: Machine, cancelled: bool) -> (Machine, Choice) {
    if m.over() {
        (m, Choice::Nothing)
    } else if m.jobs[m.at].task is Fixed {
        (m, Choice::Fixed)
    } else {
        let (candidates, from) = match m.trying {
            Some(t) => t,
            None => (m.fallback.remaining(), 0),
        };
        if m.trying is None && candidates.len() == 0 {
            (m.failing(m.log + no_candidate_text()), Choice::Nothing)
        } else if cancelled && from < candidates.len() {
            (m.failing(m.log), Choice::Nothing)
        } else {
            let k = first_ready(m.fallback, candidates, from);
            let fallback = passed_over(m.fallback, candidates, from, k);
            let log = m.log + skip_log(candidates, from, k);
            let now = Machine { trying: Some((candidates, k)), fallback, log, ..m };
            if k < candidates.len() {
                (now, Choice::With(candidates[k]))
            } else {
                (now.failing(log + all_failed_text(m.codec, fallback.failed)), Choice::Nothing)
            }
        }
    }
}

/// The choice of what to run next. A conversion of several jobs that is cancelled
/// between two of them gives up those that are left.
pub open spec fn choose_next(m: Machine, cancelled: bool) -> (Machine, Choice) {
    if cancelled && m.between_jobs() && m.jobs[m.at].stoppable {
        (Machine { stopped: true, ..m }, Choice::Nothing)
    } else {
        choose_for_job(m, cancelled)
    }
}

/// After a command has ended. A job that fails ends the conversion, unless an
/// encoder failed before it had produced anything: then the next one is due.
pub open spec fn after_command(m: Machine, run: Run, end: RunEnd) -> Machine {
    let label = m.jobs[m.at].label;
    let log = m.log + end_log(run, end, label);
    let logged = Machine { log, ..m };
    match end_failure(run, end, label) {
        None => match m.trying {
            Some((candidates, k)) => (Machine {
                fallback: m.fallback.pinned(candidates[k]),
                ..logged
            }).advanced(),
            None => logged.advanced(),
        },
        Some((text, retry)) => match m.trying {
            Some((candidates, k)) => if retry {
                Machine {
                    fallback: m.fallback.without(candidates[k]),
                    trying: Some((candidates, k + 1)),
                    log: if k + 1 < candidates.len() {
                        log + fall_back_text(candidates[k], candidates[k + 1])
                    } else {
                        log
                    },
                    ..logged
                }
            } else {
                logged.failing(log)
            },
            None => logged.failing(log),
        },
    }
}

/// A command that is due.
#[derive(Clone, Debug)]
pub struct FfmpegCommand {
    /// The arguments of ffmpeg, the output path last.
    pub args: Vec<String>,
    pub output: String,
    pub label: String,
    /// The command line as it is shown.
    pub shown: String,
}

/// A command line as it is shown.
pub open spec fn shown_command(label: Seq<char>, args: Seq<Seq<char>>) -> Seq<char> {
    label + " ffmpeg \\\n  "@ + joined(args, " \\\n  "@)
}

/// The arguments of a task.
pub open spec fn task_args(s: ConverterSettings, probes: Seq<Option<VideoAudioProbe>>, task: TaskModel) -> Seq<
    Seq<char>,
> {
    match task {
        TaskModel::Fixed(args) => args,
        TaskModel::Synthetic => synthetic_args(s),
        TaskModel::Encoded(step) => step_args(s, step, first_streams(probes)),
    }
}

/// Two settings that differ at most in the resolved encoder and its device.
pub open spec fn same_but_encoder(a: ConverterSettings, b: ConverterSettings) -> bool {
    b == (ConverterSettings {
        resolved_video_encoder: b.resolved_video_encoder,
        resolved_hw_device: b.resolved_hw_device,
        ..a
    })
}

/// A conversion under way.
#[derive(Clone, Debug)]
pub struct Conversion {
    settings: ConverterSettings,
    probes: Vec<Option<VideoAudioProbe>>,
    fallback: EncoderFallback,
    jobs: Vec<Job>,
    at: usize,
    trying: bool,
    candidates: Vec<String>,
    attempt: usize,
    progress: u32,
    log: String,
    failed: Option<String>,
    stopped: bool,
}

impl View for Conversion {
    type V = Machine;

    closed spec fn view(&self) -> Machine {
        Machine {
            jobs: jobs_of(self.jobs@),
            at: self.at as int,
            trying: if self.trying {
                Some((strs(self.candidates@), self.attempt as int))
            } else {
                None
            },
            fallback: self.fallback@,
            progress: self.progress as nat,
            log: self.log@,
            failed: match self.failed {
                Some(t) => Some(t@),
                None => None,
            },
            stopped: self.stopped,
            codec: normalized_codec(self.settings.video_encoder@),
            copies: copies(self.settings),
        }
    }
}

impl Conversion {
    /// What the conversion was told, with the encoder that is being tried.
    pub closed spec fn settings(self) -> ConverterSettings {
        self.settings
    }

    /// What was found out about the input files.
    pub closed spec fn probes(self) -> Seq<Option<VideoAudioProbe>> {
        self.probes@
    }

    /// The jobs can be built, and the numbers point into their lists.
    pub closed spec fn wf(self) -> bool {
        &&& rates_valid(self.settings)
        &&& forall|i: int|
            0 <= i < self.settings.channel_map@.len() ==> #[trigger] self.settings.channel_map@[i]
                < usize::MAX
        &&& forall|i: int|
            0 <= i < self.jobs@.len() ==> ((#[trigger] self.jobs@[i])@.task matches TaskModel::Encoded(
                step,
            ) ==> step_in_range(self.settings, step))
        &&& self.at <= self.jobs@.len()
        &&& self.trying ==> self.attempt <= self.candidates@.len()
        &&& self.trying && self.at < self.jobs@.len() ==> !(self.jobs@[self.at as int]@.task is Fixed)
        &&& self.progress <= FULL
    }

    /// A command is being run: its outcome is expected.
    pub open spec fn awaits_outcome(self) -> bool {
        let m = self@;
        !m.over() && (m.jobs[m.at].task is Fixed <==> m.trying is None) && (m.trying matches Some(
            (candidates, k),
        ) ==> 0 <= k < candidates.len())
    }

    /// Plans a conversion. The probes are those of the input videos; the sample
    /// rate is that of the first input where it is a WAV file.
    pub fn start(
        settings: ConverterSettings,
        probes: Vec<Option<VideoAudioProbe>>,
        sample_rate: Option<u32>,
        caps: Option<&FfmpegCapabilities>,
    ) -> (r: Conversion)
        requires
            convertible(settings, probes@),
        ensures
            r.wf(),
            r.settings() == settings,
            r.probes() == probes@,
            ({
                let rate = match sample_rate {
                    Some(rate) => rate,
                    None => 48000,
                };
                let (jobs, log) = planned_jobs(settings, probes@, rate);
                &&& r@.jobs == jobs
                &&& r@.at == 0
                &&& r@.trying is None
                &&& r@.fallback.chain == chain_for(settings, working_encoders(caps))
                &&& r@.fallback.failed == Seq::<Seq<char>>::empty()
                &&& r@.fallback.resolved is None
                &&& r@.progress == 0
                &&& r@.log == log
                &&& r@.failed is None
                &&& !r@.stopped
                &&& r@.codec == normalized_codec(settings.video_encoder@)
                &&& r@.copies == copies(settings)
            }),
            match caps {
                Some(c) => if c.has_ffmpeg {
                    r@.fallback.vulkan == c.hw.vulkan_available && r@.fallback.vaapi == match c.hw.vaapi_device {
                        Some(path) => Some(path@),
                        None => None,
                    }
                } else {
                    !r@.fallback.vulkan && r@.fallback.vaapi is None
                },
                None => !r@.fallback.vulkan && r@.fallback.vaapi is None,
            },
    {
        let rate: u32 = match sample_rate {
            Some(rate) => rate,
            None => 48000,
        };
        let files: usize = probes.len();
        let chain = encoder_chain(&settings, caps);
        let ctx = device_context(caps);
        let (jobs, log) = plan_jobs(&settings, probes.as_slice(), rate);
        let fallback = EncoderFallback::new_with_hw(chain, ctx);
        let r = Conversion {
            settings,
            probes,
            fallback,
            jobs,
            at: 0,
            trying: false,
            candidates: Vec::new(),
            attempt: 0,
            progress: 0,
            log,
            failed: None,
            stopped: false,
        };
        proof {
            assert(probes@.len() == files);
            lemma_planned_encodable(settings, probes@, rate);
            assert forall|i: int| 0 <= i < r.jobs@.len() implies ((
            #[trigger] r.jobs@[i])@.task matches TaskModel::Encoded(step) ==> step_in_range(
                settings,
                step,
            )) by {
                assert(jobs_of(r.jobs@)[i] == r.jobs@[i]@);
            }
        }
        r
    }

    fn fail(&mut self)
        ensures
            final(self)@ == old(self)@.failing(old(self)@.log),
            final(self).settings() == old(self).settings(),
            final(self).probes() == old(self).probes(),
            old(self).wf() ==> final(self).wf(),
    {
        self.failed = Some(self.log.clone());
    }

    fn command(&self, args: Vec<String>) -> (r: FfmpegCommand)
        requires
            self@.at < self@.jobs.len(),
            self.wf(),
        ensures
            r.output@ == self@.jobs[self@.at].output,
            r.label@ == self@.jobs[self@.at].label,
            strs(r.args@) == strs(args@).push(r.output@),
            r.shown@ == shown_command(r.label@, strs(r.args@)),
    {
        let job = &self.jobs[self.at];
        assert(jobs_of(self.jobs@)[self.at as int] == job@);
        let mut all = args;
        crate::text::push_str(&mut all, job.output.as_str());
        let listed = join(&all, " \\\n  ");
        let mut shown = job.label.clone();
        shown.append(" ffmpeg \\\n  ");
        shown.append(listed.as_str());
        FfmpegCommand {
            args: all,
            output: job.output.clone(),
            label: job.label.clone(),
            shown,
        }
    }

    /// The next command to run; `None` when the conversion is over. Where it is
    /// cancelled between two of several jobs, those that are left are given up.
    pub fn next(&mut self, cancelled: bool) -> (r: Option<FfmpegCommand>)
        requires
            old(self).wf(),
        ensures
            final(self).wf(),
            final(self)@ == choose_next(old(self)@, cancelled).0,
            final(self).probes() == old(self).probes(),
            same_but_encoder(old(self).settings(), final(self).settings()),
            match choose_next(old(self)@, cancelled).1 {
                Choice::Nothing => r is None && final(self).settings() == old(self).settings(),
                Choice::Fixed => r is Some && final(self).settings() == old(self).settings(),
                Choice::With(encoder) => r is Some && final(self).settings().resolved_video_encoder@
                    == encoder && device_model(final(self).settings().resolved_hw_device)
                    == device_for(encoder, old(self)@.fallback.vaapi, old(self)@.fallback.vulkan),
            },
            r matches Some(c) ==> {
                let job = old(self)@.jobs[old(self)@.at];
                &&& final(self).awaits_outcome()
                &&& c.output@ == job.output
                &&& c.label@ == job.label
                &&& strs(c.args@) == task_args(
                    final(self).settings(),
                    old(self).probes(),
                    job.task,
                ).push(job.output)
                &&& c.shown@ == shown_command(job.label, strs(c.args@))
            },
    {
        if cancelled && self.failed.is_none() && !self.stopped && self.at < self.jobs.len()
            && !self.trying {
            assert(jobs_of(self.jobs@)[self.at as int] == self.jobs@[self.at as int]@);
            if self.jobs[self.at].stoppable {
                self.stopped = true;
                return None;
            }
        }
        self.next_for_job(cancelled)
    }

    /// The next command of the job that is due; `None` when the conversion is over. A
    /// job for which an encoder is yet to be tried when it is cancelled has failed.
    pub fn next_for_job(&mut self, cancelled: bool) -> (r: Option<FfmpegCommand>)
        requires
            old(self).wf(),
        ensures
            final(self).wf(),
            final(self)@ == choose_for_job(old(self)@, cancelled).0,
            final(self).probes() == old(self).probes(),
            same_but_encoder(old(self).settings(), final(self).settings()),
            match choose_for_job(old(self)@, cancelled).1 {
                Choice::Nothing => r is None && final(self).settings() == old(self).settings(),
                Choice::Fixed => r is Some && final(self).settings() == old(self).settings(),
                Choice::With(encoder) => r is Some && final(self).settings().resolved_video_encoder@
                    == encoder && device_model(final(self).settings().resolved_hw_device)
                    == device_for(encoder, old(self)@.fallback.vaapi, old(self)@.fallback.vulkan),
            },
            r matches Some(c) ==> {
                let job = old(self)@.jobs[old(self)@.at];
                &&& final(self).awaits_outcome()
                &&& c.output@ == job.output
                &&& c.label@ == job.label
                &&& strs(c.args@) == task_args(
                    final(self).settings(),
                    old(self).probes(),
                    job.task,
                ).push(job.output)
                &&& c.shown@ == shown_command(job.label, strs(c.args@))
            },
    {
        if self.failed.is_some() || self.stopped || self.at >= self.jobs.len() {
            return None;
        }
        assert(jobs_of(self.jobs@)[self.at as int] == self.jobs@[self.at as int]@);
        match &self.jobs[self.at].task {
            Task::Fixed(args) => {
                let mut copied: Vec<String> = Vec::new();
                assert(strs(copied@) =~= strs(args@).take(0));
                let mut i: usize = 0;
                while i < args.len()
                    invariant
                        i <= args@.len(),
                        strs(copied@) == strs(args@).take(i as int),
                    decreases args@.len() - i,
                {
                    crate::text::push_str(&mut copied, args[i].as_str());
                    assert(strs(args@).take(i + 1) =~= strs(args@).take(i as int).push(
                        args@[i as int]@,
                    ));
                    i += 1;
                }
                assert(strs(args@).take(i as int) =~= strs(args@));
                return Some(self.command(copied));
            },
            _ => {},
        }
        if !self.trying {
            self.candidates = self.fallback.remaining();
            assert(strs(self.candidates@).len() == self.candidates@.len());
            if self.candidates.len() == 0 {
                self.log.append("\n\n--- no video encoder candidate available ---");
                self.fail();
                return None;
            }
            if cancelled {
                self.fail();
                return None;
            }
            self.trying = true;
            self.attempt = 0;
        }
        if cancelled && self.attempt < self.candidates.len() {
            self.fail();
            return None;
        }
        let ghost candidates = strs(self.candidates@);
        let ghost from = self.attempt as int;
        assert(candidates.len() == self.candidates@.len());
        self.attempt = next_ready(
            &mut self.fallback,
            &self.candidates,
            self.attempt,
            &mut self.log,
        );
        if self.attempt >= self.candidates.len() {
            let codec = normalize_video_codec(self.settings.video_encoder.as_str());
            let names = join(self.fallback.failed(), ", ");
            let mut text = concat3(
                "all encoder candidates for codec '",
                codec,
                "' failed to initialize (",
            );
            text.append(names.as_str());
            text.append(")");
            let ghost log = self.log@;
            self.log.append("\n\n--- ");
            self.log.append(text.as_str());
            self.log.append(" ---");
            assert(self.log@ =~= log + all_failed_text(codec@, self.fallback@.failed));
            self.fail();
            return None;
        }
        let encoder = self.candidates[self.attempt].clone();
        assert(candidates[self.attempt as int] == encoder@);
        let device = self.fallback.device(encoder.as_str());
        proof {
            lemma_context_kept(old(self)@.fallback, candidates, from, self.attempt as int);
        }
        self.settings.resolved_video_encoder = encoder;
        self.settings.resolved_hw_device = device;
        let args = match &self.jobs[self.at].task {
            Task::Encoded(step) => args_for_step(&self.settings, self.probes.as_slice(), step),
            _ => build_audio_to_synthetic_video_args(&self.settings),
        };
        Some(self.command(args))
    }

    /// Tells how the command that was handed out last has ended.
    pub fn report(&mut self, run: &StepRun, end: &RunEnd)
        requires
            old(self).wf(),
            old(self).awaits_outcome(),
        ensures
            final(self).wf(),
            final(self)@ == after_command(old(self)@, run@, *end),
            final(self).settings() == old(self).settings(),
            final(self).probes() == old(self).probes(),
    {
        let total: usize = self.jobs.len();
        let encoders: usize = self.candidates.len();
        assert(self.at < total);
        assert(self.trying ==> self.attempt < encoders);
        let job = &self.jobs[self.at];
        assert(jobs_of(self.jobs@)[self.at as int] == job@);
        let weight = job.weight;
        let twice = job.twice;
        let label_text = job.label.clone();
        let outcome = finish_run(run, end, label_text.as_str(), &mut self.log);
        match outcome {
            Ok(_) => {
                if self.trying {
                    let encoder = self.candidates[self.attempt].clone();
                    assert(strs(self.candidates@)[self.attempt as int] == encoder@);
                    self.fallback.note_success(encoder.as_str());
                }
                let mut sum: u64 = self.progress as u64 + weight as u64;
                if twice {
                    sum += weight as u64;
                }
                self.progress = if sum <= FULL as u64 {
                    sum as u32
                } else {
                    FULL
                };
                self.at += 1;
                self.trying = false;
            },
            Err(StepFailure::Fatal(_)) => {
                self.fail();
            },
            Err(StepFailure::EncoderInit(_)) => {
                if !self.trying {
                    self.fail();
                } else {
                    let encoder = self.candidates[self.attempt].clone();
                    assert(strs(self.candidates@)[self.attempt as int] == encoder@);
                    self.fallback.note_failure(encoder.as_str());
                    self.attempt += 1;
                    if self.attempt < self.candidates.len() {
                        let next = self.candidates[self.attempt].clone();
                        assert(strs(self.candidates@)[self.attempt as int] == next@);
                        let mut text = concat3(
                            "--- encoder '",
                            encoder.as_str(),
                            "' failed to initialize; falling back to '",
                        );
                        text.append(next.as_str());
                        text.append("' ---");
                        let ghost log = self.log@;
                        self.log.append("\n--- ");
                        self.log.append(text.as_str());
                        self.log.append(" ---\n");
                        assert(self.log@ =~= log + fall_back_text(encoder@, next@));
                    }
                }
            },
        }
    }

    /// The progress to show while a command runs, in millionths.
    pub fn shown_progress(&self, run: &StepRun) -> (r: u32)
        requires
            self.wf(),
            self.awaits_outcome(),
            run@.progress <= FULL,
        ensures
            r == shown_share(self@.progress, run@.progress, self@.jobs[self@.at].weight),
    {
        let job = &self.jobs[self.at];
        assert(jobs_of(self.jobs@)[self.at as int] == job@);
        let step: u64 = run.progress as u64;
        let weight: u64 = job.weight as u64;
        assert(step * weight <= 1_000_000 * 0xffff_ffff) by (nonlinear_arith)
            requires
                step <= 1_000_000,
                weight <= 0xffff_ffff,
        ;
        let part: u64 = step * weight / FULL as u64;
        let sum: u64 = self.progress as u64 + part;
        if sum <= FULL as u64 {
            sum as u32
        } else {
            FULL
        }
    }

    /// What is shown when the conversion is over.
    pub fn closing_state(&self, current_line: String) -> (r: ConversionState)
        ensures
            r.current_line == current_line,
            match self@.failed {
                Some(text) => (r.status matches ConversionStatus::Failed { error_log } && error_log@
                    == text) && r.ffmpeg_output@ == text,
                None => r.status is Completed && r.ffmpeg_output@ == closing_text(self@),
            },
    {
        match &self.failed {
            Some(text) => ConversionState {
                status: ConversionStatus::Failed { error_log: text.clone() },
                ffmpeg_output: text.clone(),
                current_line,
            },
            None => {
                let mut out = concat2(
                    self.log.as_str(),
                    "\n\n--- CONVERSION COMPLETED SUCCESSFULLY ---",
                );
                if self.settings.copy_video && self.settings.pipeline
                    == ConversionPipeline::VideoPassthrough {
                    out.append("\nVideo stream: copied (no re-encode)");
                } else {
                    match self.fallback.resolved() {
                        Some(e) => {
                            let line = concat2("\nVideo encoder used: ", e);
                            out.append(line.as_str());
                        },
                        None => {
                            assert(out@ =~= closing_text(self@));
                        },
                    }
                }
                ConversionState {
                    status: ConversionStatus::Completed,
                    ffmpeg_output: out,
                    current_line,
                }
            },
        }
    }
}

/// What is shown of a conversion that did not fail.
pub open spec fn closing_text(m: Machine) -> Seq<char> {
    m.log + "\n\n--- CONVERSION COMPLETED SUCCESSFULLY ---"@ + if m.copies {
        "\nVideo stream: copied (no re-encode)"@
    } else {
        match m.fallback.resolved {
            Some(e) => "\nVideo encoder used: "@ + e,
            None => seq![],
        }
    }
}

/// The progress of a conversion with a job under way.
pub open spec fn shown_share(done: nat, step: nat, weight: nat) -> nat {
    let sum = done + step * weight / FULL as nat;
    if sum <= FULL {
        sum
    } else {
        FULL as nat
    }
}

proof fn lemma_context_kept(f: Fallback, candidates: Seq<Seq<char>>, from: int, to: int)
    ensures
        passed_over(f, candidates, from, to).vaapi == f.vaapi,
        passed_over(f, candidates, from, to).vulkan == f.vulkan,
    decreases to - from,
{
    if to > from {
        lemma_context_kept(f, candidates, from, to - 1);
    }
}

proof fn lemma_planned_encodable(
    s: ConverterSettings,
    probes: Seq<Option<VideoAudioProbe>>,
    rate: u32,
)
    requires
        convertible(s, probes),
        probes.len() <= usize::MAX,
    ensures
        forall|i: int|
            0 <= i < planned_jobs(s, probes, rate).0.len() ==> ((#[trigger] planned_jobs(
                s,
                probes,
                rate,
            ).0[i]).task matches TaskModel::Encoded(step) ==> step_in_range(s, step)),
{
    let clips = layouts_of(probes);
    assert(clips.len() == probes.len());
    match s.pipeline {
        ConversionPipeline::VideoPassthrough => {
            lemma_concat_in_range(s, clips);
            lemma_append_in_range(s, silent_videos(s), concat_plan(s, clips).0);
            lemma_planned_in_range(s, clips, clips.len() as int);
        },
        ConversionPipeline::AudioOnly { generate_synthetic_video } => {
            if !generate_synthetic_video && s.split_tracks {
                lemma_track_jobs_fixed(s, rate, s.channel_map@.len() as int);
            }
        },
    }
}

proof fn lemma_track_jobs_fixed(s: ConverterSettings, rate: u32, n: int)
    requires
        n <= s.channel_map@.len(),
    ensures
        forall|i: int|
            0 <= i < track_jobs(s, rate, n).len() ==> (#[trigger] track_jobs(s, rate, n)[i]).task is Fixed,
    decreases n,
{
    if n > 0 {
        lemma_track_jobs_fixed(s, rate, n - 1);
        let before = track_jobs(s, rate, n - 1);
        let now = track_jobs(s, rate, n);
        if s.drop_ltc_track && n - 1 == s.ltc_track_channel_index {
            assert(now == before);
        } else {
            assert(now.drop_last() =~= before);
            assert(now.last().task is Fixed);
            assert forall|i: int| 0 <= i < now.len() implies (#[trigger] now[i]).task is Fixed by {
                if i < before.len() {
                    assert(now.drop_last()[i] == before[i]);
                }
            }
        }
    }
}

// ── Laws ───────────────────────────────────────────────────────────────────

/// After a failure nothing is run any more.
pub proof fn law_failure_is_final(m: Machine, cancelled: bool)
    requires
        m.failed is Some,
    ensures
        choose_next(m, cancelled) == (m, Choice::Nothing),
{
}

/// What was given up is never run.
pub proof fn law_stopping_is_final(m: Machine, cancelled: bool)
    requires
        m.stopped,
    ensures
        choose_next(m, cancelled) == (m, Choice::Nothing),
{
}

/// A cancelled conversion begins no more of its jobs and tries no more encoders. It
/// has failed where an encoder was yet to be tried for a job under way, or for one
/// that is the only one; else it has not failed on that account.
pub proof fn law_cancelled_stops(m: Machine, again: bool)
    requires
        !m.over(),
        m.jobs[m.at].stoppable || !(m.jobs[m.at].task is Fixed),
        !(m.jobs[m.at].task is Fixed) || m.trying is None,
    ensures
        choose_next(m, true).1 == Choice::Nothing,
        choose_next(m, true).0.over(),
        choose_next(choose_next(m, true).0, again).1 == Choice::Nothing,
        choose_next(m, true).0.failed is None <==> m.trying is None && m.jobs[m.at].stoppable,
{
}

/// A command that is due belongs to a machine that awaits its outcome.
pub open spec fn awaiting(m: Machine) -> bool {
    &&& !m.over()
    &&& 0 <= m.at
    &&& m.jobs[m.at].task is Fixed <==> m.trying is None
    &&& m.trying matches Some((candidates, k)) ==> 0 <= k < candidates.len()
}

/// A conversion comes to an end: every command brings the next job, the next
/// encoder of the same job, or a failure.
pub proof fn law_commands_advance(m: Machine, run: Run, end: RunEnd)
    requires
        awaiting(m),
    ensures
        ({
            let next = after_command(m, run, end);
            ||| next.failed is Some
            ||| next.at == m.at + 1 && next.trying is None
            ||| next.at == m.at && (m.trying matches Some((candidates, k)) && next.trying == Some(
                (candidates, k + 1),
            ))
        }),
{
}

/// A job is left only when its command has succeeded.
pub proof fn law_jobs_need_success(m: Machine, run: Run, end: RunEnd)
    requires
        awaiting(m),
    ensures
        after_command(m, run, end).at == m.at + 1 <==> end is Succeeded,
        !(end is Succeeded) ==> after_command(m, run, end).at == m.at,
{
}

/// The log only grows.
pub proof fn law_log_grows(m: Machine, cancelled: bool, run: Run, end: RunEnd)
    ensures
        m.log.is_prefix_of(choose_next(m, cancelled).0.log),
        m.log.is_prefix_of(after_command(m, run, end).log),
{
    let next = choose_next(m, cancelled).0;
    assert(next.log.subrange(0, m.log.len() as int) =~= m.log);
    let after = after_command(m, run, end);
    assert(after.log.subrange(0, m.log.len() as int) =~= m.log);
}

/// The encoder that worked for one job is the one that the next job tries.
pub proof fn law_encoder_is_kept(m: Machine, candidates: Seq<Seq<char>>, k: int, run: Run, end: RunEnd)
    requires
        awaiting(m),
        m.trying == Some((candidates, k)),
        end is Succeeded,
    ensures
        after_command(m, run, end).fallback.remaining() == seq![candidates[k]],
{
}

} // verus!
