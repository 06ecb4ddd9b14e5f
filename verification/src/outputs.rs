//! The files that a conversion will write, told in advance.

use vstd::prelude::*;

use crate::ffprobe::VideoAudioProbe;
use crate::formats::{
    audio_encoder_to_output_format, audio_output_format, copy_container_for,
    copy_mode_container_for_input, extension_for_container,
};
use crate::paths::{
    file_name, file_name_of, file_stem, file_stem_of, join_path, joined_path, listed, path_listed,
};
use crate::planner::{
    clip_layout, concat_plan, file_steps, layout_models, layout_of, layouts_of, list_channels,
    plan_concat, plan_concat_outputs, plan_uniform, plan_video_outputs_for_file, steps_of,
    uniform_steps, video_path, ClipLayout, Layout, Step, VideoOutputStep,
};
use crate::settings::{
    build_output_name, number_suffix, numbered, output_name, ConversionPipeline, ConverterSettings,
    OutputNamingMode,
};
use crate::text::{concat3, join, joined, push_str, push_string, strs};

verus! {

// ── Paths ──────────────────────────────────────────────────────────────────

/// The output paths of steps.
pub open spec fn paths_of(steps: Seq<Step>) -> Seq<Seq<char>> {
    steps.map_values(|s: Step| s.output())
}

/// The output paths of the joined tracks among the first `n` steps.
pub open spec fn joined_paths(steps: Seq<Step>, n: int) -> Seq<Seq<char>>
    decreases n,
{
    if n <= 0 {
        seq![]
    } else if steps[n - 1] is AudioChannelConcat {
        joined_paths(steps, n - 1).push(steps[n - 1].output())
    } else {
        joined_paths(steps, n - 1)
    }
}

/// The video paths of the first `n` clips. A clip that could not be probed gets
/// the extension that was asked for.
pub open spec fn clip_paths(s: ConverterSettings, clips: Seq<Option<Layout>>, extension: Seq<char>, n: int) -> Seq<
    Seq<char>,
>
    decreases n,
{
    if n <= 0 {
        seq![]
    } else {
        clip_paths(s, clips, extension, n - 1).push(
            video_path(
                s,
                n - 1,
                if clips[n - 1] is Some {
                    s.container@
                } else {
                    extension
                },
            ),
        )
    }
}

/// The paths of all outputs of the first `n` files, planned one by one.
pub open spec fn planned_paths(
    s: ConverterSettings,
    clips: Seq<Option<Layout>>,
    extension: Seq<char>,
    n: int,
) -> Seq<Seq<char>>
    decreases n,
{
    if n <= 0 {
        seq![]
    } else {
        planned_paths(s, clips, extension, n - 1) + match clips[n - 1] {
            Some(l) => paths_of(file_steps(s, s.container@, (n - 1) as usize, l.channels)),
            None => seq![video_path(s, n - 1, extension)],
        }
    }
}

/// The paths of the first `n` audio tracks, without the dropped one.
pub open spec fn track_paths(s: ConverterSettings, extension: Seq<char>, n: int) -> Seq<Seq<char>>
    decreases n,
{
    if n <= 0 {
        seq![]
    } else if s.drop_ltc_track && n - 1 == s.ltc_track_channel_index {
        track_paths(s, extension, n - 1)
    } else {
        track_paths(s, extension, n - 1).push(s.path_for("audio"@, 0, n as nat, extension))
    }
}

/// The path of the one audio output of all tracks.
pub open spec fn mixed_path(s: ConverterSettings, extension: Seq<char>) -> Seq<char> {
    joined_path(s.output_folder@, s.filename_prefix@ + "."@ + extension)
}

/// The paths of video clips.
pub open spec fn numbered_clips(s: ConverterSettings, extension: Seq<char>, n: nat) -> Seq<Seq<char>> {
    Seq::new(n, |i: int| s.path_for("video"@, 0, (i + 1) as nat, extension))
}

/// The paths of all outputs of a conversion.
pub open spec fn all_paths(
    s: ConverterSettings,
    audio_tracks: nat,
    video_clips: nat,
    extension: Seq<char>,
    clips: Seq<Option<Layout>>,
) -> Seq<Seq<char>> {
    match s.pipeline {
        ConversionPipeline::VideoPassthrough => if s.joins_clips() {
            let plan = concat_plan(s, clips).0;
            clip_paths(s, clips, extension, clips.len() as int) + joined_paths(
                plan,
                plan.len() as int,
            )
        } else {
            planned_paths(s, clips, extension, clips.len() as int)
        },
        _ => (if s.split_tracks {
            track_paths(s, extension, audio_tracks as int)
        } else {
            seq![mixed_path(s, extension)]
        }) + numbered_clips(s, extension, video_clips),
    }
}

fn step_paths(steps: &Vec<VideoOutputStep>) -> (r: Vec<String>)
    ensures
        strs(r@) == paths_of(steps_of(steps@)),
{
    let ghost wanted = paths_of(steps_of(steps@));
    let mut out: Vec<String> = Vec::new();
    let mut i: usize = 0;
    assert(strs(out@) =~= wanted.take(0));
    while i < steps.len()
        invariant
            i <= steps@.len(),
            wanted == paths_of(steps_of(steps@)),
            strs(out@) == wanted.take(i as int),
        decreases steps@.len() - i,
    {
        push_str(&mut out, steps[i].output());
        assert(wanted[i as int] == steps@[i as int]@.output());
        assert(wanted.take(i + 1) =~= wanted.take(i as int).push(wanted[i as int]));
        i += 1;
    }
    assert(wanted.take(i as int) =~= wanted);
    out
}

fn is_joined(step: &VideoOutputStep) -> (r: bool)
    ensures
        r == (step@ is AudioChannelConcat),
{
    matches!(step, VideoOutputStep::AudioChannelConcat { .. })
}

fn joined_step_paths(steps: &Vec<VideoOutputStep>) -> (r: Vec<String>)
    ensures
        strs(r@) == joined_paths(steps_of(steps@), steps@.len() as int),
{
    let mut out: Vec<String> = Vec::new();
    let mut i: usize = 0;
    assert(strs(out@) =~= seq![]);
    while i < steps.len()
        invariant
            i <= steps@.len(),
            strs(out@) == joined_paths(steps_of(steps@), i as int),
        decreases steps@.len() - i,
    {
        assert(steps_of(steps@)[i as int] == steps@[i as int]@);
        if is_joined(&steps[i]) {
            push_str(&mut out, steps[i].output());
        }
        i += 1;
    }
    out
}

fn append_strings(list: &mut Vec<String>, more: Vec<String>)
    ensures
        strs(final(list)@) == strs(old(list)@) + strs(more@),
{
    let mut rest = more;
    list.append(&mut rest);
    assert(strs(list@) =~= strs(old(list)@) + strs(more@));
}

proof fn lemma_layouts(probes: Seq<Option<VideoAudioProbe>>, i: int)
    requires
        0 <= i < probes.len(),
    ensures
        layouts_of(probes)[i] == match probes[i] {
            Some(probe) => Some(layout_of(probe)),
            None => None,
        },
        layouts_of(probes).len() == probes.len(),
{
}

impl ConverterSettings {
    fn clip_video_paths(&self, extension: &str, probes: &[Option<VideoAudioProbe>]) -> (r: Vec<
        String,
    >)
        requires
            probes@.len() == self.input_files@.len(),
        ensures
            strs(r@) == clip_paths(*self, layouts_of(probes@), extension@, probes@.len() as int),
    {
        let mut out: Vec<String> = Vec::new();
        let n: usize = probes.len();
        let mut i: usize = 0;
        assert(strs(out@) =~= seq![]);
        while i < n
            invariant
                i <= n,
                n == probes@.len(),
                strs(out@) == clip_paths(*self, layouts_of(probes@), extension@, i as int),
            decreases n - i,
        {
            proof {
                lemma_layouts(probes@, i as int);
            }
            let ext = match &probes[i] {
                Some(_) => extension_for_container(self.container.as_str()),
                None => extension,
            };
            push_string(&mut out, self.output_path_for_file("video", i, i + 1, ext));
            i += 1;
        }
        out
    }

    fn planned_file_paths(&self, extension: &str, probes: &[Option<VideoAudioProbe>]) -> (r: Vec<
        String,
    >)
        requires
            probes@.len() == self.input_files@.len(),
        ensures
            strs(r@) == planned_paths(*self, layouts_of(probes@), extension@, probes@.len() as int),
    {
        let mut out: Vec<String> = Vec::new();
        let n: usize = probes.len();
        let mut i: usize = 0;
        assert(strs(out@) =~= seq![]);
        while i < n
            invariant
                i <= n,
                n == probes@.len(),
                strs(out@) == planned_paths(*self, layouts_of(probes@), extension@, i as int),
            decreases n - i,
        {
            proof {
                lemma_layouts(probes@, i as int);
            }
            match &probes[i] {
                Some(probe) => {
                    let steps = plan_video_outputs_for_file(self, i, probe);
                    let more = step_paths(&steps);
                    append_strings(&mut out, more);
                },
                None => {
                    let ghost before = strs(out@);
                    push_string(&mut out, self.output_path_for_file("video", i, i + 1, extension));
                    assert(strs(out@) =~= before + seq![
                        video_path(*self, i as int, extension@),
                    ]);
                },
            }
            i += 1;
        }
        out
    }

    fn audio_track_paths(&self, tracks: usize, extension: &str) -> (r: Vec<String>)
        ensures
            strs(r@) == track_paths(*self, extension@, tracks as int),
    {
        let mut out: Vec<String> = Vec::new();
        let mut i: usize = 0;
        assert(strs(out@) =~= seq![]);
        while i < tracks
            invariant
                i <= tracks,
                strs(out@) == track_paths(*self, extension@, i as int),
            decreases tracks - i,
        {
            if !(self.drop_ltc_track && i == self.ltc_track_channel_index) {
                push_string(&mut out, self.output_path_for_index("audio", i + 1, extension));
            }
            i += 1;
        }
        out
    }

    fn mixed_audio_path(&self, extension: &str) -> (r: String)
        ensures
            r@ == mixed_path(*self, extension@),
    {
        let name = concat3(self.filename_prefix.as_str(), ".", extension);
        join_path(self.output_folder.as_str(), name.as_str())
    }

    /// The paths of all outputs. For videos they depend on what the probes of the
    /// input files found; the numbers of tracks and clips count for audio alone.
    pub fn all_output_paths(
        &self,
        num_audio_tracks: usize,
        num_video_clips: usize,
        extension: &str,
        probes: &[Option<VideoAudioProbe>],
    ) -> (r: Vec<String>)
        requires
            self.pipeline == ConversionPipeline::VideoPassthrough ==> probes@.len()
                == self.input_files@.len(),
        ensures
            strs(r@) == all_paths(
                *self,
                num_audio_tracks as nat,
                num_video_clips as nat,
                extension@,
                layouts_of(probes@),
            ),
    {
        match self.pipeline {
            ConversionPipeline::VideoPassthrough => {
                if self.use_concat() {
                    let mut paths = self.clip_video_paths(extension, probes);
                    let (steps, _warning) = plan_concat_outputs(self, probes);
                    assert(steps_of(steps@).len() == steps@.len());
                    let more = joined_step_paths(&steps);
                    append_strings(&mut paths, more);
                    paths
                } else {
                    self.planned_file_paths(extension, probes)
                }
            },
            _ => {
                let mut paths = if self.split_tracks {
                    self.audio_track_paths(num_audio_tracks, extension)
                } else {
                    let mut one: Vec<String> = Vec::new();
                    assert(strs(one@) =~= seq![]);
                    push_string(&mut one, self.mixed_audio_path(extension));
                    assert(strs(one@) =~= seq![mixed_path(*self, extension@)]);
                    one
                };
                let ghost before = strs(paths@);
                let ghost clips = numbered_clips(*self, extension@, num_video_clips as nat);
                let mut i: usize = 0;
                assert(before + clips.take(0) =~= before);
                while i < num_video_clips
                    invariant
                        i <= num_video_clips,
                        clips == numbered_clips(*self, extension@, num_video_clips as nat),
                        strs(paths@) == before + clips.take(i as int),
                    decreases num_video_clips - i,
                {
                    push_string(&mut paths, self.output_path_for_index("video", i + 1, extension));
                    assert(before + clips.take(i + 1) =~= (before + clips.take(i as int)).push(
                        clips[i as int],
                    ));
                    i += 1;
                }
                assert(clips.take(i as int) =~= clips);
                paths
            },
        }
    }
}

// ── Preview ────────────────────────────────────────────────────────────────

/// What an output holds.
#[derive(Clone, Copy, Debug, PartialEq, Eq, Structural)]
pub enum OutputKind {
    Video,
    Audio,
}

/// An output in a preview.
#[derive(Clone, Debug)]
pub struct PreviewOutput {
    pub kind: OutputKind,
    pub path: String,
}

/// The kinds and paths of a preview.
pub open spec fn previewed(v: Seq<PreviewOutput>) -> Seq<(OutputKind, Seq<char>)> {
    v.map_values(|p: PreviewOutput| (p.kind, p.path@))
}

/// Paths of outputs of one kind.
pub open spec fn all_of_kind(kind: OutputKind, paths: Seq<Seq<char>>) -> Seq<(OutputKind, Seq<char>)> {
    paths.map_values(|p: Seq<char>| (kind, p))
}

/// The kind and path of a step's output.
pub open spec fn shown_step(s: Step) -> (OutputKind, Seq<char>) {
    (
        if s.is_audio() {
            OutputKind::Audio
        } else {
            OutputKind::Video
        },
        s.output(),
    )
}

/// The container of the outputs. A copied video keeps that of the first input.
pub open spec fn output_container(s: ConverterSettings) -> Seq<char> {
    if s.copy_video && s.input_files@.len() > 0 {
        copy_container_for(s.input_files@[0]@)
    } else {
        s.container@
    }
}

/// The video paths of all files.
pub open spec fn video_paths(s: ConverterSettings, extension: Seq<char>, n: nat) -> Seq<Seq<char>> {
    Seq::new(n, |i: int| video_path(s, i, extension))
}

/// The same layout for every file.
pub open spec fn same_layouts(layout: Option<Layout>, n: nat) -> Seq<Option<Layout>> {
    Seq::new(n, |i: int| layout)
}

/// The outputs that a conversion is expected to write, with one layout for all
/// files. Without a layout only the videos are known.
pub open spec fn expected_outputs(s: ConverterSettings, layout: Option<Layout>) -> Seq<
    (OutputKind, Seq<char>),
> {
    let n = s.input_files@.len();
    match s.pipeline {
        ConversionPipeline::VideoPassthrough => {
            let container = output_container(s);
            if s.joins_clips() {
                let plan = concat_plan(s, same_layouts(layout, n)).0;
                all_of_kind(OutputKind::Video, video_paths(s, container, n)) + all_of_kind(
                    OutputKind::Audio,
                    joined_paths(plan, plan.len() as int),
                )
            } else {
                match layout {
                    Some(l) => uniform_steps(s, container, l.channels, n as int).map_values(
                        |step: Step| shown_step(step),
                    ),
                    None => all_of_kind(OutputKind::Video, video_paths(s, container, n)),
                }
            }
        },
        ConversionPipeline::AudioOnly { generate_synthetic_video } => {
            let extension = audio_output_format(s.audio_encoder@).1;
            all_of_kind(
                OutputKind::Audio,
                if s.split_tracks {
                    track_paths(s, extension, s.channel_map@.len() as int)
                } else {
                    seq![mixed_path(s, extension)]
                },
            ) + if generate_synthetic_video {
                seq![(OutputKind::Video, s.path_for("video"@, 0, 1, s.container@))]
            } else {
                seq![]
            }
        },
    }
}

fn push_previews(out: &mut Vec<PreviewOutput>, kind: OutputKind, paths: Vec<String>)
    ensures
        previewed(final(out)@) == previewed(old(out)@) + all_of_kind(kind, strs(paths@)),
{
    let ghost before = previewed(out@);
    let ghost wanted = all_of_kind(kind, strs(paths@));
    let mut i: usize = 0;
    assert(before + wanted.take(0) =~= before);
    while i < paths.len()
        invariant
            i <= paths@.len(),
            wanted == all_of_kind(kind, strs(paths@)),
            previewed(out@) == before + wanted.take(i as int),
        decreases paths@.len() - i,
    {
        let ghost now = previewed(out@);
        out.push(PreviewOutput { kind, path: paths[i].clone() });
        assert(wanted[i as int] == (kind, paths@[i as int]@));
        assert(previewed(out@) =~= now.push(wanted[i as int]));
        assert(before + wanted.take(i + 1) =~= (before + wanted.take(i as int)).push(
            wanted[i as int],
        ));
        i += 1;
    }
    assert(wanted.take(i as int) =~= wanted);
}

fn list_video_paths(settings: &ConverterSettings, extension: &str) -> (r: Vec<String>)
    ensures
        strs(r@) == video_paths(*settings, extension@, settings.input_files@.len()),
{
    let n: usize = settings.input_files.len();
    let ghost wanted = video_paths(*settings, extension@, n as nat);
    let mut out: Vec<String> = Vec::new();
    let mut i: usize = 0;
    assert(strs(out@) =~= wanted.take(0));
    while i < n
        invariant
            i <= n,
            wanted == video_paths(*settings, extension@, n as nat),
            strs(out@) == wanted.take(i as int),
        decreases n - i,
    {
        push_string(&mut out, settings.output_path_for_file("video", i, i + 1, extension));
        assert(wanted.take(i + 1) =~= wanted.take(i as int).push(wanted[i as int]));
        i += 1;
    }
    assert(wanted.take(n as int) =~= wanted);
    out
}

fn repeat_layout(probe: Option<&VideoAudioProbe>, n: usize) -> (r: Vec<Option<ClipLayout>>)
    ensures
        layout_models(r@) == same_layouts(
            match probe {
                Some(p) => Some(layout_of(*p)),
                None => None,
            },
            n as nat,
        ),
{
    let ghost layout = match probe {
        Some(p) => Some(layout_of(*p)),
        None => None,
    };
    let mut out: Vec<Option<ClipLayout>> = Vec::new();
    let mut i: usize = 0;
    assert(layout_models(out@) =~= same_layouts(layout, 0));
    while i < n
        invariant
            i <= n,
            layout == match probe {
                Some(p) => Some(layout_of(*p)),
                None => None,
            },
            layout_models(out@) == same_layouts(layout, i as nat),
        decreases n - i,
    {
        let one = match probe {
            Some(p) => Some(clip_layout(p)),
            None => None,
        };
        let ghost now = layout_models(out@);
        out.push(one);
        assert(layout_models(out@) =~= now.push(layout));
        assert(same_layouts(layout, (i + 1) as nat) =~= same_layouts(layout, i as nat).push(
            layout,
        ));
        i += 1;
    }
    out
}

fn preview_steps(steps: &Vec<VideoOutputStep>) -> (r: Vec<PreviewOutput>)
    ensures
        previewed(r@) == steps_of(steps@).map_values(|s: Step| shown_step(s)),
{
    let ghost wanted = steps_of(steps@).map_values(|s: Step| shown_step(s));
    let mut out: Vec<PreviewOutput> = Vec::new();
    let mut i: usize = 0;
    assert(previewed(out@) =~= wanted.take(0));
    while i < steps.len()
        invariant
            i <= steps@.len(),
            wanted == steps_of(steps@).map_values(|s: Step| shown_step(s)),
            previewed(out@) == wanted.take(i as int),
        decreases steps@.len() - i,
    {
        let kind = match &steps[i] {
            VideoOutputStep::AudioChannel { .. } => OutputKind::Audio,
            VideoOutputStep::AudioChannelConcat { .. } => OutputKind::Audio,
            VideoOutputStep::VideoOnly { .. } => OutputKind::Video,
            VideoOutputStep::VideoMux { .. } => OutputKind::Video,
        };
        let path = steps[i].output().to_owned();
        let ghost now = previewed(out@);
        out.push(PreviewOutput { kind, path });
        assert(wanted[i as int] == shown_step(steps@[i as int]@));
        assert(previewed(out@) =~= now.push(wanted[i as int]));
        assert(wanted.take(i + 1) =~= wanted.take(i as int).push(wanted[i as int]));
        i += 1;
    }
    assert(wanted.take(i as int) =~= wanted);
    out
}

/// Tells which files a conversion will write, without looking at any file. One
/// probe stands for all clips.
pub fn preview_output_files(settings: &ConverterSettings, probe: Option<&VideoAudioProbe>) -> (r:
    Vec<PreviewOutput>)
    ensures
        previewed(r@) == expected_outputs(
            *settings,
            match probe {
                Some(p) => Some(layout_of(*p)),
                None => None,
            },
        ),
{
    let mut out: Vec<PreviewOutput> = Vec::new();
    assert(previewed(out@) =~= seq![]);
    let n: usize = settings.input_files.len();
    match settings.pipeline {
        ConversionPipeline::VideoPassthrough => {
            let container: &str = if settings.copy_video && n > 0 {
                copy_mode_container_for_input(settings.input_files[0].as_str())
            } else {
                settings.container.as_str()
            };
            let extension = extension_for_container(container);
            if settings.use_concat() {
                push_previews(&mut out, OutputKind::Video, list_video_paths(settings, extension));
                let clips = repeat_layout(probe, n);
                let (steps, _warning) = plan_concat(settings, &clips);
                assert(steps_of(steps@).len() == steps@.len());
                push_previews(&mut out, OutputKind::Audio, joined_step_paths(&steps));
                return out;
            }
            match probe {
                Some(p) => {
                    let steps = plan_uniform(settings, container, &list_channels(p));
                    preview_steps(&steps)
                },
                None => {
                    push_previews(
                        &mut out,
                        OutputKind::Video,
                        list_video_paths(settings, extension),
                    );
                    out
                },
            }
        },
        ConversionPipeline::AudioOnly { generate_synthetic_video } => {
            let (_format, extension) = audio_encoder_to_output_format(
                settings.audio_encoder.as_str(),
            );
            if settings.split_tracks {
                let tracks = settings.audio_track_paths(
                    settings.channel_map.num_channels(),
                    extension,
                );
                push_previews(&mut out, OutputKind::Audio, tracks);
            } else {
                let mut one: Vec<String> = Vec::new();
                assert(strs(one@) =~= seq![]);
                push_string(&mut one, settings.mixed_audio_path(extension));
                assert(strs(one@) =~= seq![mixed_path(*settings, extension@)]);
                push_previews(&mut out, OutputKind::Audio, one);
            }
            if generate_synthetic_video {
                let path = settings.output_path_for_index(
                    "video",
                    1,
                    extension_for_container(settings.container.as_str()),
                );
                let ghost now = previewed(out@);
                out.push(PreviewOutput { kind: OutputKind::Video, path });
                assert(previewed(out@) =~= now.push((OutputKind::Video, path@)));
                assert(previewed(out@) =~= now + seq![(OutputKind::Video, path@)]);
            }
            out
        },
    }
}

// ── Collisions with inputs ─────────────────────────────────────────────────

/// The base of an input's video output; `None` where it has no name.
pub open spec fn planned_base(mode: OutputNamingMode, input: Seq<char>, prefix: Seq<char>) -> Option<Seq<char>> {
    match mode {
        OutputNamingMode::SourceStems => file_stem_of(input),
        OutputNamingMode::PrefixTemplates => if prefix.len() == 0 {
            None
        } else {
            Some(prefix)
        },
    }
}

/// The file name of a path, or a question mark.
pub open spec fn shown_name(path: Seq<char>) -> Seq<char> {
    match file_name_of(path) {
        Some(name) => name,
        None => "?"@,
    }
}

/// What is told about an output that is moved aside.
pub open spec fn moved_text(planned: Seq<char>, aside: Seq<char>) -> Seq<char> {
    "'"@ + shown_name(planned) + "' will be written as '"@ + shown_name(aside) + "'"@
}

/// What is told about the video output of one input, where it is the path of an
/// input.
pub open spec fn collision(
    inputs: Seq<Seq<char>>,
    folder: Seq<char>,
    prefix: Seq<char>,
    mode: OutputNamingMode,
    template: Seq<char>,
    container: Seq<char>,
    copy: bool,
    i: int,
) -> Option<Seq<char>> {
    match planned_base(mode, inputs[i], prefix) {
        None => None,
        Some(base) => {
            let suffix = numbered(template, (i + 1) as nat);
            let extension = if copy {
                copy_container_for(inputs[i])
            } else {
                container
            };
            let planned = joined_path(folder, output_name(base, suffix, seq![], extension));
            if listed(inputs, planned) {
                Some(
                    moved_text(
                        planned,
                        joined_path(folder, output_name(base, suffix, "_conv"@, extension)),
                    ),
                )
            } else {
                None
            }
        },
    }
}

/// What is told about the first `n` inputs.
pub open spec fn collisions(
    inputs: Seq<Seq<char>>,
    folder: Seq<char>,
    prefix: Seq<char>,
    mode: OutputNamingMode,
    template: Seq<char>,
    container: Seq<char>,
    copy: bool,
    n: int,
) -> Seq<Seq<char>>
    decreases n,
{
    if n <= 0 {
        seq![]
    } else {
        let before = collisions(inputs, folder, prefix, mode, template, container, copy, n - 1);
        match collision(inputs, folder, prefix, mode, template, container, copy, n - 1) {
            Some(text) => before.push(text),
            None => before,
        }
    }
}

/// The note about outputs that are moved aside.
pub open spec fn collision_note(parts: Seq<Seq<char>>) -> Option<Seq<char>> {
    if parts.len() == 0 {
        None
    } else {
        Some(
            "Output folder is the same as the input folder. "@ + joined(parts, "; "@)
                + " Consider choosing a different output folder."@,
        )
    }
}

fn name_or_mark(path: &str) -> (r: String)
    ensures
        r@ == shown_name(path@),
{
    match file_name(path) {
        Some(name) => name,
        None => "?".to_string(),
    }
}

fn describe_move(planned: &str, aside: &str) -> (r: String)
    ensures
        r@ == moved_text(planned@, aside@),
{
    let mut out = "'".to_string();
    let from = name_or_mark(planned);
    let to = name_or_mark(aside);
    out.append(from.as_str());
    out.append("' will be written as '");
    out.append(to.as_str());
    out.append("'");
    out
}

/// A note where video outputs would have the path of an input and are moved
/// aside; `None` where none would.
pub fn output_collision_warning(
    input_files: &Vec<String>,
    output_folder: &str,
    filename_prefix: &str,
    naming_mode: &OutputNamingMode,
    video_suffix_template: &str,
    container: &str,
    copy_video: bool,
) -> (r: Option<String>)
    ensures
        match r {
            Some(text) => collision_note(
                collisions(
                    strs(input_files@),
                    output_folder@,
                    filename_prefix@,
                    *naming_mode,
                    video_suffix_template@,
                    container@,
                    copy_video,
                    input_files@.len() as int,
                ),
            ) == Some(text@),
            None => collision_note(
                collisions(
                    strs(input_files@),
                    output_folder@,
                    filename_prefix@,
                    *naming_mode,
                    video_suffix_template@,
                    container@,
                    copy_video,
                    input_files@.len() as int,
                ),
            ) is None,
        },
{
    let ghost inputs = strs(input_files@);
    let mut parts: Vec<String> = Vec::new();
    let mut i: usize = 0;
    assert(strs(parts@) =~= seq![]);
    while i < input_files.len()
        invariant
            i <= input_files@.len(),
            inputs == strs(input_files@),
            strs(parts@) == collisions(
                inputs,
                output_folder@,
                filename_prefix@,
                *naming_mode,
                video_suffix_template@,
                container@,
                copy_video,
                i as int,
            ),
        decreases input_files@.len() - i,
    {
        let input = input_files[i].as_str();
        assert(inputs[i as int] == input@);
        let base: Option<String> = match naming_mode {
            OutputNamingMode::SourceStems => file_stem(input),
            OutputNamingMode::PrefixTemplates => {
                if filename_prefix.is_empty() {
                    None
                } else {
                    Some(filename_prefix.to_owned())
                }
            },
        };
        match base {
            None => {},
            Some(base) => {
                proof {
                    reveal_strlit("");
                    assert(""@ =~= seq![]);
                }
                let suffix = number_suffix(video_suffix_template, i + 1);
                let extension = if copy_video {
                    copy_mode_container_for_input(input)
                } else {
                    extension_for_container(container)
                };
                let name = build_output_name(base.as_str(), suffix.as_str(), "", extension);
                let planned = join_path(output_folder, name.as_str());
                if path_listed(input_files, planned.as_str()) {
                    let other = build_output_name(base.as_str(), suffix.as_str(), "_conv", extension);
                    let aside = join_path(output_folder, other.as_str());
                    push_string(&mut parts, describe_move(planned.as_str(), aside.as_str()));
                }
            },
        }
        i += 1;
    }
    assert(strs(parts@).len() == parts@.len());
    if parts.len() == 0 {
        return None;
    }
    let details = join(&parts, "; ");
    Some(
        concat3(
            "Output folder is the same as the input folder. ",
            details.as_str(),
            " Consider choosing a different output folder.",
        ),
    )
}

// ── Laws ───────────────────────────────────────────────────────────────────

/// Where all clips have the layout that the preview was given and the video is
/// not copied, the preview shows exactly the paths of all outputs.
pub proof fn law_preview_shows_all_paths(s: ConverterSettings, layout: Layout, extension: Seq<char>)
    requires
        s.pipeline == ConversionPipeline::VideoPassthrough,
        !s.copy_video,
    ensures
        expected_outputs(s, Some(layout)).map_values(|p: (OutputKind, Seq<char>)| p.1) == all_paths(
            s,
            0,
            0,
            extension,
            same_layouts(Some(layout), s.input_files@.len()),
        ),
{
    let n = s.input_files@.len();
    let clips = same_layouts(Some(layout), n);
    let shown = expected_outputs(s, Some(layout)).map_values(|p: (OutputKind, Seq<char>)| p.1);
    if s.joins_clips() {
        lemma_clip_paths(s, layout, extension, n as int);
        assert(clips.len() == n);
        let plan = concat_plan(s, clips).0;
        assert(shown =~= video_paths(s, s.container@, n) + joined_paths(plan, plan.len() as int));
    } else {
        lemma_planned_paths(s, layout, extension, n as int);
        let steps = uniform_steps(s, s.container@, layout.channels, n as int);
        assert(shown =~= paths_of(steps));
    }
}

proof fn lemma_clip_paths(s: ConverterSettings, layout: Layout, extension: Seq<char>, n: int)
    requires
        0 <= n <= s.input_files@.len(),
    ensures
        clip_paths(s, same_layouts(Some(layout), s.input_files@.len()), extension, n)
            == video_paths(s, s.container@, n as nat),
    decreases n,
{
    let clips = same_layouts(Some(layout), s.input_files@.len());
    if n > 0 {
        lemma_clip_paths(s, layout, extension, n - 1);
        assert(clips[n - 1] == Some(layout));
        assert(video_paths(s, s.container@, n as nat) =~= video_paths(
            s,
            s.container@,
            (n - 1) as nat,
        ).push(video_path(s, n - 1, s.container@)));
    } else {
        assert(video_paths(s, s.container@, 0) =~= seq![]);
    }
}

proof fn lemma_planned_paths(s: ConverterSettings, layout: Layout, extension: Seq<char>, n: int)
    requires
        0 <= n <= s.input_files@.len(),
    ensures
        planned_paths(s, same_layouts(Some(layout), s.input_files@.len()), extension, n)
            == paths_of(uniform_steps(s, s.container@, layout.channels, n)),
    decreases n,
{
    let clips = same_layouts(Some(layout), s.input_files@.len());
    let steps = uniform_steps(s, s.container@, layout.channels, n);
    if n > 0 {
        lemma_planned_paths(s, layout, extension, n - 1);
        assert(clips[n - 1] == Some(layout));
        let before = uniform_steps(s, s.container@, layout.channels, n - 1);
        let more = file_steps(s, s.container@, (n - 1) as usize, layout.channels);
        assert(paths_of(before + more) =~= paths_of(before) + paths_of(more));
    } else {
        assert(paths_of(steps) =~= seq![]);
    }
}

} // verus!
