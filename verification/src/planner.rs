//! Planning the outputs of a conversion.

use vstd::prelude::*;

use crate::ffprobe::{AudioStreamInfo, VideoAudioProbe};
use crate::formats::{audio_encoder_to_output_format, audio_output_format, extension_for_container};
use crate::settings::ConverterSettings;

verus! {

// ── Steps ──────────────────────────────────────────────────────────────────

/// Which audio a video output keeps.
#[derive(Clone, Debug, PartialEq)]
pub enum AudioKeep {
    AllAudio,
    /// All audio but the given channels, by stream and channel number.
    ChannelsExcept(Vec<(usize, usize)>),
}

/// One output of a conversion of videos.
#[derive(Clone, Debug, PartialEq)]
pub enum VideoOutputStep {
    /// Video without audio.
    VideoOnly { file_idx: usize, output: String },
    /// Video with audio.
    VideoMux { file_idx: usize, output: String, keep: AudioKeep },
    /// One audio channel.
    AudioChannel {
        file_idx: usize,
        stream_idx: usize,
        channel_idx: usize,
        output: String,
        format: String,
    },
    /// One audio track joined across clips; each segment is a file, a stream and
    /// a channel.
    AudioChannelConcat {
        segments: Vec<(usize, usize, usize)>,
        output: String,
        format: String,
        sample_rate: u32,
    },
}

/// The model of [`AudioKeep`].
#[verifier::ext_equal]
pub enum Keep {
    AllAudio,
    ChannelsExcept(Seq<(usize, usize)>),
}

/// The model of [`VideoOutputStep`].
#[verifier::ext_equal]
pub enum Step {
    VideoOnly { file_idx: usize, output: Seq<char> },
    VideoMux { file_idx: usize, output: Seq<char>, keep: Keep },
    AudioChannel {
        file_idx: usize,
        stream_idx: usize,
        channel_idx: usize,
        output: Seq<char>,
        format: Seq<char>,
    },
    AudioChannelConcat {
        segments: Seq<(usize, usize, usize)>,
        output: Seq<char>,
        format: Seq<char>,
        sample_rate: u32,
    },
}

impl View for AudioKeep {
    type V = Keep;

    open spec fn view(&self) -> Keep {
        match self {
            AudioKeep::AllAudio => Keep::AllAudio,
            AudioKeep::ChannelsExcept(pairs) => Keep::ChannelsExcept(pairs@),
        }
    }
}

impl View for VideoOutputStep {
    type V = Step;

    open spec fn view(&self) -> Step {
        match self {
            VideoOutputStep::VideoOnly { file_idx, output } => Step::VideoOnly {
                file_idx: *file_idx,
                output: output@,
            },
            VideoOutputStep::VideoMux { file_idx, output, keep } => Step::VideoMux {
                file_idx: *file_idx,
                output: output@,
                keep: keep@,
            },
            VideoOutputStep::AudioChannel { file_idx, stream_idx, channel_idx, output, format } => Step::AudioChannel {
                file_idx: *file_idx,
                stream_idx: *stream_idx,
                channel_idx: *channel_idx,
                output: output@,
                format: format@,
            },
            VideoOutputStep::AudioChannelConcat { segments, output, format, sample_rate } => Step::AudioChannelConcat {
                segments: segments@,
                output: output@,
                format: format@,
                sample_rate: *sample_rate,
            },
        }
    }
}

impl Step {
    /// The output path.
    pub open spec fn output(self) -> Seq<char> {
        match self {
            Step::VideoOnly { output, .. } => output,
            Step::VideoMux { output, .. } => output,
            Step::AudioChannel { output, .. } => output,
            Step::AudioChannelConcat { output, .. } => output,
        }
    }

    /// The output holds audio alone.
    pub open spec fn is_audio(self) -> bool {
        self is AudioChannel || self is AudioChannelConcat
    }
}

impl VideoOutputStep {
    /// The output path.
    pub fn output(&self) -> (r: &str)
        ensures
            r@ == self@.output(),
    {
        match self {
            VideoOutputStep::VideoOnly { output, .. } => output.as_str(),
            VideoOutputStep::VideoMux { output, .. } => output.as_str(),
            VideoOutputStep::AudioChannel { output, .. } => output.as_str(),
            VideoOutputStep::AudioChannelConcat { output, .. } => output.as_str(),
        }
    }
}

/// The steps of a list.
pub open spec fn steps_of(v: Seq<VideoOutputStep>) -> Seq<Step> {
    v.map_values(|s: VideoOutputStep| s@)
}

fn push_step(steps: &mut Vec<VideoOutputStep>, step: VideoOutputStep)
    ensures
        steps_of(final(steps)@) == steps_of(old(steps)@).push(step@),
        final(steps)@.len() == old(steps)@.len() + 1,
{
    steps.push(step);
    assert(steps_of(steps@) =~= steps_of(old(steps)@).push(step@));
}

// ── Channels ───────────────────────────────────────────────────────────────

/// The channels of one stream, by stream and channel number.
pub open spec fn stream_channels(s: AudioStreamInfo) -> Seq<(usize, usize)> {
    Seq::new(s.channels as nat, |c: int| (s.stream_index, c as usize))
}

/// The channels of the first `n` streams.
pub open spec fn channels_upto(streams: Seq<AudioStreamInfo>, n: int) -> Seq<(usize, usize)>
    decreases n,
{
    if n <= 0 {
        seq![]
    } else {
        channels_upto(streams, n - 1) + stream_channels(streams[n - 1])
    }
}

/// All channels of a file, stream by stream.
pub open spec fn channels_of(probe: VideoAudioProbe) -> Seq<(usize, usize)> {
    channels_upto(probe.streams@, probe.streams@.len() as int)
}

/// Lists the channels of a file, stream by stream.
pub fn list_channels(probe: &VideoAudioProbe) -> (r: Vec<(usize, usize)>)
    ensures
        r@ == channels_of(*probe),
{
    let mut out: Vec<(usize, usize)> = Vec::new();
    let mut i: usize = 0;
    while i < probe.streams.len()
        invariant
            i <= probe.streams@.len(),
            out@ == channels_upto(probe.streams@, i as int),
        decreases probe.streams@.len() - i,
    {
        let index = probe.streams[i].stream_index;
        let n = probe.streams[i].channels;
        let ghost before = out@;
        let ghost more = stream_channels(probe.streams@[i as int]);
        let mut c: usize = 0;
        assert(before + more.take(0) =~= before);
        while c < n
            invariant
                c <= n,
                n == more.len(),
                forall|k: int| 0 <= k < n ==> more[k] == (index, k as usize),
                out@ == before + more.take(c as int),
            decreases n - c,
        {
            out.push((index, c));
            assert(out@ =~= before + more.take(c + 1));
            c += 1;
        }
        assert(more.take(n as int) =~= more);
        i += 1;
    }
    out
}

/// The channels of a file, stream by stream; `None` where it has none.
pub fn probe_channel_list(probe: &VideoAudioProbe) -> (r: Option<Vec<(usize, usize)>>)
    ensures
        match r {
            Some(list) => list@ == channels_of(*probe) && list@.len() > 0,
            None => channels_of(*probe).len() == 0,
        },
{
    let list = list_channels(probe);
    if list.len() == 0 {
        None
    } else {
        Some(list)
    }
}

/// The first `n` channels without the dropped one.
pub open spec fn kept_upto(channels: Seq<(usize, usize)>, dropped: Option<(usize, usize)>, n: int) -> Seq<(usize, usize)>
    decreases n,
{
    if n <= 0 {
        seq![]
    } else if dropped == Some(channels[n - 1]) {
        kept_upto(channels, dropped, n - 1)
    } else {
        kept_upto(channels, dropped, n - 1).push(channels[n - 1])
    }
}

/// The channels without the dropped one.
pub open spec fn kept(channels: Seq<(usize, usize)>, dropped: Option<(usize, usize)>) -> Seq<(usize, usize)> {
    kept_upto(channels, dropped, channels.len() as int)
}

fn is_dropped(dropped: Option<(usize, usize)>, pair: (usize, usize)) -> (r: bool)
    ensures
        r == (dropped == Some(pair)),
{
    match dropped {
        Some(d) => d.0 == pair.0 && d.1 == pair.1,
        None => false,
    }
}

fn keep_channels(channels: &Vec<(usize, usize)>, dropped: Option<(usize, usize)>) -> (r: Vec<
    (usize, usize),
>)
    ensures
        r@ == kept(channels@, dropped),
{
    let mut out: Vec<(usize, usize)> = Vec::new();
    let mut i: usize = 0;
    while i < channels.len()
        invariant
            i <= channels@.len(),
            out@ == kept_upto(channels@, dropped, i as int),
        decreases channels@.len() - i,
    {
        if !is_dropped(dropped, channels[i]) {
            out.push(channels[i]);
        }
        i += 1;
    }
    out
}

impl ConverterSettings {
    /// The channel that is left out: the one with LTC, where it is to be dropped.
    pub open spec fn dropped(self) -> Option<(usize, usize)> {
        if self.drop_ltc_track {
            self.ltc_video_source
        } else {
            None
        }
    }

    /// The channel that is left out.
    pub fn dropped_channel(&self) -> (r: Option<(usize, usize)>)
        ensures
            r == self.dropped(),
    {
        if self.drop_ltc_track {
            self.ltc_video_source
        } else {
            None
        }
    }
}

// ── One file ───────────────────────────────────────────────────────────────

/// The step that extracts the `k`-th of the kept channels of a file.
pub open spec fn channel_step(s: ConverterSettings, file_idx: usize, kept: Seq<(usize, usize)>, k: int) -> Step {
    let (format, extension) = audio_output_format(s.audio_encoder@);
    Step::AudioChannel {
        file_idx,
        stream_idx: kept[k].0,
        channel_idx: kept[k].1,
        output: s.path_for("audio"@, file_idx as int, (k + 1) as nat, extension),
        format,
    }
}

/// The steps that extract the kept channels of a file.
pub open spec fn channel_steps(s: ConverterSettings, file_idx: usize, kept: Seq<(usize, usize)>) -> Seq<Step> {
    Seq::new(kept.len(), |k: int| channel_step(s, file_idx, kept, k))
}

/// The path of a file's video.
pub open spec fn video_path(s: ConverterSettings, file_idx: int, extension: Seq<char>) -> Seq<char> {
    s.path_for("video"@, file_idx, (file_idx + 1) as nat, extension)
}

/// The steps for one file. Without split tracks there is one: video with all
/// audio, with all but the dropped channel, or without audio where nothing else
/// is left.
pub open spec fn file_steps(
    s: ConverterSettings,
    container: Seq<char>,
    file_idx: usize,
    channels: Seq<(usize, usize)>,
) -> Seq<Step> {
    let output = video_path(s, file_idx as int, container);
    if s.split_tracks {
        seq![Step::VideoOnly { file_idx, output }] + channel_steps(
            s,
            file_idx,
            kept(channels, s.dropped()),
        )
    } else {
        match s.dropped() {
            None => seq![Step::VideoMux { file_idx, output, keep: Keep::AllAudio }],
            Some(pair) => if channels.len() == (if channels.contains(pair) {
                1int
            } else {
                0
            }) {
                seq![Step::VideoOnly { file_idx, output }]
            } else {
                seq![
                    Step::VideoMux {
                        file_idx,
                        output,
                        keep: Keep::ChannelsExcept(seq![pair]),
                    },
                ]
            },
        }
    }
}

fn push_channel_steps(
    steps: &mut Vec<VideoOutputStep>,
    settings: &ConverterSettings,
    file_idx: usize,
    kept: &Vec<(usize, usize)>,
)
    ensures
        steps_of(final(steps)@) == steps_of(old(steps)@) + channel_steps(*settings, file_idx, kept@),
{
    let (format, extension) = audio_encoder_to_output_format(settings.audio_encoder.as_str());
    let ghost wanted = channel_steps(*settings, file_idx, kept@);
    let ghost before = steps_of(steps@);
    let mut k: usize = 0;
    assert(before + wanted.take(0) =~= before);
    while k < kept.len()
        invariant
            k <= kept@.len(),
            wanted == channel_steps(*settings, file_idx, kept@),
            wanted.len() == kept@.len(),
            (format@, extension@) == audio_output_format(settings.audio_encoder@),
            steps_of(steps@) == before + wanted.take(k as int),
        decreases kept@.len() - k,
    {
        let output = settings.output_path_for_file("audio", file_idx, k + 1, extension);
        let step = VideoOutputStep::AudioChannel {
            file_idx,
            stream_idx: kept[k].0,
            channel_idx: kept[k].1,
            output,
            format: format.to_string(),
        };
        assert(step@ == wanted[k as int]);
        push_step(steps, step);
        assert(before + wanted.take(k + 1) =~= (before + wanted.take(k as int)).push(
            wanted[k as int],
        ));
        k += 1;
    }
    assert(wanted.take(k as int) =~= wanted);
}

fn has_channel(channels: &Vec<(usize, usize)>, pair: (usize, usize)) -> (r: bool)
    ensures
        r == channels@.contains(pair),
{
    let mut i: usize = 0;
    while i < channels.len()
        invariant
            i <= channels@.len(),
            forall|k: int| 0 <= k < i ==> channels@[k] != pair,
        decreases channels@.len() - i,
    {
        if channels[i].0 == pair.0 && channels[i].1 == pair.1 {
            assert(channels@[i as int] == pair);
            return true;
        }
        i += 1;
    }
    false
}

/// Plans the outputs of one file with the given channels.
pub fn plan_file(
    settings: &ConverterSettings,
    container: &str,
    file_idx: usize,
    channels: &Vec<(usize, usize)>,
) -> (r: Vec<VideoOutputStep>)
    requires
        file_idx < usize::MAX,
    ensures
        steps_of(r@) == file_steps(*settings, container@, file_idx, channels@),
{
    let mut steps: Vec<VideoOutputStep> = Vec::new();
    assert(steps_of(steps@) =~= seq![]);
    let output = settings.output_path_for_file(
        "video",
        file_idx,
        file_idx + 1,
        extension_for_container(container),
    );
    let dropped = settings.dropped_channel();
    if settings.split_tracks {
        push_step(&mut steps, VideoOutputStep::VideoOnly { file_idx, output });
        let kept_channels = keep_channels(channels, dropped);
        push_channel_steps(&mut steps, settings, file_idx, &kept_channels);
        assert(steps_of(steps@) =~= file_steps(*settings, container@, file_idx, channels@));
        return steps;
    }
    match dropped {
        None => {
            push_step(
                &mut steps,
                VideoOutputStep::VideoMux { file_idx, output, keep: AudioKeep::AllAudio },
            );
        },
        Some(pair) => {
            let count: usize = if has_channel(channels, pair) {
                1
            } else {
                0
            };
            if channels.len() == count {
                push_step(&mut steps, VideoOutputStep::VideoOnly { file_idx, output });
            } else {
                let pairs: Vec<(usize, usize)> = vec![pair];
                assert(pairs@ =~= seq![pair]);
                push_step(
                    &mut steps,
                    VideoOutputStep::VideoMux {
                        file_idx,
                        output,
                        keep: AudioKeep::ChannelsExcept(pairs),
                    },
                );
            }
        },
    }
    assert(steps_of(steps@) =~= file_steps(*settings, container@, file_idx, channels@));
    steps
}

/// Plans the outputs of one file. Audio tracks are numbered within the file.
pub fn plan_video_outputs_for_file(
    settings: &ConverterSettings,
    file_idx: usize,
    probe: &VideoAudioProbe,
) -> (r: Vec<VideoOutputStep>)
    requires
        file_idx < usize::MAX,
    ensures
        steps_of(r@) == file_steps(*settings, settings.container@, file_idx, channels_of(*probe)),
{
    plan_file(settings, settings.container.as_str(), file_idx, &list_channels(probe))
}

/// The steps for the first `n` files, all with the same channels.
pub open spec fn uniform_steps(
    s: ConverterSettings,
    container: Seq<char>,
    channels: Seq<(usize, usize)>,
    n: int,
) -> Seq<Step>
    decreases n,
{
    if n <= 0 {
        seq![]
    } else {
        uniform_steps(s, container, channels, n - 1) + file_steps(
            s,
            container,
            (n - 1) as usize,
            channels,
        )
    }
}

fn append_steps(steps: &mut Vec<VideoOutputStep>, more: Vec<VideoOutputStep>)
    ensures
        steps_of(final(steps)@) == steps_of(old(steps)@) + steps_of(more@),
{
    let mut rest = more;
    steps.append(&mut rest);
    assert(steps_of(steps@) =~= steps_of(old(steps)@) + steps_of(more@));
}

/// Plans the outputs of all files, which have the given channels.
pub fn plan_uniform(
    settings: &ConverterSettings,
    container: &str,
    channels: &Vec<(usize, usize)>,
) -> (r: Vec<VideoOutputStep>)
    ensures
        steps_of(r@) == uniform_steps(
            *settings,
            container@,
            channels@,
            settings.input_files@.len() as int,
        ),
{
    let mut steps: Vec<VideoOutputStep> = Vec::new();
    let n: usize = settings.input_files.len();
    let mut i: usize = 0;
    assert(steps_of(steps@) =~= seq![]);
    while i < n
        invariant
            i <= n,
            steps_of(steps@) == uniform_steps(*settings, container@, channels@, i as int),
        decreases n - i,
    {
        let more = plan_file(settings, container, i, channels);
        append_steps(&mut steps, more);
        i += 1;
    }
    steps
}

/// Plans the outputs of all files, which have the same audio layout.
pub fn plan_video_outputs(settings: &ConverterSettings, probe: &VideoAudioProbe) -> (r: Vec<
    VideoOutputStep,
>)
    ensures
        steps_of(r@) == uniform_steps(
            *settings,
            settings.container@,
            channels_of(*probe),
            settings.input_files@.len() as int,
        ),
{
    plan_uniform(settings, settings.container.as_str(), &list_channels(probe))
}

// ── Joining clips ──────────────────────────────────────────────────────────

/// What joining needs to know of a clip: its channels and the sample rate of its
/// first audio stream.
#[derive(Clone, Debug)]
pub struct ClipLayout {
    pub channels: Vec<(usize, usize)>,
    pub rate: Option<u32>,
}

/// The model of [`ClipLayout`].
#[verifier::ext_equal]
pub struct Layout {
    pub channels: Seq<(usize, usize)>,
    pub rate: Option<u32>,
}

impl View for ClipLayout {
    type V = Layout;

    open spec fn view(&self) -> Layout {
        Layout { channels: self.channels@, rate: self.rate }
    }
}

/// The layout of a clip.
pub open spec fn layout_of(probe: VideoAudioProbe) -> Layout {
    Layout {
        channels: channels_of(probe),
        rate: if probe.streams@.len() > 0 {
            Some(probe.streams@[0].sample_rate)
        } else {
            None
        },
    }
}

/// The layouts of clips; none for a clip that could not be probed.
pub open spec fn layouts_of(probes: Seq<Option<VideoAudioProbe>>) -> Seq<Option<Layout>> {
    probes.map_values(
        |p: Option<VideoAudioProbe>|
            match p {
                Some(probe) => Some(layout_of(probe)),
                None => None,
            },
    )
}

/// The layouts of a list.
pub open spec fn layout_models(v: Seq<Option<ClipLayout>>) -> Seq<Option<Layout>> {
    v.map_values(
        |p: Option<ClipLayout>|
            match p {
                Some(l) => Some(l@),
                None => None,
            },
    )
}

/// A clip has audio.
pub open spec fn sounds(clip: Option<Layout>) -> bool {
    clip matches Some(l) && l.channels.len() > 0
}

/// The channels of the first clip with audio, from number `from` on.
pub open spec fn reference_channels(clips: Seq<Option<Layout>>, from: int) -> Option<Seq<(usize, usize)>>
    decreases clips.len() - from,
{
    if from < 0 || from >= clips.len() {
        None
    } else if sounds(clips[from]) {
        Some(clips[from]->0.channels)
    } else {
        reference_channels(clips, from + 1)
    }
}

/// The sample rate of the first clip that could be probed; 48 kHz without one.
pub open spec fn reference_rate(clips: Seq<Option<Layout>>, from: int) -> u32
    decreases clips.len() - from,
{
    if from < 0 || from >= clips.len() {
        48000
    } else {
        match clips[from] {
            Some(l) => match l.rate {
                Some(rate) => rate,
                None => 48000,
            },
            None => reference_rate(clips, from + 1),
        }
    }
}

/// A clip can be joined with others: it has no audio, or the same channels in
/// the same order and the same sample rate.
pub open spec fn joinable(clip: Option<Layout>, channels: Seq<(usize, usize)>, rate: u32) -> bool {
    sounds(clip) ==> clip->0.channels == channels && (clip->0.rate is None || clip->0.rate == Some(
        rate,
    ))
}

/// The number of the first clip that cannot be joined; the number of clips where
/// all can.
pub open spec fn first_misfit(clips: Seq<Option<Layout>>, channels: Seq<(usize, usize)>, rate: u32, from: int) -> int
    decreases clips.len() - from,
{
    if from < 0 || from >= clips.len() {
        clips.len() as int
    } else if !joinable(clips[from], channels, rate) {
        from
    } else {
        first_misfit(clips, channels, rate, from + 1)
    }
}

/// What is told about a clip without audio.
pub open spec fn silence_warning(path: Seq<char>) -> Seq<char> {
    "Warning: clip "@ + path + " has no audio; excluded from concatenation.\n"@
}

/// What is told about the clips without audio among the first `n`.
pub open spec fn silence_warnings(clips: Seq<Option<Layout>>, inputs: Seq<Seq<char>>, n: int) -> Seq<char>
    decreases n,
{
    if n <= 0 {
        seq![]
    } else {
        let before = silence_warnings(clips, inputs, n - 1);
        if sounds(clips[n - 1]) {
            before
        } else {
            before + silence_warning(inputs[n - 1])
        }
    }
}

/// What is told when clips cannot be joined.
pub open spec fn misfit_warning() -> Seq<char> {
    "Warning: audio channel layouts differ across clips — falling back to per-clip audio outputs.\n"@
}

/// The parts of a joined track: the same channel of every clip with audio among
/// the first `n`.
pub open spec fn segments_upto(clips: Seq<Option<Layout>>, channel: (usize, usize), n: int) -> Seq<
    (usize, usize, usize),
>
    decreases n,
{
    if n <= 0 {
        seq![]
    } else {
        let before = segments_upto(clips, channel, n - 1);
        if sounds(clips[n - 1]) {
            before.push(((n - 1) as usize, channel.0, channel.1))
        } else {
            before
        }
    }
}

/// The joined tracks among the first `n`, without the dropped one. A track keeps
/// its number whether or not another is dropped.
pub open spec fn joined_tracks(
    s: ConverterSettings,
    clips: Seq<Option<Layout>>,
    channels: Seq<(usize, usize)>,
    rate: u32,
    n: int,
) -> Seq<Step>
    decreases n,
{
    if n <= 0 {
        seq![]
    } else {
        let before = joined_tracks(s, clips, channels, rate, n - 1);
        let (format, extension) = audio_output_format(s.audio_encoder@);
        if s.dropped() == Some(channels[n - 1]) {
            before
        } else {
            before.push(
                Step::AudioChannelConcat {
                    segments: segments_upto(clips, channels[n - 1], clips.len() as int),
                    output: s.path_for("audio"@, 0, n as nat, extension),
                    format,
                    sample_rate: rate,
                },
            )
        }
    }
}

/// The steps that extract the kept channels of the first `n` clips one by one.
pub open spec fn single_tracks(s: ConverterSettings, clips: Seq<Option<Layout>>, n: int) -> Seq<Step>
    decreases n,
{
    if n <= 0 {
        seq![]
    } else {
        let before = single_tracks(s, clips, n - 1);
        match clips[n - 1] {
            Some(l) => before + channel_steps(s, (n - 1) as usize, kept(l.channels, s.dropped())),
            None => before,
        }
    }
}

/// The audio steps for joined clips, and the warnings. Without any audio there
/// is nothing to do; where one clip does not fit, every clip gets its own files.
pub open spec fn concat_plan(s: ConverterSettings, clips: Seq<Option<Layout>>) -> (Seq<Step>, Seq<char>) {
    match reference_channels(clips, 0) {
        None => (seq![], seq![]),
        Some(channels) => {
            let rate = reference_rate(clips, 0);
            let misfit = first_misfit(clips, channels, rate, 0);
            let warnings = silence_warnings(clips, s.inputs(), misfit);
            if misfit < clips.len() {
                (single_tracks(s, clips, clips.len() as int), warnings + misfit_warning())
            } else {
                (joined_tracks(s, clips, channels, rate, channels.len() as int), warnings)
            }
        },
    }
}

/// Every clip without audio has an input path that can be named.
pub open spec fn silent_named(s: ConverterSettings, clips: Seq<Option<Layout>>) -> bool {
    reference_channels(clips, 0) is Some ==> forall|i: int|
        0 <= i < clips.len() && !sounds(#[trigger] clips[i]) ==> i < s.input_files@.len()
}

/// The layout of a clip.
pub fn clip_layout(probe: &VideoAudioProbe) -> (r: ClipLayout)
    ensures
        r@ == layout_of(*probe),
{
    let channels = list_channels(probe);
    let rate: Option<u32> = if probe.streams.len() > 0 {
        Some(probe.streams[0].sample_rate)
    } else {
        None
    };
    ClipLayout { channels, rate }
}

fn clip_layouts(probes: &[Option<VideoAudioProbe>]) -> (r: Vec<Option<ClipLayout>>)
    ensures
        layout_models(r@) == layouts_of(probes@),
{
    let mut out: Vec<Option<ClipLayout>> = Vec::new();
    let n: usize = probes.len();
    let mut i: usize = 0;
    while i < n
        invariant
            i <= n,
            n == probes@.len(),
            layout_models(out@) == layouts_of(probes@).take(i as int),
        decreases n - i,
    {
        let layout = match &probes[i] {
            Some(probe) => Some(clip_layout(probe)),
            None => None,
        };
        let ghost before = layout_models(out@);
        let ghost model = layouts_of(probes@)[i as int];
        assert(model == match layout {
            Some(l) => Some(l@),
            None => None,
        });
        out.push(layout);
        assert(layout_models(out@) =~= before.push(model));
        assert(layouts_of(probes@).take(i + 1) =~= layouts_of(probes@).take(i as int).push(model));
        i += 1;
    }
    assert(layouts_of(probes@).take(n as int) =~= layouts_of(probes@));
    out
}

fn clip_sounds(clip: &Option<ClipLayout>) -> (r: bool)
    ensures
        r == sounds(
            match clip {
                Some(l) => Some(l@),
                None => None,
            },
        ),
{
    match clip {
        Some(l) => l.channels.len() > 0,
        None => false,
    }
}

fn find_reference(clips: &Vec<Option<ClipLayout>>) -> (r: Option<usize>)
    ensures
        match r {
            Some(i) => i < clips@.len() && sounds(layout_models(clips@)[i as int])
                && reference_channels(layout_models(clips@), 0) == Some(
                layout_models(clips@)[i as int]->0.channels,
            ),
            None => reference_channels(layout_models(clips@), 0) is None,
        },
{
    let ghost models = layout_models(clips@);
    let mut i: usize = 0;
    while i < clips.len()
        invariant
            i <= clips@.len(),
            models == layout_models(clips@),
            reference_channels(models, i as int) == reference_channels(models, 0),
        decreases clips@.len() - i,
    {
        if clip_sounds(&clips[i]) {
            return Some(i);
        }
        i += 1;
    }
    None
}

fn find_rate(clips: &Vec<Option<ClipLayout>>) -> (r: u32)
    ensures
        r == reference_rate(layout_models(clips@), 0),
{
    let ghost models = layout_models(clips@);
    let mut i: usize = 0;
    while i < clips.len()
        invariant
            i <= clips@.len(),
            models == layout_models(clips@),
            reference_rate(models, i as int) == reference_rate(models, 0),
        decreases clips@.len() - i,
    {
        match &clips[i] {
            Some(l) => {
                return match l.rate {
                    Some(rate) => rate,
                    None => 48000,
                };
            },
            None => {},
        }
        i += 1;
    }
    48000
}

fn same_channels(a: &Vec<(usize, usize)>, b: &Vec<(usize, usize)>) -> (r: bool)
    ensures
        r == (a@ == b@),
{
    if a.len() != b.len() {
        return false;
    }
    let mut i: usize = 0;
    while i < a.len()
        invariant
            i <= a@.len(),
            a@.len() == b@.len(),
            forall|k: int| 0 <= k < i ==> a@[k] == b@[k],
        decreases a@.len() - i,
    {
        if a[i].0 != b[i].0 || a[i].1 != b[i].1 {
            return false;
        }
        i += 1;
    }
    assert(a@ =~= b@);
    true
}

fn clip_joinable(clip: &Option<ClipLayout>, channels: &Vec<(usize, usize)>, rate: u32) -> (r: bool)
    ensures
        r == joinable(
            match clip {
                Some(l) => Some(l@),
                None => None,
            },
            channels@,
            rate,
        ),
{
    match clip {
        Some(l) => {
            if l.channels.len() == 0 {
                return true;
            }
            same_channels(&l.channels, channels) && match l.rate {
                Some(own) => own == rate,
                None => true,
            }
        },
        None => true,
    }
}

fn push_silence_warning(out: &mut String, path: &str)
    ensures
        final(out)@ == old(out)@ + silence_warning(path@),
{
    out.append("Warning: clip ");
    out.append(path);
    out.append(" has no audio; excluded from concatenation.\n");
    assert(out@ =~= old(out)@ + silence_warning(path@));
}

fn list_segments(clips: &Vec<Option<ClipLayout>>, channel: (usize, usize)) -> (r: Vec<
    (usize, usize, usize),
>)
    ensures
        r@ == segments_upto(layout_models(clips@), channel, clips@.len() as int),
{
    let mut out: Vec<(usize, usize, usize)> = Vec::new();
    let mut i: usize = 0;
    while i < clips.len()
        invariant
            i <= clips@.len(),
            out@ == segments_upto(layout_models(clips@), channel, i as int),
        decreases clips@.len() - i,
    {
        assert(layout_models(clips@)[i as int] == match clips@[i as int] {
            Some(l) => Some(l@),
            None => None,
        });
        if clip_sounds(&clips[i]) {
            out.push((i, channel.0, channel.1));
        }
        i += 1;
    }
    out
}

fn plan_joined(
    settings: &ConverterSettings,
    clips: &Vec<Option<ClipLayout>>,
    channels: &Vec<(usize, usize)>,
    rate: u32,
) -> (r: Vec<VideoOutputStep>)
    ensures
        steps_of(r@) == joined_tracks(
            *settings,
            layout_models(clips@),
            channels@,
            rate,
            channels@.len() as int,
        ),
{
    let (format, extension) = audio_encoder_to_output_format(settings.audio_encoder.as_str());
    let dropped = settings.dropped_channel();
    let mut steps: Vec<VideoOutputStep> = Vec::new();
    let mut t: usize = 0;
    assert(steps_of(steps@) =~= seq![]);
    while t < channels.len()
        invariant
            t <= channels@.len(),
            dropped == settings.dropped(),
            (format@, extension@) == audio_output_format(settings.audio_encoder@),
            steps_of(steps@) == joined_tracks(
                *settings,
                layout_models(clips@),
                channels@,
                rate,
                t as int,
            ),
        decreases channels@.len() - t,
    {
        if !is_dropped(dropped, channels[t]) {
            let segments = list_segments(clips, channels[t]);
            let output = settings.output_path_for_file("audio", 0, t + 1, extension);
            assert(layout_models(clips@).len() == clips@.len());
            push_step(
                &mut steps,
                VideoOutputStep::AudioChannelConcat {
                    segments,
                    output,
                    format: format.to_string(),
                    sample_rate: rate,
                },
            );
        }
        t += 1;
    }
    steps
}

fn plan_single(settings: &ConverterSettings, clips: &Vec<Option<ClipLayout>>) -> (r: Vec<
    VideoOutputStep,
>)
    ensures
        steps_of(r@) == single_tracks(*settings, layout_models(clips@), clips@.len() as int),
{
    let dropped = settings.dropped_channel();
    let mut steps: Vec<VideoOutputStep> = Vec::new();
    let mut i: usize = 0;
    assert(steps_of(steps@) =~= seq![]);
    while i < clips.len()
        invariant
            i <= clips@.len(),
            dropped == settings.dropped(),
            steps_of(steps@) == single_tracks(*settings, layout_models(clips@), i as int),
        decreases clips@.len() - i,
    {
        match &clips[i] {
            Some(l) => {
                let kept_channels = keep_channels(&l.channels, dropped);
                push_channel_steps(&mut steps, settings, i, &kept_channels);
            },
            None => {},
        }
        i += 1;
    }
    steps
}

/// Plans the joining of the audio tracks of clips with the given layouts.
pub fn plan_concat(settings: &ConverterSettings, clips: &Vec<Option<ClipLayout>>) -> (r: (
    Vec<VideoOutputStep>,
    String,
))
    requires
        silent_named(*settings, layout_models(clips@)),
    ensures
        (steps_of(r.0@), r.1@) == concat_plan(*settings, layout_models(clips@)),
{
    let ghost models = layout_models(clips@);
    let mut warnings = String::new();
    let reference = match find_reference(clips) {
        Some(i) => i,
        None => {
            let nothing: Vec<VideoOutputStep> = Vec::new();
            assert(steps_of(nothing@) =~= seq![]);
            assert(warnings@ =~= seq![]);
            return (nothing, warnings);
        },
    };
    assert(models[reference as int] == match clips@[reference as int] {
        Some(l) => Some(l@),
        None => None,
    });
    let channels: &Vec<(usize, usize)> = match &clips[reference] {
        Some(l) => &l.channels,
        None => {
            return (Vec::new(), warnings);
        },
    };
    let rate = find_rate(clips);
    let mut i: usize = 0;
    assert(warnings@ =~= seq![]);
    while i < clips.len() && clip_joinable(&clips[i], channels, rate)
        invariant
            i <= clips@.len(),
            models == layout_models(clips@),
            reference_channels(models, 0) is Some,
            silent_named(*settings, models),
            first_misfit(models, channels@, rate, i as int) == first_misfit(
                models,
                channels@,
                rate,
                0,
            ),
            warnings@ == silence_warnings(models, settings.inputs(), i as int),
        decreases clips@.len() - i,
    {
        assert(models[i as int] == match clips@[i as int] {
            Some(l) => Some(l@),
            None => None,
        });
        if !clip_sounds(&clips[i]) {
            assert(!sounds(models[i as int]));
            assert(settings.inputs()[i as int] == settings.input_files@[i as int]@);
            push_silence_warning(&mut warnings, settings.input_files[i].as_str());
        }
        i += 1;
    }
    assert(i < clips@.len() ==> models[i as int] == match clips@[i as int] {
        Some(l) => Some(l@),
        None => None,
    });
    assert(first_misfit(models, channels@, rate, 0) == i);
    if i < clips.len() {
        warnings.append(
            "Warning: audio channel layouts differ across clips — falling back to per-clip audio outputs.\n",
        );
        return (plan_single(settings, clips), warnings);
    }
    (plan_joined(settings, clips, channels, rate), warnings)
}

/// Plans the joining of the audio tracks of all clips: one output for each
/// track. Clips without audio are left out with a warning. Where the clips do
/// not fit together each gets outputs of its own, with a warning.
pub fn plan_concat_outputs(
    settings: &ConverterSettings,
    all_probes: &[Option<VideoAudioProbe>],
) -> (r: (Vec<VideoOutputStep>, String))
    requires
        silent_named(*settings, layouts_of(all_probes@)),
    ensures
        (steps_of(r.0@), r.1@) == concat_plan(*settings, layouts_of(all_probes@)),
{
    let clips = clip_layouts(all_probes);
    plan_concat(settings, &clips)
}

// ── Laws ───────────────────────────────────────────────────────────────────

/// The dropped channel is never kept, and every other one is.
pub proof fn law_kept_channels(channels: Seq<(usize, usize)>, dropped: Option<(usize, usize)>)
    ensures
        forall|c: (usize, usize)| #[trigger]
            kept(channels, dropped).contains(c) <==> channels.contains(c) && dropped != Some(c),
{
    lemma_kept_upto(channels, dropped, channels.len() as int);
    assert(channels.take(channels.len() as int) =~= channels);
}

proof fn lemma_kept_upto(channels: Seq<(usize, usize)>, dropped: Option<(usize, usize)>, n: int)
    requires
        0 <= n <= channels.len(),
    ensures
        forall|c: (usize, usize)| #[trigger]
            kept_upto(channels, dropped, n).contains(c) <==> channels.take(n).contains(c) && dropped
                != Some(c),
    decreases n,
{
    if n > 0 {
        lemma_kept_upto(channels, dropped, n - 1);
        let before = kept_upto(channels, dropped, n - 1);
        let last = channels[n - 1];
        assert(channels.take(n) =~= channels.take(n - 1).push(last));
        assert forall|c: (usize, usize)| #[trigger]
            kept_upto(channels, dropped, n).contains(c) <==> channels.take(n).contains(c) && dropped
                != Some(c) by {
            let head = channels.take(n - 1);
            assert(head.push(last).contains(c) <==> head.contains(c) || c == last) by {
                if head.contains(c) {
                    let k = choose|k: int| 0 <= k < head.len() && head[k] == c;
                    assert(head.push(last)[k] == c);
                }
                assert(head.push(last)[head.len() as int] == last);
            }
            assert(before.push(last).contains(c) <==> before.contains(c) || c == last) by {
                if before.contains(c) {
                    let k = choose|k: int| 0 <= k < before.len() && before[k] == c;
                    assert(before.push(last)[k] == c);
                }
                assert(before.push(last)[before.len() as int] == last);
            }
        }
    }
}

/// With split tracks a file gives one video and one file for every channel that
/// is kept; otherwise it gives one output.
pub proof fn law_step_count(
    s: ConverterSettings,
    container: Seq<char>,
    file_idx: usize,
    channels: Seq<(usize, usize)>,
)
    ensures
        file_steps(s, container, file_idx, channels).len() == if s.split_tracks {
            1 + kept(channels, s.dropped()).len()
        } else {
            1
        },
{
}

/// A joined plan has a part from every clip with audio: where all clips fit
/// together, every track has the channel of each of them and of no other.
pub proof fn law_segments_complete(clips: Seq<Option<Layout>>, channel: (usize, usize), i: int)
    requires
        0 <= i < clips.len() <= usize::MAX,
    ensures
        segments_upto(clips, channel, clips.len() as int).contains((i as usize, channel.0, channel.1))
            <==> sounds(clips[i]),
{
    lemma_segments(clips, channel, i, clips.len() as int);
}

proof fn lemma_segments(clips: Seq<Option<Layout>>, channel: (usize, usize), i: int, n: int)
    requires
        0 <= i < clips.len() <= usize::MAX,
        0 <= n <= clips.len(),
    ensures
        segments_upto(clips, channel, n).contains((i as usize, channel.0, channel.1)) <==> i < n
            && sounds(clips[i]),
    decreases n,
{
    if n > 0 {
        lemma_segments(clips, channel, i, n - 1);
        let before = segments_upto(clips, channel, n - 1);
        let part = (i as usize, channel.0, channel.1);
        if sounds(clips[n - 1]) {
            let last = ((n - 1) as usize, channel.0, channel.1);
            if before.contains(part) {
                let k = choose|k: int| 0 <= k < before.len() && before[k] == part;
                assert(before.push(last)[k] == part);
            }
            assert(before.push(last)[before.len() as int] == last);
        }
    }
}

/// Clips with one layout are always joined: no warning, and one output for every
/// channel but the dropped one.
pub proof fn law_uniform_clips_join(s: ConverterSettings, layout: Layout, n: nat)
    requires
        n > 0,
        layout.channels.len() > 0,
        layout.rate is Some,
    ensures
        concat_plan(s, Seq::new(n, |i: int| Some(layout))) == (
            joined_tracks(
                s,
                Seq::new(n, |i: int| Some(layout)),
                layout.channels,
                layout.rate->0,
                layout.channels.len() as int,
            ),
            Seq::<char>::empty(),
        ),
{
    let clips = Seq::new(n, |i: int| Some(layout));
    assert(clips[0] == Some(layout));
    assert(reference_channels(clips, 0) == Some(layout.channels));
    lemma_no_misfit(clips, layout.channels, layout.rate->0, 0);
    lemma_no_silence(clips, s.inputs(), n as int);
}

proof fn lemma_no_misfit(clips: Seq<Option<Layout>>, channels: Seq<(usize, usize)>, rate: u32, from: int)
    requires
        0 <= from <= clips.len(),
        forall|i: int| 0 <= i < clips.len() ==> joinable(#[trigger] clips[i], channels, rate),
    ensures
        first_misfit(clips, channels, rate, from) == clips.len(),
    decreases clips.len() - from,
{
    if from < clips.len() {
        lemma_no_misfit(clips, channels, rate, from + 1);
    }
}

proof fn lemma_no_silence(clips: Seq<Option<Layout>>, inputs: Seq<Seq<char>>, n: int)
    requires
        n <= clips.len(),
        forall|i: int| 0 <= i < clips.len() ==> sounds(#[trigger] clips[i]),
    ensures
        silence_warnings(clips, inputs, n) == Seq::<char>::empty(),
    decreases n,
{
    if n > 0 {
        lemma_no_silence(clips, inputs, n - 1);
    }
}

} // verus!
