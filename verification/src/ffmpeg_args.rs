//! The command lines that ffmpeg is run with.
//!
//! Times are printed in seconds with three decimals, rounded from nanoseconds.

use vstd::prelude::*;

use crate::channel_map::input_for;
use crate::ffprobe::{AudioStreamInfo, VideoAudioProbe};
use crate::formats::{container_to_ffmpeg_format, ffmpeg_format};
use crate::hw_device::{device_args, option_args, push_options};
use crate::planner::{AudioKeep, Keep, Step, VideoOutputStep};
use crate::settings::{ConverterSettings, ResolvedHwDevice};
use crate::text::{
    concat2, decimal, join, joined, padded3, push_decimal, push_padded3, push_str, push_string, same,
    strs,
};
use crate::timecode::{format_ffmpeg_timecode, timecode_text, FrameRate};
use crate::timecode_meta::{reference_samples, time_reference_samples, TimecodeMetadata};
use crate::video_codecs::{
    args_of_codec, candidate_args, codec_args, encoder_args, hw_frame_path, hw_frames_for,
    normalize_video_codec, normalized_codec, pairs,
};

verus! {

// ── Numbers ────────────────────────────────────────────────────────────────

/// Thousandths with three decimals.
pub open spec fn thousandths_text(n: nat) -> Seq<char> {
    decimal(n / 1000) + "."@ + padded3(n % 1000)
}

/// Nanoseconds in seconds with three decimals.
pub open spec fn seconds_text(nanos: nat) -> Seq<char> {
    thousandths_text((nanos + 500_000) / 1_000_000)
}

/// A frame rate with three decimals.
pub open spec fn rate_text(fps: FrameRate) -> Seq<char> {
    thousandths_text(((2000 * fps.num + fps.den) / (2 * fps.den as int)) as nat)
}

/// A trim that counts: more than a millisecond.
pub open spec fn trims(nanos: u64) -> bool {
    nanos > 1_000_000
}

fn push_number(out: &mut String, n: usize)
    ensures
        final(out)@ == old(out)@ + decimal(n as nat),
{
    push_decimal(out, n as u64);
}

fn format_thousandths(n: u64) -> (r: String)
    ensures
        r@ == thousandths_text(n as nat),
{
    let mut out = String::new();
    push_decimal(&mut out, n / 1000);
    out.append(".");
    push_padded3(&mut out, n % 1000);
    assert(out@ =~= thousandths_text(n as nat));
    out
}

/// Formats nanoseconds in seconds with three decimals.
pub fn format_seconds(nanos: u64) -> (r: String)
    ensures
        r@ == seconds_text(nanos as nat),
{
    let millis: u64 = ((nanos as u128 + 500_000) / 1_000_000) as u64;
    assert(millis == (nanos + 500_000) / 1_000_000);
    format_thousandths(millis)
}

/// Formats a frame rate with three decimals.
pub fn format_rate(fps: &FrameRate) -> (r: String)
    requires
        fps.den > 0,
    ensures
        r@ == rate_text(*fps),
{
    let num: u64 = fps.num as u64;
    let den: u64 = fps.den as u64;
    let n: u64 = (2000 * num + den) / (2 * den);
    format_thousandths(n)
}

// ── Pieces ─────────────────────────────────────────────────────────────────

/// Every start timecode has a real frame rate.
pub open spec fn rates_valid(s: ConverterSettings) -> bool {
    forall|i: int|
        0 <= i < s.timecode_meta_per_file@.len() ==> (#[trigger] s.timecode_meta_per_file@[i]
            matches Some(m) ==> m.fps.valid())
}

/// What is cut from the start of a file.
pub open spec fn trim_of(s: ConverterSettings, i: int) -> u64 {
    if 0 <= i < s.trim_offsets_nanos@.len() {
        s.trim_offsets_nanos@[i]
    } else {
        0
    }
}

/// The start timecode of a file.
pub open spec fn meta_of(s: ConverterSettings, i: int) -> Option<TimecodeMetadata> {
    if 0 <= i < s.timecode_meta_per_file@.len() {
        s.timecode_meta_per_file@[i]
    } else {
        None
    }
}

fn trim_at(s: &ConverterSettings, i: usize) -> (r: u64)
    ensures
        r == trim_of(*s, i as int),
{
    if i < s.trim_offsets_nanos.len() {
        s.trim_offsets_nanos[i]
    } else {
        0
    }
}

/// The start timecode of a file.
pub fn meta_at(s: &ConverterSettings, i: usize) -> (r: Option<TimecodeMetadata>)
    ensures
        r == meta_of(*s, i as int),
{
    if i < s.timecode_meta_per_file.len() {
        s.timecode_meta_per_file[i]
    } else {
        None
    }
}

/// An input, with what is cut from its start.
pub open spec fn input_args(path: Seq<char>, trim: u64) -> Seq<Seq<char>> {
    if trims(trim) {
        seq!["-ss"@, seconds_text(trim as nat), "-i"@, path]
    } else {
        seq!["-i"@, path]
    }
}

fn push_input_with_trim(args: &mut Vec<String>, file: &str, trim: u64)
    ensures
        strs(final(args)@) == strs(old(args)@) + input_args(file@, trim),
{
    if trim > 1_000_000 {
        push_str(args, "-ss");
        push_string(args, format_seconds(trim));
    }
    push_str(args, "-i");
    push_str(args, file);
    assert(strs(args@) =~= strs(old(args)@) + input_args(file@, trim));
}

/// Progress reports and the muxer.
pub open spec fn trailer_args(format: Seq<char>) -> Seq<Seq<char>> {
    seq!["-progress"@, "pipe:2"@, "-f"@, format]
}

fn push_output_trailer(args: &mut Vec<String>, format: &str)
    ensures
        strs(final(args)@) == strs(old(args)@) + trailer_args(format@),
{
    push_str(args, "-progress");
    push_str(args, "pipe:2");
    push_str(args, "-f");
    push_str(args, format);
    assert(strs(args@) =~= strs(old(args)@) + trailer_args(format@));
}

/// The arguments that set up a hardware device.
pub open spec fn device_prelude(device: ResolvedHwDevice) -> Seq<Seq<char>> {
    match device {
        ResolvedHwDevice::Vaapi { device_path } => device_args(
            "vaapi=vaapi0:"@ + device_path@,
            "vaapi0"@,
        ),
        ResolvedHwDevice::Vulkan => device_args("vulkan=vulkan0"@, "vulkan0"@),
    }
}

impl ResolvedHwDevice {
    /// The arguments that set up the device. They stand before the first input.
    pub fn prelude_args(&self) -> (r: Vec<String>)
        ensures
            strs(r@) == device_prelude(*self),
    {
        let mut args: Vec<String> = Vec::new();
        assert(strs(args@) =~= seq![]);
        push_str(&mut args, "-init_hw_device");
        match self {
            ResolvedHwDevice::Vaapi { device_path } => {
                push_string(&mut args, concat2("vaapi=vaapi0:", device_path.as_str()));
                push_str(&mut args, "-filter_hw_device");
                push_str(&mut args, "vaapi0");
            },
            ResolvedHwDevice::Vulkan => {
                push_str(&mut args, "vulkan=vulkan0");
                push_str(&mut args, "-filter_hw_device");
                push_str(&mut args, "vulkan0");
            },
        }
        assert(strs(args@) =~= device_prelude(*self));
        args
    }
}

/// The arguments that set up the resolved hardware device. A copied video needs
/// none.
pub open spec fn prelude(s: ConverterSettings) -> Seq<Seq<char>> {
    if s.copy_video {
        seq![]
    } else {
        match s.resolved_hw_device {
            Some(device) => device_prelude(device),
            None => seq![],
        }
    }
}

/// Adds the arguments that set up the device of the encoder.
pub fn push_hw_device_prelude(args: &mut Vec<String>, settings: &ConverterSettings)
    ensures
        strs(final(args)@) == strs(old(args)@) + prelude(*settings),
{
    if !settings.copy_video {
        match &settings.resolved_hw_device {
            Some(device) => {
                let mut more = device.prelude_args();
                let ghost added = more@;
                args.append(&mut more);
                assert(strs(args@) =~= strs(old(args)@) + strs(added));
            },
            None => {
                assert(strs(args@) =~= strs(old(args)@) + prelude(*settings));
            },
        }
    } else {
        assert(strs(args@) =~= strs(old(args)@) + prelude(*settings));
    }
}

/// The arguments of the video encoder: its name, what the codec needs, what the
/// encoder needs, and the upload of frames to its device.
pub open spec fn video_encoder_args(s: ConverterSettings) -> Seq<Seq<char>> {
    let codec = args_of_codec(normalized_codec(s.video_encoder@));
    let own = encoder_args(s.encoder());
    seq!["-c:v"@, s.encoder()] + option_args(codec, codec.len() as int) + option_args(
        own,
        own.len() as int,
    ) + if hw_frame_path(s.encoder()) is Some {
        seq!["-vf"@, "format=nv12,hwupload"@]
    } else {
        seq![]
    }
}

/// Adds the arguments of the video encoder.
pub fn push_video_encoder(args: &mut Vec<String>, settings: &ConverterSettings)
    ensures
        strs(final(args)@) == strs(old(args)@) + video_encoder_args(*settings),
{
    let codec = normalize_video_codec(settings.video_encoder.as_str());
    let encoder = settings.effective_video_encoder();
    push_str(args, "-c:v");
    push_str(args, encoder.as_str());
    let of_codec = codec_args(codec);
    push_options(args, &of_codec);
    let own = candidate_args(encoder.as_str());
    push_options(args, &own);
    if hw_frames_for(encoder.as_str()).is_some() {
        push_str(args, "-vf");
        push_str(args, "format=nv12,hwupload");
    }
    assert(pairs(of_codec@).len() == of_codec@.len());
    assert(pairs(own@).len() == own@.len());
    assert(strs(args@) =~= strs(old(args)@) + video_encoder_args(*settings));
}

/// The arguments for the video stream: copied or encoded.
pub open spec fn video_stream_args(s: ConverterSettings) -> Seq<Seq<char>> {
    if s.copy_video {
        seq!["-c:v"@, "copy"@]
    } else {
        video_encoder_args(s)
    }
}

fn push_video_codec_args(args: &mut Vec<String>, settings: &ConverterSettings)
    ensures
        strs(final(args)@) == strs(old(args)@) + video_stream_args(*settings),
{
    if settings.copy_video {
        push_str(args, "-c:v");
        push_str(args, "copy");
        assert(strs(args@) =~= strs(old(args)@) + video_stream_args(*settings));
    } else {
        push_video_encoder(args, settings);
    }
}

/// The start timecode of a video. The frame rate is fixed unless the video is
/// copied.
pub open spec fn timecode_args(meta: Option<TimecodeMetadata>, force_rate: bool) -> Seq<Seq<char>> {
    match meta {
        None => seq![],
        Some(tc) => {
            let start = seq![
                "-timecode"@,
                timecode_text(tc.start, tc.drop_frame),
                "-write_tmcd"@,
                "1"@,
            ];
            if force_rate {
                start + seq!["-r"@, rate_text(tc.fps)]
            } else {
                start
            }
        },
    }
}

fn push_timecode_args(args: &mut Vec<String>, meta: Option<TimecodeMetadata>, force_rate: bool)
    requires
        meta matches Some(tc) ==> tc.fps.valid(),
    ensures
        strs(final(args)@) == strs(old(args)@) + timecode_args(meta, force_rate),
{
    match meta {
        Some(tc) => {
            push_str(args, "-timecode");
            push_string(args, format_ffmpeg_timecode(&tc.start, tc.drop_frame));
            push_str(args, "-write_tmcd");
            push_str(args, "1");
            if force_rate {
                push_str(args, "-r");
                push_string(args, format_rate(&tc.fps));
            }
        },
        None => {},
    }
    assert(strs(args@) =~= strs(old(args)@) + timecode_args(meta, force_rate));
}

/// The sample reference that is written for a start timecode.
pub open spec fn written_reference(tc: TimecodeMetadata, sample_rate: u32) -> nat {
    let samples = reference_samples(tc, sample_rate);
    (if samples <= u64::MAX {
        samples
    } else {
        u64::MAX as int
    }) as nat
}

/// The start timecode of an audio output. A WAV file also gets the samples since
/// midnight.
pub open spec fn audio_timecode_args(meta: Option<TimecodeMetadata>, format: Seq<char>, sample_rate: u32) -> Seq<
    Seq<char>,
> {
    match meta {
        None => seq![],
        Some(tc) => (if format == "wav"@ {
            seq![
                "-write_bext"@,
                "1"@,
                "-metadata"@,
                "time_reference="@ + decimal(written_reference(tc, sample_rate)),
            ]
        } else {
            seq![]
        }) + seq!["-timecode"@, timecode_text(tc.start, tc.drop_frame)],
    }
}

fn push_audio_timecode_args(
    args: &mut Vec<String>,
    meta: Option<TimecodeMetadata>,
    format: &str,
    sample_rate: u32,
)
    requires
        meta matches Some(tc) ==> tc.fps.valid(),
    ensures
        strs(final(args)@) == strs(old(args)@) + audio_timecode_args(meta, format@, sample_rate),
{
    match meta {
        Some(tc) => {
            if same(format, "wav") {
                let reference = time_reference_samples(&tc, sample_rate);
                push_str(args, "-write_bext");
                push_str(args, "1");
                push_str(args, "-metadata");
                let mut text = "time_reference=".to_string();
                push_decimal(&mut text, reference);
                push_string(args, text);
            }
            push_str(args, "-timecode");
            push_string(args, format_ffmpeg_timecode(&tc.start, tc.drop_frame));
        },
        None => {},
    }
    assert(strs(args@) =~= strs(old(args)@) + audio_timecode_args(meta, format@, sample_rate));
}

// ── Audio to audio ─────────────────────────────────────────────────────────

/// The first `n` inputs, with what is cut from their starts.
pub open spec fn inputs_upto(s: ConverterSettings, n: int) -> Seq<Seq<char>>
    decreases n,
{
    if n <= 0 {
        seq![]
    } else {
        inputs_upto(s, n - 1) + input_args(s.inputs()[n - 1], trim_of(s, n - 1))
    }
}

/// The command line that puts all tracks into one audio file.
pub open spec fn audio_args(
    s: ConverterSettings,
    format: Seq<char>,
    meta: Option<TimecodeMetadata>,
    sample_rate: u32,
) -> Seq<Seq<char>> {
    seq!["-y"@] + inputs_upto(s, s.input_files@.len() as int) + seq![
        "-vn"@,
        "-c:a"@,
        s.audio_encoder@,
    ] + audio_timecode_args(meta, format, sample_rate) + trailer_args(format)
}

/// Builds the command line that puts all tracks into one audio file.
pub fn build_audio_to_audio_args(
    settings: &ConverterSettings,
    format: &str,
    timecode_meta: Option<TimecodeMetadata>,
    sample_rate: u32,
) -> (r: Vec<String>)
    requires
        timecode_meta matches Some(tc) ==> tc.fps.valid(),
    ensures
        strs(r@) == audio_args(*settings, format@, timecode_meta, sample_rate),
{
    let mut args: Vec<String> = Vec::new();
    assert(strs(args@) =~= seq![]);
    push_str(&mut args, "-y");
    let ghost head = strs(args@);
    let mut i: usize = 0;
    assert(head =~= head + inputs_upto(*settings, 0));
    while i < settings.input_files.len()
        invariant
            i <= settings.input_files@.len(),
            strs(args@) == head + inputs_upto(*settings, i as int),
        decreases settings.input_files@.len() - i,
    {
        assert(settings.inputs()[i as int] == settings.input_files@[i as int]@);
        push_input_with_trim(&mut args, settings.input_files[i].as_str(), trim_at(settings, i));
        i += 1;
        assert(strs(args@) =~= head + inputs_upto(*settings, i as int));
    }
    push_str(&mut args, "-vn");
    push_str(&mut args, "-c:a");
    push_str(&mut args, settings.audio_encoder.as_str());
    push_audio_timecode_args(&mut args, timecode_meta, format, sample_rate);
    push_output_trailer(&mut args, format);
    assert(strs(args@) =~= audio_args(*settings, format@, timecode_meta, sample_rate));
    args
}

/// The command line that writes one track. Its input is the one that is mapped to
/// it.
pub open spec fn split_track_args(
    s: ConverterSettings,
    format: Seq<char>,
    track: int,
    meta: Option<TimecodeMetadata>,
    sample_rate: u32,
) -> Seq<Seq<char>> {
    let input = input_for(s.channel_map@, track, track);
    seq!["-y"@] + (if 0 <= input < s.input_files@.len() {
        input_args(s.inputs()[input], trim_of(s, input))
    } else {
        seq![]
    }) + seq!["-vn"@, "-c:a"@, s.audio_encoder@] + audio_timecode_args(meta, format, sample_rate)
        + trailer_args(format)
}

/// Builds the command line that writes one track.
pub fn build_split_track_args(
    settings: &ConverterSettings,
    format: &str,
    track_idx: usize,
    timecode_meta: Option<TimecodeMetadata>,
    sample_rate: u32,
) -> (r: Vec<String>)
    requires
        timecode_meta matches Some(tc) ==> tc.fps.valid(),
    ensures
        strs(r@) == split_track_args(
            *settings,
            format@,
            track_idx as int,
            timecode_meta,
            sample_rate,
        ),
{
    let mut args: Vec<String> = Vec::new();
    assert(strs(args@) =~= seq![]);
    push_str(&mut args, "-y");
    let input = settings.channel_map.input_of(track_idx);
    if input < settings.input_files.len() {
        assert(settings.inputs()[input as int] == settings.input_files@[input as int]@);
        push_input_with_trim(
            &mut args,
            settings.input_files[input].as_str(),
            trim_at(settings, input),
        );
    }
    push_str(&mut args, "-vn");
    push_str(&mut args, "-c:a");
    push_str(&mut args, settings.audio_encoder.as_str());
    push_audio_timecode_args(&mut args, timecode_meta, format, sample_rate);
    push_output_trailer(&mut args, format);
    assert(strs(args@) =~= split_track_args(
        *settings,
        format@,
        track_idx as int,
        timecode_meta,
        sample_rate,
    ));
    args
}

// ── Audio to a synthetic video ─────────────────────────────────────────────

/// The filter of one audio input: cut where asked, then brought to its output.
pub open spec fn track_filter(input: nat, output: nat, trim: u64) -> Seq<char> {
    let n = decimal(input);
    if trims(trim) {
        "["@ + n + ":a]atrim=start="@ + seconds_text(trim as nat) + "[trimmed"@ + n + "];[trimmed"@
            + n + "]volume=0dB[a"@ + decimal(output) + "]"@
    } else {
        "["@ + n + ":a]volume=0dB[a"@ + decimal(output) + "]"@
    }
}

/// The filters of all audio inputs.
pub open spec fn track_filters(map: Seq<usize>, trim: u64) -> Seq<Seq<char>> {
    Seq::new(
        map.len(),
        |i: int| track_filter((i + 1) as nat, (map[i] + 1) as nat, trim),
    )
}

/// The first `n` input files.
pub open spec fn plain_inputs(inputs: Seq<Seq<char>>, n: int) -> Seq<Seq<char>>
    decreases n,
{
    if n <= 0 {
        seq![]
    } else {
        plain_inputs(inputs, n - 1) + seq!["-i"@, inputs[n - 1]]
    }
}

/// The maps of the first `n` output channels.
pub open spec fn channel_maps(n: int) -> Seq<Seq<char>>
    decreases n,
{
    if n <= 0 {
        seq![]
    } else {
        channel_maps(n - 1) + seq!["-map"@, "[a"@ + decimal(n as nat) + "]"@]
    }
}

/// The command line that puts audio under a blue picture.
pub open spec fn synthetic_args(s: ConverterSettings) -> Seq<Seq<char>> {
    seq!["-y"@] + prelude(s) + seq!["-f"@, "lavfi"@, "-i"@, "color=c=blue:s=1280x720:r=25"@]
        + plain_inputs(s.inputs(), s.input_files@.len() as int) + seq![
        "-map"@,
        "0:v"@,
        "-filter_complex"@,
        joined(track_filters(s.channel_map@, trim_of(s, 0)), ";"@),
    ] + channel_maps(s.channel_map@.len() as int) + video_encoder_args(s) + seq![
        "-c:a"@,
        s.audio_encoder@,
    ] + timecode_args(meta_of(s, 0), true) + seq!["-shortest"@] + trailer_args(
        ffmpeg_format(s.container@),
    )
}

fn build_track_filter(input: usize, output: usize, trim: u64) -> (r: String)
    ensures
        r@ == track_filter(input as nat, output as nat, trim),
{
    let mut out = "[".to_string();
    push_number(&mut out, input);
    if trim > 1_000_000 {
        out.append(":a]atrim=start=");
        let time = format_seconds(trim);
        out.append(time.as_str());
        out.append("[trimmed");
        push_number(&mut out, input);
        out.append("];[trimmed");
        push_number(&mut out, input);
        out.append("]volume=0dB[a");
    } else {
        out.append(":a]volume=0dB[a");
    }
    push_number(&mut out, output);
    out.append("]");
    out
}

/// Builds the command line that puts audio under a blue picture.
pub fn build_audio_to_synthetic_video_args(settings: &ConverterSettings) -> (r: Vec<String>)
    requires
        rates_valid(*settings),
        forall|i: int|
            0 <= i < settings.channel_map@.len() ==> #[trigger] settings.channel_map@[i]
                < usize::MAX,
    ensures
        strs(r@) == synthetic_args(*settings),
{
    let mut args: Vec<String> = Vec::new();
    assert(strs(args@) =~= seq![]);
    push_str(&mut args, "-y");
    push_hw_device_prelude(&mut args, settings);
    push_str(&mut args, "-f");
    push_str(&mut args, "lavfi");
    push_str(&mut args, "-i");
    push_str(&mut args, "color=c=blue:s=1280x720:r=25");
    let ghost head = strs(args@);
    let mut i: usize = 0;
    assert(head =~= head + plain_inputs(settings.inputs(), 0));
    while i < settings.input_files.len()
        invariant
            i <= settings.input_files@.len(),
            strs(args@) == head + plain_inputs(settings.inputs(), i as int),
        decreases settings.input_files@.len() - i,
    {
        assert(settings.inputs()[i as int] == settings.input_files@[i as int]@);
        push_str(&mut args, "-i");
        push_str(&mut args, settings.input_files[i].as_str());
        i += 1;
        assert(strs(args@) =~= head + plain_inputs(settings.inputs(), i as int));
    }
    push_str(&mut args, "-map");
    push_str(&mut args, "0:v");
    push_str(&mut args, "-filter_complex");
    let trim = trim_at(settings, 0);
    let ghost filters = track_filters(settings.channel_map@, trim);
    let n: usize = settings.channel_map.num_channels();
    let mut parts: Vec<String> = Vec::new();
    let mut k: usize = 0;
    assert(strs(parts@) =~= filters.take(0));
    while k < n
        invariant
            k <= n,
            n == settings.channel_map@.len(),
            filters == track_filters(settings.channel_map@, trim),
            forall|i: int|
                0 <= i < settings.channel_map@.len() ==> #[trigger] settings.channel_map@[i]
                    < usize::MAX,
            strs(parts@) == filters.take(k as int),
        decreases n - k,
    {
        let output = settings.channel_map.get(k);
        push_string(&mut parts, build_track_filter(k + 1, output + 1, trim));
        assert(filters.take(k + 1) =~= filters.take(k as int).push(filters[k as int]));
        k += 1;
    }
    assert(filters.take(n as int) =~= filters);
    push_string(&mut args, join(&parts, ";"));
    let ghost middle = strs(args@);
    let mut c: usize = 0;
    assert(middle =~= middle + channel_maps(0));
    while c < n
        invariant
            c <= n,
            strs(args@) == middle + channel_maps(c as int),
        decreases n - c,
    {
        c += 1;
        let mut label = "[a".to_string();
        push_number(&mut label, c);
        label.append("]");
        push_str(&mut args, "-map");
        push_string(&mut args, label);
        assert(strs(args@) =~= middle + channel_maps(c as int));
    }
    push_video_encoder(&mut args, settings);
    push_str(&mut args, "-c:a");
    push_str(&mut args, settings.audio_encoder.as_str());
    push_timecode_args(&mut args, meta_at(settings, 0), true);
    push_str(&mut args, "-shortest");
    push_output_trailer(&mut args, container_to_ffmpeg_format(settings.container.as_str()));
    assert(strs(args@) =~= synthetic_args(*settings));
    args
}

// ── Video ──────────────────────────────────────────────────────────────────

/// What stands before the audio of a video output: the device, the input and its
/// video stream.
pub open spec fn video_head(s: ConverterSettings, i: int) -> Seq<Seq<char>> {
    seq!["-y"@] + prelude(s) + input_args(s.inputs()[i], trim_of(s, i)) + seq!["-map"@, "0:v"@]
}

/// What stands behind the audio of a video output: the video stream's codec, the
/// start timecode and the trailer.
pub open spec fn video_tail(s: ConverterSettings, i: int) -> Seq<Seq<char>> {
    video_stream_args(s) + timecode_args(meta_of(s, i), !s.copy_video) + trailer_args(
        ffmpeg_format(s.container@),
    )
}

fn start_video(settings: &ConverterSettings, file_idx: usize) -> (r: Vec<String>)
    requires
        file_idx < settings.input_files@.len(),
    ensures
        strs(r@) == video_head(*settings, file_idx as int),
{
    let mut args: Vec<String> = Vec::new();
    assert(strs(args@) =~= seq![]);
    push_str(&mut args, "-y");
    push_hw_device_prelude(&mut args, settings);
    assert(settings.inputs()[file_idx as int] == settings.input_files@[file_idx as int]@);
    push_input_with_trim(
        &mut args,
        settings.input_files[file_idx].as_str(),
        trim_at(settings, file_idx),
    );
    push_str(&mut args, "-map");
    push_str(&mut args, "0:v");
    assert(strs(args@) =~= video_head(*settings, file_idx as int));
    args
}

fn finish_video(args: &mut Vec<String>, settings: &ConverterSettings, file_idx: usize)
    requires
        rates_valid(*settings),
    ensures
        strs(final(args)@) == strs(old(args)@) + video_tail(*settings, file_idx as int),
{
    push_video_codec_args(args, settings);
    push_timecode_args(args, meta_at(settings, file_idx), !settings.copy_video);
    push_output_trailer(args, container_to_ffmpeg_format(settings.container.as_str()));
    assert(strs(args@) =~= strs(old(args)@) + video_tail(*settings, file_idx as int));
}

/// The command line for a video without audio.
pub open spec fn video_only_args(s: ConverterSettings, i: int) -> Seq<Seq<char>> {
    video_head(s, i) + seq!["-an"@] + video_tail(s, i)
}

/// Builds the command line for a video without audio.
pub fn build_video_only_args(settings: &ConverterSettings, file_idx: usize) -> (r: Vec<String>)
    requires
        file_idx < settings.input_files@.len(),
        rates_valid(*settings),
    ensures
        strs(r@) == video_only_args(*settings, file_idx as int),
{
    let mut args = start_video(settings, file_idx);
    push_str(&mut args, "-an");
    finish_video(&mut args, settings, file_idx);
    assert(strs(args@) =~= video_only_args(*settings, file_idx as int));
    args
}

/// The channels of a stream among the first `n` that are not dropped.
pub open spec fn surviving_upto(stream: usize, drops: Seq<(usize, usize)>, n: int) -> Seq<usize>
    decreases n,
{
    if n <= 0 {
        seq![]
    } else if drops.contains((stream, (n - 1) as usize)) {
        surviving_upto(stream, drops, n - 1)
    } else {
        surviving_upto(stream, drops, n - 1).push((n - 1) as usize)
    }
}

/// Where each of the surviving channels goes.
pub open spec fn channel_routes(channels: Seq<usize>) -> Seq<Seq<char>> {
    Seq::new(
        channels.len(),
        |i: int| "c"@ + decimal(i as nat) + "="@ + decimal(channels[i] as nat),
    )
}

/// The filter that makes a stream of some of its channels.
pub open spec fn pan_filter(stream: usize, channels: Seq<usize>, label: Seq<char>) -> Seq<char> {
    if channels.len() == 1 {
        "[0:"@ + decimal(stream as nat) + "]pan=mono|FC=c"@ + decimal(channels[0] as nat) + "["@
            + label + "]"@
    } else {
        "[0:"@ + decimal(stream as nat) + "]pan="@ + (if channels.len() == 2 {
            "stereo"@
        } else {
            "5.1"@
        }) + "|"@ + joined(channel_routes(channels), "|"@) + "["@ + label + "]"@
    }
}

/// The filters and the labels of what is kept of the first `n` streams. A stream
/// that loses no channel is taken as it is; one that loses all is left out.
pub open spec fn mux_upto(streams: Seq<AudioStreamInfo>, drops: Seq<(usize, usize)>, n: int) -> (
    Seq<Seq<char>>,
    Seq<Seq<char>>,
)
    decreases n,
{
    if n <= 0 {
        (seq![], seq![])
    } else {
        let (filters, labels) = mux_upto(streams, drops, n - 1);
        let s = streams[n - 1];
        let channels = surviving_upto(s.stream_index, drops, s.channels as int);
        if channels.len() == 0 {
            (filters, labels)
        } else if channels.len() == s.channels {
            (filters, labels.push("0:"@ + decimal(s.stream_index as nat)))
        } else {
            let label = "a"@ + decimal(filters.len());
            (
                filters.push(pan_filter(s.stream_index, channels, label)),
                labels.push("["@ + label + "]"@),
            )
        }
    }
}

/// `-map` for each of the first `n` labels.
pub open spec fn map_args(labels: Seq<Seq<char>>, n: int) -> Seq<Seq<char>>
    decreases n,
{
    if n <= 0 {
        seq![]
    } else {
        map_args(labels, n - 1) + seq!["-map"@, labels[n - 1]]
    }
}

/// The audio of a video output. What is not filtered may be copied with the
/// video.
pub open spec fn kept_audio_args(s: ConverterSettings, keep: Keep, streams: Seq<AudioStreamInfo>) -> Seq<
    Seq<char>,
> {
    match keep {
        Keep::AllAudio => seq![
            "-map"@,
            "0:a?"@,
            "-c:a"@,
            if s.copy_video {
                "copy"@
            } else {
                s.audio_encoder@
            },
        ],
        Keep::ChannelsExcept(drops) => {
            let (filters, labels) = mux_upto(streams, drops, streams.len() as int);
            if labels.len() == 0 {
                seq!["-an"@]
            } else {
                (if filters.len() > 0 {
                    seq!["-filter_complex"@, joined(filters, ";"@)]
                } else {
                    seq![]
                }) + map_args(labels, labels.len() as int) + seq!["-c:a"@, s.audio_encoder@]
            }
        },
    }
}

/// The command line for a video with audio.
pub open spec fn video_mux_args(s: ConverterSettings, i: int, keep: Keep, streams: Seq<AudioStreamInfo>) -> Seq<
    Seq<char>,
> {
    video_head(s, i) + kept_audio_args(s, keep, streams) + video_tail(s, i)
}

fn drops_channel(drops: &Vec<(usize, usize)>, stream: usize, channel: usize) -> (r: bool)
    ensures
        r == drops@.contains((stream, channel)),
{
    let mut i: usize = 0;
    while i < drops.len()
        invariant
            i <= drops@.len(),
            forall|k: int| 0 <= k < i ==> drops@[k] != (stream, channel),
        decreases drops@.len() - i,
    {
        if drops[i].0 == stream && drops[i].1 == channel {
            assert(drops@[i as int] == (stream, channel));
            return true;
        }
        i += 1;
    }
    false
}

fn surviving_channels(stream: &AudioStreamInfo, drops: &Vec<(usize, usize)>) -> (r: Vec<usize>)
    ensures
        r@ == surviving_upto(stream.stream_index, drops@, stream.channels as int),
{
    let mut out: Vec<usize> = Vec::new();
    let mut c: usize = 0;
    while c < stream.channels
        invariant
            c <= stream.channels,
            out@ == surviving_upto(stream.stream_index, drops@, c as int),
        decreases stream.channels - c,
    {
        if !drops_channel(drops, stream.stream_index, c) {
            out.push(c);
        }
        c += 1;
    }
    out
}

fn build_pan_filter(stream: usize, channels: &Vec<usize>, label: &str) -> (r: String)
    requires
        channels@.len() > 0,
    ensures
        r@ == pan_filter(stream, channels@, label@),
{
    let mut out = "[0:".to_string();
    push_number(&mut out, stream);
    if channels.len() == 1 {
        out.append("]pan=mono|FC=c");
        push_number(&mut out, channels[0]);
    } else {
        let ghost routes = channel_routes(channels@);
        let mut parts: Vec<String> = Vec::new();
        let mut i: usize = 0;
        assert(strs(parts@) =~= routes.take(0));
        while i < channels.len()
            invariant
                i <= channels@.len(),
                routes == channel_routes(channels@),
                strs(parts@) == routes.take(i as int),
            decreases channels@.len() - i,
        {
            let mut route = "c".to_string();
            push_number(&mut route, i);
            route.append("=");
            push_number(&mut route, channels[i]);
            push_string(&mut parts, route);
            assert(routes.take(i + 1) =~= routes.take(i as int).push(routes[i as int]));
            i += 1;
        }
        assert(routes.take(i as int) =~= routes);
        out.append("]pan=");
        out.append(
            if channels.len() == 2 {
                "stereo"
            } else {
                "5.1"
            },
        );
        out.append("|");
        let all = join(&parts, "|");
        out.append(all.as_str());
    }
    out.append("[");
    out.append(label);
    out.append("]");
    out
}

fn plan_mux(probe: &VideoAudioProbe, drops: &Vec<(usize, usize)>) -> (r: (Vec<String>, Vec<String>))
    ensures
        (strs(r.0@), strs(r.1@)) == mux_upto(
            probe.streams@,
            drops@,
            probe.streams@.len() as int,
        ),
{
    let mut filters: Vec<String> = Vec::new();
    let mut labels: Vec<String> = Vec::new();
    let mut i: usize = 0;
    assert(strs(filters@) =~= seq![]);
    assert(strs(labels@) =~= seq![]);
    while i < probe.streams.len()
        invariant
            i <= probe.streams@.len(),
            (strs(filters@), strs(labels@)) == mux_upto(probe.streams@, drops@, i as int),
        decreases probe.streams@.len() - i,
    {
        let stream = &probe.streams[i];
        let channels = surviving_channels(stream, drops);
        if channels.len() > 0 {
            if channels.len() == stream.channels {
                let mut label = "0:".to_string();
                push_number(&mut label, stream.stream_index);
                push_string(&mut labels, label);
            } else {
                let mut label = "a".to_string();
                assert(strs(filters@).len() == filters@.len());
                push_number(&mut label, filters.len());
                let filter = build_pan_filter(stream.stream_index, &channels, label.as_str());
                push_string(&mut filters, filter);
                let mut mapped = concat2("[", label.as_str());
                mapped.append("]");
                push_string(&mut labels, mapped);
            }
        }
        i += 1;
    }
    (filters, labels)
}

fn push_kept_audio(
    args: &mut Vec<String>,
    settings: &ConverterSettings,
    keep: &AudioKeep,
    probe: &VideoAudioProbe,
)
    ensures
        strs(final(args)@) == strs(old(args)@) + kept_audio_args(*settings, keep@, probe.streams@),
{
    match keep {
        AudioKeep::AllAudio => {
            push_str(args, "-map");
            push_str(args, "0:a?");
            push_str(args, "-c:a");
            push_str(
                args,
                if settings.copy_video {
                    "copy"
                } else {
                    settings.audio_encoder.as_str()
                },
            );
        },
        AudioKeep::ChannelsExcept(drops) => {
            let (filters, labels) = plan_mux(probe, drops);
            assert(strs(filters@).len() == filters@.len());
            assert(strs(labels@).len() == labels@.len());
            if labels.len() == 0 {
                push_str(args, "-an");
            } else {
                if filters.len() > 0 {
                    push_str(args, "-filter_complex");
                    push_string(args, join(&filters, ";"));
                }
                let ghost head = strs(args@);
                let mut i: usize = 0;
                assert(head =~= head + map_args(strs(labels@), 0));
                while i < labels.len()
                    invariant
                        i <= labels@.len(),
                        strs(args@) == head + map_args(strs(labels@), i as int),
                    decreases labels@.len() - i,
                {
                    push_str(args, "-map");
                    push_str(args, labels[i].as_str());
                    i += 1;
                    assert(strs(args@) =~= head + map_args(strs(labels@), i as int));
                }
                push_str(args, "-c:a");
                push_str(args, settings.audio_encoder.as_str());
            }
        },
    }
    assert(strs(args@) =~= strs(old(args)@) + kept_audio_args(*settings, keep@, probe.streams@));
}

/// Builds the command line for a video with audio.
pub fn build_video_mux_args(
    settings: &ConverterSettings,
    file_idx: usize,
    keep: &AudioKeep,
    probe: &VideoAudioProbe,
) -> (r: Vec<String>)
    requires
        file_idx < settings.input_files@.len(),
        rates_valid(*settings),
    ensures
        strs(r@) == video_mux_args(*settings, file_idx as int, keep@, probe.streams@),
{
    let mut args = start_video(settings, file_idx);
    push_kept_audio(&mut args, settings, keep, probe);
    finish_video(&mut args, settings, file_idx);
    assert(strs(args@) =~= video_mux_args(*settings, file_idx as int, keep@, probe.streams@));
    args
}

// ── Audio out of videos ────────────────────────────────────────────────────

/// The encoder for a format.
pub open spec fn encoder_for_format(s: ConverterSettings, format: Seq<char>) -> Seq<char> {
    if format == "wav"@ {
        "pcm_s24le"@
    } else if format == "adts"@ {
        "aac"@
    } else {
        s.audio_encoder@
    }
}

/// The command line that takes one channel out of a video.
pub open spec fn extract_args(
    s: ConverterSettings,
    i: int,
    stream: usize,
    channel: usize,
    format: Seq<char>,
    sample_rate: u32,
) -> Seq<Seq<char>> {
    seq!["-y"@] + input_args(s.inputs()[i], trim_of(s, i)) + seq![
        "-map"@,
        "0:"@ + decimal(stream as nat),
        "-af"@,
        "pan=mono|FC=c"@ + decimal(channel as nat),
        "-c:a"@,
        encoder_for_format(s, format),
    ] + audio_timecode_args(meta_of(s, i), format, sample_rate) + trailer_args(format)
}

/// Builds the command line that takes one channel out of a video.
pub fn build_video_track_extract_args(
    settings: &ConverterSettings,
    file_idx: usize,
    stream_idx: usize,
    channel_idx: usize,
    format: &str,
    sample_rate: u32,
) -> (r: Vec<String>)
    requires
        file_idx < settings.input_files@.len(),
        rates_valid(*settings),
    ensures
        strs(r@) == extract_args(
            *settings,
            file_idx as int,
            stream_idx,
            channel_idx,
            format@,
            sample_rate,
        ),
{
    let mut args: Vec<String> = Vec::new();
    assert(strs(args@) =~= seq![]);
    push_str(&mut args, "-y");
    assert(settings.inputs()[file_idx as int] == settings.input_files@[file_idx as int]@);
    push_input_with_trim(
        &mut args,
        settings.input_files[file_idx].as_str(),
        trim_at(settings, file_idx),
    );
    push_str(&mut args, "-map");
    let mut map = "0:".to_string();
    push_number(&mut map, stream_idx);
    push_string(&mut args, map);
    push_str(&mut args, "-af");
    let mut pan = "pan=mono|FC=c".to_string();
    push_number(&mut pan, channel_idx);
    push_string(&mut args, pan);
    push_str(&mut args, "-c:a");
    if same(format, "wav") {
        push_str(&mut args, "pcm_s24le");
    } else if same(format, "adts") {
        push_str(&mut args, "aac");
    } else {
        push_str(&mut args, settings.audio_encoder.as_str());
    }
    push_audio_timecode_args(&mut args, meta_at(settings, file_idx), format, sample_rate);
    push_output_trailer(&mut args, format);
    assert(strs(args@) =~= extract_args(
        *settings,
        file_idx as int,
        stream_idx,
        channel_idx,
        format@,
        sample_rate,
    ));
    args
}

/// The inputs of the first `n` segments.
pub open spec fn segment_inputs(s: ConverterSettings, segments: Seq<(usize, usize, usize)>, n: int) -> Seq<
    Seq<char>,
>
    decreases n,
{
    if n <= 0 {
        seq![]
    } else {
        let file = segments[n - 1].0 as int;
        segment_inputs(s, segments, n - 1) + input_args(s.inputs()[file], trim_of(s, file))
    }
}

/// The filters that bring each segment's channel to mono.
pub open spec fn segment_filters(segments: Seq<(usize, usize, usize)>) -> Seq<Seq<char>> {
    Seq::new(
        segments.len(),
        |i: int|
            "["@ + decimal(i as nat) + ":"@ + decimal(segments[i].1 as nat) + "]pan=mono|FC=c"@
                + decimal(segments[i].2 as nat) + "[a"@ + decimal(i as nat) + "]"@,
    )
}

/// The labels of the first `n` segments.
pub open spec fn segment_labels(n: int) -> Seq<char>
    decreases n,
{
    if n <= 0 {
        seq![]
    } else {
        segment_labels(n - 1) + ("[a"@ + decimal((n - 1) as nat) + "]"@)
    }
}

/// The filter that joins all segments.
pub open spec fn concat_filter(n: nat) -> Seq<char> {
    segment_labels(n as int) + "concat=n="@ + decimal(n) + ":v=0:a=1[out]"@
}

/// The command line that joins one track across clips.
pub open spec fn concat_args(
    s: ConverterSettings,
    segments: Seq<(usize, usize, usize)>,
    format: Seq<char>,
    sample_rate: u32,
) -> Seq<Seq<char>> {
    seq!["-y"@] + segment_inputs(s, segments, segments.len() as int) + seq![
        "-filter_complex"@,
        joined(segment_filters(segments).push(concat_filter(segments.len())), ";"@),
        "-map"@,
        "[out]"@,
        "-vn"@,
        "-c:a"@,
        s.audio_encoder@,
    ] + audio_timecode_args(meta_of(s, 0), format, sample_rate) + trailer_args(format)
}

fn build_segment_filter(i: usize, stream: usize, channel: usize) -> (r: String)
    ensures
        r@ == "["@ + decimal(i as nat) + ":"@ + decimal(stream as nat) + "]pan=mono|FC=c"@ + decimal(
            channel as nat,
        ) + "[a"@ + decimal(i as nat) + "]"@,
{
    let mut out = "[".to_string();
    push_number(&mut out, i);
    out.append(":");
    push_number(&mut out, stream);
    out.append("]pan=mono|FC=c");
    push_number(&mut out, channel);
    out.append("[a");
    push_number(&mut out, i);
    out.append("]");
    out
}

fn build_concat_filter(n: usize) -> (r: String)
    ensures
        r@ == concat_filter(n as nat),
{
    let mut out = String::new();
    let mut i: usize = 0;
    assert(out@ =~= segment_labels(0));
    while i < n
        invariant
            i <= n,
            out@ == segment_labels(i as int),
        decreases n - i,
    {
        let ghost before = out@;
        out.append("[a");
        push_number(&mut out, i);
        out.append("]");
        assert(out@ =~= before + ("[a"@ + decimal(i as nat) + "]"@));
        i += 1;
    }
    out.append("concat=n=");
    push_number(&mut out, n);
    out.append(":v=0:a=1[out]");
    out
}

/// Builds the command line that joins one track across clips.
pub fn build_concat_audio_args(
    settings: &ConverterSettings,
    segments: &Vec<(usize, usize, usize)>,
    format: &str,
    sample_rate: u32,
) -> (r: Vec<String>)
    requires
        rates_valid(*settings),
        forall|i: int|
            0 <= i < segments@.len() ==> (#[trigger] segments@[i]).0 < settings.input_files@.len(),
    ensures
        strs(r@) == concat_args(*settings, segments@, format@, sample_rate),
{
    let n: usize = segments.len();
    let mut args: Vec<String> = Vec::new();
    assert(strs(args@) =~= seq![]);
    push_str(&mut args, "-y");
    let ghost head = strs(args@);
    let ghost filters = segment_filters(segments@);
    let mut parts: Vec<String> = Vec::new();
    let mut i: usize = 0;
    assert(head =~= head + segment_inputs(*settings, segments@, 0));
    assert(strs(parts@) =~= filters.take(0));
    while i < n
        invariant
            i <= n,
            n == segments@.len(),
            forall|i: int|
                0 <= i < segments@.len() ==> (#[trigger] segments@[i]).0
                    < settings.input_files@.len(),
            filters == segment_filters(segments@),
            strs(parts@) == filters.take(i as int),
            strs(args@) == head + segment_inputs(*settings, segments@, i as int),
        decreases n - i,
    {
        let (file, stream, channel) = segments[i];
        assert(segments@[i as int].0 == file);
        assert(settings.inputs()[file as int] == settings.input_files@[file as int]@);
        push_input_with_trim(&mut args, settings.input_files[file].as_str(), trim_at(settings, file));
        push_string(&mut parts, build_segment_filter(i, stream, channel));
        assert(filters.take(i + 1) =~= filters.take(i as int).push(filters[i as int]));
        i += 1;
        assert(strs(args@) =~= head + segment_inputs(*settings, segments@, i as int));
    }
    assert(filters.take(n as int) =~= filters);
    push_string(&mut parts, build_concat_filter(n));
    push_str(&mut args, "-filter_complex");
    push_string(&mut args, join(&parts, ";"));
    push_str(&mut args, "-map");
    push_str(&mut args, "[out]");
    push_str(&mut args, "-vn");
    push_str(&mut args, "-c:a");
    push_str(&mut args, settings.audio_encoder.as_str());
    push_audio_timecode_args(&mut args, meta_at(settings, 0), format, sample_rate);
    push_output_trailer(&mut args, format);
    assert(strs(args@) =~= concat_args(*settings, segments@, format@, sample_rate));
    args
}

// ── Steps ──────────────────────────────────────────────────────────────────

/// The sample rate of a stream; 48 kHz where it is not known.
pub open spec fn stream_rate(streams: Seq<AudioStreamInfo>, stream: usize, from: int) -> u32
    decreases streams.len() - from,
{
    if from < 0 || from >= streams.len() {
        48000
    } else if streams[from].stream_index == stream {
        streams[from].sample_rate
    } else {
        stream_rate(streams, stream, from + 1)
    }
}

/// A step that can be built for a conversion: its files are among the inputs.
pub open spec fn step_in_range(s: ConverterSettings, step: Step) -> bool {
    match step {
        Step::VideoOnly { file_idx, .. } => file_idx < s.input_files@.len(),
        Step::VideoMux { file_idx, .. } => file_idx < s.input_files@.len(),
        Step::AudioChannel { file_idx, .. } => file_idx < s.input_files@.len(),
        Step::AudioChannelConcat { segments, .. } => forall|i: int|
            0 <= i < segments.len() ==> (#[trigger] segments[i]).0 < s.input_files@.len(),
    }
}

/// The command line of a step.
pub open spec fn step_args(s: ConverterSettings, step: Step, streams: Seq<AudioStreamInfo>) -> Seq<
    Seq<char>,
> {
    match step {
        Step::VideoOnly { file_idx, .. } => video_only_args(s, file_idx as int),
        Step::VideoMux { file_idx, keep, .. } => video_mux_args(
            s,
            file_idx as int,
            keep,
            streams,
        ),
        Step::AudioChannel { file_idx, stream_idx, channel_idx, format, .. } => extract_args(
            s,
            file_idx as int,
            stream_idx,
            channel_idx,
            format,
            stream_rate(streams, stream_idx, 0),
        ),
        Step::AudioChannelConcat { segments, format, sample_rate, .. } => concat_args(
            s,
            segments,
            format,
            sample_rate,
        ),
    }
}

fn find_stream_rate(probe: &VideoAudioProbe, stream: usize) -> (r: u32)
    ensures
        r == stream_rate(probe.streams@, stream, 0),
{
    let mut i: usize = 0;
    while i < probe.streams.len()
        invariant
            i <= probe.streams@.len(),
            stream_rate(probe.streams@, stream, i as int) == stream_rate(probe.streams@, stream, 0),
        decreases probe.streams@.len() - i,
    {
        if probe.streams[i].stream_index == stream {
            return probe.streams[i].sample_rate;
        }
        i += 1;
    }
    48000
}

/// Builds the command line of a step on one file. The probe tells the streams and
/// sample rates of the file.
pub fn build_video_to_video_args(
    settings: &ConverterSettings,
    step: &VideoOutputStep,
    probe: &VideoAudioProbe,
) -> (r: Vec<String>)
    requires
        !(step@ is AudioChannelConcat),
        step_in_range(*settings, step@),
        rates_valid(*settings),
    ensures
        strs(r@) == step_args(*settings, step@, probe.streams@),
{
    match step {
        VideoOutputStep::VideoOnly { file_idx, .. } => build_video_only_args(settings, *file_idx),
        VideoOutputStep::VideoMux { file_idx, keep, .. } => build_video_mux_args(
            settings,
            *file_idx,
            keep,
            probe,
        ),
        VideoOutputStep::AudioChannel { file_idx, stream_idx, channel_idx, format, .. } => {
            let rate = find_stream_rate(probe, *stream_idx);
            build_video_track_extract_args(
                settings,
                *file_idx,
                *stream_idx,
                *channel_idx,
                format.as_str(),
                rate,
            )
        },
        VideoOutputStep::AudioChannelConcat { .. } => Vec::new(),
    }
}

/// Builds the command line of any step.
pub fn build_step_args(
    settings: &ConverterSettings,
    step: &VideoOutputStep,
    probe: &VideoAudioProbe,
) -> (r: Vec<String>)
    requires
        step_in_range(*settings, step@),
        rates_valid(*settings),
    ensures
        strs(r@) == step_args(*settings, step@, probe.streams@),
{
    match step {
        VideoOutputStep::AudioChannelConcat { segments, format, sample_rate, .. } => {
            assert forall|i: int| 0 <= i < segments@.len() implies (#[trigger] segments@[i]).0
                < settings.input_files@.len() by {
                assert(step@->segments[i] == segments@[i]);
            }
            build_concat_audio_args(settings, segments, format.as_str(), *sample_rate)
        },
        _ => build_video_to_video_args(settings, step, probe),
    }
}

// ── Laws ───────────────────────────────────────────────────────────────────

/// A copied video is not encoded: its stream is copied, no device is set up and
/// no frame rate is forced.
pub proof fn law_copy_encodes_nothing(s: ConverterSettings, meta: TimecodeMetadata, i: int)
    requires
        s.copy_video,
    ensures
        video_stream_args(s) == seq!["-c:v"@, "copy"@],
        prelude(s) == Seq::<Seq<char>>::empty(),
        meta_of(s, i) == Some(meta) ==> video_tail(s, i) == seq![
            "-c:v"@,
            "copy"@,
            "-timecode"@,
            timecode_text(meta.start, meta.drop_frame),
            "-write_tmcd"@,
            "1"@,
        ] + trailer_args(ffmpeg_format(s.container@)),
{
    if meta_of(s, i) == Some(meta) {
        assert(video_tail(s, i) =~= seq![
            "-c:v"@,
            "copy"@,
            "-timecode"@,
            timecode_text(meta.start, meta.drop_frame),
            "-write_tmcd"@,
            "1"@,
        ] + trailer_args(ffmpeg_format(s.container@)));
    }
}

/// A trim of a millisecond or less is no trim.
pub proof fn law_short_trims_ignored(path: Seq<char>, trim: u64)
    requires
        trim <= 1_000_000,
    ensures
        input_args(path, trim) == input_args(path, 0),
{
}

proof fn lemma_surviving(stream: usize, drops: Seq<(usize, usize)>, n: int, c: usize)
    requires
        0 <= n <= usize::MAX,
    ensures
        surviving_upto(stream, drops, n).contains(c) <==> c < n && !drops.contains((stream, c)),
    decreases n,
{
    if n > 0 {
        lemma_surviving(stream, drops, n - 1, c);
        let before = surviving_upto(stream, drops, n - 1);
        let last = (n - 1) as usize;
        if before.contains(c) {
            let k = choose|k: int| 0 <= k < before.len() && before[k] == c;
            assert(before.push(last)[k] == c);
        }
        assert(before.push(last)[before.len() as int] == last);
    }
}

/// What survives of a stream is every channel that is not dropped.
pub proof fn law_surviving_channels(stream: AudioStreamInfo, drops: Seq<(usize, usize)>, c: usize)
    ensures
        surviving_upto(stream.stream_index, drops, stream.channels as int).contains(c) <==> c
            < stream.channels && !drops.contains((stream.stream_index, c)),
{
    lemma_surviving(stream.stream_index, drops, stream.channels as int, c);
}

proof fn lemma_no_input_in_prelude(s: ConverterSettings, k: int)
    requires
        0 <= k < prelude(s).len(),
    ensures
        prelude(s)[k] != "-i"@,
{
    reveal_strlit("-i");
    reveal_strlit("-init_hw_device");
    reveal_strlit("-filter_hw_device");
    reveal_strlit("vaapi=vaapi0:");
    reveal_strlit("vaapi0");
    reveal_strlit("vulkan=vulkan0");
    reveal_strlit("vulkan0");
    let device = s.resolved_hw_device->0;
    if let ResolvedHwDevice::Vaapi { device_path } = device {
        assert(("vaapi=vaapi0:"@ + device_path@)[0] == 'v');
    }
    assert("-i"@[0] == '-');
    assert("-i"@.len() == 2);
}

/// The arguments that set up the hardware device stand before the first input of
/// every command line that encodes a video.
pub proof fn law_devices_before_inputs(s: ConverterSettings, i: int, keep: Keep, streams: Seq<AudioStreamInfo>, k: int)
    requires
        0 <= k < prelude(s).len(),
    ensures
        synthetic_args(s)[k + 1] == prelude(s)[k],
        video_only_args(s, i)[k + 1] == prelude(s)[k],
        video_mux_args(s, i, keep, streams)[k + 1] == prelude(s)[k],
        forall|j: int|
            0 <= j <= k + 1 ==> #[trigger] synthetic_args(s)[j] != "-i"@,
        forall|j: int|
            0 <= j <= k + 1 ==> #[trigger] video_only_args(s, i)[j] != "-i"@,
        forall|j: int|
            0 <= j <= k + 1 ==> #[trigger] video_mux_args(s, i, keep, streams)[j] != "-i"@,
{
    let head = seq!["-y"@] + prelude(s);
    assert forall|j: int| 0 <= j <= k + 1 implies #[trigger] head[j] != "-i"@ by {
        if j == 0 {
            reveal_strlit("-y");
            reveal_strlit("-i");
            assert("-y"@[1] != "-i"@[1]);
        } else {
            lemma_no_input_in_prelude(s, j - 1);
        }
    }
    assert(head[k + 1] == prelude(s)[k]);
    assert forall|j: int| 0 <= j <= k + 1 implies #[trigger] synthetic_args(s)[j] == head[j] by {}
    assert forall|j: int| 0 <= j <= k + 1 implies #[trigger] video_only_args(s, i)[j] == head[j] by {}
    assert forall|j: int| 0 <= j <= k + 1 implies #[trigger] video_mux_args(s, i, keep, streams)[j]
        == head[j] by {}
}

} // verus!
