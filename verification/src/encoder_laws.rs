//! What is promised of encoders: which one is used, with which options, on which device,
//! and which command line carries out a step.

use vstd::prelude::*;

use crate::command_lines::{holds, law_video_only_command, writes_video};
use crate::ffmpeg_args::{
    concat_args, extract_args, prelude, step_args, stream_rate, video_encoder_args, video_head,
    video_mux_args,
};
use crate::ffprobe::AudioStreamInfo;
use crate::hw_device::option_args;
use crate::planner::{Keep, Step};
use crate::settings::{ConverterSettings, ResolvedHwDevice};
use crate::video_codecs::{
    args_of_codec, candidate_named, codec_with_id, encoder_among, encoder_args, known_encoder,
    normalized_codec, registered, registry, static_chain, CandidateModel, CodecModel,
};

verus! {

// ── Which encoder ──────────────────────────────────────────────────────────

/// An encoder has this name.
pub open spec fn is_encoder(name: Seq<char>, i: int, k: int) -> bool {
    &&& 0 <= i < registry().len()
    &&& 0 <= k < registry()[i].candidates.len()
    &&& registry()[i].candidates[k].name == name
}

proof fn lemma_named(candidates: Seq<CandidateModel>, name: Seq<char>) -> (k: int)
    ensures
        match candidate_named(candidates, name) {
            Some(c) => 0 <= k < candidates.len() && candidates[k] == c && c.name == name,
            None => forall|j: int|
                0 <= j < candidates.len() ==> (#[trigger] candidates[j]).name != name,
        },
    decreases candidates.len(),
{
    if candidates.len() > 0 && candidates[0].name != name {
        let rest = candidates.drop_first();
        let k = lemma_named(rest, name);
        if candidate_named(candidates, name) is Some {
            assert(candidates[k + 1] == rest[k]);
        } else {
            assert forall|j: int| 0 <= j < candidates.len() implies (#[trigger] candidates[j]).name
                != name by {
                if j > 0 {
                    assert(candidates[j] == rest[j - 1]);
                }
            }
        }
        k + 1
    } else {
        0
    }
}

proof fn lemma_among(codecs: Seq<CodecModel>, name: Seq<char>) -> (at: (int, int))
    ensures
        match encoder_among(codecs, name) {
            Some(c) => {
                &&& 0 <= at.0 < codecs.len()
                &&& 0 <= at.1 < codecs[at.0].candidates.len()
                &&& codecs[at.0].candidates[at.1] == c
                &&& c.name == name
            },
            None => forall|i: int, j: int|
                0 <= i < codecs.len() && 0 <= j < codecs[i].candidates.len()
                    ==> (#[trigger] codecs[i].candidates[j]).name != name,
        },
    decreases codecs.len(),
{
    if codecs.len() == 0 {
        (0, 0)
    } else {
        let k = lemma_named(codecs[0].candidates, name);
        if candidate_named(codecs[0].candidates, name) is Some {
            (0, k)
        } else {
            let rest = codecs.drop_first();
            let at = lemma_among(rest, name);
            if encoder_among(codecs, name) is Some {
                assert(codecs[at.0 + 1] == rest[at.0]);
            } else {
                assert forall|i: int, j: int|
                    0 <= i < codecs.len() && 0 <= j < codecs[i].candidates.len() implies (
                #[trigger] codecs[i].candidates[j]).name != name by {
                    if i > 0 {
                        assert(codecs[i] == rest[i - 1]);
                        assert(rest[i - 1].candidates[j].name != name);
                    }
                }
            }
            (at.0 + 1, at.1)
        }
    }
}

/// The encoder that is used: the one that was found to work; else the one that is asked
/// for, where an encoder is; else the first one of the codec that is asked for.
pub proof fn law_encoder_in_use(s: ConverterSettings)
    ensures
        s.resolved_video_encoder@.len() > 0 ==> s.encoder() == s.resolved_video_encoder@,
        s.resolved_video_encoder@.len() == 0 && (exists|i: int, k: int| #[trigger]
            is_encoder(s.video_encoder@, i, k)) ==> s.encoder() == s.video_encoder@,
        s.resolved_video_encoder@.len() == 0 && !(exists|i: int, k: int| #[trigger]
            is_encoder(s.video_encoder@, i, k)) ==> {
            let chain = static_chain(normalized_codec(s.video_encoder@));
            s.encoder() == if chain.len() > 0 {
                chain[0]
            } else {
                normalized_codec(s.video_encoder@)
            }
        },
{
    let at = lemma_among(registry(), s.video_encoder@);
    if known_encoder(s.video_encoder@) is Some {
        assert(is_encoder(s.video_encoder@, at.0, at.1));
    } else if exists|i: int, k: int| #[trigger] is_encoder(s.video_encoder@, i, k) {
        let (i, k) = choose|i: int, k: int| #[trigger] is_encoder(s.video_encoder@, i, k);
        assert(registry()[i].candidates[k].name != s.video_encoder@);
    }
}

// ── Options ────────────────────────────────────────────────────────────────

proof fn lemma_options(args: Seq<(Seq<char>, Seq<char>)>, n: int, k: int)
    requires
        0 <= n <= args.len(),
    ensures
        option_args(args, n).len() == 2 * n,
        0 <= k < n ==> option_args(args, n)[2 * k] == "-"@ + args[k].0 && option_args(args, n)[2 * k
            + 1] == args[k].1,
    decreases n,
{
    if n > 0 {
        lemma_options(args, n - 1, k);
    }
}

proof fn lemma_pair(args: Seq<Seq<char>>, at: int, a: Seq<char>, b: Seq<char>)
    requires
        0 <= at,
        at + 1 < args.len(),
        args[at] == a,
        args[at + 1] == b,
    ensures
        holds(args, seq![a, b]),
{
    assert(args.subrange(at, at + seq![a, b].len()) =~= seq![a, b]);
}

/// Video is encoded with every option of its codec and of its encoder; frames are
/// uploaded for an encoder that takes them from a device, and for no other.
pub proof fn law_encoder_options(s: ConverterSettings, k: int)
    ensures
        ({
            let args = video_encoder_args(s);
            let codec = args_of_codec(normalized_codec(s.video_encoder@));
            let own = encoder_args(s.encoder());
            let uploads = "_vaapi"@.is_suffix_of(s.encoder()) || "_vulkan"@.is_suffix_of(
                s.encoder(),
            );
            &&& args[0] == "-c:v"@ && args[1] == s.encoder()
            &&& args.len() == 2 + 2 * codec.len() + 2 * own.len() + if uploads {
                2nat
            } else {
                0
            }
            &&& 0 <= k < codec.len() ==> holds(args, seq!["-"@ + codec[k].0, codec[k].1])
            &&& 0 <= k < own.len() ==> holds(args, seq!["-"@ + own[k].0, own[k].1])
            &&& uploads ==> args[args.len() - 2] == "-vf"@ && args[args.len() - 1]
                == "format=nv12,hwupload"@
        }),
{
    let args = video_encoder_args(s);
    let codec = args_of_codec(normalized_codec(s.video_encoder@));
    let own = encoder_args(s.encoder());
    lemma_options(codec, codec.len() as int, k);
    lemma_options(own, own.len() as int, k);
    let a = option_args(codec, codec.len() as int);
    let b = option_args(own, own.len() as int);
    if 0 <= k < codec.len() {
        assert(args[2 + 2 * k] == a[2 * k] && args[2 + 2 * k + 1] == a[2 * k + 1]);
        lemma_pair(args, 2 + 2 * k, "-"@ + codec[k].0, codec[k].1);
    }
    if 0 <= k < own.len() {
        let at = 2 + 2 * codec.len() as int + 2 * k;
        assert(args[at] == b[2 * k] && args[at + 1] == b[2 * k + 1]);
        lemma_pair(args, at, "-"@ + own[k].0, own[k].1);
    }
}

/// The options of an encoder are those that are listed with its name, and the options
/// of a codec those that are listed with its id; a name that is not listed has none.
pub proof fn law_listed_options(name: Seq<char>, id: Seq<char>)
    ensures
        (exists|i: int, k: int| #[trigger]
            is_encoder(name, i, k) && encoder_args(name) == registry()[i].candidates[k].args) || (
        encoder_args(name).len() == 0 && forall|i: int, k: int| !#[trigger] is_encoder(name, i, k)),
        (exists|i: int|
            0 <= i < registry().len() && (#[trigger] registry()[i]).id == id && args_of_codec(id)
                == registry()[i].codec_args) || (args_of_codec(id).len() == 0 && forall|i: int|
            0 <= i < registry().len() ==> (#[trigger] registry()[i]).id != id),
{
    let at = lemma_among(registry(), name);
    if known_encoder(name) is Some {
        assert(is_encoder(name, at.0, at.1));
    } else {
        assert forall|i: int, k: int| !#[trigger] is_encoder(name, i, k) by {
            if is_encoder(name, i, k) {
                assert(registry()[i].candidates[k].name != name);
            }
        }
    }
    let i = lemma_with_id(registry(), id);
    if registered(id) is Some {
        assert(registry()[i].id == id);
    }
}

proof fn lemma_with_id(codecs: Seq<CodecModel>, id: Seq<char>) -> (i: int)
    ensures
        match codec_with_id(codecs, id) {
            Some(c) => 0 <= i < codecs.len() && codecs[i] == c && c.id == id,
            None => forall|j: int| 0 <= j < codecs.len() ==> (#[trigger] codecs[j]).id != id,
        },
    decreases codecs.len(),
{
    if codecs.len() > 0 && codecs[0].id != id {
        let rest = codecs.drop_first();
        let i = lemma_with_id(rest, id);
        if codec_with_id(codecs, id) is Some {
            assert(codecs[i + 1] == rest[i]);
        } else {
            assert forall|j: int| 0 <= j < codecs.len() implies (#[trigger] codecs[j]).id != id by {
                if j > 0 {
                    assert(codecs[j] == rest[j - 1]);
                }
            }
        }
        i + 1
    } else {
        0
    }
}

/// The candidates of a codec are those that are listed with its id, in their order; an
/// id that is not listed is its own candidate.
pub proof fn law_candidates_of_a_codec(id: Seq<char>)
    ensures
        if exists|i: int| 0 <= i < registry().len() && (#[trigger] registry()[i]).id == id {
            exists|i: int|
                {
                    &&& 0 <= i < registry().len()
                    &&& (#[trigger] registry()[i]).id == id
                    &&& static_chain(id).len() == registry()[i].candidates.len()
                    &&& forall|k: int|
                        0 <= k < static_chain(id).len() ==> #[trigger] static_chain(id)[k]
                            == registry()[i].candidates[k].name
                }
        } else {
            static_chain(id) == seq![id]
        },
{
    let i = lemma_with_id(registry(), id);
    if registered(id) is Some {
        assert(registry()[i].id == id);
    }
}

// ── Devices ────────────────────────────────────────────────────────────────

/// A video command names the device that the encoder takes its frames from, before it
/// reads anything; where video is copied, or no device is needed, it names none.
pub proof fn law_device_is_named(s: ConverterSettings, i: int)
    ensures
        s.copy_video || s.resolved_hw_device is None ==> prelude(s).len() == 0,
        !s.copy_video ==> match s.resolved_hw_device {
            Some(ResolvedHwDevice::Vaapi { device_path }) => prelude(s) == seq![
                "-init_hw_device"@,
                "vaapi=vaapi0:"@ + device_path@,
                "-filter_hw_device"@,
                "vaapi0"@,
            ],
            Some(ResolvedHwDevice::Vulkan) => prelude(s) == seq![
                "-init_hw_device"@,
                "vulkan=vulkan0"@,
                "-filter_hw_device"@,
                "vulkan0"@,
            ],
            None => true,
        },
        (seq!["-y"@] + prelude(s)).is_prefix_of(video_head(s, i)),
{
    let head = seq!["-y"@] + prelude(s);
    assert(video_head(s, i).subrange(0, head.len() as int) =~= head);
}

// ── Steps ──────────────────────────────────────────────────────────────────

/// The sample rate of a stream is that of the first one with its number, and 48 kHz
/// where there is none.
pub proof fn law_rate_of_a_stream(streams: Seq<AudioStreamInfo>, stream: usize, from: int)
    requires
        0 <= from <= streams.len(),
    ensures
        (exists|i: int|
            {
                &&& from <= i < streams.len()
                &&& (#[trigger] streams[i]).stream_index == stream
                &&& stream_rate(streams, stream, from) == streams[i].sample_rate
                &&& forall|j: int| from <= j < i ==> (#[trigger] streams[j]).stream_index != stream
            }) || (stream_rate(streams, stream, from) == 48000 && forall|i: int|
            from <= i < streams.len() ==> (#[trigger] streams[i]).stream_index != stream),
    decreases streams.len() - from,
{
    if from < streams.len() {
        if streams[from].stream_index == stream {
            assert(streams[from].stream_index == stream);
        } else {
            law_rate_of_a_stream(streams, stream, from + 1);
        }
    }
}

/// Each step is carried out by the command of its kind, for its own file, stream and
/// channel.
pub proof fn law_step_commands(
    s: ConverterSettings,
    streams: Seq<AudioStreamInfo>,
    file_idx: usize,
    stream_idx: usize,
    channel_idx: usize,
    segments: Seq<(usize, usize, usize)>,
    keep: Keep,
    output: Seq<char>,
    format: Seq<char>,
    sample_rate: u32,
)
    requires
        file_idx < s.input_files@.len(),
        crate::ffmpeg_args::rates_valid(s),
    ensures
        writes_video(step_args(s, Step::VideoOnly { file_idx, output }, streams), s, file_idx as int),
        holds(
            step_args(s, Step::VideoOnly { file_idx, output }, streams),
            seq!["-map"@, "0:v"@] + seq!["-an"@] + seq!["-c:v"@],
        ),
        step_args(s, Step::VideoMux { file_idx, output, keep }, streams) == video_mux_args(
            s,
            file_idx as int,
            keep,
            streams,
        ),
        exists|rate: u32|
            step_args(
                s,
                Step::AudioChannel { file_idx, stream_idx, channel_idx, output, format },
                streams,
            ) == #[trigger] extract_args(
                s,
                file_idx as int,
                stream_idx,
                channel_idx,
                format,
                rate,
            ) && forall|i: int|
                0 <= i < streams.len() && (#[trigger] streams[i]).stream_index == stream_idx && (
                forall|j: int| 0 <= j < i ==> (#[trigger] streams[j]).stream_index != stream_idx)
                    ==> rate == streams[i].sample_rate,
        step_args(
            s,
            Step::AudioChannelConcat { segments, output, format, sample_rate },
            streams,
        ) == concat_args(s, segments, format, sample_rate),
{
    law_video_only_command(s, file_idx as int);
    let rate = stream_rate(streams, stream_idx, 0);
    law_rate_of_a_stream(streams, stream_idx, 0);
    assert forall|i: int|
        0 <= i < streams.len() && (#[trigger] streams[i]).stream_index == stream_idx && (forall|
            j: int,
        |
            0 <= j < i ==> (#[trigger] streams[j]).stream_index != stream_idx) implies rate
        == streams[i].sample_rate by {}
    let args = extract_args(s, file_idx as int, stream_idx, channel_idx, format, rate);
    assert(step_args(
        s,
        Step::AudioChannel { file_idx, stream_idx, channel_idx, output, format },
        streams,
    ) == args);
}

} // verus!
