//! What the plan of a conversion promises: which outputs come from which files and
//! channels, and how they are named.

use vstd::prelude::*;

use crate::ffprobe::{AudioStreamInfo, VideoAudioProbe};
use crate::formats::{audio_output_format, copy_container_for};
use crate::outputs::{collision, expected_outputs, joined_paths, same_layouts, track_paths, OutputKind};
use crate::paths::{file_name_of, file_stem_of, joined_path, same_path};
use crate::planner::{
    channel_steps, channels_of, channels_upto, concat_plan, file_steps, first_misfit, joinable,
    joined_tracks, kept, kept_upto, misfit_warning, reference_channels, reference_rate,
    segments_upto, silence_warnings, single_tracks, sounds, uniform_steps, Keep, Layout, Step,
};
use crate::settings::{
    numbered, ConversionPipeline, ConverterSettings, OutputNamingMode, RecordingType,
};
use crate::text::{decimal, padded2, padded3, replaced};
use crate::text_laws::{
    law_decimal_spells, law_first_is_replaced, law_nothing_to_replace, law_padded_spells,
    spells_number,
};

verus! {

// ── Names ──────────────────────────────────────────────────────────────────

/// A text without a place for a number.
pub open spec fn no_brace(s: Seq<char>) -> bool {
    forall|i: int| 0 <= i < s.len() ==> #[trigger] s[i] != '{'
}

proof fn lemma_nothing_braced(s: Seq<char>, from: Seq<char>, to: Seq<char>)
    requires
        no_brace(s),
        from.len() > 0,
        from[0] == '{',
    ensures
        replaced(s, from, to) == s,
{
    assert forall|k: int| 0 <= k && k + from.len() <= s.len() implies #[trigger] s.subrange(
        k,
        k + from.len(),
    ) != from by {
        assert(s.subrange(k, k + from.len())[0] == s[k]);
    }
    law_nothing_to_replace(s, from, to);
}

proof fn lemma_other_place(a: Seq<char>, place: Seq<char>, b: Seq<char>, from: Seq<char>, to: Seq<char>)
    requires
        no_brace(a),
        no_brace(b),
        place.len() > 0,
        no_brace(place.skip(1)),
        from.len() == place.len(),
        from[0] == '{',
        from != place,
    ensures
        replaced(a + place + b, from, to) == a + place + b,
{
    let s = a + place + b;
    assert forall|k: int| 0 <= k && k + from.len() <= s.len() implies #[trigger] s.subrange(
        k,
        k + from.len(),
    ) != from by {
        let part = s.subrange(k, k + from.len());
        assert(part[0] == s[k]);
        if k < a.len() {
            assert(s[k] == a[k]);
        } else if k == a.len() {
            assert(part =~= place);
        } else if k < a.len() + place.len() {
            assert(s[k] == place.skip(1)[k - a.len() - 1]);
        } else {
            assert(s[k] == b[k - a.len() - place.len()]);
        }
    }
    law_nothing_to_replace(s, from, to);
}

proof fn lemma_own_place(a: Seq<char>, place: Seq<char>, b: Seq<char>, to: Seq<char>)
    requires
        no_brace(a),
        no_brace(b),
        place.len() > 0,
        place[0] == '{',
    ensures
        replaced(a + place + b, place, to) == a + to + b,
{
    let s = a + place + b;
    let at = a.len() as int;
    assert(s.subrange(at, at + place.len()) =~= place);
    assert forall|k: int| 0 <= k < at implies #[trigger] s.subrange(k, k + place.len()) != place by {
        assert(s.subrange(k, k + place.len())[0] == a[k]);
    }
    law_first_is_replaced(s, place, to, at);
    assert(s.take(at) =~= a);
    assert(s.skip(at + place.len()) =~= b);
    lemma_nothing_braced(b, place, to);
}

/// The number of an output stands in the place of the template: as it is, or with zeros
/// before it to two or three digits. The text round it stays.
pub proof fn law_number_takes_its_place(a: Seq<char>, b: Seq<char>, index: nat)
    requires
        no_brace(a),
        no_brace(b),
    ensures
        exists|n: Seq<char>| #[trigger]
            spells_number(n, index as int) && (index > 0 ==> n[0] != '0') && numbered(
                a + "{:01d}"@ + b,
                index,
            ) == a + n + b,
        exists|n: Seq<char>| #[trigger]
            spells_number(n, index as int) && (index < 100 ==> n.len() == 2) && (index >= 10
                ==> n[0] != '0') && numbered(a + "{:02d}"@ + b, index) == a + n + b,
        exists|n: Seq<char>| #[trigger]
            spells_number(n, index as int) && (index < 1000 ==> n.len() == 3) && (index >= 100
                ==> n[0] != '0') && numbered(a + "{:03d}"@ + b, index) == a + n + b,
        numbered(a, index) == a,
{
    reveal_strlit("{:01d}");
    reveal_strlit("{:02d}");
    reveal_strlit("{:03d}");
    let p1 = "{:01d}"@;
    let p2 = "{:02d}"@;
    let p3 = "{:03d}"@;
    assert(p1[3] == '1' && p2[3] == '2' && p3[3] == '3');
    assert(p1.len() == 6 && p2.len() == 6 && p3.len() == 6);
    assert(no_brace(p1.skip(1)) && no_brace(p2.skip(1)) && no_brace(p3.skip(1)));
    let n1 = decimal(index);
    let n2 = padded2(index);
    let n3 = padded3(index);
    law_decimal_spells(index);
    law_padded_spells(index);
    assert(no_brace(n1)) by {
        assert forall|i: int| 0 <= i < n1.len() implies #[trigger] n1[i] != '{' by {
            assert(48 <= n1[i] as int <= 57);
        }
    }
    assert(no_brace(n2)) by {
        assert forall|i: int| 0 <= i < n2.len() implies #[trigger] n2[i] != '{' by {
            assert(48 <= n2[i] as int <= 57);
        }
    }
    assert(no_brace(n3)) by {
        assert forall|i: int| 0 <= i < n3.len() implies #[trigger] n3[i] != '{' by {
            assert(48 <= n3[i] as int <= 57);
        }
    }
    lemma_nothing_braced(a, p1, n1);
    lemma_nothing_braced(a, p2, n2);
    lemma_nothing_braced(a, p3, n3);
    lemma_own_place(a, p1, b, n1);
    assert(no_brace(a + n1 + b));
    lemma_nothing_braced(a + n1 + b, p2, n2);
    lemma_nothing_braced(a + n1 + b, p3, n3);
    lemma_other_place(a, p2, b, p1, n1);
    lemma_own_place(a, p2, b, n2);
    assert(no_brace(a + n2 + b));
    lemma_nothing_braced(a + n2 + b, p3, n3);
    lemma_other_place(a, p3, b, p1, n1);
    lemma_other_place(a, p3, b, p2, n2);
    lemma_own_place(a, p3, b, n3);
    assert(spells_number(n1, index as int) && numbered(a + p1 + b, index) == a + n1 + b);
    assert(spells_number(n2, index as int) && numbered(a + p2 + b, index) == a + n2 + b);
    assert(spells_number(n3, index as int) && numbered(a + p3 + b, index) == a + n3 + b);
}

/// A path is that of one of the inputs.
pub open spec fn is_an_input(s: ConverterSettings, path: Seq<char>) -> bool {
    exists|i: int| 0 <= i < s.input_files@.len() && #[trigger] same_path(s.input_files@[i]@, path)
}

/// The path of an output: in the output folder, the name of its source file or the
/// chosen prefix, the suffix of its kind with its number, and the extension. Where an
/// input has that path, `_conv` stands before the extension.
pub proof fn law_output_paths(
    s: ConverterSettings,
    kind: Seq<char>,
    file_idx: int,
    index: nat,
    extension: Seq<char>,
    base: Seq<char>,
    suffix: Seq<char>,
)
    requires
        s.naming_mode == OutputNamingMode::SourceStems && 0 <= file_idx < s.input_files@.len()
            && file_stem_of(s.input_files@[file_idx]@) is Some ==> Some(base) == file_stem_of(
            s.input_files@[file_idx]@,
        ),
        !(s.naming_mode == OutputNamingMode::SourceStems && 0 <= file_idx < s.input_files@.len()
            && file_stem_of(s.input_files@[file_idx]@) is Some) ==> base == s.filename_prefix@,
        kind == "audio"@ ==> suffix == numbered(s.audio_suffix_template@, index),
        kind == "video"@ ==> suffix == numbered(s.video_suffix_template@, index),
        kind != "audio"@ && kind != "video"@ ==> suffix.len() == 0,
    ensures
        ({
            let plain = joined_path(s.output_folder@, base + suffix + "."@ + extension);
            let marked = joined_path(s.output_folder@, base + suffix + "_conv."@ + extension);
            s.path_for(kind, file_idx, index, extension) == if is_an_input(s, plain) {
                marked
            } else {
                plain
            }
        }),
{
    reveal_strlit("audio");
    reveal_strlit("video");
    reveal_strlit("_conv");
    reveal_strlit("_conv.");
    reveal_strlit(".");
    assert("audio"@[0] == 'a' && "video"@[0] == 'v');
    assert(s.suffix(kind, index) =~= suffix);
    assert(s.base(file_idx) == base);
    assert(base + suffix + Seq::<char>::empty() + "."@ + extension =~= base + suffix + "."@
        + extension);
    assert("_conv"@ + "."@ =~= "_conv."@);
    assert(base + suffix + "_conv"@ + "."@ + extension =~= base + suffix + "_conv."@ + extension);
    let plain = joined_path(s.output_folder@, base + suffix + "."@ + extension);
    if is_an_input(s, plain) {
        let i = choose|i: int|
            0 <= i < s.input_files@.len() && #[trigger] same_path(s.input_files@[i]@, plain);
        assert(same_path(s.inputs()[i], plain));
    }
    if exists|i: int| 0 <= i < s.inputs().len() && #[trigger] same_path(s.inputs()[i], plain) {
        let i = choose|i: int|
            0 <= i < s.inputs().len() && #[trigger] same_path(s.inputs()[i], plain);
        assert(same_path(s.input_files@[i]@, plain));
    }
}

// ── Channels ───────────────────────────────────────────────────────────────

/// The number of channels of the first `n` streams.
pub open spec fn channel_count(streams: Seq<AudioStreamInfo>, n: int) -> int
    decreases n,
{
    if n <= 0 {
        0
    } else {
        channel_count(streams, n - 1) + streams[n - 1].channels
    }
}

/// Every channel of every stream is listed, stream by stream and channel by channel,
/// each by the number of its stream.
pub proof fn law_channels_are_listed(probe: VideoAudioProbe, i: int, c: int)
    ensures
        channels_of(probe).len() == channel_count(probe.streams@, probe.streams@.len() as int),
        0 <= i < probe.streams@.len() && 0 <= c < probe.streams@[i].channels ==> {
            let at = channel_count(probe.streams@, i) + c;
            &&& 0 <= at < channels_of(probe).len()
            &&& channels_of(probe)[at] == (probe.streams@[i].stream_index, c as usize)
        },
{
    lemma_channels(probe.streams@, probe.streams@.len() as int, i, c);
}

proof fn lemma_channels(streams: Seq<AudioStreamInfo>, n: int, i: int, c: int)
    requires
        0 <= n <= streams.len(),
    ensures
        channels_upto(streams, n).len() == channel_count(streams, n),
        0 <= i < n && 0 <= c < streams[i].channels ==> {
            let at = channel_count(streams, i) + c;
            &&& 0 <= at < channels_upto(streams, n).len()
            &&& channels_upto(streams, n)[at] == (streams[i].stream_index, c as usize)
        },
    decreases n,
{
    if n > 0 {
        lemma_channels(streams, n - 1, i, c);
        if i == n - 1 {
            lemma_channels(streams, i, 0, 0);
        }
    }
}

/// What is kept of the first `n` channels, `at[k]` being the place of the `k`-th of them.
pub open spec fn kept_places(
    channels: Seq<(usize, usize)>,
    dropped: Option<(usize, usize)>,
    n: int,
    at: Seq<int>,
) -> bool {
    &&& forall|k: int| 0 <= k < at.len() ==> 0 <= #[trigger] at[k] < n
    &&& forall|k: int| 0 <= k < at.len() ==> dropped != Some(channels[#[trigger] at[k]])
    &&& forall|j: int, k: int| 0 <= j < k < at.len() ==> at[j] < at[k]
    &&& forall|i: int|
        0 <= i < n && dropped != Some(#[trigger] channels[i]) ==> at.contains(i)
}

proof fn lemma_kept_places(channels: Seq<(usize, usize)>, dropped: Option<(usize, usize)>, n: int) -> (at: Seq<int>)
    requires
        0 <= n <= channels.len(),
    ensures
        kept_places(channels, dropped, n, at),
        at.len() == kept_upto(channels, dropped, n).len(),
        forall|k: int|
            0 <= k < at.len() ==> kept_upto(channels, dropped, n)[k] == channels[#[trigger] at[k]],
    decreases n,
{
    if n == 0 {
        seq![]
    } else {
        let before = lemma_kept_places(channels, dropped, n - 1);
        if dropped == Some(channels[n - 1]) {
            before
        } else {
            let at = before.push(n - 1);
            assert forall|i: int| 0 <= i < n && dropped != Some(
                #[trigger] channels[i],
            ) implies at.contains(i) by {
                if i < n - 1 {
                    assert(before.contains(i));
                    let k = choose|k: int| 0 <= k < before.len() && before[k] == i;
                    assert(at[k] == i);
                } else {
                    assert(at[before.len() as int] == i);
                }
            }
            at
        }
    }
}

/// The audio step of a file for the channel at place `place`, the `number`-th output.
pub open spec fn takes_channel(
    s: ConverterSettings,
    step: Step,
    file_idx: usize,
    channel: (usize, usize),
    number: nat,
) -> bool {
    let (format, extension) = audio_output_format(s.audio_encoder@);
    step == Step::AudioChannel {
        file_idx,
        stream_idx: channel.0,
        channel_idx: channel.1,
        output: s.path_for("audio"@, file_idx as int, number, extension),
        format,
    }
}

/// With split tracks a file gives its video without audio and then one output for every
/// channel but the one with LTC where that is dropped, in the order of the channels and
/// numbered from one.
pub proof fn law_split_plan(
    s: ConverterSettings,
    container: Seq<char>,
    file_idx: usize,
    channels: Seq<(usize, usize)>,
) -> (at: Seq<int>)
    requires
        s.split_tracks,
    ensures
        ({
            let steps = file_steps(s, container, file_idx, channels);
            let dropped = if s.drop_ltc_track {
                s.ltc_video_source
            } else {
                None
            };
            &&& kept_places(channels, dropped, channels.len() as int, at)
            &&& steps.len() == at.len() + 1
            &&& steps[0] == Step::VideoOnly {
                file_idx,
                output: s.path_for("video"@, file_idx as int, (file_idx + 1) as nat, container),
            }
            &&& forall|k: int|
                0 <= k < at.len() ==> takes_channel(
                    s,
                    steps[k + 1],
                    file_idx,
                    channels[#[trigger] at[k]],
                    (k + 1) as nat,
                )
        }),
{
    let at = lemma_kept_places(channels, s.dropped(), channels.len() as int);
    let steps = file_steps(s, container, file_idx, channels);
    assert forall|k: int| 0 <= k < at.len() implies takes_channel(
        s,
        steps[k + 1],
        file_idx,
        channels[#[trigger] at[k]],
        (k + 1) as nat,
    ) by {
        assert(kept(channels, s.dropped())[k] == channels[at[k]]);
    }
    at
}

/// Without split tracks a file gives one output. It has all audio unless the channel
/// with LTC is dropped; then it has every other channel, and no audio where there is no
/// other.
pub proof fn law_whole_plan(
    s: ConverterSettings,
    container: Seq<char>,
    file_idx: usize,
    channels: Seq<(usize, usize)>,
)
    requires
        !s.split_tracks,
        forall|i: int, j: int| 0 <= i < j < channels.len() ==> channels[i] != channels[j],
    ensures
        ({
            let steps = file_steps(s, container, file_idx, channels);
            let output = s.path_for("video"@, file_idx as int, (file_idx + 1) as nat, container);
            &&& steps.len() == 1
            &&& !(s.drop_ltc_track && s.ltc_video_source is Some) ==> steps[0] == Step::VideoMux {
                file_idx,
                output,
                keep: Keep::AllAudio,
            }
            &&& s.drop_ltc_track && s.ltc_video_source is Some ==> if exists|i: int|
                0 <= i < channels.len() && #[trigger] channels[i] != s.ltc_video_source->0 {
                steps[0] == Step::VideoMux {
                    file_idx,
                    output,
                    keep: Keep::ChannelsExcept(seq![s.ltc_video_source->0]),
                }
            } else {
                steps[0] == Step::VideoOnly { file_idx, output }
            }
        }),
{
    if s.drop_ltc_track && s.ltc_video_source is Some {
        let pair = s.ltc_video_source->0;
        if channels.contains(pair) {
            let k = choose|k: int| 0 <= k < channels.len() && channels[k] == pair;
            if channels.len() > 1 {
                let other = if k == 0 {
                    1int
                } else {
                    0int
                };
                assert(channels[other] != pair);
            }
        } else if channels.len() > 0 {
            assert(channels[0] != pair);
        }
    }
}

/// Every file gives its own outputs, in the order of the files.
pub proof fn law_every_file_is_planned(
    s: ConverterSettings,
    container: Seq<char>,
    channels: Seq<(usize, usize)>,
    n: int,
    i: int,
)
    requires
        0 <= i < n <= usize::MAX,
    ensures
        ({
            let steps = uniform_steps(s, container, channels, n);
            let own = file_steps(s, container, i as usize, channels);
            let first = own.len() * i;
            &&& steps.len() == own.len() * n
            &&& 0 <= first <= first + own.len() <= steps.len()
            &&& steps.subrange(first, first + own.len()) == own
        }),
    decreases n,
{
    let before = uniform_steps(s, container, channels, n - 1);
    let steps = uniform_steps(s, container, channels, n);
    let last = file_steps(s, container, (n - 1) as usize, channels);
    let own = file_steps(s, container, i as usize, channels);
    let len = own.len() as int;
    assert(last.len() == len);
    assert(len * n == len * (n - 1) + len) by (nonlinear_arith);
    if i < n - 1 {
        law_every_file_is_planned(s, container, channels, n - 1, i);
        assert(steps.subrange(len * i, len * i + len) =~= before.subrange(len * i, len * i + len));
    } else {
        if n > 1 {
            law_every_file_is_planned(s, container, channels, n - 1, 0);
            assert(file_steps(s, container, 0, channels).len() == len);
        } else {
            assert(len * 0 == 0);
        }
        assert(before.len() == len * (n - 1));
        assert(len * (n - 1) >= 0) by (nonlinear_arith)
            requires
                len >= 0,
                n >= 1,
        ;
        assert(steps.subrange(len * i, len * i + len) =~= own);
    }
}

// ── Joined clips ───────────────────────────────────────────────────────────

/// The parts of a joined track: one from every clip that has audio, in the order of the
/// clips, all from the same stream and channel.
pub open spec fn parts_of(clips: Seq<Option<Layout>>, n: int, channel: (usize, usize), parts: Seq<(usize, usize, usize)>) -> bool {
    &&& forall|k: int|
        0 <= k < parts.len() ==> {
            &&& (#[trigger] parts[k]).0 < n
            &&& sounds(clips[parts[k].0 as int])
            &&& parts[k].1 == channel.0
            &&& parts[k].2 == channel.1
        }
    &&& forall|j: int, k: int| 0 <= j < k < parts.len() ==> parts[j].0 < parts[k].0
    &&& forall|i: int|
        0 <= i < n && sounds(#[trigger] clips[i]) ==> parts.contains(
            (i as usize, channel.0, channel.1),
        )
}

proof fn lemma_parts(clips: Seq<Option<Layout>>, channel: (usize, usize), n: int)
    requires
        0 <= n <= clips.len() <= usize::MAX,
    ensures
        parts_of(clips, n, channel, segments_upto(clips, channel, n)),
    decreases n,
{
    if n > 0 {
        lemma_parts(clips, channel, n - 1);
        let before = segments_upto(clips, channel, n - 1);
        let now = segments_upto(clips, channel, n);
        assert forall|i: int| 0 <= i < n && sounds(#[trigger] clips[i]) implies now.contains(
            (i as usize, channel.0, channel.1),
        ) by {
            if i < n - 1 {
                assert(before.contains((i as usize, channel.0, channel.1)));
                let k = choose|k: int|
                    0 <= k < before.len() && before[k] == (i as usize, channel.0, channel.1);
                assert(now[k] == before[k]);
            } else {
                assert(now[before.len() as int] == (i as usize, channel.0, channel.1));
            }
        }
    }
}

/// The step that joins the channel at place `place` of the clips.
pub open spec fn joins_channel(
    s: ConverterSettings,
    clips: Seq<Option<Layout>>,
    step: Step,
    channel: (usize, usize),
    place: int,
    rate: u32,
) -> bool {
    let (format, extension) = audio_output_format(s.audio_encoder@);
    &&& step is AudioChannelConcat
    &&& parts_of(clips, clips.len() as int, channel, step->segments)
    &&& step.output() == s.path_for("audio"@, 0, (place + 1) as nat, extension)
    &&& step->AudioChannelConcat_format == format
    &&& step->sample_rate == rate
}

proof fn lemma_joined(
    s: ConverterSettings,
    clips: Seq<Option<Layout>>,
    channels: Seq<(usize, usize)>,
    rate: u32,
    n: int,
) -> (at: Seq<int>)
    requires
        0 <= n <= channels.len(),
        clips.len() <= usize::MAX,
    ensures
        kept_places(channels, s.dropped(), n, at),
        at.len() == joined_tracks(s, clips, channels, rate, n).len(),
        forall|k: int|
            0 <= k < at.len() ==> joins_channel(
                s,
                clips,
                joined_tracks(s, clips, channels, rate, n)[k],
                channels[#[trigger] at[k]],
                at[k],
                rate,
            ),
    decreases n,
{
    if n == 0 {
        seq![]
    } else {
        let before = lemma_joined(s, clips, channels, rate, n - 1);
        if s.dropped() == Some(channels[n - 1]) {
            before
        } else {
            let at = before.push(n - 1);
            lemma_parts(clips, channels[n - 1], clips.len() as int);
            assert forall|i: int| 0 <= i < n && s.dropped() != Some(
                #[trigger] channels[i],
            ) implies at.contains(i) by {
                if i < n - 1 {
                    assert(before.contains(i));
                    let k = choose|k: int| 0 <= k < before.len() && before[k] == i;
                    assert(at[k] == i);
                } else {
                    assert(at[before.len() as int] == i);
                }
            }
            let old_tracks = joined_tracks(s, clips, channels, rate, n - 1);
            let tracks = joined_tracks(s, clips, channels, rate, n);
            assert forall|k: int| 0 <= k < at.len() implies joins_channel(
                s,
                clips,
                tracks[k],
                channels[#[trigger] at[k]],
                at[k],
                rate,
            ) by {
                if k < before.len() {
                    assert(at[k] == before[k]);
                    assert(tracks[k] == old_tracks[k]);
                }
            }
            at
        }
    }
}

/// Clips fit together: those that have audio have the channels of `channels`, at the
/// rate where theirs is known.
pub open spec fn fit_together(clips: Seq<Option<Layout>>, channels: Seq<(usize, usize)>, rate: u32) -> bool {
    forall|i: int|
        0 <= i < clips.len() && (#[trigger] clips[i] matches Some(l) && l.channels.len() > 0) ==> {
            let l = clips[i]->0;
            l.channels == channels && (l.rate matches Some(r) ==> r == rate)
        }
}

/// The first clip with audio.
pub open spec fn is_first_sounding(clips: Seq<Option<Layout>>, i: int) -> bool {
    &&& 0 <= i < clips.len()
    &&& clips[i] is Some && clips[i]->0.channels.len() > 0
    &&& forall|j: int|
        0 <= j < i ==> (#[trigger] clips[j] matches Some(l) ==> l.channels.len() == 0)
}

/// The rate that is asked of clips: that of the first clip that could be read, and
/// 48 kHz where it has no audio or none could be read.
pub open spec fn is_asked_rate(clips: Seq<Option<Layout>>, rate: u32) -> bool {
    if exists|i: int| #[trigger] is_first_read(clips, i) {
        exists|i: int| #[trigger]
            is_first_read(clips, i) && rate == (if clips[i]->0.rate is Some {
                clips[i]->0.rate->0
            } else {
                48000
            })
    } else {
        rate == 48000
    }
}

/// The first clip that could be read.
pub open spec fn is_first_read(clips: Seq<Option<Layout>>, i: int) -> bool {
    &&& 0 <= i < clips.len()
    &&& clips[i] is Some
    &&& forall|j: int| 0 <= j < i ==> (#[trigger] clips[j]) is None
}

proof fn lemma_asked_rate(clips: Seq<Option<Layout>>, from: int)
    requires
        0 <= from <= clips.len(),
        forall|j: int| 0 <= j < from ==> (#[trigger] clips[j]) is None,
    ensures
        is_asked_rate(clips, reference_rate(clips, from)),
    decreases clips.len() - from,
{
    if from < clips.len() {
        if clips[from] is Some {
            assert(is_first_read(clips, from));
        } else {
            lemma_asked_rate(clips, from + 1);
        }
    } else if exists|i: int| #[trigger] is_first_read(clips, i) {
        let i = choose|i: int| #[trigger] is_first_read(clips, i);
        assert(clips[i] is None);
    }
}

proof fn lemma_reference(clips: Seq<Option<Layout>>, from: int, i: int)
    requires
        is_first_sounding(clips, i),
        0 <= from <= i,
    ensures
        reference_channels(clips, from) == Some(clips[i]->0.channels),
    decreases i - from,
{
    if from < i {
        assert(clips[from] matches Some(l) ==> l.channels.len() == 0);
        lemma_reference(clips, from + 1, i);
    }
}

proof fn lemma_misfit(clips: Seq<Option<Layout>>, channels: Seq<(usize, usize)>, rate: u32, from: int)
    requires
        0 <= from <= clips.len(),
        forall|j: int| 0 <= j < from ==> joinable(#[trigger] clips[j], channels, rate),
    ensures
        from <= first_misfit(clips, channels, rate, from) <= clips.len(),
        first_misfit(clips, channels, rate, from) == clips.len() <==> fit_together(
            clips,
            channels,
            rate,
        ),
    decreases clips.len() - from,
{
    if from < clips.len() {
        if joinable(clips[from], channels, rate) {
            lemma_misfit(clips, channels, rate, from + 1);
        } else {
            assert(clips[from] is Some);
        }
    } else {
        assert forall|i: int|
            0 <= i < clips.len() && (#[trigger] clips[i] matches Some(l) && l.channels.len()
                > 0) implies {
            let l = clips[i]->0;
            l.channels == channels && (l.rate matches Some(r) ==> r == rate)
        } by {
            assert(joinable(clips[i], channels, rate));
        }
    }
}

/// Clips that fit together are joined: there is one output for every channel of the
/// first clip with audio, but for the one with LTC where that is dropped, each made of
/// that channel of every clip with audio.
pub proof fn law_fitting_clips_are_joined(s: ConverterSettings, clips: Seq<Option<Layout>>, first: int, rate: u32) -> (at: Seq<int>)
    requires
        clips.len() <= usize::MAX,
        is_first_sounding(clips, first),
        is_asked_rate(clips, rate),
        fit_together(clips, clips[first]->0.channels, rate),
    ensures
        ({
            let steps = concat_plan(s, clips).0;
            let channels = clips[first]->0.channels;
            let dropped = if s.drop_ltc_track {
                s.ltc_video_source
            } else {
                None
            };
            &&& kept_places(channels, dropped, channels.len() as int, at)
            &&& steps.len() == at.len()
            &&& forall|k: int|
                0 <= k < at.len() ==> joins_channel(
                    s,
                    clips,
                    steps[k],
                    channels[#[trigger] at[k]],
                    at[k],
                    rate,
                )
        }),
{
    let channels = clips[first]->0.channels;
    lemma_reference(clips, 0, first);
    lemma_asked_rate(clips, 0);
    lemma_one_rate(clips, rate, reference_rate(clips, 0));
    lemma_misfit(clips, channels, rate, 0);
    lemma_joined(s, clips, channels, rate, channels.len() as int)
}

proof fn lemma_one_rate(clips: Seq<Option<Layout>>, a: u32, b: u32)
    requires
        is_asked_rate(clips, a),
        is_asked_rate(clips, b),
    ensures
        a == b,
{
    if exists|i: int| #[trigger] is_first_read(clips, i) {
        let i = choose|i: int| #[trigger]
            is_first_read(clips, i) && a == (if clips[i]->0.rate is Some {
                clips[i]->0.rate->0
            } else {
                48000
            });
        let j = choose|j: int| #[trigger]
            is_first_read(clips, j) && b == (if clips[j]->0.rate is Some {
                clips[j]->0.rate->0
            } else {
                48000
            });
        if i < j {
            assert(clips[i] is None);
        } else if j < i {
            assert(clips[j] is None);
        }
    }
}

/// Where no clip has audio there is nothing to join.
pub proof fn law_silent_clips_give_nothing(s: ConverterSettings, clips: Seq<Option<Layout>>)
    requires
        forall|i: int|
            0 <= i < clips.len() ==> (#[trigger] clips[i] matches Some(l) ==> l.channels.len() == 0),
    ensures
        concat_plan(s, clips).0.len() == 0,
        concat_plan(s, clips).1.len() == 0,
{
    lemma_no_reference(clips, 0);
}

proof fn lemma_no_reference(clips: Seq<Option<Layout>>, from: int)
    requires
        0 <= from <= clips.len(),
        forall|i: int|
            0 <= i < clips.len() ==> (#[trigger] clips[i] matches Some(l) ==> l.channels.len() == 0),
    ensures
        reference_channels(clips, from) is None,
    decreases clips.len() - from,
{
    if from < clips.len() {
        assert(clips[from] matches Some(l) ==> l.channels.len() == 0);
        lemma_no_reference(clips, from + 1);
    }
}

/// Clips that do not fit together are not joined: each gives its own audio outputs, one
/// for every channel that is kept.
pub proof fn law_other_clips_stay_single(
    s: ConverterSettings,
    clips: Seq<Option<Layout>>,
    first: int,
    rate: u32,
    i: int,
    c: int,
)
    requires
        clips.len() <= usize::MAX,
        is_first_sounding(clips, first),
        is_asked_rate(clips, rate),
        !fit_together(clips, clips[first]->0.channels, rate),
        0 <= i < clips.len(),
        clips[i] is Some,
        0 <= c < clips[i]->0.channels.len(),
        !(s.drop_ltc_track && s.ltc_video_source == Some(clips[i]->0.channels[c])),
    ensures
        exists|k: int, number: nat|
            0 <= k < concat_plan(s, clips).0.len() && #[trigger] takes_channel(
                s,
                concat_plan(s, clips).0[k],
                i as usize,
                clips[i]->0.channels[c],
                number,
            ),
{
    lemma_reference(clips, 0, first);
    lemma_asked_rate(clips, 0);
    lemma_one_rate(clips, rate, reference_rate(clips, 0));
    lemma_misfit(clips, clips[first]->0.channels, rate, 0);
    lemma_single(s, clips, clips.len() as int, i, c);
    let all = single_tracks(s, clips, clips.len() as int);
    assert(concat_plan(s, clips).0 == all);
    let (k, number) = choose|k: int, number: nat|
        0 <= k < all.len() && #[trigger] takes_channel(
            s,
            all[k],
            i as usize,
            clips[i]->0.channels[c],
            number,
        );
    assert(takes_channel(
        s,
        concat_plan(s, clips).0[k],
        i as usize,
        clips[i]->0.channels[c],
        number,
    ));
}

/// The text holds the part at place `at`.
pub open spec fn says_at(text: Seq<char>, part: Seq<char>, at: int) -> bool {
    0 <= at <= at + part.len() <= text.len() && text.subrange(at, at + part.len()) == part
}

/// Where clips are joined, each clip without audio is named in the warnings; where they
/// do not fit together, the warnings end by saying so.
pub proof fn law_warnings_name_clips(
    s: ConverterSettings,
    clips: Seq<Option<Layout>>,
    first: int,
    rate: u32,
    i: int,
)
    requires
        is_first_sounding(clips, first),
        is_asked_rate(clips, rate),
        s.input_files@.len() == clips.len(),
        0 <= i < clips.len(),
    ensures
        ({
            let warnings = concat_plan(s, clips).1;
            &&& fit_together(clips, clips[first]->0.channels, rate) && !sounds(clips[i])
                ==> exists|at: int| #[trigger]
                says_at(
                    warnings,
                    "Warning: clip "@ + s.input_files@[i]@
                        + " has no audio; excluded from concatenation.\n"@,
                    at,
                )
            &&& !fit_together(clips, clips[first]->0.channels, rate) ==> says_at(
                warnings,
                misfit_warning(),
                warnings.len() - misfit_warning().len(),
            )
            &&& fit_together(clips, clips[first]->0.channels, rate) && (forall|j: int|
                0 <= j < clips.len() ==> sounds(#[trigger] clips[j])) ==> warnings.len() == 0
        }),
{
    let channels = clips[first]->0.channels;
    lemma_reference(clips, 0, first);
    lemma_asked_rate(clips, 0);
    lemma_one_rate(clips, rate, reference_rate(clips, 0));
    lemma_misfit(clips, channels, rate, 0);
    let n = clips.len() as int;
    if fit_together(clips, channels, rate) {
        if !sounds(clips[i]) {
            let at = lemma_named(clips, s.inputs(), n, i);
            assert(s.inputs()[i] == s.input_files@[i]@);
            assert(says_at(
                concat_plan(s, clips).1,
                "Warning: clip "@ + s.input_files@[i]@
                    + " has no audio; excluded from concatenation.\n"@,
                at,
            ));
        }
        if forall|j: int| 0 <= j < clips.len() ==> sounds(#[trigger] clips[j]) {
            lemma_unnamed(clips, s.inputs(), n);
        }
    } else {
        let warnings = concat_plan(s, clips).1;
        let head = silence_warnings(
            clips,
            s.inputs(),
            first_misfit(clips, channels, rate, 0),
        );
        assert(warnings == head + misfit_warning());
        let at = warnings.len() - misfit_warning().len();
        assert(at == head.len());
        assert(warnings.subrange(at, at + misfit_warning().len()) =~= misfit_warning());
    }
}

proof fn lemma_named(clips: Seq<Option<Layout>>, inputs: Seq<Seq<char>>, n: int, i: int) -> (at: int)
    requires
        0 <= i < n <= clips.len(),
        !sounds(clips[i]),
    ensures
        says_at(
            silence_warnings(clips, inputs, n),
            "Warning: clip "@ + inputs[i] + " has no audio; excluded from concatenation.\n"@,
            at,
        ),
    decreases n,
{
    let before = silence_warnings(clips, inputs, n - 1);
    let now = silence_warnings(clips, inputs, n);
    let part = "Warning: clip "@ + inputs[i]
        + " has no audio; excluded from concatenation.\n"@;
    if i < n - 1 {
        let at = lemma_named(clips, inputs, n - 1, i);
        assert(now.subrange(at, at + part.len()) =~= before.subrange(at, at + part.len()));
        at
    } else {
        let at = before.len() as int;
        assert(now.subrange(at, at + part.len()) =~= part);
        at
    }
}

proof fn lemma_unnamed(clips: Seq<Option<Layout>>, inputs: Seq<Seq<char>>, n: int)
    requires
        n <= clips.len(),
        forall|j: int| 0 <= j < clips.len() ==> sounds(#[trigger] clips[j]),
    ensures
        silence_warnings(clips, inputs, n).len() == 0,
    decreases n,
{
    if n > 0 {
        lemma_unnamed(clips, inputs, n - 1);
    }
}

proof fn lemma_single(s: ConverterSettings, clips: Seq<Option<Layout>>, n: int, i: int, c: int)
    requires
        clips.len() <= usize::MAX,
        0 <= i < n <= clips.len(),
        clips[i] is Some,
        0 <= c < clips[i]->0.channels.len(),
        s.dropped() != Some(clips[i]->0.channels[c]),
    ensures
        exists|k: int, number: nat|
            0 <= k < single_tracks(s, clips, n).len() && #[trigger] takes_channel(
                s,
                single_tracks(s, clips, n)[k],
                i as usize,
                clips[i]->0.channels[c],
                number,
            ),
    decreases n,
{
    let before = single_tracks(s, clips, n - 1);
    let now = single_tracks(s, clips, n);
    let channel = clips[i]->0.channels[c];
    if i < n - 1 {
        lemma_single(s, clips, n - 1, i, c);
        let (k, number) = choose|k: int, number: nat|
            0 <= k < before.len() && #[trigger] takes_channel(
                s,
                before[k],
                i as usize,
                channel,
                number,
            );
        assert(now[k] == before[k]);
        assert(takes_channel(s, now[k], i as usize, channel, number));
    } else {
        let channels = clips[i]->0.channels;
        let at = lemma_kept_places(channels, s.dropped(), channels.len() as int);
        assert(at.contains(c));
        let k = choose|k: int| 0 <= k < at.len() && at[k] == c;
        assert(kept(channels, s.dropped())[k] == channels[at[k]]);
        let own = channel_steps(s, i as usize, kept(channels, s.dropped()));
        assert(now[before.len() + k] == own[k]);
        assert(takes_channel(s, now[before.len() + k], i as usize, channel, (k + 1) as nat));
    }
}

// ── Outputs told in advance ────────────────────────────────────────────────

/// The places of the tracks that are written, in order: all of the first `n`, but the
/// one with LTC where that is dropped.
pub open spec fn written_tracks(s: ConverterSettings, n: int, at: Seq<int>) -> bool {
    &&& forall|k: int|
        0 <= k < at.len() ==> 0 <= #[trigger] at[k] < n && !(s.drop_ltc_track && at[k]
            == s.ltc_track_channel_index)
    &&& forall|j: int, k: int| 0 <= j < k < at.len() ==> at[j] < at[k]
    &&& forall|i: int|
        0 <= i < n && !(s.drop_ltc_track && i == s.ltc_track_channel_index) ==> #[trigger]
            at.contains(i)
}

proof fn lemma_tracks(s: ConverterSettings, extension: Seq<char>, n: int) -> (at: Seq<int>)
    requires
        0 <= n,
    ensures
        written_tracks(s, n, at),
        at.len() == track_paths(s, extension, n).len(),
        forall|k: int|
            0 <= k < at.len() ==> track_paths(s, extension, n)[k] == s.path_for(
                "audio"@,
                0,
                (#[trigger] at[k] + 1) as nat,
                extension,
            ),
    decreases n,
{
    if n == 0 {
        seq![]
    } else {
        let before = lemma_tracks(s, extension, n - 1);
        if s.drop_ltc_track && n - 1 == s.ltc_track_channel_index {
            before
        } else {
            let at = before.push(n - 1);
            assert forall|i: int|
                0 <= i < n && !(s.drop_ltc_track && i
                    == s.ltc_track_channel_index) implies #[trigger] at.contains(i) by {
                if i < n - 1 {
                    assert(before.contains(i));
                    let k = choose|k: int| 0 <= k < before.len() && before[k] == i;
                    assert(at[k] == i);
                } else {
                    assert(at[before.len() as int] == i);
                }
            }
            at
        }
    }
}

/// What is told of a conversion of audio: with split tracks one audio output for every
/// track of the channel map that is written, numbered by its place; otherwise one for
/// all of them, named by the prefix alone; and a video where one is generated.
pub proof fn law_audio_preview(s: ConverterSettings, layout: Option<Layout>, generate: bool) -> (at: Seq<int>)
    requires
        s.pipeline == (ConversionPipeline::AudioOnly { generate_synthetic_video: generate }),
    ensures
        ({
            let told = expected_outputs(s, layout);
            let extension = audio_output_format(s.audio_encoder@).1;
            let tracks = if s.split_tracks {
                at.len()
            } else {
                1
            };
            &&& written_tracks(s, s.channel_map@.len() as int, at)
            &&& told.len() == tracks + if generate {
                1nat
            } else {
                0
            }
            &&& s.split_tracks ==> forall|k: int|
                0 <= k < at.len() ==> told[k] == (
                    OutputKind::Audio,
                    s.path_for("audio"@, 0, (#[trigger] at[k] + 1) as nat, extension),
                )
            &&& !s.split_tracks ==> told[0] == (
                OutputKind::Audio,
                joined_path(s.output_folder@, s.filename_prefix@ + "."@ + extension),
            )
            &&& generate ==> told[tracks as int] == (
                OutputKind::Video,
                s.path_for("video"@, 0, 1, s.container@),
            )
        }),
{
    let extension = audio_output_format(s.audio_encoder@).1;
    lemma_tracks(s, extension, s.channel_map@.len() as int)
}

/// What is told of a conversion of videos that are not joined and whose audio is known:
/// the outputs of every file as they are planned, each with its kind.
pub proof fn law_video_preview(s: ConverterSettings, layout: Layout, container: Seq<char>, i: int, k: int)
    requires
        s.pipeline is VideoPassthrough,
        !(s.concat_audio && s.split_tracks && s.recording_type
            == RecordingType::VideoClipSequence),
        0 <= i < s.input_files@.len() <= usize::MAX,
        !s.copy_video ==> container == s.container@,
        s.copy_video ==> container == copy_container_for(s.input_files@[0]@),
        0 <= k < file_steps(s, container, i as usize, layout.channels).len(),
    ensures
        ({
            let told = expected_outputs(s, Some(layout));
            let own = file_steps(s, container, i as usize, layout.channels);
            let at = own.len() * i + k;
            &&& told.len() == own.len() * s.input_files@.len()
            &&& 0 <= at < told.len()
            &&& told[at].1 == own[k].output()
            &&& told[at].0 is Audio <==> own[k] is AudioChannel || own[k] is AudioChannelConcat
        }),
{
    let n = s.input_files@.len() as int;
    let steps = uniform_steps(s, container, layout.channels, n);
    let own = file_steps(s, container, i as usize, layout.channels);
    law_every_file_is_planned(s, container, layout.channels, n, i);
    let first = own.len() * i;
    assert(steps.subrange(first, first + own.len())[k] == steps[first + k]);
}

/// What is told of videos whose audio is not known: one video for every file.
pub proof fn law_unknown_preview(s: ConverterSettings, container: Seq<char>, i: int)
    requires
        s.pipeline is VideoPassthrough,
        !(s.concat_audio && s.split_tracks && s.recording_type
            == RecordingType::VideoClipSequence),
        0 <= i < s.input_files@.len(),
        !s.copy_video ==> container == s.container@,
        s.copy_video ==> container == copy_container_for(s.input_files@[0]@),
    ensures
        ({
            let told = expected_outputs(s, None);
            &&& told.len() == s.input_files@.len()
            &&& told[i] == (
                OutputKind::Video,
                s.path_for("video"@, i, (i + 1) as nat, container),
            )
        }),
{
}

/// What is told of joined clips: one video for every clip, and then the outputs that
/// the joined plan has, whose audio they are.
pub proof fn law_joined_preview(s: ConverterSettings, layout: Layout, container: Seq<char>, i: int) -> (at: Seq<int>)
    requires
        s.pipeline is VideoPassthrough,
        s.concat_audio && s.split_tracks && s.recording_type == RecordingType::VideoClipSequence,
        0 <= i < s.input_files@.len() <= usize::MAX,
        layout.channels.len() > 0,
        layout.rate is Some,
        !s.copy_video ==> container == s.container@,
        s.copy_video ==> container == copy_container_for(s.input_files@[0]@),
    ensures
        ({
            let told = expected_outputs(s, Some(layout));
            let n = s.input_files@.len() as int;
            let extension = audio_output_format(s.audio_encoder@).1;
            let dropped = if s.drop_ltc_track {
                s.ltc_video_source
            } else {
                None
            };
            &&& kept_places(layout.channels, dropped, layout.channels.len() as int, at)
            &&& told.len() == n + at.len()
            &&& told[i] == (
                OutputKind::Video,
                s.path_for("video"@, i, (i + 1) as nat, container),
            )
            &&& forall|k: int|
                0 <= k < at.len() ==> told[n + k] == (
                    OutputKind::Audio,
                    s.path_for("audio"@, 0, (#[trigger] at[k] + 1) as nat, extension),
                )
        }),
{
    let n = s.input_files@.len();
    let clips = same_layouts(Some(layout), n);
    assert(clips[0] == Some(layout));
    assert(is_first_sounding(clips, 0));
    assert(is_first_read(clips, 0));
    assert(is_asked_rate(clips, layout.rate->0));
    assert(fit_together(clips, layout.channels, layout.rate->0));
    let at = law_fitting_clips_are_joined(s, clips, 0, layout.rate->0);
    let plan = concat_plan(s, clips).0;
    assert forall|k: int| 0 <= k < plan.len() implies (#[trigger] plan[k]) is AudioChannelConcat by {
        assert(joins_channel(
            s,
            clips,
            plan[k],
            layout.channels[at[k]],
            at[k],
            layout.rate->0,
        ));
    }
    lemma_all_joined(plan, plan.len() as int);
    let told = expected_outputs(s, Some(layout));
    let extension = audio_output_format(s.audio_encoder@).1;
    assert forall|k: int| 0 <= k < at.len() implies told[n + k] == (
        OutputKind::Audio,
        s.path_for("audio"@, 0, (#[trigger] at[k] + 1) as nat, extension),
    ) by {
        assert(joins_channel(
            s,
            clips,
            plan[k],
            layout.channels[at[k]],
            at[k],
            layout.rate->0,
        ));
        assert(joined_paths(plan, plan.len() as int)[k] == plan[k].output());
    }
    at
}

proof fn lemma_all_joined(plan: Seq<Step>, n: int)
    requires
        0 <= n <= plan.len(),
        forall|k: int| 0 <= k < plan.len() ==> (#[trigger] plan[k]) is AudioChannelConcat,
    ensures
        joined_paths(plan, n).len() == n,
        forall|k: int| 0 <= k < n ==> #[trigger] joined_paths(plan, n)[k] == plan[k].output(),
    decreases n,
{
    if n > 0 {
        lemma_all_joined(plan, n - 1);
        assert(plan[n - 1] is AudioChannelConcat);
    }
}

/// The name of input `i` in an output folder would be that of an input, so that it is
/// written under another name, and `text` says so.
pub open spec fn is_moved(
    inputs: Seq<Seq<char>>,
    folder: Seq<char>,
    base: Seq<char>,
    suffix: Seq<char>,
    extension: Seq<char>,
    text: Seq<char>,
) -> bool {
    let planned = joined_path(folder, base + suffix + "."@ + extension);
    let aside = joined_path(folder, base + suffix + "_conv."@ + extension);
    &&& exists|j: int| 0 <= j < inputs.len() && #[trigger] same_path(inputs[j], planned)
    &&& file_name_of(planned) is Some && file_name_of(aside) is Some ==> text == "'"@
        + file_name_of(planned)->0 + "' will be written as '"@ + file_name_of(aside)->0 + "'"@
}

/// A collision is told for an input where its output, as it is named, would have the
/// path of an input, and nowhere else.
pub proof fn law_collisions(
    inputs: Seq<Seq<char>>,
    folder: Seq<char>,
    prefix: Seq<char>,
    mode: OutputNamingMode,
    template: Seq<char>,
    container: Seq<char>,
    copy: bool,
    i: int,
    base: Seq<char>,
)
    requires
        0 <= i < inputs.len(),
        mode == OutputNamingMode::SourceStems ==> file_stem_of(inputs[i]) == Some(base),
        mode == OutputNamingMode::PrefixTemplates ==> base == prefix && prefix.len() > 0,
    ensures
        ({
            let extension = if copy {
                copy_container_for(inputs[i])
            } else {
                container
            };
            let suffix = numbered(template, (i + 1) as nat);
            match collision(inputs, folder, prefix, mode, template, container, copy, i) {
                Some(text) => is_moved(inputs, folder, base, suffix, extension, text),
                None => forall|j: int|
                    0 <= j < inputs.len() ==> !#[trigger] same_path(
                        inputs[j],
                        joined_path(folder, base + suffix + "."@ + extension),
                    ),
            }
        }),
{
    reveal_strlit("_conv");
    reveal_strlit("_conv.");
    reveal_strlit(".");
    let extension = if copy {
        copy_container_for(inputs[i])
    } else {
        container
    };
    let suffix = numbered(template, (i + 1) as nat);
    assert(base + suffix + Seq::<char>::empty() + "."@ + extension =~= base + suffix + "."@
        + extension);
    assert("_conv"@ + "."@ =~= "_conv."@);
    assert(base + suffix + "_conv"@ + "."@ + extension =~= base + suffix + "_conv."@ + extension);
}

} // verus!
