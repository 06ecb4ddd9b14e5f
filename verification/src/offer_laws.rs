//! What checking a request and offering formats promise: what is let pass, what is
//! offered, and what is read of the streams of a file.

use vstd::prelude::*;

use crate::ffprobe::{channel_total, told_streams, Stream};
use crate::formats::{
    audio_encoders, audio_fits, audio_output_format, best_combination, containers, copy_container,
    law_best_is_usable, offered_audio, offered_containers, usable, Combination,
};
use crate::sanity::{fault, first_missing, Request};
use crate::settings::OutputNamingMode;
use crate::text::{all_digits, number, parsed_number};
use crate::text_laws::{spells_number, worth_upto};
use crate::video_codecs::{
    normalized_codec, offered_codecs, registered, registry, resolved_chain,
    static_chain,
};

verus! {

// ── Requests ───────────────────────────────────────────────────────────────

/// A suffix that is let pass: none, an empty one, any where names come from the source
/// files, and one with a place for a number.
pub open spec fn suffix_passes(suffix: Option<Seq<char>>, mode: Option<OutputNamingMode>) -> bool {
    ||| suffix is None
    ||| suffix->0.len() == 0
    ||| mode == Some(OutputNamingMode::SourceStems)
    ||| exists|k: int|
        #![trigger suffix->0.subrange(k, k + 6)]
        0 <= k && k + 6 <= suffix->0.len() && {
            ||| suffix->0.subrange(k, k + 6) == "{:01d}"@
            ||| suffix->0.subrange(k, k + 6) == "{:02d}"@
            ||| suffix->0.subrange(k, k + 6) == "{:03d}"@
        }
}

/// The codec is known, and ffmpeg has one of its encoders.
pub open spec fn codec_passes(codec: Seq<char>, encoders: Seq<Seq<char>>) -> bool {
    &&& registered(codec) is Some
    &&& exists|i: int|
        0 <= i < static_chain(codec).len() && encoders.contains(#[trigger] static_chain(codec)[i])
}

/// A request passes where nothing stands against it: ffmpeg is there and has the
/// container and the encoders, there are inputs and all exist, the outputs can be named
/// and their folder exists, and the codec and the audio encoder fit the container. The
/// codec does not count where video is copied.
pub proof fn law_request_passes(r: Request, has_ffmpeg: bool, encoders: Seq<Seq<char>>, formats: Seq<Seq<char>>)
    ensures
        fault(r, has_ffmpeg, encoders, formats) is None <==> {
            &&& has_ffmpeg
            &&& r.inputs.len() > 0
            &&& forall|i: int| 0 <= i < r.inputs.len() ==> (#[trigger] r.inputs[i]).exists
            &&& r.naming_mode == Some(OutputNamingMode::SourceStems) || r.prefix.len() > 0
            &&& r.output_folder.len() == 0 || r.folder_exists
            &&& formats.contains(
                if r.container == "mkv"@ {
                    "matroska"@
                } else {
                    r.container
                },
            )
            &&& suffix_passes(r.audio_suffix, r.naming_mode)
            &&& suffix_passes(r.video_suffix, r.naming_mode)
            &&& encoders.contains(r.audio_encoder)
            &&& audio_fits(r.container, r.audio_encoder)
            &&& r.copy_video || {
                &&& codec_passes(normalized_codec(r.video_codec), encoders)
                &&& registered(normalized_codec(r.video_codec))->0.containers.contains(r.container)
            }
        },
{
    lemma_none_missing(r.inputs, 0);
    lemma_suffix(r.audio_suffix, r.naming_mode);
    lemma_suffix(r.video_suffix, r.naming_mode);
    let codec = normalized_codec(r.video_codec);
    lemma_resolved(codec, encoders);
}

proof fn lemma_resolved(codec: Seq<char>, encoders: Seq<Seq<char>>)
    ensures
        resolved_chain(codec, encoders).len() > 0 <==> exists|i: int|
            0 <= i < static_chain(codec).len() && encoders.contains(
                #[trigger] static_chain(codec)[i],
            ),
{
    let all = static_chain(codec);
    let got = resolved_chain(codec, encoders);
    crate::video_codecs::law_resolved_is_available(all, encoders, all.len() as int);
    assert(all.take(all.len() as int) =~= all);
    if got.len() > 0 {
        assert(got.contains(got[0]));
        let i = choose|i: int| 0 <= i < all.len() && all[i] == got[0];
        assert(encoders.contains(all[i]));
    }
    if exists|i: int| 0 <= i < all.len() && encoders.contains(#[trigger] all[i]) {
        let i = choose|i: int| 0 <= i < all.len() && encoders.contains(#[trigger] all[i]);
        assert(all.contains(all[i]));
        assert(got.contains(all[i]));
    }
}

proof fn lemma_suffix(suffix: Option<Seq<char>>, mode: Option<OutputNamingMode>)
    ensures
        crate::sanity::suffix_taken(suffix, mode) <==> suffix_passes(suffix, mode),
{
    reveal_strlit("{:01d}");
    reveal_strlit("{:02d}");
    reveal_strlit("{:03d}");
    assert("{:01d}"@.len() == 6 && "{:02d}"@.len() == 6 && "{:03d}"@.len() == 6);
    if let Some(s) = suffix {
        if crate::settings::has_placeholder(s) {
            let p = if exists|k: int| crate::text::found_at(s, "{:01d}"@, k) {
                "{:01d}"@
            } else if exists|k: int| crate::text::found_at(s, "{:02d}"@, k) {
                "{:02d}"@
            } else {
                "{:03d}"@
            };
            let k = choose|k: int| crate::text::found_at(s, p, k);
            assert(s.subrange(k, k + 6) == p);
        }
        if exists|k: int|
            #![trigger s.subrange(k, k + 6)]
            0 <= k && k + 6 <= s.len() && {
                ||| s.subrange(k, k + 6) == "{:01d}"@
                ||| s.subrange(k, k + 6) == "{:02d}"@
                ||| s.subrange(k, k + 6) == "{:03d}"@
            } {
            let k = choose|k: int|
                #![trigger s.subrange(k, k + 6)]
                0 <= k && k + 6 <= s.len() && {
                    ||| s.subrange(k, k + 6) == "{:01d}"@
                    ||| s.subrange(k, k + 6) == "{:02d}"@
                    ||| s.subrange(k, k + 6) == "{:03d}"@
                };
            assert(crate::text::found_at(s, s.subrange(k, k + 6), k));
        }
    }
}

proof fn lemma_none_missing(inputs: Seq<crate::sanity::InputFile>, from: int)
    requires
        0 <= from <= inputs.len(),
    ensures
        first_missing(inputs, from) is None <==> forall|i: int|
            from <= i < inputs.len() ==> (#[trigger] inputs[i]).exists,
    decreases inputs.len() - from,
{
    if from < inputs.len() && inputs[from].exists {
        lemma_none_missing(inputs, from + 1);
    }
}

/// Where inputs are missing, the first of them is named.
pub proof fn law_first_missing_is_named(
    r: Request,
    encoders: Seq<Seq<char>>,
    formats: Seq<Seq<char>>,
    i: int,
)
    requires
        0 <= i < r.inputs.len(),
        !r.inputs[i].exists,
        forall|j: int| 0 <= j < i ==> (#[trigger] r.inputs[j]).exists,
    ensures
        fault(r, true, encoders, formats) == Some(
            "Input file does not exist: "@ + r.inputs[i].path@,
        ),
{
    lemma_first_missing(r.inputs, 0, i);
}

proof fn lemma_first_missing(inputs: Seq<crate::sanity::InputFile>, from: int, i: int)
    requires
        0 <= from <= i < inputs.len(),
        !inputs[i].exists,
        forall|j: int| 0 <= j < i ==> (#[trigger] inputs[j]).exists,
    ensures
        first_missing(inputs, from) == Some(inputs[i].path@),
    decreases i - from,
{
    if from < i {
        assert(inputs[from].exists);
        lemma_first_missing(inputs, from + 1, i);
    }
}

// ── Offers ─────────────────────────────────────────────────────────────────

/// The places of a list that are offered, in order: `offers` tells which.
pub open spec fn offered_places(offers: spec_fn(int) -> bool, n: int, at: Seq<int>) -> bool {
    &&& forall|k: int| 0 <= k < at.len() ==> 0 <= #[trigger] at[k] < n && offers(at[k])
    &&& forall|j: int, k: int| 0 <= j < k < at.len() ==> at[j] < at[k]
    &&& forall|i: int| 0 <= i < n && offers(i) ==> #[trigger] at.contains(i)
}

proof fn lemma_one_more(offers: spec_fn(int) -> bool, n: int, before: Seq<int>) -> (at: Seq<int>)
    requires
        0 < n,
        offered_places(offers, n - 1, before),
    ensures
        offered_places(offers, n, at),
        at == if offers(n - 1) {
            before.push(n - 1)
        } else {
            before
        },
{
    let at = if offers(n - 1) {
        before.push(n - 1)
    } else {
        before
    };
    assert forall|i: int| 0 <= i < n && offers(i) implies #[trigger] at.contains(i) by {
        if i < n - 1 {
            assert(before.contains(i));
            let k = choose|k: int| 0 <= k < before.len() && before[k] == i;
            assert(at[k] == i);
        } else {
            assert(at[before.len() as int] == i);
        }
    }
    at
}

/// The audio encoders on offer for a container are those that fit it and that ffmpeg
/// has, in their order.
pub proof fn law_offered_audio(container: Seq<char>, available: Seq<Seq<char>>, n: int) -> (at: Seq<int>)
    requires
        0 <= n,
    ensures
        offered_places(
            |i: int|
                audio_fits(container, audio_encoders()[i].0) && available.contains(
                    audio_encoders()[i].0,
                ),
            n,
            at,
        ),
        at.len() == offered_audio(container, available, n).len(),
        forall|k: int|
            0 <= k < at.len() ==> offered_audio(container, available, n)[k]
                == audio_encoders()[#[trigger] at[k]],
    decreases n,
{
    let offers = |i: int|
        audio_fits(container, audio_encoders()[i].0) && available.contains(audio_encoders()[i].0);
    if n == 0 {
        seq![]
    } else {
        let before = law_offered_audio(container, available, n - 1);
        lemma_one_more(offers, n, before)
    }
}

/// The containers on offer are those that ffmpeg has, in their order.
pub proof fn law_offered_containers(formats: Seq<Seq<char>>, n: int) -> (at: Seq<int>)
    requires
        0 <= n,
    ensures
        offered_places(
            |i: int|
                formats.contains(
                    if containers()[i].0 == "mkv"@ {
                        "matroska"@
                    } else {
                        containers()[i].0
                    },
                ),
            n,
            at,
        ),
        at.len() == offered_containers(formats, n).len(),
        forall|k: int|
            0 <= k < at.len() ==> offered_containers(formats, n)[k] == containers()[#[trigger] at[k]],
    decreases n,
{
    let offers = |i: int|
        formats.contains(
            if containers()[i].0 == "mkv"@ {
                "matroska"@
            } else {
                containers()[i].0
            },
        );
    if n == 0 {
        seq![]
    } else {
        let before = law_offered_containers(formats, n - 1);
        lemma_one_more(offers, n, before)
    }
}

/// The codecs on offer for a container are those that fit it and that have an encoder
/// that ffmpeg has, in their order.
pub proof fn law_offered_codecs(container: Seq<char>, available: Seq<Seq<char>>, n: int) -> (at: Seq<int>)
    requires
        0 <= n <= registry().len(),
    ensures
        offered_places(
            |i: int|
                registry()[i].containers.contains(container) && exists|k: int|
                    0 <= k < static_chain(registry()[i].id).len() && available.contains(
                        #[trigger] static_chain(registry()[i].id)[k],
                    ),
            n,
            at,
        ),
        at.len() == offered_codecs(container, available, n).len(),
        forall|k: int|
            0 <= k < at.len() ==> offered_codecs(container, available, n)[k] == (
                registry()[#[trigger] at[k]].id,
                registry()[at[k]].label,
            ),
    decreases n,
{
    let offers = |i: int|
        registry()[i].containers.contains(container) && exists|k: int|
            0 <= k < static_chain(registry()[i].id).len() && available.contains(
                #[trigger] static_chain(registry()[i].id)[k],
            );
    if n == 0 {
        seq![]
    } else {
        let before = law_offered_codecs(container, available, n - 1);
        lemma_resolved(registry()[n - 1].id, available);
        lemma_one_more(offers, n, before)
    }
}

/// Where any container, codec and audio encoder of the lists go together here, what is
/// chosen by default does too.
pub proof fn law_default_is_usable(
    encoders: Seq<Seq<char>>,
    formats: Seq<Seq<char>>,
    i: int,
    j: int,
    k: int,
)
    requires
        0 <= i < 4,
        0 <= j < 5,
        0 <= k < 4,
        usable(
            Combination {
                container: containers()[i].0,
                codec: registry()[j].id,
                audio: audio_encoders()[k].0,
            },
            encoders,
            formats,
        ),
    ensures
        usable(best_combination(encoders, formats), encoders, formats),
{
    let at = 20 * i + 4 * j + k;
    assert(at / 20 == i && at / 4 % 5 == j && at % 4 == k);
    law_best_is_usable(encoders, formats, at);
}

/// Copied video goes into the container that it came in, where that is on offer; MPEG
/// transport streams go into MP4, and everything else into Matroska.
pub proof fn law_copy_container(extension: Seq<char>)
    ensures
        copy_container(copy_container(extension)) == copy_container(extension),
        extension == "mov"@ || extension == "mkv"@ || extension == "mp4"@ || extension == "mxf"@
            ==> copy_container(extension) == extension,
        extension == "mts"@ || extension == "m2ts"@ || extension == "m2t"@ || extension == "ts"@
            || extension == "m4v"@ ==> copy_container(extension) == "mp4"@,
        copy_container(extension) == "mkv"@ || extension == "mov"@ || extension == "mxf"@
            || extension == "mp4"@ || extension == "mts"@ || extension == "m2ts"@ || extension
            == "m2t"@ || extension == "ts"@ || extension == "m4v"@,
{
    reveal_strlit("mp4");
    reveal_strlit("m4v");
    reveal_strlit("mts");
    reveal_strlit("m2ts");
    reveal_strlit("m2t");
    reveal_strlit("ts");
    reveal_strlit("mov");
    reveal_strlit("mxf");
    reveal_strlit("mkv");
    assert("mp4"@[1] == 'p' && "m4v"@[1] == '4' && "mts"@[1] == 't' && "m2ts"@[1] == '2');
    assert("m2t"@[1] == '2' && "ts"@[1] == 's' && "mov"@[1] == 'o' && "mxf"@[1] == 'x');
    assert("mkv"@[1] == 'k');
}

/// Audio is written into files of its own kind: AAC and Opus streams as they are, and
/// everything else as WAV.
pub proof fn law_audio_files(encoder: Seq<char>)
    ensures
        ({
            let (format, extension) = audio_output_format(encoder);
            &&& encoder == "aac"@ ==> format == "adts"@ && extension == "aac"@
            &&& encoder == "libopus"@ ==> format == "opus"@ && extension == "opus"@
            &&& encoder != "aac"@ && encoder != "libopus"@ ==> format == "wav"@ && extension
                == "wav"@
        }),
{
    reveal_strlit("aac");
    reveal_strlit("libopus");
    assert("aac"@[0] == 'a' && "libopus"@[0] == 'l');
}

/// Only what is listed fits: an audio encoder of the list in a container of the list.
/// PCM and AAC fit all of them.
pub proof fn law_audio_in_containers(container: Seq<char>, encoder: Seq<char>)
    ensures
        ({
            let known = container == "mov"@ || container == "mkv"@ || container == "mp4"@
                || container == "mxf"@;
            let plain = encoder == "pcm_s24le"@ || encoder == "pcm_s16le"@ || encoder == "aac"@;
            &&& known && plain ==> audio_fits(container, encoder)
            &&& audio_fits(container, encoder) ==> known && (plain || encoder == "libopus"@)
        }),
{
}

// ── Streams ────────────────────────────────────────────────────────────────

/// A number is read from its digits; a plus sign may stand before them. What is greater
/// than the limit, or no number, is not read.
pub proof fn law_numbers_are_read(s: Seq<char>, n: int, max: nat)
    requires
        spells_number(s, n),
    ensures
        0 <= n <= max ==> parsed_number(s, max) == Some(n as nat),
        0 <= n <= max ==> parsed_number(seq!['+'] + s, max) == Some(n as nat),
        n > max ==> parsed_number(s, max) is None,
{
    lemma_worth(s, s.len() as int);
    assert(s.take(s.len() as int) =~= s);
    assert(all_digits(s)) by {
        assert forall|i: int| 0 <= i < s.len() implies '0' <= #[trigger] s[i] <= '9' by {
            assert(48 <= s[i] as int <= 57);
        }
    }
    assert(48 <= s[0] as int <= 57);
    let t = seq!['+'] + s;
    assert(t.skip(1) =~= s);
}

/// A text is digits, with or without a plus sign before them.
pub open spec fn is_number(s: Seq<char>) -> bool {
    let digits = if s.len() > 0 && s[0] == '+' {
        s.skip(1)
    } else {
        s
    };
    digits.len() > 0 && forall|i: int|
        0 <= i < digits.len() ==> 48 <= (#[trigger] digits[i]) as int <= 57
}

proof fn lemma_no_number(s: Seq<char>, max: nat)
    requires
        !is_number(s),
    ensures
        parsed_number(s, max) is None,
{
    let digits = if s.len() > 0 && s[0] == '+' {
        s.skip(1)
    } else {
        s
    };
    if all_digits(digits) {
        assert forall|i: int| 0 <= i < digits.len() implies 48 <= (#[trigger] digits[i]) as int
            <= 57 by {
            assert('0' <= digits[i] <= '9');
        }
    }
}

proof fn lemma_worth(s: Seq<char>, n: int)
    requires
        0 <= n <= s.len(),
        forall|i: int| 0 <= i < n ==> 48 <= (#[trigger] s[i]) as int <= 57,
    ensures
        number(s.take(n)) == worth_upto(s, n),
    decreases n,
{
    if n > 0 {
        lemma_worth(s, n - 1);
        assert(s.take(n).drop_last() =~= s.take(n - 1));
        assert(s.take(n).last() == s[n - 1]);
    }
}

/// Each record of ffprobe gives the stream at its place: number and channels as they
/// are told, zero where they are not, the codec or `unknown`, and the sample rate that
/// its digits spell, 48 kHz where they spell none.
pub proof fn law_streams_are_read(
    records: Seq<Seq<(Option<u64>, Option<Seq<char>>, Option<u64>)>>,
    path: Seq<char>,
    i: int,
    rate: int,
)
    requires
        0 <= i < records.len(),
    ensures
        ({
            let r = records[i];
            let told = told_streams(Ok(Some(records)), path);
            &&& told is Ok
            &&& told->Ok_0.len() == records.len()
            &&& r[0].0 matches Some(n) ==> told->Ok_0[i].index == n as usize
            &&& r[0].0 is None ==> told->Ok_0[i].index == 0
            &&& r[1].0 matches Some(n) ==> told->Ok_0[i].channels == n as usize
            &&& r[1].0 is None ==> told->Ok_0[i].channels == 0
            &&& r[2].1 matches Some(t) ==> told->Ok_0[i].codec == t
            &&& r[2].1 is None ==> told->Ok_0[i].codec == "unknown"@
            &&& r[3].1 matches Some(t) ==> (spells_number(t, rate) && 0 <= rate <= u32::MAX
                ==> told->Ok_0[i].rate == rate)
            &&& r[3].1 matches Some(t) ==> (!is_number(t) ==> told->Ok_0[i].rate == 48000)
            &&& r[3].1 is None ==> told->Ok_0[i].rate == 48000
        }),
{
    if let Some(t) = records[i][3].1 {
        if !is_number(t) {
            lemma_no_number(t, u32::MAX as nat);
        }
    }
    if let Some(t) = records[i][3].1 {
        if spells_number(t, rate) && 0 <= rate <= u32::MAX {
            law_numbers_are_read(t, rate, u32::MAX as nat);
        }
    }
}

/// The channels of the first `n` streams.
pub open spec fn channels_counted(streams: Seq<Stream>, n: int) -> int
    decreases n,
{
    if n <= 0 {
        0
    } else {
        channels_counted(streams, n - 1) + streams[n - 1].channels
    }
}

/// The channels of a file are those of all its streams.
pub proof fn law_channels_add_up(streams: Seq<Stream>, n: int)
    requires
        0 <= n <= streams.len(),
        channels_counted(streams, n) <= usize::MAX,
    ensures
        channel_total(streams, n) == channels_counted(streams, n),
        channels_counted(streams, n) >= 0,
    decreases n,
{
    if n > 0 {
        lemma_counted(streams, n - 1);
        law_channels_add_up(streams, n - 1);
    }
}

proof fn lemma_counted(streams: Seq<Stream>, n: int)
    ensures
        channels_counted(streams, n) >= 0,
    decreases n,
{
    if n > 0 {
        lemma_counted(streams, n - 1);
    }
}

} // verus!
