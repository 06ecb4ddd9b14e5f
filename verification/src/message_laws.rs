//! What is told to the user: numbers in messages, the course of a conversion, what
//! stands in its way, and the outputs that it will have.

use vstd::prelude::*;

use crate::conversion::{
    closing_text, planned_jobs, planned_steps, shown_command, shown_share,
    Machine,
};
use crate::fallback::{device_for, Device};
use crate::ffprobe::{tail_of, VideoAudioProbe};
use crate::file_pattern::channel_number;
use crate::ltc_decoder::{LtcDetectionResult, Share};
use crate::messages::{
    chunk_text, percent_text, rate_hundredths, rate_short, stream_list, summary_text,
};
use crate::offer_laws::law_numbers_are_read;
use crate::outputs::{all_paths, collision, collisions, paths_of, planned_paths, track_paths};
use crate::plan_laws::says_at;
use crate::planner::{file_steps, layouts_of, Layout};
use crate::readiness::{message_parts, requests, Blocker};
use crate::settings::{ConversionPipeline, ConverterSettings, OutputNamingMode, RecordingType};
use crate::text::{decimal, joined, padded2, padded3, trimmed};
use crate::text_laws::{
    law_decimal_spells, law_joined_holds_parts, law_padded_spells, spells_number,
};
use crate::timecode::FrameRate;
use crate::video_codecs::{
    candidate_named, codec_owning, normalized_codec, registry, CandidateModel, CodecModel,
};

verus! {

// ── Numbers ────────────────────────────────────────────────────────────────

/// `n` is the whole number nearest to `num / den`, the upper one of two.
pub open spec fn is_nearest(n: int, num: int, den: int) -> bool {
    2 * (n * den) <= 2 * num + den < 2 * (n * den) + 2 * den
}

proof fn lemma_nearest(num: int, den: int)
    requires
        den > 0,
        num >= 0,
    ensures
        is_nearest((2 * num + den) / (2 * den), num, den),
        (2 * num + den) / (2 * den) >= 0,
{
    let x = 2 * num + den;
    let d = 2 * den;
    let n = x / d;
    vstd::arithmetic::div_mod::lemma_fundamental_div_mod(x, d);
    vstd::arithmetic::div_mod::lemma_mod_bound(x, d);
    assert(2 * (n * den) <= x < 2 * (n * den) + 2 * den) by (nonlinear_arith)
        requires
            x == d * n + x % d,
            0 <= x % d < d,
            d == 2 * den,
    ;
    assert(n >= 0) by (nonlinear_arith)
        requires
            x < 2 * (n * den) + 2 * den,
            x >= 0,
            den > 0,
    ;
}

/// A text is a whole part, a point and so many decimals, which tell `n` in units of the
/// last of them.
pub open spec fn tells_decimals(text: Seq<char>, places: int, unit: int, n: int) -> bool {
    exists|whole: Seq<char>, rest: Seq<char>, w: int, r: int|
        {
            &&& text == whole + "."@ + rest
            &&& #[trigger] spells_number(whole, w)
            &&& #[trigger] spells_number(rest, r)
            &&& rest.len() == places
            &&& n == unit * w + r
        }
}

/// Frame rates are told to the nearest hundredth.
pub proof fn law_rate_in_hundredths(fps: FrameRate)
    requires
        fps.den > 0,
    ensures
        exists|n: int| #[trigger]
            tells_decimals(rate_hundredths(fps), 2, 100, n) && is_nearest(
                n,
                100 * fps.num,
                fps.den as int,
            ),
{
    lemma_nearest(100 * fps.num, fps.den as int);
    let n = ((200 * fps.num + fps.den) / (2 * fps.den as int)) as nat;
    law_decimal_spells(n / 100);
    law_padded_spells(n % 100);
    assert(spells_number(decimal(n / 100), (n / 100) as int) && spells_number(
        padded2(n % 100),
        (n % 100) as int,
    ));
    assert(tells_decimals(rate_hundredths(fps), 2, 100, n as int));
}

/// A text tells thousandths without zeros at its end: a whole number, or one with one,
/// two or three decimals.
pub open spec fn tells_shortly(text: Seq<char>, n: int) -> bool {
    ||| n % 1000 == 0 && spells_number(text, n / 1000)
    ||| n % 100 == 0 && n % 1000 != 0 && tells_decimals(text, 1, 10, n / 100)
    ||| n % 10 == 0 && n % 100 != 0 && tells_decimals(text, 2, 100, n / 10)
    ||| n % 10 != 0 && tells_decimals(text, 3, 1000, n)
}

/// In a summary a frame rate is told to the nearest thousandth, without needless zeros.
pub proof fn law_short_rate(fps: FrameRate)
    requires
        fps.den > 0,
    ensures
        exists|n: int| #[trigger]
            tells_shortly(rate_short(fps), n) && is_nearest(n, 1000 * fps.num, fps.den as int),
{
    lemma_nearest(1000 * fps.num, fps.den as int);
    let n = ((2000 * fps.num + fps.den) / (2 * fps.den as int)) as nat;
    let w = n / 1000;
    let rest = n % 1000;
    law_decimal_spells(w);
    assert(spells_number(decimal(w), w as int));
    if rest == 0 {
    } else if rest % 100 == 0 {
        let d = rest / 100;
        law_decimal_spells(d);
        assert(d < 10);
        assert(decimal(d).len() == 1);
        assert(spells_number(decimal(w), w as int) && spells_number(decimal(d), d as int));
        assert(tells_decimals(rate_short(fps), 1, 10, (n / 100) as int));
    } else if rest % 10 == 0 {
        let d = rest / 10;
        law_padded_spells(d);
        assert(spells_number(decimal(w), w as int) && spells_number(padded2(d), d as int));
        assert(tells_decimals(rate_short(fps), 2, 100, (n / 10) as int));
    } else {
        law_padded_spells(rest);
        assert(spells_number(decimal(w), w as int) && spells_number(padded3(rest), rest as int));
        assert(tells_decimals(rate_short(fps), 3, 1000, n as int));
    }
    assert(tells_shortly(rate_short(fps), n as int));
}

/// A share is told in percent, to the nearest tenth.
pub proof fn law_percent(share: Share)
    requires
        share.den > 0,
        share.num <= share.den * 100,
    ensures
        exists|n: int| #[trigger]
            tells_decimals(percent_text(share), 1, 10, n) && is_nearest(
                n,
                1000 * share.num,
                share.den as int,
            ),
{
    let n = ((2000 * share.num + share.den) / (2 * share.den as int)) as nat;
    let num = share.num as int;
    let den = share.den as int;
    lemma_nearest(1000 * num, den);
    assert(n <= 100_001) by (nonlinear_arith)
        requires
            2 * (n * den) <= 2 * (1000 * num) + den,
            num <= den * 100,
            den > 0,
    ;
    law_decimal_spells(n / 10);
    law_decimal_spells(n % 10);
    assert(decimal(n % 10).len() == 1);
    assert(spells_number(decimal(n / 10), (n / 10) as int) && spells_number(
        decimal(n % 10),
        (n % 10) as int,
    ));
    assert(tells_decimals(percent_text(share), 1, 10, n as int));
}

/// The parts of a summary: the frames, the confidence and the rate.
pub open spec fn sums_up(text: Seq<char>, frames: int, confidence: Seq<char>, rate: Seq<char>, drop_frame: bool) -> bool {
    exists|n: Seq<char>| #[trigger]
        spells_number(n, frames) && text == "LTC decode: "@ + n + " frames (confidence "@
            + confidence + "%, "@ + rate + (if drop_frame {
            " fps DF)"@
        } else {
            " fps)"@
        })
}

/// The summary of a report tells how many frames were read, at which confidence and
/// rate, and whether frames are dropped.
pub proof fn law_summary(r: LtcDetectionResult)
    ensures
        sums_up(
            summary_text(r),
            r.valid_frames as int,
            percent_text(r.avg_confidence),
            rate_short(r.detected_fps),
            r.drop_frame,
        ),
{
    law_decimal_spells(r.valid_frames as nat);
    assert(spells_number(decimal(r.valid_frames as nat), r.valid_frames as int));
}

/// The chunks that are done are told with their total, and never more of them.
pub proof fn law_chunk_text(done: nat, total: nat)
    ensures
        exists|a: Seq<char>, b: Seq<char>, n: int|
            {
                &&& #[trigger] spells_number(a, n)
                &&& #[trigger] spells_number(b, total as int)
                &&& chunk_text(done, total) == "Chunk "@ + a + "/"@ + b
                &&& n <= total
                &&& done <= total ==> n == done
                &&& done > total ==> n == total
            },
{
    let n = if done < total {
        done
    } else {
        total
    };
    law_decimal_spells(n);
    law_decimal_spells(total);
    assert(spells_number(decimal(n), n as int) && spells_number(decimal(total), total as int));
}

/// The numbers of the audio streams.
pub open spec fn stream_numbers(probe: VideoAudioProbe, n: int) -> Seq<Seq<char>> {
    Seq::new(n as nat, |i: int| decimal(probe.streams@[i].stream_index as nat))
}

proof fn lemma_stream_list(probe: VideoAudioProbe, n: int)
    requires
        0 <= n <= probe.streams@.len(),
    ensures
        stream_list(probe, n) == joined(stream_numbers(probe, n), ", "@),
    decreases n,
{
    if n == 1 {
        assert(stream_numbers(probe, 1)[0] == decimal(probe.streams@[0].stream_index as nat));
    } else if n > 1 {
        lemma_stream_list(probe, n - 1);
        assert(stream_numbers(probe, n).drop_last() =~= stream_numbers(probe, n - 1));
    }
}

/// A list of streams names the number of every one of them.
pub proof fn law_streams_are_named(probe: VideoAudioProbe, i: int)
    requires
        0 <= i < probe.streams@.len(),
    ensures
        exists|n: Seq<char>, at: int|
            spells_number(n, probe.streams@[i].stream_index as int) && #[trigger] says_at(
                stream_list(probe, probe.streams@.len() as int),
                n,
                at,
            ),
{
    let count = probe.streams@.len() as int;
    lemma_stream_list(probe, count);
    let parts = stream_numbers(probe, count);
    law_joined_holds_parts(parts, ", "@, i);
    let at = crate::text_laws::part_offset(parts, ", "@.len(), i);
    law_decimal_spells(probe.streams@[i].stream_index as nat);
    assert(parts[i] == decimal(probe.streams@[i].stream_index as nat));
    assert(says_at(stream_list(probe, count), parts[i], at));
}

/// Of what a command printed its end is told, without white space round it; where
/// something is cut off, that is marked.
pub proof fn law_tail(s: Seq<char>, max: nat)
    ensures
        trimmed(s).len() <= max ==> tail_of(s, max) == trimmed(s),
        trimmed(s).len() > max ==> {
            &&& tail_of(s, max).len() == max + "…"@.len()
            &&& "…"@.is_prefix_of(tail_of(s, max))
            &&& forall|k: int|
                1 <= k <= max ==> #[trigger] tail_of(s, max)[tail_of(s, max).len() - k] == trimmed(
                    s,
                )[trimmed(s).len() - k]
        },
{
    let text = trimmed(s);
    if text.len() > max {
        let out = tail_of(s, max);
        assert(out.subrange(0, "…"@.len() as int) =~= "…"@);
    }
}

/// The channel in a name is the number that its digits spell.
pub proof fn law_channel_number(digits: Seq<char>, n: int)
    requires
        spells_number(digits, n),
    ensures
        0 <= n <= u32::MAX ==> channel_number(Some(Some(digits))) == n,
        n > u32::MAX ==> channel_number(Some(Some(digits))) == u32::MAX,
        channel_number(None) == u32::MAX,
{
    law_numbers_are_read(digits, n, u32::MAX as nat);
}

// ── The course of a conversion ─────────────────────────────────────────────

/// With a job under way, what is shown is what was reached before and the share of the
/// job that is done, rounded down; never more than the whole.
pub proof fn law_shown_progress(done: nat, step: nat, weight: nat)
    requires
        step <= 1_000_000,
    ensures
        ({
            let shown = shown_share(done, step, weight) as int;
            let exact = done * 1_000_000 + step * weight;
            &&& shown <= 1_000_000
            &&& shown < 1_000_000 ==> shown * 1_000_000 <= exact < (shown + 1) * 1_000_000
            &&& shown == 1_000_000 ==> exact >= 1_000_000 * 1_000_000
            &&& step == 0 && done <= 1_000_000 ==> shown == done
            &&& step == 1_000_000 && done + weight <= 1_000_000 ==> shown == done + weight
        }),
{
    let x = step * weight;
    assert(x >= 0) by (nonlinear_arith)
        requires
            x == step * weight,
    ;
    if step == 0 {
        assert(x == 0) by (nonlinear_arith)
            requires
                x == step * weight,
                step == 0,
        ;
    }
    if step == 1_000_000 {
        assert(x == 1_000_000 * weight);
    }
}

/// A conversion that is done says so behind its log, and tells that video was copied,
/// or which encoder worked.
pub proof fn law_closing_text(m: Machine)
    ensures
        m.log.is_prefix_of(closing_text(m)),
        m.copies ==> closing_text(m) == m.log
            + "\n\n--- CONVERSION COMPLETED SUCCESSFULLY ---"@
            + "\nVideo stream: copied (no re-encode)"@,
        !m.copies && m.fallback.resolved is Some ==> closing_text(m) == m.log
            + "\n\n--- CONVERSION COMPLETED SUCCESSFULLY ---"@ + "\nVideo encoder used: "@
            + m.fallback.resolved->0,
        !m.copies && m.fallback.resolved is None ==> closing_text(m) == m.log
            + "\n\n--- CONVERSION COMPLETED SUCCESSFULLY ---"@,
{
    assert(closing_text(m).subrange(0, m.log.len() as int) =~= m.log);
    let end = "\n\n--- CONVERSION COMPLETED SUCCESSFULLY ---"@;
    assert(m.log + end + Seq::<char>::empty() =~= m.log + end);
    if !m.copies && m.fallback.resolved is Some {
        let e = m.fallback.resolved->0;
        assert(m.log + end + ("\nVideo encoder used: "@ + e) =~= m.log + end
            + "\nVideo encoder used: "@ + e);
    }
}

/// A command is shown with all its words.
pub proof fn law_command_is_shown(label: Seq<char>, args: Seq<Seq<char>>, i: int)
    requires
        0 <= i < args.len(),
    ensures
        exists|at: int| #[trigger] says_at(shown_command(label, args), args[i], at),
        label.is_prefix_of(shown_command(label, args)),
{
    let sep = " \\\n  "@;
    law_joined_holds_parts(args, sep, i);
    let all = joined(args, sep);
    let text = shown_command(label, args);
    let head = label + " ffmpeg \\\n  "@;
    let at = crate::text_laws::part_offset(args, sep.len(), i);
    assert(text == head + all);
    let place = head.len() + at;
    assert(text.subrange(place, place + args[i].len()) =~= all.subrange(at, at + args[i].len()));
    assert(says_at(text, args[i], place));
    assert(text.subrange(0, label.len() as int) =~= label);
}

/// A device is given to an encoder that takes its frames from one of that kind, where
/// it is known; to any other none is.
pub proof fn law_device_of_an_encoder(encoder: Seq<char>, vaapi: Option<Seq<char>>, vulkan: bool)
    ensures
        match device_for(encoder, vaapi, vulkan) {
            Some(Device::Vaapi(path)) => vaapi == Some(path) && "_vaapi"@.is_suffix_of(encoder),
            Some(Device::Vulkan) => vulkan && "_vulkan"@.is_suffix_of(encoder),
            None => {
                &&& "_vaapi"@.is_suffix_of(encoder) ==> vaapi is None
                &&& "_vulkan"@.is_suffix_of(encoder) && !"_vaapi"@.is_suffix_of(encoder)
                    ==> !vulkan
            },
        },
{
}

// ── What stands in the way ─────────────────────────────────────────────────

proof fn lemma_requests(list: Seq<Blocker>, n: int, i: int)
    requires
        0 <= i < n <= list.len(),
        crate::readiness::request_for(list[i]) is Some,
    ensures
        exists|k: int|
            0 <= k < requests(list, n).len() && #[trigger] requests(list, n)[k]
                == crate::readiness::request_for(list[i])->0,
    decreases n,
{
    let before = requests(list, n - 1);
    let now = requests(list, n);
    if i < n - 1 {
        lemma_requests(list, n - 1, i);
        let k = choose|k: int|
            0 <= k < before.len() && #[trigger] before[k] == crate::readiness::request_for(
                list[i],
            )->0;
        assert(now[k] == before[k]);
    } else {
        assert(now[before.len() as int] == crate::readiness::request_for(list[i])->0);
    }
}

/// What the user can do about something that stands in the way is asked for.
pub proof fn law_requests_are_told(list: Seq<Blocker>, i: int, text: Seq<char>)
    requires
        0 <= i < list.len(),
        list[i] is NoRecording ==> text == "select a recording"@,
        list[i] is NoPrefix ==> text == "set a filename prefix"@,
        list[i] is NoOutputFolder ==> text == "choose an output folder"@,
        list[i] is NoRecording || list[i] is NoPrefix || list[i] is NoOutputFolder,
    ensures
        exists|at: int| message_parts(list).len() > 0 && #[trigger] says_at(
            message_parts(list)[0],
            text,
            at,
        ),
{
    let n = list.len() as int;
    lemma_requests(list, n, i);
    let asked = requests(list, n);
    let k = choose|k: int| 0 <= k < asked.len() && #[trigger] asked[k] == text;
    law_joined_holds_parts(asked, ", "@, k);
    let all = joined(asked, ", "@);
    let head = "To convert, please "@;
    let at = crate::text_laws::part_offset(asked, ", "@.len(), k);
    let part = head + all + "."@;
    assert(message_parts(list)[0] == part);
    let place = head.len() + at;
    assert(part.subrange(place, place + text.len()) =~= all.subrange(at, at + text.len()));
    assert(says_at(message_parts(list)[0], text, place));
}

/// Every collision is told, in the order of the inputs, and nothing else.
pub proof fn law_collisions_are_told(
    inputs: Seq<Seq<char>>,
    folder: Seq<char>,
    prefix: Seq<char>,
    mode: OutputNamingMode,
    template: Seq<char>,
    container: Seq<char>,
    copy: bool,
    n: int,
    text: Seq<char>,
)
    requires
        0 <= n <= inputs.len(),
    ensures
        collisions(inputs, folder, prefix, mode, template, container, copy, n).contains(text)
            <==> exists|i: int|
            0 <= i < n && #[trigger] collision(
                inputs,
                folder,
                prefix,
                mode,
                template,
                container,
                copy,
                i,
            ) == Some(text),
    decreases n,
{
    if n > 0 {
        law_collisions_are_told(
            inputs,
            folder,
            prefix,
            mode,
            template,
            container,
            copy,
            n - 1,
            text,
        );
        let before = collisions(inputs, folder, prefix, mode, template, container, copy, n - 1);
        let now = collisions(inputs, folder, prefix, mode, template, container, copy, n);
        let own = collision(inputs, folder, prefix, mode, template, container, copy, n - 1);
        if before.contains(text) {
            let k = choose|k: int| 0 <= k < before.len() && before[k] == text;
            assert(now[k] == text);
        }
        if own == Some(text) {
            assert(now[before.len() as int] == text);
        }
        if now.contains(text) && !before.contains(text) {
            let k = choose|k: int| 0 <= k < now.len() && now[k] == text;
            if k < before.len() {
                assert(before[k] == text);
            }
            assert(own == Some(text));
        }
    }
}

// ── Outputs ────────────────────────────────────────────────────────────────

proof fn lemma_same_outputs(s: ConverterSettings, clips: Seq<Option<Layout>>, extension: Seq<char>, n: int)
    requires
        0 <= n <= clips.len(),
        forall|i: int| 0 <= i < clips.len() ==> (#[trigger] clips[i]) is Some,
    ensures
        planned_paths(s, clips, extension, n) == paths_of(planned_steps(s, clips, n)),
    decreases n,
{
    if n > 0 {
        lemma_same_outputs(s, clips, extension, n - 1);
        assert(clips[n - 1] is Some);
        let a = planned_steps(s, clips, n - 1);
        let b = file_steps(s, s.container@, (n - 1) as usize, clips[n - 1]->0.channels);
        assert(paths_of(a + b) =~= paths_of(a) + paths_of(b));
    } else {
        assert(paths_of(planned_steps(s, clips, 0)) =~= seq![]);
    }
}

/// The paths that are told for videos that could be read are those that the jobs write,
/// in their order.
pub proof fn law_told_paths_are_written(
    s: ConverterSettings,
    probes: Seq<Option<VideoAudioProbe>>,
    extension: Seq<char>,
    sample_rate: u32,
)
    requires
        s.pipeline is VideoPassthrough,
        !(s.concat_audio && s.split_tracks && s.recording_type
            == RecordingType::VideoClipSequence),
        forall|i: int| 0 <= i < probes.len() ==> (#[trigger] probes[i]) is Some,
    ensures
        ({
            let told = all_paths(s, 0, 0, extension, layouts_of(probes));
            let jobs = planned_jobs(s, probes, sample_rate).0;
            &&& told.len() == jobs.len()
            &&& forall|k: int| 0 <= k < jobs.len() ==> (#[trigger] jobs[k]).output == told[k]
        }),
{
    let clips = layouts_of(probes);
    assert forall|i: int| 0 <= i < clips.len() implies (#[trigger] clips[i]) is Some by {
        assert(probes[i] is Some);
    }
    lemma_same_outputs(s, clips, extension, clips.len() as int);
}

/// The paths that are told for single tracks are those that the jobs write.
pub proof fn law_told_tracks_are_written(
    s: ConverterSettings,
    probes: Seq<Option<VideoAudioProbe>>,
    sample_rate: u32,
)
    requires
        s.pipeline == (ConversionPipeline::AudioOnly { generate_synthetic_video: false }),
        s.split_tracks,
    ensures
        ({
            let extension = crate::formats::audio_output_format(s.audio_encoder@).1;
            let told = all_paths(s, s.channel_map@.len(), 0, extension, layouts_of(probes));
            let jobs = planned_jobs(s, probes, sample_rate).0;
            &&& told.len() == jobs.len()
            &&& forall|k: int| 0 <= k < jobs.len() ==> (#[trigger] jobs[k]).output == told[k]
        }),
{
    let extension = crate::formats::audio_output_format(s.audio_encoder@).1;
    lemma_told_tracks(s, sample_rate, extension, s.channel_map@.len() as int);
}

proof fn lemma_told_tracks(s: ConverterSettings, sample_rate: u32, extension: Seq<char>, n: int)
    requires
        0 <= n <= s.channel_map@.len(),
        extension == crate::formats::audio_output_format(s.audio_encoder@).1,
    ensures
        ({
            let told = track_paths(s, extension, n);
            let jobs = crate::conversion::track_jobs(s, sample_rate, n);
            &&& told.len() == jobs.len()
            &&& forall|k: int| 0 <= k < jobs.len() ==> (#[trigger] jobs[k]).output == told[k]
        }),
    decreases n,
{
    if n > 0 {
        lemma_told_tracks(s, sample_rate, extension, n - 1);
        let before = crate::conversion::track_jobs(s, sample_rate, n - 1);
        let told = track_paths(s, extension, n);
        let jobs = crate::conversion::track_jobs(s, sample_rate, n);
        if s.drop_ltc_track && n - 1 == s.ltc_track_channel_index {
            assert(jobs == before);
        } else {
            let old_told = track_paths(s, extension, n - 1);
            assert(told.len() == old_told.len() + 1);
            assert(jobs.len() == before.len() + 1);
            assert forall|k: int| 0 <= k < jobs.len() implies (#[trigger] jobs[k]).output
                == told[k] by {
                if k < before.len() {
                    assert(jobs[k] == before[k]);
                    assert(told[k] == old_told[k]);
                }
            }
        }
    }
}

// ── Codecs ─────────────────────────────────────────────────────────────────

/// A codec goes by this name: it is its id, or that of one of its encoders.
pub open spec fn goes_by(codec: CodecModel, name: Seq<char>) -> bool {
    codec.id == name || exists|k: int|
        0 <= k < codec.candidates.len() && (#[trigger] codec.candidates[k]).name == name
}

proof fn lemma_candidate_named(candidates: Seq<CandidateModel>, name: Seq<char>)
    ensures
        candidate_named(candidates, name) is Some <==> exists|k: int|
            0 <= k < candidates.len() && (#[trigger] candidates[k]).name == name,
    decreases candidates.len(),
{
    if candidates.len() > 0 && candidates[0].name != name {
        let rest = candidates.drop_first();
        lemma_candidate_named(rest, name);
        if exists|k: int| 0 <= k < rest.len() && (#[trigger] rest[k]).name == name {
            let k = choose|k: int| 0 <= k < rest.len() && (#[trigger] rest[k]).name == name;
            assert(candidates[k + 1].name == name);
        }
        if exists|k: int| 0 <= k < candidates.len() && (#[trigger] candidates[k]).name == name {
            let k = choose|k: int|
                0 <= k < candidates.len() && (#[trigger] candidates[k]).name == name;
            assert(rest[k - 1].name == name);
        }
    } else if candidates.len() > 0 {
        assert(candidates[0].name == name);
    }
}

proof fn lemma_owner(codecs: Seq<CodecModel>, name: Seq<char>)
    ensures
        match codec_owning(codecs, name) {
            Some(c) => goes_by(c, name) && codecs.contains(c),
            None => forall|i: int| 0 <= i < codecs.len() ==> !goes_by(#[trigger] codecs[i], name),
        },
    decreases codecs.len(),
{
    if codecs.len() > 0 {
        lemma_candidate_named(codecs[0].candidates, name);
        if goes_by(codecs[0], name) {
            assert(codecs.contains(codecs[0]));
        } else {
            let rest = codecs.drop_first();
            lemma_owner(rest, name);
            if let Some(c) = codec_owning(codecs, name) {
                let k = choose|k: int| 0 <= k < rest.len() && rest[k] == c;
                assert(codecs[k + 1] == c);
            } else {
                assert forall|i: int| 0 <= i < codecs.len() implies !goes_by(
                    #[trigger] codecs[i],
                    name,
                ) by {
                    if i > 0 {
                        assert(codecs[i] == rest[i - 1]);
                    }
                }
            }
        }
    }
}

/// A name of a codec that is known stands for that codec. Another one stands for H.264,
/// H.265, AV1 or ProRes where it begins as their encoders do, and else for itself.
pub proof fn law_names_of_codecs(name: Seq<char>)
    ensures
        if exists|i: int| 0 <= i < registry().len() && goes_by(#[trigger] registry()[i], name) {
            exists|c: CodecModel| #[trigger]
                registry().contains(c) && goes_by(c, name) && normalized_codec(name) == c.id
        } else if "h264_"@.is_prefix_of(name) {
            normalized_codec(name) == "h264"@
        } else if "hevc_"@.is_prefix_of(name) {
            normalized_codec(name) == "h265"@
        } else if "av1_"@.is_prefix_of(name) {
            normalized_codec(name) == "av1"@
        } else if "prores"@.is_prefix_of(name) {
            normalized_codec(name) == "prores"@
        } else {
            normalized_codec(name) == name
        },
{
    lemma_owner(registry(), name);
    if let Some(c) = codec_owning(registry(), name) {
        assert(registry().contains(c));
        let k = choose|k: int| 0 <= k < registry().len() && registry()[k] == c;
        assert(goes_by(registry()[k], name));
    }
}

} // verus!
