//! What running a conversion promises: which jobs there are, in which order, which
//! encoder each tries, and how far it has come.

use vstd::prelude::*;

use crate::conversion::{
    after_command, awaiting, chain_for, choose_next, planned_jobs, planned_steps,
    track_jobs, Choice, JobModel, Machine, TaskModel,
};
use crate::fallback::{first_ready, passed_over, untried, Fallback};
use crate::ffmpeg_args::{audio_args, split_track_args, step_args};
use crate::ffprobe::{AudioStreamInfo, VideoAudioProbe};
use crate::formats::audio_output_format;
use crate::plan_laws::written_tracks;
use crate::planner::{channels_of, concat_plan, file_steps, layouts_of, Step};
use crate::progress::{Run, RunEnd};
use crate::settings::{ConversionPipeline, ConverterSettings, RecordingType};
use crate::text::inserted;
use crate::text_laws::{law_decimal_spells, spells_number};
use crate::video_codecs::{normalized_codec, static_chain};

verus! {

// ── Jobs ───────────────────────────────────────────────────────────────────

/// A label tells the number of a job and how many there are.
pub open spec fn counts(label: Seq<char>, number: int, total: int) -> bool {
    exists|a: Seq<char>, b: Seq<char>|
        #![trigger spells_number(a, number), spells_number(b, total)]
        spells_number(a, number) && spells_number(b, total) && label == "["@ + a + "/"@ + b + "]"@
}

proof fn lemma_label(number: nat, total: nat)
    ensures
        counts(crate::progress::step_label(number, total), number as int, total as int),
{
    law_decimal_spells(number);
    law_decimal_spells(total);
    let a = crate::text::decimal(number);
    let b = crate::text::decimal(total);
    assert(spells_number(a, number as int) && spells_number(b, total as int));
}

/// The job that writes track `track` of the channel map.
pub open spec fn writes_track(s: ConverterSettings, sample_rate: u32, job: JobModel, track: int) -> bool {
    let (format, extension) = audio_output_format(s.audio_encoder@);
    &&& job.output == s.path_for("audio"@, 0, (track + 1) as nat, extension)
    &&& forall|input: int|
        #![trigger s.channel_map@[input]]
        0 <= input < s.channel_map@.len() && s.channel_map@[input] == track && (forall|k: int|
            0 <= k < input ==> #[trigger] s.channel_map@[k] != track) ==> job.task
            == TaskModel::Fixed(
            split_track_args(
                s,
                format,
                track,
                if input < s.timecode_meta_per_file@.len() {
                    s.timecode_meta_per_file@[input]
                } else {
                    None
                },
                sample_rate,
            ),
        )
    &&& counts(job.label, 1, s.channel_map@.len() as int)
    &&& job.weight == 1_000_000nat / s.channel_map@.len()
}

proof fn lemma_track_jobs(s: ConverterSettings, sample_rate: u32, n: int) -> (at: Seq<int>)
    requires
        0 <= n <= s.channel_map@.len(),
    ensures
        written_tracks(s, n, at),
        at.len() == track_jobs(s, sample_rate, n).len(),
        forall|k: int|
            0 <= k < at.len() ==> writes_track(
                s,
                sample_rate,
                track_jobs(s, sample_rate, n)[k],
                #[trigger] at[k],
            ),
    decreases n,
{
    if n == 0 {
        seq![]
    } else {
        let before = lemma_track_jobs(s, sample_rate, n - 1);
        if s.drop_ltc_track && n - 1 == s.ltc_track_channel_index {
            before
        } else {
            let at = before.push(n - 1);
            let old_jobs = track_jobs(s, sample_rate, n - 1);
            let jobs = track_jobs(s, sample_rate, n);
            lemma_label(1, s.channel_map@.len());
            assert forall|i: int|
                0 <= i < n && !(s.drop_ltc_track && i
                    == s.ltc_track_channel_index) implies #[trigger] at.contains(i) by {
                if i < n - 1 {
                    assert(before.contains(i));
                    let k = choose|k: int| 0 <= k < before.len() && before[k] == i;
                    assert(at[k] == i);
                } else {
                    assert(at[before.len() as int] == i);
                }
            }
            assert forall|k: int| 0 <= k < at.len() implies writes_track(
                s,
                sample_rate,
                jobs[k],
                #[trigger] at[k],
            ) by {
                if k < before.len() {
                    assert(at[k] == before[k]);
                    assert(jobs[k] == old_jobs[k]);
                } else {
                    let track = n - 1;
                    let job = jobs[k];
                    let (format, extension) = audio_output_format(s.audio_encoder@);
                    assert forall|input: int|
                        #![trigger s.channel_map@[input]]
                        0 <= input < s.channel_map@.len() && s.channel_map@[input] == track && (
                        forall|j: int|
                            0 <= j < input ==> #[trigger] s.channel_map@[j] != track) implies job.task
                        == TaskModel::Fixed(
                        split_track_args(
                            s,
                            format,
                            track,
                            if input < s.timecode_meta_per_file@.len() {
                                s.timecode_meta_per_file@[input]
                            } else {
                                None
                            },
                            sample_rate,
                        ),
                    ) by {
                        crate::channel_map::law_input_for_finds(
                            s.channel_map@,
                            track,
                            track,
                            input,
                        );
                    }
                }
            }
            at
        }
    }
}

/// The jobs of a conversion of audio into single tracks: one for every track that is
/// written, in the order of the tracks.
pub proof fn law_track_jobs(s: ConverterSettings, probes: Seq<Option<VideoAudioProbe>>, sample_rate: u32) -> (at: Seq<int>)
    requires
        s.pipeline == (ConversionPipeline::AudioOnly { generate_synthetic_video: false }),
        s.split_tracks,
    ensures
        ({
            let jobs = planned_jobs(s, probes, sample_rate).0;
            &&& written_tracks(s, s.channel_map@.len() as int, at)
            &&& jobs.len() == at.len()
            &&& forall|k: int|
                0 <= k < at.len() ==> writes_track(s, sample_rate, jobs[k], #[trigger] at[k])
        }),
{
    lemma_track_jobs(s, sample_rate, s.channel_map@.len() as int)
}

/// A conversion of audio that does not split tracks, or that makes a video, is one job.
pub proof fn law_single_job(s: ConverterSettings, probes: Seq<Option<VideoAudioProbe>>, sample_rate: u32, generate: bool)
    requires
        s.pipeline == (ConversionPipeline::AudioOnly { generate_synthetic_video: generate }),
        generate || !s.split_tracks,
    ensures
        ({
            let jobs = planned_jobs(s, probes, sample_rate).0;
            let (format, extension) = audio_output_format(s.audio_encoder@);
            &&& jobs.len() == 1
            &&& counts(jobs[0].label, 1, 1)
            &&& jobs[0].weight == 1_000_000
            &&& generate ==> jobs[0].task is Synthetic && jobs[0].output == s.path_for(
                "video"@,
                0,
                1,
                s.container@,
            )
            &&& !generate ==> jobs[0].output == s.path_for("audio"@, 0, 0, extension)
                && jobs[0].task == TaskModel::Fixed(
                audio_args(
                    s,
                    format,
                    if s.timecode_meta_per_file@.len() > 0 {
                        s.timecode_meta_per_file@[0]
                    } else {
                        None
                    },
                    sample_rate,
                ),
            )
        }),
{
    lemma_label(1, 1);
}

/// The channels of a file, none where it could not be read.
pub open spec fn known_channels(probes: Seq<Option<VideoAudioProbe>>, i: int) -> Seq<(usize, usize)> {
    match probes[i] {
        Some(probe) => channels_of(probe),
        None => seq![],
    }
}

/// The number of steps of the files before file `n`.
pub open spec fn steps_before(s: ConverterSettings, probes: Seq<Option<VideoAudioProbe>>, n: int) -> int
    decreases n,
{
    if n <= 0 {
        0
    } else {
        steps_before(s, probes, n - 1) + file_steps(
            s,
            s.container@,
            (n - 1) as usize,
            known_channels(probes, n - 1),
        ).len()
    }
}

/// The job that carries out a step.
pub open spec fn carries_out(
    s: ConverterSettings,
    probes: Seq<Option<VideoAudioProbe>>,
    job: JobModel,
    step: Step,
    plain: bool,
    number: int,
    total: int,
) -> bool {
    let streams = if probes.len() > 0 && probes[0] is Some {
        probes[0]->0.streams@
    } else {
        Seq::<AudioStreamInfo>::empty()
    };
    &&& job.output == step.output()
    &&& counts(job.label, number, total)
    &&& job.weight == 1_000_000nat / (total as nat)
    &&& plain || s.copy_video ==> job.task == TaskModel::Fixed(step_args(s, step, streams))
    &&& !plain && !s.copy_video ==> job.task == TaskModel::Encoded(step)
}

proof fn lemma_planned(s: ConverterSettings, probes: Seq<Option<VideoAudioProbe>>, n: int, i: int, k: int)
    requires
        0 <= n <= probes.len(),
    ensures
        planned_steps(s, layouts_of(probes), n).len() == steps_before(s, probes, n),
        0 <= i < n && 0 <= k < file_steps(
            s,
            s.container@,
            i as usize,
            known_channels(probes, i),
        ).len() ==> {
            let at = steps_before(s, probes, i) + k;
            &&& 0 <= at < steps_before(s, probes, n)
            &&& planned_steps(s, layouts_of(probes), n)[at] == file_steps(
                s,
                s.container@,
                i as usize,
                known_channels(probes, i),
            )[k]
        },
    decreases n,
{
    if n > 0 {
        lemma_planned(s, probes, n - 1, i, k);
        let clips = layouts_of(probes);
        assert(clips[n - 1] == match probes[n - 1] {
            Some(probe) => Some(crate::planner::layout_of(probe)),
            None => None,
        });
    }
}

/// The jobs of a conversion of videos that are not joined: the steps of the files, file
/// by file, each carried out by the job at its place.
pub proof fn law_video_jobs(
    s: ConverterSettings,
    probes: Seq<Option<VideoAudioProbe>>,
    sample_rate: u32,
    i: int,
    k: int,
)
    requires
        s.pipeline is VideoPassthrough,
        !(s.concat_audio && s.split_tracks && s.recording_type
            == RecordingType::VideoClipSequence),
        0 <= i < probes.len(),
        0 <= k < file_steps(s, s.container@, i as usize, known_channels(probes, i)).len(),
    ensures
        ({
            let jobs = planned_jobs(s, probes, sample_rate).0;
            let step = file_steps(s, s.container@, i as usize, known_channels(probes, i))[k];
            let at = steps_before(s, probes, i) + k;
            &&& jobs.len() == steps_before(s, probes, probes.len() as int)
            &&& 0 <= at < jobs.len()
            &&& carries_out(s, probes, jobs[at], step, false, at + 1, jobs.len() as int)
        }),
{
    lemma_planned(s, probes, probes.len() as int, i, k);
    let at = steps_before(s, probes, i) + k;
    let total = steps_before(s, probes, probes.len() as int);
    lemma_label((at + 1) as nat, total as nat);
}

/// The jobs of clips that are joined: first the video of every clip, without audio, and
/// then the joined tracks, which need no video encoder.
pub proof fn law_joining_jobs(
    s: ConverterSettings,
    probes: Seq<Option<VideoAudioProbe>>,
    sample_rate: u32,
    i: int,
)
    requires
        s.pipeline is VideoPassthrough,
        s.concat_audio && s.split_tracks && s.recording_type == RecordingType::VideoClipSequence,
        s.input_files@.len() <= usize::MAX,
    ensures
        ({
            let jobs = planned_jobs(s, probes, sample_rate).0;
            let audio = concat_plan(s, layouts_of(probes)).0;
            let n = s.input_files@.len() as int;
            &&& jobs.len() == n + audio.len()
            &&& 0 <= i < n ==> carries_out(
                s,
                probes,
                jobs[i],
                Step::VideoOnly {
                    file_idx: i as usize,
                    output: s.path_for("video"@, i, (i + 1) as nat, s.container@),
                },
                false,
                i + 1,
                jobs.len() as int,
            )
            &&& n <= i < jobs.len() ==> carries_out(
                s,
                probes,
                jobs[i],
                audio[i - n],
                true,
                i + 1,
                jobs.len() as int,
            )
        }),
{
    let jobs = planned_jobs(s, probes, sample_rate).0;
    if 0 <= i < jobs.len() {
        lemma_label((i + 1) as nat, jobs.len());
    }
}

// ── Encoders ───────────────────────────────────────────────────────────────

/// The places of the encoders that have not failed, in order.
pub open spec fn places_left(chain: Seq<Seq<char>>, failed: Seq<Seq<char>>, n: int, at: Seq<int>) -> bool {
    &&& forall|k: int|
        0 <= k < at.len() ==> 0 <= #[trigger] at[k] < n && !failed.contains(chain[at[k]])
    &&& forall|j: int, k: int| 0 <= j < k < at.len() ==> at[j] < at[k]
    &&& forall|i: int| 0 <= i < n && !failed.contains(#[trigger] chain[i]) ==> at.contains(i)
}

/// What is left to try are the encoders of the chain that have not failed, in the order
/// of the chain; once one has worked, that one alone.
pub proof fn law_encoders_left(f: Fallback) -> (at: Seq<int>)
    ensures
        f.resolved is None ==> {
            &&& places_left(f.chain, f.failed, f.chain.len() as int, at)
            &&& at.len() == f.remaining().len()
            &&& forall|k: int|
                0 <= k < at.len() ==> f.remaining()[k] == f.chain[#[trigger] at[k]]
        },
        f.resolved matches Some(e) ==> f.remaining() == seq![e],
{
    lemma_untried_places(f.chain, f.failed, f.chain.len() as int)
}

proof fn lemma_untried_places(chain: Seq<Seq<char>>, failed: Seq<Seq<char>>, n: int) -> (at: Seq<int>)
    requires
        0 <= n <= chain.len(),
    ensures
        places_left(chain, failed, n, at),
        at.len() == untried(chain, failed, n).len(),
        forall|k: int|
            0 <= k < at.len() ==> untried(chain, failed, n)[k] == chain[#[trigger] at[k]],
    decreases n,
{
    if n == 0 {
        seq![]
    } else {
        let before = lemma_untried_places(chain, failed, n - 1);
        if failed.contains(chain[n - 1]) {
            before
        } else {
            let at = before.push(n - 1);
            assert forall|i: int| 0 <= i < n && !failed.contains(
                #[trigger] chain[i],
            ) implies at.contains(i) by {
                if i < n - 1 {
                    assert(before.contains(i));
                    let k = choose|k: int| 0 <= k < before.len() && before[k] == i;
                    assert(at[k] == i);
                } else {
                    assert(at[before.len() as int] == i);
                }
            }
            at
        }
    }
}

/// What has failed is remembered, whatever works afterwards, and nothing is forgotten of
/// the devices.
pub proof fn law_outcomes_are_remembered(f: Fallback, encoder: Seq<char>, e: Seq<char>)
    requires
        crate::text::ascending(f.failed),
    ensures
        f.pinned(encoder).failed == f.failed,
        f.pinned(encoder).chain == f.chain,
        f.pinned(encoder).vaapi == f.vaapi && f.pinned(encoder).vulkan == f.vulkan,
        f.without(encoder).failed.contains(e) <==> f.failed.contains(e) || e == encoder,
        f.without(encoder).chain == f.chain && f.without(encoder).resolved == f.resolved,
{
    crate::text::law_insert_keeps_order(f.failed, encoder);
}

/// An encoder lacks its device: its name ends in that of a kind of device, and no such
/// device is known.
pub open spec fn lacks_device(f: Fallback, encoder: Seq<char>) -> bool {
    if "_vaapi"@.is_suffix_of(encoder) {
        f.vaapi is None
    } else {
        "_vulkan"@.is_suffix_of(encoder) && !f.vulkan
    }
}

/// The encoder of a job is the first of its candidates that does not lack its device;
/// where there is none, the conversion fails.
pub proof fn law_first_encoder_with_device(m: Machine, candidates: Seq<Seq<char>>, from: int)
    requires
        !m.over(),
        !(m.jobs[m.at].task is Fixed),
        m.trying == Some((candidates, from)) || (m.trying is None && candidates
            == m.fallback.remaining() && from == 0),
        0 <= from <= candidates.len(),
    ensures
        match choose_next(m, false).1 {
            Choice::With(encoder) => exists|k: int|
                {
                    &&& from <= k < candidates.len()
                    &&& #[trigger] candidates[k] == encoder
                    &&& !lacks_device(m.fallback, encoder)
                    &&& forall|j: int|
                        from <= j < k ==> lacks_device(m.fallback, #[trigger] candidates[j])
                    &&& choose_next(m, false).0.trying == Some((candidates, k))
                },
            Choice::Fixed => false,
            Choice::Nothing => {
                &&& choose_next(m, false).0.failed is Some
                &&& forall|j: int|
                    from <= j < candidates.len() ==> lacks_device(
                        m.fallback,
                        #[trigger] candidates[j],
                    )
            },
        },
{
    lemma_first_ready(m.fallback, candidates, from);
    let k = first_ready(m.fallback, candidates, from);
    if k < candidates.len() {
        assert(candidates[k] == candidates[k]);
    }
}

proof fn lemma_first_ready(f: Fallback, candidates: Seq<Seq<char>>, from: int)
    requires
        0 <= from <= candidates.len(),
    ensures
        from <= first_ready(f, candidates, from) <= candidates.len(),
        first_ready(f, candidates, from) < candidates.len() ==> !lacks_device(
            f,
            candidates[first_ready(f, candidates, from)],
        ),
        forall|j: int|
            from <= j < first_ready(f, candidates, from) ==> lacks_device(
                f,
                #[trigger] candidates[j],
            ),
    decreases candidates.len() - from,
{
    if from < candidates.len() && !f.ready(candidates[from]) {
        lemma_first_ready(f, candidates, from + 1);
    }
}

/// Encoders that were passed over for want of a device count as failed, like the one
/// that did not start; nothing else of what is known of encoders changes.
pub proof fn law_passed_over_have_failed(f: Fallback, candidates: Seq<Seq<char>>, from: int, to: int, e: Seq<char>)
    requires
        0 <= from <= to <= candidates.len(),
        crate::text::ascending(f.failed),
    ensures
        ({
            let g = passed_over(f, candidates, from, to);
            &&& g.failed.contains(e) <==> f.failed.contains(e) || candidates.subrange(
                from,
                to,
            ).contains(e)
            &&& g.chain == f.chain && g.resolved == f.resolved && g.vaapi == f.vaapi && g.vulkan
                == f.vulkan
            &&& crate::text::ascending(g.failed)
        }),
    decreases to - from,
{
    if from < to {
        law_passed_over_have_failed(f, candidates, from, to - 1, e);
        let g = passed_over(f, candidates, from, to - 1);
        let last = candidates[to - 1];
        crate::text::law_insert_keeps_order(g.failed, last);
        let head = candidates.subrange(from, to - 1);
        let all = candidates.subrange(from, to);
        assert(all =~= head.push(last));
        if head.contains(e) {
            let k = choose|k: int| 0 <= k < head.len() && head[k] == e;
            assert(all[k] == e);
        }
        if e == last {
            assert(all[head.len() as int] == e);
        }
    }
}

/// The chain of encoders: none where video is copied; else the candidates of the codec
/// that ffmpeg has, in their order, and all of them where it has none or is not known.
pub proof fn law_chain(s: ConverterSettings, available: Option<Seq<Seq<char>>>)
    ensures
        ({
            let codec = normalized_codec(s.video_encoder@);
            let all = static_chain(codec);
            let chain = chain_for(s, available);
            &&& s.copy_video && s.pipeline is VideoPassthrough ==> chain.len() == 0
            &&& !(s.copy_video && s.pipeline is VideoPassthrough) ==> {
                if exists|i: int|
                    available is Some && 0 <= i < all.len() && available->0.contains(
                        #[trigger] all[i],
                    ) {
                    &&& forall|e: Seq<char>| #[trigger]
                        chain.contains(e) <==> all.contains(e) && available->0.contains(e)
                } else {
                    chain == all
                }
            }
        }),
{
    let codec = normalized_codec(s.video_encoder@);
    let all = static_chain(codec);
    if let Some(encoders) = available {
        crate::video_codecs::law_resolved_is_available(all, encoders, all.len() as int);
        assert(all.take(all.len() as int) =~= all);
        let got = crate::video_codecs::resolved_chain(codec, encoders);
        if exists|i: int| 0 <= i < all.len() && encoders.contains(#[trigger] all[i]) {
            let i = choose|i: int| 0 <= i < all.len() && encoders.contains(#[trigger] all[i]);
            assert(got.contains(all[i]));
        }
        if got.len() > 0 {
            assert(got.contains(got[0]));
            let i = choose|i: int| 0 <= i < all.len() && all[i] == got[0];
            assert(encoders.contains(all[i]));
        }
    }
}

// ── Progress ───────────────────────────────────────────────────────────────

/// A job that has succeeded adds its share of the whole, a job that counts twice two of
/// them, up to the whole; nothing else changes what was reached.
pub proof fn law_progress_adds_up(m: Machine, run: Run, end: RunEnd)
    requires
        awaiting(m),
        m.progress <= 1_000_000,
    ensures
        ({
            let next = after_command(m, run, end);
            let share = m.jobs[m.at].weight * if m.jobs[m.at].twice {
                2nat
            } else {
                1
            };
            &&& !(end is Succeeded) ==> next.progress == m.progress
            &&& end is Succeeded && m.progress + share <= 1_000_000 ==> next.progress == m.progress
                + share
            &&& end is Succeeded && m.progress + share > 1_000_000 ==> next.progress == 1_000_000
            &&& choose_next(m, false).0.progress == m.progress
        }),
{
}

/// Another encoder is tried only where ffmpeg ended by itself before it had produced
/// anything, and only for a job that has an encoder; every other failure is final.
pub proof fn law_retry_needs_nothing_produced(m: Machine, run: Run, end: RunEnd)
    requires
        awaiting(m),
        !(end is Succeeded),
    ensures
        ({
            let next = after_command(m, run, end);
            next.failed is None <==> {
                &&& m.trying is Some
                &&& end matches RunEnd::Exited { output_bytes, .. } && !run.produced && output_bytes
                    < 4096
            }
        }),
        after_command(m, run, end).failed is None ==> {
            let (candidates, k) = m.trying->0;
            after_command(m, run, end).fallback.failed == inserted(m.fallback.failed, candidates[k])
        },
{
}

} // verus!
