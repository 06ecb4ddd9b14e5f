//! Getting ready for a conversion that copies the video stream: cuts move to
//! keyframes and start timecodes follow them.

use vstd::prelude::*;

use crate::formats::{copy_container_for, copy_mode_container_for_input};
use crate::settings::ConverterSettings;
use crate::timecode::{
    back_number, frames_in, is_nearest_count, label_number, law_back_by_drop_labels,
    law_back_by_labels, law_frames_are_nearest, lies_before, met_back, next_timecode,
    previous_timecode, shift_timecode_back, stepped_back, stepped_forward, Timecode,
};
use crate::timecode_meta::TimecodeMetadata;

verus! {

/// A cut that is moved to a keyframe: it is longer than a millisecond and its
/// file is known.
pub open spec fn cut_moves(s: ConverterSettings, i: int) -> bool {
    0 <= i < s.trim_offsets_nanos@.len() && s.trim_offsets_nanos@[i] > 1_000_000 && i
        < s.input_files@.len()
}

/// Whether the cut of a file is to be moved to a keyframe.
pub fn needs_keyframe(settings: &ConverterSettings, i: usize) -> (r: bool)
    ensures
        r == cut_moves(*settings, i as int),
{
    i < settings.trim_offsets_nanos.len() && settings.trim_offsets_nanos[i] > 1_000_000 && i
        < settings.input_files.len()
}

/// A cut moves to its keyframe, unless that is closer than a millisecond.
pub open spec fn snaps(s: ConverterSettings, snapped: Seq<i64>, i: int) -> bool {
    cut_moves(s, i) && s.trim_offsets_nanos@[i] - snapped[i] > 1_000_000
}

/// The cut of a file after it was moved to a keyframe. A keyframe before the
/// start of the file leaves nothing to cut.
pub open spec fn moved_cut(s: ConverterSettings, snapped: Seq<i64>, i: int) -> u64 {
    if snaps(s, snapped, i) {
        if snapped[i] > 0 {
            snapped[i] as u64
        } else {
            0
        }
    } else {
        s.trim_offsets_nanos@[i]
    }
}

/// A start timecode after its file's cut was moved: back by as much.
pub open spec fn moved_meta(s: ConverterSettings, snapped: Seq<i64>, i: int) -> Option<TimecodeMetadata> {
    let before = s.timecode_meta_per_file@[i];
    if snaps(s, snapped, i) {
        match before {
            Some(m) => Some(
                TimecodeMetadata {
                    start: stepped_back(
                        m.start,
                        frames_in((s.trim_offsets_nanos@[i] - snapped[i]) as nat, m.fps),
                        m.fps.labels(),
                        m.drop_frame,
                    ),
                    ..m
                },
            ),
            None => None,
        }
    } else {
        before
    }
}

/// Two settings that differ at most in container, cuts and start timecodes.
pub open spec fn same_request(a: ConverterSettings, b: ConverterSettings) -> bool {
    &&& a.pipeline == b.pipeline
    &&& a.input_files == b.input_files
    &&& a.recording_type == b.recording_type
    &&& a.ltc_track_channel_index == b.ltc_track_channel_index
    &&& a.channel_map == b.channel_map
    &&& a.split_tracks == b.split_tracks
    &&& a.drop_ltc_track == b.drop_ltc_track
    &&& a.ltc_video_source == b.ltc_video_source
    &&& a.copy_video == b.copy_video
    &&& a.video_encoder == b.video_encoder
    &&& a.audio_encoder == b.audio_encoder
    &&& a.resolved_video_encoder == b.resolved_video_encoder
    &&& a.resolved_hw_device == b.resolved_hw_device
    &&& a.output_folder == b.output_folder
    &&& a.filename_prefix == b.filename_prefix
    &&& a.audio_suffix_template == b.audio_suffix_template
    &&& a.video_suffix_template == b.video_suffix_template
    &&& a.naming_mode == b.naming_mode
    &&& a.trim_to_first_ltc == b.trim_to_first_ltc
    &&& a.concat_audio == b.concat_audio
}

/// Prepares settings for a stream copy: the container is that of the first input,
/// every cut moves to the keyframe found for it, and start timecodes move with
/// the cuts. `snapped` holds the keyframe for each cut.
pub fn prepare_copy_mode(settings: &mut ConverterSettings, snapped: &Vec<i64>)
    requires
        snapped@.len() == old(settings).trim_offsets_nanos@.len(),
        forall|i: int|
            0 <= i < old(settings).trim_offsets_nanos@.len() ==> #[trigger] old(settings).trim_offsets_nanos@[i] <= 0x4000_0000_0000_0000,
        forall|i: int|
            0 <= i < snapped@.len() ==> #[trigger] snapped@[i] >= -0x3fff_ffff_ffff_ffff,
        crate::ffmpeg_args::rates_valid(*old(settings)),
    ensures
        same_request(*old(settings), *final(settings)),
        final(settings).container@ == if old(settings).input_files@.len() > 0 {
            copy_container_for(old(settings).input_files@[0]@)
        } else {
            old(settings).container@
        },
        final(settings).trim_offsets_nanos@.len() == old(settings).trim_offsets_nanos@.len(),
        forall|i: int|
            0 <= i < old(settings).trim_offsets_nanos@.len() ==> #[trigger] final(settings).trim_offsets_nanos@[i] == moved_cut(*old(settings), snapped@, i),
        final(settings).timecode_meta_per_file@.len() == old(settings).timecode_meta_per_file@.len(),
        forall|i: int|
            0 <= i < old(settings).timecode_meta_per_file@.len() ==> #[trigger] final(settings).timecode_meta_per_file@[i] == moved_meta(*old(settings), snapped@, i),
{
    let ghost before = *settings;
    if settings.input_files.len() > 0 {
        let container = copy_mode_container_for_input(settings.input_files[0].as_str());
        settings.container = container.to_string();
    }
    let n: usize = settings.trim_offsets_nanos.len();
    let mut i: usize = 0;
    while i < n
        invariant
            i <= n,
            n == before.trim_offsets_nanos@.len(),
            before == *old(settings),
            same_request(before, *settings),
            crate::ffmpeg_args::rates_valid(before),
            forall|k: int|
                0 <= k < before.trim_offsets_nanos@.len() ==> #[trigger] before.trim_offsets_nanos@[k]
                    <= 0x4000_0000_0000_0000,
            forall|k: int|
                0 <= k < snapped@.len() ==> #[trigger] snapped@[k] >= -0x3fff_ffff_ffff_ffff,
            snapped@.len() == n,
            settings.container@ == if before.input_files@.len() > 0 {
                copy_container_for(before.input_files@[0]@)
            } else {
                before.container@
            },
            settings.trim_offsets_nanos@.len() == n,
            settings.timecode_meta_per_file@.len() == before.timecode_meta_per_file@.len(),
            forall|k: int|
                0 <= k < i ==> #[trigger] settings.trim_offsets_nanos@[k] == moved_cut(
                    before,
                    snapped@,
                    k,
                ),
            forall|k: int|
                i <= k < n ==> #[trigger] settings.trim_offsets_nanos@[k]
                    == before.trim_offsets_nanos@[k],
            forall|k: int|
                0 <= k < i && k < before.timecode_meta_per_file@.len()
                    ==> #[trigger] settings.timecode_meta_per_file@[k] == moved_meta(
                    before,
                    snapped@,
                    k,
                ),
            forall|k: int|
                i <= k < before.timecode_meta_per_file@.len()
                    ==> #[trigger] settings.timecode_meta_per_file@[k]
                    == before.timecode_meta_per_file@[k],
        decreases n - i,
    {
        let raw = settings.trim_offsets_nanos[i];
        assert(before.trim_offsets_nanos@[i as int] == raw);
        let target: i64 = snapped[i];
        assert(snapped@[i as int] == target);
        let delta: i64 = raw as i64 - target;
        if raw > 1_000_000 && i < settings.input_files.len() && delta > 1_000_000 {
            settings.trim_offsets_nanos[i] = if target > 0 {
                target as u64
            } else {
                0
            };
            if i < settings.timecode_meta_per_file.len() {
                assert(settings.timecode_meta_per_file@[i as int]
                    == before.timecode_meta_per_file@[i as int]);
                match settings.timecode_meta_per_file[i] {
                    Some(m) => {
                        let start = shift_timecode_back(&m.start, delta, m.fps, m.drop_frame);
                        settings.timecode_meta_per_file[i] = Some(
                            TimecodeMetadata { start, fps: m.fps, drop_frame: m.drop_frame },
                        );
                    },
                    None => {},
                }
            }
        }
        i += 1;
    }
}

/// A cut moves back only: what is copied always holds what was asked for.
pub proof fn law_cuts_move_back(s: ConverterSettings, snapped: Seq<i64>, i: int)
    requires
        0 <= i < s.trim_offsets_nanos@.len(),
    ensures
        moved_cut(s, snapped, i) <= s.trim_offsets_nanos@[i],
{
}

/// A cut of more than a millisecond moves to its keyframe, or stays where it is when
/// the keyframe is within a millisecond before it; a keyframe before the start of the
/// file stands for its start. Other cuts stay as they are.
pub proof fn law_cuts_are_at_keyframes(s: ConverterSettings, snapped: Seq<i64>, i: int)
    requires
        0 <= i < s.trim_offsets_nanos@.len(),
        i < s.input_files@.len(),
    ensures
        ({
            let asked = s.trim_offsets_nanos@[i];
            let cut = moved_cut(s, snapped, i);
            &&& asked <= 1_000_000 ==> cut == asked
            &&& asked > 1_000_000 && asked - snapped[i] > 1_000_000 && snapped[i] >= 0 ==> cut
                == snapped[i]
            &&& asked > 1_000_000 && asked - snapped[i] > 1_000_000 && snapped[i] < 0 ==> cut == 0
            &&& asked - snapped[i] <= 1_000_000 ==> cut == asked
        }),
{
}

/// The start timecode of a copied video fits its cut. Where the cut moves back, the
/// new start timecode lies before the one asked for by the frames in between, to the
/// nearest; counted forwards by as many it is the one asked for again. Where the cut
/// stays, so does the start timecode.
pub proof fn law_start_fits_cut(
    s: ConverterSettings,
    snapped: Seq<i64>,
    i: int,
    asked: TimecodeMetadata,
    got: Option<TimecodeMetadata>,
)
    requires
        0 <= i < s.trim_offsets_nanos@.len(),
        i < s.input_files@.len(),
        0 <= i < s.timecode_meta_per_file@.len(),
        s.timecode_meta_per_file@[i] == Some(asked),
        asked.fps.valid(),
        got == moved_meta(s, snapped, i),
    ensures
        got matches Some(m) && m.fps == asked.fps && m.drop_frame == asked.drop_frame,
        s.trim_offsets_nanos@[i] <= 1_000_000 || s.trim_offsets_nanos@[i] - snapped[i] <= 1_000_000
            ==> got == Some(asked),
        s.trim_offsets_nanos@[i] > 1_000_000 && s.trim_offsets_nanos@[i] - snapped[i] > 1_000_000
            && asked.start.in_range(asked.fps.labels()) ==> exists|frames: nat|
            {
                let labels = asked.fps.labels();
                &&& #[trigger] is_nearest_count(
                    frames as int,
                    s.trim_offsets_nanos@[i] - snapped[i],
                    asked.fps,
                )
                &&& !asked.drop_frame ==> {
                    &&& got->0.start.in_range(labels)
                    &&& lies_before(
                        label_number(got->0.start, labels),
                        label_number(asked.start, labels),
                        frames as int,
                        (86400 * labels) as int,
                    )
                    &&& stepped_forward(got->0.start, frames, labels, false) == asked.start
                }
                &&& asked.drop_frame && labels >= 3 && met_back(asked.start) ==> {
                    &&& got->0.start.in_range(labels)
                    &&& lies_before(
                        back_number(got->0.start, labels),
                        back_number(asked.start, labels),
                        frames as int,
                        86400 * labels - 1296,
                    )
                }
            },
{
    if s.trim_offsets_nanos@[i] > 1_000_000 && s.trim_offsets_nanos@[i] - snapped[i] > 1_000_000
        && asked.start.in_range(asked.fps.labels()) {
        let nanos = (s.trim_offsets_nanos@[i] - snapped[i]) as nat;
        let frames = frames_in(nanos, asked.fps);
        let labels = asked.fps.labels();
        law_frames_are_nearest(nanos, asked.fps);
        lemma_labels_fit(asked.fps);
        if !asked.drop_frame {
            law_back_by_labels(asked.start, frames, labels);
            lemma_forward_again(asked.start, frames, labels);
        } else if labels >= 3 && met_back(asked.start) {
            law_back_by_drop_labels(asked.start, frames, labels);
        }
        assert(is_nearest_count(
            frames as int,
            s.trim_offsets_nanos@[i] - snapped[i],
            asked.fps,
        ));
    }
}

proof fn lemma_labels_fit(fps: crate::timecode::FrameRate)
    requires
        fps.den > 0,
    ensures
        fps.labels() <= u32::MAX,
{
    let n = fps.num as int;
    let d = fps.den as int;
    assert((n + d - 1) / d <= 0xffff_ffff) by (nonlinear_arith)
        requires
            0 <= n <= 0xffff_ffff,
            d >= 1,
    ;
}

/// Without drop-frame counting, what was counted back is counted forwards again.
proof fn lemma_forward_again(tc: Timecode, frames: nat, labels: nat)
    requires
        tc.in_range(labels),
        labels <= u32::MAX,
    ensures
        stepped_forward(stepped_back(tc, frames, labels, false), frames, labels, false) == tc,
    decreases frames,
{
    if frames > 0 {
        let p = previous_timecode(tc, labels, false);
        law_back_by_labels(tc, 1, labels);
        assert(stepped_back(p, 0, labels, false) == p);
        assert(stepped_back(tc, 1, labels, false) == p) by {
            reveal_with_fuel(stepped_back, 2);
        }
        lemma_forward_again(p, (frames - 1) as nat, labels);
        assert(next_timecode(p, labels, false) == tc);
    }
}

} // verus!
