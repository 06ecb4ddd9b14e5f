//! What the command lines of ffmpeg say: which inputs are read and what is cut from
//! them, which tracks go where, what the outputs start at and how they are written.

use vstd::prelude::*;

use crate::ffmpeg_args::{
    audio_args, audio_timecode_args, channel_maps, channel_routes, concat_args, concat_filter,
    encoder_for_format, extract_args, input_args, inputs_upto, kept_audio_args, map_args, meta_of,
    mux_upto, pan_filter, plain_inputs, prelude, rate_text, seconds_text, segment_filters,
    segment_inputs, segment_labels, split_track_args, surviving_upto, synthetic_args,
    thousandths_text, timecode_args, track_filter, track_filters, trailer_args, trim_of,
    video_encoder_args, video_head, video_mux_args, video_only_args, video_stream_args, video_tail,
    written_reference,
};
use crate::ffprobe::AudioStreamInfo;
use crate::formats::ffmpeg_format;
use crate::planner::Keep;
use crate::settings::ConverterSettings;
use crate::text::{decimal, joined, padded2, padded3};
use crate::text_laws::{
    law_decimal_spells, law_decimals_differ, law_padded_spells,
    spells_number,
};
use crate::timecode::{timecode_text, FrameRate, Timecode};
use crate::timecode_meta::{reference_samples, scaled_seconds, TimecodeMetadata};

verus! {

// ── Parts of a command line ────────────────────────────────────────────────

/// The words of `piece` stand next to each other in a command line.
pub open spec fn holds(args: Seq<Seq<char>>, piece: Seq<Seq<char>>) -> bool {
    exists|k: int|
        0 <= k && k + piece.len() <= args.len() && #[trigger] args.subrange(k, k + piece.len())
            == piece
}

proof fn lemma_holds(a: Seq<Seq<char>>, piece: Seq<Seq<char>>, b: Seq<Seq<char>>)
    ensures
        holds(a + piece + b, piece),
{
    let args = a + piece + b;
    let k = a.len() as int;
    assert(args.subrange(k, k + piece.len()) =~= piece);
}

proof fn lemma_holds_in(a: Seq<Seq<char>>, middle: Seq<Seq<char>>, b: Seq<Seq<char>>, piece: Seq<Seq<char>>)
    requires
        holds(middle, piece),
    ensures
        holds(a + middle + b, piece),
{
    let args = a + middle + b;
    let k = choose|k: int|
        0 <= k && k + piece.len() <= middle.len() && #[trigger] middle.subrange(
            k,
            k + piece.len(),
        ) == piece;
    let at = a.len() + k;
    assert(args.subrange(at, at + piece.len()) =~= middle.subrange(k, k + piece.len()));
}

/// A text tells a number of thousandths in whole ones with three decimals.
pub open spec fn tells_thousandths(text: Seq<char>, n: int) -> bool {
    exists|whole: Seq<char>, rest: Seq<char>, w: int, m: int|
        {
            &&& text == whole + "."@ + rest
            &&& #[trigger] spells_number(whole, w)
            &&& #[trigger] spells_number(rest, m)
            &&& rest.len() == 3
            &&& n == 1000 * w + m
        }
}

/// A text tells a time in seconds, to the nearest thousandth.
pub open spec fn tells_seconds(text: Seq<char>, nanos: int) -> bool {
    exists|millis: int|
        #[trigger] tells_thousandths(text, millis) && -500_000 < millis * 1_000_000 - nanos
            <= 500_000
}

proof fn lemma_thousandths(n: nat)
    ensures
        tells_thousandths(thousandths_text(n), n as int),
{
    law_decimal_spells(n / 1000);
    law_padded_spells(n % 1000);
    assert(thousandths_text(n) == decimal(n / 1000) + "."@ + padded3(n % 1000));
}

/// Times are printed in seconds to the nearest thousandth.
pub proof fn law_time_text(nanos: nat)
    ensures
        tells_seconds(seconds_text(nanos), nanos as int),
{
    let millis = (nanos + 500_000) / 1_000_000;
    lemma_thousandths(millis);
    assert(tells_thousandths(seconds_text(nanos), millis as int));
}

/// Frame rates are printed to the nearest thousandth.
pub proof fn law_rate_text(fps: FrameRate)
    requires
        fps.valid(),
    ensures
        exists|n: int|
            #[trigger] tells_thousandths(rate_text(fps), n) && 2 * (n * fps.den) <= 2000 * fps.num
                + fps.den && 2000 * fps.num < 2 * (n * fps.den) + fps.den,
{
    let x = 2000 * fps.num + fps.den;
    let d = 2 * fps.den as int;
    let n = x / d;
    vstd::arithmetic::div_mod::lemma_fundamental_div_mod(x, d);
    vstd::arithmetic::div_mod::lemma_mod_bound(x, d);
    assert(d * n == 2 * (n * fps.den)) by (nonlinear_arith)
        requires
            d == 2 * fps.den,
    ;
    assert(n >= 0) by (nonlinear_arith)
        requires
            n == x / d,
            x >= 0,
            d > 0,
    ;
    lemma_thousandths(n as nat);
    assert(rate_text(fps) == thousandths_text(n as nat));
    assert(tells_thousandths(rate_text(fps), n));
}

/// A text tells a timecode: hours, minutes, seconds and frames with two digits each,
/// and a semicolon before the frames where labels are dropped.
pub open spec fn tells_timecode(text: Seq<char>, tc: Timecode, drop_frame: bool) -> bool {
    tc.hours < 100 && tc.minutes < 100 && tc.seconds < 100 && tc.frames < 100 ==> {
        &&& text.len() == 11
        &&& spells_number(text.subrange(0, 2), tc.hours as int)
        &&& text[2] == ':'
        &&& spells_number(text.subrange(3, 5), tc.minutes as int)
        &&& text[5] == ':'
        &&& spells_number(text.subrange(6, 8), tc.seconds as int)
        &&& text[8] == if drop_frame {
            ';'
        } else {
            ':'
        }
        &&& spells_number(text.subrange(9, 11), tc.frames as int)
    }
}

/// Timecodes are printed field by field.
pub proof fn law_timecode_text(tc: Timecode, drop_frame: bool)
    ensures
        tells_timecode(timecode_text(tc, drop_frame), tc, drop_frame),
{
    let text = timecode_text(tc, drop_frame);
    if tc.hours < 100 && tc.minutes < 100 && tc.seconds < 100 && tc.frames < 100 {
        law_padded_spells(tc.hours as nat);
        law_padded_spells(tc.minutes as nat);
        law_padded_spells(tc.seconds as nat);
        law_padded_spells(tc.frames as nat);
        assert(text.subrange(0, 2) =~= padded2(tc.hours as nat));
        assert(text.subrange(3, 5) =~= padded2(tc.minutes as nat));
        assert(text.subrange(6, 8) =~= padded2(tc.seconds as nat));
        assert(text.subrange(9, 11) =~= padded2(tc.frames as nat));
    }
}

// ── Inputs ─────────────────────────────────────────────────────────────────

/// What was asked to be cut from the start of file `i`.
pub open spec fn asked_cut(s: ConverterSettings, i: int) -> int {
    if 0 <= i < s.trim_offsets_nanos@.len() {
        s.trim_offsets_nanos@[i] as int
    } else {
        0
    }
}

/// At `k` a file is read: from the time on that was asked for, where that is more than
/// a millisecond, else from its start.
pub open spec fn reads_at(args: Seq<Seq<char>>, k: int, path: Seq<char>, cut: int) -> bool {
    &&& 0 <= k && k + 1 < args.len()
    &&& args[k] == "-i"@
    &&& args[k + 1] == path
    &&& cut > 1_000_000 ==> k >= 2 && args[k - 2] == "-ss"@ && tells_seconds(args[k - 1], cut)
    &&& cut <= 1_000_000 && k >= 2 ==> args[k - 2] != "-ss"@
}

/// Where input `i` stands: behind the ones before it, each with its cut.
pub open spec fn input_place(cuts: Seq<int>, first: int, i: int) -> int
    decreases i,
{
    let own = if cuts[i] > 1_000_000 {
        2int
    } else {
        0
    };
    if i <= 0 {
        first + own
    } else {
        input_place(cuts, first, i - 1) + 2 + own
    }
}

proof fn lemma_input_args(path: Seq<char>, trim: u64)
    ensures
        ({
            let k = if trim > 1_000_000 {
                2int
            } else {
                0
            };
            &&& input_args(path, trim).len() == k + 2
            &&& reads_at(input_args(path, trim), k, path, trim as int)
        }),
{
    law_time_text(trim as nat);
}

/// Words behind an input change nothing, nor do words before it.
proof fn lemma_reads_within(
    a: Seq<Seq<char>>,
    middle: Seq<Seq<char>>,
    b: Seq<Seq<char>>,
    k: int,
    path: Seq<char>,
    cut: int,
)
    requires
        reads_at(middle, k, path, cut),
        k >= 2 || a.len() + k < 2 || a[a.len() + k - 2] != "-ss"@,
    ensures
        reads_at(a + middle + b, a.len() + k, path, cut),
{
    let args = a + middle + b;
    assert(args[a.len() + k] == middle[k]);
    assert(args[a.len() + k + 1] == middle[k + 1]);
    if k >= 2 {
        assert(args[a.len() + k - 2] == middle[k - 2]);
        assert(args[a.len() + k - 1] == middle[k - 1]);
    } else if a.len() + k >= 2 {
        assert(args[a.len() + k - 2] == a[a.len() + k - 2]);
    }
}

proof fn lemma_words_differ()
    ensures
        "-i"@ != "-ss"@,
        "-y"@ != "-ss"@,
        "-init_hw_device"@ != "-ss"@,
        "-filter_hw_device"@ != "-ss"@,
{
    reveal_strlit("-i");
    reveal_strlit("-y");
    reveal_strlit("-ss");
    reveal_strlit("-init_hw_device");
    reveal_strlit("-filter_hw_device");
    assert("-i"@.len() == 2 && "-y"@.len() == 2 && "-ss"@.len() == 3);
    assert("-init_hw_device"@.len() == 15 && "-filter_hw_device"@.len() == 17);
}

/// Inputs one after the other, each with its own cut.
spec fn input_run(paths: Seq<Seq<char>>, cuts: Seq<u64>, n: int) -> Seq<Seq<char>>
    decreases n,
{
    if n <= 0 {
        seq![]
    } else {
        input_run(paths, cuts, n - 1) + input_args(paths[n - 1], cuts[n - 1])
    }
}

spec fn whole(cuts: Seq<u64>) -> Seq<int> {
    cuts.map_values(|c: u64| c as int)
}

proof fn lemma_input_run(paths: Seq<Seq<char>>, cuts: Seq<u64>, n: int, i: int)
    requires
        0 <= i < n <= paths.len(),
        cuts.len() == paths.len(),
    ensures
        input_run(paths, cuts, n).len() == input_place(whole(cuts), 0, n - 1) + 2,
        reads_at(
            input_run(paths, cuts, n),
            input_place(whole(cuts), 0, i),
            paths[i],
            cuts[i] as int,
        ),
        n >= 1 ==> input_run(paths, cuts, n)[input_run(paths, cuts, n).len() - 2] == "-i"@,
    decreases n,
{
    let before = input_run(paths, cuts, n - 1);
    let now = input_run(paths, cuts, n);
    let own = input_args(paths[n - 1], cuts[n - 1]);
    lemma_input_args(paths[n - 1], cuts[n - 1]);
    lemma_words_differ();
    assert(now =~= before + own + seq![]);
    assert(whole(cuts)[n - 1] == cuts[n - 1]);
    if n > 1 {
        lemma_input_run(paths, cuts, n - 1, if i < n - 1 {
            i
        } else {
            0
        });
    }
    assert(now[now.len() - 2] == own[own.len() - 2]);
    if i < n - 1 {
        lemma_reads_within(
            seq![],
            before,
            own,
            input_place(whole(cuts), 0, i),
            paths[i],
            cuts[i] as int,
        );
        assert(seq![] + before + own =~= now);
    } else {
        let k = if cuts[i] > 1_000_000 {
            2int
        } else {
            0
        };
        lemma_reads_within(before, own, seq![], k, paths[i], cuts[i] as int);
    }
}

proof fn lemma_place_shift(cuts: Seq<int>, first: int, i: int)
    ensures
        input_place(cuts, first, i) == first + input_place(cuts, 0, i),
    decreases i,
{
    if i > 0 {
        lemma_place_shift(cuts, first, i - 1);
    }
}

/// The cuts that were asked for, file by file.
pub open spec fn asked_cuts(s: ConverterSettings) -> Seq<int> {
    Seq::new(s.input_files@.len(), |i: int| asked_cut(s, i))
}

proof fn lemma_inputs_run(s: ConverterSettings, n: int)
    requires
        0 <= n <= s.input_files@.len(),
    ensures
        inputs_upto(s, n) == input_run(
            s.inputs(),
            Seq::new(s.input_files@.len(), |i: int| trim_of(s, i)),
            n,
        ),
    decreases n,
{
    if n > 0 {
        lemma_inputs_run(s, n - 1);
    }
}

/// The command line that puts all tracks into one audio file reads every file, in
/// their order, each from its own cut on; it writes audio only, with the encoder that
/// was chosen.
pub proof fn law_audio_command(
    s: ConverterSettings,
    format: Seq<char>,
    meta: Option<TimecodeMetadata>,
    sample_rate: u32,
    i: int,
)
    requires
        meta matches Some(tc) ==> tc.fps.valid(),
    ensures
        ({
            let args = audio_args(s, format, meta, sample_rate);
            &&& 0 <= i < s.input_files@.len() ==> reads_at(
                args,
                input_place(asked_cuts(s), 1, i),
                s.input_files@[i]@,
                asked_cut(s, i),
            )
            &&& holds(args, seq!["-vn"@, "-c:a"@, s.audio_encoder@])
            &&& starts_audio(args, meta, format, sample_rate)
            &&& ends_with_format(args, format)
        }),
{
    let args = audio_args(s, format, meta, sample_rate);
    let n = s.input_files@.len() as int;
    let head = seq!["-y"@];
    let run = inputs_upto(s, n);
    let own = seq!["-vn"@, "-c:a"@, s.audio_encoder@];
    let start = audio_timecode_args(meta, format, sample_rate);
    let end = trailer_args(format);
    let cuts = Seq::new(n as nat, |i: int| trim_of(s, i));
    lemma_inputs_run(s, n);
    lemma_words_differ();
    if 0 <= i < n {
        lemma_input_run(s.inputs(), cuts, n, i);
        assert(whole(cuts) =~= asked_cuts(s));
        lemma_place_shift(asked_cuts(s), 1, i);
        lemma_reads_within(
            head,
            run,
            own + start + end,
            input_place(asked_cuts(s), 0, i),
            s.inputs()[i],
            asked_cut(s, i),
        );
        assert(head + run + (own + start + end) =~= args);
    }
    lemma_holds(head + run, own, start + end);
    assert(head + run + own + (start + end) =~= args);
    lemma_audio_start(head + run + own, meta, format, sample_rate, end);
    assert((head + run + own) + start + end =~= args);
    lemma_format_end(head + run + own + start, format);
    assert((head + run + own + start) + end =~= args);
}

/// A command line ends with progress reports and the format that is written.
pub open spec fn ends_with_format(args: Seq<Seq<char>>, format: Seq<char>) -> bool {
    args.len() >= 4 && args.skip(args.len() - 4) == seq!["-progress"@, "pipe:2"@, "-f"@, format]
}

proof fn lemma_format_end(a: Seq<Seq<char>>, format: Seq<char>)
    ensures
        ends_with_format(a + trailer_args(format), format),
{
    let args = a + trailer_args(format);
    assert(args.skip(args.len() - 4) =~= seq!["-progress"@, "pipe:2"@, "-f"@, format]);
}

// ── Start timecodes ────────────────────────────────────────────────────────

/// The samples from midnight to a timecode, to the nearest.
pub open spec fn is_sample_count(n: int, tc: TimecodeMetadata, sample_rate: u32) -> bool {
    let exact = ((tc.start.hours * 3600 + tc.start.minutes * 60 + tc.start.seconds) * tc.fps.num
        + tc.start.frames * tc.fps.den) * sample_rate;
    2 * n * tc.fps.num <= 2 * exact + tc.fps.num && (n < u64::MAX ==> 2 * exact < 2 * n * tc.fps.num
        + tc.fps.num)
}

/// An audio output starts at the timecode that was asked for; a WAV file also tells
/// the samples since midnight.
pub open spec fn starts_audio(
    args: Seq<Seq<char>>,
    meta: Option<TimecodeMetadata>,
    format: Seq<char>,
    sample_rate: u32,
) -> bool {
    meta matches Some(tc) ==> {
        &&& exists|text: Seq<char>|
            #[trigger] tells_timecode(text, tc.start, tc.drop_frame) && holds(
                args,
                seq!["-timecode"@, text],
            )
        &&& format == "wav"@ ==> exists|digits: Seq<char>, n: int|
            {
                &&& #[trigger] spells_number(digits, n)
                &&& is_sample_count(n, tc, sample_rate)
                &&& holds(
                    args,
                    seq!["-write_bext"@, "1"@, "-metadata"@, "time_reference="@ + digits],
                )
            }
    }
}

proof fn lemma_reference(tc: TimecodeMetadata, sample_rate: u32)
    requires
        tc.fps.valid(),
    ensures
        is_sample_count(written_reference(tc, sample_rate) as int, tc, sample_rate),
{
    crate::timecode_meta::law_reference_rounds(tc, sample_rate);
    let exact = scaled_seconds(tc) * sample_rate;
    let q = reference_samples(tc, sample_rate);
    let n = written_reference(tc, sample_rate) as int;
    let num = tc.fps.num as int;
    assert(scaled_seconds(tc) >= 0) by {
        let secs = tc.start.hours * 3600 + tc.start.minutes * 60 + tc.start.seconds;
        assert(secs * tc.fps.num >= 0 && tc.start.frames * tc.fps.den >= 0) by (nonlinear_arith)
            requires
                secs >= 0,
                tc.fps.num >= 0,
                tc.start.frames >= 0,
                tc.fps.den >= 0,
        ;
    }
    assert(exact >= 0) by (nonlinear_arith)
        requires
            exact == scaled_seconds(tc) * sample_rate,
            scaled_seconds(tc) >= 0,
            sample_rate >= 0,
    ;
    assert(2 * scaled_seconds(tc) * sample_rate == 2 * exact) by (nonlinear_arith)
        requires
            exact == scaled_seconds(tc) * sample_rate,
    ;
    assert(q >= 0) by (nonlinear_arith)
        requires
            q == (2 * exact + num) / (2 * num),
            exact >= 0,
            num > 0,
    ;
    assert(2 * n * num <= 2 * q * num) by (nonlinear_arith)
        requires
            n <= q,
            num > 0,
    ;
}

proof fn lemma_audio_start(
    a: Seq<Seq<char>>,
    meta: Option<TimecodeMetadata>,
    format: Seq<char>,
    sample_rate: u32,
    b: Seq<Seq<char>>,
)
    requires
        meta matches Some(tc) ==> tc.fps.valid(),
    ensures
        starts_audio(
            a + audio_timecode_args(meta, format, sample_rate) + b,
            meta,
            format,
            sample_rate,
        ),
{
    if let Some(tc) = meta {
        let start = audio_timecode_args(meta, format, sample_rate);
        let args = a + start + b;
        let text = timecode_text(tc.start, tc.drop_frame);
        law_timecode_text(tc.start, tc.drop_frame);
        let told = seq!["-timecode"@, text];
        let n = written_reference(tc, sample_rate);
        let digits = decimal(n);
        let reference = seq!["-write_bext"@, "1"@, "-metadata"@, "time_reference="@ + digits];
        let before = if format == "wav"@ {
            reference
        } else {
            seq![]
        };
        assert(start =~= before + told);
        lemma_holds(a + before, told, b);
        assert(a + before + told + b =~= args);
        if format == "wav"@ {
            law_decimal_spells(n);
            lemma_reference(tc, sample_rate);
            lemma_holds(a, reference, told + b);
            assert(a + reference + (told + b) =~= args);
        }
    }
}

/// A video output starts at the timecode that was asked for. Its frame rate is fixed
/// unless the video is copied.
pub open spec fn starts_video(args: Seq<Seq<char>>, meta: Option<TimecodeMetadata>, copied: bool) -> bool {
    meta matches Some(tc) ==> exists|text: Seq<char>|
        {
            &&& #[trigger] tells_timecode(text, tc.start, tc.drop_frame)
            &&& copied ==> holds(args, seq!["-timecode"@, text, "-write_tmcd"@, "1"@])
            &&& !copied ==> exists|rate: Seq<char>, n: int|
                {
                    &&& #[trigger] tells_thousandths(rate, n)
                    &&& 2 * (n * tc.fps.den) <= 2000 * tc.fps.num + tc.fps.den
                    &&& 2000 * tc.fps.num < 2 * (n * tc.fps.den) + tc.fps.den
                    &&& holds(
                        args,
                        seq!["-timecode"@, text, "-write_tmcd"@, "1"@, "-r"@, rate],
                    )
                }
        }
}

proof fn lemma_video_start(
    a: Seq<Seq<char>>,
    meta: Option<TimecodeMetadata>,
    copied: bool,
    b: Seq<Seq<char>>,
)
    requires
        meta matches Some(tc) ==> tc.fps.valid(),
    ensures
        starts_video(a + timecode_args(meta, !copied) + b, meta, copied),
{
    if let Some(tc) = meta {
        let text = timecode_text(tc.start, tc.drop_frame);
        law_timecode_text(tc.start, tc.drop_frame);
        let start = timecode_args(meta, !copied);
        lemma_holds(a, start, b);
        if copied {
            assert(start =~= seq!["-timecode"@, text, "-write_tmcd"@, "1"@]);
        } else {
            law_rate_text(tc.fps);
            assert(start =~= seq![
                "-timecode"@,
                text,
                "-write_tmcd"@,
                "1"@,
                "-r"@,
                rate_text(tc.fps),
            ]);
        }
        assert(tells_timecode(text, tc.start, tc.drop_frame));
    }
}

/// The start timecode that was asked for file `i`.
pub open spec fn asked_start(s: ConverterSettings, i: int) -> Option<TimecodeMetadata> {
    if 0 <= i < s.timecode_meta_per_file@.len() {
        s.timecode_meta_per_file@[i]
    } else {
        None
    }
}

// ── Videos ─────────────────────────────────────────────────────────────────

/// The format that a container is written with.
pub open spec fn container_format(container: Seq<char>) -> Seq<char> {
    if container == "mkv"@ {
        "matroska"@
    } else {
        container
    }
}

/// A command line that writes a video of file `i`: it reads the file from its cut on
/// and takes its video stream, copied or encoded as was asked for, from the start
/// timecode of the file on.
pub open spec fn writes_video(args: Seq<Seq<char>>, s: ConverterSettings, i: int) -> bool {
    &&& exists|k: int|
        {
            &&& #[trigger] reads_at(args, k, s.input_files@[i]@, asked_cut(s, i))
            &&& k + 3 < args.len()
            &&& args[k + 2] == "-map"@
            &&& args[k + 3] == "0:v"@
        }
    &&& holds(args, seq!["-c:v"@, asked_codec(s)])
    &&& starts_video(args, asked_start(s, i), s.copy_video)
    &&& ends_with_format(args, container_format(s.container@))
}

proof fn lemma_prelude_cuts_nothing(s: ConverterSettings)
    ensures
        ({
            let head = seq!["-y"@] + prelude(s);
            head.len() >= 2 ==> head[head.len() - 2] != "-ss"@
        }),
{
    lemma_words_differ();
    let head = seq!["-y"@] + prelude(s);
    if head.len() >= 2 {
        assert(head[head.len() - 2] == "-filter_hw_device"@);
    }
}

/// A command line made of a head, an input with the video stream taken from it, audio,
/// the codec of the video, a start timecode and an end.
proof fn lemma_parts(
    head: Seq<Seq<char>>,
    input: Seq<Seq<char>>,
    audio: Seq<Seq<char>>,
    stream: Seq<Seq<char>>,
    start: Seq<Seq<char>>,
    end: Seq<Seq<char>>,
    path: Seq<char>,
    cut: int,
    codec: Seq<char>,
) -> (args: Seq<Seq<char>>)
    requires
        ({
            let k = if cut > 1_000_000 {
                2int
            } else {
                0
            };
            input.len() == k + 2 && reads_at(input, k, path, cut)
        }),
        head.len() >= 2 ==> head[head.len() - 2] != "-ss"@,
        stream.len() >= 2,
        stream[0] == "-c:v"@,
        stream[1] == codec,
    ensures
        args == (head + input + seq!["-map"@, "0:v"@]) + audio + (stream + start + end),
        exists|k: int|
            {
                &&& #[trigger] reads_at(args, k, path, cut)
                &&& k + 3 < args.len()
                &&& args[k + 2] == "-map"@
                &&& args[k + 3] == "0:v"@
            },
        holds(args, seq!["-c:v"@, codec]),
        holds(args, seq!["-map"@, "0:v"@] + audio + seq!["-c:v"@]),
{
    let map = seq!["-map"@, "0:v"@];
    let args = (head + input + map) + audio + (stream + start + end);
    let rest = map + audio + (stream + start + end);
    let k = if cut > 1_000_000 {
        2int
    } else {
        0
    };
    lemma_reads_within(head, input, rest, k, path, cut);
    assert(head + input + rest =~= args);
    let at = head.len() + k;
    assert(args[at + 2] == map[0]);
    assert(args[at + 3] == map[1]);
    assert(reads_at(args, at, path, cut));
    let named = seq!["-c:v"@, codec];
    lemma_holds(head + input + map + audio, named, stream.skip(2) + start + end);
    assert(stream =~= named + stream.skip(2));
    assert(head + input + map + audio + named + (stream.skip(2) + start + end) =~= args);
    let around = map + audio + seq!["-c:v"@];
    lemma_holds(head + input, around, stream.skip(1) + start + end);
    assert(stream =~= seq!["-c:v"@] + stream.skip(1));
    assert(head + input + around + (stream.skip(1) + start + end) =~= args);
    args
}

/// The codec that a video is written with.
pub open spec fn asked_codec(s: ConverterSettings) -> Seq<char> {
    if s.copy_video {
        "copy"@
    } else {
        s.encoder()
    }
}

proof fn lemma_stream_named(s: ConverterSettings)
    ensures
        video_stream_args(s).len() >= 2,
        video_stream_args(s)[0] == "-c:v"@,
        video_stream_args(s)[1] == asked_codec(s),
{
}

proof fn lemma_video_command(s: ConverterSettings, i: int, audio: Seq<Seq<char>>)
    requires
        0 <= i < s.input_files@.len(),
        crate::ffmpeg_args::rates_valid(s),
    ensures
        writes_video(video_head(s, i) + audio + video_tail(s, i), s, i),
        holds(
            video_head(s, i) + audio + video_tail(s, i),
            seq!["-map"@, "0:v"@] + audio + seq!["-c:v"@],
        ),
{
    let head = seq!["-y"@] + prelude(s);
    let path = s.inputs()[i];
    assert(path == s.input_files@[i]@);
    assert(trim_of(s, i) == asked_cut(s, i));
    assert(meta_of(s, i) == asked_start(s, i));
    let input = input_args(path, trim_of(s, i));
    let stream = video_stream_args(s);
    let start = timecode_args(meta_of(s, i), !s.copy_video);
    let end = trailer_args(ffmpeg_format(s.container@));
    lemma_input_args(path, trim_of(s, i));
    lemma_prelude_cuts_nothing(s);
    lemma_stream_named(s);
    let args = lemma_parts(
        head,
        input,
        audio,
        stream,
        start,
        end,
        path,
        asked_cut(s, i),
        asked_codec(s),
    );
    assert(args == video_head(s, i) + audio + video_tail(s, i));
    let before = (head + input + seq!["-map"@, "0:v"@]) + audio;
    lemma_video_start(before + stream, meta_of(s, i), s.copy_video, end);
    assert(before + stream + start + end =~= args);
    lemma_format_end(before + stream + start, ffmpeg_format(s.container@));
}

/// A video without audio is made of its own file from its cut on and holds no audio.
pub proof fn law_video_only_command(s: ConverterSettings, i: int)
    requires
        0 <= i < s.input_files@.len(),
        crate::ffmpeg_args::rates_valid(s),
    ensures
        writes_video(video_only_args(s, i), s, i),
        holds(video_only_args(s, i), seq!["-map"@, "0:v"@] + seq!["-an"@] + seq!["-c:v"@]),
{
    lemma_video_command(s, i, seq!["-an"@]);
}

/// A video with audio is made of its own file from its cut on.
pub proof fn law_video_mux_command(s: ConverterSettings, i: int, keep: Keep, streams: Seq<AudioStreamInfo>)
    requires
        0 <= i < s.input_files@.len(),
        crate::ffmpeg_args::rates_valid(s),
    ensures
        writes_video(video_mux_args(s, i, keep, streams), s, i),
{
    lemma_video_command(s, i, kept_audio_args(s, keep, streams));
}

/// A video that keeps all audio takes every audio stream of its file, copied with the
/// video or encoded.
pub proof fn law_all_audio_is_kept(s: ConverterSettings, i: int, streams: Seq<AudioStreamInfo>)
    requires
        0 <= i < s.input_files@.len(),
        crate::ffmpeg_args::rates_valid(s),
    ensures
        holds(
            video_mux_args(s, i, Keep::AllAudio, streams),
            seq!["-map"@, "0:v"@] + seq![
                "-map"@,
                "0:a?"@,
                "-c:a"@,
                if s.copy_video {
                    "copy"@
                } else {
                    s.audio_encoder@
                },
            ] + seq!["-c:v"@],
        ),
{
    lemma_video_command(s, i, kept_audio_args(s, Keep::AllAudio, streams));
}

/// The channels of a stream that are left once some are dropped, in their order.
pub open spec fn is_left(channels: Seq<usize>, stream: AudioStreamInfo, drops: Seq<(usize, usize)>) -> bool {
    &&& forall|i: int, j: int| 0 <= i < j < channels.len() ==> channels[i] < channels[j]
    &&& forall|c: usize|
        channels.contains(c) <==> c < stream.channels && !drops.contains((stream.stream_index, c))
}

proof fn lemma_left_order(stream: usize, drops: Seq<(usize, usize)>, n: int)
    requires
        0 <= n <= usize::MAX,
    ensures
        forall|i: int, j: int|
            0 <= i < j < surviving_upto(stream, drops, n).len() ==> surviving_upto(
                stream,
                drops,
                n,
            )[i] < surviving_upto(stream, drops, n)[j],
        forall|i: int|
            0 <= i < surviving_upto(stream, drops, n).len() ==> #[trigger] surviving_upto(
                stream,
                drops,
                n,
            )[i] < n,
    decreases n,
{
    if n > 0 {
        lemma_left_order(stream, drops, n - 1);
        let before = surviving_upto(stream, drops, n - 1);
        let now = surviving_upto(stream, drops, n);
        assert(now == before || now == before.push((n - 1) as usize));
        assert forall|i: int| 0 <= i < now.len() implies #[trigger] now[i] < n by {
            if i < before.len() {
                assert(now[i] == before[i]);
            }
        }
        assert forall|i: int, j: int| 0 <= i < j < now.len() implies now[i] < now[j] by {
            assert(now[i] == before[i]);
            if j < before.len() {
                assert(now[j] == before[j]);
            }
        }
    }
}

/// What survives of a stream is what is left of it.
pub proof fn law_survivors_are_left(stream: AudioStreamInfo, drops: Seq<(usize, usize)>)
    ensures
        is_left(
            surviving_upto(stream.stream_index, drops, stream.channels as int),
            stream,
            drops,
        ),
{
    lemma_left_order(stream.stream_index, drops, stream.channels as int);
    let channels = surviving_upto(stream.stream_index, drops, stream.channels as int);
    assert forall|c: usize| channels.contains(c) <==> c < stream.channels && !drops.contains(
        (stream.stream_index, c),
    ) by {
        crate::ffmpeg_args::law_surviving_channels(stream, drops, c);
    }
}

/// A filter makes a stream of some channels of another, in their order, under a label.
pub open spec fn pans(filter: Seq<char>, stream: int, channels: Seq<usize>, label: Seq<char>) -> bool {
    exists|s: Seq<char>|
        {
            &&& #[trigger] spells_number(s, stream)
            &&& channels.len() == 1 ==> exists|c: Seq<char>|
                #[trigger] spells_number(c, channels[0] as int) && filter == "[0:"@ + s
                    + "]pan=mono|FC=c"@ + c + "["@ + label + "]"@
            &&& channels.len() > 1 ==> exists|routes: Seq<Seq<char>>|
                {
                    &&& routes.len() == channels.len()
                    &&& forall|i: int|
                        0 <= i < routes.len() ==> is_route(
                            #[trigger] routes[i],
                            i,
                            channels[i] as int,
                        )
                    &&& filter == "[0:"@ + s + "]pan="@ + (if channels.len() == 2 {
                        "stereo"@
                    } else {
                        "5.1"@
                    }) + "|"@ + #[trigger] joined(routes, "|"@) + "["@ + label + "]"@
                }
        }
}

/// Channel `i` of the output comes from `channel`.
pub open spec fn is_route(text: Seq<char>, i: int, channel: int) -> bool {
    exists|a: Seq<char>, b: Seq<char>|
        #[trigger] spells_number(a, i) && #[trigger] spells_number(b, channel) && text == "c"@ + a
            + "="@ + b
}

proof fn lemma_pans(stream: usize, channels: Seq<usize>, label: Seq<char>)
    ensures
        channels.len() > 0 ==> pans(
            pan_filter(stream, channels, label),
            stream as int,
            channels,
            label,
        ),
{
    law_decimal_spells(stream as nat);
    let s = decimal(stream as nat);
    if channels.len() == 1 {
        law_decimal_spells(channels[0] as nat);
        assert(spells_number(decimal(channels[0] as nat), channels[0] as int));
    } else if channels.len() > 1 {
        let routes = channel_routes(channels);
        assert forall|i: int| 0 <= i < routes.len() implies is_route(
            #[trigger] routes[i],
            i,
            channels[i] as int,
        ) by {
            law_decimal_spells(i as nat);
            law_decimal_spells(channels[i] as nat);
        }
        assert(joined(routes, "|"@) == joined(routes, "|"@));
    }
    assert(spells_number(s, stream as int));
}

/// A stream is kept as it is where no channel is dropped, and through a filter that
/// takes what is left of it where some are.
pub open spec fn keeps_stream(
    filters: Seq<Seq<char>>,
    labels: Seq<Seq<char>>,
    stream: AudioStreamInfo,
    drops: Seq<(usize, usize)>,
) -> bool {
    exists|channels: Seq<usize>, l: int|
        {
            &&& #[trigger] is_left(channels, stream, drops)
            &&& 0 <= l < labels.len()
            &&& if channels.len() == stream.channels {
                exists|digits: Seq<char>|
                    #[trigger] spells_number(digits, stream.stream_index as int)
                        && #[trigger] labels[l] == "0:"@ + digits
            } else {
                exists|f: int, label: Seq<char>|
                    {
                        &&& 0 <= f < filters.len()
                        &&& #[trigger] pans(
                            filters[f],
                            stream.stream_index as int,
                            channels,
                            label,
                        )
                        &&& labels[l] == "["@ + label + "]"@
                    }
            }
        }
}

/// How many of the first `n` streams have a channel left.
pub open spec fn streams_left(streams: Seq<AudioStreamInfo>, drops: Seq<(usize, usize)>, n: int) -> nat
    decreases n,
{
    if n <= 0 {
        0
    } else {
        streams_left(streams, drops, n - 1) + if exists|c: usize|
            c < streams[n - 1].channels && !#[trigger] drops.contains(
                (streams[n - 1].stream_index, c),
            ) {
            1
        } else {
            0nat
        }
    }
}

proof fn lemma_keeps_grow(
    filters: Seq<Seq<char>>,
    labels: Seq<Seq<char>>,
    more_filters: Seq<Seq<char>>,
    more_labels: Seq<Seq<char>>,
    stream: AudioStreamInfo,
    drops: Seq<(usize, usize)>,
)
    requires
        keeps_stream(filters, labels, stream, drops),
        filters.is_prefix_of(more_filters),
        labels.is_prefix_of(more_labels),
    ensures
        keeps_stream(more_filters, more_labels, stream, drops),
{
    let (channels, l) = choose|channels: Seq<usize>, l: int|
        {
            &&& #[trigger] is_left(channels, stream, drops)
            &&& 0 <= l < labels.len()
            &&& if channels.len() == stream.channels {
                exists|digits: Seq<char>|
                    #[trigger] spells_number(digits, stream.stream_index as int)
                        && #[trigger] labels[l] == "0:"@ + digits
            } else {
                exists|f: int, label: Seq<char>|
                    {
                        &&& 0 <= f < filters.len()
                        &&& #[trigger] pans(
                            filters[f],
                            stream.stream_index as int,
                            channels,
                            label,
                        )
                        &&& labels[l] == "["@ + label + "]"@
                    }
            }
        };
    assert(more_labels[l] == labels[l]) by {
        assert(labels == more_labels.subrange(0, labels.len() as int));
    }
    if channels.len() != stream.channels {
        let (f, label) = choose|f: int, label: Seq<char>|
            {
                &&& 0 <= f < filters.len()
                &&& #[trigger] pans(filters[f], stream.stream_index as int, channels, label)
                &&& labels[l] == "["@ + label + "]"@
            };
        assert(more_filters[f] == filters[f]) by {
            assert(filters == more_filters.subrange(0, filters.len() as int));
        }
        assert(pans(more_filters[f], stream.stream_index as int, channels, label));
    }
    assert(is_left(channels, stream, drops));
}

/// Dropping channels keeps every other: each stream with a channel left is kept with
/// exactly those channels, in their order, and there is one output stream for each.
pub proof fn law_dropping_keeps_the_rest(
    streams: Seq<AudioStreamInfo>,
    drops: Seq<(usize, usize)>,
    n: int,
)
    requires
        0 <= n <= streams.len(),
    ensures
        ({
            let (filters, labels) = mux_upto(streams, drops, n);
            &&& labels.len() == streams_left(streams, drops, n)
            &&& forall|j: int, c: usize|
                0 <= j < n && c < streams[j].channels && !#[trigger] drops.contains(
                    (streams[j].stream_index, c),
                ) ==> keeps_stream(filters, labels, streams[j], drops)
        }),
    decreases n,
{
    if n > 0 {
        law_dropping_keeps_the_rest(streams, drops, n - 1);
        let (old_filters, old_labels) = mux_upto(streams, drops, n - 1);
        let (filters, labels) = mux_upto(streams, drops, n);
        let s = streams[n - 1];
        let channels = surviving_upto(s.stream_index, drops, s.channels as int);
        law_survivors_are_left(s, drops);
        assert(old_filters.is_prefix_of(filters)) by {
            assert(old_filters =~= filters.subrange(0, old_filters.len() as int));
        }
        assert(old_labels.is_prefix_of(labels)) by {
            assert(old_labels =~= labels.subrange(0, old_labels.len() as int));
        }
        if channels.len() == 0 {
            assert forall|c: usize| c < s.channels implies #[trigger] drops.contains(
                (s.stream_index, c),
            ) by {
                assert(!channels.contains(c));
            }
        } else {
            let c = channels[0];
            assert(channels.contains(c));
            assert(!drops.contains((s.stream_index, c)));
            let l = old_labels.len() as int;
            if channels.len() == s.channels {
                law_decimal_spells(s.stream_index as nat);
                assert(labels[l] == "0:"@ + decimal(s.stream_index as nat));
            } else {
                let label = "a"@ + decimal(old_filters.len());
                lemma_pans(s.stream_index, channels, label);
                let f = old_filters.len() as int;
                assert(pans(filters[f], s.stream_index as int, channels, label));
                assert(labels[l] == "["@ + label + "]"@);
            }
            assert(keeps_stream(filters, labels, s, drops));
        }
        assert forall|j: int, c: usize|
            0 <= j < n && c < streams[j].channels && !#[trigger] drops.contains(
                (streams[j].stream_index, c),
            ) implies keeps_stream(filters, labels, streams[j], drops) by {
            if j < n - 1 {
                lemma_keeps_grow(old_filters, old_labels, filters, labels, streams[j], drops);
            } else {
                assert(channels.contains(c));
            }
        }
    }
}

proof fn lemma_map_args(labels: Seq<Seq<char>>, n: int, l: int)
    requires
        0 <= l < n <= labels.len(),
    ensures
        holds(map_args(labels, n), seq!["-map"@, labels[l]]),
    decreases n,
{
    let before = map_args(labels, n - 1);
    let own = seq!["-map"@, labels[n - 1]];
    if l == n - 1 {
        lemma_holds(before, own, seq![]);
        assert(before + own + seq![] =~= map_args(labels, n));
    } else {
        lemma_map_args(labels, n - 1, l);
        lemma_holds_in(seq![], before, own, seq!["-map"@, labels[l]]);
        assert(seq![] + before + own =~= map_args(labels, n));
    }
}

proof fn lemma_rest(
    s: ConverterSettings,
    drops: Seq<(usize, usize)>,
    streams: Seq<AudioStreamInfo>,
    l: int,
    head: Seq<Seq<char>>,
    tail: Seq<Seq<char>>,
)
    ensures
        ({
            let args = head + kept_audio_args(s, Keep::ChannelsExcept(drops), streams) + tail;
            let (filters, labels) = mux_upto(streams, drops, streams.len() as int);
            &&& labels.len() > 0 ==> holds(args, seq!["-c:a"@, s.audio_encoder@])
            &&& labels.len() > 0 && filters.len() > 0 ==> holds(
                args,
                seq!["-filter_complex"@, joined(filters, ";"@)],
            )
            &&& 0 <= l < labels.len() ==> holds(args, seq!["-map"@, labels[l]])
        }),
{
    let (filters, labels) = mux_upto(streams, drops, streams.len() as int);
    if labels.len() > 0 {
        let graph = if filters.len() > 0 {
            seq!["-filter_complex"@, joined(filters, ";"@)]
        } else {
            seq![]
        };
        let maps = map_args(labels, labels.len() as int);
        let codec = seq!["-c:a"@, s.audio_encoder@];
        lemma_rest_parts(head, graph, maps, codec, tail);
        if 0 <= l < labels.len() {
            lemma_map_args(labels, labels.len() as int, l);
            lemma_holds_in(head + graph, maps, codec + tail, seq!["-map"@, labels[l]]);
            lemma_regroup(head, graph, maps, codec, tail);
        }
    }
}

/// A video whose channels are dropped in part takes every stream that is kept, filtered
/// where it has to be.
pub proof fn law_rest_is_mapped(
    s: ConverterSettings,
    i: int,
    drops: Seq<(usize, usize)>,
    streams: Seq<AudioStreamInfo>,
    l: int,
)
    ensures
        ({
            let args = video_mux_args(s, i, Keep::ChannelsExcept(drops), streams);
            let (filters, labels) = mux_upto(streams, drops, streams.len() as int);
            &&& labels.len() > 0 ==> holds(args, seq!["-c:a"@, s.audio_encoder@])
            &&& labels.len() > 0 && filters.len() > 0 ==> holds(
                args,
                seq!["-filter_complex"@, joined(filters, ";"@)],
            )
            &&& 0 <= l < labels.len() ==> holds(args, seq!["-map"@, labels[l]])
        }),
{
    lemma_rest(s, drops, streams, l, video_head(s, i), video_tail(s, i));
}

/// A video whose channels are all dropped holds no audio.
pub proof fn law_nothing_left_is_silent(
    s: ConverterSettings,
    i: int,
    drops: Seq<(usize, usize)>,
    streams: Seq<AudioStreamInfo>,
)
    requires
        0 <= i < s.input_files@.len(),
        crate::ffmpeg_args::rates_valid(s),
        streams_left(streams, drops, streams.len() as int) == 0,
    ensures
        holds(
            video_mux_args(s, i, Keep::ChannelsExcept(drops), streams),
            seq!["-map"@, "0:v"@] + seq!["-an"@] + seq!["-c:v"@],
        ),
{
    law_dropping_keeps_the_rest(streams, drops, streams.len() as int);
    lemma_video_command(s, i, kept_audio_args(s, Keep::ChannelsExcept(drops), streams));
}

proof fn lemma_regroup(
    head: Seq<Seq<char>>,
    a: Seq<Seq<char>>,
    b: Seq<Seq<char>>,
    c: Seq<Seq<char>>,
    tail: Seq<Seq<char>>,
)
    ensures
        head + a + b + (c + tail) == head + (a + b + c) + tail,
{
    assert(head + a + b + (c + tail) =~= head + (a + b + c) + tail);
}

proof fn lemma_rest_parts(
    head: Seq<Seq<char>>,
    graph: Seq<Seq<char>>,
    maps: Seq<Seq<char>>,
    codec: Seq<Seq<char>>,
    tail: Seq<Seq<char>>,
)
    ensures
        holds(head + (graph + maps + codec) + tail, graph),
        holds(head + (graph + maps + codec) + tail, codec),
{
    let args = head + (graph + maps + codec) + tail;
    lemma_holds(head, graph, maps + codec + tail);
    assert(head + graph + (maps + codec + tail) =~= args);
    lemma_holds(head + graph + maps, codec, tail);
    assert(head + graph + maps + codec + tail =~= args);
}

// ── Single channels ────────────────────────────────────────────────────────

/// A command line that takes one channel out of a video reads that file from its cut
/// on, takes the channel of the stream that was asked for, and starts at the timecode
/// of the file.
pub proof fn law_extract_command(
    s: ConverterSettings,
    i: int,
    stream: usize,
    channel: usize,
    format: Seq<char>,
    sample_rate: u32,
)
    requires
        0 <= i < s.input_files@.len(),
        crate::ffmpeg_args::rates_valid(s),
    ensures
        ({
            let args = extract_args(s, i, stream, channel, format, sample_rate);
            &&& reads_at(
                args,
                if asked_cut(s, i) > 1_000_000 {
                    3
                } else {
                    1
                },
                s.input_files@[i]@,
                asked_cut(s, i),
            )
            &&& exists|a: Seq<char>, c: Seq<char>|
                {
                    &&& #[trigger] spells_number(a, stream as int)
                    &&& #[trigger] spells_number(c, channel as int)
                    &&& holds(args, seq!["-map"@, "0:"@ + a, "-af"@, "pan=mono|FC=c"@ + c, "-c:a"@])
                }
            &&& format == "wav"@ ==> holds(args, seq!["-c:a"@, "pcm_s24le"@])
            &&& format == "adts"@ ==> holds(args, seq!["-c:a"@, "aac"@])
            &&& format != "wav"@ && format != "adts"@ ==> holds(args, seq!["-c:a"@, s.audio_encoder@])
            &&& starts_audio(args, asked_start(s, i), format, sample_rate)
            &&& ends_with_format(args, format)
        }),
{
    let args = extract_args(s, i, stream, channel, format, sample_rate);
    let head = seq!["-y"@];
    let path = s.inputs()[i];
    let cut = trim_of(s, i);
    let input = input_args(path, cut);
    let a = decimal(stream as nat);
    let c = decimal(channel as nat);
    let taken = seq!["-map"@, "0:"@ + a, "-af"@, "pan=mono|FC=c"@ + c, "-c:a"@];
    let codec = encoder_for_format(s, format);
    let start = audio_timecode_args(meta_of(s, i), format, sample_rate);
    let end = trailer_args(format);
    law_decimal_spells(stream as nat);
    law_decimal_spells(channel as nat);
    lemma_input_args(path, cut);
    lemma_extract_parts(head, input, taken, codec, start, end, path, cut as int);
    assert(args =~= head + input + taken + seq![codec] + start + end);
    lemma_audio_start(
        head + input + taken + seq![codec],
        meta_of(s, i),
        format,
        sample_rate,
        end,
    );
    lemma_format_end(head + input + taken + seq![codec] + start, format);
    reveal_strlit("wav");
    reveal_strlit("adts");
    assert("wav"@.len() == 3 && "adts"@.len() == 4);
}

proof fn lemma_extract_parts(
    head: Seq<Seq<char>>,
    input: Seq<Seq<char>>,
    taken: Seq<Seq<char>>,
    codec: Seq<char>,
    start: Seq<Seq<char>>,
    end: Seq<Seq<char>>,
    path: Seq<char>,
    cut: int,
)
    requires
        head.len() == 1,
        taken.len() == 5,
        taken[4] == "-c:a"@,
        ({
            let k = if cut > 1_000_000 {
                2int
            } else {
                0
            };
            input.len() == k + 2 && reads_at(input, k, path, cut)
        }),
    ensures
        ({
            let args = head + input + taken + seq![codec] + start + end;
            &&& reads_at(
                args,
                if cut > 1_000_000 {
                    3
                } else {
                    1
                },
                path,
                cut,
            )
            &&& holds(args, taken)
            &&& holds(args, seq!["-c:a"@, codec])
        }),
{
    let args = head + input + taken + seq![codec] + start + end;
    let rest = taken + seq![codec] + start + end;
    lemma_reads_within(
        head,
        input,
        rest,
        if cut > 1_000_000 {
            2
        } else {
            0
        },
        path,
        cut,
    );
    assert(head + input + rest =~= args);
    lemma_holds(head + input, taken, seq![codec] + start + end);
    assert(head + input + taken + (seq![codec] + start + end) =~= args);
    let named = seq!["-c:a"@, codec];
    lemma_holds(head + input + taken.take(4), named, start + end);
    assert(taken =~= taken.take(4) + seq!["-c:a"@]);
    assert(head + input + taken.take(4) + named + (start + end) =~= args);
}

/// A command line that writes one track reads the file that is mapped to it, from its
/// cut on.
pub proof fn law_split_command(
    s: ConverterSettings,
    format: Seq<char>,
    track: int,
    meta: Option<TimecodeMetadata>,
    sample_rate: u32,
    input: int,
)
    requires
        0 <= input < s.channel_map@.len(),
        input < s.input_files@.len(),
        s.channel_map@[input] == track,
        forall|k: int| 0 <= k < input ==> s.channel_map@[k] != track,
        meta matches Some(tc) ==> tc.fps.valid(),
    ensures
        ({
            let args = split_track_args(s, format, track, meta, sample_rate);
            &&& reads_at(
                args,
                if asked_cut(s, input) > 1_000_000 {
                    3
                } else {
                    1
                },
                s.input_files@[input]@,
                asked_cut(s, input),
            )
            &&& holds(args, seq!["-vn"@, "-c:a"@, s.audio_encoder@])
            &&& starts_audio(args, meta, format, sample_rate)
            &&& ends_with_format(args, format)
        }),
{
    let args = split_track_args(s, format, track, meta, sample_rate);
    crate::channel_map::law_input_for_finds(s.channel_map@, track, track, input);
    let head = seq!["-y"@];
    let path = s.inputs()[input];
    let cut = trim_of(s, input);
    let piece = input_args(path, cut);
    let own = seq!["-vn"@, "-c:a"@, s.audio_encoder@];
    let start = audio_timecode_args(meta, format, sample_rate);
    let end = trailer_args(format);
    lemma_input_args(path, cut);
    lemma_reads_within(
        head,
        piece,
        own + start + end,
        if cut > 1_000_000 {
            2
        } else {
            0
        },
        path,
        cut as int,
    );
    assert(head + piece + (own + start + end) =~= args);
    lemma_holds(head + piece, own, start + end);
    assert(head + piece + own + (start + end) =~= args);
    lemma_audio_start(head + piece + own, meta, format, sample_rate, end);
    assert(head + piece + own + start + end =~= args);
    lemma_format_end(head + piece + own + start, format);
}

// ── Joined tracks ──────────────────────────────────────────────────────────

/// The cuts of the files of segments.
pub open spec fn segment_cuts(s: ConverterSettings, segments: Seq<(usize, usize, usize)>) -> Seq<int> {
    Seq::new(segments.len(), |i: int| asked_cut(s, segments[i].0 as int))
}

proof fn lemma_segment_run(s: ConverterSettings, segments: Seq<(usize, usize, usize)>, n: int)
    requires
        0 <= n <= segments.len(),
    ensures
        segment_inputs(s, segments, n) == input_run(
            Seq::new(segments.len(), |i: int| s.inputs()[segments[i].0 as int]),
            Seq::new(segments.len(), |i: int| trim_of(s, segments[i].0 as int)),
            n,
        ),
    decreases n,
{
    if n > 0 {
        lemma_segment_run(s, segments, n - 1);
    }
}

/// The filter of a segment: the channel of the stream of its own input, under its own
/// label.
pub open spec fn routes_segment(filter: Seq<char>, i: int, stream: int, channel: int) -> bool {
    exists|a: Seq<char>, b: Seq<char>, c: Seq<char>|
        {
            &&& #[trigger] spells_number(a, i)
            &&& #[trigger] spells_number(b, stream)
            &&& #[trigger] spells_number(c, channel)
            &&& filter == "["@ + a + ":"@ + b + "]pan=mono|FC=c"@ + c + "[a"@ + a + "]"@
        }
}

/// A track joined across clips reads the file of every segment in their order, each
/// from its own cut on, takes the channel of each segment and puts them one behind the
/// other in that order; it starts at the timecode of the first file.
pub proof fn law_concat_command(
    s: ConverterSettings,
    segments: Seq<(usize, usize, usize)>,
    format: Seq<char>,
    sample_rate: u32,
    i: int,
)
    requires
        forall|k: int| 0 <= k < segments.len() ==> (#[trigger] segments[k]).0 < s.input_files@.len(),
        0 <= i < segments.len(),
        crate::ffmpeg_args::rates_valid(s),
    ensures
        ({
            let args = concat_args(s, segments, format, sample_rate);
            &&& reads_at(
                args,
                input_place(segment_cuts(s, segments), 1, i),
                s.input_files@[segments[i].0 as int]@,
                asked_cut(s, segments[i].0 as int),
            )
            &&& exists|filters: Seq<Seq<char>>|
                {
                    &&& holds(
                        args,
                        seq![
                            "-filter_complex"@,
                            #[trigger] joined(filters, ";"@),
                            "-map"@,
                            "[out]"@,
                            "-vn"@,
                            "-c:a"@,
                            s.audio_encoder@,
                        ],
                    )
                    &&& filters.len() == segments.len() + 1
                    &&& routes_segment(filters[i], i, segments[i].1 as int, segments[i].2 as int)
                    &&& joins_labels(filters.last(), segments.len() as int)
                }
            &&& starts_audio(args, asked_start(s, 0), format, sample_rate)
            &&& ends_with_format(args, format)
        }),
{
    let args = concat_args(s, segments, format, sample_rate);
    let n = segments.len() as int;
    let head = seq!["-y"@];
    let run = segment_inputs(s, segments, n);
    let filters = segment_filters(segments).push(concat_filter(segments.len()));
    let own = seq![
        "-filter_complex"@,
        joined(filters, ";"@),
        "-map"@,
        "[out]"@,
        "-vn"@,
        "-c:a"@,
        s.audio_encoder@,
    ];
    let start = audio_timecode_args(meta_of(s, 0), format, sample_rate);
    let end = trailer_args(format);
    let paths = Seq::new(segments.len(), |i: int| s.inputs()[segments[i].0 as int]);
    let cuts = Seq::new(segments.len(), |i: int| trim_of(s, segments[i].0 as int));
    lemma_segment_run(s, segments, n);
    lemma_input_run(paths, cuts, n, i);
    assert(whole(cuts) =~= segment_cuts(s, segments));
    lemma_place_shift(segment_cuts(s, segments), 1, i);
    lemma_words_differ();
    lemma_reads_within(
        head,
        run,
        own + start + end,
        input_place(whole(cuts), 0, i),
        paths[i],
        cuts[i] as int,
    );
    assert(head + run + (own + start + end) =~= args);
    lemma_holds(head + run, own, start + end);
    assert(head + run + own + (start + end) =~= args);
    lemma_audio_start(head + run + own, meta_of(s, 0), format, sample_rate, end);
    assert(head + run + own + start + end =~= args);
    lemma_format_end(head + run + own + start, format);
    law_decimal_spells(i as nat);
    law_decimal_spells(segments[i].1 as nat);
    law_decimal_spells(segments[i].2 as nat);
    law_decimal_spells(segments.len());
    assert(filters[i] == segment_filters(segments)[i]);
    assert(routes_segment(filters[i], i, segments[i].1 as int, segments[i].2 as int));
    lemma_segment_labels(n);
    assert(joins_labels(filters.last(), n));
}

/// The labels of the segments one after the other.
pub open spec fn labels_in_order(text: Seq<char>, n: int) -> bool {
    exists|labels: Seq<Seq<char>>|
        {
            &&& text == #[trigger] joined(labels, seq![])
            &&& labels.len() == n
            &&& forall|i: int| 0 <= i < n ==> is_label(#[trigger] labels[i], i)
        }
}

/// The label of a segment.
pub open spec fn is_label(text: Seq<char>, i: int) -> bool {
    exists|digits: Seq<char>|
        #[trigger] spells_number(digits, i) && text == "[a"@ + digits + "]"@
}

/// The filter that puts all segments one behind the other.
pub open spec fn joins_labels(filter: Seq<char>, n: int) -> bool {
    exists|labels: Seq<char>, digits: Seq<char>|
        {
            &&& labels_in_order(labels, n)
            &&& #[trigger] spells_number(digits, n)
            &&& filter == #[trigger] (labels + "concat=n="@) + digits + ":v=0:a=1[out]"@
        }
}

proof fn lemma_segment_labels(n: int)
    requires
        0 <= n,
    ensures
        labels_in_order(segment_labels(n), n),
    decreases n,
{
    if n == 0 {
        let none = Seq::<Seq<char>>::empty();
        assert(joined(none, seq![]) =~= segment_labels(0));
    } else {
        lemma_segment_labels(n - 1);
        let before = choose|labels: Seq<Seq<char>>|
            {
                &&& segment_labels(n - 1) == #[trigger] joined(labels, seq![])
                &&& labels.len() == n - 1
                &&& forall|i: int| 0 <= i < n - 1 ==> is_label(#[trigger] labels[i], i)
            };
        let own = "[a"@ + decimal((n - 1) as nat) + "]"@;
        law_decimal_spells((n - 1) as nat);
        let now = before.push(own);
        assert(now.drop_last() =~= before);
        assert(is_label(own, n - 1));
        if n == 1 {
            assert(joined(now, seq![]) =~= segment_labels(1));
        } else {
            assert(joined(now, seq![]) =~= joined(before, seq![]) + own);
        }
        assert(joined(now, seq![]) =~= segment_labels(n));
        assert forall|i: int| 0 <= i < n implies is_label(#[trigger] now[i], i) by {
            if i < n - 1 {
                assert(now[i] == before[i]);
            }
        }
    }
}

// ── A synthetic video ──────────────────────────────────────────────────────

/// The filter of an audio input: it takes the input from its cut on and brings it to
/// an output label.
pub open spec fn brings(filter: Seq<char>, input: int, output: int, cut: int) -> bool {
    exists|n: Seq<char>, m: Seq<char>|
        {
            &&& #[trigger] spells_number(n, input)
            &&& #[trigger] spells_number(m, output)
            &&& cut <= 1_000_000 ==> filter == "["@ + n + ":a]volume=0dB[a"@ + m + "]"@
            &&& cut > 1_000_000 ==> exists|time: Seq<char>|
                #[trigger] tells_seconds(time, cut) && filter == "["@ + n + ":a]atrim=start="@ + time
                    + "[trimmed"@ + n + "];[trimmed"@ + n + "]volume=0dB[a"@ + m + "]"@
        }
}

proof fn lemma_brings(input: nat, output: nat, trim: u64)
    ensures
        brings(track_filter(input, output, trim), input as int, output as int, trim as int),
{
    law_decimal_spells(input);
    law_decimal_spells(output);
    law_time_text(trim as nat);
    assert(spells_number(decimal(input), input as int));
    assert(spells_number(decimal(output), output as int));
}

proof fn lemma_plain_inputs(inputs: Seq<Seq<char>>, n: int, k: int)
    requires
        0 <= n <= inputs.len(),
    ensures
        plain_inputs(inputs, n).len() == 2 * n,
        0 <= k < n ==> plain_inputs(inputs, n)[2 * k] == "-i"@ && plain_inputs(inputs, n)[2 * k + 1]
            == inputs[k],
    decreases n,
{
    if n > 0 {
        lemma_plain_inputs(inputs, n - 1, k);
    }
}

proof fn lemma_channel_maps(n: int, c: int)
    requires
        0 <= n,
    ensures
        channel_maps(n).len() == 2 * n,
        0 <= c < n ==> channel_maps(n)[2 * c] == "-map"@ && is_label(
            channel_maps(n)[2 * c + 1],
            c + 1,
        ),
    decreases n,
{
    if n > 0 {
        lemma_channel_maps(n - 1, c);
        law_decimal_spells(n as nat);
        if c == n - 1 {
            assert(channel_maps(n)[2 * c + 1] == "[a"@ + decimal(n as nat) + "]"@);
        }
    }
}

/// The audio filters of a synthetic video: input `i + 1`, which is file `i`, is brought
/// to the output that the channel map assigns to it.
pub open spec fn follows_map(filters: Seq<Seq<char>>, map: Seq<usize>, cut: int) -> bool {
    &&& filters.len() == map.len()
    &&& forall|i: int|
        0 <= i < map.len() ==> brings(#[trigger] filters[i], i + 1, map[i] + 1, cut)
}

/// The command line of a synthetic video in parts: the picture, the inputs, the audio
/// filters, the outputs, and how they are written.
proof fn lemma_synthetic(s: ConverterSettings)
    requires
        crate::ffmpeg_args::rates_valid(s),
    ensures
        ({
            let args = synthetic_args(s);
            let inputs = plain_inputs(s.inputs(), s.input_files@.len() as int);
            let maps = channel_maps(s.channel_map@.len() as int);
            let first = prelude(s).len() as int + 5;
            let at = first + inputs.len();
            &&& args.subrange(first - 4, first) == seq![
                "-f"@,
                "lavfi"@,
                "-i"@,
                "color=c=blue:s=1280x720:r=25"@,
            ]
            &&& forall|k: int| 0 <= k < inputs.len() ==> args[first + k] == #[trigger] inputs[k]
            &&& args.subrange(at, at + 4) == seq![
                "-map"@,
                "0:v"@,
                "-filter_complex"@,
                joined(track_filters(s.channel_map@, trim_of(s, 0)), ";"@),
            ]
            &&& forall|k: int| 0 <= k < maps.len() ==> args[at + 4 + k] == #[trigger] maps[k]
            &&& holds(args, seq!["-c:v"@, s.encoder()])
            &&& holds(args, seq!["-c:a"@, s.audio_encoder@])
            &&& holds(args, seq!["-shortest"@])
            &&& starts_video(args, meta_of(s, 0), false)
            &&& ends_with_format(args, ffmpeg_format(s.container@))
        }),
{
    let head = seq!["-y"@] + prelude(s);
    let picture = seq!["-f"@, "lavfi"@, "-i"@, "color=c=blue:s=1280x720:r=25"@];
    let inputs = plain_inputs(s.inputs(), s.input_files@.len() as int);
    let graph = seq![
        "-map"@,
        "0:v"@,
        "-filter_complex"@,
        joined(track_filters(s.channel_map@, trim_of(s, 0)), ";"@),
    ];
    let maps = channel_maps(s.channel_map@.len() as int);
    let video = video_encoder_args(s);
    let audio = seq!["-c:a"@, s.audio_encoder@];
    let start = timecode_args(meta_of(s, 0), true);
    let short = seq!["-shortest"@];
    let end = trailer_args(ffmpeg_format(s.container@));
    lemma_encoder_named(s);
    lemma_synthetic_parts(
        head,
        picture,
        inputs,
        graph,
        maps,
        video,
        audio,
        start,
        short,
        end,
        s.encoder(),
    );
    let before = head + picture + inputs + graph + maps + video + audio;
    lemma_video_start(before, meta_of(s, 0), false, short + end);
    lemma_format_end(before + start + short, ffmpeg_format(s.container@));
}

/// Audio under a synthetic picture: the picture is the first input, and behind it every
/// file is read in its order.
pub proof fn law_synthetic_inputs(s: ConverterSettings, i: int)
    requires
        crate::ffmpeg_args::rates_valid(s),
        0 <= i < s.input_files@.len(),
    ensures
        ({
            let args = synthetic_args(s);
            let first = prelude(s).len() as int + 5;
            &&& args.subrange(first - 4, first) == seq![
                "-f"@,
                "lavfi"@,
                "-i"@,
                "color=c=blue:s=1280x720:r=25"@,
            ]
            &&& args[first + 2 * i] == "-i"@
            &&& args[first + (2 * i + 1)] == s.input_files@[i]@
        }),
{
    lemma_synthetic(s);
    let inputs = plain_inputs(s.inputs(), s.input_files@.len() as int);
    lemma_plain_inputs(s.inputs(), s.input_files@.len() as int, i);
    assert(inputs[2 * i] == "-i"@);
    assert(inputs[2 * i + 1] == s.inputs()[i]);
}

/// Audio under a synthetic picture: file `i` is brought to the output channel that the
/// channel map assigns to it.
pub proof fn law_synthetic_follows_map(s: ConverterSettings)
    requires
        crate::ffmpeg_args::rates_valid(s),
    ensures
        exists|filters: Seq<Seq<char>>|
            {
                let at = prelude(s).len() as int + 5 + 2 * s.input_files@.len();
                &&& synthetic_args(s).subrange(at, at + 4) == seq![
                    "-map"@,
                    "0:v"@,
                    "-filter_complex"@,
                    #[trigger] joined(filters, ";"@),
                ]
                &&& follows_map(filters, s.channel_map@, asked_cut(s, 0))
            },
{
    lemma_synthetic(s);
    lemma_plain_inputs(s.inputs(), s.input_files@.len() as int, 0);
    lemma_filters_follow(s);
    let filters = track_filters(s.channel_map@, trim_of(s, 0));
    assert(joined(filters, ";"@) == joined(filters, ";"@));
}

proof fn lemma_filters_follow(s: ConverterSettings)
    ensures
        follows_map(
            track_filters(s.channel_map@, trim_of(s, 0)),
            s.channel_map@,
            asked_cut(s, 0),
        ),
{
    let filters = track_filters(s.channel_map@, trim_of(s, 0));
    assert forall|k: int| 0 <= k < s.channel_map@.len() implies brings(
        #[trigger] filters[k],
        k + 1,
        s.channel_map@[k] + 1,
        asked_cut(s, 0),
    ) by {
        lemma_brings((k + 1) as nat, (s.channel_map@[k] + 1) as nat, trim_of(s, 0));
    }
}

/// A filter names the output that it brings its input to: it cannot bring it to another
/// one too.
pub proof fn law_filter_tells_output(input: nat, a: nat, b: nat, trim: u64)
    requires
        track_filter(input, a, trim) == track_filter(input, b, trim),
    ensures
        a == b,
{
    let n = decimal(input);
    let head = if trim > 1_000_000 {
        "["@ + n + ":a]atrim=start="@ + seconds_text(trim as nat) + "[trimmed"@ + n + "];[trimmed"@
            + n + "]volume=0dB[a"@
    } else {
        "["@ + n + ":a]volume=0dB[a"@
    };
    let x = track_filter(input, a, trim);
    let y = track_filter(input, b, trim);
    reveal_strlit("]");
    assert(x == head + decimal(a) + "]"@);
    assert(y == head + decimal(b) + "]"@);
    assert(x.len() == head.len() + decimal(a).len() + 1);
    assert(y.len() == head.len() + decimal(b).len() + 1);
    assert(x.subrange(head.len() as int, x.len() - 1) =~= decimal(a));
    assert(y.subrange(head.len() as int, y.len() - 1) =~= decimal(b));
    law_decimals_differ(a, b);
}

/// Audio under a synthetic picture: the output channels are written in the order of
/// their numbers.
pub proof fn law_synthetic_outputs(s: ConverterSettings, c: int)
    requires
        crate::ffmpeg_args::rates_valid(s),
        0 <= c < s.channel_map@.len(),
    ensures
        ({
            let args = synthetic_args(s);
            let at = prelude(s).len() as int + 5 + 2 * s.input_files@.len() + 4;
            args[at + 2 * c] == "-map"@ && is_label(args[at + (2 * c + 1)], c + 1)
        }),
{
    lemma_synthetic(s);
    lemma_plain_inputs(s.inputs(), s.input_files@.len() as int, 0);
    let maps = channel_maps(s.channel_map@.len() as int);
    lemma_channel_maps(s.channel_map@.len() as int, c);
    assert(maps[2 * c] == "-map"@);
    assert(is_label(maps[2 * c + 1], c + 1));
}

/// Audio under a synthetic picture is written with the encoders that were chosen, no
/// longer than the audio, from the start timecode of the first file on.
pub proof fn law_synthetic_is_written(s: ConverterSettings)
    requires
        crate::ffmpeg_args::rates_valid(s),
    ensures
        holds(synthetic_args(s), seq!["-c:v"@, s.encoder()]),
        holds(synthetic_args(s), seq!["-c:a"@, s.audio_encoder@]),
        holds(synthetic_args(s), seq!["-shortest"@]),
        starts_video(synthetic_args(s), asked_start(s, 0), false),
        ends_with_format(synthetic_args(s), container_format(s.container@)),
{
    lemma_synthetic(s);
}

proof fn lemma_encoder_named(s: ConverterSettings)
    ensures
        video_encoder_args(s).len() >= 2,
        video_encoder_args(s)[0] == "-c:v"@,
        video_encoder_args(s)[1] == s.encoder(),
{
}

proof fn lemma_synthetic_parts(
    head: Seq<Seq<char>>,
    picture: Seq<Seq<char>>,
    inputs: Seq<Seq<char>>,
    graph: Seq<Seq<char>>,
    maps: Seq<Seq<char>>,
    video: Seq<Seq<char>>,
    audio: Seq<Seq<char>>,
    start: Seq<Seq<char>>,
    short: Seq<Seq<char>>,
    end: Seq<Seq<char>>,
    codec: Seq<char>,
)
    requires
        picture.len() == 4,
        graph.len() == 4,
        video.len() >= 2,
        video[0] == "-c:v"@,
        video[1] == codec,
    ensures
        ({
            let args = head + picture + inputs + graph + maps + video + audio + start + short + end;
            let first = head.len() as int + 4;
            let at = first + inputs.len();
            &&& args == head + picture + inputs + graph + maps + video + audio + start + (short + end)
            &&& args.subrange(first - 4, first) == picture
            &&& forall|k: int| 0 <= k < inputs.len() ==> args[first + k] == #[trigger] inputs[k]
            &&& args.subrange(at, at + 4) == graph
            &&& forall|k: int| 0 <= k < maps.len() ==> args[at + 4 + k] == #[trigger] maps[k]
            &&& holds(args, seq!["-c:v"@, codec])
            &&& holds(args, audio)
            &&& holds(args, short)
        }),
{
    let args = head + picture + inputs + graph + maps + video + audio + start + short + end;
    let first = head.len() as int + 4;
    let at = first + inputs.len();
    assert(args =~= head + picture + inputs + graph + maps + video + audio + start + (short + end));
    assert(args.subrange(first - 4, first) =~= picture);
    assert(args.subrange(at, at + 4) =~= graph);
    let named = seq!["-c:v"@, codec];
    let before = head + picture + inputs + graph + maps;
    lemma_holds(before, named, video.skip(2) + audio + start + short + end);
    assert(video =~= named + video.skip(2));
    assert(before + named + (video.skip(2) + audio + start + short + end) =~= args);
    lemma_holds(before + video, audio, start + short + end);
    assert(before + video + audio + (start + short + end) =~= args);
    lemma_holds(before + video + audio + start, short, end);
}

} // verus!
