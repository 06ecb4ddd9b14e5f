//! Decoding linear timecode: the search for the best way to read a recording
//! and the report on what was read.

use vstd::prelude::*;

use crate::ltc_frames::{
    decode_timecode_from_bits, find_frames, frame_search, lemma_binary_readable, timecode_at,
};
use crate::ltc_signal::{
    binary, bits_from, crossing_bits, crossings, decode_bits_from_zero_crossings,
    estimate_noise_floor, extract_bits, extract_bits_adaptive, find_zero_crossings, below, is_median, law_one_median, leading_magnitudes, snapped_bits_from, sound_spb, strictly_ascending, zc_in_range,
    MIN_NOISE_FLOOR, MIN_THRESHOLD, UNIT,
};
use crate::text::push_decimal;
use crate::wav::{header_of, mono_samples_of, read_mono_samples, wav_info, WavInfo};
use crate::timecode::{increment_timecode, next_timecode, FrameRate, Timecode};

verus! {

// ── Reports ────────────────────────────────────────────────────────────────

/// How a decode went.
#[derive(Clone, Debug, PartialEq)]
pub enum LtcDecodeStatus {
    Success,
    NoSyncWord,
    LowConfidence,
    Error { message: String },
}

/// A timecode and the time in the recording at which its frame begins.
#[derive(Clone, Copy, Debug, PartialEq, Eq, Structural)]
pub struct FrameTimecode {
    pub frame_index: u32,
    pub timecode: Timecode,
    pub timecode_nanos: i64,
}

/// How the bits of a candidate are read.
#[derive(Clone, Copy, Debug, PartialEq, Eq, Structural)]
pub enum Method {
    /// From the distances between zero crossings.
    ZcInterval,
    /// One bit at regular distances.
    Sampled,
    /// At distances corrected by the zero crossings.
    Adaptive,
    /// At regular distances through the whole recording.
    SinglePass,
}

/// One way to read a recording: the method, the length of a bit and the sample
/// at which the first one begins.
#[derive(Clone, Copy, Debug, PartialEq, Eq, Structural)]
pub struct Candidate {
    pub method: Method,
    pub spb: u128,
    pub phase: usize,
}

/// A share of `num` in `den`.
#[derive(Clone, Copy, Debug, PartialEq, Eq, Structural)]
pub struct Share {
    pub num: u64,
    pub den: u64,
}

/// One line of a report.
#[derive(Clone, Debug)]
pub enum Detail {
    Rate { fps: FrameRate, spb: u128, confidence: Share },
    Read { fps: FrameRate, valid: u32, possible: u32, candidate: Candidate },
    NoAlignment,
    ZeroCrossings { count: usize, threshold: u64 },
    Audio { samples: usize, sample_rate: u32, channels: usize },
    CoherentStart { trimmed: usize, at_nanos: i64, timecode: Timecode },
    Chunk { index: usize, valid: u32, possible: u32, confidence: Share },
    ChunkFailed { index: usize, message: String },
    Merged { chunks: usize, valid: u32, possible: u32 },
    ExternalDecoder { fps: FrameRate },
    InitialFrameLength(i32),
    QueueLength(usize),
}

/// What was decoded from a recording. A rate of zero stands for no rate.
#[derive(Clone, Debug)]
pub struct LtcDetectionResult {
    pub status: LtcDecodeStatus,
    pub detected_fps: FrameRate,
    pub drop_frame: bool,
    pub total_possible_frames: u32,
    pub valid_frames: u32,
    pub timecodes: Vec<FrameTimecode>,
    pub avg_confidence: Share,
    pub details: Vec<Detail>,
    pub total_samples: usize,
    pub sample_rate: u32,
    pub first_ltc_nanos: i64,
}

/// The rate of a recording without timecode.
pub open spec fn no_rate() -> FrameRate {
    FrameRate { num: 0, den: 1 }
}

/// The share of nothing.
pub open spec fn no_share() -> Share {
    Share { num: 0, den: 1 }
}

impl LtcDetectionResult {
    /// The report on a recording that could not be decoded.
    pub open spec fn is_error(self, message: Seq<char>) -> bool {
        &&& self.status matches LtcDecodeStatus::Error { message: m } && m@ == message
        &&& self.detected_fps == no_rate()
        &&& !self.drop_frame
        &&& self.total_possible_frames == 0
        &&& self.valid_frames == 0
        &&& self.timecodes@.len() == 0
        &&& self.avg_confidence == no_share()
        &&& self.details@.len() == 0
        &&& self.total_samples == 0
        &&& self.sample_rate == 0
        &&& self.first_ltc_nanos == 0
    }

    /// Reports that a recording could not be decoded.
    pub fn error(message: String) -> (r: Self)
        ensures
            r.is_error(message@),
    {
        LtcDetectionResult {
            status: LtcDecodeStatus::Error { message },
            detected_fps: FrameRate { num: 0, den: 1 },
            drop_frame: false,
            total_possible_frames: 0,
            valid_frames: 0,
            timecodes: Vec::new(),
            avg_confidence: Share { num: 0, den: 1 },
            details: Vec::new(),
            total_samples: 0,
            sample_rate: 0,
            first_ltc_nanos: 0,
        }
    }
}

// ── Time ───────────────────────────────────────────────────────────────────

/// The time of the bit `start` bits after sample `phase`, in nanoseconds,
/// rounded down; times past the range of the clock are its end.
pub open spec fn bit_nanos(phase: int, start: int, spb: u128, sample_rate: u32) -> i64 {
    let t = ((phase * UNIT + start * spb) * 1_000_000_000) / (sample_rate * 0x1_0000_0000);
    if t > i64::MAX {
        i64::MAX
    } else {
        t as i64
    }
}

fn bit_time(phase: usize, start: usize, spb: u128, sample_rate: u32) -> (r: i64)
    requires
        sample_rate > 0,
        sound_spb(spb),
    ensures
        r == bit_nanos(phase as int, start as int, spb, sample_rate),
{
    let unit: u128 = sample_rate as u128 * 0x1_0000_0000u128;
    let offset: u128 = phase as u128 * UNIT;
    let billion: u128 = 1_000_000_000;
    if start > 0 && spb > (u128::MAX - offset) / (start as u128) {
        proof {
            lemma_time_past_end(offset as int, start as int, spb as int, unit as int);
        }
        return i64::MAX;
    }
    proof {
        if start > 0 {
            lemma_product_fits(offset as int, start as int, spb as int);
        } else {
            assert(start * spb == 0) by (nonlinear_arith)
                requires
                    start == 0,
            ;
        }
    }
    let pos: u128 = offset + (start as u128) * spb;
    let secs: u128 = pos / unit;
    let rest: u128 = pos % unit;
    proof {
        assert(rest * billion <= 0xffff_ffff_ffff_ffff * 1_000_000_000) by (nonlinear_arith)
            requires
                rest < unit,
                unit <= 0xffff_ffff_0000_0000,
                billion == 1_000_000_000,
        ;
        lemma_split_time(pos as int, unit as int);
    }
    let fraction: u128 = rest * billion / unit;
    if secs > 9_223_372_036 {
        proof {
            assert(secs * billion >= 9_223_372_037 * 1_000_000_000);
        }
        return i64::MAX;
    }
    let total: u128 = secs * billion + fraction;
    if total > i64::MAX as u128 {
        i64::MAX
    } else {
        total as i64
    }
}

proof fn lemma_split_time(pos: int, unit: int)
    requires
        pos >= 0,
        unit > 0,
    ensures
        (pos * 1_000_000_000) / unit == (pos / unit) * 1_000_000_000 + ((pos % unit) * 1_000_000_000)
            / unit,
        (pos % unit) * 1_000_000_000 / unit >= 0,
{
    let q = pos / unit;
    let r = pos % unit;
    vstd::arithmetic::div_mod::lemma_fundamental_div_mod(pos, unit);
    assert(pos * 1_000_000_000 == unit * (q * 1_000_000_000) + r * 1_000_000_000)
        by (nonlinear_arith)
        requires
            pos == unit * q + r,
    ;
    vstd::arithmetic::div_mod::lemma_hoist_over_denominator(
        r * 1_000_000_000,
        q * 1_000_000_000,
        unit as nat,
    );
    assert(unit * (q * 1_000_000_000) == (q * 1_000_000_000) * unit) by (nonlinear_arith);
    assert((r * 1_000_000_000) / unit >= 0) by (nonlinear_arith)
        requires
            r >= 0,
            unit > 0,
    ;
}

proof fn lemma_product_fits(offset: int, start: int, spb: int)
    requires
        start > 0,
        0 <= offset <= u128::MAX,
        0 <= spb <= (u128::MAX - offset) / start,
    ensures
        start * spb >= 0,
        offset + start * spb <= u128::MAX,
{
    let q = (u128::MAX - offset) / start;
    vstd::arithmetic::div_mod::lemma_fundamental_div_mod(u128::MAX - offset, start);
    assert(start * spb <= start * q && start * spb >= 0) by (nonlinear_arith)
        requires
            start > 0,
            0 <= spb <= q,
    ;
}

proof fn lemma_time_past_end(offset: int, start: int, spb: int, unit: int)
    requires
        start > 0,
        0 <= offset <= u128::MAX,
        spb > (u128::MAX - offset) / start,
        0 < unit <= 0xffff_ffff_0000_0000,
    ensures
        ((offset + start * spb) * 1_000_000_000) / unit > u64::MAX,
{
    let q = (u128::MAX - offset) / start;
    vstd::arithmetic::div_mod::lemma_fundamental_div_mod(u128::MAX - offset, start);
    let r = (u128::MAX - offset) % start;
    assert(start * spb >= start * q + start) by (nonlinear_arith)
        requires
            start > 0,
            spb >= q + 1,
    ;
    let pos = offset + start * spb;
    assert(pos > u128::MAX);
    assert((pos * 1_000_000_000) / unit >= 0x1_0000_0000_0000_0000) by (nonlinear_arith)
        requires
            pos > u128::MAX,
            0 < unit <= 0xffff_ffff_0000_0000,
    ;
}

// ── Coherent sequences ─────────────────────────────────────────────────────

/// `next` is the label after `prev`, and its frame begins between half a frame
/// and one and a half frames later.
pub open spec fn coherent_pair(prev: FrameTimecode, next: FrameTimecode, fps: FrameRate, drop_frame: bool) -> bool {
    let dt = next.timecode_nanos - prev.timecode_nanos;
    &&& next.timecode == next_timecode(prev.timecode, fps.labels(), drop_frame)
    &&& 1_000_000_000 * fps.den < 2 * (dt * fps.num)
    &&& 2 * (dt * fps.num) < 3_000_000_000 * fps.den
}

/// The frames `i..i + n` are in range and each follows the one before it.
pub open spec fn coherent_run(
    tcs: Seq<FrameTimecode>,
    i: int,
    n: int,
    fps: FrameRate,
    drop_frame: bool,
) -> bool {
    &&& 0 <= i
    &&& i + n <= tcs.len()
    &&& forall|j: int| i <= j < i + n ==> (#[trigger] tcs[j]).timecode.in_range(fps.labels())
    &&& forall|j: int|
        i < j < i + n ==> coherent_pair(tcs[j - 1], #[trigger] tcs[j], fps, drop_frame)
}

/// The frames in two seconds, rounded up, but at least two.
pub open spec fn run_length(fps: FrameRate) -> int {
    let n = (2 * fps.num + fps.den - 1) / (fps.den as int);
    if n < 2 {
        2
    } else {
        n
    }
}

fn in_range(tc: &Timecode, labels: u32) -> (r: bool)
    ensures
        r == tc.in_range(labels as nat),
{
    tc.hours < 24 && tc.minutes < 60 && tc.seconds < 60 && tc.frames < labels
}

fn is_coherent_pair(prev: &FrameTimecode, next: &FrameTimecode, fps: FrameRate, drop_frame: bool) -> (r: bool)
    requires
        fps.den > 0,
        prev.timecode.in_range(fps.labels()),
        fps.labels() <= u32::MAX,
    ensures
        r == coherent_pair(*prev, *next, fps, drop_frame),
{
    let expected = increment_timecode(&prev.timecode, fps, drop_frame);
    if next.timecode != expected {
        return false;
    }
    let dt: i128 = next.timecode_nanos as i128 - prev.timecode_nanos as i128;
    proof {
        assert(-0xffff_ffff_ffff_ffff * 0xffff_ffff <= dt * fps.num <= 0xffff_ffff_ffff_ffff
            * 0xffff_ffff) by (nonlinear_arith)
            requires
                -0xffff_ffff_ffff_ffff <= dt <= 0xffff_ffff_ffff_ffff,
                0 <= fps.num <= 0xffff_ffff,
        ;
    }
    let scaled: i128 = 2 * (dt * fps.num as i128);
    1_000_000_000i128 * (fps.den as i128) < scaled && scaled < 3_000_000_000i128 * (fps.den as i128)
}

/// Finds the first frame from which the timecodes count up without a jump or a
/// gap for two seconds.
///
/// `None` where no such run exists, as with too few frames or no rate.
pub fn find_first_coherent_index(
    timecodes: &[FrameTimecode],
    fps: FrameRate,
    drop_frame: bool,
) -> (r: Option<usize>)
    requires
        fps.den > 0,
    ensures
        match r {
            Some(i) => {
                &&& fps.num > 0
                &&& coherent_run(timecodes@, i as int, run_length(fps), fps, drop_frame)
                &&& forall|k: int|
                    0 <= k < i ==> !#[trigger] coherent_run(
                        timecodes@,
                        k,
                        run_length(fps),
                        fps,
                        drop_frame,
                    )
            },
            None => fps.num == 0 || forall|k: int|
                0 <= k ==> !#[trigger] coherent_run(
                    timecodes@,
                    k,
                    run_length(fps),
                    fps,
                    drop_frame,
                ),
        },
{
    if timecodes.len() == 0 || fps.num == 0 {
        proof {
            assert(run_length(fps) >= 2);
        }
        return None;
    }
    let labels: u32 = fps.nominal();
    let exact: u64 = (2 * fps.num as u64 + fps.den as u64 - 1) / fps.den as u64;
    let min_run: u64 = if exact < 2 {
        2
    } else {
        exact
    };
    if (timecodes.len() as u64) < min_run {
        return None;
    }
    let last: usize = timecodes.len() - min_run as usize;
    let mut i: usize = 0;
    let n: usize = timecodes.len();
    while i <= last
        invariant
            n == timecodes@.len(),
            i <= last + 1,
            last == n - min_run,
            min_run == run_length(fps),
            min_run >= 2,
            fps.den > 0,
            fps.num > 0,
            labels == fps.labels(),
            forall|k: int|
                0 <= k < i ==> !#[trigger] coherent_run(
                    timecodes@,
                    k,
                    run_length(fps),
                    fps,
                    drop_frame,
                ),
        decreases last + 1 - i,
    {
        let mut run: usize = 0;
        let mut ok: bool = in_range(&timecodes[i].timecode, labels);
        assert(!ok ==> !coherent_run(timecodes@, i as int, run_length(fps), fps, drop_frame)) by {
            assert(timecodes@[i as int].timecode.in_range(labels as nat) == ok);
        }
        if ok {
            run = 1;
        }
        while ok && (run as u64) < min_run
            invariant
                n == timecodes@.len(),
                i <= last,
                last == n - min_run,
                min_run == run_length(fps),
                min_run >= 2,
                fps.den > 0,
                fps.num > 0,
                labels == fps.labels(),
                run <= min_run,
                ok ==> coherent_run(timecodes@, i as int, run as int, fps, drop_frame) && run >= 1,
                !ok ==> !coherent_run(timecodes@, i as int, run_length(fps), fps, drop_frame),
            decreases min_run - run + (if ok { 1int } else { 0 }),
        {
            let j: usize = i + run;
            let here = timecodes[j];
            let before = timecodes[j - 1];
            assert(timecodes@[j - 1].timecode.in_range(fps.labels()));
            ok = in_range(&here.timecode, labels) && is_coherent_pair(&before, &here, fps, drop_frame);
            if ok {
                run += 1;
            } else {
                assert(!coherent_run(timecodes@, i as int, run_length(fps), fps, drop_frame)) by {
                    assert(timecodes@[j as int] == here);
                    assert(timecodes@[j - 1] == before);
                }
            }
        }
        if ok {
            return Some(i);
        }
        i += 1;
    }
    None
}

// ── Candidates ─────────────────────────────────────────────────────────────

/// The length of a bit at a sample rate and frame rate, rounded down but at
/// least one unit.
pub open spec fn nominal_spb(sample_rate: u32, fps: FrameRate) -> u128 {
    let exact = (sample_rate * fps.den * 0x1_0000_0000) / (80 * fps.num as int);
    if exact < 1 {
        1
    } else {
        exact as u128
    }
}

/// Bit lengths that stay sound when they are varied.
pub open spec fn sound_nominal(nominal: u128) -> bool {
    0 < nominal <= 0x400_0000_0000_0000_0000_0000
}

fn nominal_bit_length(sample_rate: u32, fps: FrameRate) -> (r: u128)
    requires
        fps.valid(),
    ensures
        r == nominal_spb(sample_rate, fps),
        sound_nominal(r),
{
    proof {
        assert(0 <= sample_rate * fps.den <= 0xffff_ffff * 0xffff_ffff) by (nonlinear_arith)
            requires
                0 <= sample_rate <= 0xffff_ffff,
                0 <= fps.den <= 0xffff_ffff,
        ;
    }
    let wide: u128 = (sample_rate as u128) * (fps.den as u128) * 0x1_0000_0000u128;
    let exact: u128 = wide / (80 * fps.num as u128);
    proof {
        let den = 80 * fps.num as int;
        assert(wide as int / den <= wide as int / 80) by (nonlinear_arith)
            requires
                den >= 80,
                wide >= 0,
        ;
    }
    if exact < 1 {
        1
    } else {
        exact
    }
}

/// The bit lengths to try around the nominal one, for recordings whose clock
/// drifted: two shorter and two longer ones where a bit has eight samples or more.
pub open spec fn spb_variants(nominal: u128) -> Seq<u128> {
    if nominal >= 0x8_0000_0000 {
        let half = if nominal * 4 / 1000 > 214748364 {
            nominal * 4 / 1000
        } else {
            214748364
        };
        seq![
            (nominal - half) as u128,
            (nominal - half / 2) as u128,
            nominal,
            (nominal + half / 2) as u128,
            (nominal + half) as u128,
        ]
    } else {
        seq![nominal]
    }
}

fn bit_length_variants(nominal: u128) -> (r: Vec<u128>)
    requires
        sound_nominal(nominal),
    ensures
        r@ == spb_variants(nominal),
        forall|k: int| 0 <= k < r@.len() ==> sound_spb(#[trigger] r@[k]),
{
    let mut v: Vec<u128> = Vec::new();
    if nominal >= 0x8_0000_0000 {
        let share: u128 = nominal * 4 / 1000;
        let half: u128 = if share > 214748364 {
            share
        } else {
            214748364
        };
        v.push(nominal - half);
        v.push(nominal - half / 2);
        v.push(nominal);
        v.push(nominal + half / 2);
        v.push(nominal + half);
    } else {
        v.push(nominal);
    }
    assert(v@ =~= spb_variants(nominal));
    v
}

/// How many crossings serve as starting points: a quarter of the samples of a
/// bit, but between five and twelve.
pub open spec fn phase_count(spb: u128, available: nat) -> nat {
    let quarter = (spb + 0x2_0000_0000) / 0x4_0000_0000;
    let wanted: nat = if quarter < 5 {
        5
    } else if quarter > 12 {
        12
    } else {
        quarter as nat
    };
    if wanted < available {
        wanted
    } else {
        available
    }
}

fn count_phases(spb: u128, available: usize) -> (r: usize)
    requires
        sound_spb(spb),
    ensures
        r == phase_count(spb, available as nat),
        r <= available,
{
    let quarter: u128 = (spb + 0x2_0000_0000) / 0x4_0000_0000;
    let wanted: usize = if quarter < 5 {
        5
    } else if quarter > 12 {
        12
    } else {
        quarter as usize
    };
    if wanted < available {
        wanted
    } else {
        available
    }
}

/// `phase` moved back by half a bit.
pub open spec fn half_bit_before(phase: usize, spb: u128) -> usize {
    let half = spb as int / 0x2_0000_0000;
    if phase > half {
        (phase - half) as usize
    } else {
        0
    }
}

/// The sampled candidates for one bit length: every starting point, and half a
/// bit before it.
pub open spec fn sampled_candidates(zc: Seq<usize>, spb: u128) -> Seq<Candidate> {
    Seq::new(
        2 * phase_count(spb, zc.len()),
        |k: int|
            Candidate {
                method: Method::Sampled,
                spb,
                phase: if k % 2 == 0 {
                    zc[k / 2]
                } else {
                    half_bit_before(zc[k / 2], spb)
                },
            },
    )
}

/// The sampled candidates for several bit lengths, in order.
pub open spec fn all_sampled(zc: Seq<usize>, spbs: Seq<u128>) -> Seq<Candidate>
    decreases spbs.len(),
{
    if spbs.len() == 0 {
        seq![]
    } else {
        all_sampled(zc, spbs.drop_last()) + sampled_candidates(zc, spbs.last())
    }
}

/// The candidates that correct themselves, for the first `n` starting points
/// other than `phase`.
pub open spec fn adaptive_candidates(zc: Seq<usize>, spb: u128, phase: usize, n: int) -> Seq<Candidate>
    decreases n,
{
    if n <= 0 {
        seq![]
    } else if zc[n - 1] == phase {
        adaptive_candidates(zc, spb, phase, n - 1)
    } else {
        adaptive_candidates(zc, spb, phase, n - 1).push(
            Candidate { method: Method::Adaptive, spb, phase: zc[n - 1] },
        )
    }
}

pub open spec fn sound_candidate(c: Candidate) -> bool {
    sound_spb(c.spb) && (c.method == Method::Adaptive ==> c.spb >= UNIT)
}

/// The bits a candidate reads.
pub open spec fn candidate_bits(samples: Seq<i64>, zc: Seq<usize>, threshold: u64, c: Candidate) -> Seq<u8> {
    match c.method {
        Method::ZcInterval => crossing_bits(zc, c.spb),
        Method::Adaptive => snapped_bits_from(samples, c.spb, c.phase as int, threshold, zc),
        _ => bits_from(samples, c.spb, c.phase * UNIT, threshold),
    }
}

/// How many frames a candidate finds, and out of how many.
pub open spec fn score(samples: Seq<i64>, zc: Seq<usize>, threshold: u64, c: Candidate) -> (u32, u32) {
    let found = frame_search(candidate_bits(samples, zc, threshold, c));
    (found.0, found.1)
}

/// The frames of the best candidate so far; no candidate has none.
pub open spec fn best_score(samples: Seq<i64>, zc: Seq<usize>, threshold: u64, best: Option<Candidate>) -> u32 {
    match best {
        Some(c) => score(samples, zc, threshold, c).0,
        None => 0,
    }
}

/// The first candidate that finds the most frames, if it finds more than `init`.
pub open spec fn best_of(
    samples: Seq<i64>,
    zc: Seq<usize>,
    threshold: u64,
    init: Option<Candidate>,
    candidates: Seq<Candidate>,
) -> Option<Candidate>
    decreases candidates.len(),
{
    if candidates.len() == 0 {
        init
    } else {
        let before = best_of(samples, zc, threshold, init, candidates.drop_last());
        let c = candidates.last();
        if score(samples, zc, threshold, c).0 > best_score(samples, zc, threshold, before) {
            Some(c)
        } else {
            before
        }
    }
}

/// The best way to read a stretch of samples: the best sampled candidate,
/// replaced by a self-correcting one of the same bit length where that finds more.
pub open spec fn evaluate(samples: Seq<i64>, zc: Seq<usize>, nominal: u128, threshold: u64) -> Option<Candidate> {
    if nominal < 0x8000_0000 {
        None
    } else {
        let first = best_of(
            samples,
            zc,
            threshold,
            None,
            all_sampled(zc, spb_variants(nominal)),
        );
        match first {
            Some(c) if c.spb >= UNIT => best_of(
                samples,
                zc,
                threshold,
                first,
                adaptive_candidates(zc, c.spb, c.phase, phase_count(c.spb, zc.len()) as int),
            ),
            _ => first,
        }
    }
}

fn read_candidate_bits(samples: &[i64], zc: &[usize], threshold: u64, c: Candidate) -> (r: Vec<u8>)
    requires
        strictly_ascending(zc@),
        sound_candidate(c),
    ensures
        r@ == candidate_bits(samples@, zc@, threshold, c),
        binary(r@),
{
    match c.method {
        Method::ZcInterval => decode_bits_from_zero_crossings(zc, c.spb),
        Method::Adaptive => extract_bits_adaptive(samples, c.spb, c.phase, threshold, zc),
        Method::Sampled => extract_bits(samples, c.spb, c.phase, threshold),
        Method::SinglePass => extract_bits(samples, c.spb, c.phase, threshold),
    }
}

fn score_candidate(samples: &[i64], zc: &[usize], threshold: u64, c: Candidate) -> (r: (u32, u32))
    requires
        strictly_ascending(zc@),
        sound_candidate(c),
    ensures
        r == score(samples@, zc@, threshold, c),
{
    let bits = read_candidate_bits(samples, zc, threshold, c);
    let found = find_frames(bits.as_slice());
    (found.0, found.1)
}

fn list_sampled_candidates(zc: &[usize], spbs: &Vec<u128>) -> (r: Vec<Candidate>)
    requires
        forall|k: int| 0 <= k < spbs@.len() ==> sound_spb(#[trigger] spbs@[k]),
    ensures
        r@ == all_sampled(zc@, spbs@),
        forall|k: int| 0 <= k < r@.len() ==> sound_candidate(#[trigger] r@[k]),
{
    let mut out: Vec<Candidate> = Vec::new();
    let mut v: usize = 0;
    assert(spbs@.take(0) =~= seq![]);
    while v < spbs.len()
        invariant
            v <= spbs@.len(),
            forall|k: int| 0 <= k < spbs@.len() ==> sound_spb(#[trigger] spbs@[k]),
            out@ == all_sampled(zc@, spbs@.take(v as int)),
            forall|k: int| 0 <= k < out@.len() ==> sound_candidate(#[trigger] out@[k]),
        decreases spbs@.len() - v,
    {
        let spb: u128 = spbs[v];
        let count: usize = count_phases(spb, zc.len());
        let half: u128 = spb / 0x2_0000_0000;
        let ghost before = out@;
        let mut p: usize = 0;
        assert(sampled_candidates(zc@, spb).take(0) =~= seq![]);
        assert(before + sampled_candidates(zc@, spb).take(0) =~= before);
        while p < count
            invariant
                p <= count <= zc@.len(),
                count == phase_count(spb, zc@.len()),
                sound_spb(spb),
                half == spb / 0x2_0000_0000,
                out@ == before + sampled_candidates(zc@, spb).take(2 * p),
                forall|k: int| 0 <= k < out@.len() ==> sound_candidate(#[trigger] out@[k]),
            decreases count - p,
        {
            let phase: usize = zc[p];
            let back: usize = if phase as u128 > half {
                phase - half as usize
            } else {
                0
            };
            out.push(Candidate { method: Method::Sampled, spb, phase });
            out.push(Candidate { method: Method::Sampled, spb, phase: back });
            proof {
                let all = sampled_candidates(zc@, spb);
                assert(all[2 * p] == Candidate { method: Method::Sampled, spb, phase });
                assert((2 * p + 1) / 2 == p as int && (2 * p + 1) % 2 == 1);
                assert(all[2 * p + 1] == Candidate { method: Method::Sampled, spb, phase: back });
                assert(all.take(2 * p + 2) =~= all.take(2 * p).push(all[2 * p]).push(all[2 * p + 1]));
                assert(out@ =~= before + all.take(2 * (p + 1)));
            }
            p += 1;
        }
        proof {
            assert(sampled_candidates(zc@, spb).take(2 * count) =~= sampled_candidates(zc@, spb));
            assert(spbs@.take(v + 1).drop_last() =~= spbs@.take(v as int));
            assert(spbs@.take(v + 1).last() == spb);
        }
        v += 1;
    }
    assert(spbs@.take(v as int) =~= spbs@);
    out
}

fn list_adaptive_candidates(zc: &[usize], spb: u128, phase: usize) -> (r: Vec<Candidate>)
    requires
        sound_spb(spb),
        spb >= UNIT,
    ensures
        r@ == adaptive_candidates(zc@, spb, phase, phase_count(spb, zc@.len()) as int),
        forall|k: int| 0 <= k < r@.len() ==> sound_candidate(#[trigger] r@[k]),
{
    let count: usize = count_phases(spb, zc.len());
    let mut out: Vec<Candidate> = Vec::new();
    let mut p: usize = 0;
    while p < count
        invariant
            p <= count <= zc@.len(),
            sound_spb(spb),
            spb >= UNIT,
            out@ == adaptive_candidates(zc@, spb, phase, p as int),
            forall|k: int| 0 <= k < out@.len() ==> sound_candidate(#[trigger] out@[k]),
        decreases count - p,
    {
        if zc[p] != phase {
            out.push(Candidate { method: Method::Adaptive, spb, phase: zc[p] });
        }
        p += 1;
    }
    out
}

/// A candidate with what it finds.
#[derive(Clone, Copy, Debug, PartialEq, Eq, Structural)]
struct Scored {
    candidate: Candidate,
    valid: u32,
    possible: u32,
}

/// The candidate of a score that was taken of it.
spec fn scored(
    samples: Seq<i64>,
    zc: Seq<usize>,
    threshold: u64,
    s: Option<Scored>,
    best: Option<Candidate>,
) -> bool {
    match s {
        Some(x) => {
            &&& best == Some(x.candidate)
            &&& sound_candidate(x.candidate)
            &&& score(samples, zc, threshold, x.candidate) == (x.valid, x.possible)
        },
        None => best is None,
    }
}

fn pick_best(
    samples: &[i64],
    zc: &[usize],
    threshold: u64,
    init: Option<Scored>,
    Ghost(start): Ghost<Option<Candidate>>,
    candidates: &Vec<Candidate>,
) -> (r: Option<Scored>)
    requires
        strictly_ascending(zc@),
        scored(samples@, zc@, threshold, init, start),
        forall|k: int| 0 <= k < candidates@.len() ==> sound_candidate(#[trigger] candidates@[k]),
    ensures
        scored(
            samples@,
            zc@,
            threshold,
            r,
            best_of(samples@, zc@, threshold, start, candidates@),
        ),
{
    let mut best: Option<Scored> = init;
    let mut k: usize = 0;
    assert(candidates@.take(0) =~= seq![]);
    while k < candidates.len()
        invariant
            k <= candidates@.len(),
            strictly_ascending(zc@),
            scored(
                samples@,
                zc@,
                threshold,
                best,
                best_of(samples@, zc@, threshold, start, candidates@.take(k as int)),
            ),
            forall|k: int| 0 <= k < candidates@.len() ==> sound_candidate(#[trigger] candidates@[k]),
        decreases candidates@.len() - k,
    {
        let c = candidates[k];
        proof {
            assert(candidates@.take(k + 1).drop_last() =~= candidates@.take(k as int));
            assert(candidates@.take(k + 1).last() == c);
        }
        let (valid, possible) = score_candidate(samples, zc, threshold, c);
        let best_valid: u32 = match best {
            Some(b) => b.valid,
            None => 0,
        };
        if valid > best_valid {
            best = Some(Scored { candidate: c, valid, possible });
        }
        k += 1;
    }
    assert(candidates@.take(k as int) =~= candidates@);
    best
}

fn evaluate_on_slice(samples: &[i64], zc: &[usize], nominal: u128, threshold: u64) -> (r: Option<Scored>)
    requires
        strictly_ascending(zc@),
        sound_nominal(nominal),
    ensures
        scored(samples@, zc@, threshold, r, evaluate(samples@, zc@, nominal, threshold)),
{
    if nominal < 0x8000_0000 {
        return None;
    }
    let spbs = bit_length_variants(nominal);
    let sampled = list_sampled_candidates(zc, &spbs);
    let first = pick_best(samples, zc, threshold, None, Ghost(None), &sampled);
    match first {
        Some(b) if b.candidate.spb >= UNIT => {
            let refined = list_adaptive_candidates(zc, b.candidate.spb, b.candidate.phase);
            pick_best(samples, zc, threshold, first, Ghost(Some(b.candidate)), &refined)
        },
        _ => first,
    }
}

// ── Search through a recording ─────────────────────────────────────────────

/// Seven tenths or more of the possible frames were found.
pub open spec fn confident(valid: u32, possible: u32) -> bool {
    possible > 0 && 10 * valid >= 7 * possible
}

fn is_confident(valid: u32, possible: u32) -> (r: bool)
    ensures
        r == confident(valid, possible),
{
    possible > 0 && 10 * (valid as u64) >= 7 * (possible as u64)
}

/// The crossings in `start..end`, counted from `start`.
pub open spec fn window_crossings(zc: Seq<usize>, start: usize, end: usize) -> Seq<usize> {
    zc.subrange(below(zc, start), below(zc, end)).map_values(|p: usize| (p - start) as usize)
}

fn shifted_crossings(zc: &[usize], start: usize, end: usize) -> (r: Vec<usize>)
    requires
        strictly_ascending(zc@),
        start <= end,
    ensures
        r@ == window_crossings(zc@, start, end),
        strictly_ascending(r@),
        forall|k: int| 0 <= k < r@.len() ==> #[trigger] r@[k] < end - start,
{
    let part = zc_in_range(zc, start, end);
    let mut out: Vec<usize> = Vec::new();
    let mut i: usize = 0;
    while i < part.len()
        invariant
            i <= part@.len(),
            out@.len() == i,
            strictly_ascending(part@),
            forall|k: int| 0 <= k < part@.len() ==> start <= #[trigger] part@[k] < end,
            forall|k: int| 0 <= k < i ==> #[trigger] out@[k] == part@[k] - start,
        decreases part@.len() - i,
    {
        out.push(part[i] - start);
        i += 1;
    }
    assert(out@ =~= window_crossings(zc@, start, end));
    out
}

/// The best candidate of a window, with the sample at which the window starts.
#[derive(Clone, Copy, Debug, PartialEq, Eq, Structural)]
pub struct WindowBest {
    pub candidate: Candidate,
    pub start: usize,
    pub valid: u32,
}

/// How many windows of thirty seconds, fifteen seconds apart, are looked at.
pub open spec fn window_limit(len: nat, sample_rate: u32) -> int {
    let stride = 15 * sample_rate as int;
    if len as int / stride < 1 {
        1
    } else {
        len as int / stride
    }
}

/// Where window `idx` ends.
pub open spec fn window_end(len: nat, sample_rate: u32, idx: int) -> int {
    let end = idx * (15 * sample_rate) + 30 * sample_rate;
    if end < len {
        end
    } else {
        len as int
    }
}

pub open spec fn window_score(best: Option<WindowBest>) -> u32 {
    match best {
        Some(w) => w.valid,
        None => 0,
    }
}

/// The best window once window `idx` has been looked at, and whether the search
/// ends with it: with the first confident improvement or at the end of the
/// recording. A window with fewer than eight crossings is passed over.
pub open spec fn window_step(
    samples: Seq<i64>,
    zc: Seq<usize>,
    sample_rate: u32,
    nominal: u128,
    threshold: u64,
    idx: int,
    best: Option<WindowBest>,
) -> (Option<WindowBest>, bool) {
    let start = (idx * (15 * sample_rate)) as usize;
    let end = window_end(samples.len(), sample_rate, idx) as usize;
    let part = samples.subrange(start as int, end as int);
    let part_zc = window_crossings(zc, start, end);
    let found = if part_zc.len() < 8 {
        None
    } else {
        evaluate(part, part_zc, nominal, threshold)
    };
    if best_score(part, part_zc, threshold, found) > window_score(best) {
        let (valid, possible) = score(part, part_zc, threshold, found->0);
        (
            Some(WindowBest { candidate: found->0, start, valid }),
            end >= samples.len() || confident(valid, possible),
        )
    } else {
        (best, end >= samples.len())
    }
}

/// The best window from `idx` on.
pub open spec fn search_windows(
    samples: Seq<i64>,
    zc: Seq<usize>,
    sample_rate: u32,
    nominal: u128,
    threshold: u64,
    idx: int,
    best: Option<WindowBest>,
) -> Option<WindowBest>
    decreases window_limit(samples.len(), sample_rate) - idx,
{
    if idx >= window_limit(samples.len(), sample_rate) {
        best
    } else {
        let (next, stop) = window_step(samples, zc, sample_rate, nominal, threshold, idx, best);
        if stop {
            next
        } else {
            search_windows(samples, zc, sample_rate, nominal, threshold, idx + 1, next)
        }
    }
}

/// The candidate that reads the whole recording as a window was read.
pub open spec fn whole_file(w: WindowBest) -> Candidate {
    Candidate {
        method: Method::SinglePass,
        spb: w.candidate.spb,
        phase: (w.candidate.phase + w.start) as usize,
    }
}

/// The reading from the distances between crossings, where it finds anything.
pub open spec fn crossing_candidate(samples: Seq<i64>, zc: Seq<usize>, nominal: u128, threshold: u64) -> Option<Candidate> {
    let c = Candidate { method: Method::ZcInterval, spb: nominal, phase: zc[0] };
    if score(samples, zc, threshold, c).0 > 0 {
        Some(c)
    } else {
        None
    }
}

/// The way a recording is read in the end: from the crossings alone where that
/// is confident, else as the best window, else as the whole recording is best
/// read; the crossings win where they find more.
pub open spec fn chosen_candidate(
    samples: Seq<i64>,
    zc: Seq<usize>,
    sample_rate: u32,
    nominal: u128,
    threshold: u64,
) -> Option<Candidate> {
    let crossing = crossing_candidate(samples, zc, nominal, threshold);
    let crossing_score = best_score(samples, zc, threshold, crossing);
    if crossing is Some && confident(
        score(samples, zc, threshold, crossing->0).0,
        score(samples, zc, threshold, crossing->0).1,
    ) {
        crossing
    } else {
        let other = match search_windows(
            samples,
            zc,
            sample_rate,
            nominal,
            threshold,
            0,
            None,
        ) {
            Some(w) => Some(whole_file(w)),
            None => evaluate(samples, zc, nominal, threshold),
        };
        if crossing_score > best_score(samples, zc, threshold, other) {
            crossing
        } else {
            other
        }
    }
}

proof fn lemma_sampled_phases(zc: Seq<usize>, spbs: Seq<u128>, len: int)
    requires
        forall|k: int| 0 <= k < zc.len() ==> #[trigger] zc[k] < len,
    ensures
        forall|k: int|
            0 <= k < all_sampled(zc, spbs).len() ==> (#[trigger] all_sampled(zc, spbs)[k]).phase < len,
    decreases spbs.len(),
{
    if spbs.len() > 0 {
        lemma_sampled_phases(zc, spbs.drop_last(), len);
        let rest = all_sampled(zc, spbs.drop_last());
        let last = sampled_candidates(zc, spbs.last());
        assert forall|k: int| 0 <= k < all_sampled(zc, spbs).len() implies (#[trigger] all_sampled(
            zc,
            spbs,
        )[k]).phase < len by {
            if k < rest.len() {
                assert(all_sampled(zc, spbs)[k] == rest[k]);
            } else {
                let j = k - rest.len();
                assert(all_sampled(zc, spbs)[k] == last[j]);
                assert(zc[j / 2] < len);
            }
        }
    }
}

proof fn lemma_adaptive_phases(zc: Seq<usize>, spb: u128, phase: usize, n: int, len: int)
    requires
        n <= zc.len(),
        forall|k: int| 0 <= k < zc.len() ==> #[trigger] zc[k] < len,
    ensures
        forall|k: int|
            0 <= k < adaptive_candidates(zc, spb, phase, n).len() ==> (#[trigger] adaptive_candidates(
                zc,
                spb,
                phase,
                n,
            )[k]).phase < len,
    decreases n,
{
    if n > 0 {
        lemma_adaptive_phases(zc, spb, phase, n - 1, len);
        assert(zc[n - 1] < len);
    }
}

proof fn lemma_best_of_phase(
    samples: Seq<i64>,
    zc: Seq<usize>,
    threshold: u64,
    init: Option<Candidate>,
    candidates: Seq<Candidate>,
    len: int,
)
    requires
        init matches Some(c) ==> c.phase < len,
        forall|k: int| 0 <= k < candidates.len() ==> (#[trigger] candidates[k]).phase < len,
    ensures
        best_of(samples, zc, threshold, init, candidates) matches Some(c) ==> c.phase < len,
    decreases candidates.len(),
{
    if candidates.len() > 0 {
        lemma_best_of_phase(samples, zc, threshold, init, candidates.drop_last(), len);
    }
}

/// What reads a stretch of samples best begins within it.
proof fn lemma_evaluate_phase(samples: Seq<i64>, zc: Seq<usize>, nominal: u128, threshold: u64, len: int)
    requires
        forall|k: int| 0 <= k < zc.len() ==> #[trigger] zc[k] < len,
    ensures
        evaluate(samples, zc, nominal, threshold) matches Some(c) ==> c.phase < len,
{
    let all = all_sampled(zc, spb_variants(nominal));
    lemma_sampled_phases(zc, spb_variants(nominal), len);
    lemma_best_of_phase(samples, zc, threshold, None, all, len);
    let first = best_of(samples, zc, threshold, None, all);
    if let Some(c) = first {
        let n = phase_count(c.spb, zc.len()) as int;
        lemma_adaptive_phases(zc, c.spb, c.phase, n, len);
        lemma_best_of_phase(
            samples,
            zc,
            threshold,
            first,
            adaptive_candidates(zc, c.spb, c.phase, n),
            len,
        );
    }
}

/// The candidate of a window begins within the recording.
spec fn sound_window(w: Option<WindowBest>, len: int) -> bool {
    w matches Some(w) ==> sound_spb(w.candidate.spb) && w.candidate.phase + w.start < len
}

fn try_window(
    samples: &[i64],
    zc: &[usize],
    sample_rate: u32,
    nominal: u128,
    threshold: u64,
    idx: u64,
    best: Option<WindowBest>,
) -> (r: (Option<WindowBest>, bool))
    requires
        strictly_ascending(zc@),
        sound_nominal(nominal),
        idx * (15 * sample_rate) <= samples@.len(),
        sound_window(best, samples@.len() as int),
    ensures
        r == window_step(samples@, zc@, sample_rate, nominal, threshold, idx as int, best),
        sound_window(r.0, samples@.len() as int),
{
    let len: usize = samples.len();
    let start: usize = (idx * (15 * sample_rate as u64)) as usize;
    let end_wide: u128 = start as u128 + 30 * sample_rate as u128;
    let end: usize = if end_wide < len as u128 {
        end_wide as usize
    } else {
        len
    };
    let part_zc = shifted_crossings(zc, start, end);
    let part = vstd::slice::slice_subrange(samples, start, end);
    if part_zc.len() < 8 {
        return (best, end >= len);
    }
    match evaluate_on_slice(part, part_zc.as_slice(), nominal, threshold) {
        Some(f) => {
            let before: u32 = match best {
                Some(w) => w.valid,
                None => 0,
            };
            if f.valid > before {
                proof {
                    lemma_evaluate_phase(part@, part_zc@, nominal, threshold, part@.len() as int);
                }
                (
                    Some(WindowBest { candidate: f.candidate, start, valid: f.valid }),
                    end >= len || is_confident(f.valid, f.possible),
                )
            } else {
                (best, end >= len)
            }
        },
        None => (best, end >= len),
    }
}

proof fn lemma_window_start(len: int, stride: int, idx: int)
    requires
        len >= 0,
        stride > 0,
        0 <= idx,
        idx < (if len / stride < 1 { 1 } else { len / stride }),
    ensures
        idx * stride <= len,
{
    if len / stride >= 1 {
        vstd::arithmetic::div_mod::lemma_fundamental_div_mod(len, stride);
        let q = len / stride;
        assert(idx * stride <= stride * q) by (nonlinear_arith)
            requires
                0 <= idx <= q,
                stride > 0,
        ;
    } else {
        assert(idx * stride == 0) by (nonlinear_arith)
            requires
                idx == 0,
        ;
    }
}

fn find_best_window(
    samples: &[i64],
    zc: &[usize],
    sample_rate: u32,
    nominal: u128,
    threshold: u64,
) -> (r: Option<WindowBest>)
    requires
        strictly_ascending(zc@),
        sound_nominal(nominal),
        sample_rate > 0,
    ensures
        r == search_windows(samples@, zc@, sample_rate, nominal, threshold, 0, None),
        sound_window(r, samples@.len() as int),
{
    let whole: u64 = samples.len() as u64 / (15 * sample_rate as u64);
    let limit: u64 = if whole < 1 {
        1
    } else {
        whole
    };
    let mut best: Option<WindowBest> = None;
    let mut idx: u64 = 0;
    while idx < limit
        invariant
            sample_rate > 0,
            limit == window_limit(samples@.len(), sample_rate),
            idx <= limit,
            strictly_ascending(zc@),
            sound_nominal(nominal),
            sound_window(best, samples@.len() as int),
            search_windows(samples@, zc@, sample_rate, nominal, threshold, idx as int, best)
                == search_windows(samples@, zc@, sample_rate, nominal, threshold, 0, None),
        decreases limit - idx,
    {
        proof {
            lemma_window_start(samples@.len() as int, 15 * sample_rate as int, idx as int);
        }
        let (next, stop) = try_window(samples, zc, sample_rate, nominal, threshold, idx, best);
        if stop {
            return next;
        }
        best = next;
        idx += 1;
    }
    best
}

fn choose_candidate(
    samples: &[i64],
    zc: &[usize],
    sample_rate: u32,
    nominal: u128,
    threshold: u64,
) -> (r: Option<Candidate>)
    requires
        strictly_ascending(zc@),
        zc@.len() > 0,
        sound_nominal(nominal),
        sample_rate > 0,
    ensures
        r == chosen_candidate(samples@, zc@, sample_rate, nominal, threshold),
        r matches Some(c) ==> sound_candidate(c),
{
    let len: usize = samples.len();
    let by_crossings = Candidate { method: Method::ZcInterval, spb: nominal, phase: zc[0] };
    let (valid, possible) = score_candidate(samples, zc, threshold, by_crossings);
    if valid > 0 && is_confident(valid, possible) {
        return Some(by_crossings);
    }
    let window = find_best_window(samples, zc, sample_rate, nominal, threshold);
    let (other, other_valid): (Option<Candidate>, u32) = match window {
        Some(w) => {
            assert(w.candidate.phase + w.start < len);
            let c = Candidate {
                method: Method::SinglePass,
                spb: w.candidate.spb,
                phase: w.candidate.phase + w.start,
            };
            let s = score_candidate(samples, zc, threshold, c);
            (Some(c), s.0)
        },
        None => {
            match evaluate_on_slice(samples, zc, nominal, threshold) {
                Some(f) => (Some(f.candidate), f.valid),
                None => (None, 0),
            }
        },
    };
    if valid > other_valid {
        Some(by_crossings)
    } else {
        other
    }
}

// ── The report ─────────────────────────────────────────────────────────────

/// The content of a report.
#[verifier::ext_equal]
pub struct Report {
    pub status: LtcDecodeStatus,
    pub detected_fps: FrameRate,
    pub drop_frame: bool,
    pub total_possible_frames: u32,
    pub valid_frames: u32,
    pub timecodes: Seq<FrameTimecode>,
    pub avg_confidence: Share,
    pub details: Seq<Detail>,
    pub total_samples: usize,
    pub sample_rate: u32,
    pub first_ltc_nanos: i64,
}

impl View for LtcDetectionResult {
    type V = Report;

    open spec fn view(&self) -> Report {
        Report {
            status: self.status,
            detected_fps: self.detected_fps,
            drop_frame: self.drop_frame,
            total_possible_frames: self.total_possible_frames,
            valid_frames: self.valid_frames,
            timecodes: self.timecodes@,
            avg_confidence: self.avg_confidence,
            details: self.details@,
            total_samples: self.total_samples,
            sample_rate: self.sample_rate,
            first_ltc_nanos: self.first_ltc_nanos,
        }
    }
}

/// Frames counted anew from zero.
pub open spec fn reindexed(tcs: Seq<FrameTimecode>) -> Seq<FrameTimecode> {
    Seq::new(tcs.len(), |i: int| FrameTimecode { frame_index: i as u32, ..tcs[i] })
}

/// Frame `i` is the first from which the timecodes are coherent.
pub open spec fn is_coherent_start(tcs: Seq<FrameTimecode>, fps: FrameRate, drop_frame: bool, i: int) -> bool {
    &&& coherent_run(tcs, i, run_length(fps), fps, drop_frame)
    &&& forall|k: int|
        0 <= k < i ==> !#[trigger] coherent_run(tcs, k, run_length(fps), fps, drop_frame)
}

/// A report from which the frames before the first coherent one are removed.
pub open spec fn coherent_report(r: Report) -> Report {
    if r.detected_fps.num > 0 && exists|i: int|
        #[trigger] is_coherent_start(r.timecodes, r.detected_fps, r.drop_frame, i) && i > 0 {
        let i = choose|i: int|
            #[trigger] is_coherent_start(r.timecodes, r.detected_fps, r.drop_frame, i) && i > 0;
        Report {
            timecodes: reindexed(r.timecodes.skip(i)),
            first_ltc_nanos: r.timecodes[i].timecode_nanos,
            details: r.details.push(
                Detail::CoherentStart {
                    trimmed: i as usize,
                    at_nanos: r.timecodes[i].timecode_nanos,
                    timecode: r.timecodes[i].timecode,
                },
            ),
            ..r
        }
    } else {
        r
    }
}

/// Removes the frames before the first coherent one and reports the time of that
/// frame as the first.
pub fn apply_coherent_first_timecode(result: &mut LtcDetectionResult)
    requires
        old(result).detected_fps.den > 0,
    ensures
        final(result)@ == coherent_report(old(result)@),
{
    if result.timecodes.len() == 0 || result.detected_fps.num == 0 {
        proof {
            assert forall|i: int| i > 0 && result.timecodes@.len() == 0 implies !#[trigger] is_coherent_start(
                result.timecodes@,
                result.detected_fps,
                result.drop_frame,
                i,
            ) by {
                assert(run_length(result.detected_fps) >= 2);
            }
        }
        return;
    }
    let found = find_first_coherent_index(
        result.timecodes.as_slice(),
        result.detected_fps,
        result.drop_frame,
    );
    let idx: usize = match found {
        Some(i) => i,
        None => 0,
    };
    if idx > 0 {
        let first = result.timecodes[idx];
        let mut rest: Vec<FrameTimecode> = Vec::new();
        let mut i: usize = idx;
        while i < result.timecodes.len()
            invariant
                idx <= i <= result.timecodes@.len(),
                *result == *old(result),
                rest@.len() == i - idx,
                forall|k: int|
                    0 <= k < rest@.len() ==> #[trigger] rest@[k] == (FrameTimecode {
                        frame_index: k as u32,
                        ..result.timecodes@[idx + k]
                    }),
            decreases result.timecodes@.len() - i,
        {
            let here = result.timecodes[i];
            rest.push(
                FrameTimecode {
                    frame_index: (i - idx) as u32,
                    timecode: here.timecode,
                    timecode_nanos: here.timecode_nanos,
                },
            );
            i += 1;
        }
        proof {
            let tcs = result.timecodes@;
            let fps = result.detected_fps;
            let df = result.drop_frame;
            assert(is_coherent_start(tcs, fps, df, idx as int));
            let chosen = choose|i: int| #[trigger] is_coherent_start(tcs, fps, df, i) && i > 0;
            if chosen < idx {
                assert(coherent_run(tcs, chosen, run_length(fps), fps, df));
            } else if idx < chosen {
                assert(coherent_run(tcs, idx as int, run_length(fps), fps, df));
            }
            assert(chosen == idx);
            assert(rest@ =~= reindexed(tcs.skip(idx as int)));
        }
        result.timecodes = rest;
        result.first_ltc_nanos = first.timecode_nanos;
        result.details.push(
            Detail::CoherentStart {
                trimmed: idx,
                at_nanos: first.timecode_nanos,
                timecode: first.timecode,
            },
        );
        assert(result@ =~= coherent_report(old(result)@));
    } else {
        proof {
            let tcs = result.timecodes@;
            let fps = result.detected_fps;
            let df = result.drop_frame;
            assert forall|i: int| i > 0 implies !#[trigger] is_coherent_start(tcs, fps, df, i) by {
                if found is Some {
                    assert(coherent_run(tcs, 0, run_length(fps), fps, df));
                } else {
                    assert(!coherent_run(tcs, i, run_length(fps), fps, df));
                }
            }
        }
    }
}

/// Success from seven tenths of the possible frames on, low confidence from
/// three tenths on.
pub open spec fn status_for(valid: u32, possible: u32) -> LtcDecodeStatus {
    if confident(valid, possible) {
        LtcDecodeStatus::Success
    } else if possible > 0 && 10 * valid >= 3 * possible {
        LtcDecodeStatus::LowConfidence
    } else {
        LtcDecodeStatus::NoSyncWord
    }
}

pub(crate) fn decide_status(valid: u32, possible: u32) -> (r: LtcDecodeStatus)
    ensures
        r == status_for(valid, possible),
{
    if is_confident(valid, possible) {
        LtcDecodeStatus::Success
    } else if possible > 0 && 10 * (valid as u64) >= 3 * (possible as u64) {
        LtcDecodeStatus::LowConfidence
    } else {
        LtcDecodeStatus::NoSyncWord
    }
}

/// The timecodes of the frames that start at `starts`.
pub open spec fn frame_timecodes(bits: Seq<u8>, starts: Seq<usize>, c: Candidate, sample_rate: u32) -> Seq<FrameTimecode> {
    Seq::new(
        starts.len(),
        |i: int|
            FrameTimecode {
                frame_index: i as u32,
                timecode: timecode_at(bits, starts[i] as int),
                timecode_nanos: bit_nanos(c.phase as int, starts[i] as int, c.spb, sample_rate),
            },
    )
}

/// A recording: its samples, rate and number of channels, and the frame rate to
/// read it at.
pub struct Recording {
    pub samples: Seq<i64>,
    pub sample_rate: u32,
    pub channels: usize,
    pub fps: FrameRate,
    pub drop_frame: bool,
}

/// The report on a recording read in the chosen way, with all its frames.
pub open spec fn full_report(rec: Recording, zc: Seq<usize>, threshold: u64, chosen: Option<Candidate>) -> Report {
    let crossings_line = Detail::ZeroCrossings { count: zc.len() as usize, threshold };
    let audio_line = Detail::Audio {
        samples: rec.samples.len() as usize,
        sample_rate: rec.sample_rate,
        channels: rec.channels,
    };
    match chosen {
        Some(c) => {
            let bits = candidate_bits(rec.samples, zc, threshold, c);
            let (valid, possible, starts) = frame_search(bits);
            let confidence = if possible > 0 {
                Share { num: valid as u64, den: possible as u64 }
            } else {
                no_share()
            };
            Report {
                status: status_for(valid, possible),
                detected_fps: rec.fps,
                drop_frame: rec.drop_frame,
                total_possible_frames: possible,
                valid_frames: valid,
                timecodes: frame_timecodes(bits, starts, c, rec.sample_rate),
                avg_confidence: confidence,
                details: seq![
                    Detail::Rate { fps: rec.fps, spb: c.spb, confidence },
                    Detail::Read { fps: rec.fps, valid, possible, candidate: c },
                    crossings_line,
                    audio_line,
                ],
                total_samples: rec.samples.len() as usize,
                sample_rate: rec.sample_rate,
                first_ltc_nanos: if valid > 0 && starts.len() > 0 {
                    bit_nanos(c.phase as int, starts[0] as int, c.spb, rec.sample_rate)
                } else {
                    0
                },
            }
        },
        None => Report {
            status: LtcDecodeStatus::NoSyncWord,
            detected_fps: no_rate(),
            drop_frame: false,
            total_possible_frames: 0,
            valid_frames: 0,
            timecodes: seq![],
            avg_confidence: no_share(),
            details: seq![Detail::NoAlignment, crossings_line, audio_line],
            total_samples: rec.samples.len() as usize,
            sample_rate: rec.sample_rate,
            first_ltc_nanos: 0,
        },
    }
}

fn read_timecodes(bits: &Vec<u8>, starts: &Vec<usize>, c: Candidate, sample_rate: u32) -> (r: Vec<FrameTimecode>)
    requires
        binary(bits@),
        forall|k: int| 0 <= k < starts@.len() ==> (#[trigger] starts@[k]) + 80 <= bits@.len(),
        sample_rate > 0,
        sound_spb(c.spb),
    ensures
        r@ == frame_timecodes(bits@, starts@, c, sample_rate),
{
    let mut out: Vec<FrameTimecode> = Vec::new();
    let mut i: usize = 0;
    while i < starts.len()
        invariant
            i <= starts@.len(),
            binary(bits@),
            forall|k: int| 0 <= k < starts@.len() ==> (#[trigger] starts@[k]) + 80 <= bits@.len(),
            sample_rate > 0,
            sound_spb(c.spb),
            out@.len() == i,
            forall|k: int|
                0 <= k < i ==> #[trigger] out@[k] == frame_timecodes(bits@, starts@, c, sample_rate)[k],
        decreases starts@.len() - i,
    {
        let start: usize = starts[i];
        proof {
            lemma_binary_readable(bits@, start as int);
        }
        out.push(
            FrameTimecode {
                frame_index: i as u32,
                timecode: decode_timecode_from_bits(bits.as_slice(), start),
                timecode_nanos: bit_time(c.phase, start, c.spb, sample_rate),
            },
        );
        i += 1;
    }
    assert(out@ =~= frame_timecodes(bits@, starts@, c, sample_rate));
    out
}

fn build_result(
    samples: &[i64],
    zc: &Vec<usize>,
    threshold: u64,
    chosen: Option<Candidate>,
    sample_rate: u32,
    channels: usize,
    fps: FrameRate,
    drop_frame: bool,
) -> (r: LtcDetectionResult)
    requires
        strictly_ascending(zc@),
        chosen matches Some(c) ==> sound_candidate(c),
        sample_rate > 0,
        fps.den > 0,
    ensures
        r@ == coherent_report(
            full_report(
                Recording { samples: samples@, sample_rate, channels, fps, drop_frame },
                zc@,
                threshold,
                chosen,
            ),
        ),
{
    let mut details: Vec<Detail> = Vec::new();
    let ghost rec = Recording { samples: samples@, sample_rate, channels, fps, drop_frame };
    let mut result: LtcDetectionResult;
    match chosen {
        Some(c) => {
            let bits = read_candidate_bits(samples, zc.as_slice(), threshold, c);
            let (valid, possible, starts) = find_frames(bits.as_slice());
            let timecodes = read_timecodes(&bits, &starts, c, sample_rate);
            let confidence = if possible > 0 {
                Share { num: valid as u64, den: possible as u64 }
            } else {
                Share { num: 0, den: 1 }
            };
            details.push(Detail::Rate { fps, spb: c.spb, confidence });
            details.push(Detail::Read { fps, valid, possible, candidate: c });
            details.push(Detail::ZeroCrossings { count: zc.len(), threshold });
            details.push(Detail::Audio { samples: samples.len(), sample_rate, channels });
            let first: i64 = if valid > 0 && starts.len() > 0 {
                bit_time(c.phase, starts[0], c.spb, sample_rate)
            } else {
                0
            };
            result = LtcDetectionResult {
                status: decide_status(valid, possible),
                detected_fps: fps,
                drop_frame,
                total_possible_frames: possible,
                valid_frames: valid,
                timecodes,
                avg_confidence: confidence,
                details,
                total_samples: samples.len(),
                sample_rate,
                first_ltc_nanos: first,
            };
        },
        None => {
            details.push(Detail::NoAlignment);
            details.push(Detail::ZeroCrossings { count: zc.len(), threshold });
            details.push(Detail::Audio { samples: samples.len(), sample_rate, channels });
            result = LtcDetectionResult {
                status: LtcDecodeStatus::NoSyncWord,
                detected_fps: FrameRate { num: 0, den: 1 },
                drop_frame: false,
                total_possible_frames: 0,
                valid_frames: 0,
                timecodes: Vec::new(),
                avg_confidence: Share { num: 0, den: 1 },
                details,
                total_samples: samples.len(),
                sample_rate,
                first_ltc_nanos: 0,
            };
        },
    }
    assert(result@ =~= full_report(rec, zc@, threshold, chosen));
    apply_coherent_first_timecode(&mut result);
    result
}

/// The threshold for a recording: half its noise floor, but never below
/// [`MIN_THRESHOLD`].
pub open spec fn is_threshold(samples: Seq<i64>, threshold: u64) -> bool {
    exists|m: u64|
        {
            let floor = if m > MIN_NOISE_FLOOR {
                m
            } else {
                MIN_NOISE_FLOOR
            };
            let half = (floor as int + 1) / 2;
            &&& #[trigger] is_median(leading_magnitudes(samples), m)
            &&& threshold == if half > MIN_THRESHOLD {
                half
            } else {
                MIN_THRESHOLD as int
            }
        }
}

/// What is said of a recording with too few zero crossings.
pub open spec fn too_few_crossings(count: nat) -> Seq<char> {
    "Only "@ + crate::text::decimal(count)
        + " zero-crossings found (need ≥8) -- signal may be silent or not LTC audio"@
}

/// `zc` are the crossings of a recording with a signal in it, at the threshold
/// that its noise floor sets.
pub open spec fn is_signal(samples: Seq<i64>, threshold: u64, zc: Seq<usize>) -> bool {
    &&& samples.len() > 0
    &&& is_threshold(samples, threshold)
    &&& zc == crossings(samples, threshold, samples.len() as int)
    &&& zc.len() >= 8
}

/// There is a signal in a recording.
pub open spec fn has_signal(samples: Seq<i64>) -> bool {
    exists|threshold: u64, zc: Seq<usize>| #[trigger] is_signal(samples, threshold, zc)
}

/// The noise floor of a recording sets one threshold.
pub proof fn law_one_threshold(samples: Seq<i64>, a: u64, b: u64)
    requires
        is_threshold(samples, a),
        is_threshold(samples, b),
    ensures
        a == b,
{
    let mags = leading_magnitudes(samples);
    assert forall|m: u64, n: u64| #[trigger] is_median(mags, m) && #[trigger] is_median(mags, n) implies m
        == n by {
        law_one_median(mags, m, n);
    }
}

/// The report on a recording in which no signal was found.
pub open spec fn is_silent_report(samples: Seq<i64>, r: LtcDetectionResult) -> bool {
    if samples.len() == 0 {
        r.is_error("Audio file contains no samples"@)
    } else {
        exists|threshold: u64|
            {
                let zc = crossings(samples, threshold, samples.len() as int);
                &&& #[trigger] is_threshold(samples, threshold)
                &&& zc.len() < 8
                &&& r.is_error(too_few_crossings(zc.len()))
            }
    }
}

pub(crate) fn find_signal(samples: &[i64]) -> (r: Result<(u64, Vec<usize>), LtcDetectionResult>)
    ensures
        match r {
            Ok((threshold, zc)) => is_signal(samples@, threshold, zc@) && strictly_ascending(zc@),
            Err(e) => is_silent_report(samples@, e) && !has_signal(samples@),
        },
{
    if samples.len() == 0 {
        return Err(LtcDetectionResult::error("Audio file contains no samples".to_string()));
    }
    let noise_floor: u64 = estimate_noise_floor(samples);
    let half: u64 = if noise_floor % 2 == 0 {
        noise_floor / 2
    } else {
        noise_floor / 2 + 1
    };
    let threshold: u64 = if half > MIN_THRESHOLD {
        half
    } else {
        MIN_THRESHOLD
    };
    assert(is_threshold(samples@, threshold));
    let zc = find_zero_crossings(samples, threshold);
    if zc.len() < 8 {
        let mut message = "Only ".to_string();
        push_decimal(&mut message, zc.len() as u64);
        message.append(" zero-crossings found (need ≥8) -- signal may be silent or not LTC audio");
        assert(message@ =~= too_few_crossings(zc@.len()));
        let report = LtcDetectionResult::error(message);
        proof {
            law_silence_is_no_signal(samples@, report);
        }
        return Err(report);
    }
    Ok((threshold, zc))
}

/// `r` is the report on decoding a recording.
pub open spec fn decodes(rec: Recording, r: LtcDetectionResult) -> bool {
    ||| is_silent_report(rec.samples, r)
    ||| exists|threshold: u64, zc: Seq<usize>|
        {
            &&& #[trigger] is_signal(rec.samples, threshold, zc)
            &&& r@ == coherent_report(
                full_report(
                    rec,
                    zc,
                    threshold,
                    chosen_candidate(
                        rec.samples,
                        zc,
                        rec.sample_rate,
                        nominal_spb(rec.sample_rate, rec.fps),
                        threshold,
                    ),
                ),
            )
        }
}

/// Where the report says that no signal was found, there is none.
pub proof fn law_silence_is_no_signal(samples: Seq<i64>, r: LtcDetectionResult)
    requires
        is_silent_report(samples, r),
    ensures
        !has_signal(samples),
{
    if has_signal(samples) {
        let (threshold, zc) = choose|threshold: u64, zc: Seq<usize>| #[trigger]
            is_signal(samples, threshold, zc);
        assert forall|other: u64| #[trigger] is_threshold(samples, other) implies other
            == threshold by {
            law_one_threshold(samples, other, threshold);
        }
    }
}

/// A recording is decoded in one way.
pub proof fn law_one_report(rec: Recording, a: LtcDetectionResult, b: LtcDetectionResult)
    requires
        decodes(rec, a),
        decodes(rec, b),
    ensures
        a@ == b@ || exists|text: Seq<char>| #[trigger] a.is_error(text) && b.is_error(text),
{
    assert forall|s: u64, t: u64| #[trigger] is_threshold(rec.samples, s) && #[trigger] is_threshold(
        rec.samples,
        t,
    ) implies s == t by {
        law_one_threshold(rec.samples, s, t);
    }
    if is_silent_report(rec.samples, a) {
        law_silence_is_no_signal(rec.samples, a);
    }
    if is_silent_report(rec.samples, b) {
        law_silence_is_no_signal(rec.samples, b);
    }
}

fn decode_signal(
    samples: &[i64],
    threshold: u64,
    zc: &Vec<usize>,
    sample_rate: u32,
    channels: usize,
    fps: FrameRate,
    drop_frame: bool,
) -> (r: LtcDetectionResult)
    requires
        is_signal(samples@, threshold, zc@),
        strictly_ascending(zc@),
        sample_rate > 0,
        fps.valid(),
    ensures
        decodes(Recording { samples: samples@, sample_rate, channels, fps, drop_frame }, r),
{
    let nominal: u128 = nominal_bit_length(sample_rate, fps);
    let chosen = choose_candidate(samples, zc.as_slice(), sample_rate, nominal, threshold);
    build_result(samples, zc, threshold, chosen, sample_rate, channels, fps, drop_frame)
}

/// Decodes linear timecode from the samples of one channel.
pub fn decode_ltc_samples(
    samples: &[i64],
    sample_rate: u32,
    channels: usize,
    fps: FrameRate,
    drop_frame: bool,
) -> (r: LtcDetectionResult)
    requires
        sample_rate > 0,
        fps.valid(),
    ensures
        decodes(Recording { samples: samples@, sample_rate, channels, fps, drop_frame }, r),
{
    match find_signal(samples) {
        Err(e) => e,
        Ok((threshold, zc)) => decode_signal(
            samples,
            threshold,
            &zc,
            sample_rate,
            channels,
            fps,
            drop_frame,
        ),
    }
}

/// The recording in a WAV file.
pub open spec fn wav_recording(bytes: Seq<u8>, info: WavInfo, fps: FrameRate, drop_frame: bool) -> Recording {
    Recording {
        samples: mono_samples_of(bytes, info),
        sample_rate: info.sample_rate,
        channels: info.channels as usize,
        fps,
        drop_frame,
    }
}

/// A signal whose sample rate is given as zero.
pub open spec fn untimed_signal(samples: Seq<i64>, sample_rate: u32) -> bool {
    sample_rate == 0 && has_signal(samples)
}

/// Decodes linear timecode from the first channel of a WAV file.
///
/// A file whose header is not accepted, or that has a signal but no sample
/// rate, is an error.
pub fn decode_ltc_from_wav(bytes: &[u8], fps: FrameRate, drop_frame: bool) -> (r: Result<
    LtcDetectionResult,
    String,
>)
    requires
        fps.valid(),
    ensures
        match header_of(bytes@) {
            Err(text) => r matches Err(e) && e@ == "Failed to open WAV file: "@ + text,
            Ok(info) => if untimed_signal(mono_samples_of(bytes@, info), info.sample_rate) {
                r matches Err(e) && e@ == "WAV file has no sample rate"@
            } else {
                r matches Ok(result) && decodes(
                    wav_recording(bytes@, info, fps, drop_frame),
                    result,
                )
            },
        },
{
    match wav_info(bytes) {
        Err(text) => {
            let mut message = "Failed to open WAV file: ".to_string();
            message.append(text.as_str());
            Err(message)
        },
        Ok(info) => {
            let samples = read_mono_samples(bytes, &info);
            match find_signal(samples.as_slice()) {
                Err(e) => Ok(e),
                Ok((threshold, zc)) => if info.sample_rate == 0 {
                    Err("WAV file has no sample rate".to_string())
                } else {
                    Ok(
                        decode_signal(
                            samples.as_slice(),
                            threshold,
                            &zc,
                            info.sample_rate,
                            info.channels as usize,
                            fps,
                            drop_frame,
                        ),
                    )
                },
            }
        },
    }
}

/// Tells whether a WAV file holds linear timecode at 25 frames per second.
pub fn quick_check_ltc(bytes: &[u8]) -> (r: Result<bool, String>)
    ensures
        match header_of(bytes@) {
            Err(text) => r matches Err(e) && e@ == "Failed to open WAV file: "@ + text,
            Ok(info) => if untimed_signal(mono_samples_of(bytes@, info), info.sample_rate) {
                r matches Err(e) && e@ == "WAV file has no sample rate"@
            } else {
                r matches Ok(found) && exists|result: LtcDetectionResult| #[trigger]
                    decodes(
                        wav_recording(bytes@, info, FrameRate { num: 25, den: 1 }, false),
                        result,
                    ) && found == (result.status is Success)
            },
        },
{
    match decode_ltc_from_wav(bytes, FrameRate { num: 25, den: 1 }, false) {
        Ok(result) => Ok(
            match result.status {
                LtcDecodeStatus::Success => true,
                _ => false,
            },
        ),
        Err(e) => Err(e),
    }
}

} // verus!
