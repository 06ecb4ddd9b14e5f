//! Decoding a clean recording gives its timecodes back.

use vstd::prelude::*;

use crate::ltc_decoder::{
    bit_nanos, candidate_bits, chosen_candidate, coherent_pair, coherent_report, coherent_run,
    confident, crossing_candidate, decodes, frame_timecodes, full_report, is_coherent_start,
    is_signal, is_silent_report, is_threshold, nominal_spb, reindexed, run_length, score, Candidate,
    LtcDecodeStatus, LtcDetectionResult, Method, Recording, Report,
};
use crate::ltc_encoder::{half_bit_start, half_level, is_modulated, level_before, word, word_bit};
use crate::ltc_frames::{frame_search, law_inner_words_found, lemma_word_binary, timecode_at};
use crate::ltc_signal::{
    binary, crossing_bits, crossings, is_median, is_noticeable, is_short, leading_magnitudes,
    magnitude, MIN_NOISE_FLOOR, MIN_THRESHOLD, UNIT,
};
use crate::recording::{carries, lemma_stream_words, scaled, stream_bits};
use crate::square_signal::{
    are_halves, ends_in_one, half_crossings, in_half, is_clean, is_square, lemma_crossings,
    lemma_read_crossings, level_of_half, ones, readable_bits, well_timed,
};
use crate::timecode::{next_timecode, FrameRate, Timecode};

verus! {

/// The samples before frame `j`.
pub open spec fn frame_offset(lengths: Seq<int>, j: int) -> int
    decreases j,
{
    if j <= 0 {
        0
    } else {
        frame_offset(lengths, j - 1) + lengths[j - 1]
    }
}

/// The samples are those of the words of `tcs`, one after another: word `j` takes
/// `lengths[j]` samples and starts from the level on which the word before it ended.
pub open spec fn is_take(
    samples: Seq<i64>,
    tcs: Seq<Timecode>,
    drop_frame: bool,
    starts: Seq<i8>,
    lengths: Seq<int>,
    amplitude: i64,
) -> bool {
    &&& starts.len() == tcs.len()
    &&& lengths.len() == tcs.len()
    &&& samples.len() == frame_offset(lengths, tcs.len() as int)
    &&& forall|j: int| 0 <= j < tcs.len() ==> #[trigger] starts[j] == 1 || starts[j] == -1
    &&& forall|j: int|
        0 <= j < tcs.len() - 1 ==> starts[j + 1] == level_before(
            word(#[trigger] tcs[j], drop_frame),
            starts[j],
            80,
        )
    &&& forall|j: int|
        0 <= j < tcs.len() ==> #[trigger] carries(
            samples.subrange(frame_offset(lengths, j), frame_offset(lengths, j) + lengths[j]),
            word(tcs[j], drop_frame),
            starts[j],
            amplitude,
        )
}

/// Every frame is a frame of the rate long, to within one sample.
pub open spec fn on_time(lengths: Seq<int>, sample_rate: u32, fps: FrameRate) -> bool {
    forall|j: int|
        0 <= j < lengths.len() ==> sample_rate * fps.den - fps.num <= #[trigger] (lengths[j] * fps.num)
            <= sample_rate * fps.den + fps.num
}

/// There are five samples to a bit, or more.
pub open spec fn dense(sample_rate: u32, fps: FrameRate) -> bool {
    400 * fps.num <= sample_rate * fps.den
}

/// The start of every half-bit, and the end.
spec fn halves_of(lengths: Seq<int>, n: int) -> Seq<int> {
    Seq::new(
        (160 * n + 1) as nat,
        |h: int|
            if h < 160 * n {
                frame_offset(lengths, h / 160) + half_bit_start(
                    lengths[h / 160] as nat,
                    (h % 160) as nat,
                )
            } else {
                frame_offset(lengths, n)
            },
    )
}

/// The level before every bit, and the level at the end.
spec fn levels_of(tcs: Seq<Timecode>, drop_frame: bool, starts: Seq<i8>) -> Seq<int> {
    Seq::new(
        (80 * tcs.len() + 1) as nat,
        |g: int|
            if g < 80 * tcs.len() {
                level_before(word(tcs[g / 80], drop_frame), starts[g / 80], (g % 80) as nat) as int
            } else {
                level_before(word(tcs.last(), drop_frame), starts.last(), 80) as int
            },
    )
}

// ── Timing ─────────────────────────────────────────────────────────────────

/// The starts of two half-bits next to each other are half a bit apart, to within
/// a sample.
proof fn lemma_half_length(total: nat, h: nat)
    requires
        h < 160,
    ensures
        total - 159 <= 160 * (half_bit_start(total, h + 1) - half_bit_start(total, h)) <= total
            + 159,
{
    let a = h * total;
    let b = (h + 1) * total;
    assert(b == a + total) by (nonlinear_arith)
        requires
            a == h * total,
            b == (h + 1) * total,
    ;
}

proof fn lemma_bit_length(total: nat, b: nat)
    requires
        b < 80,
    ensures
        160 * (half_bit_start(total, 2 * b + 2) - half_bit_start(total, 2 * b)) >= 2 * total - 159,
{
    let x = (2 * b) * total;
    let y = (2 * b + 2) * total;
    assert(y == x + 2 * total) by (nonlinear_arith)
        requires
            x == (2 * b) * total,
            y == (2 * b + 2) * total,
    ;
}

/// The bit length that a recording is read at.
proof fn lemma_nominal(sample_rate: u32, fps: FrameRate)
    requires
        fps.valid(),
        dense(sample_rate, fps),
    ensures
        ({
            let w = sample_rate * fps.den;
            let spb = nominal_spb(sample_rate, fps);
            &&& spb * (80 * fps.num) <= w * 0x1_0000_0000
            &&& w * 0x1_0000_0000 < spb * (80 * fps.num) + 80 * fps.num
            &&& spb >= 5 * UNIT
        }),
{
    let w = sample_rate * fps.den;
    let d = 80 * fps.num as int;
    let wide = w * 0x1_0000_0000;
    let q = wide / d;
    vstd::arithmetic::div_mod::lemma_fundamental_div_mod(wide, d);
    assert(0 <= wide % d < d) by (nonlinear_arith)
        requires
            d > 0,
    ;
    assert(q * d == d * q) by (nonlinear_arith);
    assert(w >= 5 * d);
    assert(q >= 5 * 0x1_0000_0000) by (nonlinear_arith)
        requires
            q == wide / d,
            d > 0,
            wide == w * 0x1_0000_0000,
            w >= 5 * d,
    ;
    assert(w <= 0xffff_ffff * 0xffff_ffff) by (nonlinear_arith)
        requires
            w == sample_rate * fps.den,
            0 <= sample_rate <= 0xffff_ffff,
            0 <= fps.den <= 0xffff_ffff,
    ;
    assert(q <= wide) by (nonlinear_arith)
        requires
            q == wide / d,
            d >= 1,
            wide >= 0,
    ;
    assert(nominal_spb(sample_rate, fps) == q);
}

/// Distances that fit the length of a frame are told apart as half and whole bits.
proof fn lemma_distances(total: nat, sample_rate: u32, fps: FrameRate, first: int, second: int)
    requires
        fps.valid(),
        dense(sample_rate, fps),
        sample_rate * fps.den - fps.num <= total * fps.num <= sample_rate * fps.den + fps.num,
        total - 159 <= 160 * first <= total + 159,
        total - 159 <= 160 * second <= total + 159,
        160 * (first + second) >= 2 * total - 159,
    ensures
        ({
            let spb = nominal_spb(sample_rate, fps);
            &&& !is_short(first + second, spb)
            &&& is_short(first, spb)
            &&& is_noticeable(first, spb)
            &&& is_short(second, spb)
            &&& is_noticeable(second, spb)
            &&& first > 0
            &&& second > 0
            &&& total >= 399
        }),
{
    let spb = nominal_spb(sample_rate, fps);
    lemma_nominal(sample_rate, fps);
    let w = sample_rate * fps.den;
    let num = fps.num as int;
    let tn = total * num;
    let sn = spb * num;
    assert(spb * (80 * fps.num) == 80 * sn) by (nonlinear_arith)
        requires
            sn == spb * num,
            num == fps.num,
    ;
    assert(total >= 399) by (nonlinear_arith)
        requires
            total * num >= 399 * num,
            num > 0,
    ;
    lemma_half_distance(total as int, num, w, spb as int, first);
    lemma_half_distance(total as int, num, w, spb as int, second);
    let both = first + second;
    let bn = both * num;
    assert(160 * bn >= 2 * tn - 159 * num) by (nonlinear_arith)
        requires
            160 * both >= 2 * total - 159,
            bn == both * num,
            tn == total * num,
            num > 0,
    ;
    assert(4 * both * UNIT >= 3 * spb) by (nonlinear_arith)
        requires
            bn == both * num,
            sn == spb * num,
            num > 0,
            4 * bn * 0x1_0000_0000 >= 3 * sn,
            UNIT == 0x1_0000_0000,
    ;
}

proof fn lemma_half_distance(total: int, num: int, w: int, spb: int, part: int)
    requires
        num > 0,
        400 * num <= w,
        w - num <= total * num <= w + num,
        80 * (spb * num) <= w * 0x1_0000_0000,
        w * 0x1_0000_0000 < 80 * (spb * num) + 80 * num,
        total - 159 <= 160 * part <= total + 159,
        total >= 399,
    ensures
        4 * part * UNIT < 3 * spb,
        5 * part * UNIT >= spb,
        part > 0,
{
    let tn = total * num;
    let sn = spb * num;
    let pn = part * num;
    assert(tn - 159 * num <= 160 * pn && 160 * pn <= tn + 159 * num) by (nonlinear_arith)
        requires
            total - 159 <= 160 * part <= total + 159,
            pn == part * num,
            tn == total * num,
            num > 0,
    ;
    assert(4 * part * UNIT < 3 * spb) by (nonlinear_arith)
        requires
            pn == part * num,
            sn == spb * num,
            num > 0,
            4 * pn * 0x1_0000_0000 < 3 * sn,
            UNIT == 0x1_0000_0000,
    ;
    assert(5 * part * UNIT >= spb) by (nonlinear_arith)
        requires
            pn == part * num,
            sn == spb * num,
            num > 0,
            5 * pn * 0x1_0000_0000 >= sn,
            UNIT == 0x1_0000_0000,
    ;
}

// ── From words to one signal ───────────────────────────────────────────────

proof fn lemma_length(lengths: Seq<int>, sample_rate: u32, fps: FrameRate, j: int)
    requires
        fps.valid(),
        dense(sample_rate, fps),
        on_time(lengths, sample_rate, fps),
        0 <= j < lengths.len(),
    ensures
        lengths[j] >= 399,
{
    let x = lengths[j];
    let num = fps.num as int;
    assert(x * num >= 399 * num) by {
        assert(sample_rate * fps.den - fps.num <= lengths[j] * fps.num);
    }
    assert(x >= 399) by (nonlinear_arith)
        requires
            x * num >= 399 * num,
            num > 0,
    ;
}

proof fn lemma_offsets(lengths: Seq<int>, a: int, b: int)
    requires
        forall|j: int| 0 <= j < lengths.len() ==> #[trigger] lengths[j] >= 399,
        0 <= a <= b <= lengths.len(),
    ensures
        0 <= frame_offset(lengths, a) <= frame_offset(lengths, b),
    decreases b, a,
{
    if a < b {
        lemma_offsets(lengths, a, b - 1);
        assert(lengths[b - 1] >= 399);
    } else if 0 < a {
        lemma_offsets(lengths, 0, a);
    }
}

/// Where half-bit `h` starts and ends.
proof fn lemma_half_step(lengths: Seq<int>, n: int, h: int)
    requires
        lengths.len() == n,
        forall|j: int| 0 <= j < lengths.len() ==> #[trigger] lengths[j] >= 399,
        0 <= h < 160 * n,
    ensures
        ({
            let j = h / 160;
            let r = (h % 160) as nat;
            let total = lengths[j] as nat;
            &&& 0 <= j < n
            &&& halves_of(lengths, n)[h] == frame_offset(lengths, j) + half_bit_start(total, r)
            &&& halves_of(lengths, n)[h + 1] == frame_offset(lengths, j) + half_bit_start(
                total,
                r + 1,
            )
        }),
{
    let j = h / 160;
    let r = h % 160;
    assert(0 <= j < n);
    assert(lengths[j] >= 399);
    let total = lengths[j] as nat;
    if r == 159 {
        assert(half_bit_start(total, 160) == total) by {
            assert(160 * total == total * 160);
        }
        assert((h + 1) / 160 == j + 1 && (h + 1) % 160 == 0);
        if h + 1 < 160 * n {
            let next = lengths[j + 1] as nat;
            assert(half_bit_start(next, 0) == 0) by {
                assert(0 * next == 0);
            }
        }
        assert(frame_offset(lengths, j + 1) == frame_offset(lengths, j) + lengths[j]);
    } else {
        assert((h + 1) / 160 == j && (h + 1) % 160 == r + 1);
    }
}

/// The level after a bit.
proof fn lemma_level_step(tcs: Seq<Timecode>, drop_frame: bool, starts: Seq<i8>, g: int)
    requires
        starts.len() == tcs.len(),
        forall|j: int| 0 <= j < tcs.len() ==> #[trigger] starts[j] == 1 || starts[j] == -1,
        forall|j: int|
            0 <= j < tcs.len() - 1 ==> starts[j + 1] == level_before(
                word(#[trigger] tcs[j], drop_frame),
                starts[j],
                80,
            ),
        0 <= g < 80 * tcs.len(),
    ensures
        ({
            let j = g / 80;
            let b = (g % 80) as nat;
            let w = word(tcs[j], drop_frame);
            &&& 0 <= j < tcs.len()
            &&& stream_bits(tcs, drop_frame)[g] == w[b as int]
            &&& levels_of(tcs, drop_frame, starts)[g] == level_before(w, starts[j], b)
            &&& levels_of(tcs, drop_frame, starts)[g + 1] == level_before(w, starts[j], b + 1)
        }),
{
    let j = g / 80;
    let b = (g % 80) as nat;
    assert(0 <= j < tcs.len());
    let w = word(tcs[j], drop_frame);
    if b == 79 {
        assert((g + 1) / 80 == j + 1 && (g + 1) % 80 == 0);
        if g + 1 < 80 * tcs.len() {
            assert(starts[j + 1] == level_before(w, starts[j], 80));
        } else {
            assert(tcs.last() == tcs[j] && starts.last() == starts[j]);
        }
    } else {
        assert((g + 1) / 80 == j && (g + 1) % 80 == b + 1);
    }
}

proof fn lemma_sign(bits: Seq<u8>, start: i8, b: nat)
    requires
        start == 1 || start == -1,
    ensures
        level_before(bits, start, b) == 1 || level_before(bits, start, b) == -1,
    decreases b,
{
    if b > 0 {
        lemma_sign(bits, start, (b - 1) as nat);
    }
}

/// A sample of a take has the level of its half-bit.
proof fn lemma_sample(
    samples: Seq<i64>,
    tcs: Seq<Timecode>,
    drop_frame: bool,
    starts: Seq<i8>,
    lengths: Seq<int>,
    amplitude: i64,
    h: int,
    s: int,
)
    requires
        is_take(samples, tcs, drop_frame, starts, lengths, amplitude),
        forall|j: int| 0 <= j < lengths.len() ==> #[trigger] lengths[j] >= 399,
        0 < amplitude < i64::MAX,
        0 <= h < 160 * tcs.len(),
        in_half(halves_of(lengths, tcs.len() as int), h, s),
    ensures
        samples[s] == amplitude * level_of_half(levels_of(tcs, drop_frame, starts), h),
{
    let n = tcs.len() as int;
    let j = h / 160;
    let r = (h % 160) as nat;
    let g = h / 2;
    let b = r / 2;
    lemma_half_step(lengths, n, h);
    lemma_level_step(tcs, drop_frame, starts, g);
    assert(g / 80 == j && g % 80 == b && h % 2 == r % 2);
    let w = word(tcs[j], drop_frame);
    let total = lengths[j] as nat;
    let offset = frame_offset(lengths, j);
    let part = samples.subrange(offset, offset + lengths[j]);
    lemma_offsets(lengths, 0, j);
    lemma_offsets(lengths, j + 1, n);
    assert(frame_offset(lengths, j + 1) == offset + lengths[j]);
    assert(carries(part, w, starts[j], amplitude));
    let levels = choose|levels: Seq<i8>|
        #[trigger] is_modulated(levels, w, starts[j]) && part == scaled(levels, amplitude) && (forall|
            s: int,
        |
            0 <= s < levels.len() ==> -1 <= #[trigger] levels[s] <= 1);
    assert(levels.len() == part.len() == total);
    let i = s - offset;
    assert(half_bit_start(total, r) <= i < half_bit_start(total, r + 1));
    assert(half_bit_start(total, r + 1) <= total) by {
        let x = (r + 1) * total;
        assert(x <= 160 * total) by (nonlinear_arith)
            requires
                x == (r + 1) * total,
                r + 1 <= 160,
        ;
    }
    assert(levels[i] == half_level(w, starts[j], r));
    lemma_sign(w, starts[j], b);
    assert(starts[j] == 1 || starts[j] == -1);
    assert(amplitude * 1 == amplitude && amplitude * (-1) == -amplitude) by (nonlinear_arith);
    assert(part[i] == (amplitude * levels[i]) as i64);
    assert(part[i] == samples[s]);
    assert(level_of_half(levels_of(tcs, drop_frame, starts), h) == half_level(w, starts[j], r));
}

proof fn lemma_take_halves(lengths: Seq<int>, n: int)
    requires
        n > 0,
        lengths.len() == n,
        forall|j: int| 0 <= j < lengths.len() ==> #[trigger] lengths[j] >= 399,
    ensures
        are_halves(halves_of(lengths, n), 80 * n),
        halves_of(lengths, n)[160 * n] == frame_offset(lengths, n),
{
    let halves = halves_of(lengths, n);
    assert forall|h: int| 0 <= h < 2 * (80 * n) implies #[trigger] halves[h] < halves[h + 1] by {
        lemma_half_step(lengths, n, h);
        assert(lengths[h / 160] >= 399);
        lemma_half_length(lengths[h / 160] as nat, (h % 160) as nat);
    }
    lemma_half_step(lengths, n, 0);
    assert(0 * (lengths[0] as nat) == 0);
}

proof fn lemma_take_levels(tcs: Seq<Timecode>, drop_frame: bool, starts: Seq<i8>)
    requires
        tcs.len() > 0,
        starts.len() == tcs.len(),
        forall|j: int| 0 <= j < tcs.len() ==> #[trigger] starts[j] == 1 || starts[j] == -1,
        forall|j: int|
            0 <= j < tcs.len() - 1 ==> starts[j + 1] == level_before(
                word(#[trigger] tcs[j], drop_frame),
                starts[j],
                80,
            ),
    ensures
        ({
            let bits = stream_bits(tcs, drop_frame);
            let levels = levels_of(tcs, drop_frame, starts);
            &&& forall|g: int| 0 <= g < levels.len() ==> #[trigger] levels[g] == 1 || levels[g] == -1
            &&& forall|g: int|
                0 <= g < bits.len() ==> levels[g + 1] == if #[trigger] bits[g] == 1 {
                    levels[g]
                } else {
                    -levels[g]
                }
        }),
{
    let n = tcs.len() as int;
    let bits = stream_bits(tcs, drop_frame);
    let levels = levels_of(tcs, drop_frame, starts);
    assert forall|g: int| 0 <= g < levels.len() implies #[trigger] levels[g] == 1 || levels[g] == -1 by {
        if g < 80 * n {
            lemma_level_step(tcs, drop_frame, starts, g);
            assert(starts[g / 80] == 1 || starts[g / 80] == -1);
            lemma_sign(word(tcs[g / 80], drop_frame), starts[g / 80], (g % 80) as nat);
        } else {
            assert(starts[n - 1] == 1 || starts[n - 1] == -1);
            lemma_sign(word(tcs.last(), drop_frame), starts.last(), 80);
        }
    }
    assert forall|g: int| 0 <= g < bits.len() implies levels[g + 1] == if #[trigger] bits[g] == 1 {
        levels[g]
    } else {
        -levels[g]
    } by {
        lemma_level_step(tcs, drop_frame, starts, g);
        assert(starts[g / 80] == 1 || starts[g / 80] == -1);
        lemma_sign(word(tcs[g / 80], drop_frame), starts[g / 80], (g % 80) as nat);
    }
}

/// A take is one clean signal.
proof fn lemma_take_is_square(
    samples: Seq<i64>,
    tcs: Seq<Timecode>,
    drop_frame: bool,
    starts: Seq<i8>,
    lengths: Seq<int>,
    amplitude: i64,
)
    requires
        tcs.len() > 0,
        is_take(samples, tcs, drop_frame, starts, lengths, amplitude),
        forall|j: int| 0 <= j < lengths.len() ==> #[trigger] lengths[j] >= 399,
        0 < amplitude < i64::MAX,
    ensures
        is_square(
            samples,
            stream_bits(tcs, drop_frame),
            levels_of(tcs, drop_frame, starts),
            halves_of(lengths, tcs.len() as int),
            amplitude,
        ),
{
    let n = tcs.len() as int;
    let bits = stream_bits(tcs, drop_frame);
    let levels = levels_of(tcs, drop_frame, starts);
    let halves = halves_of(lengths, n);
    assert(2 * bits.len() == 160 * n);
    lemma_take_halves(lengths, n);
    lemma_take_levels(tcs, drop_frame, starts);
    assert forall|h: int, s: int|
        0 <= h < 2 * bits.len() && #[trigger] in_half(halves, h, s) implies samples[s] == amplitude
        * level_of_half(levels, h) by {
        lemma_sample(samples, tcs, drop_frame, starts, lengths, amplitude, h, s);
    }
}

// ── What is read ───────────────────────────────────────────────────────────

proof fn lemma_ones_ascend(bits: Seq<u8>, a: int, b: int)
    requires
        0 <= a <= b,
    ensures
        ones(bits, a) <= ones(bits, b),
    decreases b,
{
    if a < b {
        lemma_ones_ascend(bits, a, b - 1);
    }
}

proof fn lemma_ones_run(bits: Seq<u8>, a: int, b: int)
    requires
        0 <= a <= b,
        forall|i: int| a <= i < b ==> #[trigger] bits[i] == 1,
    ensures
        ones(bits, b) == ones(bits, a) + (b - a),
    decreases b,
{
    if a < b {
        lemma_ones_run(bits, a, b - 1);
        assert(bits[b - 1] == 1);
    }
}

/// A bit of a stream of words.
proof fn lemma_stream_bit(tcs: Seq<Timecode>, drop_frame: bool, j: int, i: int)
    requires
        0 <= j < tcs.len(),
        0 <= i < 80,
    ensures
        80 * j + i < stream_bits(tcs, drop_frame).len(),
        stream_bits(tcs, drop_frame)[80 * j + i] == word_bit(tcs[j], drop_frame, i),
{
    assert((80 * j + i) / 80 == j && (80 * j + i) % 80 == i);
}

/// Every word has at least thirteen ones: those of its sync word.
proof fn lemma_ones_of_words(tcs: Seq<Timecode>, drop_frame: bool, j: int)
    requires
        0 <= j <= tcs.len(),
    ensures
        ones(stream_bits(tcs, drop_frame), 80 * j) >= 13 * j,
    decreases j,
{
    let bits = stream_bits(tcs, drop_frame);
    if j > 0 {
        lemma_ones_of_words(tcs, drop_frame, j - 1);
        let from = 80 * (j - 1);
        lemma_ones_ascend(bits, from, from + 66);
        assert forall|i: int| from + 66 <= i < from + 78 implies #[trigger] bits[i] == 1 by {
            lemma_stream_bit(tcs, drop_frame, j - 1, i - from);
        }
        lemma_ones_run(bits, from + 66, from + 78);
        lemma_ones_ascend(bits, from + 78, from + 79);
        lemma_stream_bit(tcs, drop_frame, j - 1, 79);
        assert(ones(bits, from + 80) == ones(bits, from + 79) + 1);
    }
}

proof fn lemma_bit_timed(lengths: Seq<int>, n: int, sample_rate: u32, fps: FrameRate, g: int)
    requires
        lengths.len() == n,
        fps.valid(),
        dense(sample_rate, fps),
        on_time(lengths, sample_rate, fps),
        forall|j: int| 0 <= j < lengths.len() ==> #[trigger] lengths[j] >= 399,
        0 <= g < 80 * n,
    ensures
        well_timed(halves_of(lengths, n), nominal_spb(sample_rate, fps), g),
{
    let halves = halves_of(lengths, n);
    let j = g / 80;
    let b = (g % 80) as nat;
    let h = 2 * g;
    lemma_half_step(lengths, n, h);
    lemma_half_step(lengths, n, h + 1);
    assert(h / 160 == j && h % 160 == 2 * b && (h + 1) / 160 == j && (h + 1) % 160 == 2 * b + 1);
    let total = lengths[j] as nat;
    lemma_half_length(total, 2 * b);
    lemma_half_length(total, 2 * b + 1);
    lemma_bit_length(total, b);
    assert(sample_rate * fps.den - fps.num <= lengths[j] * fps.num <= sample_rate * fps.den
        + fps.num);
    lemma_distances(
        total,
        sample_rate,
        fps,
        halves[h + 1] - halves[h],
        halves[h + 2] - halves[h + 1],
    );
}

proof fn lemma_stream_ends(tcs: Seq<Timecode>, drop_frame: bool)
    requires
        tcs.len() > 0,
    ensures
        binary(stream_bits(tcs, drop_frame)),
        ends_in_one(stream_bits(tcs, drop_frame)),
        19 * ones(stream_bits(tcs, drop_frame), 80 * tcs.len() - 1) > 80 * tcs.len() + 9,
{
    let n = tcs.len() as int;
    let bits = stream_bits(tcs, drop_frame);
    assert forall|g: int| 0 <= g < bits.len() implies #[trigger] bits[g] <= 1 by {
        lemma_word_binary(tcs[g / 80], drop_frame);
        assert(word(tcs[g / 80], drop_frame)[g % 80] <= 1);
    }
    lemma_stream_bit(tcs, drop_frame, n - 1, 78);
    lemma_stream_bit(tcs, drop_frame, n - 1, 79);
    lemma_ones_of_words(tcs, drop_frame, n);
    assert(ones(bits, 80 * n) == ones(bits, 80 * n - 1) + 1);
}

/// The crossings of a take are read as the bits of its words but the first and
/// the last.
proof fn lemma_take_readable(
    tcs: Seq<Timecode>,
    drop_frame: bool,
    lengths: Seq<int>,
    sample_rate: u32,
    fps: FrameRate,
)
    requires
        tcs.len() > 0,
        lengths.len() == tcs.len(),
        fps.valid(),
        dense(sample_rate, fps),
        on_time(lengths, sample_rate, fps),
        forall|j: int| 0 <= j < lengths.len() ==> #[trigger] lengths[j] >= 399,
        frame_offset(lengths, tcs.len() as int) <= usize::MAX,
    ensures
        ({
            let bits = stream_bits(tcs, drop_frame);
            let halves = halves_of(lengths, tcs.len() as int);
            let zc = half_crossings(bits, halves, 160 * tcs.len() as int);
            &&& crossing_bits(zc, nominal_spb(sample_rate, fps)) == bits.subrange(
                1,
                bits.len() - 1,
            )
            &&& zc.len() >= 8
            &&& 0 <= zc[0] <= halves[2]
        }),
{
    let n = tcs.len() as int;
    let bits = stream_bits(tcs, drop_frame);
    let halves = halves_of(lengths, n);
    let spb = nominal_spb(sample_rate, fps);
    lemma_take_halves(lengths, n);
    lemma_stream_ends(tcs, drop_frame);
    assert(bits.len() == 80 * n);
    assert forall|g: int| 0 <= g < bits.len() implies #[trigger] well_timed(halves, spb, g) by {
        lemma_bit_timed(lengths, n, sample_rate, fps, g);
    }
    assert(2 * bits.len() as int == 160 * n);
    assert(readable_bits(bits, halves, spb));
    lemma_read_crossings(bits, halves, spb);
}

// ── What is reported ───────────────────────────────────────────────────────

/// Where all samples are as loud, their loudness sets the threshold.
proof fn lemma_threshold(samples: Seq<i64>, amplitude: i64, threshold: u64)
    requires
        samples.len() > 0,
        MIN_THRESHOLD <= amplitude < i64::MAX,
        forall|s: int| 0 <= s < samples.len() ==> magnitude(#[trigger] samples[s]) == amplitude,
        is_threshold(samples, threshold),
    ensures
        0 < threshold <= amplitude,
{
    broadcast use vstd::seq_lib::group_to_multiset_ensures;

    let mags = leading_magnitudes(samples);
    let m = choose|m: u64|
        {
            let floor = if m > MIN_NOISE_FLOOR {
                m
            } else {
                MIN_NOISE_FLOOR
            };
            let half = (floor as int + 1) / 2;
            &&& #[trigger] is_median(mags, m)
            &&& threshold == if half > MIN_THRESHOLD {
                half
            } else {
                MIN_THRESHOLD as int
            }
        };
    let sorted = choose|sorted: Seq<u64>|
        {
            &&& #[trigger] crate::ltc_signal::ascending(sorted)
            &&& sorted.to_multiset() == mags.to_multiset()
            &&& sorted.len() == mags.len()
            &&& m == sorted[(sorted.len() / 2) as int]
        };
    assert(sorted.contains(m));
    assert(mags.to_multiset().count(m) > 0);
    assert(mags.contains(m));
    let i = choose|i: int| 0 <= i < mags.len() && mags[i] == m;
    assert(magnitude(samples[i]) == amplitude);
}

/// Every sample of a take is as loud as the take.
proof fn lemma_loudness(
    samples: Seq<i64>,
    bits: Seq<u8>,
    levels: Seq<int>,
    halves: Seq<int>,
    amplitude: i64,
    s: int,
    h: int,
)
    requires
        is_square(samples, bits, levels, halves, amplitude),
        0 < amplitude < i64::MAX,
        0 <= h < 2 * bits.len(),
        halves[h] <= s < samples.len(),
    ensures
        magnitude(samples[s]) == amplitude,
    decreases 2 * bits.len() - h,
{
    if s < halves[h + 1] {
        assert(in_half(halves, h, s));
        assert(levels[h / 2] == 1 || levels[h / 2] == -1);
        assert(levels[h / 2 + 1] == 1 || levels[h / 2 + 1] == -1);
        assert(amplitude * 1 == amplitude && amplitude * (-1) == -amplitude) by (nonlinear_arith);
    } else {
        assert(h + 1 < 2 * bits.len());
        lemma_loudness(samples, bits, levels, halves, amplitude, s, h + 1);
    }
}

/// The candidate that reads a take.
spec fn take_candidate(zc: Seq<usize>, sample_rate: u32, fps: FrameRate) -> Candidate {
    Candidate { method: Method::ZcInterval, spb: nominal_spb(sample_rate, fps), phase: zc[0] }
}

/// What holds of every take that is laid out to be read.
pub open spec fn is_clean_take(
    rec: Recording,
    tcs: Seq<Timecode>,
    starts: Seq<i8>,
    lengths: Seq<int>,
    amplitude: i64,
) -> bool {
    &&& is_take(rec.samples, tcs, rec.drop_frame, starts, lengths, amplitude)
    &&& on_time(lengths, rec.sample_rate, rec.fps)
    &&& dense(rec.sample_rate, rec.fps)
    &&& rec.fps.valid()
    &&& MIN_THRESHOLD <= amplitude < i64::MAX
    &&& rec.samples.len() <= usize::MAX
    &&& 3 <= tcs.len()
    &&& 80 * tcs.len() <= usize::MAX
    &&& tcs.len() <= u32::MAX
    &&& forall|j: int|
        0 <= j < tcs.len() ==> (#[trigger] tcs[j]).frames < 40 && tcs[j].seconds < 80 && tcs[j].minutes
            < 80 && tcs[j].hours < 40
}

/// A take is read from its crossings, whatever threshold is set.
proof fn lemma_take_signal(
    rec: Recording,
    tcs: Seq<Timecode>,
    starts: Seq<i8>,
    lengths: Seq<int>,
    amplitude: i64,
    threshold: u64,
)
    requires
        is_clean_take(rec, tcs, starts, lengths, amplitude),
        is_threshold(rec.samples, threshold),
    ensures
        ({
            let zc = crossings(rec.samples, threshold, rec.samples.len() as int);
            let inner = stream_bits(tcs, rec.drop_frame).subrange(1, 80 * tcs.len() - 1);
            &&& rec.samples.len() > 0
            &&& zc.len() >= 8
            &&& 0 <= zc[0] <= halves_of(lengths, tcs.len() as int)[2]
            &&& crossing_bits(zc, nominal_spb(rec.sample_rate, rec.fps)) == inner
            &&& forall|j: int| 0 <= j < lengths.len() ==> #[trigger] lengths[j] >= 399
        }),
{
    let n = tcs.len() as int;
    let bits = stream_bits(tcs, rec.drop_frame);
    let levels = levels_of(tcs, rec.drop_frame, starts);
    let halves = halves_of(lengths, n);
    assert forall|j: int| 0 <= j < lengths.len() implies #[trigger] lengths[j] >= 399 by {
        lemma_length(lengths, rec.sample_rate, rec.fps, j);
    }
    lemma_take_is_square(rec.samples, tcs, rec.drop_frame, starts, lengths, amplitude);
    lemma_take_halves(lengths, n);
    lemma_offsets(lengths, 1, n);
    assert(lengths[0] >= 399);
    assert(frame_offset(lengths, 1) == frame_offset(lengths, 0) + lengths[0]);
    assert(rec.samples.len() > 0);
    assert forall|s: int| 0 <= s < rec.samples.len() implies magnitude(#[trigger] rec.samples[s])
        == amplitude by {
        lemma_loudness(rec.samples, bits, levels, halves, amplitude, s, 0);
    }
    lemma_threshold(rec.samples, amplitude, threshold);
    lemma_stream_ends(tcs, rec.drop_frame);
    assert(is_clean(rec.samples, bits, levels, halves, amplitude, threshold));
    assert(2 * bits.len() == 160 * n);
    lemma_crossings(rec.samples, bits, levels, halves, amplitude, threshold, 160 * n);
    lemma_take_readable(tcs, rec.drop_frame, lengths, rec.sample_rate, rec.fps);
}

/// The report on a take has the frames of its inner words.
spec fn reports_inner(report: Report, rec: Recording, tcs: Seq<Timecode>, phase: usize) -> bool {
    let n = tcs.len();
    let spb = nominal_spb(rec.sample_rate, rec.fps);
    &&& report.status == LtcDecodeStatus::Success
    &&& report.valid_frames == n - 2
    &&& report.total_possible_frames == n - 2
    &&& report.detected_fps == rec.fps
    &&& report.drop_frame == rec.drop_frame
    &&& report.timecodes.len() == n - 2
    &&& forall|j: int|
        0 <= j < n - 2 ==> (#[trigger] report.timecodes[j]).timecode == tcs[j + 1]
            && report.timecodes[j].timecode_nanos == bit_nanos(
            phase as int,
            80 * (j + 1) - 1,
            spb,
            rec.sample_rate,
        )
}

/// What is reported on the bits of a take, before frames are trimmed.
proof fn lemma_inner_report(rec: Recording, tcs: Seq<Timecode>, zc: Seq<usize>, threshold: u64)
    requires
        3 <= tcs.len() <= u32::MAX,
        80 * tcs.len() <= usize::MAX,
        forall|j: int|
            0 <= j < tcs.len() ==> (#[trigger] tcs[j]).frames < 40 && tcs[j].seconds < 80
                && tcs[j].minutes < 80 && tcs[j].hours < 40,
        crossing_bits(zc, nominal_spb(rec.sample_rate, rec.fps)) == stream_bits(
            tcs,
            rec.drop_frame,
        ).subrange(1, 80 * tcs.len() - 1),
    ensures
        ({
            let c = take_candidate(zc, rec.sample_rate, rec.fps);
            let valid = (tcs.len() - 2) as u32;
            &&& score(rec.samples, zc, threshold, c) == (valid, valid)
            &&& reports_inner(full_report(rec, zc, threshold, Some(c)), rec, tcs, zc[0])
        }),
{
    let n = tcs.len() as int;
    let c = take_candidate(zc, rec.sample_rate, rec.fps);
    let bits = stream_bits(tcs, rec.drop_frame);
    let inner = bits.subrange(1, bits.len() - 1);
    lemma_stream_words(tcs, rec.drop_frame);
    law_inner_words_found(bits, tcs, rec.drop_frame);
    assert(candidate_bits(rec.samples, zc, threshold, c) == inner);
    let report = full_report(rec, zc, threshold, Some(c));
    let found = frame_search(inner).2;
    assert(report.timecodes == frame_timecodes(inner, found, c, rec.sample_rate));
    assert forall|j: int| 0 <= j < n - 2 implies (#[trigger] report.timecodes[j]).timecode == tcs[j
        + 1] && report.timecodes[j].timecode_nanos == bit_nanos(
        zc[0] as int,
        80 * (j + 1) - 1,
        c.spb,
        rec.sample_rate,
    ) by {
        assert(found[j] == 80 * (j + 1) - 1);
        assert(tcs[j + 1].frames < 40);
        assert(timecode_at(inner, 80 * (j + 1) - 1) == tcs[j + 1]);
    }
}

/// What is reported on a take before frames are trimmed.
proof fn lemma_take_report(
    rec: Recording,
    tcs: Seq<Timecode>,
    starts: Seq<i8>,
    lengths: Seq<int>,
    amplitude: i64,
    threshold: u64,
)
    requires
        is_clean_take(rec, tcs, starts, lengths, amplitude),
        is_threshold(rec.samples, threshold),
    ensures
        ({
            let zc = crossings(rec.samples, threshold, rec.samples.len() as int);
            let c = take_candidate(zc, rec.sample_rate, rec.fps);
            &&& chosen_candidate(
                rec.samples,
                zc,
                rec.sample_rate,
                nominal_spb(rec.sample_rate, rec.fps),
                threshold,
            ) == Some(c)
            &&& reports_inner(full_report(rec, zc, threshold, Some(c)), rec, tcs, zc[0])
        }),
{
    let zc = crossings(rec.samples, threshold, rec.samples.len() as int);
    let c = take_candidate(zc, rec.sample_rate, rec.fps);
    lemma_take_signal(rec, tcs, starts, lengths, amplitude, threshold);
    lemma_inner_report(rec, tcs, zc, threshold);
    let valid = (tcs.len() - 2) as u32;
    assert(confident(valid, valid));
    assert(crossing_candidate(rec.samples, zc, c.spb, threshold) == Some(c));
}

/// Decoding a clean recording of the words of any timecodes, read at the rate it was
/// made at, succeeds: it finds every word but the first and the last, whose ends lie
/// outside the recording, and nothing else. What is reported are the timecodes of
/// these words, in their order, from the first coherent one on.
///
/// The recording may start on either level and be of any loudness above the least
/// threshold; its frames may be a sample too long or too short, as they are where a
/// frame is no whole number of samples, and a bit has five samples or more.
pub proof fn law_decode_gives_back(
    rec: Recording,
    tcs: Seq<Timecode>,
    starts: Seq<i8>,
    lengths: Seq<int>,
    amplitude: i64,
    r: LtcDetectionResult,
)
    requires
        is_clean_take(rec, tcs, starts, lengths, amplitude),
        decodes(rec, r),
    ensures
        r.status == LtcDecodeStatus::Success,
        r.valid_frames == tcs.len() - 2,
        r.total_possible_frames == tcs.len() - 2,
        r.detected_fps == rec.fps,
        r.drop_frame == rec.drop_frame,
        r.timecodes@.len() <= tcs.len() - 2,
        forall|j: int|
            0 <= j < r.timecodes@.len() ==> (#[trigger] r.timecodes@[j]).timecode == tcs[tcs.len() - 1
                - r.timecodes@.len() + j],
{
    let n = tcs.len() as int;
    let threshold = lemma_take_decoded(rec, tcs, starts, lengths, amplitude, r);
    let zc = crossings(rec.samples, threshold, rec.samples.len() as int);
    let report = full_report(
        rec,
        zc,
        threshold,
        Some(take_candidate(zc, rec.sample_rate, rec.fps)),
    );
    lemma_take_report(rec, tcs, starts, lengths, amplitude, threshold);
    if report.detected_fps.num > 0 && exists|i: int|
        #[trigger] is_coherent_start(report.timecodes, report.detected_fps, report.drop_frame, i) && i
            > 0 {
        let i = choose|i: int|
            #[trigger] is_coherent_start(
                report.timecodes,
                report.detected_fps,
                report.drop_frame,
                i,
            ) && i > 0;
        assert(r.timecodes@ == reindexed(report.timecodes.skip(i)));
        assert(i + run_length(rec.fps) <= report.timecodes.len());
        assert forall|j: int| 0 <= j < r.timecodes@.len() implies (#[trigger] r.timecodes@[j]).timecode
            == tcs[j + i + 1] by {
            assert(report.timecodes.skip(i)[j] == report.timecodes[j + i]);
        }
        assert(r.timecodes@.len() + i == n - 2);
    } else {
        assert(r.timecodes@ == report.timecodes);
        assert forall|j: int| 0 <= j < r.timecodes@.len() implies (#[trigger] r.timecodes@[j]).timecode
            == tcs[j + 1] by {
            assert(report.timecodes[j].timecode == tcs[j + 1]);
        }
    }
}

/// The threshold at which a take was decoded.
proof fn lemma_take_decoded(
    rec: Recording,
    tcs: Seq<Timecode>,
    starts: Seq<i8>,
    lengths: Seq<int>,
    amplitude: i64,
    r: LtcDetectionResult,
) -> (threshold: u64)
    requires
        is_clean_take(rec, tcs, starts, lengths, amplitude),
        decodes(rec, r),
    ensures
        is_threshold(rec.samples, threshold),
        ({
            let zc = crossings(rec.samples, threshold, rec.samples.len() as int);
            r@ == coherent_report(
                full_report(
                    rec,
                    zc,
                    threshold,
                    Some(take_candidate(zc, rec.sample_rate, rec.fps)),
                ),
            )
        }),
{
    if is_silent_report(rec.samples, r) {
        if rec.samples.len() == 0 {
            lemma_length(lengths, rec.sample_rate, rec.fps, 0);
            assert forall|j: int| 0 <= j < lengths.len() implies #[trigger] lengths[j] >= 399 by {
                lemma_length(lengths, rec.sample_rate, rec.fps, j);
            }
            lemma_offsets(lengths, 1, tcs.len() as int);
            assert(frame_offset(lengths, 1) == frame_offset(lengths, 0) + lengths[0]);
            assert(false);
        }
        let t = choose|t: u64|
            {
                let zc = crossings(rec.samples, t, rec.samples.len() as int);
                &&& #[trigger] is_threshold(rec.samples, t)
                &&& zc.len() < 8
                &&& r.is_error(crate::ltc_decoder::too_few_crossings(zc.len()))
            };
        lemma_take_signal(rec, tcs, starts, lengths, amplitude, t);
        assert(false);
    }
    let (t, zc) = choose|t: u64, zc: Seq<usize>|
        {
            &&& #[trigger] is_signal(rec.samples, t, zc)
            &&& r@ == coherent_report(
                full_report(
                    rec,
                    zc,
                    t,
                    chosen_candidate(
                        rec.samples,
                        zc,
                        rec.sample_rate,
                        nominal_spb(rec.sample_rate, rec.fps),
                        t,
                    ),
                ),
            )
        };
    lemma_take_report(rec, tcs, starts, lengths, amplitude, t);
    t
}

// ── Recordings that count ──────────────────────────────────────────────────

/// A frame is well over two nanoseconds long.
proof fn lemma_frame_is_long(rate: int, num: int, den: int)
    requires
        0 < rate < 0x1_0000_0000,
        num > 0,
        den > 0,
        400 * num <= rate * den,
    ensures
        500_000_000 * den > 2 * num,
{
    let w = rate * den;
    assert(w <= 0x1_0000_0000 * den) by (nonlinear_arith)
        requires
            w == rate * den,
            rate < 0x1_0000_0000,
            den > 0,
    ;
}

/// The times of two words next to each other are between half a frame and one and
/// a half frames apart.
proof fn lemma_time_step(x: int, spb: int, rate: int, num: int, den: int)
    requires
        0 < rate < 0x1_0000_0000,
        num > 0,
        den > 0,
        400 * num <= rate * den,
        80 * (spb * num) <= (rate * den) * 0x1_0000_0000,
        (rate * den) * 0x1_0000_0000 < 80 * (spb * num) + 80 * num,
    ensures
        ({
            let unit = rate * 0x1_0000_0000;
            let dt = ((x + 80 * spb) * 1_000_000_000) / unit - (x * 1_000_000_000) / unit;
            1_000_000_000 * den < 2 * (dt * num) && 2 * (dt * num) < 3_000_000_000 * den
        }),
{
    let unit = rate * 0x1_0000_0000;
    let p = x * 1_000_000_000;
    let q = (x + 80 * spb) * 1_000_000_000;
    let a = p / unit;
    let b = q / unit;
    let dt = b - a;
    vstd::arithmetic::div_mod::lemma_fundamental_div_mod(p, unit);
    vstd::arithmetic::div_mod::lemma_fundamental_div_mod(q, unit);
    vstd::arithmetic::div_mod::lemma_mod_bound(p, unit);
    vstd::arithmetic::div_mod::lemma_mod_bound(q, unit);
    assert(unit * b - unit * a == unit * dt) by (nonlinear_arith)
        requires
            dt == b - a,
    ;
    let s = spb * num;
    let d = dt * num;
    let ud = unit * d;
    assert(80 * spb * 1_000_000_000 - unit < unit * dt < 80 * spb * 1_000_000_000 + unit);
    assert(80_000_000_000 * s - unit * num < ud < 80_000_000_000 * s + unit * num)
        by (nonlinear_arith)
        requires
            80 * spb * 1_000_000_000 - unit < unit * dt < 80 * spb * 1_000_000_000 + unit,
            s == spb * num,
            d == dt * num,
            ud == unit * d,
            num > 0,
    ;
    let w = rate * den;
    let un = unit * num;
    let uden = unit * den;
    assert(uden == w * 0x1_0000_0000) by (nonlinear_arith)
        requires
            uden == unit * den,
            unit == rate * 0x1_0000_0000,
            w == rate * den,
    ;
    lemma_frame_is_long(rate, num, den);
    assert(500_000_000 * uden > 2 * un) by (nonlinear_arith)
        requires
            500_000_000 * den > 2 * num,
            uden == unit * den,
            un == unit * num,
            unit > 0,
    ;
    assert(2 * ud > 1_000_000_000 * uden);
    assert(2 * ud < 3_000_000_000 * uden);
    assert(2 * d > 1_000_000_000 * den) by (nonlinear_arith)
        requires
            2 * ud > 1_000_000_000 * uden,
            ud == unit * d,
            uden == unit * den,
            unit > 0,
    ;
    assert(2 * d < 3_000_000_000 * den) by (nonlinear_arith)
        requires
            2 * ud < 3_000_000_000 * uden,
            ud == unit * d,
            uden == unit * den,
            unit > 0,
    ;
}

/// The times of a take fit the clock where its frames do.
proof fn lemma_time_fits(phase: int, j: int, n: int, spb: int, rate: int, num: int, den: int)
    requires
        0 < rate,
        num > 0,
        den > 0,
        spb >= 0,
        400 * num <= rate * den,
        0 <= phase,
        phase * num <= rate * den + num,
        0 <= j < n - 2,
        80 * (spb * num) <= (rate * den) * 0x1_0000_0000,
        1_000_000_000 * (n * den) <= 0x7fff_ffff_ffff_ffff * num,
    ensures
        ((phase * UNIT + (80 * (j + 1) - 1) * spb) * 1_000_000_000) / (rate * 0x1_0000_0000)
            <= 0x7fff_ffff_ffff_ffff,
{
    let unit = rate * 0x1_0000_0000;
    let w = rate * den;
    let start = 80 * (j + 1) - 1;
    let x = phase * UNIT + start * spb;
    let v = (x * 1_000_000_000) / unit;
    vstd::arithmetic::div_mod::lemma_fundamental_div_mod(x * 1_000_000_000, unit);
    vstd::arithmetic::div_mod::lemma_mod_bound(x * 1_000_000_000, unit);
    let s = spb * num;
    assert((start * spb) * num <= (n - 2) * (80 * s)) by (nonlinear_arith)
        requires
            0 <= start <= 80 * (n - 2),
            s == spb * num,
            spb >= 0,
            num > 0,
    ;
    let ws = w * 0x1_0000_0000;
    assert((n - 2) * (80 * s) <= (n - 2) * ws) by (nonlinear_arith)
        requires
            80 * s <= ws,
            n >= 2,
    ;
    let xn = x * num;
    assert(xn == (phase * num) * 0x1_0000_0000 + (start * spb) * num) by (nonlinear_arith)
        requires
            xn == x * num,
            x == phase * 0x1_0000_0000 + start * spb,
    ;
    assert((n - 2) * ws + 2 * ws == n * ws) by (nonlinear_arith);
    assert(xn <= n * ws);
    assert(unit * v <= x * 1_000_000_000);
    let vn = v * num;
    assert(unit * vn <= 1_000_000_000 * xn) by (nonlinear_arith)
        requires
            unit * v <= x * 1_000_000_000,
            vn == v * num,
            xn == x * num,
            num > 0,
    ;
    let nd = n * den;
    assert(n * ws == unit * nd) by (nonlinear_arith)
        requires
            ws == (rate * den) * 0x1_0000_0000,
            unit == rate * 0x1_0000_0000,
            nd == n * den,
    ;
    assert(vn <= 1_000_000_000 * nd) by (nonlinear_arith)
        requires
            unit * vn <= 1_000_000_000 * (unit * nd),
            unit > 0,
    ;
    assert(v <= 0x7fff_ffff_ffff_ffff) by (nonlinear_arith)
        requires
            v * num <= 0x7fff_ffff_ffff_ffff * num,
            num > 0,
    ;
}

/// Timecodes that count up frame by frame.
pub open spec fn counts(tcs: Seq<Timecode>, fps: FrameRate, drop_frame: bool) -> bool {
    &&& forall|j: int| 0 <= j < tcs.len() ==> (#[trigger] tcs[j]).in_range(fps.labels())
    &&& forall|j: int|
        0 <= j < tcs.len() - 1 ==> tcs[j + 1] == next_timecode(
            #[trigger] tcs[j],
            fps.labels(),
            drop_frame,
        )
}

/// Two words next to each other in a take that counts are coherent.
proof fn lemma_pair(
    rec: Recording,
    tcs: Seq<Timecode>,
    starts: Seq<i8>,
    lengths: Seq<int>,
    amplitude: i64,
    report: Report,
    phase: usize,
    j: int,
)
    requires
        is_clean_take(rec, tcs, starts, lengths, amplitude),
        counts(tcs, rec.fps, rec.drop_frame),
        1_000_000_000 * (tcs.len() * rec.fps.den) <= i64::MAX * rec.fps.num,
        reports_inner(report, rec, tcs, phase),
        phase <= halves_of(lengths, tcs.len() as int)[2],
        0 < j < tcs.len() - 2,
    ensures
        coherent_pair(report.timecodes[j - 1], report.timecodes[j], rec.fps, rec.drop_frame),
{
    let n = tcs.len() as int;
    let fps = rec.fps;
    let rate = rec.sample_rate as int;
    let num = fps.num as int;
    let den = fps.den as int;
    let spb = nominal_spb(rec.sample_rate, fps) as int;
    lemma_nominal(rec.sample_rate, fps);
    assert(spb * (80 * fps.num) == 80 * (spb * num)) by (nonlinear_arith)
        requires
            num == fps.num,
    ;
    assert(rate > 0) by (nonlinear_arith)
        requires
            400 * num <= rate * den,
            num > 0,
            rate >= 0,
    ;
    lemma_first_crossing(lengths, n, rec.sample_rate, fps, phase as int);
    lemma_time_fits(phase as int, j - 1, n, spb, rate, num, den);
    lemma_time_fits(phase as int, j, n, spb, rate, num, den);
    let x = phase * UNIT + (80 * j - 1) * spb;
    assert(phase * UNIT + (80 * (j + 1) - 1) * spb == x + 80 * spb) by (nonlinear_arith)
        requires
            x == phase * UNIT + (80 * j - 1) * spb,
    ;
    lemma_time_step(x, spb, rate, num, den);
    assert(report.timecodes[j - 1].timecode == tcs[j]);
    assert(report.timecodes[j].timecode == tcs[j + 1]);
    assert(tcs[j + 1] == next_timecode(tcs[j], fps.labels(), rec.drop_frame));
}

/// The first crossing lies within the first frame.
proof fn lemma_first_crossing(lengths: Seq<int>, n: int, sample_rate: u32, fps: FrameRate, phase: int)
    requires
        n > 0,
        lengths.len() == n,
        fps.valid(),
        dense(sample_rate, fps),
        on_time(lengths, sample_rate, fps),
        phase <= halves_of(lengths, n)[2],
    ensures
        phase * fps.num <= sample_rate * fps.den + fps.num,
{
    assert forall|j: int| 0 <= j < lengths.len() implies #[trigger] lengths[j] >= 399 by {
        lemma_length(lengths, sample_rate, fps, j);
    }
    lemma_half_step(lengths, n, 2);
    let total = lengths[0];
    assert(total >= 399);
    assert(phase <= total);
    assert(lengths[0] * fps.num <= sample_rate * fps.den + fps.num);
    let num = fps.num as int;
    assert(phase * num <= total * num) by (nonlinear_arith)
        requires
            phase <= total,
            num > 0,
    ;
}

/// Decoding a clean recording of timecodes that count up gives back every timecode
/// but the first and the last: none is trimmed, and each stands in its place.
///
/// The recording is one that [`law_decode_gives_back`] speaks of, no longer than the
/// clock counts.
pub proof fn law_counted_timecodes_given_back(
    rec: Recording,
    tcs: Seq<Timecode>,
    starts: Seq<i8>,
    lengths: Seq<int>,
    amplitude: i64,
    r: LtcDetectionResult,
)
    requires
        is_clean_take(rec, tcs, starts, lengths, amplitude),
        counts(tcs, rec.fps, rec.drop_frame),
        1_000_000_000 * (tcs.len() * rec.fps.den) <= i64::MAX * rec.fps.num,
        decodes(rec, r),
    ensures
        r.status == LtcDecodeStatus::Success,
        r.timecodes@.len() == tcs.len() - 2,
        forall|j: int|
            0 <= j < tcs.len() - 2 ==> (#[trigger] r.timecodes@[j]).timecode == tcs[j + 1],
{
    let n = tcs.len() as int;
    let threshold = lemma_take_decoded(rec, tcs, starts, lengths, amplitude, r);
    let zc = crossings(rec.samples, threshold, rec.samples.len() as int);
    let report = full_report(
        rec,
        zc,
        threshold,
        Some(take_candidate(zc, rec.sample_rate, rec.fps)),
    );
    lemma_take_signal(rec, tcs, starts, lengths, amplitude, threshold);
    lemma_take_report(rec, tcs, starts, lengths, amplitude, threshold);
    let run = run_length(rec.fps);
    assert forall|i: int| i > 0 implies !#[trigger] is_coherent_start(
        report.timecodes,
        rec.fps,
        rec.drop_frame,
        i,
    ) by {
        if is_coherent_start(report.timecodes, rec.fps, rec.drop_frame, i) {
            assert forall|j: int| 0 <= j < run implies (#[trigger] report.timecodes[j]).timecode.in_range(
                rec.fps.labels(),
            ) by {
                assert(tcs[j + 1].in_range(rec.fps.labels()));
            }
            assert forall|j: int| 0 < j < run implies coherent_pair(
                report.timecodes[j - 1],
                #[trigger] report.timecodes[j],
                rec.fps,
                rec.drop_frame,
            ) by {
                lemma_pair(rec, tcs, starts, lengths, amplitude, report, zc[0], j);
            }
            assert(coherent_run(report.timecodes, 0, run, rec.fps, rec.drop_frame));
        }
    }
    assert(coherent_report(report) == report);
    assert forall|j: int| 0 <= j < n - 2 implies (#[trigger] r.timecodes@[j]).timecode == tcs[j + 1] by {
        assert(report.timecodes[j].timecode == tcs[j + 1]);
    }
}

} // verus!
