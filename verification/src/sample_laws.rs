//! What reading and writing samples promises: the values of samples, where they stand
//! in a file, and how bits become levels.

use vstd::prelude::*;

use vstd::arithmetic::power2::{lemma2_to64, lemma2_to64_rest, lemma_pow2_adds, lemma_pow2_pos, pow2};

use crate::ltc_chunks::{
    chunk_samples, one_chunk, overlap_samples, sample_nanos, DecodeConfig, WavChunkReader,
};
use crate::ltc_decoder_libltc::{external_report, initial_frame_length, percent_found, ExternalFrame};
use crate::ltc_encoder::{half_bit_start, half_level, level_before};
use crate::timecode::FrameRate;
use crate::wav::{first_channel, float_value, int_value, le_u32, present};

verus! {

// ── Values ─────────────────────────────────────────────────────────────────

/// The bytes of an integer sample, the least first, as a number without sign.
pub open spec fn unsigned_value(raw: Seq<u8>, at: int, width: int) -> int
    decreases width,
{
    if width <= 0 {
        0
    } else {
        raw[at] + 0x100 * unsigned_value(raw, at + 1, width - 1)
    }
}

/// The range of a sample of so many bytes.
pub open spec fn byte_range_of(width: int) -> int {
    if width == 1 {
        0x100
    } else if width == 2 {
        0x1_0000
    } else if width == 3 {
        0x100_0000
    } else {
        0x1_0000_0000
    }
}

/// A sample of one byte is told from the middle of its range. A wider one is the number
/// of its bytes, the least first; the upper half of the range is negative.
pub proof fn law_integer_samples(raw: Seq<u8>, at: int, width: nat)
    requires
        1 <= width <= 4,
        0 <= at <= at + width <= raw.len(),
    ensures
        ({
            let v = WavChunkReader::int_sample(raw, at, width);
            let u = unsigned_value(raw, at, width as int);
            let range = byte_range_of(width as int);
            &&& -range / 2 <= v < range / 2
            &&& width == 1 ==> v == u - 128
            &&& width > 1 ==> (v == u || v == u - range)
            &&& 0 <= u < range
        }),
{
    reveal_with_fuel(unsigned_value, 5);
    let _ = le_u32(raw, at);
}

/// The top two bytes of a sample are the sample without its lower bytes.
pub proof fn law_top_of_a_sample(raw: Seq<u8>, at: int, width: nat)
    requires
        2 <= width <= 4,
        0 <= at <= at + width <= raw.len(),
    ensures
        ({
            let v = WavChunkReader::int_sample(raw, at, width);
            let top = WavChunkReader::top_sample(raw, at, width);
            let lower = byte_range_of(width as int) / 0x1_0000;
            &&& top * lower <= v < (top + 1) * lower
        }),
{
}

/// Samples of every width are brought to one scale, on which the loudest one that a
/// width has room for is two to the forty-eighth.
pub proof fn law_one_scale(s: int, bits: u16)
    requires
        1 <= bits <= 32,
        -pow2((bits - 1) as nat) <= s <= pow2((bits - 1) as nat),
    ensures
        int_value(s, bits) * pow2((bits - 1) as nat) == s * 0x1_0000_0000_0000,
{
    let low = (bits - 1) as nat;
    let high = (49 - bits) as nat;
    lemma_pow2_adds(low, high);
    assert(pow2(48) == 0x1_0000_0000_0000) by {
        lemma2_to64_rest();
    }
    let p = pow2(low) as int;
    let q = pow2(high) as int;
    lemma_pow2_pos(low);
    lemma_pow2_pos(high);
    assert(p * q == 0x1_0000_0000_0000);
    assert(-0x1_0000_0000_0000 <= s * q <= 0x1_0000_0000_0000) by (nonlinear_arith)
        requires
            -p <= s <= p,
            p * q == 0x1_0000_0000_0000,
            q > 0,
    ;
    assert((s * q) * p == s * (p * q)) by (nonlinear_arith);
}

/// The parts of a floating-point sample: its sign, exponent and mantissa.
pub open spec fn float_bits(negative: bool, exponent: int, mantissa: int) -> u32 {
    ((if negative {
        0x8000_0000int
    } else {
        0
    }) + exponent * 0x80_0000 + mantissa) as u32
}

/// Floating-point samples are brought to the same scale: one is two to the
/// forty-eighth, the next exponent is twice as much, the mantissa counts in parts of
/// two to the twenty-third, and the sign is that of the sample.
pub proof fn law_float_scale(exponent: int, mantissa: int)
    requires
        102 <= exponent < 139,
        0 <= mantissa < 0x80_0000,
    ensures
        float_value(float_bits(false, 127, 0)) == 0x1_0000_0000_0000,
        float_value(float_bits(false, exponent + 1, 0)) == 2 * float_value(
            float_bits(false, exponent, 0),
        ),
        float_value(float_bits(false, exponent, mantissa)) * 0x80_0000 == (0x80_0000 + mantissa)
            * float_value(float_bits(false, exponent, 0)),
        float_value(float_bits(true, exponent, mantissa)) == -float_value(
            float_bits(false, exponent, mantissa),
        ),
        float_value(float_bits(false, 0, 0)) == 0,
{
    lemma2_to64();
    lemma_float(false, exponent, mantissa);
    lemma_float(true, exponent, mantissa);
    lemma_float(false, exponent, 0);
    lemma_float(false, exponent + 1, 0);
    lemma_float(false, 127, 0);
    let p = pow2((exponent - 102) as nat) as int;
    lemma_pow2_adds(1, (exponent - 102) as nat);
    assert(((0x80_0000 + mantissa) * p) * 0x80_0000 == (0x80_0000 + mantissa) * (0x80_0000 * p))
        by (nonlinear_arith);
    assert(0x80_0000 * (2 * p) == 2 * (0x80_0000 * p)) by (nonlinear_arith);
    assert(float_bits(false, 0, 0) == 0);
}

proof fn lemma_float(negative: bool, exponent: int, mantissa: int)
    requires
        102 <= exponent < 140,
        0 <= mantissa < 0x80_0000,
    ensures
        !negative ==> float_value(float_bits(negative, exponent, mantissa)) == (0x80_0000
            + mantissa) * pow2((exponent - 102) as nat),
        negative ==> float_value(float_bits(negative, exponent, mantissa)) == -((0x80_0000
            + mantissa) * pow2((exponent - 102) as nat)),
{
    let bits = float_bits(negative, exponent, mantissa);
    let base: int = if negative {
        0x8000_0000
    } else {
        0
    };
    assert(bits == base + exponent * 0x80_0000 + mantissa);
    assert(bits as nat / 0x80_0000 % 256 == exponent);
    assert(bits as nat % 0x80_0000 == mantissa);
    let p = pow2((exponent - 102) as nat) as int;
    lemma_pow2_pos((exponent - 102) as nat);
    if exponent < 139 {
        vstd::arithmetic::power2::lemma_pow2_strictly_increases((exponent - 102) as nat, 37);
    }
    lemma2_to64_rest();
    assert(p <= 0x20_0000_0000);
    assert(0 <= (0x80_0000 + mantissa) * p < 0x100_0000 * 0x20_0000_0000) by (nonlinear_arith)
        requires
            0 <= mantissa < 0x80_0000,
            0 < p <= 0x20_0000_0000,
    ;
}

// ── Places ─────────────────────────────────────────────────────────────────

/// The first channel is the first sample of every frame.
pub proof fn law_first_channel(samples: Seq<i32>, channels: nat, frames: nat, i: int)
    requires
        channels > 0,
        samples.len() == frames * channels,
        0 <= i < frames,
    ensures
        first_channel(samples, channels).len() == frames,
        first_channel(samples, channels)[i] == samples[i * channels],
{
    assert((samples.len() + channels - 1) as nat / channels == frames) by {
        vstd::arithmetic::div_mod::lemma_fundamental_div_mod_converse(
            samples.len() + channels - 1,
            channels as int,
            frames as int,
            channels - 1,
        );
    }
}

/// Samples that could be read are kept in their order.
pub proof fn law_read_samples_are_kept(samples: Seq<Option<i32>>, n: int)
    requires
        0 <= n <= samples.len(),
        forall|i: int| 0 <= i < n ==> (#[trigger] samples[i]) is Some,
    ensures
        present(samples, n).len() == n,
        forall|i: int| 0 <= i < n ==> #[trigger] present(samples, n)[i] == samples[i]->0,
    decreases n,
{
    if n > 0 {
        law_read_samples_are_kept(samples, n - 1);
    }
}

/// Reading frames in pieces gives the same samples as reading them at once.
pub proof fn law_pieces_read_alike(reader: WavChunkReader, raw: Seq<u8>, a: int, b: int)
    requires
        !reader.header().is_float,
        1 <= reader.sample_bytes() <= 4,
        reader.header().channels > 0,
        0 <= a <= b,
        b * reader.frame_bytes() <= raw.len(),
    ensures
        ({
            let f = reader.frame_bytes() as int;
            let piece = reader.fixed_samples(raw.subrange(a * f, b * f));
            let all = reader.fixed_samples(raw);
            &&& piece is Ok && all is Ok
            &&& b <= all->Ok_0.len()
            &&& piece->Ok_0 == all->Ok_0.subrange(a, b)
        }),
{
    let f = reader.frame_bytes() as int;
    let w = reader.sample_bytes();
    assert(f >= w && f >= 1) by (nonlinear_arith)
        requires
            f == reader.header().channels as nat * w,
            reader.header().channels as nat >= 1,
            w >= 1,
    ;
    assert(0 <= a * f <= b * f) by (nonlinear_arith)
        requires
            0 <= a <= b,
            f >= 1,
    ;
    let piece = raw.subrange(a * f, b * f);
    assert(piece.len() == (b - a) * f) by (nonlinear_arith)
        requires
            piece.len() == b * f - a * f,
    ;
    vstd::arithmetic::div_mod::lemma_div_multiples_vanish(b - a, f);
    assert((b - a) * f == f * (b - a)) by (nonlinear_arith);
    vstd::arithmetic::div_mod::lemma_div_is_ordered(b * f, raw.len() as int, f);
    vstd::arithmetic::div_mod::lemma_div_multiples_vanish(b, f);
    assert(b * f == f * b) by (nonlinear_arith);
    let x = reader.fixed_samples(piece)->Ok_0;
    let y = reader.fixed_samples(raw)->Ok_0;
    assert(x.len() == b - a);
    assert(b <= y.len());
    assert forall|i: int| 0 <= i < b - a implies #[trigger] x[i] == y.subrange(a, b)[i] by {
        assert(y.subrange(a, b)[i] == y[a + i]);
        assert((a + i) * f == a * f + i * f) by (nonlinear_arith);
        assert(0 <= i * f && i * f + f <= (b - a) * f) by (nonlinear_arith)
            requires
                0 <= i < b - a,
                f >= 1,
        ;
        lemma_same_sample(raw, piece, a * f, i * f, w);
    }
    assert(x =~= y.subrange(a, b));
}

proof fn lemma_same_sample(raw: Seq<u8>, piece: Seq<u8>, from: int, at: int, w: nat)
    requires
        1 <= w <= 4,
        0 <= from,
        0 <= at,
        at + w <= piece.len(),
        from + piece.len() <= raw.len(),
        piece == raw.subrange(from, from + piece.len()),
    ensures
        WavChunkReader::int_sample(piece, at, w) == WavChunkReader::int_sample(raw, from + at, w),
{
    assert forall|k: int| 0 <= k < w implies #[trigger] piece[at + k] == raw[from + at + k] by {}
    assert(piece[at + 0] == raw[from + at + 0]);
    if w > 1 {
        assert(piece[at + 1] == raw[from + at + 1]);
    }
    if w > 2 {
        assert(piece[at + 2] == raw[from + at + 2]);
    }
    if w > 3 {
        assert(piece[at + 3] == raw[from + at + 3]);
    }
}

/// The size of chunks: what their bytes hold, but at least two overlaps; an overlap is
/// the samples that fit its time. A recording that is longer than a chunk and an overlap
/// is read in chunks.
pub proof fn law_chunk_sizes(config: DecodeConfig, sample_rate: u32, bytes_per_sample: u64, total: nat)
    requires
        bytes_per_sample > 0,
        config.chunk_size_bytes / bytes_per_sample <= usize::MAX,
    ensures
        ({
            let chunk = chunk_samples(config, sample_rate, bytes_per_sample, total);
            let overlap = overlap_samples(config, sample_rate);
            &&& chunk >= 2 * overlap
            &&& chunk > 2 * overlap ==> chunk * bytes_per_sample <= config.chunk_size_bytes
            &&& config.chunk_size_bytes < (chunk + 1) * bytes_per_sample
            &&& overlap * 1_000_000_000 <= config.overlap_nanos * sample_rate
            &&& overlap < usize::MAX / 2 ==> config.overlap_nanos * sample_rate < (overlap + 1)
                * 1_000_000_000
            &&& one_chunk(config, sample_rate, bytes_per_sample, total) <==> total <= chunk
                + overlap
        }),
{
    let c = config.chunk_size_bytes as int;
    let b = bytes_per_sample as int;
    let q = c / b;
    vstd::arithmetic::div_mod::lemma_fundamental_div_mod(c, b);
    vstd::arithmetic::div_mod::lemma_mod_bound(c, b);
    assert(q * b <= c < (q + 1) * b) by (nonlinear_arith)
        requires
            c == b * q + c % b,
            0 <= c % b < b,
    ;
    let chunk = chunk_samples(config, sample_rate, bytes_per_sample, total) as int;
    assert(q <= chunk);
    assert((q + 1) * b <= (chunk + 1) * b) by (nonlinear_arith)
        requires
            q <= chunk,
            b > 0,
    ;
    assert(config.overlap_nanos * sample_rate >= 0) by (nonlinear_arith);
}

// ── Levels ─────────────────────────────────────────────────────────────────

/// The level changes at the start of every bit; inside a bit it changes where the bit is
/// one, and only there.
pub proof fn law_levels_of_bits(bits: Seq<u8>, start: i8, b: nat)
    requires
        b < bits.len(),
        start == 1 || start == -1,
    ensures
        half_level(bits, start, 0) == -start,
        half_level(bits, start, 2 * b) == 1 || half_level(bits, start, 2 * b) == -1,
        half_level(bits, start, 2 * b + 1) == if bits[b as int] == 1 {
            -half_level(bits, start, 2 * b)
        } else {
            half_level(bits, start, 2 * b) as int
        },
        b + 1 < bits.len() ==> half_level(bits, start, 2 * b + 2) == -half_level(
            bits,
            start,
            2 * b + 1,
        ),
{
    lemma_level(bits, start, b);
    assert(2 * b / 2 == b && 2 * b % 2 == 0);
    assert((2 * b + 1) / 2 == b && (2 * b + 1) % 2 == 1);
    assert((2 * b + 2) / 2 == b + 1 && (2 * b + 2) % 2 == 0);
    assert(level_before(bits, start, 0) == start);
}

proof fn lemma_level(bits: Seq<u8>, start: i8, b: nat)
    requires
        start == 1 || start == -1,
    ensures
        level_before(bits, start, b) == 1 || level_before(bits, start, b) == -1,
    decreases b,
{
    if b > 0 {
        lemma_level(bits, start, (b - 1) as nat);
    }
}

/// Half bits divide a frame evenly, each beginning at the nearest sample.
pub proof fn law_half_bits_are_even(total: nat, half: nat)
    ensures
        -80 <= 160 * half_bit_start(total, half) - half * total <= 80,
        half_bit_start(total, 0) == 0,
        half_bit_start(total, 160) == total,
{
    assert(half * total >= 0) by (nonlinear_arith);
    assert(0 * total == 0);
}

// ── The external decoder ───────────────────────────────────────────────────

/// What is reported of the frames of the external decoder: each with its timecode, in
/// their order, the first telling where the recording begins; success means that there
/// is one, and their number is told as the share of those that there is room for.
pub proof fn law_external_frames(
    frames: Seq<ExternalFrame>,
    total_samples: usize,
    sample_rate: u32,
    initial_apv: i32,
    queue_length: usize,
    fps: FrameRate,
    drop_frame: bool,
    i: int,
)
    requires
        frames.len() <= u32::MAX,
    ensures
        ({
            let r = external_report(
                frames,
                total_samples,
                sample_rate,
                initial_apv,
                queue_length,
                fps,
                drop_frame,
            );
            &&& r.status is Success <==> frames.len() > 0
            &&& r.valid_frames == frames.len()
            &&& r.timecodes.len() == frames.len()
            &&& 0 <= i < frames.len() ==> r.timecodes[i].timecode == frames[i].timecode
                && r.timecodes[i].frame_index == i && r.timecodes[i].timecode_nanos
                == sample_nanos(frames[i].off_start as int, sample_rate)
            &&& frames.len() > 0 ==> r.first_ltc_nanos == r.timecodes[0].timecode_nanos
            &&& frames.len() == 0 ==> r.first_ltc_nanos == 0
            &&& r.total_possible_frames > 0 && frames.len() <= r.total_possible_frames
                ==> r.avg_confidence.num * r.total_possible_frames == 100 * frames.len()
                * r.avg_confidence.den
            &&& frames.len() > r.total_possible_frames > 0 ==> r.avg_confidence.num == 100
                * r.avg_confidence.den
            &&& r.detected_fps == fps && r.drop_frame == drop_frame && r.total_samples
                == total_samples && r.sample_rate == sample_rate
        }),
{
    let possible = crate::ltc_chunks::frames_of(total_samples, sample_rate, fps);
    let valid = frames.len() as u32;
    let s = percent_found(valid, possible);
    if 0 < possible && valid <= possible {
        assert(s.num == 100 * valid && s.den == possible);
        assert((100 * valid) * possible == 100 * valid * possible) by (nonlinear_arith);
    }
}

/// A sample is told the whole nanoseconds before it, as far as the clock counts.
pub proof fn law_sample_times(sample: int, sample_rate: u32)
    requires
        sample_rate > 0,
    ensures
        ({
            let t = sample_nanos(sample, sample_rate) as int;
            i64::MIN < t < i64::MAX ==> t * sample_rate <= sample * 1_000_000_000 < (t + 1)
                * sample_rate
        }),
{
    let x = sample * 1_000_000_000;
    let d = sample_rate as int;
    let t = x / d;
    vstd::arithmetic::div_mod::lemma_fundamental_div_mod(x, d);
    vstd::arithmetic::div_mod::lemma_mod_bound(x, d);
    assert(t * d <= x < (t + 1) * d) by (nonlinear_arith)
        requires
            x == d * t + x % d,
            0 <= x % d < d,
    ;
}

/// The length that a frame is first taken to have is that of one at twenty-five frames
/// a second, rounded up.
pub proof fn law_first_frame_length(sample_rate: u32)
    ensures
        25 * initial_frame_length(sample_rate) >= sample_rate > 25 * (initial_frame_length(
            sample_rate,
        ) - 1),
{
}

} // verus!
