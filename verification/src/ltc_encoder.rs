//! Linear timecode words and their bi-phase mark modulation.

use vstd::prelude::*;

use crate::text::same;
use crate::timecode::Timecode;

verus! {

/// The number of bits in one linear timecode word.
pub const WORD_BITS: usize = 80;

// ── Words ──────────────────────────────────────────────────────────────────

/// Bit `i` of `val`, as 0 or 1.
pub open spec fn bit_of(val: u32, i: int) -> u8 {
    ((val >> (i as u32)) & 1) as u8
}

/// Writes the low `length` bits of `val` from `start_bit` on, least significant first.
pub fn write_val(bits: &mut [u8; 80], val: u32, start_bit: usize, length: usize)
    requires
        start_bit + length <= 80,
        length <= 32,
    ensures
        forall|j: int|
            0 <= j < 80 ==> #[trigger] final(bits)@[j] == if start_bit <= j < start_bit + length {
                bit_of(val, j - start_bit)
            } else {
                old(bits)@[j]
            },
{
    let mut i: usize = 0;
    while i < length
        invariant
            i <= length,
            start_bit + length <= 80,
            length <= 32,
            forall|j: int|
                0 <= j < 80 ==> #[trigger] bits@[j] == if start_bit <= j < start_bit + i {
                    bit_of(val, j - start_bit)
                } else {
                    old(bits)@[j]
                },
        decreases length - i,
    {
        bits[start_bit + i] = ((val >> (i as u32)) & 1) as u8;
        i += 1;
    }
}

/// Bit `i` of the sixteen bit sync word `0011 1111 1111 1101`.
pub open spec fn sync_bit(i: int) -> u8 {
    if i == 0 || i == 1 || i == 14 {
        0
    } else {
        1
    }
}

/// Bit `i` of the word for a timecode.
///
/// | bits  | content          | bits  | content         |
/// |-------|------------------|-------|-----------------|
/// | 0–3   | frame units      | 32–35 | minute units    |
/// | 8–9   | frame tens       | 40–42 | minute tens     |
/// | 10    | drop-frame flag  | 48–51 | hour units      |
/// | 16–19 | second units     | 56–57 | hour tens       |
/// | 24–26 | second tens      | 64–79 | sync word       |
///
/// All other bits are zero.
pub open spec fn word_bit(tc: Timecode, drop_frame: bool, i: int) -> u8 {
    if 0 <= i < 4 {
        bit_of((tc.frames % 10) as u32, i)
    } else if 8 <= i < 10 {
        bit_of((tc.frames / 10) as u32, i - 8)
    } else if i == 10 {
        if drop_frame {
            1
        } else {
            0
        }
    } else if 16 <= i < 20 {
        bit_of((tc.seconds % 10) as u32, i - 16)
    } else if 24 <= i < 27 {
        bit_of((tc.seconds / 10) as u32, i - 24)
    } else if 32 <= i < 36 {
        bit_of((tc.minutes % 10) as u32, i - 32)
    } else if 40 <= i < 43 {
        bit_of((tc.minutes / 10) as u32, i - 40)
    } else if 48 <= i < 52 {
        bit_of((tc.hours % 10) as u32, i - 48)
    } else if 56 <= i < 58 {
        bit_of((tc.hours / 10) as u32, i - 56)
    } else if 64 <= i < 80 {
        sync_bit(i - 64)
    } else {
        0
    }
}

/// The 80 bit word for a timecode.
pub open spec fn word(tc: Timecode, drop_frame: bool) -> Seq<u8> {
    Seq::new(80, |i: int| word_bit(tc, drop_frame, i))
}

/// Builds the 80 bit linear timecode word for a timecode.
pub fn get_ltc_bits(tc: &Timecode, drop_frame: bool) -> (bits: [u8; 80])
    ensures
        bits@ == word(*tc, drop_frame),
{
    let mut bits = [0u8; 80];
    write_val(&mut bits, tc.frames % 10, 0, 4);
    write_val(&mut bits, tc.frames / 10, 8, 2);
    bits[10] = if drop_frame {
        1
    } else {
        0
    };
    write_val(&mut bits, tc.seconds % 10, 16, 4);
    write_val(&mut bits, tc.seconds / 10, 24, 3);
    write_val(&mut bits, tc.minutes % 10, 32, 4);
    write_val(&mut bits, tc.minutes / 10, 40, 3);
    write_val(&mut bits, tc.hours % 10, 48, 4);
    write_val(&mut bits, tc.hours / 10, 56, 2);
    let mut i: usize = 66;
    while i < 78
        invariant
            66 <= i <= 78,
            forall|j: int| 0 <= j < 64 ==> #[trigger] bits@[j] == word_bit(*tc, drop_frame, j),
            forall|j: int|
                64 <= j < 80 ==> #[trigger] bits@[j] == if 66 <= j < i {
                    1u8
                } else {
                    0u8
                },
        decreases 78 - i,
    {
        bits[i] = 1;
        i += 1;
    }
    bits[79] = 1;
    assert(bits@ =~= word(*tc, drop_frame));
    bits
}

// ── Samples per frame ──────────────────────────────────────────────────────

/// Computes the number of samples of the next frame with a fractional-sample
/// accumulator, so that no drift builds up when a frame is not a whole number
/// of samples long.
///
/// A frame is `exact_num / exact_den` samples long; `base_samples` is its whole
/// part, and the accumulator counts in units of `1 / exact_den` sample. Returns
/// the samples of this frame and the accumulator for the next one.
pub fn compute_frame_sample_count(
    exact_num: u64,
    exact_den: u64,
    base_samples: usize,
    accumulator: u64,
) -> (r: (usize, u64))
    requires
        exact_den > 0,
        base_samples == exact_num / exact_den,
        base_samples < usize::MAX,
        accumulator + exact_num % exact_den <= u64::MAX,
    ensures
        accumulator + exact_num % exact_den < exact_den ==> r == (
            base_samples,
            (accumulator + exact_num % exact_den) as u64,
        ),
        accumulator + exact_num % exact_den >= exact_den ==> r == (
            (base_samples + 1) as usize,
            (accumulator + exact_num % exact_den - exact_den) as u64,
        ),
{
    let acc: u64 = accumulator + exact_num % exact_den;
    if acc >= exact_den {
        (base_samples + 1, acc - exact_den)
    } else {
        (base_samples, acc)
    }
}

/// The samples of the first `frames` frames and the accumulator after them,
/// when the accumulator starts at zero.
pub open spec fn accumulated(exact_num: nat, exact_den: nat, frames: nat) -> (nat, nat)
    decreases frames,
{
    if frames == 0 {
        (0, 0)
    } else {
        let (samples, acc) = accumulated(exact_num, exact_den, (frames - 1) as nat);
        let next = acc + exact_num % exact_den;
        if next >= exact_den {
            (samples + exact_num / exact_den + 1, (next - exact_den) as nat)
        } else {
            (samples + exact_num / exact_den, next)
        }
    }
}

/// The accumulator leaves no drift: after any number of frames the samples
/// given out are the exact length rounded down, and the accumulator holds the
/// rest.
pub proof fn law_no_drift(exact_num: nat, exact_den: nat, frames: nat)
    requires
        exact_den > 0,
    ensures
        ({
            let (samples, acc) = accumulated(exact_num, exact_den, frames);
            &&& acc < exact_den
            &&& samples * exact_den + acc == frames * exact_num
            &&& samples == (frames * exact_num) / exact_den
        }),
    decreases frames,
{
    let (samples, acc) = accumulated(exact_num, exact_den, frames);
    if frames > 0 {
        law_no_drift(exact_num, exact_den, (frames - 1) as nat);
        let (s0, a0) = accumulated(exact_num, exact_den, (frames - 1) as nat);
        let q = exact_num / exact_den;
        let rem = exact_num % exact_den;
        vstd::arithmetic::div_mod::lemma_fundamental_div_mod(exact_num as int, exact_den as int);
        assert(frames * exact_num == (frames - 1) * exact_num + exact_num) by (nonlinear_arith);
        assert((s0 + q) * exact_den == s0 * exact_den + exact_den * q) by (nonlinear_arith);
        assert((s0 + q + 1) * exact_den == s0 * exact_den + exact_den * q + exact_den)
            by (nonlinear_arith);
    } else {
        assert(samples * exact_den == 0) by (nonlinear_arith)
            requires
                samples == 0,
        ;
        assert(frames * exact_num == 0) by (nonlinear_arith)
            requires
                frames == 0,
        ;
    }
    vstd::arithmetic::div_mod::lemma_fundamental_div_mod_converse(
        (frames * exact_num) as int,
        exact_den as int,
        samples as int,
        acc as int,
    );
}

// ── Bi-phase mark modulation ───────────────────────────────────────────────

/// The sample at which half-bit `half` of a frame of `total` samples begins:
/// `half / 160` of the frame, rounded to the nearest sample, halves up.
pub open spec fn half_bit_start(total: nat, half: nat) -> nat {
    (half * total + 80) / 160
}

fn half_bit(total: usize, half: u64) -> (r: usize)
    requires
        half <= 160,
    ensures
        r == half_bit_start(total as nat, half as nat),
        r <= total,
{
    proof {
        assert(half * total <= 160 * total) by (nonlinear_arith)
            requires
                half <= 160,
        ;
        assert(160 * total <= 160 * 0xffff_ffff_ffff_ffff);
    }
    let product: u128 = half as u128 * total as u128;
    ((product + 80) / 160) as usize
}

/// The level at the end of bit `b - 1`: the level flips at the start of every
/// bit and once more in the middle of a one.
pub open spec fn level_before(bits: Seq<u8>, start: i8, b: nat) -> i8
    decreases b,
{
    if b == 0 {
        start
    } else {
        let before = level_before(bits, start, (b - 1) as nat);
        if bits[b - 1] == 1 {
            before
        } else {
            (-before) as i8
        }
    }
}

/// The level in half-bit `half` (0 to 159).
pub open spec fn half_level(bits: Seq<u8>, start: i8, half: nat) -> i8 {
    let before = level_before(bits, start, half / 2);
    if half % 2 == 0 || bits[(half / 2) as int] != 1 {
        (-before) as i8
    } else {
        before
    }
}

/// `levels` is the modulation of `bits` over a whole frame: every half-bit is on
/// its level from its first sample up to the next half-bit.
pub open spec fn is_modulated(levels: Seq<i8>, bits: Seq<u8>, start: i8) -> bool {
    forall|half: nat, s: int|
        half < 160 && half_bit_start(levels.len(), half) <= s < half_bit_start(
            levels.len(),
            half + 1,
        ) ==> #[trigger] levels[s] == #[trigger] half_level(bits, start, half)
}

/// Modulates one word: the level, 1 or -1, of each of the `total_samples`
/// samples of the frame, and the level on which the next frame continues.
pub fn biphase_levels(bits: &[u8; 80], total_samples: usize, start_level: i8) -> (r: (Vec<i8>, i8))
    requires
        start_level == 1 || start_level == -1,
    ensures
        r.0@.len() == total_samples,
        is_modulated(r.0@, bits@, start_level),
        forall|s: int| 0 <= s < total_samples ==> #[trigger] r.0@[s] == 1 || r.0@[s] == -1,
        r.1 == level_before(bits@, start_level, 80),
        r.1 == 1 || r.1 == -1,
{
    let mut out: Vec<i8> = Vec::new();
    let mut level: i8 = start_level;
    let mut b: usize = 0;
    assert(half_bit_start(total_samples as nat, 0) == 0) by (nonlinear_arith);
    while b < 80
        invariant
            b <= 80,
            level == 1 || level == -1,
            level == level_before(bits@, start_level, b as nat),
            out@.len() == half_bit_start(total_samples as nat, (2 * b) as nat),
            forall|s: int| 0 <= s < out@.len() ==> #[trigger] out@[s] == 1 || out@[s] == -1,
            forall|half: nat, s: int|
                half < 2 * b && half_bit_start(total_samples as nat, half) <= s < half_bit_start(
                    total_samples as nat,
                    half + 1,
                ) ==> #[trigger] out@[s] == #[trigger] half_level(bits@, start_level, half),
        decreases 80 - b,
    {
        proof {
            lemma_half_bits_ascend(total_samples as nat);
        }
        level = -level;
        extend_level(&mut out, half_bit(total_samples, 2 * b as u64 + 1), level);
        if bits[b] == 1 {
            level = -level;
        }
        extend_level(&mut out, half_bit(total_samples, 2 * b as u64 + 2), level);
        assert(half_level(bits@, start_level, (2 * b) as nat) == -level_before(
            bits@,
            start_level,
            b as nat,
        ));
        assert((2 * b + 1) as nat / 2 == b);
        assert(level == half_level(bits@, start_level, (2 * b + 1) as nat));
        b += 1;
    }
    assert(half_bit_start(total_samples as nat, 160) == total_samples) by (nonlinear_arith);
    (out, level)
}

/// Half-bits follow one another without gaps or overlap.
pub proof fn lemma_half_bits_ascend(total: nat)
    ensures
        forall|a: nat, b: nat| a <= b ==> #[trigger] half_bit_start(total, a) <= #[trigger] half_bit_start(total, b),
{
    assert forall|a: nat, b: nat| a <= b implies #[trigger] half_bit_start(total, a)
        <= #[trigger] half_bit_start(total, b) by {
        assert(a * total <= b * total) by (nonlinear_arith)
            requires
                a <= b,
        ;
    }
}

fn extend_level(out: &mut Vec<i8>, end: usize, level: i8)
    requires
        old(out)@.len() <= end,
    ensures
        final(out)@.len() == end,
        forall|s: int| 0 <= s < old(out)@.len() ==> #[trigger] final(out)@[s] == old(out)@[s],
        forall|s: int| old(out)@.len() <= s < end ==> #[trigger] final(out)@[s] == level,
{
    while out.len() < end
        invariant
            old(out)@.len() <= out@.len() <= end,
            forall|s: int| 0 <= s < old(out)@.len() ==> #[trigger] out@[s] == old(out)@[s],
            forall|s: int| old(out)@.len() <= s < out@.len() ==> #[trigger] out@[s] == level,
        decreases end - out@.len(),
    {
        out.push(level);
    }
}

/// Which of the two output channels a channel selection (`both`, `left` or
/// `right`) plays on.
pub fn routed_channels(channel: &str) -> (r: (bool, bool))
    ensures
        r.0 == (channel@ == "both"@ || channel@ == "left"@),
        r.1 == (channel@ == "both"@ || channel@ == "right"@),
{
    (same(channel, "both") || same(channel, "left"), same(channel, "both") || same(channel, "right"))
}

} // verus!
