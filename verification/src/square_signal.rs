//! A clean bi-phase signal: where it crosses zero, and the bits that its
//! crossings are read as.

use vstd::prelude::*;

use crate::ltc_signal::{
    binary, crosses, crossing_bits, crossings, half_cell_bits, interval, is_noticeable, is_short,
    last_side, short_intervals, side,
};

verus! {

/// Sample `s` belongs to half-bit `h`.
pub open spec fn in_half(halves: Seq<int>, h: int, s: int) -> bool {
    halves[h] <= s < halves[h + 1]
}

/// The level of half-bit `h`, where `levels[g]` is the level before bit `g`.
pub open spec fn level_of_half(levels: Seq<int>, h: int) -> int {
    if h % 2 == 0 {
        -levels[h / 2]
    } else {
        levels[h / 2 + 1]
    }
}

/// The half-bits of `n` bits that start at `halves`, one after another.
pub open spec fn are_halves(halves: Seq<int>, n: int) -> bool {
    &&& halves.len() == 2 * n + 1
    &&& halves[0] == 0
    &&& forall|h: int| 0 <= h < 2 * n ==> #[trigger] halves[h] < halves[h + 1]
}

/// The samples carry `bits`: the level changes at the start of every bit and in
/// the middle of every one; `levels[g]` is the level before bit `g`.
pub open spec fn is_square(samples: Seq<i64>, bits: Seq<u8>, levels: Seq<int>, halves: Seq<int>, amplitude: i64) -> bool {
    &&& are_halves(halves, bits.len() as int)
    &&& samples.len() == halves[2 * bits.len() as int]
    &&& levels.len() == bits.len() + 1
    &&& forall|g: int| 0 <= g < levels.len() ==> #[trigger] levels[g] == 1 || levels[g] == -1
    &&& forall|g: int|
        0 <= g < bits.len() ==> levels[g + 1] == if #[trigger] bits[g] == 1 {
            levels[g]
        } else {
            -levels[g]
        }
    &&& forall|h: int, s: int|
        0 <= h < 2 * bits.len() && #[trigger] in_half(halves, h, s) ==> samples[s] == amplitude
            * level_of_half(levels, h)
}

/// What holds of a signal and its threshold throughout.
pub open spec fn is_clean(
    samples: Seq<i64>,
    bits: Seq<u8>,
    levels: Seq<int>,
    halves: Seq<int>,
    amplitude: i64,
    threshold: u64,
) -> bool {
    &&& is_square(samples, bits, levels, halves, amplitude)
    &&& binary(bits)
    &&& 0 < amplitude < i64::MAX
    &&& 0 < threshold <= amplitude
    &&& samples.len() <= usize::MAX
}

/// The level changes at the start of half-bit `h`.
pub open spec fn flips(bits: Seq<u8>, h: int) -> bool {
    if h % 2 == 0 {
        h > 0
    } else {
        bits[h / 2] == 1
    }
}

/// Where a signal that carries `bits` crosses zero before half-bit `h`: at the
/// start of every bit but the first and in the middle of every one.
pub open spec fn half_crossings(bits: Seq<u8>, halves: Seq<int>, h: int) -> Seq<usize>
    decreases h,
{
    if h <= 0 {
        seq![]
    } else if flips(bits, h - 1) {
        half_crossings(bits, halves, h - 1).push(halves[h - 1] as usize)
    } else {
        half_crossings(bits, halves, h - 1)
    }
}

proof fn lemma_halves_ascend(halves: Seq<int>, n: int, a: int, b: int)
    requires
        are_halves(halves, n),
        0 <= a <= b <= 2 * n,
    ensures
        0 <= halves[a] <= halves[b],
    decreases b, a,
{
    if a < b {
        lemma_halves_ascend(halves, n, a, b - 1);
        assert(halves[b - 1] < halves[b - 1 + 1]);
    } else if 0 < a {
        lemma_halves_ascend(halves, n, 0, a);
    }
}

/// The side of a sample is that of its level.
proof fn lemma_side(
    samples: Seq<i64>,
    bits: Seq<u8>,
    levels: Seq<int>,
    halves: Seq<int>,
    amplitude: i64,
    threshold: u64,
    h: int,
    s: int,
)
    requires
        is_clean(samples, bits, levels, halves, amplitude, threshold),
        0 <= h < 2 * bits.len(),
        in_half(halves, h, s),
    ensures
        side(samples[s], threshold) == level_of_half(levels, h),
        side(samples[s], threshold) != 0,
{
    assert(levels[h / 2] == 1 || levels[h / 2] == -1);
    assert(levels[h / 2 + 1] == 1 || levels[h / 2 + 1] == -1);
    assert(amplitude * 1 == amplitude && amplitude * (-1) == -amplitude) by (nonlinear_arith);
}

/// Crossings up to sample `s` of half-bit `h`.
proof fn lemma_crossings_within(
    samples: Seq<i64>,
    bits: Seq<u8>,
    levels: Seq<int>,
    halves: Seq<int>,
    amplitude: i64,
    threshold: u64,
    h: int,
    s: int,
)
    requires
        is_clean(samples, bits, levels, halves, amplitude, threshold),
        0 <= h < 2 * bits.len(),
        halves[h] < s <= halves[h + 1],
    ensures
        crossings(samples, threshold, s) == if flips(bits, h) {
            crossings(samples, threshold, halves[h]).push(halves[h] as usize)
        } else {
            crossings(samples, threshold, halves[h])
        },
    decreases s,
{
    let n = bits.len() as int;
    lemma_halves_ascend(halves, n, 0, h);
    lemma_halves_ascend(halves, n, h + 1, 2 * n);
    let i = s - 1;
    assert(in_half(halves, h, i));
    lemma_side(samples, bits, levels, halves, amplitude, threshold, h, i);
    if i > halves[h] {
        lemma_crossings_within(samples, bits, levels, halves, amplitude, threshold, h, i);
        assert(in_half(halves, h, i - 1));
        lemma_side(samples, bits, levels, halves, amplitude, threshold, h, i - 1);
        assert(last_side(samples, threshold, i) == side(samples[i - 1], threshold));
        assert(!crosses(samples, threshold, i));
    } else if h > 0 {
        assert(halves[h - 1] < halves[h - 1 + 1]);
        lemma_halves_ascend(halves, n, 0, h - 1);
        assert(in_half(halves, h - 1, i - 1));
        lemma_side(samples, bits, levels, halves, amplitude, threshold, h - 1, i - 1);
        assert(last_side(samples, threshold, i) == side(samples[i - 1], threshold));
        let g = (h - 1) / 2;
        assert(levels[g + 1] == if bits[g] == 1 {
            levels[g]
        } else {
            -levels[g]
        });
        assert(levels[g] == 1 || levels[g] == -1);
        assert(levels[g + 1] == 1 || levels[g + 1] == -1);
        assert(crosses(samples, threshold, i) == flips(bits, h));
    } else {
        assert(last_side(samples, threshold, 0) == 0);
    }
}

/// A clean signal crosses zero where its bits say.
pub proof fn lemma_crossings(
    samples: Seq<i64>,
    bits: Seq<u8>,
    levels: Seq<int>,
    halves: Seq<int>,
    amplitude: i64,
    threshold: u64,
    h: int,
)
    requires
        is_clean(samples, bits, levels, halves, amplitude, threshold),
        0 <= h <= 2 * bits.len(),
    ensures
        crossings(samples, threshold, halves[h]) == half_crossings(bits, halves, h),
    decreases h,
{
    if h > 0 {
        lemma_crossings(samples, bits, levels, halves, amplitude, threshold, h - 1);
        assert(halves[h - 1] < halves[h - 1 + 1]);
        lemma_crossings_within(
            samples,
            bits,
            levels,
            halves,
            amplitude,
            threshold,
            h - 1,
            halves[h],
        );
    }
}

// ── The list of crossings ──────────────────────────────────────────────────

/// The number of ones before bit `g`.
pub open spec fn ones(bits: Seq<u8>, g: int) -> nat
    decreases g,
{
    if g <= 0 {
        0
    } else {
        ones(bits, g - 1) + if bits[g - 1] == 1 {
            1nat
        } else {
            0nat
        }
    }
}

proof fn lemma_prefix(bits: Seq<u8>, halves: Seq<int>, a: int, b: int)
    requires
        0 <= a <= b,
    ensures
        half_crossings(bits, halves, a).len() <= half_crossings(bits, halves, b).len(),
        forall|i: int|
            0 <= i < half_crossings(bits, halves, a).len() ==> #[trigger] half_crossings(
                bits,
                halves,
                a,
            )[i] == half_crossings(bits, halves, b)[i],
    decreases b,
{
    if a < b {
        lemma_prefix(bits, halves, a, b - 1);
    }
}

/// The number of crossings before bit `g`.
proof fn lemma_crossing_count(bits: Seq<u8>, halves: Seq<int>, g: int)
    requires
        0 <= g <= bits.len(),
    ensures
        half_crossings(bits, halves, 2 * g).len() == ones(bits, g) + if g >= 1 {
            g - 1
        } else {
            0
        },
    decreases g,
{
    if g >= 1 {
        lemma_crossing_count(bits, halves, g - 1);
        assert((2 * g - 1) / 2 == g - 1 && (2 * g - 2) % 2 == 0 && (2 * g - 1) % 2 == 1);
        reveal_with_fuel(half_crossings, 3);
    }
}

/// Which crossings belong to bit `g`.
proof fn lemma_crossings_of_bit(bits: Seq<u8>, halves: Seq<int>, g: int)
    requires
        binary(bits),
        are_halves(halves, bits.len() as int),
        halves[2 * bits.len() as int] <= usize::MAX,
        0 <= g < bits.len(),
    ensures
        ({
            let zc = half_crossings(bits, halves, 2 * bits.len() as int);
            let i = half_crossings(bits, halves, 2 * g).len() as int;
            let next = half_crossings(bits, halves, 2 * (g + 1)).len() as int;
            let first: int = if g >= 1 {
                1
            } else {
                0
            };
            &&& next <= zc.len()
            &&& next == i + first + bits[g]
            &&& g >= 1 ==> zc[i] == halves[2 * g]
            &&& bits[g] == 1 ==> zc[i + first] == halves[2 * g + 1]
        }),
{
    let n = bits.len() as int;
    let here = half_crossings(bits, halves, 2 * g);
    let half = half_crossings(bits, halves, 2 * g + 1);
    let next = half_crossings(bits, halves, 2 * g + 2);
    lemma_prefix(bits, halves, 2 * g + 2, 2 * n);
    lemma_halves_ascend(halves, n, 2 * g, 2 * n);
    lemma_halves_ascend(halves, n, 2 * g + 1, 2 * n);
    assert((2 * g) % 2 == 0 && (2 * g + 1) % 2 == 1 && (2 * g + 1) / 2 == g);
    let i = here.len() as int;
    assert(bits[g] <= 1);
    if g >= 1 {
        assert(half == here.push(halves[2 * g] as usize));
        assert(next[i] == half[i]);
        if bits[g] == 1 {
            assert(next[i + 1] == halves[2 * g + 1]);
        }
    } else {
        assert(half == here);
        if bits[g] == 1 {
            assert(next[i] == halves[2 * g + 1]);
        }
    }
}

// ── Reading the crossings ──────────────────────────────────────────────────

/// The bits end in a zero and a one, as every timecode word does.
pub open spec fn ends_in_one(bits: Seq<u8>) -> bool {
    bits.len() >= 3 && bits[bits.len() - 2] == 0 && bits[bits.len() - 1] == 1
}

/// Bit `g` is long and its halves are short, though no noise.
pub open spec fn well_timed(halves: Seq<int>, spb: u128, g: int) -> bool {
    &&& !is_short(halves[2 * g + 2] - halves[2 * g], spb)
    &&& is_short(halves[2 * g + 1] - halves[2 * g], spb)
    &&& is_noticeable(halves[2 * g + 1] - halves[2 * g], spb)
    &&& is_short(halves[2 * g + 2] - halves[2 * g + 1], spb)
    &&& is_noticeable(halves[2 * g + 2] - halves[2 * g + 1], spb)
}

/// What is common to the lemmas on reading crossings.
pub open spec fn readable_bits(bits: Seq<u8>, halves: Seq<int>, spb: u128) -> bool {
    &&& binary(bits)
    &&& ends_in_one(bits)
    &&& are_halves(halves, bits.len() as int)
    &&& halves[2 * bits.len() as int] <= usize::MAX
    &&& forall|g: int| 0 <= g < bits.len() ==> #[trigger] well_timed(halves, spb, g)
}

/// From the start of a bit on, its crossings are read as the bits up to the last.
proof fn lemma_read_from_start(bits: Seq<u8>, halves: Seq<int>, spb: u128, g: int)
    requires
        readable_bits(bits, halves, spb),
        1 <= g < bits.len(),
    ensures
        half_cell_bits(
            half_crossings(bits, halves, 2 * bits.len() as int),
            spb,
            half_crossings(bits, halves, 2 * g).len() as int,
        ) == bits.subrange(g, bits.len() - 1),
    decreases bits.len() - g,
{
    let n = bits.len() as int;
    let zc = half_crossings(bits, halves, 2 * n);
    let i = half_crossings(bits, halves, 2 * g).len() as int;
    lemma_crossings_of_bit(bits, halves, g);
    assert(well_timed(halves, spb, g));
    assert(bits[g] <= 1);
    if g == n - 1 {
        assert(half_cell_bits(zc, spb, i) =~= seq![]);
        assert(bits.subrange(g, n - 1) =~= seq![]);
    } else {
        lemma_crossings_of_bit(bits, halves, g + 1);
        lemma_read_from_start(bits, halves, spb, g + 1);
        let rest = bits.subrange(g + 1, n - 1);
        assert(bits.subrange(g, n - 1) =~= seq![bits[g]] + rest);
        if bits[g] == 1 {
            assert(is_short(interval(zc, i), spb));
            assert(is_short(interval(zc, i + 1), spb));
        } else {
            assert(!is_short(interval(zc, i), spb));
        }
    }
}

/// From the middle of a one on, its crossings are read as the bits after it.
proof fn lemma_read_from_middle(bits: Seq<u8>, halves: Seq<int>, spb: u128, g: int)
    requires
        readable_bits(bits, halves, spb),
        0 <= g < bits.len() - 1,
        bits[g] == 1,
    ensures
        half_cell_bits(
            half_crossings(bits, halves, 2 * bits.len() as int),
            spb,
            half_crossings(bits, halves, 2 * (g + 1)).len() - 1,
        ) == bits.subrange(g + 1, bits.len() - 1),
    decreases bits.len() - g,
{
    let n = bits.len() as int;
    let zc = half_crossings(bits, halves, 2 * n);
    let i = half_crossings(bits, halves, 2 * (g + 1)).len() - 1;
    lemma_crossings_of_bit(bits, halves, g);
    lemma_crossings_of_bit(bits, halves, g + 1);
    assert(well_timed(halves, spb, g));
    assert(well_timed(halves, spb, g + 1));
    assert(bits[g + 1] <= 1);
    assert(g + 1 <= n - 2);
    assert(is_short(interval(zc, i), spb));
    if bits[g + 1] == 1 {
        lemma_read_from_middle(bits, halves, spb, g + 1);
        assert(is_short(interval(zc, i + 1), spb));
        assert(bits.subrange(g + 1, n - 1) =~= seq![bits[g + 1]] + bits.subrange(g + 2, n - 1));
    } else {
        lemma_crossings_of_bit(bits, halves, g + 2);
        assert(!is_short(interval(zc, i + 1), spb));
        lemma_read_from_start(bits, halves, spb, g + 1);
    }
}

/// Two short distances belong to every one, but for the first and the last bit.
proof fn lemma_short_distances(bits: Seq<u8>, halves: Seq<int>, spb: u128, g: int)
    requires
        readable_bits(bits, halves, spb),
        1 <= g < bits.len(),
    ensures
        short_intervals(
            half_crossings(bits, halves, 2 * bits.len() as int),
            spb,
            half_crossings(bits, halves, 2 * g).len() as int,
        ) + 1 >= 2 * ones(bits, g),
    decreases g,
{
    let n = bits.len() as int;
    let zc = half_crossings(bits, halves, 2 * n);
    let i = half_crossings(bits, halves, 2 * g).len() as int;
    lemma_crossings_of_bit(bits, halves, g - 1);
    lemma_crossings_of_bit(bits, halves, g);
    assert(well_timed(halves, spb, g - 1));
    assert(bits[g - 1] <= 1);
    if g == 1 {
        assert(ones(bits, 0) == 0);
        if bits[0] == 1 {
            assert(i == 1);
            assert(is_short(interval(zc, 0), spb) && is_noticeable(interval(zc, 0), spb));
        }
    } else {
        lemma_short_distances(bits, halves, spb, g - 1);
        if bits[g - 1] == 1 {
            assert(is_short(interval(zc, i - 1), spb) && is_noticeable(interval(zc, i - 1), spb));
            assert(is_short(interval(zc, i - 2), spb) && is_noticeable(interval(zc, i - 2), spb));
            assert(short_intervals(zc, spb, i) == short_intervals(zc, spb, i - 1) + 1);
            assert(short_intervals(zc, spb, i - 1) == short_intervals(zc, spb, i - 2) + 1);
        } else {
            assert(short_intervals(zc, spb, i) >= short_intervals(zc, spb, i - 1));
        }
    }
}

/// The crossings of a clean signal with enough ones are read as all its bits but
/// the first and the last. The first crossing lies within the first bit or ends it.
pub proof fn lemma_read_crossings(bits: Seq<u8>, halves: Seq<int>, spb: u128)
    requires
        readable_bits(bits, halves, spb),
        19 * ones(bits, bits.len() - 1) > bits.len() + 9,
        bits.len() >= 80,
    ensures
        ({
            let zc = half_crossings(bits, halves, 2 * bits.len() as int);
            &&& crossing_bits(zc, spb) == bits.subrange(1, bits.len() - 1)
            &&& zc.len() >= 8
            &&& 0 <= zc[0] <= halves[2]
        }),
{
    let n = bits.len() as int;
    let zc = half_crossings(bits, halves, 2 * n);
    lemma_crossings_of_bit(bits, halves, 0);
    lemma_crossings_of_bit(bits, halves, 1);
    lemma_crossings_of_bit(bits, halves, n - 1);
    lemma_crossing_count(bits, halves, n);
    lemma_crossing_count(bits, halves, n - 1);
    lemma_short_distances(bits, halves, spb, n - 1);
    lemma_halves_ascend(halves, n, 1, 2);
    assert(bits[0] <= 1);
    let i = half_crossings(bits, halves, 2 * (n - 1)).len() as int;
    assert(zc.len() == i + 2);
    assert(short_intervals(zc, spb, zc.len() - 1) >= short_intervals(zc, spb, i));
    assert(half_crossings(bits, halves, 0).len() == 0);
    if bits[0] == 1 {
        lemma_read_from_middle(bits, halves, spb, 0);
    } else {
        lemma_read_from_start(bits, halves, spb, 1);
    }
}

} // verus!
