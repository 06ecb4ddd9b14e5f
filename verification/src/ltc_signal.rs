//! From audio samples to bits: noise floor, zero crossings and the two ways of
//! reading bi-phase mark bits.
//!
//! Samples are fixed-point numbers with [`FULL_SCALE`] for 1. Positions and bit
//! lengths with a fraction are counted in units of `1 / 2^32` of a sample
//! ([`UNIT`]).

use vstd::prelude::*;

use crate::ltc_encoder::{half_bit_start, half_level, is_modulated, level_before};

verus! {

/// The sample value 1, full scale, with 48 fractional bits.
pub const FULL_SCALE: i64 = 0x1_0000_0000_0000;

/// One sample, as a position with 32 fractional bits.
pub const UNIT: u128 = 0x1_0000_0000;

/// The magnitude below which a noise floor is not reported: ten decimals below
/// full scale.
pub const MIN_NOISE_FLOOR: u64 = 28147;

/// The threshold is never below five thousandths of full scale.
pub const MIN_THRESHOLD: u64 = 1407374852096;

/// The distance of a sample from zero.
pub open spec fn magnitude(s: i64) -> nat {
    if s >= 0 {
        s as nat
    } else {
        (-s) as nat
    }
}

fn abs(s: i64) -> (r: u64)
    ensures
        r == magnitude(s),
{
    if s >= 0 {
        s as u64
    } else {
        (-(s + 1)) as u64 + 1
    }
}

// ── Noise floor ────────────────────────────────────────────────────────────

pub open spec fn ascending(s: Seq<u64>) -> bool {
    forall|i: int, j: int| 0 <= i <= j < s.len() ==> s[i] <= s[j]
}

/// `m` is the upper median of `values`: what stands in the middle once they are sorted.
pub open spec fn is_median(values: Seq<u64>, m: u64) -> bool {
    exists|sorted: Seq<u64>|
        {
            &&& #[trigger] ascending(sorted)
            &&& sorted.to_multiset() == values.to_multiset()
            &&& sorted.len() == values.len()
            &&& m == sorted[(sorted.len() / 2) as int]
        }
}

/// A list has one median.
pub proof fn law_one_median(values: Seq<u64>, a: u64, b: u64)
    requires
        is_median(values, a),
        is_median(values, b),
    ensures
        a == b,
{
    let leq = |x: u64, y: u64| x <= y;
    let s = choose|s: Seq<u64>|
        {
            &&& #[trigger] ascending(s)
            &&& s.to_multiset() == values.to_multiset()
            &&& s.len() == values.len()
            &&& a == s[(s.len() / 2) as int]
        };
    let t = choose|t: Seq<u64>|
        {
            &&& #[trigger] ascending(t)
            &&& t.to_multiset() == values.to_multiset()
            &&& t.len() == values.len()
            &&& b == t[(t.len() / 2) as int]
        };
    vstd::seq_lib::lemma_sorted_unique(s, t, leq);
}

/// The magnitudes of the first ten thousand samples.
pub open spec fn leading_magnitudes(samples: Seq<i64>) -> Seq<u64> {
    Seq::new(
        if samples.len() < 10_000 { samples.len() } else { 10_000 },
        |i: int| magnitude(samples[i]) as u64,
    )
}

fn insert_ascending(sorted: &mut Vec<u64>, x: u64)
    requires
        ascending(old(sorted)@),
    ensures
        ascending(final(sorted)@),
        final(sorted)@.len() == old(sorted)@.len() + 1,
        final(sorted)@.to_multiset() == old(sorted)@.to_multiset().insert(x),
{
    let mut i: usize = sorted.len();
    while i > 0 && sorted[i - 1] > x
        invariant
            i <= sorted@.len(),
            sorted@ == old(sorted)@,
            forall|k: int| i <= k < sorted@.len() ==> #[trigger] sorted@[k] > x,
        decreases i,
    {
        i -= 1;
    }
    sorted.insert(i, x);
    proof {
        broadcast use vstd::seq_lib::group_to_multiset_ensures;

        let before = old(sorted)@;
        let after = sorted@;
        assert(after.remove(i as int) =~= before);
        assert(after.contains(x)) by {
            assert(after[i as int] == x);
        }
        assert(after.to_multiset() =~= before.to_multiset().insert(x));
    }
}

/// Estimates the noise floor: the median magnitude of the first ten thousand
/// samples, but at least [`MIN_NOISE_FLOOR`].
pub fn estimate_noise_floor(samples: &[i64]) -> (r: u64)
    requires
        samples@.len() > 0,
    ensures
        exists|m: u64| #[trigger]
            is_median(leading_magnitudes(samples@), m) && r == if m > MIN_NOISE_FLOOR {
                m
            } else {
                MIN_NOISE_FLOOR
            },
{
    let n: usize = if samples.len() < 10_000 {
        samples.len()
    } else {
        10_000
    };
    let ghost mags = leading_magnitudes(samples@);
    let mut sorted: Vec<u64> = Vec::new();
    let mut i: usize = 0;
    assert(sorted@ =~= mags.take(0));
    while i < n
        invariant
            i <= n <= samples@.len(),
            n == mags.len(),
            mags == leading_magnitudes(samples@),
            ascending(sorted@),
            sorted@.len() == i,
            sorted@.to_multiset() == mags.take(i as int).to_multiset(),
        decreases n - i,
    {
        insert_ascending(&mut sorted, abs(samples[i]));
        proof {
            broadcast use vstd::seq_lib::group_to_multiset_ensures;

            assert(mags.take(i + 1) =~= mags.take(i as int).push(mags[i as int]));
        }
        i += 1;
    }
    assert(mags.take(n as int) =~= mags);
    let median: u64 = sorted[sorted.len() / 2];
    assert(is_median(mags, median)) by {
        assert(ascending(sorted@));
    }
    if median > MIN_NOISE_FLOOR {
        median
    } else {
        MIN_NOISE_FLOOR
    }
}

// ── Zero crossings ─────────────────────────────────────────────────────────

/// The side of zero a sample is on: 1, -1, or 0 where it is below the threshold.
pub open spec fn side(s: i64, threshold: u64) -> int {
    if magnitude(s) < threshold {
        0
    } else if s > 0 {
        1
    } else {
        -1
    }
}

/// The side of the last sample before `n` that reaches the threshold, 0 if none does.
pub open spec fn last_side(samples: Seq<i64>, threshold: u64, n: int) -> int
    decreases n,
{
    if n <= 0 {
        0
    } else if side(samples[n - 1], threshold) != 0 {
        side(samples[n - 1], threshold)
    } else {
        last_side(samples, threshold, n - 1)
    }
}

/// The signal changes sides at sample `i`.
pub open spec fn crosses(samples: Seq<i64>, threshold: u64, i: int) -> bool {
    let before = last_side(samples, threshold, i);
    let now = side(samples[i], threshold);
    before != 0 && now != 0 && before != now
}

/// The samples before `n` at which the signal changes sides, in order.
pub open spec fn crossings(samples: Seq<i64>, threshold: u64, n: int) -> Seq<usize>
    decreases n,
{
    if n <= 0 {
        seq![]
    } else if crosses(samples, threshold, n - 1) {
        crossings(samples, threshold, n - 1).push((n - 1) as usize)
    } else {
        crossings(samples, threshold, n - 1)
    }
}

/// Positions in strictly ascending order.
pub open spec fn strictly_ascending(zc: Seq<usize>) -> bool {
    forall|i: int, j: int| 0 <= i < j < zc.len() ==> zc[i] < zc[j]
}

/// Finds the samples at which the signal changes sides, ignoring everything
/// that stays below the threshold.
pub fn find_zero_crossings(samples: &[i64], threshold: u64) -> (r: Vec<usize>)
    ensures
        r@ == crossings(samples@, threshold, samples@.len() as int),
        strictly_ascending(r@),
        forall|k: int| 0 <= k < r@.len() ==> #[trigger] r@[k] < samples@.len(),
{
    let mut found: Vec<usize> = Vec::new();
    let mut before: i8 = 0;
    let mut i: usize = 0;
    while i < samples.len()
        invariant
            i <= samples@.len(),
            before == last_side(samples@, threshold, i as int),
            found@ == crossings(samples@, threshold, i as int),
            strictly_ascending(found@),
            forall|k: int| 0 <= k < found@.len() ==> #[trigger] found@[k] < i,
        decreases samples@.len() - i,
    {
        let s: i64 = samples[i];
        let now: i8 = if abs(s) < threshold {
            0
        } else if s > 0 {
            1
        } else {
            -1
        };
        if before != 0 && now != 0 && before != now {
            found.push(i);
        }
        if now != 0 {
            before = now;
        }
        i += 1;
    }
    found
}

/// Positions in ascending order; neighbours may be equal.
pub open spec fn in_order(zc: Seq<usize>) -> bool {
    forall|i: int, j: int| 0 <= i < j < zc.len() ==> zc[i] <= zc[j]
}

/// The first index whose position is at least `target`.
pub open spec fn is_lower_bound(zc: Seq<usize>, target: usize, i: int) -> bool {
    &&& 0 <= i <= zc.len()
    &&& forall|k: int| 0 <= k < i ==> #[trigger] zc[k] < target
    &&& forall|k: int| i <= k < zc.len() ==> #[trigger] zc[k] >= target
}

fn lower_bound(zc: &[usize], target: usize) -> (i: usize)
    requires
        in_order(zc@),
    ensures
        is_lower_bound(zc@, target, i as int),
{
    let mut lo: usize = 0;
    let mut hi: usize = zc.len();
    while lo < hi
        invariant
            0 <= lo <= hi <= zc@.len(),
            in_order(zc@),
            forall|k: int| 0 <= k < lo ==> #[trigger] zc@[k] < target,
            forall|k: int| hi <= k < zc@.len() ==> #[trigger] zc@[k] >= target,
        decreases hi - lo,
    {
        let mid: usize = lo + (hi - lo) / 2;
        if zc[mid] < target {
            lo = mid + 1;
        } else {
            hi = mid;
        }
    }
    lo
}

/// How many positions come before `target`.
pub open spec fn below(zc: Seq<usize>, target: usize) -> int {
    choose|i: int| is_lower_bound(zc, target, i)
}

proof fn lemma_below(zc: Seq<usize>, target: usize, i: int)
    requires
        is_lower_bound(zc, target, i),
    ensures
        below(zc, target) == i,
{
    let c = below(zc, target);
    assert(is_lower_bound(zc, target, c));
    if c < i {
        assert(zc[c] < target);
    } else if i < c {
        assert(zc[i] < target);
    }
}

/// The positions in `range_start..range_end`: all of them, in their order.
pub fn zc_in_range<'a>(zc: &'a [usize], range_start: usize, range_end: usize) -> (r: &'a [usize])
    requires
        in_order(zc@),
        range_start <= range_end || forall|k: int|
            0 <= k < zc@.len() ==> !(range_end <= #[trigger] zc@[k] < range_start),
    ensures
        is_lower_bound(zc@, range_start, below(zc@, range_start)),
        is_lower_bound(zc@, range_end, below(zc@, range_end)),
        r@ == zc@.subrange(below(zc@, range_start), below(zc@, range_end)),
        forall|k: int|
            0 <= k < r@.len() ==> range_start <= #[trigger] r@[k] < range_end,
        in_order(r@),
        strictly_ascending(zc@) ==> strictly_ascending(r@),
{
    let lo: usize = lower_bound(zc, range_start);
    let hi: usize = lower_bound(zc, range_end);
    proof {
        if hi < lo {
            assert(zc@[hi as int] < range_start);
            assert(zc@[hi as int] >= range_end);
        }
        lemma_below(zc@, range_start, lo as int);
        lemma_below(zc@, range_end, hi as int);
    }
    vstd::slice::slice_subrange(zc, lo, hi)
}

// ── Bits from the distances between crossings ──────────────────────────────

/// A distance shorter than three quarters of a bit.
pub open spec fn is_short(interval: int, spb: u128) -> bool {
    4 * interval * UNIT < 3 * spb
}

/// A distance of at least a fifth of a bit.
pub open spec fn is_noticeable(interval: int, spb: u128) -> bool {
    5 * interval * UNIT >= spb
}

/// The distance after crossing `i`.
pub open spec fn interval(zc: Seq<usize>, i: int) -> int {
    zc[i + 1] - zc[i]
}

/// How many of the first `n` distances are short without being noise.
pub open spec fn short_intervals(zc: Seq<usize>, spb: u128, n: int) -> nat
    decreases n,
{
    if n <= 0 {
        0
    } else {
        short_intervals(zc, spb, n - 1) + if is_short(interval(zc, n - 1), spb) && is_noticeable(
            interval(zc, n - 1),
            spb,
        ) {
            1nat
        } else {
            0nat
        }
    }
}

/// Bits read from crossing `i` on, where a one crosses in its middle: a long
/// distance is a zero, two short ones are a one, a short one alone is skipped.
pub open spec fn half_cell_bits(zc: Seq<usize>, spb: u128, i: int) -> Seq<u8>
    decreases zc.len() - i,
{
    if i + 1 >= zc.len() {
        seq![]
    } else if !is_short(interval(zc, i), spb) {
        seq![0u8] + half_cell_bits(zc, spb, i + 1)
    } else if i + 2 >= zc.len() {
        seq![]
    } else if is_short(interval(zc, i + 1), spb) {
        seq![1u8] + half_cell_bits(zc, spb, i + 2)
    } else {
        half_cell_bits(zc, spb, i + 1)
    }
}

/// `n` zeros and a one.
pub open spec fn zeros_and_one(n: nat) -> Seq<u8> {
    Seq::new(n, |k: int| 0u8).push(1u8)
}

/// The whole bits before a position.
pub open spec fn whole_bits(position: int, spb: u128) -> int {
    (position * UNIT) / (spb as int)
}

/// A distance in bits, rounded to the nearest, halves up.
pub open spec fn nearest_bits(interval: int, spb: u128) -> int {
    (2 * interval * UNIT + spb) / (2 * spb as int)
}

/// The zeros that a distance of so many bits stands for.
pub open spec fn zeros_between(interval: int, spb: u128) -> nat {
    let bits = nearest_bits(interval, spb);
    if bits <= 0 {
        0
    } else if bits > u32::MAX {
        (u32::MAX - 1) as nat
    } else {
        (bits - 1) as nat
    }
}

/// The leading zeros before the first crossing.
pub open spec fn leading_zeros(first: int, spb: u128) -> nat {
    let bits = whole_bits(first, spb);
    if bits > usize::MAX {
        usize::MAX as nat
    } else {
        bits as nat
    }
}

/// Bits up to crossing `n - 1`, where only ones cross: each crossing is a one,
/// the distance tells the zeros in between.
pub open spec fn one_cell_bits(zc: Seq<usize>, spb: u128, n: int) -> Seq<u8>
    decreases n,
{
    if n <= 1 {
        zeros_and_one(leading_zeros(zc[0] as int, spb))
    } else {
        one_cell_bits(zc, spb, n - 1) + zeros_and_one(
            zeros_between(interval(zc, n - 2), spb),
        )
    }
}

/// The bits that the crossings stand for: read by half cells where more than a
/// tenth of the distances are short.
pub open spec fn crossing_bits(zc: Seq<usize>, spb: u128) -> Seq<u8> {
    if zc.len() < 2 {
        seq![]
    } else if 10 * short_intervals(zc, spb, zc.len() - 1) > zc.len() - 1 {
        half_cell_bits(zc, spb, 0)
    } else {
        one_cell_bits(zc, spb, zc.len() as int)
    }
}

pub open spec fn binary(bits: Seq<u8>) -> bool {
    forall|i: int| 0 <= i < bits.len() ==> #[trigger] bits[i] <= 1
}

/// Bit lengths that leave room for the products taken of them.
pub open spec fn sound_spb(spb: u128) -> bool {
    0 < spb <= 0x1_0000_0000_0000_0000_0000_0000
}

fn short(interval: usize, spb: u128) -> (r: bool)
    requires
        sound_spb(spb),
    ensures
        r == is_short(interval as int, spb),
{
    4 * (interval as u128) * UNIT < 3 * spb
}

fn decode_bits_real_zc(zc: &[usize], spb: u128) -> (r: Vec<u8>)
    requires
        strictly_ascending(zc@),
        sound_spb(spb),
    ensures
        r@ == half_cell_bits(zc@, spb, 0),
        binary(r@),
{
    let mut bits: Vec<u8> = Vec::new();
    let mut i: usize = 0;
    let n: usize = zc.len();
    let mut done: bool = n < 2;
    while !done
        invariant
            n == zc@.len(),
            strictly_ascending(zc@),
            sound_spb(spb),
            binary(bits@),
            !done ==> i + 1 < n,
            !done ==> bits@ + half_cell_bits(zc@, spb, i as int) == half_cell_bits(zc@, spb, 0),
            done ==> bits@ == half_cell_bits(zc@, spb, 0),
        decreases (if done { 0 } else { n - i }),
    {
        let ghost before = bits@;
        if !short(zc[i + 1] - zc[i], spb) {
            bits.push(0);
            i += 1;
            assert(before + (seq![0u8] + half_cell_bits(zc@, spb, i as int)) =~= bits@
                + half_cell_bits(zc@, spb, i as int));
        } else if n - i <= 2 {
            assert(before + seq![] =~= bits@);
            done = true;
        } else if short(zc[i + 2] - zc[i + 1], spb) {
            bits.push(1);
            i += 2;
            assert(before + (seq![1u8] + half_cell_bits(zc@, spb, i as int)) =~= bits@
                + half_cell_bits(zc@, spb, i as int));
        } else {
            i += 1;
        }
        if !done && n - i < 2 {
            assert(bits@ + half_cell_bits(zc@, spb, i as int) =~= bits@);
            done = true;
        }
    }
    bits
}

fn push_zeros_and_one(bits: &mut Vec<u8>, n: usize)
    requires
        binary(old(bits)@),
    ensures
        final(bits)@ == old(bits)@ + zeros_and_one(n as nat),
        binary(final(bits)@),
{
    let mut k: usize = 0;
    while k < n
        invariant
            k <= n,
            bits@ == old(bits)@ + Seq::new(k as nat, |k: int| 0u8),
            binary(old(bits)@),
        decreases n - k,
    {
        bits.push(0);
        k += 1;
        assert(bits@ =~= old(bits)@ + Seq::new(k as nat, |k: int| 0u8));
    }
    bits.push(1);
    assert(bits@ =~= old(bits)@ + zeros_and_one(n as nat));
}

fn decode_bits_synthetic_zc(zc: &[usize], spb: u128) -> (r: Vec<u8>)
    requires
        strictly_ascending(zc@),
        zc@.len() > 0,
        sound_spb(spb),
    ensures
        r@ == one_cell_bits(zc@, spb, zc@.len() as int),
        binary(r@),
{
    let mut bits: Vec<u8> = Vec::new();
    let leading: u128 = zc[0] as u128 * UNIT / spb;
    proof {
        assert(leading >= 0);
    }
    let leading_usize: usize = if leading > usize::MAX as u128 {
        usize::MAX
    } else {
        leading as usize
    };
    push_zeros_and_one(&mut bits, leading_usize);
    assert(bits@ =~= one_cell_bits(zc@, spb, 1));
    let mut i: usize = 1;
    while i < zc.len()
        invariant
            1 <= i <= zc@.len(),
            strictly_ascending(zc@),
            sound_spb(spb),
            binary(bits@),
            bits@ == one_cell_bits(zc@, spb, i as int),
        decreases zc@.len() - i,
    {
        let distance: usize = zc[i] - zc[i - 1];
        let periods: u128 = (2 * (distance as u128) * UNIT + spb) / (2 * spb);
        let zeros: u32 = if periods == 0 {
            0
        } else if periods > u32::MAX as u128 {
            u32::MAX - 1
        } else {
            (periods - 1) as u32
        };
        push_zeros_and_one(&mut bits, zeros as usize);
        i += 1;
    }
    bits
}

/// Reads bits from the distances between zero crossings.
///
/// Signals in which ones cross in their middle have many short distances and are
/// read by half cells; signals in which only ones cross are read by whole cells.
pub fn decode_bits_from_zero_crossings(zc: &[usize], spb: u128) -> (r: Vec<u8>)
    requires
        strictly_ascending(zc@),
        sound_spb(spb),
    ensures
        r@ == crossing_bits(zc@, spb),
        binary(r@),
{
    if zc.len() < 2 {
        return Vec::new();
    }
    let total: usize = zc.len() - 1;
    let mut short_count: usize = 0;
    let mut i: usize = 0;
    while i < total
        invariant
            i <= total,
            total == zc@.len() - 1,
            strictly_ascending(zc@),
            sound_spb(spb),
            short_count <= i,
            short_count == short_intervals(zc@, spb, i as int),
        decreases total - i,
    {
        let distance: usize = zc[i + 1] - zc[i];
        if short(distance, spb) && 5 * (distance as u128) * UNIT >= spb {
            short_count += 1;
        }
        i += 1;
    }
    if 10 * (short_count as u128) > total as u128 {
        decode_bits_real_zc(zc, spb)
    } else {
        decode_bits_synthetic_zc(zc, spb)
    }
}

// ── Bits from the samples in each bit ──────────────────────────────────────

pub open spec fn min2(a: i64, b: i64) -> i64 {
    if a < b {
        a
    } else {
        b
    }
}

pub open spec fn max2(a: i64, b: i64) -> i64 {
    if a < b {
        b
    } else {
        a
    }
}

/// The median of a sample and its neighbours; of two values the larger one.
pub open spec fn smoothed(samples: Seq<i64>, center: int) -> i64 {
    let has_left = center > 0;
    let has_here = center < samples.len();
    let has_right = center + 1 < samples.len();
    if has_left && has_right {
        let (a, b, c) = (samples[center - 1], samples[center], samples[center + 1]);
        max2(min2(a, b), min2(max2(a, b), c))
    } else if has_left && has_here {
        max2(samples[center - 1], samples[center])
    } else if has_left {
        samples[center - 1]
    } else if has_right {
        max2(samples[center], samples[center + 1])
    } else {
        samples[center]
    }
}

fn median_sample(samples: &[i64], center: usize) -> (r: i64)
    requires
        samples@.len() > 0,
        center <= samples@.len(),
    ensures
        r == smoothed(samples@, center as int),
{
    let n: usize = samples.len();
    if center > 0 && n - center > 1 {
        let a: i64 = samples[center - 1];
        let b: i64 = samples[center];
        let c: i64 = samples[center + 1];
        let lo: i64 = if a < b {
            a
        } else {
            b
        };
        let hi: i64 = if a < b {
            b
        } else {
            a
        };
        let mid: i64 = if hi < c {
            hi
        } else {
            c
        };
        if lo < mid {
            mid
        } else {
            lo
        }
    } else if center > 0 && center < n {
        if samples[center - 1] < samples[center] {
            samples[center]
        } else {
            samples[center - 1]
        }
    } else if center > 0 {
        samples[center - 1]
    } else if n > 1 {
        if samples[0] < samples[1] {
            samples[1]
        } else {
            samples[0]
        }
    } else {
        samples[0]
    }
}

/// The sample at one quarter (`quarters == 1`) or three quarters (`quarters == 3`)
/// of the bit that begins at `pos`.
pub open spec fn quarter_point(pos: int, spb: u128, quarters: int) -> int {
    (4 * pos + quarters * spb) / 0x4_0000_0000
}

/// The whole bit that begins at `pos` lies within `len` samples.
pub open spec fn bit_fits(pos: int, spb: u128, len: int) -> bool {
    &&& (pos + spb) / 0x1_0000_0000 <= len
    &&& quarter_point(pos, spb, 3) < len
}

/// The bit that begins at `pos`: a one where the signal is on different sides of
/// zero in its two halves.
pub open spec fn bit_at(samples: Seq<i64>, pos: int, spb: u128, threshold: u64) -> u8 {
    let first = smoothed(samples, quarter_point(pos, spb, 1));
    let second = smoothed(samples, quarter_point(pos, spb, 3));
    if magnitude(first) < threshold || magnitude(second) < threshold {
        0
    } else if (first >= 0) != (second >= 0) {
        1
    } else {
        0
    }
}

/// The bits from `pos` on, one every `spb`.
pub open spec fn bits_from(samples: Seq<i64>, spb: u128, pos: int, threshold: u64) -> Seq<u8>
    decreases samples.len() * UNIT + UNIT - pos,
{
    if spb > 0 && bit_fits(pos, spb, samples.len() as int) {
        seq![bit_at(samples, pos, spb, threshold)] + bits_from(samples, spb, pos + spb, threshold)
    } else {
        seq![]
    }
}

fn read_bit(samples: &[i64], pos: u128, spb: u128, threshold: u64) -> (r: u8)
    requires
        sound_spb(spb),
        bit_fits(pos as int, spb, samples@.len() as int),
    ensures
        r == bit_at(samples@, pos as int, spb, threshold),
        r <= 1,
{
    let n: usize = samples.len();
    assert(quarter_point(pos as int, spb, 1) <= quarter_point(pos as int, spb, 3));
    assert(4 * pos + 3 * spb < 0x4_0000_0000 * (n + 1));
    let p25: usize = ((4 * pos + spb) / 0x4_0000_0000) as usize;
    let p75: usize = ((4 * pos + 3 * spb) / 0x4_0000_0000) as usize;
    let s25: i64 = median_sample(samples, p25);
    let s75: i64 = median_sample(samples, p75);
    if abs(s25) < threshold || abs(s75) < threshold {
        0
    } else if (s25 >= 0) != (s75 >= 0) {
        1
    } else {
        0
    }
}

fn fits(len: usize, pos: u128, spb: u128) -> (r: bool)
    requires
        sound_spb(spb),
        pos <= (usize::MAX + 1) * UNIT,
    ensures
        r == bit_fits(pos as int, spb, len as int),
{
    (pos + spb) / UNIT <= len as u128 && (4 * pos + 3 * spb) / 0x4_0000_0000 < len as u128
}

/// Reads one bit every `samples_per_bit` from sample `phase` on.
pub fn extract_bits(samples: &[i64], samples_per_bit: u128, phase: usize, threshold: u64) -> (r: Vec<u8>)
    requires
        sound_spb(samples_per_bit),
    ensures
        r@ == bits_from(samples@, samples_per_bit, phase * UNIT, threshold),
        binary(r@),
{
    let mut bits: Vec<u8> = Vec::new();
    let n: usize = samples.len();
    let mut pos: u128 = phase as u128 * UNIT;
    while fits(n, pos, samples_per_bit)
        invariant
            n == samples@.len(),
            sound_spb(samples_per_bit),
            pos <= (usize::MAX + 1) * UNIT,
            binary(bits@),
            bits@ + bits_from(samples@, samples_per_bit, pos as int, threshold) == bits_from(
                samples@,
                samples_per_bit,
                phase * UNIT,
                threshold,
            ),
        decreases samples@.len() * UNIT + UNIT - pos,
    {
        let ghost before = bits@;
        let bit: u8 = read_bit(samples, pos, samples_per_bit, threshold);
        bits.push(bit);
        assert(before + (seq![bit] + bits_from(
            samples@,
            samples_per_bit,
            pos + samples_per_bit,
            threshold,
        )) =~= bits@ + bits_from(samples@, samples_per_bit, pos + samples_per_bit, threshold));
        pos = pos + samples_per_bit;
    }
    assert(bits@ + Seq::<u8>::empty() =~= bits@);
    bits
}

/// Where the bit after the one at sample `at` begins: at the first crossing
/// within a quarter of a bit around its expected start, else at the expected
/// start itself.
pub open spec fn snapped(zc: Seq<usize>, at: int, spb: u128) -> int {
    let expected: int = at + spb as int / 0x1_0000_0000;
    let radius: int = spb as int / 0x4_0000_0000;
    let lo = if expected > radius { expected - radius } else { 0 };
    let hi = if expected + radius > usize::MAX { usize::MAX as int } else { expected + radius };
    if exists|k: int| 0 <= k < zc.len() && lo <= #[trigger] zc[k] <= hi {
        first_at_least(zc, lo)
    } else {
        expected
    }
}

/// The first of the positions that is at least `lo`.
pub open spec fn first_at_least(zc: Seq<usize>, lo: int) -> int
    decreases zc.len(),
{
    if zc.len() == 0 {
        lo
    } else if zc[0] >= lo {
        zc[0] as int
    } else {
        first_at_least(zc.drop_first(), lo)
    }
}

/// The bits from sample `at` on, each beginning where the one before it says.
pub open spec fn snapped_bits_from(
    samples: Seq<i64>,
    spb: u128,
    at: int,
    threshold: u64,
    zc: Seq<usize>,
) -> Seq<u8>
    decreases (if at <= samples.len() { samples.len() + 1 - at } else { 0 }),
{
    if spb >= UNIT && at >= 0 && bit_fits(at * UNIT, spb, samples.len() as int) && snapped(zc, at, spb)
        > at {
        seq![bit_at(samples, at * UNIT, spb, threshold)] + snapped_bits_from(
            samples,
            spb,
            snapped(zc, at, spb),
            threshold,
            zc,
        )
    } else {
        seq![]
    }
}

proof fn lemma_first_at_least(zc: Seq<usize>, lo: usize, i: int)
    requires
        is_lower_bound(zc, lo, i),
        i < zc.len(),
    ensures
        first_at_least(zc, lo as int) == zc[i],
    decreases i,
{
    if i > 0 {
        assert(zc[0] < lo);
        let rest = zc.drop_first();
        assert(is_lower_bound(rest, lo, i - 1)) by {
            assert forall|k: int| 0 <= k < i - 1 implies #[trigger] rest[k] < lo by {
                assert(zc[k + 1] < lo);
            }
            assert forall|k: int| i - 1 <= k < rest.len() implies #[trigger] rest[k] >= lo by {
                assert(zc[k + 1] >= lo);
            }
        }
        lemma_first_at_least(rest, lo, i - 1);
    }
}

fn snap(zc: &[usize], at: usize, spb: u128) -> (r: usize)
    requires
        strictly_ascending(zc@),
        UNIT <= spb,
        at + spb / UNIT <= usize::MAX,
    ensures
        r == snapped(zc@, at as int, spb),
        r > at,
{
    let step: usize = (spb / UNIT) as usize;
    let radius: usize = (spb / 0x4_0000_0000) as usize;
    let expected: usize = at + step;
    let lo: usize = if expected > radius {
        expected - radius
    } else {
        0
    };
    let hi: usize = if radius > usize::MAX - expected {
        usize::MAX
    } else {
        expected + radius
    };
    assert(4 * radius <= step);
    let i: usize = lower_bound(zc, lo);
    if i < zc.len() && zc[i] <= hi {
        proof {
            lemma_first_at_least(zc@, lo, i as int);
        }
        zc[i]
    } else {
        assert forall|k: int| 0 <= k < zc@.len() implies !(lo <= #[trigger] zc@[k] <= hi) by {
            if i <= k {
                assert(zc@[i as int] <= zc@[k]);
            }
        }
        expected
    }
}

/// Reads bits from sample `phase` on, letting every zero crossing near the end
/// of a bit correct where the next one begins.
pub fn extract_bits_adaptive(
    samples: &[i64],
    samples_per_bit: u128,
    phase: usize,
    threshold: u64,
    zero_crossings: &[usize],
) -> (r: Vec<u8>)
    requires
        sound_spb(samples_per_bit),
        UNIT <= samples_per_bit,
        strictly_ascending(zero_crossings@),
    ensures
        r@ == snapped_bits_from(
            samples@,
            samples_per_bit,
            phase as int,
            threshold,
            zero_crossings@,
        ),
        binary(r@),
{
    let mut bits: Vec<u8> = Vec::new();
    let n: usize = samples.len();
    let mut at: usize = phase;
    while fits(n, at as u128 * UNIT, samples_per_bit)
        invariant
            n == samples@.len(),
            sound_spb(samples_per_bit),
            UNIT <= samples_per_bit,
            strictly_ascending(zero_crossings@),
            binary(bits@),
            bits@ + snapped_bits_from(
                samples@,
                samples_per_bit,
                at as int,
                threshold,
                zero_crossings@,
            ) == snapped_bits_from(
                samples@,
                samples_per_bit,
                phase as int,
                threshold,
                zero_crossings@,
            ),
        decreases (if at <= samples@.len() { samples@.len() + 1 - at } else { 0 }),
    {
        let ghost before = bits@;
        let bit: u8 = read_bit(samples, at as u128 * UNIT, samples_per_bit, threshold);
        bits.push(bit);
        let next: usize = snap(zero_crossings, at, samples_per_bit);
        assert(before + (seq![bit] + snapped_bits_from(
            samples@,
            samples_per_bit,
            next as int,
            threshold,
            zero_crossings@,
        )) =~= bits@ + snapped_bits_from(
            samples@,
            samples_per_bit,
            next as int,
            threshold,
            zero_crossings@,
        ));
        at = next;
    }
    assert(bits@ + Seq::<u8>::empty() =~= bits@);
    bits
}

// ── Laws ───────────────────────────────────────────────────────────────────

proof fn lemma_level_sign(bits: Seq<u8>, start: i8, b: nat)
    requires
        start == 1 || start == -1,
    ensures
        level_before(bits, start, b) == 1 || level_before(bits, start, b) == -1,
    decreases b,
{
    if b > 0 {
        lemma_level_sign(bits, start, (b - 1) as nat);
    }
}

proof fn lemma_modulated_bit(
    samples: Seq<i64>,
    levels: Seq<i8>,
    bits: Seq<u8>,
    start: i8,
    amplitude: i64,
    threshold: u64,
    k: int,
    b: int,
)
    requires
        k >= 6,
        0 <= b < 80,
        bits.len() == 80,
        bits[b] <= 1,
        start == 1 || start == -1,
        0 < amplitude < i64::MAX,
        threshold <= amplitude,
        levels.len() == 80 * k,
        is_modulated(levels, bits, start),
        samples.len() == levels.len(),
        forall|s: int| 0 <= s < samples.len() ==> #[trigger] samples[s] == amplitude * levels[s],
        k * UNIT <= u128::MAX,
    ensures
        bit_fits(b * k * UNIT, (k * UNIT) as u128, samples.len() as int),
        bit_at(samples, b * k * UNIT, (k * UNIT) as u128, threshold) == bits[b],
{
    let spb = (k * UNIT) as u128;
    let pos = b * k * UNIT;
    let bk = b * k;
    assert(bk + k <= 80 * k) by (nonlinear_arith)
        requires
            b <= 79,
            bk == b * k,
            k >= 6,
    ;
    assert(bk >= 0) by (nonlinear_arith)
        requires
            b >= 0,
            bk == b * k,
            k >= 6,
    ;
    let p25 = quarter_point(pos, spb, 1);
    let p75 = quarter_point(pos, spb, 3);
    assert(p25 == bk + k / 4);
    assert(p75 == bk + (3 * k) / 4);
    let total = levels.len();
    let h0 = half_bit_start(total, (2 * b) as nat);
    let h1 = half_bit_start(total, (2 * b + 1) as nat);
    let h2 = half_bit_start(total, (2 * b + 2) as nat);
    assert(h0 == bk) by {
        assert((2 * b) * (80 * k) == 160 * bk) by (nonlinear_arith)
            requires
                bk == b * k,
        ;
    }
    assert(h2 == bk + k) by {
        assert((2 * b + 2) * (80 * k) == 160 * (bk + k)) by (nonlinear_arith)
            requires
                bk == b * k,
        ;
    }
    assert(h1 == bk + (k + 1) / 2) by {
        assert((2 * b + 1) * (80 * k) == 160 * bk + 80 * k) by (nonlinear_arith)
            requires
                bk == b * k,
        ;
    }
    let first = half_level(bits, start, (2 * b) as nat);
    let second = half_level(bits, start, (2 * b + 1) as nat);
    lemma_level_sign(bits, start, b as nat);
    assert((2 * b) as nat / 2 == b && (2 * b + 1) as nat / 2 == b);
    assert(bits[b] == 1 <==> first != second);
    assert(levels[p25 - 1] == first && levels[p25] == first && levels[p25 + 1] == first);
    assert(levels[p75 - 1] == second && levels[p75] == second && levels[p75 + 1] == second);
    assert(smoothed(samples, p25) == amplitude * first) by {
        assert(samples[p25 - 1] == amplitude * first);
        assert(samples[p25] == amplitude * first);
        assert(samples[p25 + 1] == amplitude * first);
    }
    assert(smoothed(samples, p75) == amplitude * second) by {
        assert(samples[p75 - 1] == amplitude * second);
        assert(samples[p75] == amplitude * second);
        assert(samples[p75 + 1] == amplitude * second);
    }
    assert(amplitude * 1 == amplitude && amplitude * (-1) == -amplitude) by (nonlinear_arith);
}

/// Reading a modulated word gives its bits back: at six or more whole samples
/// per bit, on any amplitude that reaches the threshold and from either starting
/// level.
pub proof fn law_modulation_round_trip(
    samples: Seq<i64>,
    levels: Seq<i8>,
    bits: Seq<u8>,
    start: i8,
    amplitude: i64,
    threshold: u64,
    k: int,
    b: int,
)
    requires
        6 <= k,
        k * UNIT <= u128::MAX,
        0 <= b <= 80,
        bits.len() == 80,
        binary(bits),
        start == 1 || start == -1,
        0 < amplitude < i64::MAX,
        threshold <= amplitude,
        levels.len() == 80 * k,
        is_modulated(levels, bits, start),
        samples.len() == levels.len(),
        forall|s: int| 0 <= s < samples.len() ==> #[trigger] samples[s] == amplitude * levels[s],
    ensures
        bits_from(samples, (k * UNIT) as u128, b * k * UNIT, threshold) == bits.skip(b),
    decreases 80 - b,
{
    let spb = (k * UNIT) as u128;
    if b < 80 {
        lemma_modulated_bit(samples, levels, bits, start, amplitude, threshold, k, b);
        law_modulation_round_trip(samples, levels, bits, start, amplitude, threshold, k, b + 1);
        assert((b + 1) * k * UNIT == b * k * UNIT + spb) by (nonlinear_arith)
            requires
                spb == k * UNIT,
        ;
        assert(seq![bits[b]] + bits.skip(b + 1) =~= bits.skip(b));
    } else {
        assert(b * k * UNIT + spb == (80 * k + k) * UNIT) by (nonlinear_arith)
            requires
                spb == k * UNIT,
                b == 80,
        ;
        assert(bits.skip(b) =~= Seq::<u8>::empty());
    }
}

} // verus!
