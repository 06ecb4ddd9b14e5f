//! What decoding a signal promises: where words are found, how a reading is chosen, when
//! frames are told to start, and what is reported.

use vstd::prelude::*;

use crate::ltc_decoder::{
    adaptive_candidates, all_sampled, best_of, best_score, bit_nanos, candidate_bits,
    chosen_candidate, coherent_report, coherent_run, evaluate, full_report, half_bit_before,
    is_coherent_start, nominal_spb, phase_count, run_length, sampled_candidates, score,
    search_windows, spb_variants, window_crossings, window_limit, window_step, Candidate, Method,
    Recording, Report, WindowBest,
};
use crate::ltc_encoder::sync_bit;
use crate::ltc_frames::{
    frame_search, frame_starts_from, is_best_alignment, mismatches, sync_at, sync_positions,
    timecode_at, votes,
};
use crate::ltc_signal::{
    below, bit_at, bit_fits, bits_from, crossings, first_at_least, half_cell_bits, in_order,
    is_lower_bound, last_side, one_cell_bits, side, smoothed, snapped, strictly_ascending,
    zeros_and_one, zeros_between, UNIT,
};
use crate::timecode::FrameRate;

verus! {

// ── The signal ─────────────────────────────────────────────────────────────

/// A sample is loud: at least as far from zero as the threshold.
pub open spec fn is_loud(s: i64, threshold: u64) -> bool {
    s >= threshold || -s >= threshold
}

/// The signal changes sides at `i`: the sample there is loud, and so is an earlier one
/// on the other side, with nothing loud between them.
pub open spec fn changes_sides(samples: Seq<i64>, threshold: u64, i: int) -> bool {
    exists|j: int|
        {
            &&& 0 <= j < i < samples.len()
            &&& is_loud(#[trigger] samples[j], threshold)
            &&& is_loud(samples[i], threshold)
            &&& (samples[j] > 0) != (samples[i] > 0)
            &&& forall|k: int| j < k < i ==> !is_loud(#[trigger] samples[k], threshold)
        }
}

proof fn lemma_last_side(samples: Seq<i64>, threshold: u64, n: int) -> (j: int)
    requires
        0 <= n <= samples.len(),
        threshold > 0,
    ensures
        last_side(samples, threshold, n) == 0 ==> forall|k: int|
            0 <= k < n ==> !is_loud(#[trigger] samples[k], threshold),
        last_side(samples, threshold, n) != 0 ==> {
            &&& 0 <= j < n
            &&& is_loud(samples[j], threshold)
            &&& last_side(samples, threshold, n) == side(samples[j], threshold)
            &&& forall|k: int| j < k < n ==> !is_loud(#[trigger] samples[k], threshold)
        },
    decreases n,
{
    if n <= 0 {
        0
    } else if side(samples[n - 1], threshold) != 0 {
        n - 1
    } else {
        let j = lemma_last_side(samples, threshold, n - 1);
        assert(!is_loud(samples[n - 1], threshold));
        j
    }
}

/// The crossings of a signal are the places where it changes sides, in their order.
pub proof fn law_crossings(samples: Seq<i64>, threshold: u64, n: int)
    requires
        0 <= n <= samples.len() <= usize::MAX,
        threshold > 0,
    ensures
        strictly_ascending(crossings(samples, threshold, n)),
        forall|i: int|
            0 <= i < n ==> (crossings(samples, threshold, n).contains(i as usize)
                <==> #[trigger] changes_sides(samples, threshold, i)),
        forall|k: int|
            0 <= k < crossings(samples, threshold, n).len() ==> #[trigger] crossings(
                samples,
                threshold,
                n,
            )[k] < n,
    decreases n,
{
    if n > 0 {
        law_crossings(samples, threshold, n - 1);
        let before = crossings(samples, threshold, n - 1);
        let now = crossings(samples, threshold, n);
        let j = lemma_last_side(samples, threshold, n - 1);
        assert(crate::ltc_signal::crosses(samples, threshold, n - 1) <==> changes_sides(
            samples,
            threshold,
            n - 1,
        )) by {
            if crate::ltc_signal::crosses(samples, threshold, n - 1) {
                assert(is_loud(samples[j], threshold));
            }
            if changes_sides(samples, threshold, n - 1) {
                let i = choose|i: int|
                    {
                        &&& 0 <= i < n - 1 < samples.len()
                        &&& is_loud(#[trigger] samples[i], threshold)
                        &&& is_loud(samples[n - 1], threshold)
                        &&& (samples[i] > 0) != (samples[n - 1] > 0)
                        &&& forall|k: int|
                            i < k < n - 1 ==> !is_loud(#[trigger] samples[k], threshold)
                    };
                assert(is_loud(samples[i], threshold));
                assert(is_loud(samples[j], threshold));
                assert(i == j);
            }
        }
        assert forall|i: int| 0 <= i < n implies (now.contains(i as usize)
            <==> #[trigger] changes_sides(samples, threshold, i)) by {
            if i < n - 1 {
                assert(changes_sides(samples, threshold, i) <==> before.contains(i as usize));
                if before.contains(i as usize) {
                    let k = choose|k: int| 0 <= k < before.len() && before[k] == i as usize;
                    assert(now[k] == i as usize);
                }
                if now.contains(i as usize) {
                    let k = choose|k: int| 0 <= k < now.len() && now[k] == i as usize;
                    assert(before[k] == i as usize);
                }
            } else {
                if crate::ltc_signal::crosses(samples, threshold, n - 1) {
                    assert(now[before.len() as int] == i as usize);
                } else if now.contains(i as usize) {
                    let k = choose|k: int| 0 <= k < now.len() && now[k] == i as usize;
                    assert(before[k] < n - 1);
                }
            }
        }
    }
}

/// Inside a recording a sample is smoothed to the middle one of itself and its
/// neighbours.
pub proof fn law_smoothing_takes_the_middle(samples: Seq<i64>, center: int)
    requires
        0 < center < samples.len() - 1,
    ensures
        ({
            let (a, b, c) = (samples[center - 1], samples[center], samples[center + 1]);
            let m = smoothed(samples, center);
            ||| m == a && (b <= a <= c || c <= a <= b)
            ||| m == b && (a <= b <= c || c <= b <= a)
            ||| m == c && (a <= c <= b || b <= c <= a)
        }),
{
}

/// Bits are read one after the other, each where the one before it ends, until one does
/// not fit; a bit is one where the signal is loud in both its halves and changes sides
/// between them, and zero otherwise.
pub proof fn law_bits_follow_one_another(samples: Seq<i64>, spb: u128, pos: int, threshold: u64, k: int)
    requires
        spb > 0,
        0 <= k < bits_from(samples, spb, pos, threshold).len(),
    ensures
        ({
            let at = pos + k * spb;
            let first = smoothed(samples, (4 * at + spb) / 0x4_0000_0000);
            let second = smoothed(samples, (4 * at + 3 * spb) / 0x4_0000_0000);
            let bits = bits_from(samples, spb, pos, threshold);
            &&& bit_fits(at, spb, samples.len() as int)
            &&& bits[k] == 1 <==> is_loud(first, threshold) && is_loud(second, threshold) && (
            first >= 0) != (second >= 0)
            &&& bits[k] == 0 || bits[k] == 1
            &&& k + 1 == bits.len() ==> !bit_fits(at + spb, spb, samples.len() as int)
        }),
    decreases k,
{
    let rest = bits_from(samples, spb, pos + spb, threshold);
    let bits = bits_from(samples, spb, pos, threshold);
    assert(bits == seq![bit_at(samples, pos, spb, threshold)] + rest);
    if k > 0 {
        law_bits_follow_one_another(samples, spb, pos + spb, threshold, k - 1);
        assert(bits[k] == rest[k - 1]);
        assert(pos + spb + (k - 1) * spb == pos + k * spb) by (nonlinear_arith);
    } else {
        assert(0 * spb == 0);
        if bits.len() == 1 {
            assert(rest.len() == 0);
            if bit_fits(pos + spb, spb, samples.len() as int) {
                assert(rest.len() > 0);
            }
        }
    }
}

proof fn lemma_first_at_least(zc: Seq<usize>, lo: int, k: int)
    requires
        0 <= k < zc.len(),
        zc[k] >= lo,
    ensures
        exists|i: int|
            0 <= i <= k && #[trigger] zc[i] == first_at_least(zc, lo) && zc[i] >= lo && (forall|j: int|
                0 <= j < i ==> #[trigger] zc[j] < lo),
    decreases zc.len(),
{
    if zc[0] >= lo {
        assert(zc[0] == first_at_least(zc, lo));
    } else {
        let rest = zc.drop_first();
        assert(rest[k - 1] == zc[k]);
        lemma_first_at_least(rest, lo, k - 1);
        let i = choose|i: int|
            0 <= i <= k - 1 && #[trigger] rest[i] == first_at_least(rest, lo) && rest[i] >= lo && (
            forall|j: int| 0 <= j < i ==> #[trigger] rest[j] < lo);
        assert(zc[i + 1] == rest[i]);
        assert forall|j: int| 0 <= j < i + 1 implies #[trigger] zc[j] < lo by {
            if j > 0 {
                assert(rest[j - 1] == zc[j]);
            }
        }
    }
}

/// The start of the next bit is put where the signal crosses, where it does so within a
/// quarter of a bit of the place where it should: at the first such crossing. Else it is
/// that place.
pub proof fn law_snapping(zc: Seq<usize>, at: int, spb: u128)
    requires
        in_order(zc),
        at >= 0,
    ensures
        ({
            let expected = at + spb as int / 0x1_0000_0000;
            let radius = spb as int / 0x4_0000_0000;
            let got = snapped(zc, at, spb);
            if exists|k: int|
                0 <= k < zc.len() && expected - radius <= #[trigger] zc[k] <= expected + radius {
                &&& exists|k: int| 0 <= k < zc.len() && #[trigger] zc[k] == got
                &&& expected - radius <= got <= expected + radius
                &&& forall|k: int|
                    0 <= k < zc.len() && expected - radius <= #[trigger] zc[k] ==> got <= zc[k]
            } else {
                got == expected
            }
        }),
{
    let expected = at + spb as int / 0x1_0000_0000;
    let radius = spb as int / 0x4_0000_0000;
    let lo = if expected > radius {
        expected - radius
    } else {
        0
    };
    if exists|k: int|
        0 <= k < zc.len() && expected - radius <= #[trigger] zc[k] <= expected + radius {
        let k = choose|k: int|
            0 <= k < zc.len() && expected - radius <= #[trigger] zc[k] <= expected + radius;
        lemma_first_at_least(zc, lo, k);
        let i = choose|i: int|
            0 <= i <= k && #[trigger] zc[i] == first_at_least(zc, lo) && zc[i] >= lo && (forall|j: int|
                0 <= j < i ==> #[trigger] zc[j] < lo);
        assert(zc[i] <= zc[k]);
        assert forall|m: int|
            0 <= m < zc.len() && expected - radius <= #[trigger] zc[m] implies zc[i] <= zc[m] by {
            if m < i {
                assert(zc[m] < lo);
            }
        }
    }
}

// ── Words ──────────────────────────────────────────────────────────────────

/// The starts are the places of words: eighty bits apart from the first place on, each
/// with a sync word in its last sixteen bits, and every such place is among them.
pub open spec fn are_word_starts(bits: Seq<u8>, first: int, starts: Seq<usize>) -> bool {
    &&& forall|k: int|
        0 <= k < starts.len() ==> {
            &&& first <= (#[trigger] starts[k])
            &&& (starts[k] - first) % 80 == 0
            &&& starts[k] + 80 <= bits.len()
            &&& sync_at(bits, starts[k] + 64)
        }
    &&& forall|j: int, k: int| 0 <= j < k < starts.len() ==> starts[j] < starts[k]
    &&& forall|s: int|
        first <= s && s + 80 <= bits.len() && (s - first) % 80 == 0 && #[trigger] sync_at(
            bits,
            s + 64,
        ) ==> starts.contains(s as usize)
}

proof fn lemma_starts(bits: Seq<u8>, start: nat)
    requires
        bits.len() <= usize::MAX,
    ensures
        are_word_starts(bits, start as int, frame_starts_from(bits, start)),
    decreases bits.len() + 80 - start,
{
    let starts = frame_starts_from(bits, start);
    if start + 80 <= bits.len() {
        lemma_starts(bits, start + 80);
        let rest = frame_starts_from(bits, start + 80);
        let found = sync_at(bits, start as int + 64);
        let off: int = if found {
            1
        } else {
            0
        };
        assert(found ==> starts == seq![start as usize] + rest);
        assert forall|k: int| 0 <= k < starts.len() implies {
            &&& start <= (#[trigger] starts[k])
            &&& (starts[k] - start) % 80 == 0
            &&& starts[k] + 80 <= bits.len()
            &&& sync_at(bits, starts[k] + 64)
        } by {
            if !(found && k == 0) {
                assert(starts[k] == rest[k - off]);
            }
        }
        assert forall|j: int, k: int| 0 <= j < k < starts.len() implies starts[j] < starts[k] by {
            assert(starts[k] == rest[k - off]);
            if !(found && j == 0) {
                assert(starts[j] == rest[j - off]);
            }
        }
        assert forall|s: int|
            start <= s && s + 80 <= bits.len() && (s - start) % 80 == 0 && #[trigger] sync_at(
                bits,
                s + 64,
            ) implies starts.contains(s as usize) by {
            if s == start {
                assert(starts[0] == s as usize);
            } else {
                assert(rest.contains(s as usize));
                let k = choose|k: int| 0 <= k < rest.len() && rest[k] == s as usize;
                assert(starts[k + off] == s as usize);
            }
        }
    }
}

/// Searching bits for words takes the alignment at which most sync words lie, and finds
/// every word of that alignment and no other; it counts them, and how many there is
/// room for.
pub proof fn law_search_takes_one_alignment(bits: Seq<u8>)
    requires
        bits.len() <= u32::MAX,
        bits.len() <= usize::MAX,
    ensures
        ({
            let (valid, possible, starts) = frame_search(bits);
            let positions = sync_positions(bits, 0);
            &&& valid == starts.len()
            &&& (exists|a: int| 0 <= a < 80 && #[trigger] votes(positions, a) > 0) ==> exists|
                best: int,
            |
                {
                    &&& 0 <= best < 80
                    &&& #[trigger] are_word_starts(bits, best, starts)
                    &&& bits.len() >= best ==> possible == (bits.len() - best) / 80
                    &&& forall|a: int|
                        0 <= a < 80 ==> #[trigger] votes(positions, a) <= votes(positions, best)
                }
            &&& !(exists|a: int| 0 <= a < 80 && #[trigger] votes(positions, a) > 0) ==> starts.len()
                == 0 && possible == 0
        }),
{
    let positions = sync_positions(bits, 0);
    if exists|a: int| 0 <= a < 80 && #[trigger] votes(positions, a) > 0 {
        lemma_best_exists(positions, 80);
        let best = choose|best: int| is_best_alignment(positions, best);
        assert(is_best_alignment(positions, best));
        lemma_starts(bits, best as nat);
        lemma_few_starts(bits, best as nat);
        assert(are_word_starts(bits, best, frame_search(bits).2));
    }
}

proof fn lemma_few_starts(bits: Seq<u8>, start: nat)
    ensures
        frame_starts_from(bits, start).len() <= bits.len(),
        start <= bits.len() ==> 80 * frame_starts_from(bits, start).len() <= bits.len() - start,
    decreases bits.len() + 80 - start,
{
    if start + 80 <= bits.len() {
        lemma_few_starts(bits, start + 80);
    }
}

proof fn lemma_best_exists(positions: Seq<usize>, n: int) -> (best: int)
    requires
        1 <= n <= 80,
    ensures
        0 <= best < n,
        forall|a: int| 0 <= a < n ==> #[trigger] votes(positions, a) <= votes(positions, best),
        forall|a: int| best < a < n ==> #[trigger] votes(positions, a) < votes(positions, best),
        n == 80 ==> is_best_alignment(positions, best),
    decreases n,
{
    if n == 1 {
        0
    } else {
        let before = lemma_best_exists(positions, n - 1);
        if votes(positions, n - 1) >= votes(positions, before) {
            n - 1
        } else {
            before
        }
    }
}

// ── The choice of a reading ────────────────────────────────────────────────

/// The candidate at place `k` finds words: more than any before it, and no fewer than
/// any behind it.
pub open spec fn finds_most(
    samples: Seq<i64>,
    zc: Seq<usize>,
    threshold: u64,
    candidates: Seq<Candidate>,
    k: int,
) -> bool {
    let most = score(samples, zc, threshold, candidates[k]).0;
    &&& 0 <= k < candidates.len()
    &&& most > 0
    &&& forall|j: int|
        0 <= j < k ==> score(samples, zc, threshold, #[trigger] candidates[j]).0 < most
    &&& forall|j: int|
        k < j < candidates.len() ==> score(samples, zc, threshold, #[trigger] candidates[j]).0
            <= most
}

proof fn lemma_best_place(samples: Seq<i64>, zc: Seq<usize>, threshold: u64, candidates: Seq<Candidate>) -> (k: int)
    ensures
        match best_of(samples, zc, threshold, None, candidates) {
            Some(c) => finds_most(samples, zc, threshold, candidates, k) && candidates[k] == c,
            None => forall|j: int|
                0 <= j < candidates.len() ==> score(
                    samples,
                    zc,
                    threshold,
                    #[trigger] candidates[j],
                ).0 == 0,
        },
    decreases candidates.len(),
{
    if candidates.len() == 0 {
        0
    } else {
        let head = candidates.drop_last();
        let k = lemma_best_place(samples, zc, threshold, head);
        let before = best_of(samples, zc, threshold, None, head);
        let last = candidates.last();
        let n = candidates.len() - 1;
        let best = best_score(samples, zc, threshold, before);
        assert forall|j: int| 0 <= j < n implies score(
            samples,
            zc,
            threshold,
            #[trigger] candidates[j],
        ).0 <= best by {
            assert(head[j] == candidates[j]);
            if before is Some && j == k {
                assert(head[k] == before->0);
            }
        }
        if score(samples, zc, threshold, last).0 > best {
            n
        } else {
            if before is Some {
                assert(candidates[k] == head[k]);
                assert forall|j: int| 0 <= j < k implies score(
                    samples,
                    zc,
                    threshold,
                    #[trigger] candidates[j],
                ).0 < best by {
                    assert(head[j] == candidates[j]);
                }
            }
            k
        }
    }
}

/// The chosen way of reading finds more words than any that comes before it in the
/// list, and at least as many as any behind it. Where none finds a word, none is chosen.
pub proof fn law_best_finds_most(
    samples: Seq<i64>,
    zc: Seq<usize>,
    threshold: u64,
    candidates: Seq<Candidate>,
)
    ensures
        match best_of(samples, zc, threshold, None, candidates) {
            Some(c) => exists|k: int|
                #[trigger] finds_most(samples, zc, threshold, candidates, k) && candidates[k] == c,
            None => forall|j: int|
                0 <= j < candidates.len() ==> score(
                    samples,
                    zc,
                    threshold,
                    #[trigger] candidates[j],
                ).0 == 0,
        },
{
    let k = lemma_best_place(samples, zc, threshold, candidates);
}

/// A signal is read by its crossings where that finds at least seven words in ten; else
/// in the way of the other methods, unless those find fewer words.
pub proof fn law_choice_of_method(
    samples: Seq<i64>,
    zc: Seq<usize>,
    sample_rate: u32,
    nominal: u128,
    threshold: u64,
)
    requires
        zc.len() > 0,
    ensures
        ({
            let by_crossings = Candidate { method: Method::ZcInterval, spb: nominal, phase: zc[0] };
            let (valid, possible) = score(samples, zc, threshold, by_crossings);
            let chosen = chosen_candidate(samples, zc, sample_rate, nominal, threshold);
            let other = match search_windows(
                samples,
                zc,
                sample_rate,
                nominal,
                threshold,
                0,
                None,
            ) {
                Some(w) => Some(
                    Candidate {
                        method: Method::SinglePass,
                        spb: w.candidate.spb,
                        phase: (w.candidate.phase + w.start) as usize,
                    },
                ),
                None => evaluate(samples, zc, nominal, threshold),
            };
            &&& valid > 0 && 10 * valid >= 7 * possible && possible > 0 ==> chosen == Some(
                by_crossings,
            )
            &&& !(valid > 0 && 10 * valid >= 7 * possible && possible > 0) ==> chosen == if valid
                > best_score(samples, zc, threshold, other) {
                Some(by_crossings)
            } else {
                other
            }
            &&& chosen is Some ==> best_score(samples, zc, threshold, chosen) >= valid || (10
                * valid >= 7 * possible && possible > 0)
        }),
{
}

/// The reading of a window: that of the thirty seconds from its start on.
pub open spec fn is_window_reading(
    samples: Seq<i64>,
    zc: Seq<usize>,
    sample_rate: u32,
    nominal: u128,
    threshold: u64,
    idx: int,
    w: WindowBest,
) -> bool {
    let start = idx * 15 * sample_rate;
    let end = if start + 30 * sample_rate < samples.len() {
        start + 30 * sample_rate
    } else {
        samples.len() as int
    };
    let part = samples.subrange(start, end);
    let part_zc = window_crossings(zc, start as usize, end as usize);
    &&& 0 <= idx
    &&& w.start == start
    &&& part_zc.len() >= 8
    &&& evaluate(part, part_zc, nominal, threshold) == Some(w.candidate)
    &&& w.valid == score(part, part_zc, threshold, w.candidate).0
    &&& w.valid > 0
}

proof fn lemma_windows(
    samples: Seq<i64>,
    zc: Seq<usize>,
    sample_rate: u32,
    nominal: u128,
    threshold: u64,
    idx: int,
    best: Option<WindowBest>,
    from: int,
)
    requires
        0 <= idx,
        sample_rate > 0,
        samples.len() <= usize::MAX,
        (idx * 15) * sample_rate <= samples.len() || idx == 0 || idx >= window_limit(
            samples.len(),
            sample_rate,
        ),
        best matches Some(w) ==> is_window_reading(
            samples,
            zc,
            sample_rate,
            nominal,
            threshold,
            from,
            w,
        ),
    ensures
        search_windows(samples, zc, sample_rate, nominal, threshold, idx, best) matches Some(w)
            ==> exists|k: int| #[trigger]
            is_window_reading(samples, zc, sample_rate, nominal, threshold, k, w),
    decreases window_limit(samples.len(), sample_rate) - idx,
{
    if idx < window_limit(samples.len(), sample_rate) {
        let (next, stop) = window_step(samples, zc, sample_rate, nominal, threshold, idx, best);
        let stride = 15 * sample_rate as int;
        let start = idx * stride;
        assert(idx * 15 * sample_rate == start) by (nonlinear_arith)
            requires
                start == idx * stride,
                stride == 15 * sample_rate as int,
        ;
        lemma_window_start(samples.len() as int, stride, idx);
        let taken = if next == best {
            from
        } else {
            idx
        };
        assert(next matches Some(w) ==> is_window_reading(
            samples,
            zc,
            sample_rate,
            nominal,
            threshold,
            taken,
            w,
        ));
        if !stop {
            let more = idx + 1;
            assert(more * 15 * sample_rate == more * stride) by (nonlinear_arith)
                requires
                    stride == 15 * sample_rate as int,
            ;
            if more < window_limit(samples.len(), sample_rate) {
                lemma_window_start(samples.len() as int, stride, more);
            }
            lemma_windows(samples, zc, sample_rate, nominal, threshold, more, next, taken);
        }
    }
}

proof fn lemma_window_start(len: int, stride: int, idx: int)
    requires
        stride > 0,
        0 <= idx,
        0 <= len,
        idx < len / stride || idx < 1,
    ensures
        0 <= idx * stride <= len,
{
    if idx < 1 {
        assert(idx * stride == 0) by (nonlinear_arith)
            requires
                idx == 0,
        ;
    } else {
        vstd::arithmetic::div_mod::lemma_fundamental_div_mod(len, stride);
        vstd::arithmetic::div_mod::lemma_mod_bound(len, stride);
        let q = len / stride;
        assert(0 <= idx * stride <= stride * q) by (nonlinear_arith)
            requires
                0 <= idx < q,
                stride > 0,
        ;
    }
}

/// What a search by windows gives was read in one of them: its start is a whole number
/// of fifteen seconds into the recording, and its phase is told from there.
pub proof fn law_window_is_read(
    samples: Seq<i64>,
    zc: Seq<usize>,
    sample_rate: u32,
    nominal: u128,
    threshold: u64,
)
    requires
        sample_rate > 0,
        samples.len() <= usize::MAX,
    ensures
        search_windows(samples, zc, sample_rate, nominal, threshold, 0, None) matches Some(w)
            ==> exists|k: int| #[trigger]
            is_window_reading(samples, zc, sample_rate, nominal, threshold, k, w),
{
    lemma_windows(samples, zc, sample_rate, nominal, threshold, 0, None, 0);
}

/// The crossings of a window are those of the recording that lie in it, told from its
/// start on.
pub proof fn law_window_crossings(zc: Seq<usize>, start: usize, end: usize, p: usize)
    requires
        in_order(zc),
        start <= end,
        p < end - start,
    ensures
        window_crossings(zc, start, end).contains(p) <==> zc.contains((p + start) as usize),
{
    let a = lemma_bound(zc, start, zc.len() as int);
    let b = lemma_bound(zc, end, zc.len() as int);
    assert(is_lower_bound(zc, start, below(zc, start)));
    assert(is_lower_bound(zc, end, below(zc, end)));
    let i = below(zc, start);
    let j = below(zc, end);
    assert(i <= j) by {
        if j < i {
            assert(zc[j] < start);
            assert(zc[j] >= end);
        }
    }
    let part = zc.subrange(i, j);
    let out = window_crossings(zc, start, end);
    if out.contains(p) {
        let k = choose|k: int| 0 <= k < out.len() && out[k] == p;
        assert(part[k] == zc[i + k]);
        assert(zc[i + k] >= start);
        assert(zc[i + k] == (p + start) as usize);
    }
    if zc.contains((p + start) as usize) {
        let k = choose|k: int| 0 <= k < zc.len() && zc[k] == (p + start) as usize;
        assert(zc[k] >= start && zc[k] < end);
        assert(i <= k < j) by {
            if k < i {
                assert(zc[k] < start);
            }
            if k >= j {
                assert(zc[k] >= end);
            }
        }
        assert(out[k - i] == p);
    }
}

proof fn lemma_bound(zc: Seq<usize>, target: usize, n: int) -> (i: int)
    requires
        in_order(zc),
        0 <= n <= zc.len(),
    ensures
        0 <= i <= n,
        forall|k: int| 0 <= k < i ==> #[trigger] zc[k] < target,
        forall|k: int| i <= k < n ==> #[trigger] zc[k] >= target,
        n == zc.len() ==> is_lower_bound(zc, target, i),
    decreases n,
{
    if n == 0 {
        0
    } else {
        let i = lemma_bound(zc, target, n - 1);
        if zc[n - 1] < target {
            assert forall|k: int| 0 <= k < n implies #[trigger] zc[k] < target by {
                if k < n - 1 {
                    assert(zc[k] <= zc[n - 1]);
                }
            }
            n
        } else {
            i
        }
    }
}

/// The bit length that is expected is the number of samples of a frame over eighty,
/// rounded down in the unit of positions, and at least one unit.
pub proof fn law_expected_bit_length(sample_rate: u32, fps: FrameRate)
    requires
        fps.num > 0,
        fps.den > 0,
        sample_rate > 0,
    ensures
        ({
            let spb = nominal_spb(sample_rate, fps);
            let frame = sample_rate * fps.den * UNIT;
            &&& spb >= 1
            &&& spb > 1 ==> spb * (80 * fps.num) <= frame
            &&& frame < (spb + 1) * (80 * fps.num)
        }),
{
    let frame = sample_rate * fps.den * 0x1_0000_0000;
    let d = 80 * fps.num as int;
    let q = frame / d;
    vstd::arithmetic::div_mod::lemma_fundamental_div_mod(frame, d);
    vstd::arithmetic::div_mod::lemma_mod_bound(frame, d);
    assert(frame >= 0 && frame <= 0xffff_ffff * 0xffff_ffff * 0x1_0000_0000) by (nonlinear_arith)
        requires
            frame == sample_rate * fps.den * 0x1_0000_0000,
            0 < sample_rate <= 0xffff_ffff,
            0 < fps.den <= 0xffff_ffff,
    ;
    assert(q * d <= frame < (q + 1) * d) by (nonlinear_arith)
        requires
            frame == d * q + frame % d,
            0 <= frame % d < d,
    ;
    assert(0 <= q <= frame) by (nonlinear_arith)
        requires
            q * d <= frame < (q + 1) * d,
            d >= 1,
            frame >= 0,
    ;
    if q < 1 {
        assert(frame < 2 * d) by (nonlinear_arith)
            requires
                q == 0,
                frame < (q + 1) * d,
                d >= 0,
        ;
    }
}

/// Bit lengths round the expected one are tried, as far below it as above: it is always
/// among them.
pub proof fn law_lengths_lie_round(nominal: u128)
    requires
        nominal <= 0x400_0000_0000_0000_0000_0000,
    ensures
        ({
            let v = spb_variants(nominal);
            &&& v.contains(nominal)
            &&& v.len() == if nominal >= 0x8_0000_0000 {
                5nat
            } else {
                1
            }
            &&& v.len() == 5 ==> {
                &&& v[0] + v[4] == 2 * nominal
                &&& v[1] + v[3] == 2 * nominal
                &&& v[0] < v[1] < v[2] < v[3] < v[4]
                &&& v[2] == nominal
                &&& 1000 * (v[4] - v[2]) <= 4 * nominal || v[4] - v[2] == 214748364
                &&& 1000 * (v[4] - v[2]) > 4 * nominal - 1000
                &&& v[4] - v[2] >= 214748364
                &&& 0 <= (v[4] - v[2]) - 2 * (v[3] - v[2]) <= 1
            }
        }),
{
    let v = spb_variants(nominal);
    if nominal >= 0x8_0000_0000 {
        assert(v[2] == nominal);
    } else {
        assert(v[0] == nominal);
    }
}

// ── The report ─────────────────────────────────────────────────────────────

/// A frame is told to start at the time at which its first bit starts: the phase of the
/// reading and the bits before it, in whole nanoseconds.
pub proof fn law_time_of_a_bit(phase: int, start: int, spb: u128, sample_rate: u32)
    requires
        sample_rate > 0,
        phase >= 0,
        start >= 0,
    ensures
        ({
            let t = bit_nanos(phase, start, spb, sample_rate) as int;
            let position = phase * UNIT + start * spb;
            let second = sample_rate * UNIT;
            &&& t < i64::MAX ==> t * second <= position * 1_000_000_000 < (t + 1) * second
            &&& t == i64::MAX ==> t * second <= position * 1_000_000_000
        }),
{
    let position = phase * UNIT + start * spb;
    let second = sample_rate * 0x1_0000_0000;
    let x = position * 1_000_000_000;
    let t = x / second;
    assert(position >= 0) by (nonlinear_arith)
        requires
            position == phase * 0x1_0000_0000 + start * spb,
            phase >= 0,
            start >= 0,
            spb >= 0,
    ;
    vstd::arithmetic::div_mod::lemma_fundamental_div_mod(x, second);
    vstd::arithmetic::div_mod::lemma_mod_bound(x, second);
    assert(t * second <= x < (t + 1) * second) by (nonlinear_arith)
        requires
            x == second * t + x % second,
            0 <= x % second < second,
    ;
    assert(t >= 0) by (nonlinear_arith)
        requires
            x < (t + 1) * second,
            x >= 0,
            second > 0,
    ;
    if t > i64::MAX {
        let m = i64::MAX as int;
        assert(m * second <= t * second) by (nonlinear_arith)
            requires
                m <= t,
                second > 0,
        ;
    }
}

/// What is reported of a reading: one timecode for every word that it finds, in order,
/// read from the bits of the word and told with the time at which it starts; the number
/// of words and of the places for them; and the time of the first.
pub proof fn law_report_tells_the_reading(rec: Recording, zc: Seq<usize>, threshold: u64, c: Candidate, i: int)
    requires
        rec.sample_rate > 0,
        rec.samples.len() <= usize::MAX,
    ensures
        ({
            let r = full_report(rec, zc, threshold, Some(c));
            let bits = candidate_bits(rec.samples, zc, threshold, c);
            let (valid, possible, starts) = frame_search(bits);
            &&& r.valid_frames == valid
            &&& r.total_possible_frames == possible
            &&& r.timecodes.len() == starts.len()
            &&& r.detected_fps == rec.fps && r.drop_frame == rec.drop_frame
            &&& r.sample_rate == rec.sample_rate && r.total_samples == rec.samples.len()
            &&& 0 <= i < starts.len() ==> {
                &&& r.timecodes[i].timecode == timecode_at(bits, starts[i] as int)
                &&& r.timecodes[i].timecode_nanos == bit_nanos(
                    c.phase as int,
                    starts[i] as int,
                    c.spb,
                    rec.sample_rate,
                )
            }
            &&& starts.len() > 0 && valid > 0 ==> r.first_ltc_nanos
                == r.timecodes[0].timecode_nanos
            &&& r.avg_confidence.num * possible == r.avg_confidence.den * valid || possible == 0
            &&& r.status is Success <==> possible > 0 && 10 * valid >= 7 * possible
            &&& r.status is LowConfidence <==> possible > 0 && 10 * valid >= 3 * possible && 10
                * valid < 7 * possible
            &&& r.status is NoSyncWord <==> possible == 0 || 10 * valid < 3 * possible
        }),
{
    let bits = candidate_bits(rec.samples, zc, threshold, c);
    let (valid, possible, starts) = frame_search(bits);
    assert(valid as u64 * possible == possible as u64 * valid) by (nonlinear_arith);
}

/// Where a steady run begins behind the first frames, those are left out: what is left
/// is the rest, numbered from zero, with its times as they were, and the recording is
/// told to begin with it. Nothing else of the report changes, and a report that begins
/// with a steady run, or has none, stays as it is.
pub proof fn law_unsteady_start_is_left_out(r: Report, i: int)
    requires
        r.detected_fps.num > 0,
        coherent_run(r.timecodes, i, run_length(r.detected_fps), r.detected_fps, r.drop_frame),
        forall|k: int|
            0 <= k < i ==> !#[trigger] coherent_run(
                r.timecodes,
                k,
                run_length(r.detected_fps),
                r.detected_fps,
                r.drop_frame,
            ),
        0 <= i < r.timecodes.len() <= u32::MAX,
    ensures
        ({
            let out = coherent_report(r);
            &&& out.timecodes.len() == r.timecodes.len() - i
            &&& forall|k: int|
                0 <= k < out.timecodes.len() ==> {
                    &&& (#[trigger] out.timecodes[k]).timecode == r.timecodes[i + k].timecode
                    &&& out.timecodes[k].timecode_nanos == r.timecodes[i + k].timecode_nanos
                    &&& i > 0 ==> out.timecodes[k].frame_index == k
                }
            &&& i > 0 ==> out.first_ltc_nanos == r.timecodes[i].timecode_nanos
            &&& i == 0 ==> out == r
            &&& out.status == r.status && out.valid_frames == r.valid_frames
                && out.total_possible_frames == r.total_possible_frames && out.avg_confidence
                == r.avg_confidence && out.detected_fps == r.detected_fps && out.drop_frame
                == r.drop_frame && out.total_samples == r.total_samples && out.sample_rate
                == r.sample_rate
        }),
{
    let fps = r.detected_fps;
    assert(is_coherent_start(r.timecodes, fps, r.drop_frame, i));
    assert forall|j: int| #[trigger]
        is_coherent_start(r.timecodes, fps, r.drop_frame, j) implies j == i by {
        if j < i {
            assert(!coherent_run(r.timecodes, j, run_length(fps), fps, r.drop_frame));
        } else if i < j {
            assert(!coherent_run(r.timecodes, i, run_length(fps), fps, r.drop_frame));
        }
    }
}

// ── Sync words ─────────────────────────────────────────────────────────────

proof fn lemma_mismatches(bits: Seq<u8>, n: int, wrong: Set<int>)
    requires
        0 <= n <= bits.len(),
        wrong.finite(),
        forall|k: int| #[trigger]
            wrong.contains(k) <==> 0 <= k < n && bits[k] != sync_bit(k),
    ensures
        mismatches(bits, n) == wrong.len(),
    decreases n,
{
    if n <= 0 {
        assert(wrong =~= Set::empty());
    } else {
        let before = wrong.remove(n - 1);
        lemma_mismatches(bits, n - 1, before);
        if wrong.contains(n - 1) {
            assert(wrong =~= before.insert(n - 1));
        } else {
            assert(wrong =~= before);
        }
    }
}

/// Sixteen bits are taken for the sync word exactly where no more than two of them
/// differ from it.
pub proof fn law_sync_word_tolerance(bits: Seq<u8>, i: int, wrong: Set<int>)
    requires
        0 <= i,
        i + 16 <= bits.len(),
        wrong.finite(),
        forall|k: int| #[trigger]
            wrong.contains(k) <==> 0 <= k < 16 && bits[i + k] != (if k == 0 || k == 1 || k == 14 {
                0u8
            } else {
                1u8
            }),
    ensures
        sync_at(bits, i) <==> wrong.len() <= 2,
{
    let part = bits.subrange(i, i + 16);
    assert forall|k: int| #[trigger] wrong.contains(k) <==> 0 <= k < 16 && part[k] != sync_bit(
        k,
    ) by {
        if 0 <= k < 16 {
            assert(part[k] == bits[i + k]);
        }
    }
    lemma_mismatches(part, 16, wrong);
}

/// A place lies within the eighty bits from one of those that were found.
pub open spec fn covered(found: Seq<usize>, p: int) -> bool {
    exists|k: int| 0 <= k < found.len() && (#[trigger] found[k]) <= p < found[k] + 80
}

/// Sync words are looked for from the start on, and after each the next eighty bits are
/// passed over: every place that is told has one, they are at least eighty bits apart,
/// and a sync word that is not told lies within the eighty bits from one that is.
pub proof fn law_sync_positions(bits: Seq<u8>, from: nat)
    requires
        bits.len() <= usize::MAX,
    ensures
        forall|k: int|
            0 <= k < sync_positions(bits, from).len() ==> from <= (#[trigger] sync_positions(
                bits,
                from,
            )[k]) && sync_at(bits, sync_positions(bits, from)[k] as int),
        forall|j: int, k: int|
            0 <= j < k < sync_positions(bits, from).len() ==> sync_positions(bits, from)[j] + 80
                <= sync_positions(bits, from)[k],
        forall|p: int|
            from <= p && #[trigger] sync_at(bits, p) ==> covered(sync_positions(bits, from), p),
    decreases bits.len() + 80 - from,
{
    let found = sync_positions(bits, from);
    if from + 16 <= bits.len() {
        if sync_at(bits, from as int) {
            law_sync_positions(bits, from + 80);
            let rest = sync_positions(bits, from + 80);
            assert(found == seq![from as usize] + rest);
            assert forall|k: int| 0 <= k < found.len() implies from <= (#[trigger] found[k])
                && sync_at(bits, found[k] as int) by {
                if k > 0 {
                    assert(found[k] == rest[k - 1]);
                }
            }
            assert forall|j: int, k: int| 0 <= j < k < found.len() implies found[j] + 80
                <= found[k] by {
                assert(found[k] == rest[k - 1]);
                if j > 0 {
                    assert(found[j] == rest[j - 1]);
                }
            }
            assert forall|p: int| from <= p && #[trigger] sync_at(bits, p) implies covered(
                found,
                p,
            ) by {
                if p < from + 80 {
                    assert(found[0] == from);
                } else {
                    assert(covered(rest, p));
                    let k = choose|k: int|
                        0 <= k < rest.len() && (#[trigger] rest[k]) <= p < rest[k] + 80;
                    assert(found[k + 1] == rest[k]);
                }
            }
        } else {
            law_sync_positions(bits, from + 1);
            assert(found == sync_positions(bits, from + 1));
            assert forall|p: int| from <= p && #[trigger] sync_at(bits, p) implies covered(
                found,
                p,
            ) by {
                assert(from + 1 <= p);
            }
        }
    } else {
        assert(found.len() == 0);
        assert forall|p: int| from <= p implies !#[trigger] sync_at(bits, p) by {}
    }
}

// ── Cells ──────────────────────────────────────────────────────────────────

/// The intervals between crossings from `i` on tell the bits: a zero takes one long
/// interval, and a one takes two short ones.
pub open spec fn intervals_tell(zc: Seq<usize>, spb: u128, i: int, bits: Seq<u8>) -> bool
    decreases bits.len(),
{
    if bits.len() == 0 {
        i + 1 == zc.len()
    } else if bits[0] == 0 {
        i + 1 < zc.len() && 4 * (zc[i + 1] - zc[i]) * UNIT >= 3 * spb && intervals_tell(
            zc,
            spb,
            i + 1,
            bits.skip(1),
        )
    } else {
        &&& bits[0] == 1
        &&& i + 2 < zc.len()
        &&& 4 * (zc[i + 1] - zc[i]) * UNIT < 3 * spb
        &&& 4 * (zc[i + 2] - zc[i + 1]) * UNIT < 3 * spb
        &&& intervals_tell(zc, spb, i + 2, bits.skip(1))
    }
}

/// Bits are read from the intervals that tell them: an interval is short where it is
/// less than three quarters of a bit.
pub proof fn law_intervals_are_read(zc: Seq<usize>, spb: u128, i: int, bits: Seq<u8>)
    requires
        0 <= i,
        intervals_tell(zc, spb, i, bits),
    ensures
        half_cell_bits(zc, spb, i) == bits,
    decreases bits.len(),
{
    if bits.len() > 0 {
        let rest = bits.skip(1);
        if bits[0] == 0 {
            law_intervals_are_read(zc, spb, i + 1, rest);
            assert(seq![0u8] + rest =~= bits);
        } else {
            law_intervals_are_read(zc, spb, i + 2, rest);
            assert(seq![1u8] + rest =~= bits);
        }
    } else {
        assert(bits =~= seq![]);
    }
}

/// A signal that crosses once for every one is read with a one at each crossing, as
/// many bits after the one before it as the time between them is nearest to, and at
/// least one.
pub proof fn law_single_crossings(zc: Seq<usize>, spb: u128, n: int)
    requires
        2 <= n <= zc.len(),
        in_order(zc),
        spb > 0,
        zc[n - 1] - zc[n - 2] <= 0xffff_ffff,
    ensures
        ({
            let before = one_cell_bits(zc, spb, n - 1);
            let now = one_cell_bits(zc, spb, n);
            let more = now.len() - before.len();
            let gap = (zc[n - 1] - zc[n - 2]) * UNIT;
            &&& before.is_prefix_of(now)
            &&& now.last() == 1
            &&& before.last() == 1
            &&& more >= 1
            &&& forall|k: int| before.len() <= k < now.len() - 1 ==> #[trigger] now[k] == 0
            &&& 1 < more < 0xffff_ffff ==> 2 * gap - spb < 2 * (more * spb) <= 2 * gap + spb
        }),
{
    let before = one_cell_bits(zc, spb, n - 1);
    let now = one_cell_bits(zc, spb, n);
    let gap = zc[n - 1] - zc[n - 2];
    let zeros = zeros_between(gap, spb);
    let tail = zeros_and_one(zeros);
    assert(now == before + tail);
    assert(tail.last() == 1);
    assert(now.subrange(0, before.len() as int) =~= before);
    lemma_ends_in_one(zc, spb, n - 1);
    let x = 2 * gap * UNIT + spb;
    let d = 2 * spb as int;
    let q = x / d;
    vstd::arithmetic::div_mod::lemma_fundamental_div_mod(x, d);
    vstd::arithmetic::div_mod::lemma_mod_bound(x, d);
    assert(2 * (q * spb) <= x < 2 * (q * spb) + 2 * spb) by (nonlinear_arith)
        requires
            x == d * q + x % d,
            0 <= x % d < d,
            d == 2 * spb as int,
    ;
    assert(2 * gap * UNIT == 2 * (gap * UNIT)) by (nonlinear_arith);
}

proof fn lemma_ends_in_one(zc: Seq<usize>, spb: u128, n: int)
    requires
        n >= 1,
    ensures
        one_cell_bits(zc, spb, n).len() > 0,
        one_cell_bits(zc, spb, n).last() == 1,
{
    if n > 1 {
        let tail = zeros_and_one(zeros_between(zc[n - 1] - zc[n - 2], spb));
        assert(tail.last() == 1);
        assert(one_cell_bits(zc, spb, n).last() == tail.last());
    }
}

// ── Ways of reading ────────────────────────────────────────────────────────

proof fn lemma_best_from(
    samples: Seq<i64>,
    zc: Seq<usize>,
    threshold: u64,
    init: Option<Candidate>,
    candidates: Seq<Candidate>,
    k: int,
)
    ensures
        ({
            let best = best_score(
                samples,
                zc,
                threshold,
                best_of(samples, zc, threshold, init, candidates),
            );
            &&& best >= best_score(samples, zc, threshold, init)
            &&& 0 <= k < candidates.len() ==> best >= score(
                samples,
                zc,
                threshold,
                candidates[k],
            ).0
        }),
    decreases candidates.len(),
{
    if candidates.len() > 0 {
        let head = candidates.drop_last();
        lemma_best_from(samples, zc, threshold, init, head, k);
        if 0 <= k < head.len() {
            assert(head[k] == candidates[k]);
        }
    }
}

/// A reading at any of the bit lengths that are tried, from any of the crossings that
/// are tried, or from half a bit before one, finds no more words than the reading that
/// is chosen.
pub proof fn law_no_other_reading_finds_more(
    samples: Seq<i64>,
    zc: Seq<usize>,
    nominal: u128,
    threshold: u64,
    v: int,
    p: int,
    halfway: bool,
)
    requires
        nominal >= 0x8000_0000,
        0 <= v < spb_variants(nominal).len(),
        0 <= p < phase_count(spb_variants(nominal)[v], zc.len()),
    ensures
        ({
            let spb = spb_variants(nominal)[v];
            let half = spb / 0x2_0000_0000;
            let phase = if !halfway {
                zc[p]
            } else if zc[p] > half {
                (zc[p] - half) as usize
            } else {
                0
            };
            best_score(samples, zc, threshold, evaluate(samples, zc, nominal, threshold)) >= score(
                samples,
                zc,
                threshold,
                Candidate { method: Method::Sampled, spb, phase },
            ).0
        }),
{
    let spbs = spb_variants(nominal);
    let all = all_sampled(zc, spbs);
    let k = lemma_sampled(zc, spbs, v, p, halfway);
    lemma_best_from(samples, zc, threshold, None, all, k);
    let first = best_of(samples, zc, threshold, None, all);
    if let Some(c) = first {
        if c.spb >= UNIT {
            lemma_best_from(
                samples,
                zc,
                threshold,
                first,
                adaptive_candidates(zc, c.spb, c.phase, phase_count(c.spb, zc.len()) as int),
                0,
            );
        }
    }
}

proof fn lemma_sampled(zc: Seq<usize>, spbs: Seq<u128>, v: int, p: int, halfway: bool) -> (k: int)
    requires
        0 <= v < spbs.len(),
        0 <= p < phase_count(spbs[v], zc.len()),
    ensures
        0 <= k < all_sampled(zc, spbs).len(),
        all_sampled(zc, spbs)[k] == (Candidate {
            method: Method::Sampled,
            spb: spbs[v],
            phase: if halfway {
                half_bit_before(zc[p], spbs[v])
            } else {
                zc[p]
            },
        }),
    decreases spbs.len(),
{
    let head = spbs.drop_last();
    let before = all_sampled(zc, head);
    let own = sampled_candidates(zc, spbs.last());
    assert(all_sampled(zc, spbs) == before + own);
    if v < head.len() {
        assert(head[v] == spbs[v]);
        let k = lemma_sampled(zc, head, v, p, halfway);
        assert((before + own)[k] == before[k]);
        k
    } else {
        let j = if halfway {
            2 * p + 1
        } else {
            2 * p
        };
        assert(j / 2 == p);
        assert((before + own)[before.len() + j] == own[j]);
        before.len() + j
    }
}

/// As many crossings are tried as a quarter of a bit has samples, but no fewer than
/// five and no more than twelve, as far as there are any.
pub proof fn law_crossings_tried(spb: u128, available: nat)
    ensures
        phase_count(spb, available) <= available,
        phase_count(spb, available) <= 12,
        phase_count(spb, available) >= 5 || phase_count(spb, available) == available,
        5 < phase_count(spb, available) < 12 && phase_count(spb, available) < available ==> 4
            * phase_count(spb, available) * UNIT <= spb + 2 * UNIT < 4 * (phase_count(spb, available)
            + 1) * UNIT,
{
}

} // verus!
