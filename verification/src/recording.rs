//! What a recording of timecode holds is what was put into it.

use vstd::prelude::*;

use crate::ltc_encoder::{is_modulated, word};
use crate::ltc_frames::{
    frame_search, is_word_stream, law_word_stream_found, lemma_word_binary, timecode_at,
};
use crate::ltc_signal::{
    binary, bit_at, bit_fits, bits_from, law_modulation_round_trip, quarter_point, smoothed, UNIT,
};
use crate::timecode::Timecode;

verus! {

/// The samples of a signal with these levels.
pub open spec fn scaled(levels: Seq<i8>, amplitude: i64) -> Seq<i64> {
    Seq::new(levels.len(), |s: int| (amplitude * levels[s]) as i64)
}

/// The samples are those of one modulated word.
pub open spec fn carries(part: Seq<i64>, bits: Seq<u8>, start: i8, amplitude: i64) -> bool {
    exists|levels: Seq<i8>|
        #[trigger] is_modulated(levels, bits, start) && part == scaled(levels, amplitude)
            && (forall|s: int| 0 <= s < levels.len() ==> -1 <= #[trigger] levels[s] <= 1)
}

/// The samples are those of the words of `tcs`, one after another, at `k` samples a
/// bit; word `j` starts from the level `starts[j]`.
pub open spec fn is_recording(
    samples: Seq<i64>,
    tcs: Seq<Timecode>,
    drop_frame: bool,
    starts: Seq<i8>,
    amplitude: i64,
    k: int,
) -> bool {
    &&& samples.len() == 80 * k * tcs.len()
    &&& starts.len() == tcs.len()
    &&& forall|j: int|
        0 <= j < tcs.len() ==> (starts[j] == 1 || starts[j] == -1) && #[trigger] carries(
            samples.subrange(80 * k * j, 80 * k * j + 80 * k),
            word(tcs[j], drop_frame),
            starts[j],
            amplitude,
        )
}

/// All bits of the words of `tcs`.
pub open spec fn stream_bits(tcs: Seq<Timecode>, drop_frame: bool) -> Seq<u8> {
    Seq::new(80 * tcs.len(), |i: int| word(tcs[i / 80], drop_frame)[i % 80])
}

/// The bits of the words of `tcs` are a stream of these words.
pub proof fn lemma_stream_words(tcs: Seq<Timecode>, drop_frame: bool)
    ensures
        is_word_stream(stream_bits(tcs, drop_frame), tcs, drop_frame),
{
    let bits = stream_bits(tcs, drop_frame);
    assert forall|j: int| 0 <= j < tcs.len() implies bits.subrange(80 * j, 80 * j + 80)
        == #[trigger] word(tcs[j], drop_frame) by {
        let w = word(tcs[j], drop_frame);
        lemma_word_binary(tcs[j], drop_frame);
        assert forall|i: int| 0 <= i < 80 implies bits.subrange(80 * j, 80 * j + 80)[i] == w[i] by {
            assert((80 * j + i) / 80 == j && (80 * j + i) % 80 == i);
        }
        assert(bits.subrange(80 * j, 80 * j + 80) =~= w);
    }
}

proof fn lemma_bit_of_word(part: Seq<i64>, bits: Seq<u8>, start: i8, amplitude: i64, threshold: u64, k: int, b: int)
    requires
        6 <= k,
        k * UNIT <= u128::MAX,
        0 <= b < 80,
        bits.len() == 80,
        binary(bits),
        start == 1 || start == -1,
        0 < amplitude < i64::MAX,
        threshold <= amplitude,
        part.len() == 80 * k,
        carries(part, bits, start, amplitude),
    ensures
        bit_at(part, b * k * UNIT, (k * UNIT) as u128, threshold) == bits[b],
{
    let levels = choose|levels: Seq<i8>|
        #[trigger] is_modulated(levels, bits, start) && part == scaled(levels, amplitude)
            && (forall|s: int| 0 <= s < levels.len() ==> -1 <= #[trigger] levels[s] <= 1);
    assert forall|s: int| 0 <= s < part.len() implies #[trigger] part[s] == amplitude * levels[s] by {
        assert(-1 <= levels[s] <= 1);
        assert(amplitude * 0 == 0 && amplitude * 1 == amplitude && amplitude * (-1) == -amplitude)
            by (nonlinear_arith);
    }
    law_modulation_round_trip(part, levels, bits, start, amplitude, threshold, k, b);
    assert(bits.skip(b)[0] == bits[b]);
    assert(bits_from(part, (k * UNIT) as u128, b * k * UNIT, threshold).len() > 0);
}

proof fn lemma_bit_of_recording(
    samples: Seq<i64>,
    tcs: Seq<Timecode>,
    drop_frame: bool,
    starts: Seq<i8>,
    amplitude: i64,
    threshold: u64,
    k: int,
    g: int,
)
    requires
        6 <= k,
        k * UNIT <= u128::MAX,
        0 < amplitude < i64::MAX,
        threshold <= amplitude,
        is_recording(samples, tcs, drop_frame, starts, amplitude, k),
        0 <= g < 80 * tcs.len(),
    ensures
        bit_fits(g * k * UNIT, (k * UNIT) as u128, samples.len() as int),
        bit_at(samples, g * k * UNIT, (k * UNIT) as u128, threshold) == stream_bits(tcs, drop_frame)[g],
{
    let spb = (k * UNIT) as u128;
    let j = g / 80;
    let b = g % 80;
    let from = 80 * k * j;
    let part = samples.subrange(from, from + 80 * k);
    assert(from + 80 * k <= samples.len() && from >= 0) by (nonlinear_arith)
        requires
            from == 80 * k * j,
            samples.len() == 80 * k * tcs.len(),
            0 <= j < tcs.len(),
            k >= 6,
    ;
    assert(carries(part, word(tcs[j], drop_frame), starts[j], amplitude));
    lemma_word_binary(tcs[j], drop_frame);
    lemma_bit_of_word(part, word(tcs[j], drop_frame), starts[j], amplitude, threshold, k, b);
    let bk = b * k;
    let gk = g * k;
    assert(gk == from + bk) by (nonlinear_arith)
        requires
            gk == g * k,
            bk == b * k,
            from == 80 * k * j,
            g == 80 * j + b,
    ;
    assert(0 <= bk && bk + k <= 80 * k) by (nonlinear_arith)
        requires
            bk == b * k,
            0 <= b <= 79,
            k >= 6,
    ;
    let p25 = quarter_point(bk * UNIT, spb, 1);
    let p75 = quarter_point(bk * UNIT, spb, 3);
    assert(p25 == bk + k / 4);
    assert(p75 == bk + (3 * k) / 4);
    assert(quarter_point(gk * UNIT, spb, 1) == from + p25);
    assert(quarter_point(gk * UNIT, spb, 3) == from + p75);
    lemma_same_smoothed(samples, from, 80 * k, p25);
    lemma_same_smoothed(samples, from, 80 * k, p75);
    assert(b * k * UNIT == bk * UNIT && g * k * UNIT == gk * UNIT);
    assert((gk * UNIT + spb) / 0x1_0000_0000 == gk + k);
}

proof fn lemma_same_smoothed(samples: Seq<i64>, from: int, len: int, p: int)
    requires
        0 <= from,
        from + len <= samples.len(),
        1 <= p,
        p + 1 < len,
    ensures
        smoothed(samples, from + p) == smoothed(samples.subrange(from, from + len), p),
{
}

proof fn lemma_bits_of_recording(
    samples: Seq<i64>,
    tcs: Seq<Timecode>,
    drop_frame: bool,
    starts: Seq<i8>,
    amplitude: i64,
    threshold: u64,
    k: int,
    g: int,
)
    requires
        6 <= k,
        k * UNIT <= u128::MAX,
        0 < amplitude < i64::MAX,
        threshold <= amplitude,
        is_recording(samples, tcs, drop_frame, starts, amplitude, k),
        0 <= g <= 80 * tcs.len(),
    ensures
        bits_from(samples, (k * UNIT) as u128, g * k * UNIT, threshold) == stream_bits(
            tcs,
            drop_frame,
        ).skip(g),
    decreases 80 * tcs.len() - g,
{
    let spb = (k * UNIT) as u128;
    let all = stream_bits(tcs, drop_frame);
    let next = (g + 1) * k * UNIT;
    assert(next == g * k * UNIT + spb) by (nonlinear_arith)
        requires
            next == (g + 1) * k * UNIT,
            spb == k * UNIT,
    ;
    if g < 80 * tcs.len() {
        lemma_bit_of_recording(samples, tcs, drop_frame, starts, amplitude, threshold, k, g);
        lemma_bits_of_recording(samples, tcs, drop_frame, starts, amplitude, threshold, k, g + 1);
        assert(seq![all[g]] + all.skip(g + 1) =~= all.skip(g));
    } else {
        let gk = g * k;
        assert(gk == samples.len()) by (nonlinear_arith)
            requires
                gk == g * k,
                g == 80 * tcs.len(),
                samples.len() == 80 * k * tcs.len(),
        ;
        assert((gk * UNIT + spb) / 0x1_0000_0000 == gk + k);
        assert(all.skip(g) =~= Seq::<u8>::empty());
    }
}

/// A recording of the words of any timecodes is read bit by bit and word by word as
/// what was put into it: at six or more whole samples a bit, on any amplitude that
/// reaches the threshold and from whatever levels its words start, every word is
/// found where it was put, none besides, and each timecode whose fields fit their
/// binary coded digits is read back.
pub proof fn law_recording_is_read_back(
    samples: Seq<i64>,
    tcs: Seq<Timecode>,
    drop_frame: bool,
    starts: Seq<i8>,
    amplitude: i64,
    threshold: u64,
    k: int,
)
    requires
        6 <= k,
        k * UNIT <= u128::MAX,
        0 < amplitude < i64::MAX,
        threshold <= amplitude,
        is_recording(samples, tcs, drop_frame, starts, amplitude, k),
        0 < tcs.len(),
        80 * tcs.len() <= usize::MAX,
    ensures
        ({
            let bits = bits_from(samples, (k * UNIT) as u128, 0, threshold);
            &&& bits == stream_bits(tcs, drop_frame)
            &&& frame_search(bits).0 == tcs.len() as u32
            &&& frame_search(bits).2 == Seq::new(tcs.len(), |j: int| (80 * j) as usize)
            &&& forall|j: int|
                0 <= j < tcs.len() && tcs[j].frames < 40 && tcs[j].seconds < 80 && tcs[j].minutes
                    < 80 && tcs[j].hours < 40 ==> timecode_at(bits, 80 * j) == #[trigger] tcs[j]
        }),
{
    let bits = stream_bits(tcs, drop_frame);
    lemma_bits_of_recording(samples, tcs, drop_frame, starts, amplitude, threshold, k, 0);
    assert(0 * k * UNIT == 0) by (nonlinear_arith);
    assert(bits.skip(0) =~= bits);
    lemma_stream_words(tcs, drop_frame);
    law_word_stream_found(bits, tcs, drop_frame);
}

} // verus!
