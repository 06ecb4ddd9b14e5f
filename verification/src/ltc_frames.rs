//! Finding linear timecode words in a stream of bits and reading them.

use vstd::prelude::*;

use crate::ltc_encoder::{bit_of, sync_bit, word, word_bit};
use crate::timecode::Timecode;

verus! {

/// The offset of the sync word in a timecode word.
pub const SYNC_OFFSET: usize = 64;

/// How many bits of a sync word may be wrong.
pub const SYNC_MATCH_TOLERANCE: u32 = 2;

// ── Sync word ──────────────────────────────────────────────────────────────

/// How many of the first `n` bits differ from the sync word.
pub open spec fn mismatches(bits: Seq<u8>, n: int) -> nat
    decreases n,
{
    if n <= 0 {
        0
    } else {
        mismatches(bits, n - 1) + if bits[n - 1] != sync_bit(n - 1) {
            1nat
        } else {
            0nat
        }
    }
}

/// Counts the bits that differ from the sync word; counting stops as soon as
/// the tolerance is exceeded.
pub fn bits_hamming_distance_16(a: &[u8]) -> (dist: u32)
    requires
        a@.len() <= 16,
    ensures
        mismatches(a@, a@.len() as int) <= SYNC_MATCH_TOLERANCE ==> dist == mismatches(
            a@,
            a@.len() as int,
        ),
        mismatches(a@, a@.len() as int) > SYNC_MATCH_TOLERANCE ==> dist == SYNC_MATCH_TOLERANCE + 1,
{
    let mut dist: u32 = 0;
    let mut i: usize = 0;
    while i < a.len()
        invariant
            i <= a@.len() <= 16,
            dist == mismatches(a@, i as int),
            dist <= SYNC_MATCH_TOLERANCE,
        decreases a@.len() - i,
    {
        let expected: u8 = if i == 0 || i == 1 || i == 14 {
            0
        } else {
            1
        };
        if a[i] != expected {
            dist += 1;
            if dist > SYNC_MATCH_TOLERANCE {
                proof {
                    lemma_mismatches_ascend(a@, i + 1, a@.len() as int);
                }
                return dist;
            }
        }
        i += 1;
    }
    dist
}

proof fn lemma_mismatches_ascend(bits: Seq<u8>, m: int, n: int)
    requires
        m <= n,
    ensures
        mismatches(bits, m) <= mismatches(bits, n),
    decreases n - m,
{
    if m < n {
        lemma_mismatches_ascend(bits, m, n - 1);
    }
}

/// A sync word, up to the tolerance, starts at bit `i`.
pub open spec fn sync_at(bits: Seq<u8>, i: int) -> bool {
    &&& 0 <= i
    &&& i + 16 <= bits.len()
    &&& mismatches(bits.subrange(i, i + 16), 16) <= SYNC_MATCH_TOLERANCE
}

fn has_sync(bits: &[u8], i: usize) -> (r: bool)
    requires
        i + 16 <= bits@.len(),
    ensures
        r == sync_at(bits@, i as int),
{
    let n: usize = bits.len();
    assert(i + 16 <= n);
    let part = vstd::slice::slice_subrange(bits, i, i + 16);
    bits_hamming_distance_16(part) <= SYNC_MATCH_TOLERANCE
}

// ── Frame detection ────────────────────────────────────────────────────────

/// Sync words found from bit `from` on; after each one the search goes on one
/// whole word later.
pub open spec fn sync_positions(bits: Seq<u8>, from: nat) -> Seq<usize>
    decreases bits.len() + 80 - from,
{
    if from + 16 > bits.len() {
        seq![]
    } else if sync_at(bits, from as int) {
        seq![from as usize] + sync_positions(bits, from + 80)
    } else {
        sync_positions(bits, from + 1)
    }
}

/// A sync word at `p` belongs to a word that starts at `alignment` modulo 80.
pub open spec fn votes_for(p: usize, alignment: int) -> bool {
    p >= SYNC_OFFSET && (p - SYNC_OFFSET) % 80 == alignment
}

/// How many of the sync words vote for an alignment.
pub open spec fn votes(positions: Seq<usize>, alignment: int) -> nat
    decreases positions.len(),
{
    if positions.len() == 0 {
        0
    } else {
        votes(positions.drop_last(), alignment) + if votes_for(positions.last(), alignment) {
            1nat
        } else {
            0nat
        }
    }
}

/// The alignment with the most votes, the highest one among equals.
pub open spec fn is_best_alignment(positions: Seq<usize>, best: int) -> bool {
    &&& 0 <= best < 80
    &&& forall|a: int| 0 <= a < 80 ==> #[trigger] votes(positions, a) <= votes(positions, best)
    &&& forall|a: int| best < a < 80 ==> #[trigger] votes(positions, a) < votes(positions, best)
}

/// Starts of the words on an alignment, from `start` on, that end in a sync word.
pub open spec fn frame_starts_from(bits: Seq<u8>, start: nat) -> Seq<usize>
    decreases bits.len() + 80 - start,
{
    if start + 80 > bits.len() {
        seq![]
    } else if sync_at(bits, start + SYNC_OFFSET) {
        seq![start as usize] + frame_starts_from(bits, start + 80)
    } else {
        frame_starts_from(bits, start + 80)
    }
}

/// What is found in a stream of bits: the number of words with a sync word, the
/// number of words there is room for, and where the words start.
pub open spec fn frame_search(bits: Seq<u8>) -> (u32, u32, Seq<usize>) {
    let positions = sync_positions(bits, 0);
    if exists|a: int| 0 <= a < 80 && #[trigger] votes(positions, a) > 0 {
        let best = choose|best: int| is_best_alignment(positions, best);
        let starts = frame_starts_from(bits, best as nat);
        (
            starts.len() as u32,
            if bits.len() > best {
                ((bits.len() - best) / 80) as u32
            } else {
                0
            },
            starts,
        )
    } else {
        (0, 0, seq![])
    }
}

proof fn lemma_best_alignment_unique(positions: Seq<usize>, a: int, b: int)
    requires
        is_best_alignment(positions, a),
        is_best_alignment(positions, b),
    ensures
        a == b,
{
    assert(votes(positions, a) <= votes(positions, b));
    assert(votes(positions, b) <= votes(positions, a));
}

proof fn lemma_votes_bound(positions: Seq<usize>, a: int)
    ensures
        votes(positions, a) <= positions.len(),
    decreases positions.len(),
{
    if positions.len() > 0 {
        lemma_votes_bound(positions.drop_last(), a);
    }
}

fn find_sync_positions(bits: &[u8]) -> (r: Vec<usize>)
    requires
        bits@.len() >= 16,
    ensures
        r@ == sync_positions(bits@, 0),
{
    let mut positions: Vec<usize> = Vec::new();
    let max_start: usize = bits.len() - 16;
    let mut i: usize = 0;
    let mut done: bool = false;
    while !done
        invariant
            max_start == bits@.len() - 16,
            !done ==> i <= max_start,
            !done ==> positions@ + sync_positions(bits@, i as nat) == sync_positions(bits@, 0),
            done ==> positions@ == sync_positions(bits@, 0),
        decreases (if done { 0 } else { max_start - i + 1 }),
    {
        let step: usize = if has_sync(bits, i) {
            let ghost rest = sync_positions(bits@, (i + 80) as nat);
            let ghost before = positions@;
            positions.push(i);
            assert(before + (seq![i] + rest) =~= positions@ + rest);
            80
        } else {
            1
        };
        if max_start - i < step {
            assert(sync_positions(bits@, (i + step) as nat).len() == 0);
            assert(positions@ =~= positions@ + sync_positions(bits@, (i + step) as nat));
            done = true;
        } else {
            i += step;
        }
    }
    positions
}

fn count_votes(positions: &Vec<usize>) -> (r: Vec<usize>)
    ensures
        r@.len() == 80,
        forall|a: int| 0 <= a < 80 ==> #[trigger] r@[a] == votes(positions@, a),
{
    let mut scores: Vec<usize> = Vec::new();
    while scores.len() < 80
        invariant
            scores@.len() <= 80,
            forall|a: int| 0 <= a < scores@.len() ==> #[trigger] scores@[a] == 0,
        decreases 80 - scores@.len(),
    {
        scores.push(0);
    }
    let mut k: usize = 0;
    assert(positions@.take(0).len() == 0);
    while k < positions.len()
        invariant
            k <= positions@.len(),
            scores@.len() == 80,
            forall|a: int|
                0 <= a < 80 ==> #[trigger] scores@[a] == votes(positions@.take(k as int), a),
        decreases positions@.len() - k,
    {
        let p: usize = positions[k];
        proof {
            assert(positions@.take(k + 1).drop_last() =~= positions@.take(k as int));
            assert(positions@.take(k + 1).last() == p);
        }
        if p >= SYNC_OFFSET {
            let a: usize = (p - SYNC_OFFSET) % 80;
            proof {
                lemma_votes_bound(positions@.take(k as int), a as int);
            }
            let updated: usize = scores[a] + 1;
            scores.set(a, updated);
        }
        k += 1;
    }
    assert(positions@.take(k as int) =~= positions@);
    scores
}

/// Searches a stream of bits for timecode words.
///
/// Every sync word, up to the tolerance, votes for the alignment of the word it
/// would end. The words on the alignment with the most votes that end in a sync
/// word are the frames found. Returns how many there are, how many words fit on
/// that alignment, and where the frames start.
pub fn find_frames(bits: &[u8]) -> (r: (u32, u32, Vec<usize>))
    ensures
        (r.0, r.1, r.2@) == frame_search(bits@),
        r.0 == r.2@.len() as u32,
        forall|k: int|
            0 <= k < r.2@.len() ==> (#[trigger] r.2@[k]) + 80 <= bits@.len() && sync_at(
                bits@,
                r.2@[k] + SYNC_OFFSET,
            ),
{
    if bits.len() < 16 {
        assert(forall|a: int| #[trigger] votes(sync_positions(bits@, 0), a) == 0);
        let none: Vec<usize> = Vec::new();
        assert(none@ =~= seq![]);
        return (0, 0, none);
    }
    let positions = find_sync_positions(bits);
    let scores = count_votes(&positions);
    let mut best: usize = 0;
    let mut a: usize = 1;
    while a < 80
        invariant
            1 <= a <= 80,
            best < a,
            scores@.len() == 80,
            forall|k: int| 0 <= k < a ==> #[trigger] scores@[k] <= scores@[best as int],
            forall|k: int| best < k < a ==> #[trigger] scores@[k] < scores@[best as int],
        decreases 80 - a,
    {
        if scores[a] >= scores[best] {
            best = a;
        }
        a += 1;
    }
    assert forall|k: int| 0 <= k < 80 implies #[trigger] votes(positions@, k) <= votes(
        positions@,
        best as int,
    ) by {
        assert(scores@[k] <= scores@[best as int]);
    }
    assert forall|k: int| best < k < 80 implies #[trigger] votes(positions@, k) < votes(
        positions@,
        best as int,
    ) by {
        assert(scores@[k] < scores@[best as int]);
    }
    assert(is_best_alignment(positions@, best as int));
    proof {
        let chosen = choose|b: int| is_best_alignment(positions@, b);
        lemma_best_alignment_unique(positions@, chosen, best as int);
    }
    if scores[best] == 0 {
        let none: Vec<usize> = Vec::new();
        assert(none@ =~= seq![]);
        return (0, 0, none);
    }
    assert(votes(positions@, best as int) > 0);
    let possible: u32 = if bits.len() > best {
        ((bits.len() - best) / 80) as u32
    } else {
        0
    };
    let mut starts: Vec<usize> = Vec::new();
    let mut start: usize = best;
    let mut done: bool = bits.len() < 80 || bits.len() - 80 < start;
    while !done
        invariant
            !done ==> start + 80 <= bits@.len(),
            !done ==> starts@ + frame_starts_from(bits@, start as nat) == frame_starts_from(
                bits@,
                best as nat,
            ),
            done ==> starts@ == frame_starts_from(bits@, best as nat),
            forall|k: int|
                0 <= k < starts@.len() ==> (#[trigger] starts@[k]) + 80 <= bits@.len() && sync_at(
                    bits@,
                    starts@[k] + SYNC_OFFSET,
                ),
        decreases (if done { 0 } else { bits@.len() - start }),
    {
        let len: usize = bits.len();
        assert(start + 80 <= len);
        let ghost rest = frame_starts_from(bits@, (start + 80) as nat);
        let ghost before = starts@;
        if has_sync(bits, start + SYNC_OFFSET) {
            starts.push(start);
            assert(before + (seq![start] + rest) =~= starts@ + rest);
        }
        if bits.len() - start < 160 {
            assert(rest.len() == 0);
            assert(starts@ =~= starts@ + rest);
            done = true;
        } else {
            start += 80;
        }
    }
    (starts.len() as u32, possible, starts)
}

// ── Reading a word ─────────────────────────────────────────────────────────

/// The number whose bits, least significant first, are the first `n` of `bits`.
pub open spec fn packed(bits: Seq<u8>, n: int) -> u8
    decreases n,
{
    if n <= 0 {
        0
    } else {
        packed(bits, n - 1) | (bits[n - 1] << ((n - 1) as u8))
    }
}

/// Reads up to eight bits, least significant first.
pub fn bits_to_u8(slice: &[u8]) -> (r: u8)
    requires
        slice@.len() <= 8,
    ensures
        r == packed(slice@, slice@.len() as int),
{
    let mut acc: u8 = 0;
    let mut i: usize = 0;
    while i < slice.len()
        invariant
            i <= slice@.len() <= 8,
            acc == packed(slice@, i as int),
        decreases slice@.len() - i,
    {
        acc = acc | (slice[i] << (i as u8));
        i += 1;
    }
    acc
}

/// The number in bits `from..from + n`.
pub open spec fn field(bits: Seq<u8>, from: int, n: int) -> u8 {
    packed(bits.subrange(from, from + n), n)
}

/// A decimal number whose units and tens are binary fields.
pub open spec fn decimal_field(bits: Seq<u8>, units: int, tens: int, tens_bits: int) -> int {
    field(bits, tens, tens_bits) * 10 + field(bits, units, 4)
}

fn read_field(bits: &[u8], from: usize, n: usize) -> (r: u8)
    requires
        n <= 8,
        from + n <= bits@.len(),
    ensures
        r == field(bits@, from as int, n as int),
{
    let len: usize = bits.len();
    assert(from + n <= len);
    bits_to_u8(vstd::slice::slice_subrange(bits, from, from + n))
}

/// The fields of the word at `start` are small enough to be read.
pub open spec fn readable(bits: Seq<u8>, start: int) -> bool {
    &&& 0 <= start
    &&& start + 80 <= bits.len()
    &&& decimal_field(bits, start, start + 8, 2) <= u8::MAX
    &&& decimal_field(bits, start + 16, start + 24, 3) <= u8::MAX
    &&& decimal_field(bits, start + 32, start + 40, 3) <= u8::MAX
    &&& decimal_field(bits, start + 48, start + 56, 2) <= u8::MAX
}

/// The timecode in the word at `start`.
pub open spec fn timecode_at(bits: Seq<u8>, start: int) -> Timecode {
    Timecode {
        hours: decimal_field(bits, start + 48, start + 56, 2) as u32,
        minutes: decimal_field(bits, start + 32, start + 40, 3) as u32,
        seconds: decimal_field(bits, start + 16, start + 24, 3) as u32,
        frames: decimal_field(bits, start, start + 8, 2) as u32,
    }
}

/// Reads the timecode of the word that starts at `frame_start`.
pub fn decode_timecode_from_bits(bits: &[u8], frame_start: usize) -> (r: Timecode)
    requires
        readable(bits@, frame_start as int),
    ensures
        r == timecode_at(bits@, frame_start as int),
{
    let len: usize = bits.len();
    assert(frame_start + 80 <= len);
    let frames: u8 = read_field(bits, frame_start + 8, 2) * 10 + read_field(bits, frame_start, 4);
    let seconds: u8 = read_field(bits, frame_start + 24, 3) * 10 + read_field(
        bits,
        frame_start + 16,
        4,
    );
    let minutes: u8 = read_field(bits, frame_start + 40, 3) * 10 + read_field(
        bits,
        frame_start + 32,
        4,
    );
    let hours: u8 = read_field(bits, frame_start + 56, 2) * 10 + read_field(
        bits,
        frame_start + 48,
        4,
    );
    Timecode {
        hours: hours as u32,
        minutes: minutes as u32,
        seconds: seconds as u32,
        frames: frames as u32,
    }
}

proof fn lemma_packed_value(bits: Seq<u8>, n: int)
    requires
        0 <= n <= 4,
        n <= bits.len(),
        forall|i: int| 0 <= i < n ==> #[trigger] bits[i] <= 1,
    ensures
        packed(bits, n) == (if n > 0 { bits[0] as int } else { 0 }) + (if n > 1 {
            2 * bits[1]
        } else {
            0
        }) + (if n > 2 {
            4 * bits[2]
        } else {
            0
        }) + (if n > 3 {
            8 * bits[3]
        } else {
            0
        }),
{
    reveal_with_fuel(packed, 5);
    let b0 = if n > 0 { bits[0] } else { 0u8 };
    let b1 = if n > 1 { bits[1] } else { 0u8 };
    let b2 = if n > 2 { bits[2] } else { 0u8 };
    let b3 = if n > 3 { bits[3] } else { 0u8 };
    assert(0u8 | (b0 << 0u8) == b0 && (b0 | (b1 << 1u8)) == b0 + 2 * b1 && ((b0 | (b1 << 1u8)) | (b2
        << 2u8)) == b0 + 2 * b1 + 4 * b2 && (((b0 | (b1 << 1u8)) | (b2 << 2u8)) | (b3 << 3u8)) == b0
        + 2 * b1 + 4 * b2 + 8 * b3) by (bit_vector)
        requires
            b0 <= 1,
            b1 <= 1,
            b2 <= 1,
            b3 <= 1,
    ;
}

/// Bits that are zeros and ones always make a readable word.
pub proof fn lemma_binary_readable(bits: Seq<u8>, start: int)
    requires
        0 <= start,
        start + 80 <= bits.len(),
        forall|i: int| start <= i < start + 80 ==> #[trigger] bits[i] <= 1,
    ensures
        readable(bits, start),
{
    lemma_packed_value(bits.subrange(start, start + 4), 4);
    lemma_packed_value(bits.subrange(start + 8, start + 10), 2);
    lemma_packed_value(bits.subrange(start + 16, start + 20), 4);
    lemma_packed_value(bits.subrange(start + 24, start + 27), 3);
    lemma_packed_value(bits.subrange(start + 32, start + 36), 4);
    lemma_packed_value(bits.subrange(start + 40, start + 43), 3);
    lemma_packed_value(bits.subrange(start + 48, start + 52), 4);
    lemma_packed_value(bits.subrange(start + 56, start + 58), 2);
}

// ── Laws ───────────────────────────────────────────────────────────────────

proof fn lemma_bits_sum(v: u32)
    ensures
        bit_of(v, 0) <= 1,
        bit_of(v, 1) <= 1,
        bit_of(v, 2) <= 1,
        bit_of(v, 3) <= 1,
        v < 4 ==> bit_of(v, 0) + 2 * bit_of(v, 1) == v,
        v < 8 ==> bit_of(v, 0) + 2 * bit_of(v, 1) + 4 * bit_of(v, 2) == v,
        v < 16 ==> bit_of(v, 0) + 2 * bit_of(v, 1) + 4 * bit_of(v, 2) + 8 * bit_of(v, 3) == v,
{
    assert(((v >> 0u32) & 1) <= 1 && ((v >> 1u32) & 1) <= 1 && ((v >> 2u32) & 1) <= 1 && ((v
        >> 3u32) & 1) <= 1 && (v < 4 ==> ((v >> 0u32) & 1) + 2 * ((v >> 1u32) & 1) == v) && (v < 8
        ==> ((v >> 0u32) & 1) + 2 * ((v >> 1u32) & 1) + 4 * ((v >> 2u32) & 1) == v) && (v < 16
        ==> ((v >> 0u32) & 1) + 2 * ((v >> 1u32) & 1) + 4 * ((v >> 2u32) & 1) + 8 * ((v >> 3u32)
        & 1) == v)) by (bit_vector);
}

/// Every bit of a word is 0 or 1.
pub proof fn lemma_word_binary(tc: Timecode, drop_frame: bool)
    ensures
        word(tc, drop_frame).len() == 80,
        forall|i: int| 0 <= i < 80 ==> #[trigger] word(tc, drop_frame)[i] <= 1,
{
    assert forall|i: int| 0 <= i < 80 implies #[trigger] word(tc, drop_frame)[i] <= 1 by {
        lemma_bits_sum((tc.frames % 10) as u32);
        lemma_bits_sum((tc.frames / 10) as u32);
        lemma_bits_sum((tc.seconds % 10) as u32);
        lemma_bits_sum((tc.seconds / 10) as u32);
        lemma_bits_sum((tc.minutes % 10) as u32);
        lemma_bits_sum((tc.minutes / 10) as u32);
        lemma_bits_sum((tc.hours % 10) as u32);
        lemma_bits_sum((tc.hours / 10) as u32);
    }
}

/// Every word ends in the exact sync word, whatever the timecode.
pub proof fn law_word_ends_in_sync(tc: Timecode, drop_frame: bool)
    ensures
        word(tc, drop_frame).len() == 80,
        forall|i: int| 0 <= i < 16 ==> #[trigger] word(tc, drop_frame)[SYNC_OFFSET + i] == sync_bit(i),
        sync_at(word(tc, drop_frame), SYNC_OFFSET as int),
{
    let w = word(tc, drop_frame);
    assert forall|i: int| 0 <= i < 16 implies #[trigger] w[SYNC_OFFSET + i] == sync_bit(i) by {}
    lemma_exact_sync(w.subrange(64, 80), 16);
}

proof fn lemma_exact_sync(bits: Seq<u8>, n: int)
    requires
        0 <= n <= bits.len(),
        forall|i: int| 0 <= i < n ==> #[trigger] bits[i] == sync_bit(i),
    ensures
        mismatches(bits, n) == 0,
    decreases n,
{
    if n > 0 {
        lemma_exact_sync(bits, n - 1);
    }
}

proof fn lemma_field_value(bits: Seq<u8>, w: Seq<u8>, start: int, from: int, n: int, v: u32)
    requires
        0 <= start,
        0 <= from,
        2 <= n <= 4,
        from + n <= 80,
        start + 80 <= bits.len(),
        w.len() == 80,
        forall|i: int| 0 <= i < 80 ==> #[trigger] bits[start + i] == w[i],
        forall|i: int| 0 <= i < n ==> #[trigger] w[from + i] == bit_of(v, i),
        n == 2 ==> v < 4,
        n == 3 ==> v < 8,
        n == 4 ==> v < 16,
    ensures
        field(bits, start + from, n) == v,
{
    let part = bits.subrange(start + from, start + from + n);
    lemma_bits_sum(v);
    assert forall|i: int| 0 <= i < n implies #[trigger] part[i] == bit_of(v, i) by {
        assert(part[i] == bits[start + (from + i)]);
        assert(w[from + i] == bit_of(v, i));
    }
    assert(part[0] == bit_of(v, 0) && part[1] == bit_of(v, 1));
    assert(n > 2 ==> part[2] == bit_of(v, 2));
    assert(n > 3 ==> part[3] == bit_of(v, 3));
    lemma_packed_value(part, n);
}

/// Reading a word gives back the timecode it was built from, wherever in a
/// stream of bits the word stands, for every timecode whose fields fit their
/// binary coded digits.
pub proof fn law_word_round_trip(bits: Seq<u8>, start: int, tc: Timecode, drop_frame: bool)
    requires
        0 <= start,
        start + 80 <= bits.len(),
        bits.subrange(start, start + 80) == word(tc, drop_frame),
        tc.frames < 40,
        tc.seconds < 80,
        tc.minutes < 80,
        tc.hours < 40,
    ensures
        readable(bits, start),
        timecode_at(bits, start) == tc,
        sync_at(bits, start + SYNC_OFFSET),
{
    let w = word(tc, drop_frame);
    let part = bits.subrange(start, start + 80);
    assert forall|i: int| 0 <= i < 80 implies #[trigger] bits[start + i] == w[i] by {
        assert(part[i] == w[i]);
    }
    lemma_word_binary(tc, drop_frame);
    assert forall|i: int| start <= i < start + 80 implies #[trigger] bits[i] <= 1 by {
        assert(bits[start + (i - start)] == w[i - start]);
    }
    lemma_binary_readable(bits, start);
    lemma_field_value(bits, w, start, 0, 4, (tc.frames % 10) as u32);
    lemma_field_value(bits, w, start, 8, 2, (tc.frames / 10) as u32);
    lemma_field_value(bits, w, start, 16, 4, (tc.seconds % 10) as u32);
    lemma_field_value(bits, w, start, 24, 3, (tc.seconds / 10) as u32);
    lemma_field_value(bits, w, start, 32, 4, (tc.minutes % 10) as u32);
    lemma_field_value(bits, w, start, 40, 3, (tc.minutes / 10) as u32);
    lemma_field_value(bits, w, start, 48, 4, (tc.hours % 10) as u32);
    lemma_field_value(bits, w, start, 56, 2, (tc.hours / 10) as u32);
    law_word_ends_in_sync(tc, drop_frame);
    assert(bits.subrange(start + SYNC_OFFSET, start + SYNC_OFFSET + 16) =~= w.subrange(64, 80));
}

/// A stream that is made of the words for `tcs`, one after another.
pub open spec fn is_word_stream(bits: Seq<u8>, tcs: Seq<Timecode>, drop_frame: bool) -> bool {
    &&& bits.len() == 80 * tcs.len()
    &&& forall|j: int|
        0 <= j < tcs.len() ==> bits.subrange(80 * j, 80 * j + 80) == #[trigger] word(
            tcs[j],
            drop_frame,
        )
}

proof fn lemma_three_mismatches(bits: Seq<u8>, a: int, b: int, c: int, n: int)
    requires
        0 <= a < b < c,
        bits[a] != sync_bit(a),
        bits[b] != sync_bit(b),
        bits[c] != sync_bit(c),
    ensures
        mismatches(bits, n) >= (if n > a { 1nat } else { 0nat }) + (if n > b { 1nat } else { 0nat })
            + (if n > c { 1nat } else { 0nat }),
    decreases n,
{
    if n > 0 {
        lemma_three_mismatches(bits, a, b, c, n - 1);
    }
}

proof fn lemma_no_false_sync(bits: Seq<u8>, start: int, tc: Timecode, drop_frame: bool, i: int)
    requires
        0 <= start,
        start + 80 <= bits.len(),
        bits.subrange(start, start + 80) == word(tc, drop_frame),
        0 <= i < 64,
    ensures
        !sync_at(bits, start + i),
{
    let w = word(tc, drop_frame);
    let part = bits.subrange(start + i, start + i + 16);
    assert forall|k: int| 0 <= k < 16 implies #[trigger] part[k] == word_bit(tc, drop_frame, i + k) by {
        assert(bits.subrange(start, start + 80)[i + k] == w[i + k]);
    }
    if i <= 51 {
        let z: int = if i <= 2 { 4 } else { 8 * ((i + 5) / 8) + 4 };
        assert(i + 2 <= z && z + 2 <= i + 13 && z + 2 <= 62);
        let a = z - i;
        assert(part[a] == word_bit(tc, drop_frame, z));
        assert(part[a + 1] == word_bit(tc, drop_frame, z + 1));
        assert(part[a + 2] == word_bit(tc, drop_frame, z + 2));
        lemma_three_mismatches(part, a, a + 1, a + 2, 16);
    } else if i < 63 {
        let k = 64 - i;
        assert(part[k] == word_bit(tc, drop_frame, 64));
        assert(part[k + 1] == word_bit(tc, drop_frame, 65));
        assert(part[14] == word_bit(tc, drop_frame, i + 14));
        if k + 1 < 14 {
            lemma_three_mismatches(part, k, k + 1, 14, 16);
        }
    } else {
        assert(part[2] == word_bit(tc, drop_frame, 65));
        assert(part[14] == word_bit(tc, drop_frame, 77));
        assert(part[15] == word_bit(tc, drop_frame, 78));
        lemma_three_mismatches(part, 2, 14, 15, 16);
    }
}

/// The sync positions of a word stream, from one sync word on.
proof fn lemma_stream_positions(bits: Seq<u8>, tcs: Seq<Timecode>, drop_frame: bool, j: int)
    requires
        is_word_stream(bits, tcs, drop_frame),
        0 <= j <= tcs.len(),
        bits.len() <= usize::MAX,
    ensures
        sync_positions(bits, (80 * j + 64) as nat) == Seq::new(
            (tcs.len() - j) as nat,
            |k: int| (80 * (j + k) + 64) as usize,
        ),
    decreases tcs.len() - j,
{
    let expected = Seq::new((tcs.len() - j) as nat, |k: int| (80 * (j + k) + 64) as usize);
    if j < tcs.len() {
        lemma_stream_positions(bits, tcs, drop_frame, j + 1);
        lemma_word_sync_in_stream(bits, tcs, drop_frame, j);
        let rest = Seq::new((tcs.len() - j - 1) as nat, |k: int| (80 * (j + 1 + k) + 64) as usize);
        assert((80 * j + 64) as nat + 80 == (80 * (j + 1) + 64) as nat);
        assert(seq![(80 * j + 64) as usize] + rest =~= expected);
    } else {
        assert(expected.len() == 0);
        assert(sync_positions(bits, (80 * j + 64) as nat) =~= expected);
    }
}

proof fn lemma_word_sync_in_stream(bits: Seq<u8>, tcs: Seq<Timecode>, drop_frame: bool, j: int)
    requires
        is_word_stream(bits, tcs, drop_frame),
        0 <= j < tcs.len(),
    ensures
        80 * j + 80 <= bits.len(),
        bits.subrange(80 * j, 80 * j + 80) == word(tcs[j], drop_frame),
        sync_at(bits, 80 * j + SYNC_OFFSET),
{
    assert(80 * j + 80 <= 80 * tcs.len()) by (nonlinear_arith)
        requires
            j + 1 <= tcs.len(),
    ;
    let w = word(tcs[j], drop_frame);
    law_word_ends_in_sync(tcs[j], drop_frame);
    assert(bits.subrange(80 * j + 64, 80 * j + 64 + 16) =~= bits.subrange(80 * j, 80 * j + 80).subrange(
        64,
        80,
    ));
}

proof fn lemma_first_sync(bits: Seq<u8>, tcs: Seq<Timecode>, drop_frame: bool, c: int)
    requires
        is_word_stream(bits, tcs, drop_frame),
        tcs.len() > 0,
        0 <= c <= 64,
    ensures
        sync_positions(bits, c as nat) == sync_positions(bits, 64),
    decreases 64 - c,
{
    if c < 64 {
        lemma_word_sync_in_stream(bits, tcs, drop_frame, 0);
        lemma_no_false_sync(bits, 0, tcs[0], drop_frame, c);
        lemma_first_sync(bits, tcs, drop_frame, c + 1);
    }
}

proof fn lemma_stream_votes(n: nat, a: int)
    requires
        80 * n <= usize::MAX,
        0 <= a < 80,
    ensures
        votes(Seq::new(n, |k: int| (80 * k + 64) as usize), a) == if a == 0 {
            n
        } else {
            0
        },
    decreases n,
{
    let s = Seq::new(n, |k: int| (80 * k + 64) as usize);
    if n > 0 {
        let m = (n - 1) as nat;
        lemma_stream_votes(m, a);
        assert(s.drop_last() =~= Seq::new(m, |k: int| (80 * k + 64) as usize));
        assert(s.last() == 80 * m + 64);
        assert((80 * m) % 80 == 0);
    }
}

proof fn lemma_stream_starts(bits: Seq<u8>, tcs: Seq<Timecode>, drop_frame: bool, j: int)
    requires
        is_word_stream(bits, tcs, drop_frame),
        0 <= j <= tcs.len(),
        bits.len() <= usize::MAX,
    ensures
        frame_starts_from(bits, (80 * j) as nat) == Seq::new(
            (tcs.len() - j) as nat,
            |k: int| (80 * (j + k)) as usize,
        ),
    decreases tcs.len() - j,
{
    let expected = Seq::new((tcs.len() - j) as nat, |k: int| (80 * (j + k)) as usize);
    if j < tcs.len() {
        lemma_stream_starts(bits, tcs, drop_frame, j + 1);
        lemma_word_sync_in_stream(bits, tcs, drop_frame, j);
        let rest = Seq::new((tcs.len() - j - 1) as nat, |k: int| (80 * (j + 1 + k)) as usize);
        assert((80 * j) as nat + 80 == (80 * (j + 1)) as nat);
        assert(seq![(80 * j) as usize] + rest =~= expected);
    } else {
        assert(frame_starts_from(bits, (80 * j) as nat) =~= expected);
    }
}

/// Searching the words of any timecodes, put one after another, finds every
/// word where it was put, and nothing else; each is read as the timecode it was
/// built from.
pub proof fn law_word_stream_found(
    bits: Seq<u8>,
    tcs: Seq<Timecode>,
    drop_frame: bool,
)
    requires
        is_word_stream(bits, tcs, drop_frame),
        bits.len() <= usize::MAX,
        tcs.len() > 0,
    ensures
        frame_search(bits).0 == tcs.len() as u32,
        frame_search(bits).1 == tcs.len() as u32,
        frame_search(bits).2 == Seq::new(tcs.len(), |j: int| (80 * j) as usize),
        forall|j: int|
            0 <= j < tcs.len() && tcs[j].frames < 40 && tcs[j].seconds < 80 && tcs[j].minutes < 80
                && tcs[j].hours < 40 ==> timecode_at(bits, 80 * j) == #[trigger] tcs[j],
{
    let n = tcs.len();
    let positions = sync_positions(bits, 0);
    lemma_first_sync(bits, tcs, drop_frame, 0);
    lemma_stream_positions(bits, tcs, drop_frame, 0);
    assert(positions =~= Seq::new(n, |k: int| (80 * k + 64) as usize));
    assert forall|a: int| 0 <= a < 80 implies #[trigger] votes(positions, a) == if a == 0 {
        n
    } else {
        0
    } by {
        lemma_stream_votes(n, a);
    }
    assert(votes(positions, 0) > 0);
    assert(is_best_alignment(positions, 0));
    lemma_best_alignment_unique(positions, choose|best: int| is_best_alignment(positions, best), 0);
    lemma_stream_starts(bits, tcs, drop_frame, 0);
    assert(frame_search(bits).2 =~= Seq::new(tcs.len(), |j: int| (80 * j) as usize));
    assert forall|j: int|
        0 <= j < tcs.len() && tcs[j].frames < 40 && tcs[j].seconds < 80 && tcs[j].minutes < 80
            && tcs[j].hours < 40 implies timecode_at(bits, 80 * j) == #[trigger] tcs[j] by {
        lemma_word_sync_in_stream(bits, tcs, drop_frame, j);
        law_word_round_trip(bits, 80 * j, tcs[j], drop_frame);
    }
}

// ── Streams without their first and last bit ───────────────────────────────

/// A stretch of a stream has the sync words of the stream.
proof fn lemma_sync_in_stretch(bits: Seq<u8>, i: int)
    requires
        bits.len() >= 2,
        0 <= i,
        i + 18 <= bits.len(),
    ensures
        sync_at(bits.subrange(1, bits.len() - 1), i) == sync_at(bits, i + 1),
{
    let inner = bits.subrange(1, bits.len() - 1);
    assert(inner.subrange(i, i + 16) =~= bits.subrange(i + 1, i + 17));
}

proof fn lemma_inner_first_sync(bits: Seq<u8>, tcs: Seq<Timecode>, drop_frame: bool, c: int)
    requires
        is_word_stream(bits, tcs, drop_frame),
        tcs.len() >= 3,
        0 <= c <= 63,
    ensures
        sync_positions(bits.subrange(1, bits.len() - 1), c as nat) == sync_positions(
            bits.subrange(1, bits.len() - 1),
            63,
        ),
    decreases 63 - c,
{
    if c < 63 {
        lemma_word_sync_in_stream(bits, tcs, drop_frame, 0);
        lemma_no_false_sync(bits, 0, tcs[0], drop_frame, c + 1);
        lemma_sync_in_stretch(bits, c);
        lemma_inner_first_sync(bits, tcs, drop_frame, c + 1);
    }
}

proof fn lemma_inner_positions(bits: Seq<u8>, tcs: Seq<Timecode>, drop_frame: bool, j: int)
    requires
        is_word_stream(bits, tcs, drop_frame),
        0 <= j < tcs.len(),
        bits.len() <= usize::MAX,
    ensures
        sync_positions(bits.subrange(1, bits.len() - 1), (80 * j + 63) as nat) == Seq::new(
            (tcs.len() - 1 - j) as nat,
            |k: int| (80 * (j + k) + 63) as usize,
        ),
    decreases tcs.len() - j,
{
    let inner = bits.subrange(1, bits.len() - 1);
    let expected = Seq::new((tcs.len() - 1 - j) as nat, |k: int| (80 * (j + k) + 63) as usize);
    if j < tcs.len() - 1 {
        lemma_inner_positions(bits, tcs, drop_frame, j + 1);
        lemma_word_sync_in_stream(bits, tcs, drop_frame, j);
        lemma_word_sync_in_stream(bits, tcs, drop_frame, j + 1);
        lemma_sync_in_stretch(bits, 80 * j + 63);
        let rest = Seq::new((tcs.len() - 2 - j) as nat, |k: int| (80 * (j + 1 + k) + 63) as usize);
        assert((80 * j + 63) as nat + 80 == (80 * (j + 1) + 63) as nat);
        assert(seq![(80 * j + 63) as usize] + rest =~= expected);
    } else {
        assert(80 * j + 63 + 16 > inner.len());
        assert(sync_positions(inner, (80 * j + 63) as nat) =~= expected);
    }
}

proof fn lemma_inner_votes(n: nat, a: int)
    requires
        80 * n <= usize::MAX,
        0 <= a < 80,
    ensures
        votes(Seq::new(n, |k: int| (80 * k + 63) as usize), a) == if a == 79 && n >= 1 {
            n - 1
        } else {
            0
        },
    decreases n,
{
    let s = Seq::new(n, |k: int| (80 * k + 63) as usize);
    if n > 0 {
        let m = (n - 1) as nat;
        lemma_inner_votes(m, a);
        assert(s.drop_last() =~= Seq::new(m, |k: int| (80 * k + 63) as usize));
        assert(s.last() == 80 * m + 63);
        assert(m >= 1 ==> (80 * m - 1) % 80 == 79);
    }
}

proof fn lemma_inner_starts(bits: Seq<u8>, tcs: Seq<Timecode>, drop_frame: bool, j: int)
    requires
        is_word_stream(bits, tcs, drop_frame),
        1 <= j < tcs.len(),
        bits.len() <= usize::MAX,
    ensures
        frame_starts_from(bits.subrange(1, bits.len() - 1), (80 * j - 1) as nat) == Seq::new(
            (tcs.len() - 1 - j) as nat,
            |k: int| (80 * (j + k) - 1) as usize,
        ),
    decreases tcs.len() - j,
{
    let inner = bits.subrange(1, bits.len() - 1);
    let expected = Seq::new((tcs.len() - 1 - j) as nat, |k: int| (80 * (j + k) - 1) as usize);
    if j < tcs.len() - 1 {
        lemma_inner_starts(bits, tcs, drop_frame, j + 1);
        lemma_word_sync_in_stream(bits, tcs, drop_frame, j);
        lemma_word_sync_in_stream(bits, tcs, drop_frame, j + 1);
        lemma_sync_in_stretch(bits, 80 * j + 63);
        let rest = Seq::new((tcs.len() - 2 - j) as nat, |k: int| (80 * (j + 1 + k) - 1) as usize);
        assert((80 * j - 1) as nat + 80 == (80 * (j + 1) - 1) as nat);
        assert(seq![(80 * j - 1) as usize] + rest =~= expected);
    } else {
        assert(frame_starts_from(inner, (80 * j - 1) as nat) =~= expected);
    }
}

/// Searching the words of any timecodes, of which the first and the last bit were
/// lost, finds every word but the first and the last one, and nothing else; each is
/// read as the timecode it was built from.
pub proof fn law_inner_words_found(bits: Seq<u8>, tcs: Seq<Timecode>, drop_frame: bool)
    requires
        is_word_stream(bits, tcs, drop_frame),
        bits.len() <= usize::MAX,
        tcs.len() >= 3,
    ensures
        ({
            let inner = bits.subrange(1, bits.len() - 1);
            &&& frame_search(inner).0 == (tcs.len() - 2) as u32
            &&& frame_search(inner).1 == (tcs.len() - 2) as u32
            &&& frame_search(inner).2 == Seq::new(
                (tcs.len() - 2) as nat,
                |j: int| (80 * (j + 1) - 1) as usize,
            )
            &&& forall|j: int|
                0 < j < tcs.len() - 1 && tcs[j].frames < 40 && tcs[j].seconds < 80 && tcs[j].minutes
                    < 80 && tcs[j].hours < 40 ==> timecode_at(inner, 80 * j - 1) == #[trigger] tcs[j]
        }),
{
    let n = tcs.len();
    let inner = bits.subrange(1, bits.len() - 1);
    let positions = sync_positions(inner, 0);
    lemma_inner_first_sync(bits, tcs, drop_frame, 0);
    lemma_inner_positions(bits, tcs, drop_frame, 0);
    assert(positions =~= Seq::new((n - 1) as nat, |k: int| (80 * k + 63) as usize));
    assert forall|a: int| 0 <= a < 80 implies #[trigger] votes(positions, a) == if a == 79 {
        n - 2
    } else {
        0
    } by {
        lemma_inner_votes((n - 1) as nat, a);
    }
    assert(votes(positions, 79) > 0);
    assert(is_best_alignment(positions, 79));
    lemma_best_alignment_unique(positions, choose|best: int| is_best_alignment(positions, best), 79);
    lemma_inner_starts(bits, tcs, drop_frame, 1);
    assert(frame_starts_from(inner, 79) =~= Seq::new(
        (n - 2) as nat,
        |j: int| (80 * (j + 1) - 1) as usize,
    ));
    assert forall|j: int|
        0 < j < tcs.len() - 1 && tcs[j].frames < 40 && tcs[j].seconds < 80 && tcs[j].minutes < 80
            && tcs[j].hours < 40 implies timecode_at(inner, 80 * j - 1) == #[trigger] tcs[j] by {
        lemma_word_sync_in_stream(bits, tcs, drop_frame, j);
        lemma_word_sync_in_stream(bits, tcs, drop_frame, j + 1);
        assert(inner.subrange(80 * j - 1, 80 * j - 1 + 80) =~= bits.subrange(80 * j, 80 * j + 80));
        law_word_round_trip(inner, 80 * j - 1, tcs[j], drop_frame);
    }
}

} // verus!
