//! Start timecodes of recordings: lookup by time and sample references.

use vstd::prelude::*;

use crate::ltc_decoder::FrameTimecode;
use crate::timecode::{FrameRate, Timecode};

verus! {

/// The timecode at which an output starts.
#[derive(Clone, Copy, Debug, PartialEq, Eq, Structural)]
pub struct TimecodeMetadata {
    pub start: Timecode,
    pub fps: FrameRate,
    pub drop_frame: bool,
}

// ── Lookup ─────────────────────────────────────────────────────────────────

/// Frames in the order of their times.
pub open spec fn in_time_order(frames: Seq<FrameTimecode>) -> bool {
    forall|i: int, j: int|
        0 <= i <= j < frames.len() ==> frames[i].timecode_nanos <= frames[j].timecode_nanos
}

/// How far a frame is from a point in time.
pub open spec fn distance(frame: FrameTimecode, offset: int) -> int {
    if frame.timecode_nanos <= offset {
        offset - frame.timecode_nanos
    } else {
        frame.timecode_nanos - offset
    }
}

/// No frame is closer to a point in time than number `i`, and none behind it is
/// as close.
pub open spec fn is_closest(frames: Seq<FrameTimecode>, offset: int, i: int) -> bool {
    &&& 0 <= i < frames.len()
    &&& forall|k: int|
        0 <= k < frames.len() ==> distance(frames[i], offset) <= distance(
            #[trigger] frames[k],
            offset,
        )
    &&& forall|k: int|
        i < k < frames.len() ==> distance(frames[i], offset) < distance(
            #[trigger] frames[k],
            offset,
        )
}

/// The timecode of the frame that is closest to `offset_nanos`; the last one
/// where several are. `None` where there is no frame.
pub fn find_timecode_at_offset(timecodes: &[FrameTimecode], offset_nanos: i64) -> (r: Option<
    Timecode,
>)
    requires
        in_time_order(timecodes@),
    ensures
        r is None <==> timecodes@.len() == 0,
        r matches Some(tc) ==> exists|i: int|
            #[trigger] is_closest(timecodes@, offset_nanos as int, i) && timecodes@[i].timecode == tc,
{
    let n: usize = timecodes.len();
    if n == 0 {
        return None;
    }
    let mut low: usize = 0;
    let mut high: usize = n;
    while low < high
        invariant
            low <= high <= n,
            n == timecodes@.len(),
            in_time_order(timecodes@),
            forall|k: int| 0 <= k < low ==> (#[trigger] timecodes@[k]).timecode_nanos <= offset_nanos,
            forall|k: int| high <= k < n ==> (#[trigger] timecodes@[k]).timecode_nanos > offset_nanos,
        decreases high - low,
    {
        let mid: usize = low + (high - low) / 2;
        if timecodes[mid].timecode_nanos <= offset_nanos {
            low = mid + 1;
        } else {
            high = mid;
        }
    }
    if low == 0 {
        let i: usize = last_at(timecodes, 0);
        assert(is_closest(timecodes@, offset_nanos as int, i as int));
        return Some(timecodes[i].timecode);
    }
    if low == n || offset_nanos as i128 - (timecodes[low - 1].timecode_nanos as i128)
        < timecodes[low].timecode_nanos as i128 - offset_nanos as i128 {
        assert(is_closest(timecodes@, offset_nanos as int, low - 1));
        return Some(timecodes[low - 1].timecode);
    }
    let i: usize = last_at(timecodes, low);
    assert(is_closest(timecodes@, offset_nanos as int, i as int));
    Some(timecodes[i].timecode)
}

/// The last frame at the time of frame `i`.
fn last_at(timecodes: &[FrameTimecode], i: usize) -> (r: usize)
    requires
        i < timecodes@.len(),
        in_time_order(timecodes@),
    ensures
        i <= r < timecodes@.len(),
        timecodes@[r as int].timecode_nanos == timecodes@[i as int].timecode_nanos,
        forall|k: int|
            r < k < timecodes@.len() ==> (#[trigger] timecodes@[k]).timecode_nanos
                > timecodes@[i as int].timecode_nanos,
{
    let n: usize = timecodes.len();
    let mut r: usize = i;
    while r + 1 < n && timecodes[r + 1].timecode_nanos == timecodes[i].timecode_nanos
        invariant
            i <= r < n,
            n == timecodes@.len(),
            timecodes@[r as int].timecode_nanos == timecodes@[i as int].timecode_nanos,
        decreases n - r,
    {
        r += 1;
    }
    r
}

// ── Sample references ──────────────────────────────────────────────────────

/// The time of day of a timecode in seconds, times the frame rate's numerator.
pub open spec fn scaled_seconds(tc: TimecodeMetadata) -> int {
    (tc.start.hours * 3600 + tc.start.minutes * 60 + tc.start.seconds) * tc.fps.num
        + tc.start.frames * tc.fps.den
}

/// The samples from midnight to a timecode, rounded to a whole number.
pub open spec fn reference_samples(tc: TimecodeMetadata, sample_rate: u32) -> int {
    (2 * (scaled_seconds(tc) * sample_rate) + tc.fps.num) / (2 * tc.fps.num as int)
}

/// The samples from midnight to a timecode, rounded to a whole number and held
/// to the range of the result.
pub fn time_reference_samples(tc: &TimecodeMetadata, sample_rate: u32) -> (r: u64)
    requires
        tc.fps.num > 0,
    ensures
        r == if reference_samples(*tc, sample_rate) <= u64::MAX {
            reference_samples(*tc, sample_rate)
        } else {
            u64::MAX as int
        },
{
    let num: u128 = tc.fps.num as u128;
    let den: u128 = tc.fps.den as u128;
    let secs: u128 = tc.start.hours as u128 * 3600 + tc.start.minutes as u128 * 60
        + tc.start.seconds as u128;
    let frames: u128 = tc.start.frames as u128;
    let rate: u128 = sample_rate as u128;
    assert(secs <= 0x1000_0000_0000u128);
    assert(secs * num <= 0x1000_0000_0000u128 * 0x1_0000_0000u128) by (nonlinear_arith)
        requires
            secs <= 0x1000_0000_0000u128,
            num <= 0xffff_ffffu128,
    ;
    assert(frames * den <= 0x1_0000_0000u128 * 0x1_0000_0000u128) by (nonlinear_arith)
        requires
            frames <= 0xffff_ffffu128,
            den <= 0xffff_ffffu128,
    ;
    let scaled: u128 = secs * num + frames * den;
    assert(scaled == scaled_seconds(*tc));
    assert(scaled <= 0x2000_0000_0000_0000_0000u128);
    assert(scaled * rate <= 0x2000_0000_0000_0000_0000u128 * 0x1_0000_0000u128) by (nonlinear_arith)
        requires
            scaled <= 0x2000_0000_0000_0000_0000u128,
            rate <= 0xffff_ffffu128,
    ;
    let product: u128 = scaled * rate;
    let samples: u128 = (2 * product + num) / (2 * num);
    assert(samples == reference_samples(*tc, sample_rate));
    if samples <= u64::MAX as u128 {
        samples as u64
    } else {
        u64::MAX
    }
}

/// The reference is within half a sample of the time of day.
pub proof fn law_reference_rounds(tc: TimecodeMetadata, sample_rate: u32)
    requires
        tc.fps.num > 0,
    ensures
        2 * reference_samples(tc, sample_rate) * tc.fps.num <= 2 * scaled_seconds(tc) * sample_rate
            + tc.fps.num,
        2 * scaled_seconds(tc) * sample_rate < 2 * reference_samples(tc, sample_rate) * tc.fps.num
            + tc.fps.num,
{
    let x = scaled_seconds(tc) * sample_rate;
    let n = tc.fps.num as int;
    let q = reference_samples(tc, sample_rate);
    assert(2 * n * q <= 2 * x + n < 2 * n * q + 2 * n) by (nonlinear_arith)
        requires
            n > 0,
            q == (2 * x + n) / (2 * n),
    ;
    assert(2 * q * n == 2 * n * q) by (nonlinear_arith);
    assert(2 * scaled_seconds(tc) * sample_rate == 2 * x) by (nonlinear_arith)
        requires
            x == scaled_seconds(tc) * sample_rate,
    ;
}

} // verus!
