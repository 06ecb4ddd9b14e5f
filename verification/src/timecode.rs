//! SMPTE timecodes: counting frames forwards and backwards, drop-frame rules
//! and the notation used on command lines.

use vstd::prelude::*;

use crate::text::push_padded2;

verus! {

/// A position on the 24 hour clock, counted in frames.
#[derive(Clone, Copy, Debug, PartialEq, Eq, Structural)]
pub struct Timecode {
    pub hours: u32,
    pub minutes: u32,
    pub seconds: u32,
    pub frames: u32,
}

/// A frame rate of `num / den` frames per second.
#[derive(Clone, Copy, Debug, PartialEq, Eq, Structural)]
pub struct FrameRate {
    pub num: u32,
    pub den: u32,
}

impl FrameRate {
    /// A positive rate.
    pub open spec fn valid(self) -> bool {
        self.num > 0 && self.den > 0
    }

    /// The number of frame labels in one second: the rate rounded up.
    pub open spec fn labels(self) -> nat {
        ((self.num as int + self.den as int - 1) / (self.den as int)) as nat
    }

    /// The rate rounded up to whole frames per second.
    pub fn nominal(&self) -> (r: u32)
        requires
            self.den > 0,
        ensures
            r == self.labels(),
    {
        let n: u64 = self.num as u64;
        let d: u64 = self.den as u64;
        let q: u64 = (n + d - 1) / d;
        proof {
            assert(q <= n) by (nonlinear_arith)
                requires
                    d >= 1,
                    q == (n + d - 1) / (d as int),
            ;
        }
        q as u32
    }
}

impl Timecode {
    /// Every field within its clock range, with `labels` frames per second.
    pub open spec fn in_range(self, labels: nat) -> bool {
        self.hours < 24 && self.minutes < 60 && self.seconds < 60 && self.frames < labels
    }

    /// Drop-frame counting leaves out frames 0 and 1 of every minute that is
    /// not a multiple of ten.
    pub open spec fn dropped_label(self) -> bool {
        self.minutes % 10 != 0 && self.seconds == 0 && self.frames < 2
    }
}

// ── Counting forwards ──────────────────────────────────────────────────────

/// The first frame label of a minute.
pub open spec fn first_label(minute: int, drop_frame: bool) -> u32 {
    if drop_frame && minute % 10 != 0 {
        2
    } else {
        0
    }
}

/// The label one frame after `tc`.
pub open spec fn next_timecode(tc: Timecode, labels: nat, drop_frame: bool) -> Timecode {
    if tc.frames + 1 < labels {
        Timecode { frames: (tc.frames + 1) as u32, ..tc }
    } else if tc.seconds + 1 < 60 {
        Timecode { seconds: (tc.seconds + 1) as u32, frames: 0, ..tc }
    } else if tc.minutes + 1 < 60 {
        Timecode {
            minutes: (tc.minutes + 1) as u32,
            seconds: 0,
            frames: first_label(tc.minutes + 1, drop_frame),
            ..tc
        }
    } else {
        Timecode {
            hours: if tc.hours + 1 < 24 { (tc.hours + 1) as u32 } else { 0 },
            minutes: 0,
            seconds: 0,
            frames: first_label(0, drop_frame),
        }
    }
}

/// No field has to be counted past the range of its type to reach the next label.
pub open spec fn countable(tc: Timecode, labels: nat) -> bool {
    &&& tc.frames < u32::MAX
    &&& tc.frames + 1 >= labels ==> tc.seconds < u32::MAX
    &&& tc.frames + 1 >= labels && tc.seconds + 1 >= 60 ==> tc.minutes < u32::MAX
    &&& tc.frames + 1 >= labels && tc.seconds + 1 >= 60 && tc.minutes + 1 >= 60 ==> tc.hours
        < u32::MAX
}

/// Advances a timecode by one frame at the given frame rate.
///
/// Drop-frame counting skips frames 0 and 1 at the start of each minute except
/// the minutes divisible by ten.
pub fn increment_timecode(tc: &Timecode, fps: FrameRate, drop_frame: bool) -> (r: Timecode)
    requires
        fps.den > 0,
        countable(*tc, fps.labels()),
    ensures
        r == next_timecode(*tc, fps.labels(), drop_frame),
{
    let max_frames: u32 = fps.nominal();
    let mut h: u32 = tc.hours;
    let mut m: u32 = tc.minutes;
    let mut s: u32 = tc.seconds;
    let mut f: u32 = tc.frames + 1;
    if f >= max_frames {
        f = 0;
        s += 1;
        if s >= 60 {
            s = 0;
            m += 1;
            if m >= 60 {
                m = 0;
                h += 1;
                if h >= 24 {
                    h = 0;
                }
            }
            if drop_frame && m % 10 != 0 {
                f = 2;
            }
        }
    }
    Timecode { hours: h, minutes: m, seconds: s, frames: f }
}

// ── Counting backwards ─────────────────────────────────────────────────────

/// The last label of the minute before the one `tc` is in.
pub open spec fn end_of_previous_minute(tc: Timecode, labels: nat) -> Timecode {
    let (h, m) = if tc.minutes > 0 {
        (tc.hours, (tc.minutes - 1) as u32)
    } else if tc.hours == 0 {
        (23u32, 59u32)
    } else {
        ((tc.hours - 1) as u32, 59u32)
    };
    Timecode { hours: h, minutes: m, seconds: 59, frames: (labels - 1) as u32 }
}

/// The label one frame before `tc`; a dropped label steps to the last label of
/// the previous minute.
pub open spec fn previous_timecode(tc: Timecode, labels: nat, drop_frame: bool) -> Timecode {
    if drop_frame && tc.dropped_label() {
        end_of_previous_minute(tc, labels)
    } else if tc.frames > 0 {
        Timecode { frames: (tc.frames - 1) as u32, ..tc }
    } else if tc.seconds > 0 {
        Timecode { seconds: (tc.seconds - 1) as u32, frames: (labels - 1) as u32, ..tc }
    } else {
        end_of_previous_minute(tc, labels)
    }
}

/// Steps a timecode back by one frame at the given frame rate.
///
/// Frames 0 and 1 do not exist in drop-frame minutes that are not divisible by
/// ten: stepping back from one of them lands on the last frame of the previous
/// minute.
pub fn decrement_timecode_frame(tc: &Timecode, fps: FrameRate, drop_frame: bool) -> (r: Timecode)
    requires
        fps.valid(),
    ensures
        r == previous_timecode(*tc, fps.labels(), drop_frame),
{
    let max_frames: u32 = fps.nominal();
    proof {
        lemma_labels_positive(fps);
    }
    let mut h: u32 = tc.hours;
    let mut m: u32 = tc.minutes;
    let mut s: u32 = tc.seconds;
    let mut f: u32 = tc.frames;
    if (drop_frame && s == 0 && m % 10 != 0 && f <= 1) || (f == 0 && s == 0) {
        if m > 0 {
            m -= 1;
        } else {
            m = 59;
            h = if h == 0 {
                23
            } else {
                h - 1
            };
        }
        s = 59;
        f = max_frames - 1;
    } else if f > 0 {
        f -= 1;
    } else {
        s -= 1;
        f = max_frames - 1;
    }
    Timecode { hours: h, minutes: m, seconds: s, frames: f }
}

pub proof fn lemma_labels_positive(fps: FrameRate)
    requires
        fps.valid(),
    ensures
        fps.labels() >= 1,
{
    let n = fps.num as int;
    let d = fps.den as int;
    assert((n + d - 1) / d >= 1) by (nonlinear_arith)
        requires
            n >= 1,
            d >= 1,
    ;
}

/// `tc` stepped back `frames` times.
pub open spec fn stepped_back(tc: Timecode, frames: nat, labels: nat, drop_frame: bool) -> Timecode
    decreases frames,
{
    if frames == 0 {
        tc
    } else {
        stepped_back(previous_timecode(tc, labels, drop_frame), (frames - 1) as nat, labels, drop_frame)
    }
}

/// The number of frames in `nanos` nanoseconds, rounded to the nearest, halves up.
pub open spec fn frames_in(nanos: nat, fps: FrameRate) -> nat {
    let unit: int = fps.den * 1_000_000_000;
    ((2 * nanos * fps.num + unit) / (2 * unit)) as nat
}

/// Shifts a timecode back by `delta_nanos` nanoseconds worth of frames.
///
/// A delta or a rate that is not positive leaves the timecode as it is.
pub fn shift_timecode_back(
    tc: &Timecode,
    delta_nanos: i64,
    fps: FrameRate,
    drop_frame: bool,
) -> (r: Timecode)
    requires
        fps.den > 0,
    ensures
        delta_nanos <= 0 || fps.num == 0 ==> r == *tc,
        delta_nanos > 0 && fps.num > 0 ==> r == stepped_back(
            *tc,
            frames_in(delta_nanos as nat, fps),
            fps.labels(),
            drop_frame,
        ),
{
    let mut out = *tc;
    if delta_nanos <= 0 || fps.num == 0 {
        return out;
    }
    let unit: u128 = fps.den as u128 * 1_000_000_000u128;
    proof {
        assert((delta_nanos as int) * (fps.num as int) <= 0x7fff_ffff_ffff_ffff * 0xffff_ffff)
            by (nonlinear_arith)
            requires
                0 <= delta_nanos as int <= 0x7fff_ffff_ffff_ffff,
                0 <= fps.num as int <= 0xffff_ffff,
        ;
        assert(2 * (delta_nanos as int) * (fps.num as int) == 2 * ((delta_nanos as int) * (
        fps.num as int))) by (nonlinear_arith);
    }
    let product: u128 = (delta_nanos as u128) * (fps.num as u128);
    let total: u128 = (2 * product + unit) / (2 * unit);
    let mut left: u128 = total;
    while left > 0
        invariant
            fps.valid(),
            stepped_back(out, left as nat, fps.labels(), drop_frame) == stepped_back(
                *tc,
                total as nat,
                fps.labels(),
                drop_frame,
            ),
        decreases left,
    {
        out = decrement_timecode_frame(&out, fps, drop_frame);
        left -= 1;
    }
    out
}

// ── Notation ───────────────────────────────────────────────────────────────

/// `HH:MM:SS:FF`, with `;` before the frames of a drop-frame timecode.
pub open spec fn timecode_text(tc: Timecode, drop_frame: bool) -> Seq<char> {
    crate::text::padded2(tc.hours as nat) + seq![':'] + crate::text::padded2(tc.minutes as nat)
        + seq![':'] + crate::text::padded2(tc.seconds as nat) + seq![
        if drop_frame { ';' } else { ':' },
    ] + crate::text::padded2(tc.frames as nat)
}

/// Formats a timecode as the argument of `-timecode`.
pub fn format_ffmpeg_timecode(tc: &Timecode, drop_frame: bool) -> (r: String)
    ensures
        r@ == timecode_text(*tc, drop_frame),
{
    let mut r = String::new();
    push_padded2(&mut r, tc.hours as u64);
    r.push(':');
    push_padded2(&mut r, tc.minutes as u64);
    r.push(':');
    push_padded2(&mut r, tc.seconds as u64);
    r.push(if drop_frame {
        ';'
    } else {
        ':'
    });
    push_padded2(&mut r, tc.frames as u64);
    assert(r@ =~= timecode_text(*tc, drop_frame));
    r
}

// ── Laws ───────────────────────────────────────────────────────────────────

/// The number of labels before `tc` on its clock, every label counted.
pub open spec fn label_number(tc: Timecode, labels: nat) -> int {
    ((tc.hours * 60 + tc.minutes) * 60 + tc.seconds) * labels + tc.frames
}

/// The number of frames before `tc` in drop-frame counting: two labels are
/// missing for every minute begun that is not a multiple of ten.
pub open spec fn drop_frame_number(tc: Timecode, labels: nat) -> int {
    let minutes = tc.hours * 60 + tc.minutes;
    label_number(tc, labels) - 2 * (minutes - minutes / 10)
}

/// Counting forwards stays on the clock.
pub proof fn law_increment_in_range(tc: Timecode, labels: nat, drop_frame: bool)
    requires
        tc.in_range(labels),
        labels >= 3,
        labels <= u32::MAX,
    ensures
        next_timecode(tc, labels, drop_frame).in_range(labels),
        drop_frame ==> !(tc.dropped_label()) ==> !next_timecode(tc, labels, drop_frame).dropped_label(),
{
}

/// Without drop-frame counting every step advances the label number by one,
/// and the last label of the day is followed by the first.
pub proof fn law_increment_counts_labels(tc: Timecode, labels: nat)
    requires
        tc.in_range(labels),
        labels <= u32::MAX,
    ensures
        label_number(next_timecode(tc, labels, false), labels) == if label_number(tc, labels) + 1
            == 86400 * labels {
            0
        } else {
            label_number(tc, labels) + 1
        },
        label_number(tc, labels) < 86400 * labels,
{
    let n = next_timecode(tc, labels, false);
    let secs = (tc.hours * 60 + tc.minutes) * 60 + tc.seconds;
    let nsecs = (n.hours * 60 + n.minutes) * 60 + n.seconds;
    assert(label_number(tc, labels) == secs * labels + tc.frames);
    assert(label_number(n, labels) == nsecs * labels + n.frames);
    lemma_second_bound(secs, labels);
    if tc.frames + 1 < labels {
        assert(nsecs == secs);
    } else if secs == 86399 {
        assert(nsecs == 0);
        assert(nsecs * labels == 0) by (nonlinear_arith)
            requires
                nsecs == 0,
        ;
    } else {
        assert(nsecs == secs + 1);
        lemma_second_bound(secs + 1, labels);
    }
}

proof fn lemma_second_bound(secs: int, labels: nat)
    requires
        0 <= secs < 86400,
        labels > 0,
    ensures
        (secs + 1) * labels == secs * labels + labels,
        secs * labels + labels <= 86400 * labels,
{
    assert((secs + 1) * labels == secs * labels + labels) by (nonlinear_arith);
    assert(secs * labels <= 86399 * labels) by (nonlinear_arith)
        requires
            secs <= 86399,
            labels > 0,
    ;
}

/// With drop-frame counting every step from an existing label advances the
/// number of frames by exactly one until the day is over: labels are dropped,
/// frames are not.
pub proof fn law_increment_counts_drop_frames(tc: Timecode, labels: nat)
    requires
        tc.in_range(labels),
        3 <= labels <= u32::MAX,
        !tc.dropped_label(),
        !(tc.hours == 23 && tc.minutes == 59 && tc.seconds == 59 && tc.frames + 1 == labels),
    ensures
        drop_frame_number(next_timecode(tc, labels, true), labels) == drop_frame_number(tc, labels)
            + 1,
{
    let n = next_timecode(tc, labels, true);
    let secs = (tc.hours * 60 + tc.minutes) * 60 + tc.seconds;
    let nsecs = (n.hours * 60 + n.minutes) * 60 + n.seconds;
    assert(label_number(tc, labels) == secs * labels + tc.frames);
    assert(label_number(n, labels) == nsecs * labels + n.frames);
    lemma_second_bound(secs, labels);
    if tc.frames + 1 >= labels {
        assert(nsecs == secs + 1);
    } else {
        assert(nsecs == secs);
    }
    let a = tc.hours * 60 + tc.minutes;
    let b = n.hours * 60 + n.minutes;
    assert(n.minutes % 10 == b % 10);
    assert(b == a || b == a + 1);
}

/// Stepping back undoes stepping forward, except onto the first frame of a
/// minute whose first two labels are dropped.
pub proof fn law_decrement_inverts_increment(tc: Timecode, labels: nat, drop_frame: bool)
    requires
        tc.in_range(labels),
        labels >= 1,
        labels <= u32::MAX,
        drop_frame ==> labels >= 3,
        drop_frame ==> !tc.dropped_label(),
        drop_frame ==> !(tc.seconds == 59 && tc.frames + 1 == labels && (tc.minutes + 1) % 10 != 0),
    ensures
        previous_timecode(next_timecode(tc, labels, drop_frame), labels, drop_frame) == tc,
{
}

/// `tc` advanced `frames` times.
pub open spec fn stepped_forward(tc: Timecode, frames: nat, labels: nat, drop_frame: bool) -> Timecode
    decreases frames,
{
    if frames == 0 {
        tc
    } else {
        next_timecode(stepped_forward(tc, (frames - 1) as nat, labels, drop_frame), labels, drop_frame)
    }
}

/// Without drop-frame counting, shifting back by as many frames as were
/// counted forwards gives the timecode back.
pub proof fn law_shift_back_inverts_counting(tc: Timecode, frames: nat, labels: nat)
    requires
        tc.in_range(labels),
        labels <= u32::MAX,
    ensures
        stepped_forward(tc, frames, labels, false).in_range(labels),
        stepped_back(stepped_forward(tc, frames, labels, false), frames, labels, false) == tc,
    decreases frames,
{
    if frames > 0 {
        law_shift_back_inverts_counting(tc, (frames - 1) as nat, labels);
        let before = stepped_forward(tc, (frames - 1) as nat, labels, false);
        law_decrement_inverts_increment(before, labels, false);
    }
}

/// Without drop-frame counting one step back lowers the label number by one; before
/// the first label of the day comes the last.
proof fn lemma_back_one(tc: Timecode, labels: nat)
    requires
        tc.in_range(labels),
        labels <= u32::MAX,
    ensures
        previous_timecode(tc, labels, false).in_range(labels),
        label_number(previous_timecode(tc, labels, false), labels) == if label_number(tc, labels)
            == 0 {
            86400 * labels - 1
        } else {
            label_number(tc, labels) - 1
        },
        0 <= label_number(tc, labels) < 86400 * labels,
{
    let p = previous_timecode(tc, labels, false);
    let secs = (tc.hours * 60 + tc.minutes) * 60 + tc.seconds;
    let before = (p.hours * 60 + p.minutes) * 60 + p.seconds;
    assert(label_number(tc, labels) == secs * labels + tc.frames);
    assert(label_number(p, labels) == before * labels + p.frames);
    lemma_second_bound(secs, labels);
    assert(secs * labels >= 0) by (nonlinear_arith)
        requires
            secs >= 0,
            labels >= 0,
    ;
    if tc.frames > 0 {
        assert(before == secs);
    } else if secs > 0 {
        assert(before == secs - 1);
        lemma_second_bound(secs - 1, labels);
        assert(secs * labels > 0);
    } else {
        assert(before == 86399);
        assert(secs * labels == 0) by (nonlinear_arith)
            requires
                secs == 0,
        ;
        lemma_second_bound(86399, labels);
        assert(86400 * labels == 86399 * labels + labels);
    }
}

/// `a` lies `n` labels before `b` on a clock with `day` labels that starts anew.
pub open spec fn lies_before(a: int, b: int, n: int, day: int) -> bool {
    exists|days: int| 0 <= days && #[trigger] (days * day) + b - a == n
}

/// Without drop-frame counting, stepping back leads exactly so many labels back on
/// the clock of the day.
pub proof fn law_back_by_labels(tc: Timecode, frames: nat, labels: nat)
    requires
        tc.in_range(labels),
        labels <= u32::MAX,
    ensures
        stepped_back(tc, frames, labels, false).in_range(labels),
        lies_before(
            label_number(stepped_back(tc, frames, labels, false), labels),
            label_number(tc, labels),
            frames as int,
            (86400 * labels) as int,
        ),
    decreases frames,
{
    let day = (86400 * labels) as int;
    if frames == 0 {
        assert(0 * day == 0);
    } else {
        let p = previous_timecode(tc, labels, false);
        lemma_back_one(tc, labels);
        law_back_by_labels(p, (frames - 1) as nat, labels);
        let a = label_number(stepped_back(tc, frames, labels, false), labels);
        let days = choose|days: int|
            0 <= days && #[trigger] (days * day) + label_number(p, labels) - a == frames - 1;
        if label_number(tc, labels) == 0 {
            assert((days + 1) * day == days * day + day) by (nonlinear_arith);
        } else {
            assert(days * day + label_number(tc, labels) - a == frames);
        }
    }
}

/// The number of labels before `tc` where counting back leaves out one label in every
/// minute that drops two: frame 0.
pub open spec fn back_number(tc: Timecode, labels: nat) -> int {
    let minutes = tc.hours * 60 + tc.minutes;
    label_number(tc, labels) - (minutes - minutes / 10)
}

/// The label is met when counting back: it is not frame 0 of a minute that drops two.
pub open spec fn met_back(tc: Timecode) -> bool {
    !(tc.minutes % 10 != 0 && tc.seconds == 0 && tc.frames == 0)
}

proof fn lemma_drop_back_one(tc: Timecode, labels: nat)
    requires
        tc.in_range(labels),
        3 <= labels <= u32::MAX,
        met_back(tc),
    ensures
        previous_timecode(tc, labels, true).in_range(labels),
        met_back(previous_timecode(tc, labels, true)),
        back_number(previous_timecode(tc, labels, true), labels) == if tc.hours == 0 && tc.minutes
            == 0 && tc.seconds == 0 && tc.frames == 0 {
            86400 * labels - 1297
        } else {
            back_number(tc, labels) - 1
        },
        tc.hours == 0 && tc.minutes == 0 && tc.seconds == 0 && tc.frames == 0 ==> back_number(
            tc,
            labels,
        ) == 0,
{
    let p = previous_timecode(tc, labels, true);
    let secs = (tc.hours * 60 + tc.minutes) * 60 + tc.seconds;
    let before = (p.hours * 60 + p.minutes) * 60 + p.seconds;
    assert(label_number(tc, labels) == secs * labels + tc.frames);
    assert(label_number(p, labels) == before * labels + p.frames);
    lemma_second_bound(secs, labels);
    let m = tc.hours * 60 + tc.minutes;
    let n = p.hours * 60 + p.minutes;
    assert(tc.minutes % 10 == m % 10);
    if before == secs {
        assert(p.frames == tc.frames - 1);
        assert(n == m);
    } else if secs > 0 {
        assert(before == secs - 1);
        lemma_second_bound(secs - 1, labels);
        assert(n == m || n == m - 1);
        if n == m - 1 {
            if tc.minutes % 10 != 0 {
                assert(tc.frames == 1);
                assert(m / 10 == n / 10);
            } else {
                assert(tc.frames == 0);
                assert(m / 10 == n / 10 + 1);
            }
        }
    } else {
        assert(before == 86399);
        assert(m == 0);
        assert(n == 1439);
        lemma_second_bound(86399, labels);
        assert(secs * labels == 0) by (nonlinear_arith)
            requires
                secs == 0,
        ;
        assert(86400 * labels == 86399 * labels + labels);
    }
}

/// With drop-frame counting, stepping back leads exactly so many labels back among
/// those that are met when counting back.
pub proof fn law_back_by_drop_labels(tc: Timecode, frames: nat, labels: nat)
    requires
        tc.in_range(labels),
        3 <= labels <= u32::MAX,
        met_back(tc),
    ensures
        stepped_back(tc, frames, labels, true).in_range(labels),
        met_back(stepped_back(tc, frames, labels, true)),
        lies_before(
            back_number(stepped_back(tc, frames, labels, true), labels),
            back_number(tc, labels),
            frames as int,
            86400 * labels - 1296,
        ),
    decreases frames,
{
    let day = 86400 * labels - 1296;
    if frames == 0 {
        assert(0 * day == 0);
    } else {
        let p = previous_timecode(tc, labels, true);
        lemma_drop_back_one(tc, labels);
        law_back_by_drop_labels(p, (frames - 1) as nat, labels);
        let a = back_number(stepped_back(tc, frames, labels, true), labels);
        let days = choose|days: int|
            0 <= days && #[trigger] (days * day) + back_number(p, labels) - a == frames - 1;
        if tc.hours == 0 && tc.minutes == 0 && tc.seconds == 0 && tc.frames == 0 {
            assert((days + 1) * day == days * day + day) by (nonlinear_arith);
        } else {
            assert(days * day + back_number(tc, labels) - a == frames);
        }
    }
}

/// `n` is the number of frames in a time, to the nearest: it is off by half a frame at
/// most.
pub open spec fn is_nearest_count(n: int, nanos: int, fps: FrameRate) -> bool {
    let frame = 1_000_000_000 * fps.den;
    let exact = nanos * fps.num;
    2 * (n * frame) <= 2 * exact + frame && 2 * exact < 2 * (n * frame) + frame
}

/// Frames are counted to the nearest.
pub proof fn law_frames_are_nearest(nanos: nat, fps: FrameRate)
    requires
        fps.den > 0,
    ensures
        is_nearest_count(frames_in(nanos, fps) as int, nanos as int, fps),
{
    let unit = fps.den * 1_000_000_000;
    let exact = nanos * fps.num;
    let x = 2 * nanos * fps.num + unit;
    assert(x == 2 * exact + unit) by (nonlinear_arith)
        requires
            x == 2 * nanos * fps.num + unit,
            exact == nanos * fps.num,
    ;
    assert(exact >= 0) by (nonlinear_arith)
        requires
            exact == nanos * fps.num,
            nanos >= 0,
            fps.num >= 0,
    ;
    let q = x / (2 * unit);
    vstd::arithmetic::div_mod::lemma_fundamental_div_mod(x, 2 * unit);
    vstd::arithmetic::div_mod::lemma_mod_bound(x, 2 * unit);
    assert((2 * unit) * q == 2 * (q * unit)) by (nonlinear_arith);
    assert(q >= 0) by (nonlinear_arith)
        requires
            q == x / (2 * unit),
            x >= 0,
            unit > 0,
    ;
    assert(frames_in(nanos, fps) == q);
}

} // verus!
