//! Moving the parts of the start timecode up and down.

use vstd::prelude::*;

use crate::state::Transport;
use crate::timecode::{FrameRate, Timecode};

verus! {

/// The number with the same bits as `n`, read with a sign.
pub open spec fn signed(n: u32) -> int {
    if n > i32::MAX {
        n - 0x1_0000_0000
    } else {
        n as int
    }
}

/// `n` moved by `delta` on a circle of `count` values.
pub open spec fn stepped(n: u32, delta: i32, count: nat) -> u32 {
    ((signed(n) + delta) % (count as int)) as u32
}

/// The frames that a second of this rate is rounded to, at least one.
pub open spec fn frames_in_second(fps: FrameRate) -> nat {
    let n = (2 * fps.num + fps.den) / (2 * fps.den as int);
    if n < 1 {
        1
    } else {
        n as nat
    }
}

fn step(n: u32, delta: i32, count: u32) -> (r: u32)
    requires
        count > 0,
    ensures
        r == stepped(n, delta, count as nat),
{
    let m: i64 = if n > 0x7fff_ffff {
        n as i64 - 0x1_0000_0000
    } else {
        n as i64
    };
    let c: i64 = count as i64;
    let moved: i64 = m + delta as i64;
    // Shifted by a multiple of `count` that makes it positive.
    let up: i64 = if moved < 0 {
        let times: i64 = -moved / c + 1;
        proof {
            let p = -(moved as int);
            let cc = c as int;
            assert(p / cc * cc <= p < (p / cc + 1) * cc) by (nonlinear_arith)
                requires
                    p >= 0,
                    cc > 0,
            ;
            assert((p / cc + 1) * cc == p / cc * cc + cc) by (nonlinear_arith);
            assert(times * c == (p / cc + 1) * cc);
            vstd::arithmetic::div_mod::lemma_mod_multiples_vanish(p / cc + 1, moved as int, cc);
            assert(cc * (p / cc + 1) == (p / cc + 1) * cc) by (nonlinear_arith);
        }
        moved + times * c
    } else {
        moved
    };
    (up % c) as u32
}

/// Moves the hour of the start timecode.
pub fn stepper_hour(t: &mut Transport, delta: i32)
    ensures
        *final(t) == hour_stepped(*old(t), delta),
{
    t.start_timecode.hours = step(t.start_timecode.hours, delta, 24);
}

/// The transport with another hour at the start.
pub open spec fn hour_stepped(t: Transport, delta: i32) -> Transport {
    let tc = t.start_timecode;
    Transport { start_timecode: Timecode { hours: stepped(tc.hours, delta, 24), ..tc }, ..t }
}

/// Moves the minute of the start timecode.
pub fn stepper_minute(t: &mut Transport, delta: i32)
    ensures
        *final(t) == minute_stepped(*old(t), delta),
{
    t.start_timecode.minutes = step(t.start_timecode.minutes, delta, 60);
}

/// The transport with another minute at the start.
pub open spec fn minute_stepped(t: Transport, delta: i32) -> Transport {
    let tc = t.start_timecode;
    Transport { start_timecode: Timecode { minutes: stepped(tc.minutes, delta, 60), ..tc }, ..t }
}

/// Moves the second of the start timecode.
pub fn stepper_second(t: &mut Transport, delta: i32)
    ensures
        *final(t) == second_stepped(*old(t), delta),
{
    t.start_timecode.seconds = step(t.start_timecode.seconds, delta, 60);
}

/// The transport with another second at the start.
pub open spec fn second_stepped(t: Transport, delta: i32) -> Transport {
    let tc = t.start_timecode;
    Transport { start_timecode: Timecode { seconds: stepped(tc.seconds, delta, 60), ..tc }, ..t }
}

/// Moves the frame of the start timecode within a second of the chosen rate.
pub fn stepper_frame(t: &mut Transport, delta: i32)
    requires
        old(t).fps.valid(),
    ensures
        *final(t) == frame_stepped(*old(t), delta),
{
    let num: u64 = t.fps.num as u64;
    let den: u64 = t.fps.den as u64;
    let n: u64 = (2 * num + den) / (2 * den);
    assert(n <= 0xffff_ffff) by (nonlinear_arith)
        requires
            num <= 0xffff_ffff,
            1 <= den <= 0xffff_ffff,
            n == (2 * num + den) / (2 * den),
    ;
    let count: u32 = if n < 1 {
        1
    } else {
        n as u32
    };
    t.start_timecode.frames = step(t.start_timecode.frames, delta, count);
}

/// The transport with another frame at the start.
pub open spec fn frame_stepped(t: Transport, delta: i32) -> Transport {
    let tc = t.start_timecode;
    Transport {
        start_timecode: Timecode { frames: stepped(tc.frames, delta, frames_in_second(t.fps)), ..tc },
        ..t
    }
}

/// A step forward undoes a step back, and the other way round, for a value on the
/// circle.
pub proof fn law_steps_undo(n: u32, delta: i32, count: nat)
    requires
        n < count <= i32::MAX,
        delta > i32::MIN,
    ensures
        stepped(n, delta, count) < count,
        stepped(stepped(n, delta, count), (-delta) as i32, count) == n,
{
    let c = count as int;
    let m = n + delta;
    assert(0 <= m % c < c);
    let s = stepped(n, delta, count);
    assert(s == m % c);
    vstd::arithmetic::div_mod::lemma_fundamental_div_mod(m, c);
    let q = m / c;
    assert(s - delta == c * (-q) + n) by (nonlinear_arith)
        requires
            m == c * q + s,
            m == n + delta,
    ;
    vstd::arithmetic::div_mod::lemma_mod_multiples_vanish(-q, n as int, c);
    assert(n as int % c == n) by (nonlinear_arith)
        requires
            0 <= n < c,
    ;
}

} // verus!
