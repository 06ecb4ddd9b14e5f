//! What reading and showing times promises: the number that a text spells, the share of
//! a whole, and how long a recording is.

use vstd::prelude::*;

use crate::command_lines::{law_time_text, tells_seconds};
use crate::duration::{clock_text, group_nanos, samples_nanos, total, whole_seconds};
use crate::keyframes::{
    decimal_nanos, exponent_mark, fraction_nanos, keyframe_args, point_moved, point_nanos,
    point_parts, unsigned, with_zeros, zeros,
};
use crate::progress::{after_line, clock_micros, Run};
use crate::settings::RecordingType;
use crate::text::{
    all_digits, decimal, digits_value, number, padded2, split_upto,
};
use crate::text_laws::{law_decimal_spells, law_padded_spells, spells_number, worth_upto};

verus! {

// ── Digits ─────────────────────────────────────────────────────────────────

proof fn lemma_number_is_worth(s: Seq<char>, n: int)
    requires
        0 <= n <= s.len(),
        forall|i: int| 0 <= i < n ==> 48 <= (#[trigger] s[i]) as int <= 57,
    ensures
        number(s.take(n)) == worth_upto(s, n),
        worth_upto(s, n) >= 0,
    decreases n,
{
    if n > 0 {
        lemma_number_is_worth(s, n - 1);
        assert(s.take(n).drop_last() =~= s.take(n - 1));
        assert(s.take(n).last() == s[n - 1]);
    }
}

/// A text of digits is read as the number that it spells.
pub proof fn law_digits_are_read(s: Seq<char>, n: int)
    requires
        spells_number(s, n),
    ensures
        n <= u64::MAX ==> digits_value(s) == n,
        n > u64::MAX ==> digits_value(s) == u64::MAX,
{
    lemma_number_is_worth(s, s.len() as int);
    assert(s.take(s.len() as int) =~= s);
    assert(all_digits(s)) by {
        assert forall|i: int| 0 <= i < s.len() implies '0' <= #[trigger] s[i] <= '9' by {
            assert(48 <= s[i] as int <= 57);
        }
    }
}

/// Hours, minutes, seconds and a fraction are added up in microseconds.
pub proof fn law_clock_is_read(
    groups: Seq<Option<Seq<char>>>,
    h: int,
    m: int,
    s: int,
    f: int,
    unit: nat,
)
    requires
        groups.len() >= 5,
        groups[1] is Some && spells_number(groups[1]->0, h),
        groups[2] is Some && spells_number(groups[2]->0, m),
        groups[3] is Some && spells_number(groups[3]->0, s),
        groups[4] is Some && spells_number(groups[4]->0, f),
        0 <= h <= u64::MAX && 0 <= m <= u64::MAX && 0 <= s <= u64::MAX && 0 <= f <= u64::MAX,
        (3600 * h + 60 * m + s) * 1_000_000 + f * unit <= u64::MAX,
    ensures
        clock_micros(groups, unit) == (3600 * h + 60 * m + s) * 1_000_000 + f * unit,
{
    law_digits_are_read(groups[1]->0, h);
    law_digits_are_read(groups[2]->0, m);
    law_digits_are_read(groups[3]->0, s);
    law_digits_are_read(groups[4]->0, f);
}

// ── Shares ─────────────────────────────────────────────────────────────────

/// The progress of a run is the share of the duration in millionths, rounded down, and
/// the whole from the end on. The first duration that was told counts.
pub proof fn law_progress_is_the_share(run: Run, line: Seq<char>, told: Option<nat>, time: nat, d: nat)
    requires
        run.duration == Some(d) || (run.duration is None && told == Some(d)),
        d > 0,
        crate::text::trimmed(line) != "progress=end"@,
    ensures
        ({
            let after = after_line(run, line, told, Some(time));
            &&& after.duration == Some(d)
            &&& time >= d ==> after.progress == 1_000_000
            &&& time < d ==> after.progress * d <= time * 1_000_000 < (after.progress + 1) * d
            &&& after.produced <==> run.produced || time > 0
            &&& after.log == run.log + line + "\n"@
        }),
{
    if time < d {
        let x = time * 1_000_000;
        vstd::arithmetic::div_mod::lemma_fundamental_div_mod(x as int, d as int);
        vstd::arithmetic::div_mod::lemma_mod_bound(x as int, d as int);
        let q = x / d;
        assert(q * d <= x < (q + 1) * d) by (nonlinear_arith)
            requires
                x == d * q + x % d,
                0 <= x % d < d,
        ;
    }
}

/// Without a duration, and without a time, a line changes the progress only where it
/// shows that something is being written, or that the run is over.
pub proof fn law_progress_without_duration(run: Run, line: Seq<char>, time: Option<nat>)
    requires
        run.duration is None,
    ensures
        ({
            let after = after_line(run, line, None, time);
            &&& after.duration is None
            &&& after.progress == if crate::text::trimmed(line) == "progress=end"@ {
                1_000_000
            } else if time is Some && time->0 > 0 {
                10_000
            } else {
                run.progress
            }
        }),
{
}

// ── Durations ──────────────────────────────────────────────────────────────

/// A number of samples lasts the number of whole nanoseconds that fit.
pub proof fn law_samples_last(samples: u32, rate: u32)
    requires
        rate > 0,
    ensures
        samples_nanos(samples, rate) is Some,
        samples_nanos(samples, rate)->0 * rate <= samples * 1_000_000_000 < (samples_nanos(
            samples,
            rate,
        )->0 + 1) * rate,
{
    let x = samples * 1_000_000_000;
    let q = x / rate as int;
    vstd::arithmetic::div_mod::lemma_fundamental_div_mod(x, rate as int);
    vstd::arithmetic::div_mod::lemma_mod_bound(x, rate as int);
    assert(q * rate <= x < (q + 1) * rate) by (nonlinear_arith)
        requires
            x == rate * q + x % (rate as int),
            0 <= x % (rate as int) < rate,
    ;
    assert(0 <= q <= x) by (nonlinear_arith)
        requires
            q * rate <= x < (q + 1) * rate,
            rate >= 1,
            x >= 0,
    ;
}

proof fn lemma_total(durations: Seq<Option<i64>>, more: Seq<Option<i64>>, n: int)
    requires
        0 <= n <= more.len(),
    ensures
        total(durations + more, durations.len() + n) == total(
            durations,
            durations.len() as int,
        ) + total(more, n),
    decreases n,
{
    let all = durations + more;
    if n > 0 {
        lemma_total(durations, more, n - 1);
        assert(all[durations.len() + n - 1] == more[n - 1]);
    } else {
        lemma_same_total(durations, all, durations.len() as int);
    }
}

proof fn lemma_same_total(a: Seq<Option<i64>>, b: Seq<Option<i64>>, n: int)
    requires
        0 <= n <= a.len(),
        n <= b.len(),
        forall|i: int| 0 <= i < n ==> a[i] == b[i],
    ensures
        total(a, n) == total(b, n),
    decreases n,
{
    if n > 0 {
        lemma_same_total(a, b, n - 1);
    }
}

/// Clips last as long as they do one after the other: one clip as long as it lasts, one
/// whose duration is not known adds nothing, and two lists add up.
pub proof fn law_clips_add_up(a: Seq<Option<i64>>, b: Seq<Option<i64>>, d: i64)
    ensures
        total(a + b, (a + b).len() as int) == total(a, a.len() as int) + total(b, b.len() as int),
        total(seq![Some(d)], 1) == d,
        total(seq![None], 1) == 0,
        ({
            let sum = total(a, a.len() as int);
            group_nanos(RecordingType::VideoClipSequence, a) == if sum == 0 {
                None
            } else if sum > i64::MAX {
                Some(i64::MAX)
            } else if sum < i64::MIN {
                Some(i64::MIN)
            } else {
                Some(sum as i64)
            }
        }),
{
    lemma_total(a, b, b.len() as int);
    reveal_with_fuel(total, 2);
}

/// A duration is shown to the nearest second as hours, minutes and seconds; minutes and
/// seconds have two digits.
pub open spec fn shows_clock(text: Seq<char>, seconds: int) -> bool {
    exists|a: Seq<char>, b: Seq<char>, c: Seq<char>, h: int, m: int, s: int|
        {
            &&& text == a + seq![':'] + b + seq![':'] + c
            &&& #[trigger] spells_number(a, h)
            &&& #[trigger] spells_number(b, m)
            &&& #[trigger] spells_number(c, s)
            &&& 0 <= m < 60 && 0 <= s < 60
            &&& b.len() == 2 && c.len() == 2
            &&& seconds == 3600 * h + 60 * m + s
        }
}

/// A duration is shown to the nearest second; one below zero is shown as zero.
pub proof fn law_duration_is_shown(nanos: i64)
    ensures
        nanos < 0 ==> shows_clock(clock_text(whole_seconds(nanos)), 0),
        nanos >= 0 ==> exists|seconds: int| #[trigger]
            shows_clock(clock_text(whole_seconds(nanos)), seconds) && -500_000_000 < seconds
                * 1_000_000_000 - nanos <= 500_000_000,
{
    let seconds = whole_seconds(nanos);
    let h = seconds / 3600;
    let m = seconds % 3600 / 60;
    let s = seconds % 60;
    law_decimal_spells(h);
    law_padded_spells(m);
    law_padded_spells(s);
    assert(seconds == 3600 * h + 60 * m + s);
    assert(spells_number(decimal(h), h as int) && spells_number(padded2(m), m as int)
        && spells_number(padded2(s), s as int));
    assert(shows_clock(clock_text(seconds), seconds as int));
}

// ── Times as text ──────────────────────────────────────────────────────────

proof fn lemma_split_two(a: Seq<char>, b: Seq<char>, sep: char, n: int)
    requires
        !a.contains(sep),
        !b.contains(sep),
        0 <= n <= a.len() + 1 + b.len(),
    ensures
        n <= a.len() ==> split_upto(a + seq![sep] + b, sep, n) == seq![a.take(n)],
        n > a.len() ==> split_upto(a + seq![sep] + b, sep, n) == seq![a, b.take(n - a.len() - 1)],
    decreases n,
{
    let s = a + seq![sep] + b;
    if n == 0 {
        assert(a.take(0) =~= seq![]);
    } else {
        lemma_split_two(a, b, sep, n - 1);
        if n <= a.len() {
            assert(s[n - 1] == a[n - 1]);
            assert(a.contains(a[n - 1]));
            assert(a.take(n) =~= a.take(n - 1).push(a[n - 1]));
            assert(split_upto(s, sep, n) =~= seq![a.take(n)]);
        } else if n == a.len() + 1 {
            assert(s[n - 1] == sep);
            assert(a.take(a.len() as int) =~= a);
            assert(b.take(0) =~= Seq::<char>::empty());
            assert(split_upto(s, sep, n) =~= seq![a, b.take(0)]);
        } else {
            let k = n - a.len() - 1;
            assert(s[n - 1] == b[k - 1]);
            assert(b.contains(b[k - 1]));
            assert(b.take(k) =~= b.take(k - 1).push(b[k - 1]));
            assert(split_upto(s, sep, n) =~= seq![a, b.take(k)]);
        }
    }
}

proof fn lemma_split_one(a: Seq<char>, sep: char, n: int)
    requires
        !a.contains(sep),
        0 <= n <= a.len(),
    ensures
        split_upto(a, sep, n) == seq![a.take(n)],
    decreases n,
{
    if n == 0 {
        assert(a.take(0) =~= seq![]);
    } else {
        lemma_split_one(a, sep, n - 1);
        assert(a.contains(a[n - 1]));
        assert(a.take(n) =~= a.take(n - 1).push(a[n - 1]));
        assert(split_upto(a, sep, n) =~= seq![a.take(n)]);
    }
}

/// A text is digits alone.
pub open spec fn digits_only(s: Seq<char>) -> bool {
    forall|i: int| 0 <= i < s.len() ==> 48 <= (#[trigger] s[i]) as int <= 57
}

proof fn lemma_digits_only(s: Seq<char>)
    requires
        digits_only(s),
    ensures
        all_digits(s),
        !s.contains('.'),
        !s.contains('e'),
        !s.contains('E'),
{
    assert forall|i: int| 0 <= i < s.len() implies '0' <= #[trigger] s[i] <= '9' by {
        assert(48 <= s[i] as int <= 57);
    }
}

proof fn lemma_parts(whole: Seq<char>, fraction: Seq<char>)
    requires
        digits_only(whole),
        digits_only(fraction),
        whole.len() + fraction.len() > 0,
    ensures
        point_parts(whole + seq!['.'] + fraction) == Some((whole, fraction)),
        whole.len() > 0 ==> point_parts(whole) == Some((whole, Seq::<char>::empty())),
{
    lemma_digits_only(whole);
    lemma_digits_only(fraction);
    let s = whole + seq!['.'] + fraction;
    lemma_split_two(whole, fraction, '.', s.len() as int);
    assert(fraction.take(fraction.len() as int) =~= fraction);
    lemma_split_one(whole, '.', whole.len() as int);
    assert(whole.take(whole.len() as int) =~= whole);
}

proof fn lemma_no_mark(s: Seq<char>, i: int)
    requires
        0 <= i <= s.len(),
        !s.contains('e'),
        !s.contains('E'),
    ensures
        exponent_mark(s, i) == s.len(),
    decreases s.len() - i,
{
    if i < s.len() {
        assert(s.contains(s[i]));
        lemma_no_mark(s, i + 1);
    }
}

proof fn lemma_mark(s: Seq<char>, at: int, i: int)
    requires
        0 <= i <= at < s.len(),
        s[at] == 'e' || s[at] == 'E',
        forall|k: int| 0 <= k < at ==> #[trigger] s[k] != 'e' && s[k] != 'E',
    ensures
        exponent_mark(s, i) == at,
    decreases at - i,
{
    if i < at {
        assert(s[i] != 'e' && s[i] != 'E');
        lemma_mark(s, at, i + 1);
    }
}

proof fn lemma_with_zeros(value: nat, n: int)
    requires
        0 <= n <= 9,
    ensures
        with_zeros(value, n) == value * vstd::arithmetic::power::pow(10, n as nat),
    decreases n,
{
    vstd::arithmetic::power::lemma_pow0(10);
    if n > 0 {
        lemma_with_zeros(value * 10, n - 1);
        vstd::arithmetic::power::lemma_pow_adds(10, 1, (n - 1) as nat);
        vstd::arithmetic::power::lemma_pow1(10);
        let p = vstd::arithmetic::power::pow(10, (n - 1) as nat);
        assert((value * 10) * p == value * (10 * p)) by (nonlinear_arith);
    }
}

/// The plain decimal text `whole.fraction`.
pub open spec fn point_text(whole: Seq<char>, fraction: Seq<char>) -> Seq<char> {
    whole + seq!['.'] + fraction
}

#[verifier::spinoff_prover]
proof fn lemma_plain(whole: Seq<char>, fraction: Seq<char>)
    requires
        digits_only(whole),
        digits_only(fraction),
        whole.len() + fraction.len() > 0,
    ensures
        decimal_nanos(point_text(whole, fraction)) == Some(
            crate::keyframes::held(point_nanos((whole, fraction)), false),
        ),
        decimal_nanos(seq!['-'] + point_text(whole, fraction)) == Some(
            crate::keyframes::held(point_nanos((whole, fraction)), true),
        ),
{
    let s = point_text(whole, fraction);
    lemma_parts(whole, fraction);
    lemma_digits_only(whole);
    lemma_digits_only(fraction);
    assert forall|i: int| 0 <= i < s.len() implies #[trigger] s[i] != 'e' && s[i] != 'E' && s[i]
        != '-' && s[i] != '+' by {
        if i < whole.len() {
            assert(48 <= whole[i] as int <= 57);
        } else if i > whole.len() {
            assert(48 <= fraction[i - whole.len() - 1] as int <= 57);
        }
    }
    lemma_no_mark(s, 0);
    assert(s.take(s.len() as int) =~= s);
    assert(s.len() > 0 && s[0] != '-' && s[0] != '+');
    assert(unsigned(s) == s);
    let n = seq!['-'] + s;
    assert(n[0] == '-');
    assert(n.skip(1) =~= s);
    assert(unsigned(n) == s);
}

/// A decimal number of seconds is read in nanoseconds: the whole seconds, and the
/// fraction by its place; what follows the ninth decimal is cut off.
pub proof fn law_decimal_seconds(whole: Seq<char>, fraction: Seq<char>, w: int, f: int)
    requires
        spells_number(whole, w),
        spells_number(fraction, f),
        fraction.len() <= 9,
        0 <= w <= 9_000_000_000,
    ensures
        ({
            let nanos = w * 1_000_000_000 + f * vstd::arithmetic::power::pow(
                10,
                (9 - fraction.len()) as nat,
            );
            nanos <= i64::MAX ==> {
                &&& decimal_nanos(point_text(whole, fraction)) == Some(nanos as i64)
                &&& decimal_nanos(seq!['-'] + point_text(whole, fraction)) == Some(-nanos as i64)
            }
        }),
{
    lemma_plain(whole, fraction);
    law_digits_are_read(whole, w);
    lemma_worth_bound(fraction, fraction.len() as int);
    law_digits_are_read(fraction, f);
    if fraction.len() < 9 {
        lemma_with_zeros(f as nat, 9 - fraction.len());
    } else {
        assert(fraction.take(9) =~= fraction);
        vstd::arithmetic::power::lemma_pow0(10);
    }
    let p = vstd::arithmetic::power::pow(10, (9 - fraction.len()) as nat);
    vstd::arithmetic::power::lemma_pow_positive(10, (9 - fraction.len()) as nat);
    assert(f * p >= 0) by (nonlinear_arith)
        requires
            f >= 0,
            p > 0,
    ;
}

proof fn lemma_worth_bound(s: Seq<char>, n: int)
    requires
        0 <= n <= s.len(),
        n <= 9,
        digits_only(s),
    ensures
        0 <= worth_upto(s, n) < vstd::arithmetic::power::pow(10, n as nat),
        worth_upto(s, n) < 1_000_000_000,
    decreases n,
{
    vstd::arithmetic::power::lemma_pow0(10);
    if n > 0 {
        lemma_worth_bound(s, n - 1);
        vstd::arithmetic::power::lemma_pow_adds(10, 1, (n - 1) as nat);
        vstd::arithmetic::power::lemma_pow1(10);
        assert(48 <= s[n - 1] as int <= 57);
    }
    vstd::arithmetic::power::lemma_pow_increases(10, n as nat, 9);
    assert(vstd::arithmetic::power::pow(10, 9) == 1_000_000_000) by {
        reveal_with_fuel(vstd::arithmetic::power::pow, 10);
    }
}

/// A tail beyond nine decimals does not count.
pub proof fn law_tail_is_cut(whole: Seq<char>, fraction: Seq<char>, tail: Seq<char>)
    requires
        digits_only(whole),
        digits_only(fraction),
        digits_only(tail),
        fraction.len() == 9,
    ensures
        decimal_nanos(point_text(whole, fraction + tail)) == decimal_nanos(
            point_text(whole, fraction),
        ),
{
    lemma_plain(whole, fraction + tail);
    lemma_plain(whole, fraction);
    assert((fraction + tail).take(9) =~= fraction);
    assert(fraction.take(9) =~= fraction);
}

/// An exponent moves the point: to the right as many places as it tells, and to the
/// left where it is negative.
pub proof fn law_exponent_moves_the_point(
    whole: Seq<char>,
    fraction: Seq<char>,
    exponent: Seq<char>,
    places: int,
)
    requires
        digits_only(whole),
        digits_only(fraction),
        whole.len() > 0,
        spells_number(exponent, places),
        0 <= places < 1000,
    ensures
        places <= fraction.len() ==> decimal_nanos(
            point_text(whole, fraction) + seq!['e'] + exponent,
        ) == decimal_nanos(point_text(whole + fraction.take(places), fraction.skip(places))),
        places <= whole.len() ==> decimal_nanos(
            point_text(whole, fraction) + seq!['e', '-'] + exponent,
        ) == decimal_nanos(
            point_text(
                whole.take(whole.len() - places),
                whole.skip(whole.len() - places) + fraction,
            ),
        ),
{
    lemma_exponent_is_read(whole, fraction, exponent, places);
    if places <= fraction.len() {
        lemma_moved_right(whole, fraction, places);
    }
    if places <= whole.len() {
        lemma_moved_left(whole, fraction, places);
    }
}

#[verifier::spinoff_prover]
#[verifier::rlimit(40)]
proof fn lemma_exponent_is_read(
    whole: Seq<char>,
    fraction: Seq<char>,
    exponent: Seq<char>,
    places: int,
)
    requires
        digits_only(whole),
        digits_only(fraction),
        whole.len() > 0,
        spells_number(exponent, places),
        0 <= places < 1000,
    ensures
        decimal_nanos(point_text(whole, fraction) + seq!['e'] + exponent) == Some(
            crate::keyframes::held(
                point_nanos(point_moved(whole, fraction, places as nat, false)),
                false,
            ),
        ),
        decimal_nanos(point_text(whole, fraction) + seq!['e', '-'] + exponent) == Some(
            crate::keyframes::held(
                point_nanos(point_moved(whole, fraction, places as nat, true)),
                false,
            ),
        ),
{
    let s = point_text(whole, fraction);
    let up = s + seq!['e'] + exponent;
    let down = s + seq!['e', '-'] + exponent;
    let at = s.len() as int;
    lemma_parts(whole, fraction);
    lemma_digits_only(exponent);
    law_digits_are_read(exponent, places);
    assert(48 <= whole[0] as int <= 57);
    assert(up[0] == whole[0] && down[0] == whole[0]);
    assert(unsigned(up) == up && unsigned(down) == down);
    assert(48 <= exponent[0] as int <= 57);
    assert(unsigned(exponent) == exponent);
    assert forall|k: int| 0 <= k < at implies #[trigger] up[k] != 'e' && up[k] != 'E' by {
        lemma_no_mark_inside(whole, fraction, k);
        assert(up[k] == s[k]);
    }
    assert forall|k: int| 0 <= k < at implies #[trigger] down[k] != 'e' && down[k] != 'E' by {
        lemma_no_mark_inside(whole, fraction, k);
        assert(down[k] == s[k]);
    }
    assert(up[at] == 'e' && down[at] == 'e');
    lemma_mark(up, at, 0);
    lemma_mark(down, at, 0);
    assert(up.take(at) =~= s);
    assert(down.take(at) =~= s);
    assert(up.skip(at + 1) =~= exponent);
    assert(down.skip(at + 1) =~= seq!['-'] + exponent);
    assert((seq!['-'] + exponent).skip(1) =~= exponent);
    assert(unsigned(seq!['-'] + exponent) == exponent);
}

proof fn lemma_no_mark_inside(whole: Seq<char>, fraction: Seq<char>, k: int)
    requires
        digits_only(whole),
        digits_only(fraction),
        0 <= k < point_text(whole, fraction).len(),
    ensures
        point_text(whole, fraction)[k] != 'e',
        point_text(whole, fraction)[k] != 'E',
{
    if k < whole.len() {
        assert(48 <= whole[k] as int <= 57);
    } else if k > whole.len() {
        assert(48 <= fraction[k - whole.len() - 1] as int <= 57);
    }
}

#[verifier::spinoff_prover]
proof fn lemma_moved_right(whole: Seq<char>, fraction: Seq<char>, places: int)
    requires
        digits_only(whole),
        digits_only(fraction),
        whole.len() > 0,
        0 <= places <= fraction.len(),
    ensures
        decimal_nanos(point_text(whole + fraction.take(places), fraction.skip(places))) == Some(
            crate::keyframes::held(
                point_nanos(point_moved(whole, fraction, places as nat, false)),
                false,
            ),
        ),
{
    let all = fraction + zeros(places as nat);
    let moved = point_moved(whole, fraction, places as nat, false);
    assert(all.take(places) =~= fraction.take(places));
    assert(moved.0 == whole + fraction.take(places));
    assert(all.skip(places) =~= fraction.skip(places) + zeros(places as nat));
    assert(moved.1 == fraction.skip(places) + zeros(places as nat));
    lemma_zeros_behind(fraction.skip(places), places as nat);
    lemma_plain(whole + fraction.take(places), fraction.skip(places));
}

#[verifier::spinoff_prover]
proof fn lemma_moved_left(whole: Seq<char>, fraction: Seq<char>, places: int)
    requires
        digits_only(whole),
        digits_only(fraction),
        whole.len() > 0,
        0 <= places <= whole.len(),
    ensures
        decimal_nanos(
            point_text(
                whole.take(whole.len() - places),
                whole.skip(whole.len() - places) + fraction,
            ),
        ) == Some(
            crate::keyframes::held(
                point_nanos(point_moved(whole, fraction, places as nat, true)),
                false,
            ),
        ),
{
    let moved = point_moved(whole, fraction, places as nat, true);
    let cut = whole.len() - places;
    let tail = whole.skip(cut) + fraction;
    assert(moved.0 =~= zeros(places as nat) + whole.take(cut));
    assert(moved.1 =~= tail);
    assert(digits_only(whole.take(cut)));
    lemma_zeros_before(whole.take(cut), places as nat);
    assert forall|i: int| 0 <= i < tail.len() implies 48 <= (#[trigger] tail[i]) as int <= 57 by {
        if i < places {
            assert(48 <= whole[cut + i] as int <= 57);
        } else {
            assert(48 <= fraction[i - places] as int <= 57);
        }
    }
    lemma_plain(whole.take(cut), tail);
}

proof fn lemma_zeros_before(s: Seq<char>, n: nat)
    requires
        digits_only(s),
    ensures
        digits_value(zeros(n) + s) == digits_value(s),
{
    let z = zeros(n) + s;
    assert forall|i: int| 0 <= i < z.len() implies 48 <= (#[trigger] z[i]) as int <= 57 by {
        if i >= n {
            assert(48 <= s[i - n] as int <= 57);
        }
    }
    lemma_digits_only(s);
    lemma_digits_only(z);
    lemma_zeros_number(s, n);
}

proof fn lemma_zeros_number(s: Seq<char>, n: nat)
    ensures
        number(zeros(n) + s) == number(s),
    decreases s.len(), n,
{
    let z = zeros(n) + s;
    if s.len() > 0 {
        assert(z.drop_last() =~= zeros(n) + s.drop_last());
        lemma_zeros_number(s.drop_last(), n);
    } else if n > 0 {
        assert(z.drop_last() =~= zeros((n - 1) as nat) + s);
        lemma_zeros_number(s, (n - 1) as nat);
    } else {
        assert(z =~= s);
    }
}

proof fn lemma_zeros_behind(s: Seq<char>, n: nat)
    requires
        digits_only(s),
    ensures
        fraction_nanos(s + zeros(n)) == fraction_nanos(s),
    decreases n,
{
    if n > 0 {
        lemma_zeros_behind(s, (n - 1) as nat);
        let t = s + zeros((n - 1) as nat);
        let u = s + zeros(n);
        assert(u =~= t.push('0'));
        assert forall|i: int| 0 <= i < t.len() implies 48 <= (#[trigger] t[i]) as int <= 57 by {
            if i < s.len() {
                assert(48 <= s[i] as int <= 57);
            }
        }
        assert(digits_only(u)) by {
            assert forall|i: int| 0 <= i < u.len() implies 48 <= (#[trigger] u[i]) as int <= 57 by {
                if i < t.len() {
                    assert(48 <= t[i] as int <= 57);
                }
            }
        }
        lemma_digits_only(t);
        lemma_digits_only(u);
        if t.len() >= 9 {
            assert(u.take(9) =~= t.take(9));
        } else {
            assert(u.drop_last() =~= t);
            assert(number(u) == 10 * number(t));
            lemma_worth_bound(t, t.len() as int);
            lemma_number_is_worth(t, t.len() as int);
            assert(t.take(t.len() as int) =~= t);
            assert(digits_value(u) == number(u));
            assert(digits_value(t) == number(t));
            if t.len() == 8 {
                assert(u.take(9) =~= u);
                assert(with_zeros(number(t), 1) == with_zeros(number(t) * 10, 0));
            }
        }
    } else {
        assert(s + zeros(0) =~= s);
    }
}

// ── Looking for keyframes ──────────────────────────────────────────────────

/// ffprobe is asked for the packets of the first video stream of the file, from fifteen
/// seconds before the offset, or from the start, to just behind it.
pub proof fn law_keyframe_query(path: Seq<char>, offset: nat)
    ensures
        ({
            let args = keyframe_args(path, offset);
            &&& args.len() == 11
            &&& args[2] == "-select_streams"@ && args[3] == "v:0"@
            &&& args[4] == "-show_entries"@ && args[5] == "packet=pts_time,flags"@
            &&& args[6] == "-read_intervals"@
            &&& args[8] == "-of"@ && args[9] == "json"@
            &&& args[10] == path
            &&& exists|a: Seq<char>, b: Seq<char>|
                #![trigger a + "%"@ + b]
                {
                    &&& args[7] == a + "%"@ + b
                    &&& tells_seconds(
                        a,
                        if offset > 15_000_000_000 {
                            offset - 15_000_000_000
                        } else {
                            0
                        },
                    )
                    &&& tells_seconds(b, offset as int + 50_000_000)
                }
        }),
{
    let start: nat = if offset > 15_000_000_000 {
        (offset - 15_000_000_000) as nat
    } else {
        0
    };
    law_time_text(start);
    law_time_text(offset + 50_000_000);
    let a = crate::ffmpeg_args::seconds_text(start);
    let b = crate::ffmpeg_args::seconds_text(offset + 50_000_000);
    assert(keyframe_args(path, offset)[7] == a + "%"@ + b);
}

} // verus!
