//! Finding the keyframe before a cut.
//!
//! Times are in nanoseconds.

use vstd::arithmetic::power2::pow2;
use vstd::prelude::*;

use crate::ffmpeg_args::{format_seconds, seconds_text};
use crate::json::{field_of, json_records, read_records, record_of, records_of, JsonField};
use crate::text::{
    all_digits, ascii_lower, chars_of, concat3, digits_value, is_digit, lowered, names, number,
    push_str, push_string, split, split_at, string_of, strs, value_of_digits,
};

verus! {

// ── Times ──────────────────────────────────────────────────────────────────

/// A number of nanoseconds, held to the range of `i64`, with its sign.
pub open spec fn held(magnitude: int, negative: bool) -> i64 {
    let m = if magnitude <= i64::MAX {
        magnitude as i64
    } else {
        i64::MAX
    };
    if negative {
        (-m) as i64
    } else {
        m
    }
}

fn hold(magnitude: u128, negative: bool) -> (r: i64)
    ensures
        r == held(magnitude as int, negative),
{
    let m: i64 = if magnitude <= i64::MAX as u128 {
        magnitude as i64
    } else {
        i64::MAX
    };
    if negative {
        -m
    } else {
        m
    }
}

/// `value` with `n` zeros behind it.
pub open spec fn with_zeros(value: nat, n: int) -> nat
    decreases n,
{
    if n <= 0 {
        value
    } else {
        with_zeros(value * 10, n - 1)
    }
}

/// The nanoseconds that the digits behind a decimal point stand for; digits
/// behind the ninth do not count.
pub open spec fn fraction_nanos(digits: Seq<char>) -> nat {
    if digits.len() >= 9 {
        digits_value(digits.take(9))
    } else {
        with_zeros(digits_value(digits), 9 - digits.len())
    }
}

/// The sign before a number counts as no digit.
pub open spec fn unsigned(s: Seq<char>) -> Seq<char> {
    if s.len() > 0 && (s[0] == '-' || s[0] == '+') {
        s.skip(1)
    } else {
        s
    }
}

/// The first exponent mark from `i` on; the end where there is none.
pub open spec fn exponent_mark(s: Seq<char>, i: int) -> int
    decreases s.len() - i,
{
    if i >= s.len() || s[i] == 'e' || s[i] == 'E' {
        i
    } else {
        exponent_mark(s, i + 1)
    }
}

/// `n` zeros.
pub open spec fn zeros(n: nat) -> Seq<char> {
    Seq::new(n, |i: int| '0')
}

/// The digits before and behind the decimal point once it was moved forward, or
/// back, by the given places. A point that has passed all digits by far enough for
/// the clock is moved no further.
pub open spec fn point_moved(whole: Seq<char>, fraction: Seq<char>, places: nat, back: bool) -> (
    Seq<char>,
    Seq<char>,
) {
    let limit: nat = if back {
        whole.len() + 9
    } else {
        fraction.len() + 20
    };
    let k: nat = if places < limit {
        places
    } else {
        limit
    };
    if back {
        let all = zeros(k) + whole;
        (all.take(whole.len() as int), all.skip(whole.len() as int) + fraction)
    } else {
        let all = fraction + zeros(k);
        (whole + all.take(k as int), all.skip(k as int))
    }
}

/// The nanoseconds that digits before and behind a decimal point stand for.
pub open spec fn point_nanos(digits: (Seq<char>, Seq<char>)) -> int {
    (digits_value(digits.0) * 1_000_000_000 + fraction_nanos(digits.1)) as int
}

/// The digits before and behind the decimal point; `None` where the text is no
/// decimal number without a sign and an exponent.
pub open spec fn point_parts(s: Seq<char>) -> Option<(Seq<char>, Seq<char>)> {
    let parts = split_at(s, '.');
    if parts.len() == 1 && parts[0].len() > 0 && all_digits(parts[0]) {
        Some((parts[0], seq![]))
    } else if parts.len() == 2 && all_digits(parts[0]) && all_digits(parts[1]) && parts[0].len()
        + parts[1].len() > 0 {
        Some((parts[0], parts[1]))
    } else {
        None
    }
}

/// The text is a word for infinity, in letters of either case.
pub open spec fn is_infinity(s: Seq<char>) -> bool {
    let lower = s.map_values(|c: char| ascii_lower(c));
    lower == "inf"@ || lower == "infinity"@
}

/// The nanoseconds that seconds in decimal notation stand for, with or without an
/// exponent; an infinite number is held to the clock.
pub open spec fn decimal_nanos(s: Seq<char>) -> Option<i64> {
    let negative = s.len() > 0 && s[0] == '-';
    let body = unsigned(s);
    let mark = exponent_mark(body, 0);
    match point_parts(body.take(mark)) {
        None => if is_infinity(body) {
            Some(held(i64::MAX as int, negative))
        } else {
            None
        },
        Some((whole, fraction)) => if mark == body.len() {
            Some(held(point_nanos((whole, fraction)), negative))
        } else {
            let power = body.skip(mark + 1);
            let places = unsigned(power);
            if places.len() > 0 && all_digits(places) {
                let back = power[0] == '-';
                Some(
                    held(
                        point_nanos(point_moved(whole, fraction, digits_value(places), back)),
                        negative,
                    ),
                )
            } else {
                None
            }
        },
    }
}

fn only_digits(s: &str) -> (r: bool)
    ensures
        r == all_digits(s@),
{
    let chars = chars_of(s);
    let mut i: usize = 0;
    while i < chars.len()
        invariant
            i <= chars@.len(),
            chars@ == s@,
            forall|k: int| 0 <= k < i ==> is_digit(#[trigger] s@[k]),
        decreases chars@.len() - i,
    {
        if !(chars[i] >= '0' && chars[i] <= '9') {
            assert(!is_digit(s@[i as int]));
            return false;
        }
        i += 1;
    }
    true
}

proof fn lemma_nine_digits(s: Seq<char>)
    requires
        all_digits(s),
        s.len() <= 9,
    ensures
        number(s) < with_zeros(1, s.len() as int),
    decreases s.len(),
{
    reveal_with_fuel(with_zeros, 11);
    if s.len() > 0 {
        let head = s.drop_last();
        assert(all_digits(head)) by {
            assert forall|i: int| 0 <= i < head.len() implies is_digit(#[trigger] head[i]) by {
                assert(is_digit(s[i]));
            }
        }
        lemma_nine_digits(head);
        assert(is_digit(s.last()));
    }
}

fn read_fraction(digits: &str) -> (r: u64)
    requires
        all_digits(digits@),
    ensures
        r == fraction_nanos(digits@),
{
    let chars = chars_of(digits);
    let n: usize = chars.len();
    if n >= 9 {
        let first = string_of(&chars, 0, 9);
        assert(first@ =~= digits@.take(9));
        return value_of_digits(first.as_str());
    }
    let start: u64 = value_of_digits(digits);
    proof {
        lemma_nine_digits(digits@);
        reveal_with_fuel(with_zeros, 11);
        assert(start < with_zeros(1, n as int));
    }
    let mut v: u64 = start;
    let mut left: usize = 9 - n;
    assert(v < with_zeros(1, 9 - left));
    while left > 0
        invariant
            left <= 9,
            v < with_zeros(1, 9 - left),
            with_zeros(v as nat, left as int) == fraction_nanos(digits@),
        decreases left,
    {
        proof {
            reveal_with_fuel(with_zeros, 11);
        }
        v = v * 10;
        left -= 1;
    }
    v
}

fn push_range(out: &mut Vec<char>, from: &Vec<char>, start: usize, end: usize)
    requires
        start <= end <= from@.len(),
    ensures
        final(out)@ == old(out)@ + from@.subrange(start as int, end as int),
{
    let mut i: usize = start;
    assert(out@ =~= old(out)@ + from@.subrange(start as int, i as int));
    while i < end
        invariant
            start <= i <= end <= from@.len(),
            out@ == old(out)@ + from@.subrange(start as int, i as int),
        decreases end - i,
    {
        out.push(from[i]);
        i += 1;
        assert(out@ =~= old(out)@ + from@.subrange(start as int, i as int));
    }
}

fn push_zeros(out: &mut Vec<char>, n: u128)
    ensures
        final(out)@ == old(out)@ + zeros(n as nat),
{
    let mut i: u128 = 0;
    assert(out@ =~= old(out)@ + zeros(0));
    while i < n
        invariant
            i <= n,
            out@ == old(out)@ + zeros(i as nat),
        decreases n - i,
    {
        out.push('0');
        i += 1;
        assert(out@ =~= old(out)@ + zeros(i as nat));
    }
}

/// Moves a decimal point.
fn move_point(whole: &Vec<char>, fraction: &Vec<char>, places: u64, back: bool) -> (r: (
    Vec<char>,
    Vec<char>,
))
    ensures
        (r.0@, r.1@) == point_moved(whole@, fraction@, places as nat, back),
{
    let n: usize = whole.len();
    let m: usize = fraction.len();
    let limit: u128 = if back {
        n as u128 + 9
    } else {
        m as u128 + 20
    };
    let k: u128 = if (places as u128) < limit {
        places as u128
    } else {
        limit
    };
    let mut all: Vec<char> = Vec::new();
    let mut before: Vec<char> = Vec::new();
    let mut behind: Vec<char> = Vec::new();
    if back {
        push_zeros(&mut all, k);
        push_range(&mut all, whole, 0, n);
        let end: usize = all.len();
        assert(all@ =~= zeros(k as nat) + whole@);
        push_range(&mut before, &all, 0, n);
        push_range(&mut behind, &all, n, end);
        push_range(&mut behind, fraction, 0, m);
        assert(before@ =~= all@.take(n as int));
        assert(behind@ =~= all@.skip(n as int) + fraction@);
    } else {
        push_range(&mut all, fraction, 0, m);
        push_zeros(&mut all, k);
        let end: usize = all.len();
        assert(all@ =~= fraction@ + zeros(k as nat));
        let moved: usize = k as usize;
        push_range(&mut before, whole, 0, n);
        push_range(&mut before, &all, 0, moved);
        push_range(&mut behind, &all, moved, end);
        assert(before@ =~= whole@ + all@.take(k as int));
        assert(behind@ =~= all@.skip(k as int));
    }
    (before, behind)
}

proof fn lemma_moved_digits(whole: Seq<char>, fraction: Seq<char>, places: nat, back: bool)
    requires
        all_digits(whole),
        all_digits(fraction),
    ensures
        all_digits(point_moved(whole, fraction, places, back).1),
{
    let behind = point_moved(whole, fraction, places, back).1;
    assert forall|i: int| 0 <= i < behind.len() implies is_digit(#[trigger] behind[i]) by {
        assert(is_digit('0'));
        assert forall|j: int| 0 <= j < whole.len() implies is_digit(whole[j]) by {}
        assert forall|j: int| 0 <= j < fraction.len() implies is_digit(fraction[j]) by {}
    }
}

fn count_nanos(whole: &str, fraction: &str) -> (r: u128)
    requires
        all_digits(fraction@),
    ensures
        r == point_nanos((whole@, fraction@)),
{
    value_of_digits(whole) as u128 * 1_000_000_000 + read_fraction(fraction) as u128
}

/// The digits before and behind the decimal point of an unsigned decimal number.
fn read_parts(s: &str) -> (r: Option<(String, String)>)
    ensures
        match r {
            Some((whole, fraction)) => point_parts(s@) == Some((whole@, fraction@)) && all_digits(
                whole@,
            ) && all_digits(fraction@),
            None => point_parts(s@) is None,
        },
{
    let parts = split(s, '.');
    let ghost texts = split_at(s@, '.');
    assert(texts.len() == parts@.len());
    assert(texts[0] == parts@[0]@);
    let count: usize = parts.len();
    if count > 2 || !only_digits(parts[0].as_str()) {
        return None;
    }
    if count == 1 {
        if parts[0].as_str().is_empty() {
            return None;
        }
        let none = String::new();
        assert(none@ =~= seq![]);
        return Some((parts[0].clone(), none));
    }
    assert(texts[1] == parts@[1]@);
    if !only_digits(parts[1].as_str()) || (parts[0].as_str().is_empty()
        && parts[1].as_str().is_empty()) {
        return None;
    }
    Some((parts[0].clone(), parts[1].clone()))
}

fn spells(chars: &Vec<char>, from: usize, word: &str) -> (r: bool)
    requires
        from <= chars@.len(),
    ensures
        r == (chars@.skip(from as int).map_values(|c: char| ascii_lower(c)) == word@),
{
    let letters = chars_of(word);
    let n: usize = letters.len();
    let ghost lower = chars@.skip(from as int).map_values(|c: char| ascii_lower(c));
    let total: usize = chars.len();
    if total - from != n {
        assert(lower.len() != word@.len());
        return false;
    }
    let mut i: usize = 0;
    while i < n
        invariant
            i <= n,
            n == letters@.len(),
            letters@ == word@,
            from + n == total,
            total == chars@.len(),
            lower == chars@.skip(from as int).map_values(|c: char| ascii_lower(c)),
            forall|k: int| 0 <= k < i ==> #[trigger] lower[k] == word@[k],
        decreases n - i,
    {
        if lowered(chars[from + i]) != letters[i] {
            assert(lower[i as int] != word@[i as int]);
            return false;
        }
        assert(lower[i as int] == word@[i as int]);
        i += 1;
    }
    assert(lower =~= word@);
    true
}

/// Reads seconds in decimal notation.
pub fn read_decimal(s: &str) -> (r: Option<i64>)
    ensures
        r == decimal_nanos(s@),
{
    let chars = chars_of(s);
    let n: usize = chars.len();
    let negative = n > 0 && chars[0] == '-';
    let from: usize = if n > 0 && (chars[0] == '-' || chars[0] == '+') {
        1
    } else {
        0
    };
    let ghost body = unsigned(s@);
    assert(body =~= chars@.skip(from as int));
    let mut mark: usize = from;
    while mark < n && chars[mark] != 'e' && chars[mark] != 'E'
        invariant
            n == chars@.len(),
            from <= mark <= n,
            body == chars@.skip(from as int),
            exponent_mark(body, mark - from) == exponent_mark(body, 0),
        decreases n - mark,
    {
        mark += 1;
    }
    assert(exponent_mark(body, mark - from) == mark - from);
    let base = string_of(&chars, from, mark);
    assert(base@ =~= body.take(mark - from));
    let (whole, fraction) = match read_parts(base.as_str()) {
        None => {
            if spells(&chars, from, "inf") || spells(&chars, from, "infinity") {
                return Some(hold(i64::MAX as u128, negative));
            }
            return None;
        },
        Some(parts) => parts,
    };
    if mark == n {
        return Some(hold(count_nanos(whole.as_str(), fraction.as_str()), negative));
    }
    let ghost power = body.skip(mark - from + 1);
    assert(power =~= chars@.skip(mark + 1));
    let signed = mark + 1 < n && (chars[mark + 1] == '-' || chars[mark + 1] == '+');
    let back = mark + 1 < n && chars[mark + 1] == '-';
    let places = string_of(&chars, if signed {
        mark + 2
    } else {
        mark + 1
    }, n);
    assert(places@ =~= unsigned(power));
    if places.as_str().is_empty() || !only_digits(places.as_str()) {
        return None;
    }
    let count: u64 = value_of_digits(places.as_str());
    let (before, behind) = move_point(
        &chars_of(whole.as_str()),
        &chars_of(fraction.as_str()),
        count,
        back,
    );
    proof {
        lemma_moved_digits(whole@, fraction@, count as nat, back);
    }
    let before_text = string_of(&before, 0, before.len());
    let behind_text = string_of(&behind, 0, behind.len());
    assert(before_text@ =~= before@ && behind_text@ =~= behind@);
    Some(hold(count_nanos(before_text.as_str(), behind_text.as_str()), negative))
}

/// The nanoseconds that seconds in the 64-bit binary format stand for, cut off
/// behind the last whole one.
pub open spec fn binary_nanos(bits: u64) -> i64 {
    let negative = bits >= 0x8000_0000_0000_0000;
    let rest = bits % 0x8000_0000_0000_0000;
    let exponent = rest / 0x10_0000_0000_0000;
    let fraction = rest % 0x10_0000_0000_0000;
    let mantissa: int = if exponent == 0 {
        fraction as int
    } else {
        fraction + 0x10_0000_0000_0000
    };
    let shift: int = if exponent == 0 {
        1074
    } else {
        1075 - exponent
    };
    if shift <= 0 {
        held(i64::MAX as int, negative)
    } else {
        held(mantissa * 1_000_000_000 / pow2(shift as nat) as int, negative)
    }
}

/// Reads seconds in the 64-bit binary format.
pub fn read_binary(bits: u64) -> (r: i64)
    ensures
        r == binary_nanos(bits),
{
    let negative = bits >= 0x8000_0000_0000_0000;
    let rest: u64 = bits % 0x8000_0000_0000_0000;
    let exponent: u64 = rest / 0x10_0000_0000_0000;
    let fraction: u64 = rest % 0x10_0000_0000_0000;
    let mantissa: u64 = if exponent == 0 {
        fraction
    } else {
        fraction + 0x10_0000_0000_0000
    };
    if exponent >= 1075 {
        return hold(i64::MAX as u128, negative);
    }
    let shift: u64 = if exponent == 0 {
        1074
    } else {
        1075 - exponent
    };
    let product: u128 = mantissa as u128 * 1_000_000_000;
    let mut q: u128 = product;
    let mut i: u64 = 0;
    proof {
        vstd::arithmetic::power2::lemma2_to64();
        assert(product / 1 == product);
    }
    while i < shift
        invariant
            i <= shift,
            q == product as int / pow2(i as nat) as int,
        decreases shift - i,
    {
        proof {
            vstd::arithmetic::power2::lemma_pow2_pos(i as nat);
            vstd::arithmetic::power2::lemma_pow2_unfold((i + 1) as nat);
            vstd::arithmetic::div_mod::lemma_div_denominator(
                product as int,
                pow2(i as nat) as int,
                2,
            );
            assert(pow2(i as nat) * 2 == pow2((i + 1) as nat)) by (nonlinear_arith)
                requires
                    pow2((i + 1) as nat) == 2 * pow2(i as nat),
            ;
        }
        q = q / 2;
        i += 1;
    }
    hold(q, negative)
}

// ── Keyframes ──────────────────────────────────────────────────────────────

/// The time of a packet, from its text or its number.
pub open spec fn packet_time(field: (Option<u64>, Option<Seq<char>>, Option<u64>)) -> Option<i64> {
    let told = match field.1 {
        Some(text) => decimal_nanos(text),
        None => None,
    };
    match told {
        Some(t) => Some(t),
        None => match field.2 {
            Some(bits) => Some(binary_nanos(bits)),
            None => None,
        },
    }
}

/// The time of a packet that is a keyframe at or before `offset`.
pub open spec fn keyframe_time(
    record: Seq<(Option<u64>, Option<Seq<char>>, Option<u64>)>,
    offset: int,
) -> Option<i64> {
    let flagged = record[0].1 matches Some(flags) && flags.contains('K');
    match packet_time(record[1]) {
        Some(t) => if flagged && t <= offset {
            Some(t)
        } else {
            None
        },
        None => None,
    }
}

/// The latest of such keyframes among the first `n` packets.
pub open spec fn last_keyframe(
    records: Seq<Seq<(Option<u64>, Option<Seq<char>>, Option<u64>)>>,
    offset: int,
    n: int,
) -> Option<i64>
    decreases n,
{
    if n <= 0 {
        None
    } else {
        let before = last_keyframe(records, offset, n - 1);
        match (before, keyframe_time(records[n - 1], offset)) {
            (Some(b), Some(t)) => if t > b {
                Some(t)
            } else {
                Some(b)
            },
            (None, Some(t)) => Some(t),
            (b, None) => b,
        }
    }
}

fn has_key_flag(flags: &Option<String>) -> (r: bool)
    ensures
        r == (flags matches Some(f) && f@.contains('K')),
{
    match flags {
        Some(f) => {
            let chars = chars_of(f.as_str());
            let mut i: usize = 0;
            while i < chars.len()
                invariant
                    i <= chars@.len(),
                    chars@ == f@,
                    flags matches Some(g) && g@ == f@,
                    forall|k: int| 0 <= k < i ==> chars@[k] != 'K',
                decreases chars@.len() - i,
            {
                if chars[i] == 'K' {
                    assert(f@.contains('K'));
                    return true;
                }
                i += 1;
            }
            assert(!f@.contains('K'));
            false
        },
        None => false,
    }
}

/// The latest keyframe at or before `offset_nanos` among packets, of which the
/// flags and the time were read.
pub fn keyframe_in_records(records: &Vec<Vec<JsonField>>, offset_nanos: i64) -> (r: Option<i64>)
    requires
        forall|i: int| 0 <= i < records@.len() ==> (#[trigger] records@[i])@.len() == 2,
    ensures
        r == last_keyframe(records_of(records@), offset_nanos as int, records@.len() as int),
{
    let ghost all = records_of(records@);
    let mut best: Option<i64> = None;
    let mut i: usize = 0;
    while i < records.len()
        invariant
            i <= records@.len(),
            all == records_of(records@),
            forall|k: int| 0 <= k < records@.len() ==> (#[trigger] records@[k])@.len() == 2,
            best == last_keyframe(all, offset_nanos as int, i as int),
        decreases records@.len() - i,
    {
        let record = &records[i];
        assert(all[i as int] == record_of(record@));
        assert(record_of(record@)[0] == field_of(record@[0]));
        assert(record_of(record@)[1] == field_of(record@[1]));
        let flagged = has_key_flag(&record[0].text);
        let told: Option<i64> = match &record[1].text {
            Some(text) => read_decimal(text.as_str()),
            None => None,
        };
        let time: Option<i64> = match told {
            Some(t) => Some(t),
            None => match record[1].float_bits {
                Some(bits) => Some(read_binary(bits)),
                None => None,
            },
        };
        match time {
            Some(t) => {
                if flagged && t <= offset_nanos {
                    match best {
                        Some(b) => {
                            if t > b {
                                best = Some(t);
                            }
                        },
                        None => {
                            best = Some(t);
                        },
                    }
                }
            },
            None => {},
        }
        i += 1;
    }
    best
}

/// The fields of a packet that are read.
pub open spec fn packet_fields() -> Seq<Seq<char>> {
    seq!["flags"@, "pts_time"@]
}

/// The latest keyframe at or before `offset_nanos` that ffprobe's output tells.
pub open spec fn told_keyframe(
    records: Result<Option<Seq<Seq<(Option<u64>, Option<Seq<char>>, Option<u64>)>>>, Seq<char>>,
    offset: int,
) -> Option<i64> {
    match records {
        Ok(Some(list)) => last_keyframe(list, offset, list.len() as int),
        _ => None,
    }
}

/// The latest keyframe at or before `offset_nanos` that ffprobe's output tells;
/// `None` where it tells none. Packets may come in any order.
pub fn parse_last_keyframe(json: &str, offset_nanos: i64) -> (r: Option<i64>)
    ensures
        r == told_keyframe(
            json_records(json@, "packets"@, packet_fields()),
            offset_nanos as int,
        ),
{
    let fields: Vec<&'static str> = vec!["flags", "pts_time"];
    assert(names(fields@) =~= packet_fields());
    match read_records(json, "packets", &fields) {
        Ok(Some(records)) => {
            assert(records_of(records@).len() == records@.len());
            keyframe_in_records(&records, offset_nanos)
        },
        Ok(None) => None,
        Err(_) => None,
    }
}

/// A cut so short that it is left out.
pub const SHORT_TRIM_NANOS: u64 = 50_000_000;

/// How far before a cut keyframes are looked for.
pub const LOOKBACK_NANOS: u64 = 15_000_000_000;

/// The arguments that ask for the packets before a cut.
pub open spec fn keyframe_args(path: Seq<char>, offset: nat) -> Seq<Seq<char>> {
    let start = if offset > LOOKBACK_NANOS {
        (offset - LOOKBACK_NANOS) as nat
    } else {
        0
    };
    seq![
        "-v"@,
        "error"@,
        "-select_streams"@,
        "v:0"@,
        "-show_entries"@,
        "packet=pts_time,flags"@,
        "-read_intervals"@,
        seconds_text(start) + "%"@ + seconds_text((offset + SHORT_TRIM_NANOS) as nat),
        "-of"@,
        "json"@,
        path,
    ]
}

/// Builds the arguments that ask for the packets before a cut.
pub fn build_keyframe_args(path: &str, offset_nanos: u64) -> (r: Vec<String>)
    requires
        offset_nanos <= i64::MAX,
    ensures
        strs(r@) == keyframe_args(path@, offset_nanos as nat),
{
    let start: u64 = if offset_nanos > LOOKBACK_NANOS {
        offset_nanos - LOOKBACK_NANOS
    } else {
        0
    };
    let from = format_seconds(start);
    let to = format_seconds(offset_nanos + SHORT_TRIM_NANOS);
    let interval = concat3(from.as_str(), "%", to.as_str());
    let ghost interval_text = interval@;
    let mut args: Vec<String> = Vec::new();
    assert(strs(args@) =~= seq![]);
    push_str(&mut args, "-v");
    push_str(&mut args, "error");
    push_str(&mut args, "-select_streams");
    push_str(&mut args, "v:0");
    push_str(&mut args, "-show_entries");
    push_str(&mut args, "packet=pts_time,flags");
    push_str(&mut args, "-read_intervals");
    push_string(&mut args, interval);
    push_str(&mut args, "-of");
    push_str(&mut args, "json");
    push_str(&mut args, path);
    assert(strs(args@) =~= keyframe_args(path@, offset_nanos as nat));
    args
}

/// The keyframe that a cut moves to. A short cut is left out. Where ffprobe
/// failed the cut stays; where no keyframe was found nothing is cut.
pub open spec fn snapped_cut(
    offset: u64,
    answer: Option<Result<Option<Seq<Seq<(Option<u64>, Option<Seq<char>>, Option<u64>)>>>, Seq<char>>>,
) -> i64 {
    if offset <= SHORT_TRIM_NANOS {
        0
    } else {
        match answer {
            None => offset as i64,
            Some(records) => match told_keyframe(records, offset as int) {
                Some(t) => t,
                None => 0,
            },
        }
    }
}

/// The keyframe that a cut moves to, from ffprobe's output; `None` stands for an
/// ffprobe that failed.
pub fn snap_trim_to_keyframe(offset_nanos: u64, output: Option<&str>) -> (r: i64)
    requires
        offset_nanos <= i64::MAX,
    ensures
        r == snapped_cut(
            offset_nanos,
            match output {
                Some(json) => Some(json_records(json@, "packets"@, packet_fields())),
                None => None,
            },
        ),
{
    if offset_nanos <= SHORT_TRIM_NANOS {
        return 0;
    }
    match output {
        None => offset_nanos as i64,
        Some(json) => match parse_last_keyframe(json, offset_nanos as i64) {
            Some(t) => t,
            None => 0,
        },
    }
}

// ── Laws ───────────────────────────────────────────────────────────────────

/// The keyframe found is one of the packets', is at or before the offset, and no
/// other such keyframe is later.
pub proof fn law_latest_keyframe(
    records: Seq<Seq<(Option<u64>, Option<Seq<char>>, Option<u64>)>>,
    offset: int,
    n: int,
)
    requires
        0 <= n <= records.len(),
    ensures
        match last_keyframe(records, offset, n) {
            Some(t) => t <= offset && (exists|i: int|
                0 <= i < n && keyframe_time(#[trigger] records[i], offset) == Some(t)) && (forall|
                i: int,
            |
                0 <= i < n ==> (keyframe_time(#[trigger] records[i], offset) matches Some(u) ==> u
                    <= t)),
            None => forall|i: int|
                0 <= i < n ==> keyframe_time(#[trigger] records[i], offset) is None,
        },
    decreases n,
{
    if n > 0 {
        law_latest_keyframe(records, offset, n - 1);
        let own = keyframe_time(records[n - 1], offset);
        if let Some(b) = last_keyframe(records, offset, n - 1) {
            let i = choose|i: int|
                0 <= i < n - 1 && keyframe_time(#[trigger] records[i], offset) == Some(b);
            assert(keyframe_time(records[i], offset) == Some(b));
        }
        if own is Some {
            assert(keyframe_time(records[n - 1], offset) == own);
        }
    }
}

} // verus!
