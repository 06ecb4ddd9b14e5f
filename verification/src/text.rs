//! Text building blocks: character sequences, decimal numbers and searches.
//!
//! Strings are modelled by their sequence of characters. Lists of strings
//! (command lines, option tables) are modelled by [`strs`].

use vstd::prelude::*;

verus! {

/// `String::push`: appends the given character to the end of the string.
pub assume_specification[ String::push ](s: &mut String, ch: char)
    ensures
        final(s)@ == old(s)@.push(ch),
;

/// The characters of each string of a list.
pub open spec fn strs(v: Seq<String>) -> Seq<Seq<char>> {
    v.map_values(|s: String| s@)
}

/// Whether two strings hold the same characters.
pub fn same(a: &str, b: &str) -> (r: bool)
    ensures
        r == (a@ == b@),
{
    a.to_owned() == b.to_owned()
}

/// The characters of `s`, one by one.
pub fn chars_of(s: &str) -> (r: Vec<char>)
    ensures
        r@ == s@,
{
    let mut r: Vec<char> = Vec::new();
    for c in it: s.chars()
        invariant
            it.seq() == s@,
            r@ == s@.take(it.index()),
    {
        r.push(c);
        assert(r@ =~= s@.take(it.index() + 1));
    }
    assert(r@ =~= s@);
    r
}

/// The string that holds the characters `v[from..to]`.
pub fn string_of(v: &Vec<char>, from: usize, to: usize) -> (r: String)
    requires
        from <= to <= v@.len(),
    ensures
        r@ == v@.subrange(from as int, to as int),
{
    let mut r = String::new();
    let mut i: usize = from;
    while i < to
        invariant
            from <= i <= to <= v@.len(),
            r@ == v@.subrange(from as int, i as int),
        decreases to - i,
    {
        r.push(v[i]);
        i += 1;
        assert(r@ =~= v@.subrange(from as int, i as int));
    }
    r
}

/// The character of a decimal digit.
pub open spec fn digit_char(d: nat) -> char {
    (('0' as u32) + d) as char
}

/// Decimal notation of a natural number, without leading zeros.
pub open spec fn decimal(n: nat) -> Seq<char>
    decreases n,
{
    if n < 10 {
        seq![digit_char(n)]
    } else {
        decimal(n / 10).push(digit_char(n % 10))
    }
}

fn digit(d: u64) -> (c: char)
    requires
        d < 10,
    ensures
        c == digit_char(d as nat),
{
    (48u8 + d as u8) as char
}

/// Writes `n` in decimal at the end of `out`.
pub fn push_decimal(out: &mut String, n: u64)
    ensures
        final(out)@ == old(out)@ + decimal(n as nat),
    decreases n,
{
    if n < 10 {
        out.push(digit(n));
        assert(out@ =~= old(out)@ + decimal(n as nat));
    } else {
        push_decimal(out, n / 10);
        out.push(digit(n % 10));
        assert(out@ =~= old(out)@ + decimal(n as nat));
    }
}

/// `n` in decimal with at least two digits.
pub open spec fn padded2(n: nat) -> Seq<char> {
    if n < 10 {
        seq!['0'] + decimal(n)
    } else {
        decimal(n)
    }
}

/// Writes `n` in decimal with at least two digits.
pub fn push_padded2(out: &mut String, n: u64)
    ensures
        final(out)@ == old(out)@ + padded2(n as nat),
{
    if n < 10 {
        out.push('0');
    }
    push_decimal(out, n);
    assert(out@ =~= old(out)@ + padded2(n as nat));
}

// ── Comparing and searching ────────────────────────────────────────────────

/// Whether `s` begins with `prefix`.
pub fn starts_with(s: &str, prefix: &str) -> (r: bool)
    ensures
        r == prefix@.is_prefix_of(s@),
{
    let n: usize = s.unicode_len();
    let m: usize = prefix.unicode_len();
    if m > n {
        return false;
    }
    let head = s.substring_char(0, m);
    assert(head@ =~= s@.subrange(0, m as int));
    same(head, prefix)
}

/// Whether `s` ends with `suffix`.
pub fn ends_with(s: &str, suffix: &str) -> (r: bool)
    ensures
        r == suffix@.is_suffix_of(s@),
{
    let n: usize = s.unicode_len();
    let m: usize = suffix.unicode_len();
    if m > n {
        return false;
    }
    let tail = s.substring_char(n - m, n);
    assert(tail@ =~= s@.subrange(n - m, n as int));
    same(tail, suffix)
}

/// `pattern` stands in `s` at `at`.
pub open spec fn found_at(s: Seq<char>, pattern: Seq<char>, at: int) -> bool {
    0 <= at && at + pattern.len() <= s.len() && s.subrange(at, at + pattern.len()) == pattern
}

fn matches_at(s: &Vec<char>, pattern: &Vec<char>, at: usize) -> (r: bool)
    requires
        at + pattern@.len() <= s@.len(),
    ensures
        r == found_at(s@, pattern@, at as int),
{
    let mut k: usize = 0;
    while k < pattern.len()
        invariant
            k <= pattern@.len(),
            at + pattern@.len() <= s@.len(),
            forall|j: int| 0 <= j < k ==> s@[at + j] == #[trigger] pattern@[j],
        decreases pattern@.len() - k,
    {
        let n: usize = s.len();
        assert(at + k < n);
        if s[at + k] != pattern[k] {
            assert(s@.subrange(at as int, at + pattern@.len())[k as int] != pattern@[k as int]);
            return false;
        }
        k += 1;
    }
    assert(s@.subrange(at as int, at + pattern@.len()) =~= pattern@);
    true
}

/// The last place where `pattern` stands in `s`.
pub fn find_last(s: &str, pattern: &str) -> (r: Option<usize>)
    ensures
        match r {
            Some(i) => found_at(s@, pattern@, i as int) && forall|k: int|
                i < k ==> !#[trigger] found_at(s@, pattern@, k),
            None => forall|k: int| !#[trigger] found_at(s@, pattern@, k),
        },
{
    let chars = chars_of(s);
    let wanted = chars_of(pattern);
    if wanted.len() > chars.len() {
        return None;
    }
    let mut i: usize = chars.len() - wanted.len();
    while !matches_at(&chars, &wanted, i)
        invariant
            chars@ == s@,
            wanted@ == pattern@,
            i + wanted@.len() <= chars@.len(),
            forall|k: int| i < k ==> !#[trigger] found_at(s@, pattern@, k),
        decreases i,
    {
        if i == 0 {
            return None;
        }
        i -= 1;
    }
    Some(i)
}

/// Whether `pattern` stands anywhere in `s`.
pub fn contains(s: &str, pattern: &str) -> (r: bool)
    ensures
        r == exists|k: int| found_at(s@, pattern@, k),
{
    match find_last(s, pattern) {
        Some(i) => {
            assert(found_at(s@, pattern@, i as int));
            true
        },
        None => false,
    }
}

/// Whether a list holds a string.
pub fn list_contains(list: &Vec<String>, s: &str) -> (r: bool)
    ensures
        r == strs(list@).contains(s@),
{
    let mut i: usize = 0;
    while i < list.len()
        invariant
            i <= list@.len(),
            forall|k: int| 0 <= k < i ==> (#[trigger] list@[k])@ != s@,
        decreases list@.len() - i,
    {
        if same(list[i].as_str(), s) {
            assert(strs(list@)[i as int] == s@);
            return true;
        }
        i += 1;
    }
    assert forall|k: int| 0 <= k < strs(list@).len() implies strs(list@)[k] != s@ by {
        assert(list@[k]@ != s@);
    }
    false
}

/// The characters of each of a list of borrowed strings.
pub open spec fn names(v: Seq<&'static str>) -> Seq<Seq<char>> {
    v.map_values(|s: &'static str| s@)
}

/// Whether a list of names holds a string.
pub fn names_contain(list: &Vec<&'static str>, s: &str) -> (r: bool)
    ensures
        r == names(list@).contains(s@),
{
    let mut i: usize = 0;
    while i < list.len()
        invariant
            i <= list@.len(),
            forall|k: int| 0 <= k < i ==> (#[trigger] list@[k])@ != s@,
        decreases list@.len() - i,
    {
        if same(list[i], s) {
            assert(names(list@)[i as int] == s@);
            return true;
        }
        i += 1;
    }
    assert forall|k: int| 0 <= k < names(list@).len() implies names(list@)[k] != s@ by {
        assert(list@[k]@ != s@);
    }
    false
}

// ── Building ───────────────────────────────────────────────────────────────

/// Appends a copy of `s` to a list.
pub fn push_str(list: &mut Vec<String>, s: &str)
    ensures
        strs(final(list)@) == strs(old(list)@).push(s@),
        final(list)@.len() == old(list)@.len() + 1,
{
    list.push(s.to_owned());
    assert(strs(list@) =~= strs(old(list)@).push(s@));
}

/// Appends a string to a list.
pub fn push_string(list: &mut Vec<String>, s: String)
    ensures
        strs(final(list)@) == strs(old(list)@).push(s@),
        final(list)@.len() == old(list)@.len() + 1,
{
    list.push(s);
    assert(strs(list@) =~= strs(old(list)@).push(s@));
}

/// The parts of a list put together, with `sep` between them.
pub open spec fn joined(parts: Seq<Seq<char>>, sep: Seq<char>) -> Seq<char>
    decreases parts.len(),
{
    if parts.len() == 0 {
        seq![]
    } else if parts.len() == 1 {
        parts[0]
    } else {
        joined(parts.drop_last(), sep) + sep + parts.last()
    }
}

/// Puts the parts of a list together, with `sep` between them.
pub fn join(parts: &Vec<String>, sep: &str) -> (r: String)
    ensures
        r@ == joined(strs(parts@), sep@),
{
    let mut out = String::new();
    let mut i: usize = 0;
    assert(strs(parts@).take(0) =~= seq![]);
    while i < parts.len()
        invariant
            i <= parts@.len(),
            out@ == joined(strs(parts@).take(i as int), sep@),
        decreases parts@.len() - i,
    {
        if i > 0 {
            out.append(sep);
        }
        out.append(parts[i].as_str());
        proof {
            let all = strs(parts@);
            assert(all.take(i + 1).drop_last() =~= all.take(i as int));
            assert(all.take(i + 1).last() == parts@[i as int]@);
            if i == 0 {
                assert(out@ =~= parts@[0]@);
            }
        }
        i += 1;
    }
    assert(strs(parts@).take(i as int) =~= strs(parts@));
    out
}

/// Puts two strings together.
pub fn concat2(a: &str, b: &str) -> (r: String)
    ensures
        r@ == a@ + b@,
{
    let mut out = a.to_owned();
    out.append(b);
    out
}

/// Puts three strings together.
pub fn concat3(a: &str, b: &str, c: &str) -> (r: String)
    ensures
        r@ == a@ + b@ + c@,
{
    let mut out = a.to_owned();
    out.append(b);
    out.append(c);
    out
}

// ── Reading numbers ────────────────────────────────────────────────────────

/// A decimal digit.
pub open spec fn is_digit(c: char) -> bool {
    '0' <= c <= '9'
}

/// The value of a decimal digit.
pub open spec fn digit_value(c: char) -> nat {
    (c as u32 - '0' as u32) as nat
}

/// Only decimal digits.
pub open spec fn all_digits(s: Seq<char>) -> bool {
    forall|i: int| 0 <= i < s.len() ==> is_digit(#[trigger] s[i])
}

/// The number that decimal digits stand for.
pub open spec fn number(s: Seq<char>) -> nat
    decreases s.len(),
{
    if s.len() == 0 {
        0
    } else {
        10 * number(s.drop_last()) + digit_value(s.last())
    }
}

/// The number a text stands for: decimal digits, a plus sign allowed before
/// them, up to `max`.
pub open spec fn parsed_number(s: Seq<char>, max: nat) -> Option<nat> {
    let digits = if s.len() > 0 && s[0] == '+' {
        s.skip(1)
    } else {
        s
    };
    if digits.len() > 0 && all_digits(digits) && number(digits) <= max {
        Some(number(digits))
    } else {
        None
    }
}

proof fn lemma_number_ascends(s: Seq<char>, n: int)
    requires
        0 <= n <= s.len(),
    ensures
        number(s.take(n)) <= number(s),
    decreases s.len() - n,
{
    if n < s.len() {
        lemma_number_ascends(s, n + 1);
        assert(s.take(n + 1).drop_last() =~= s.take(n));
    } else {
        assert(s.take(n) =~= s);
    }
}

fn parse_bounded(s: &str, max: u64) -> (r: Option<u64>)
    ensures
        match r {
            Some(v) => parsed_number(s@, max as nat) == Some(v as nat),
            None => parsed_number(s@, max as nat) is None,
        },
{
    let chars = chars_of(s);
    let n: usize = chars.len();
    let from: usize = if n > 0 && chars[0] == '+' {
        1
    } else {
        0
    };
    let ghost digits = if from == 1 {
        s@.skip(1)
    } else {
        s@
    };
    if from >= n {
        return None;
    }
    let mut value: u64 = 0;
    let mut i: usize = from;
    assert(digits.take(0) =~= seq![]);
    while i < n
        invariant
            from <= i <= n,
            n == chars@.len(),
            chars@ == s@,
            from == 0 || from == 1,
            digits.len() == n - from,
            forall|k: int| 0 <= k < digits.len() ==> #[trigger] digits[k] == s@[k + from],
            digits == (if s@.len() > 0 && s@[0] == '+' {
                s@.skip(1)
            } else {
                s@
            }),
            value == number(digits.take(i - from)),
            value <= max,
            forall|k: int| 0 <= k < i - from ==> is_digit(#[trigger] digits[k]),
        decreases n - i,
    {
        let c: char = chars[i];
        assert(digits[i - from] == c);
        if c < '0' || c > '9' {
            assert(!is_digit(digits[i - from]));
            return None;
        }
        let d: u64 = (c as u32 - 48) as u64;
        proof {
            assert(digits.take(i - from + 1).drop_last() =~= digits.take(i - from));
            lemma_number_ascends(digits, i - from + 1);
        }
        if value > (u64::MAX - d) / 10 || 10 * value + d > max {
            return None;
        }
        value = 10 * value + d;
        i += 1;
    }
    assert(digits.take(i - from) =~= digits);
    Some(value)
}

/// Reads a number of up to 32 bits.
pub fn parse_u32(s: &str) -> (r: Option<u32>)
    ensures
        match r {
            Some(v) => parsed_number(s@, u32::MAX as nat) == Some(v as nat),
            None => parsed_number(s@, u32::MAX as nat) is None,
        },
{
    match parse_bounded(s, u32::MAX as u64) {
        Some(v) => Some(v as u32),
        None => None,
    }
}

/// Reads a number of up to 64 bits.
pub fn parse_u64(s: &str) -> (r: Option<u64>)
    ensures
        match r {
            Some(v) => parsed_number(s@, u64::MAX as nat) == Some(v as nat),
            None => parsed_number(s@, u64::MAX as nat) is None,
        },
{
    parse_bounded(s, u64::MAX)
}

/// Decimal notation is read back as the number it was written for.
pub proof fn law_decimal_round_trip(n: nat, max: nat)
    requires
        n <= max,
    ensures
        all_digits(decimal(n)),
        number(decimal(n)) == n,
        parsed_number(decimal(n), max) == Some(n),
{
    lemma_decimal(n);
}

proof fn lemma_decimal(n: nat)
    ensures
        decimal(n).len() > 0,
        all_digits(decimal(n)),
        number(decimal(n)) == n,
    decreases n,
{
    if n < 10 {
        assert(decimal(n).drop_last() =~= seq![]);
        assert(number(Seq::<char>::empty()) == 0);
    } else {
        lemma_decimal(n / 10);
        assert(decimal(n).drop_last() =~= decimal(n / 10));
    }
}

/// The value of a text of digits, held to the range of `u64`; 0 for anything else.
pub open spec fn digits_value(s: Seq<char>) -> nat {
    if s.len() == 0 || !all_digits(s) {
        0
    } else if number(s) <= u64::MAX {
        number(s)
    } else {
        u64::MAX as nat
    }
}

/// The value of a text of digits, held to the range of `u64`; 0 for anything else.
pub fn value_of_digits(s: &str) -> (r: u64)
    ensures
        r == digits_value(s@),
{
    let chars = chars_of(s);
    let mut i: usize = 0;
    while i < chars.len()
        invariant
            i <= chars@.len(),
            chars@ == s@,
            forall|k: int| 0 <= k < i ==> is_digit(#[trigger] s@[k]),
        decreases chars@.len() - i,
    {
        if !(chars[i] >= '0' && chars[i] <= '9') {
            assert(!is_digit(s@[i as int]));
            return 0;
        }
        i += 1;
    }
    if chars.len() == 0 {
        return 0;
    }
    assert(all_digits(s@));
    assert(is_digit(s@[0]));
    match parse_u64(s) {
        Some(v) => v,
        None => u64::MAX,
    }
}

// ── Taking apart ───────────────────────────────────────────────────────────

/// A character with the Unicode property `White_Space`.
pub open spec fn is_white(c: char) -> bool {
    let n = c as u32;
    ||| 0x09 <= n <= 0x0d
    ||| n == 0x20
    ||| n == 0x85
    ||| n == 0xa0
    ||| n == 0x1680
    ||| 0x2000 <= n <= 0x200a
    ||| n == 0x2028
    ||| n == 0x2029
    ||| n == 0x202f
    ||| n == 0x205f
    ||| n == 0x3000
}

fn white(c: char) -> (r: bool)
    ensures
        r == is_white(c),
{
    let n: u32 = c as u32;
    (0x09 <= n && n <= 0x0d) || n == 0x20 || n == 0x85 || n == 0xa0 || n == 0x1680 || (0x2000 <= n
        && n <= 0x200a) || n == 0x2028 || n == 0x2029 || n == 0x202f || n == 0x205f || n == 0x3000
}

/// `s` without white space at its start.
pub open spec fn trimmed_start(s: Seq<char>) -> Seq<char>
    decreases s.len(),
{
    if s.len() > 0 && is_white(s[0]) {
        trimmed_start(s.skip(1))
    } else {
        s
    }
}

/// `s` without white space at its end.
pub open spec fn trimmed_end(s: Seq<char>) -> Seq<char>
    decreases s.len(),
{
    if s.len() > 0 && is_white(s.last()) {
        trimmed_end(s.drop_last())
    } else {
        s
    }
}

/// `s` without white space around it.
pub open spec fn trimmed(s: Seq<char>) -> Seq<char> {
    trimmed_end(trimmed_start(s))
}

/// Takes away the white space around a text.
pub fn trim(s: &str) -> (r: String)
    ensures
        r@ == trimmed(s@),
{
    let chars = chars_of(s);
    let n: usize = chars.len();
    let mut from: usize = 0;
    assert(s@.skip(0) =~= s@);
    while from < n && white(chars[from])
        invariant
            from <= n,
            n == chars@.len(),
            chars@ == s@,
            trimmed_start(s@.skip(from as int)) == trimmed_start(s@),
        decreases n - from,
    {
        assert(s@.skip(from as int).skip(1) =~= s@.skip(from + 1));
        from += 1;
    }
    let ghost rest = s@.skip(from as int);
    assert(trimmed_start(s@) == rest);
    let mut to: usize = n;
    assert(s@.subrange(from as int, to as int) =~= rest);
    while to > from && white(chars[to - 1])
        invariant
            from <= to <= n,
            n == chars@.len(),
            chars@ == s@,
            trimmed_end(s@.subrange(from as int, to as int)) == trimmed_end(rest),
        decreases to,
    {
        assert(s@.subrange(from as int, to as int).drop_last() =~= s@.subrange(
            from as int,
            to - 1,
        ));
        to -= 1;
    }
    string_of(&chars, from, to)
}

/// The parts between the separators in the first `n` characters.
pub open spec fn split_upto(s: Seq<char>, sep: char, n: int) -> Seq<Seq<char>>
    decreases n,
{
    if n <= 0 {
        seq![Seq::<char>::empty()]
    } else {
        let before = split_upto(s, sep, n - 1);
        if s[n - 1] == sep {
            before.push(Seq::<char>::empty())
        } else {
            before.drop_last().push(before.last().push(s[n - 1]))
        }
    }
}

/// The parts of `s` between the separators.
pub open spec fn split_at(s: Seq<char>, sep: char) -> Seq<Seq<char>> {
    split_upto(s, sep, s.len() as int)
}

/// Takes a text apart at every separator.
pub fn split(s: &str, sep: char) -> (r: Vec<String>)
    ensures
        strs(r@) == split_at(s@, sep),
        r@.len() > 0,
{
    let chars = chars_of(s);
    let mut parts: Vec<String> = Vec::new();
    let mut current = String::new();
    let mut i: usize = 0;
    assert(strs(parts@).push(current@) =~= split_upto(s@, sep, 0));
    while i < chars.len()
        invariant
            i <= chars@.len(),
            chars@ == s@,
            strs(parts@).push(current@) == split_upto(s@, sep, i as int),
        decreases chars@.len() - i,
    {
        let c: char = chars[i];
        let ghost before = strs(parts@).push(current@);
        if c == sep {
            push_string(&mut parts, current);
            current = String::new();
            assert(strs(parts@).push(current@) =~= before.push(Seq::<char>::empty()));
        } else {
            current.push(c);
            assert(strs(parts@).push(current@) =~= before.drop_last().push(before.last().push(c)));
        }
        i += 1;
    }
    push_string(&mut parts, current);
    parts
}

/// The words that have ended within the first `n` characters, and the one that
/// has not.
pub open spec fn words_upto(s: Seq<char>, n: int) -> (Seq<Seq<char>>, Seq<char>)
    decreases n,
{
    if n <= 0 {
        (seq![], seq![])
    } else {
        let (ended, current) = words_upto(s, n - 1);
        if !is_white(s[n - 1]) {
            (ended, current.push(s[n - 1]))
        } else if current.len() > 0 {
            (ended.push(current), seq![])
        } else {
            (ended, current)
        }
    }
}

/// The words of a text: what stands between white space.
pub open spec fn words_of(s: Seq<char>) -> Seq<Seq<char>> {
    let (ended, current) = words_upto(s, s.len() as int);
    if current.len() > 0 {
        ended.push(current)
    } else {
        ended
    }
}

/// Takes a text apart into words.
pub fn words(s: &str) -> (r: Vec<String>)
    ensures
        strs(r@) == words_of(s@),
        r@.len() == words_of(s@).len(),
{
    let chars = chars_of(s);
    let mut parts: Vec<String> = Vec::new();
    let mut current = String::new();
    let mut i: usize = 0;
    assert(strs(parts@) =~= seq![]);
    while i < chars.len()
        invariant
            i <= chars@.len(),
            chars@ == s@,
            (strs(parts@), current@) == words_upto(s@, i as int),
        decreases chars@.len() - i,
    {
        let c: char = chars[i];
        if !white(c) {
            current.push(c);
        } else if !current.as_str().is_empty() {
            push_string(&mut parts, current);
            current = String::new();
        }
        i += 1;
    }
    if !current.as_str().is_empty() {
        push_string(&mut parts, current);
    }
    assert(strs(parts@).len() == parts@.len());
    parts
}

// ── Replacing and letter case ──────────────────────────────────────────────

/// `s` with every occurrence of `from` replaced by `to`, from left to right.
pub open spec fn replaced(s: Seq<char>, from: Seq<char>, to: Seq<char>) -> Seq<char>
    recommends
        from.len() > 0,
    decreases s.len(),
{
    if s.len() == 0 || from.len() == 0 {
        s
    } else if from.is_prefix_of(s) {
        to + replaced(s.skip(from.len() as int), from, to)
    } else {
        seq![s[0]] + replaced(s.skip(1), from, to)
    }
}

/// Replaces every occurrence of `from`, from left to right.
pub fn replace(s: &str, from: &str, to: &str) -> (r: String)
    requires
        from@.len() > 0,
    ensures
        r@ == replaced(s@, from@, to@),
{
    let chars = chars_of(s);
    let wanted = chars_of(from);
    let n: usize = chars.len();
    let m: usize = wanted.len();
    let mut out = String::new();
    let mut i: usize = 0;
    assert(s@.skip(0) =~= s@);
    while i < n
        invariant
            i <= n,
            n == chars@.len(),
            m == wanted@.len(),
            m > 0,
            chars@ == s@,
            wanted@ == from@,
            out@ + replaced(s@.skip(i as int), from@, to@) == replaced(s@, from@, to@),
        decreases n - i,
    {
        let ghost rest = s@.skip(i as int);
        assert(rest.len() > 0);
        if n - i >= m && matches_at(&chars, &wanted, i) {
            assert(from@.is_prefix_of(rest)) by {
                assert(rest.subrange(0, m as int) =~= s@.subrange(i as int, i + m));
            }
            assert(rest.skip(m as int) =~= s@.skip(i + m));
            let ghost before = out@;
            out.append(to);
            assert(out@ + replaced(s@.skip(i + m), from@, to@) =~= before + (to@ + replaced(
                s@.skip(i + m),
                from@,
                to@,
            )));
            i += m;
        } else {
            assert(!from@.is_prefix_of(rest)) by {
                if from@.is_prefix_of(rest) {
                    assert(rest.subrange(0, m as int) =~= s@.subrange(i as int, i + m));
                }
            }
            assert(rest.skip(1) =~= s@.skip(i + 1));
            let ghost before = out@;
            out.push(chars[i]);
            assert(out@ + replaced(s@.skip(i + 1), from@, to@) =~= before + (seq![rest[0]]
                + replaced(s@.skip(i + 1), from@, to@)));
            i += 1;
        }
    }
    assert(out@ + replaced(s@.skip(n as int), from@, to@) =~= out@);
    out
}

/// `n` in decimal with at least three digits.
pub open spec fn padded3(n: nat) -> Seq<char> {
    if n < 100 {
        seq!['0'] + padded2(n)
    } else {
        decimal(n)
    }
}

/// Writes `n` in decimal with at least three digits.
pub fn push_padded3(out: &mut String, n: u64)
    ensures
        final(out)@ == old(out)@ + padded3(n as nat),
{
    if n < 100 {
        out.push('0');
        push_padded2(out, n);
    } else {
        push_decimal(out, n);
    }
    assert(out@ =~= old(out)@ + padded3(n as nat));
}

/// The lower-case form of an ASCII character.
pub open spec fn ascii_lower(c: char) -> char {
    if 'A' <= c && c <= 'Z' {
        ((c as u32) + 32) as char
    } else {
        c
    }
}

/// The lower-case form of an ASCII letter; any other character as it is.
pub(crate) fn lowered(c: char) -> (r: char)
    ensures
        r == ascii_lower(c),
{
    if c >= 'A' && c <= 'Z' {
        (c as u8 + 32) as char
    } else {
        c
    }
}

/// `s` holds ASCII characters alone.
pub open spec fn all_ascii(s: Seq<char>) -> bool {
    forall|i: int| 0 <= i < s.len() ==> (#[trigger] s[i] as u32) < 128
}

/// What `str::to_lowercase` returns for a text.
pub uninterp spec fn lowercase(s: Seq<char>) -> Seq<char>;

/// `str::to_lowercase`: the lower-case form of a text by the Unicode tables.
/// Of a text of ASCII characters it is known letter by letter; of any other
/// text only that it depends on nothing but the text.
#[verifier::external_body]
pub(crate) fn to_lowercase(s: &str) -> (r: String)
    ensures
        r@ == lowercase(s@),
        all_ascii(s@) ==> r@ == s@.map_values(|c: char| ascii_lower(c)),
{
    s.to_lowercase()
}

// ── Order ──────────────────────────────────────────────────────────────────

/// `a` stands before `b` in the order of their characters.
pub open spec fn lex_less(a: Seq<char>, b: Seq<char>) -> bool
    decreases a.len(),
{
    if b.len() == 0 {
        false
    } else if a.len() == 0 {
        true
    } else if a[0] != b[0] {
        a[0] < b[0]
    } else {
        lex_less(a.skip(1), b.skip(1))
    }
}

/// Whether `a` stands before `b` in the order of their characters.
pub fn text_less(a: &str, b: &str) -> (r: bool)
    ensures
        r == lex_less(a@, b@),
{
    let x = chars_of(a);
    let y = chars_of(b);
    let mut i: usize = 0;
    assert(a@.skip(0) =~= a@ && b@.skip(0) =~= b@);
    while i < x.len() && i < y.len()
        invariant
            i <= x@.len(),
            i <= y@.len(),
            x@ == a@,
            y@ == b@,
            lex_less(a@.skip(i as int), b@.skip(i as int)) == lex_less(a@, b@),
        decreases x@.len() - i,
    {
        if x[i] != y[i] {
            return x[i] < y[i];
        }
        assert(a@.skip(i as int).skip(1) =~= a@.skip(i + 1));
        assert(b@.skip(i as int).skip(1) =~= b@.skip(i + 1));
        i += 1;
    }
    i < y.len()
}

/// No text stands before itself, and of two different texts exactly one stands
/// before the other.
pub proof fn law_order_is_total(a: Seq<char>, b: Seq<char>)
    ensures
        !lex_less(a, a),
        !(lex_less(a, b) && lex_less(b, a)),
        a == b || lex_less(a, b) || lex_less(b, a),
    decreases a.len(),
{
    if a.len() > 0 {
        if b.len() > 0 {
            law_order_is_total(a.skip(1), b.skip(1));
            if a[0] == b[0] && a.skip(1) == b.skip(1) {
                assert(a =~= b) by {
                    assert(a =~= seq![a[0]] + a.skip(1));
                    assert(b =~= seq![b[0]] + b.skip(1));
                }
            }
        } else {
            law_order_is_total(a.skip(1), b);
        }
    } else if b.len() == 0 {
        assert(a =~= b);
    }
}

/// The order of texts is transitive.
pub proof fn law_order_is_transitive(a: Seq<char>, b: Seq<char>, c: Seq<char>)
    requires
        lex_less(a, b),
        lex_less(b, c),
    ensures
        lex_less(a, c),
    decreases a.len(),
{
    if a.len() > 0 && a[0] == b[0] && b[0] == c[0] {
        law_order_is_transitive(a.skip(1), b.skip(1), c.skip(1));
    }
}

/// Texts in ascending order, none of them twice.
pub open spec fn ascending(list: Seq<Seq<char>>) -> bool {
    forall|i: int, j: int| 0 <= i < j < list.len() ==> lex_less(list[i], list[j])
}

/// An ascending list with one more text, which it may hold already.
pub open spec fn inserted(list: Seq<Seq<char>>, s: Seq<char>) -> Seq<Seq<char>>
    decreases list.len(),
{
    if list.len() == 0 {
        seq![s]
    } else if list[0] == s {
        list
    } else if lex_less(s, list[0]) {
        seq![s] + list
    } else {
        seq![list[0]] + inserted(list.skip(1), s)
    }
}

/// Puts a text into an ascending list.
pub fn insert_text(list: &mut Vec<String>, s: &str)
    ensures
        strs(final(list)@) == inserted(strs(old(list)@), s@),
{
    let ghost all = strs(list@);
    let mut i: usize = 0;
    assert(all.take(0) + inserted(all.skip(0), s@) =~= inserted(all, s@)) by {
        assert(all.skip(0) =~= all);
    }
    while i < list.len() && text_less(list[i].as_str(), s)
        invariant
            i <= list@.len(),
            all == strs(list@),
            all.take(i as int) + inserted(all.skip(i as int), s@) == inserted(all, s@),
        decreases list@.len() - i,
    {
        proof {
            let rest = all.skip(i as int);
            assert(rest[0] == list@[i as int]@);
            law_order_is_total(rest[0], s@);
            assert(rest.skip(1) =~= all.skip(i + 1));
            assert(all.take(i as int) + (seq![rest[0]] + inserted(all.skip(i + 1), s@))
                =~= all.take(i + 1) + inserted(all.skip(i + 1), s@));
        }
        i += 1;
    }
    if i < list.len() && same(list[i].as_str(), s) {
        proof {
            let rest = all.skip(i as int);
            assert(rest[0] == list@[i as int]@);
            assert(all.take(i as int) + rest =~= all);
        }
        return;
    }
    proof {
        let rest = all.skip(i as int);
        if i < list@.len() {
            assert(rest[0] == list@[i as int]@);
            law_order_is_total(rest[0], s@);
        }
        assert(inserted(rest, s@) =~= seq![s@] + rest);
    }
    list.insert(i, s.to_owned());
    assert(strs(list@) =~= all.take(i as int) + (seq![s@] + all.skip(i as int)));
}

/// Inserting keeps a list ascending and adds the one text and no other.
pub proof fn law_insert_keeps_order(list: Seq<Seq<char>>, s: Seq<char>)
    requires
        ascending(list),
    ensures
        ascending(inserted(list, s)),
        forall|x: Seq<char>| #[trigger]
            inserted(list, s).contains(x) <==> list.contains(x) || x == s,
    decreases list.len(),
{
    let out = inserted(list, s);
    if list.len() == 0 {
        assert(out[0] == s);
    } else if list[0] == s {
        assert(list.contains(s));
    } else if lex_less(s, list[0]) {
        assert forall|i: int, j: int| 0 <= i < j < out.len() implies lex_less(out[i], out[j]) by {
            if i == 0 {
                if j > 1 {
                    law_order_is_transitive(s, list[0], list[j - 1]);
                }
            } else {
                assert(lex_less(list[i - 1], list[j - 1]));
            }
        }
        assert forall|x: Seq<char>| #[trigger] out.contains(x) <==> list.contains(x) || x == s by {
            if list.contains(x) {
                let k = choose|k: int| 0 <= k < list.len() && list[k] == x;
                assert(out[k + 1] == x);
            }
            assert(out[0] == s);
            if out.contains(x) {
                let k = choose|k: int| 0 <= k < out.len() && out[k] == x;
                if k > 0 {
                    assert(list[k - 1] == x);
                }
            }
        }
    } else {
        let rest = list.skip(1);
        let tail = inserted(rest, s);
        assert(ascending(rest)) by {
            assert forall|i: int, j: int| 0 <= i < j < rest.len() implies lex_less(
                rest[i],
                rest[j],
            ) by {
                assert(lex_less(list[i + 1], list[j + 1]));
            }
        }
        law_insert_keeps_order(rest, s);
        law_order_is_total(list[0], s);
        assert forall|i: int, j: int| 0 <= i < j < out.len() implies lex_less(out[i], out[j]) by {
            if i == 0 {
                assert(tail.contains(tail[j - 1]));
                let x = tail[j - 1];
                if x != s {
                    let k = choose|k: int| 0 <= k < rest.len() && rest[k] == x;
                    assert(lex_less(list[0], list[k + 1]));
                }
            } else {
                assert(lex_less(tail[i - 1], tail[j - 1]));
            }
        }
        assert forall|x: Seq<char>| #[trigger] out.contains(x) <==> list.contains(x) || x == s by {
            assert(tail.contains(x) <==> rest.contains(x) || x == s);
            if list.contains(x) {
                let k = choose|k: int| 0 <= k < list.len() && list[k] == x;
                if k == 0 {
                    assert(out[0] == x);
                } else {
                    assert(rest[k - 1] == x);
                    let m = choose|m: int| 0 <= m < tail.len() && tail[m] == x;
                    assert(out[m + 1] == x);
                }
            }
            if x == s {
                let m = choose|m: int| 0 <= m < tail.len() && tail[m] == x;
                assert(out[m + 1] == x);
            }
            if out.contains(x) {
                let k = choose|k: int| 0 <= k < out.len() && out[k] == x;
                if k == 0 {
                    assert(list[0] == x);
                } else {
                    assert(tail[k - 1] == x);
                    if x != s {
                        let m = choose|m: int| 0 <= m < rest.len() && rest[m] == x;
                        assert(list[m + 1] == x);
                    }
                }
            }
        }
    }
}

} // verus!
