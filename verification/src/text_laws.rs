//! What the text building blocks promise: numbers are written so that they can be
//! read, lists are put together and taken apart without loss, and trimming takes
//! away white space only.

use vstd::prelude::*;

use crate::text::{
    decimal, is_white, joined, padded2, padded3, replaced, split_at, split_upto,
    trimmed, trimmed_end, trimmed_start, words_of, words_upto,
};

verus! {

// ── Numbers ────────────────────────────────────────────────────────────────

/// What the first `k` characters are worth, read as decimal digits from the left.
pub open spec fn worth_upto(s: Seq<char>, k: int) -> int
    decreases k,
{
    if k <= 0 {
        0
    } else {
        10 * worth_upto(s, k - 1) + (s[k - 1] as int - 48)
    }
}

/// A text is a number in decimal digits.
pub open spec fn spells_number(s: Seq<char>, n: int) -> bool {
    &&& s.len() > 0
    &&& forall|i: int| 0 <= i < s.len() ==> 48 <= (#[trigger] s[i]) as int <= 57
    &&& worth_upto(s, s.len() as int) == n
}

proof fn lemma_worth_prefix(a: Seq<char>, b: Seq<char>, k: int)
    requires
        0 <= k <= a.len(),
        k <= b.len(),
        forall|i: int| 0 <= i < k ==> a[i] == b[i],
    ensures
        worth_upto(a, k) == worth_upto(b, k),
    decreases k,
{
    if k > 0 {
        lemma_worth_prefix(a, b, k - 1);
    }
}

/// A zero before a number changes nothing.
proof fn lemma_worth_zero(s: Seq<char>, k: int)
    requires
        0 <= k <= s.len(),
    ensures
        worth_upto(seq!['0'] + s, k + 1) == worth_upto(s, k),
    decreases k,
{
    let z = seq!['0'] + s;
    if k > 0 {
        lemma_worth_zero(s, k - 1);
        assert(z[k] == s[k - 1]);
    } else {
        assert(z[0] == '0');
        assert(worth_upto(z, 0) == 0);
    }
}

/// A number is written with the digits it is read from, without a zero at the start
/// unless it is zero.
pub proof fn law_decimal_spells(n: nat)
    ensures
        spells_number(decimal(n), n as int),
        n > 0 ==> decimal(n)[0] != '0',
    decreases n,
{
    if n < 10 {
        let s = decimal(n);
        assert(s.len() == 1);
        assert(worth_upto(s, 0) == 0);
        assert(s[0] as int == 48 + n);
    } else {
        law_decimal_spells(n / 10);
        let head = decimal(n / 10);
        let s = decimal(n);
        assert(s[head.len() as int] as int == 48 + n % 10);
        assert forall|i: int| 0 <= i < s.len() implies 48 <= (#[trigger] s[i]) as int <= 57 by {
            if i < head.len() {
                assert(s[i] == head[i]);
            }
        }
        lemma_worth_prefix(s, head, head.len() as int);
        assert(s[0] == head[0]);
    }
}

/// Different numbers are written differently.
pub proof fn law_decimals_differ(a: nat, b: nat)
    requires
        decimal(a) == decimal(b),
    ensures
        a == b,
{
    law_decimal_spells(a);
    law_decimal_spells(b);
}

/// A padded number reads as itself, with at least two and three digits, and no more
/// zeros than are needed for them.
pub proof fn law_padded_spells(n: nat)
    ensures
        spells_number(padded2(n), n as int),
        padded2(n).len() >= 2,
        padded2(n).len() > 2 ==> padded2(n) == decimal(n),
        spells_number(padded3(n), n as int),
        padded3(n).len() >= 3,
        padded3(n).len() > 3 ==> padded3(n) == decimal(n),
        n < 100 ==> padded2(n).len() == 2,
        n < 1000 ==> padded3(n).len() == 3,
{
    law_decimal_spells(n);
    lemma_worth_zero(decimal(n), decimal(n).len() as int);
    law_decimal_spells(n / 10);
    law_decimal_spells(n / 10 / 10);
    if n < 10 {
        assert(padded2(n) =~= seq!['0'] + decimal(n));
    } else {
        assert(decimal(n).len() == decimal(n / 10).len() + 1);
    }
    if n >= 100 {
        assert(decimal(n / 10).len() == decimal(n / 10 / 10).len() + 1);
    }
    lemma_worth_zero(padded2(n), padded2(n).len() as int);
    assert forall|i: int| 0 <= i < padded2(n).len() implies 48 <= (#[trigger] padded2(n)[i]) as int
        <= 57 by {
        if n < 10 && i > 0 {
            assert(padded2(n)[i] == decimal(n)[i - 1]);
        }
    }
    assert forall|i: int| 0 <= i < padded3(n).len() implies 48 <= (#[trigger] padded3(n)[i]) as int
        <= 57 by {
        if n < 100 && i > 0 {
            assert(padded3(n)[i] == padded2(n)[i - 1]);
        }
    }
}

// ── Lists ──────────────────────────────────────────────────────────────────

/// Where part `i` begins once parts are put together: behind the parts before it, each
/// followed by a separator.
pub open spec fn part_offset(parts: Seq<Seq<char>>, sep: nat, i: int) -> int
    decreases i,
{
    if i <= 0 {
        0
    } else {
        part_offset(parts, sep, i - 1) + parts[i - 1].len() + sep
    }
}

proof fn lemma_offset_prefix(a: Seq<Seq<char>>, b: Seq<Seq<char>>, sep: nat, i: int)
    requires
        0 <= i <= a.len(),
        i <= b.len(),
        forall|k: int| 0 <= k < i ==> a[k] == b[k],
    ensures
        part_offset(a, sep, i) == part_offset(b, sep, i),
        part_offset(a, sep, i) >= 0,
    decreases i,
{
    if i > 0 {
        lemma_offset_prefix(a, b, sep, i - 1);
    }
}

proof fn lemma_joined_len(parts: Seq<Seq<char>>, sep: Seq<char>)
    ensures
        parts.len() == 0 ==> joined(parts, sep).len() == 0,
        parts.len() > 0 ==> joined(parts, sep).len() == part_offset(
            parts,
            sep.len(),
            parts.len() as int,
        ) - sep.len(),
    decreases parts.len(),
{
    let s = sep.len();
    if parts.len() == 1 {
        assert(part_offset(parts, s, 0) == 0);
        assert(part_offset(parts, s, 1) == parts[0].len() + s);
    } else if parts.len() > 1 {
        let head = parts.drop_last();
        lemma_joined_len(head, sep);
        lemma_offset_prefix(head, parts, s, head.len() as int);
    }
}

/// Putting parts together keeps each one whole and in its place: part `i` stands behind
/// the parts before it, with the separator between each two and nothing else.
pub proof fn law_joined_holds_parts(parts: Seq<Seq<char>>, sep: Seq<char>, i: int)
    requires
        0 <= i < parts.len(),
    ensures
        ({
            let whole = joined(parts, sep);
            let at = part_offset(parts, sep.len(), i);
            &&& whole.len() + sep.len() == part_offset(parts, sep.len(), parts.len() as int)
            &&& 0 <= at <= at + parts[i].len() <= whole.len()
            &&& whole.subrange(at, at + parts[i].len()) == parts[i]
            &&& i > 0 ==> sep.len() <= at && whole.subrange(at - sep.len(), at) == sep
        }),
    decreases parts.len(),
{
    let s = sep.len();
    let whole = joined(parts, sep);
    let at = part_offset(parts, s, i);
    lemma_joined_len(parts, sep);
    if parts.len() == 1 {
        assert(whole.subrange(0, parts[0].len() as int) =~= parts[0]);
    } else {
        let head = parts.drop_last();
        let n = head.len() as int;
        let before = joined(head, sep);
        lemma_joined_len(head, sep);
        lemma_offset_prefix(head, parts, s, n);
        assert(whole == before + sep + parts.last());
        if i < n {
            law_joined_holds_parts(head, sep, i);
            lemma_offset_prefix(head, parts, s, i);
            assert(whole.subrange(at, at + parts[i].len()) =~= before.subrange(
                at,
                at + parts[i].len(),
            ));
            if i > 0 {
                assert(whole.subrange(at - s, at) =~= before.subrange(at - s, at));
            }
        } else {
            assert(at == before.len() + s);
            assert(whole.subrange(at, at + parts[i].len()) =~= parts[n]);
            assert(whole.subrange(at - s, at) =~= sep);
        }
    }
}

proof fn lemma_split(s: Seq<char>, sep: char, n: int)
    requires
        0 <= n <= s.len(),
    ensures
        split_upto(s, sep, n).len() > 0,
        joined(split_upto(s, sep, n), seq![sep]) == s.take(n),
        forall|i: int| 0 <= i < split_upto(s, sep, n).len() ==> !(#[trigger] split_upto(
            s,
            sep,
            n,
        )[i]).contains(sep),
    decreases n,
{
    let parts = split_upto(s, sep, n);
    if n <= 0 {
        assert(parts.len() == 1);
        assert(joined(parts, seq![sep]) =~= s.take(0));
    } else {
        lemma_split(s, sep, n - 1);
        let before = split_upto(s, sep, n - 1);
        assert(s.take(n) =~= s.take(n - 1).push(s[n - 1]));
        if s[n - 1] == sep {
            assert(parts.drop_last() =~= before);
            assert(joined(parts, seq![sep]) =~= joined(before, seq![sep]) + seq![sep] + Seq::<
                char,
            >::empty());
            assert(joined(parts, seq![sep]) =~= s.take(n));
            assert forall|i: int| 0 <= i < parts.len() implies !(#[trigger] parts[i]).contains(sep) by {
                if i < before.len() {
                    assert(parts[i] == before[i]);
                }
            }
        } else {
            let grown = before.last().push(s[n - 1]);
            assert(parts.drop_last() =~= before.drop_last());
            assert(parts.last() == grown);
            if before.len() > 1 {
                assert(joined(parts, seq![sep]) =~= joined(before.drop_last(), seq![sep])
                    + seq![sep] + grown);
                assert(joined(parts, seq![sep]) =~= joined(before, seq![sep]).push(s[n - 1]));
            } else {
                assert(joined(parts, seq![sep]) =~= joined(before, seq![sep]).push(s[n - 1]));
            }
            assert forall|i: int| 0 <= i < parts.len() implies !(#[trigger] parts[i]).contains(sep) by {
                if i < before.len() - 1 {
                    assert(parts[i] == before[i]);
                } else {
                    assert(!before[before.len() - 1].contains(sep));
                    if grown.contains(sep) {
                        let k = choose|k: int| 0 <= k < grown.len() && grown[k] == sep;
                        assert(before.last()[k] == sep);
                    }
                }
            }
        }
    }
}

/// What was taken apart at a separator is put together again by it, and no part holds
/// the separator.
pub proof fn law_split_loses_nothing(s: Seq<char>, sep: char)
    ensures
        joined(split_at(s, sep), seq![sep]) == s,
        forall|i: int| 0 <= i < split_at(s, sep).len() ==> !(#[trigger] split_at(
            s,
            sep,
        )[i]).contains(sep),
{
    lemma_split(s, sep, s.len() as int);
    assert(s.take(s.len() as int) =~= s);
}

// ── White space ────────────────────────────────────────────────────────────

proof fn lemma_trimmed_start(s: Seq<char>) -> (at: int)
    ensures
        0 <= at <= s.len(),
        trimmed_start(s) == s.skip(at),
        forall|i: int| 0 <= i < at ==> is_white(#[trigger] s[i]),
        at < s.len() ==> !is_white(s[at]),
    decreases s.len(),
{
    if s.len() > 0 && is_white(s[0]) {
        let at = lemma_trimmed_start(s.skip(1));
        assert(s.skip(1).skip(at) =~= s.skip(at + 1));
        assert forall|i: int| 0 <= i < at + 1 implies is_white(#[trigger] s[i]) by {
            if i > 0 {
                assert(s.skip(1)[i - 1] == s[i]);
            }
        }
        at + 1
    } else {
        assert(s.skip(0) =~= s);
        0
    }
}

proof fn lemma_trimmed_end(s: Seq<char>) -> (to: int)
    ensures
        0 <= to <= s.len(),
        trimmed_end(s) == s.take(to),
        forall|i: int| to <= i < s.len() ==> is_white(#[trigger] s[i]),
        to > 0 ==> !is_white(s[to - 1]),
    decreases s.len(),
{
    if s.len() > 0 && is_white(s.last()) {
        let to = lemma_trimmed_end(s.drop_last());
        assert(s.drop_last().take(to) =~= s.take(to));
        assert forall|i: int| to <= i < s.len() implies is_white(#[trigger] s[i]) by {
            if i < s.len() - 1 {
                assert(s.drop_last()[i] == s[i]);
            }
        }
        to
    } else {
        assert(s.take(s.len() as int) =~= s);
        s.len() as int
    }
}

/// Trimming takes away white space at both ends and nothing else: what is left stands
/// in the text, neither begins nor ends with white space, and around it there is only
/// white space.
pub proof fn law_trimming(s: Seq<char>)
    ensures
        exists|from: int, to: int|
            {
                &&& 0 <= from <= to <= s.len()
                &&& trimmed(s) == #[trigger] s.subrange(from, to)
                &&& forall|i: int| 0 <= i < from ==> is_white(#[trigger] s[i])
                &&& forall|i: int| to <= i < s.len() ==> is_white(#[trigger] s[i])
            },
        trimmed(s).len() > 0 ==> !is_white(trimmed(s)[0]) && !is_white(trimmed(s).last()),
{
    let from = lemma_trimmed_start(s);
    let rest = s.skip(from);
    let len = lemma_trimmed_end(rest);
    assert(rest.take(len) =~= s.subrange(from, from + len));
    assert forall|i: int| from + len <= i < s.len() implies is_white(#[trigger] s[i]) by {
        assert(rest[i - from] == s[i]);
    }
}

/// The characters of a list of words, one after the other.
pub open spec fn flat(words: Seq<Seq<char>>) -> Seq<char>
    decreases words.len(),
{
    if words.len() == 0 {
        seq![]
    } else {
        flat(words.drop_last()) + words.last()
    }
}

/// The characters among the first `n` that are no white space.
pub open spec fn dark_upto(s: Seq<char>, n: int) -> Seq<char>
    decreases n,
{
    if n <= 0 {
        seq![]
    } else if is_white(s[n - 1]) {
        dark_upto(s, n - 1)
    } else {
        dark_upto(s, n - 1).push(s[n - 1])
    }
}

/// A word holds something, and no white space.
pub open spec fn is_word(w: Seq<char>) -> bool {
    w.len() > 0 && forall|i: int| 0 <= i < w.len() ==> !is_white(#[trigger] w[i])
}

proof fn lemma_words(s: Seq<char>, n: int)
    requires
        0 <= n <= s.len(),
    ensures
        ({
            let (ended, current) = words_upto(s, n);
            &&& flat(ended) + current == dark_upto(s, n)
            &&& forall|i: int| 0 <= i < ended.len() ==> is_word(#[trigger] ended[i])
            &&& current.len() > 0 ==> is_word(current)
            &&& (current.len() > 0 <==> n > 0 && !is_white(s[n - 1]))
        }),
    decreases n,
{
    if n > 0 {
        lemma_words(s, n - 1);
        let (ended, current) = words_upto(s, n - 1);
        let (now_ended, now) = words_upto(s, n);
        if !is_white(s[n - 1]) {
            assert(flat(ended) + current.push(s[n - 1]) =~= (flat(ended) + current).push(s[n - 1]));
        } else if current.len() > 0 {
            assert(now_ended.drop_last() =~= ended);
            assert(flat(now_ended) + now =~= flat(ended) + current);
            assert forall|i: int| 0 <= i < now_ended.len() implies is_word(
                #[trigger] now_ended[i],
            ) by {
                if i < ended.len() {
                    assert(now_ended[i] == ended[i]);
                }
            }
        }
    } else {
        assert(flat(seq![]) + Seq::<char>::empty() =~= dark_upto(s, 0));
    }
}

/// The words of a text hold all its characters but the white space, in their order.
/// No word is empty or holds white space.
pub proof fn law_words_lose_nothing(s: Seq<char>)
    ensures
        flat(words_of(s)) == dark_upto(s, s.len() as int),
        forall|i: int| 0 <= i < words_of(s).len() ==> is_word(#[trigger] words_of(s)[i]),
{
    lemma_words(s, s.len() as int);
    let (ended, current) = words_upto(s, s.len() as int);
    if current.len() > 0 {
        assert(ended.push(current).drop_last() =~= ended);
    } else {
        assert(flat(ended) + current =~= flat(ended));
    }
    assert forall|i: int| 0 <= i < words_of(s).len() implies is_word(#[trigger] words_of(s)[i]) by {
        if i < ended.len() {
            assert(words_of(s)[i] == ended[i]);
        }
    }
}

// ── Replacing ──────────────────────────────────────────────────────────────

/// A text in which nothing is to be replaced stays as it is.
pub proof fn law_nothing_to_replace(s: Seq<char>, from: Seq<char>, to: Seq<char>)
    requires
        from.len() > 0,
        forall|k: int| 0 <= k && k + from.len() <= s.len() ==> #[trigger] s.subrange(
            k,
            k + from.len(),
        ) != from,
    ensures
        replaced(s, from, to) == s,
    decreases s.len(),
{
    if s.len() > 0 {
        let rest = s.skip(1);
        if from.is_prefix_of(s) {
            assert(s.subrange(0int, 0int + from.len()) == from);
        }
        assert forall|k: int| 0 <= k && k + from.len() <= rest.len() implies #[trigger] rest.subrange(
            k,
            k + from.len(),
        ) != from by {
            assert(rest.subrange(k, k + from.len()) =~= s.subrange(k + 1, k + 1 + from.len()));
        }
        law_nothing_to_replace(rest, from, to);
        assert(seq![s[0]] + rest =~= s);
    }
}

/// The first occurrence is replaced by the new text; what stands before it stays, and
/// replacing goes on behind it.
pub proof fn law_first_is_replaced(s: Seq<char>, from: Seq<char>, to: Seq<char>, at: int)
    requires
        from.len() > 0,
        0 <= at <= at + from.len() <= s.len(),
        s.subrange(at, at + from.len()) == from,
        forall|k: int| 0 <= k < at ==> #[trigger] s.subrange(k, k + from.len()) != from,
    ensures
        replaced(s, from, to) == s.take(at) + to + replaced(s.skip(at + from.len()), from, to),
    decreases s.len(),
{
    if at == 0 {
        assert(from.is_prefix_of(s));
        assert(s.take(0) + to + replaced(s.skip(from.len() as int), from, to) =~= to + replaced(
            s.skip(from.len() as int),
            from,
            to,
        ));
    } else {
        let rest = s.skip(1);
        if from.is_prefix_of(s) {
            assert(s.subrange(0int, 0int + from.len()) == from);
        }
        assert(rest.subrange(at - 1, at - 1 + from.len()) =~= s.subrange(at, at + from.len()));
        assert forall|k: int| 0 <= k < at - 1 implies #[trigger] rest.subrange(k, k + from.len())
            != from by {
            assert(rest.subrange(k, k + from.len()) =~= s.subrange(k + 1, k + 1 + from.len()));
        }
        law_first_is_replaced(rest, from, to, at - 1);
        assert(rest.skip(at - 1 + from.len()) =~= s.skip(at + from.len()));
        assert(seq![s[0]] + (rest.take(at - 1) + to + replaced(s.skip(at + from.len()), from, to))
            =~= s.take(at) + to + replaced(s.skip(at + from.len()), from, to));
    }
}

} // verus!
