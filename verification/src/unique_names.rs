//! Numbered outputs get different names.

use vstd::prelude::*;

use crate::settings::{has_placeholder, numbered, output_name};
use crate::text::{
    all_digits, decimal, found_at, is_digit, law_decimal_round_trip, number, padded2, padded3,
    replaced,
};

verus! {

/// The place for a number of at least `w` digits, in a suffix template.
pub open spec fn hole(w: int) -> Seq<char> {
    if w == 1 {
        "{:01d}"@
    } else if w == 2 {
        "{:02d}"@
    } else {
        "{:03d}"@
    }
}

/// A number with at least `w` digits.
pub open spec fn digits_in(w: int, n: nat) -> Seq<char> {
    if w == 1 {
        decimal(n)
    } else if w == 2 {
        padded2(n)
    } else {
        padded3(n)
    }
}

/// A template starts with the place for a number of `w` digits.
pub open spec fn starts_with_hole(t: Seq<char>, w: int) -> bool {
    1 <= w <= 3 && found_at(t, hole(w), 0)
}

/// Every opening brace of a template starts a place for a number.
pub open spec fn well_formed(t: Seq<char>) -> bool {
    forall|i: int|
        0 <= i < t.len() && #[trigger] t[i] == '{' ==> found_at(t, hole(1), i) || found_at(
            t,
            hole(2),
            i,
        ) || found_at(t, hole(3), i)
}

/// A template with the number put in its places of up to `k` digits.
spec fn filled(t: Seq<char>, k: int, n: nat) -> Seq<char>
    decreases t.len(),
{
    if t.len() == 0 {
        t
    } else if t.len() >= 6 && t[0] == '{' {
        let w: int = if starts_with_hole(t, 1) {
            1
        } else if starts_with_hole(t, 2) {
            2
        } else {
            3
        };
        (if w <= k {
            digits_in(w, n)
        } else {
            t.take(6)
        }) + filled(t.skip(6), k, n)
    } else {
        seq![t[0]] + filled(t.skip(1), k, n)
    }
}

proof fn lemma_hole(w: int)
    requires
        1 <= w <= 3,
    ensures
        hole(w).len() == 6,
        hole(w)[0] == '{',
        hole(w)[1] == ':',
        hole(w)[2] == '0',
        hole(w)[3] == if w == 1 {
            '1'
        } else if w == 2 {
            '2'
        } else {
            '3'
        },
        hole(w)[4] == 'd',
        hole(w)[5] == '}',
{
    reveal_strlit("{:01d}");
    reveal_strlit("{:02d}");
    reveal_strlit("{:03d}");
}

proof fn lemma_digits_in(w: int, n: nat)
    requires
        1 <= w <= 3,
    ensures
        digits_in(w, n).len() > 0,
        all_digits(digits_in(w, n)),
        number(digits_in(w, n)) == n,
{
    law_decimal_round_trip(n, n);
    lemma_leading_zero(decimal(n));
    lemma_leading_zero(padded2(n));
}

proof fn lemma_leading_zero(s: Seq<char>)
    requires
        all_digits(s),
    ensures
        all_digits(seq!['0'] + s),
        number(seq!['0'] + s) == number(s),
    decreases s.len(),
{
    let t = seq!['0'] + s;
    assert forall|i: int| 0 <= i < t.len() implies is_digit(#[trigger] t[i]) by {
        if i > 0 {
            assert(is_digit(s[i - 1]));
        }
    }
    if s.len() == 0 {
        assert(t.drop_last() =~= s);
        assert(t.last() == '0');
    } else {
        assert(t.drop_last() =~= seq!['0'] + s.drop_last());
        assert forall|i: int| 0 <= i < s.drop_last().len() implies is_digit(
            #[trigger] s.drop_last()[i],
        ) by {
            assert(is_digit(s[i]));
        }
        lemma_leading_zero(s.drop_last());
        assert(t.last() == s.last());
    }
}

/// Text without an opening brace stays as it is.
proof fn lemma_replace_after(plain: Seq<char>, s: Seq<char>, w: int, to: Seq<char>)
    requires
        1 <= w <= 3,
        forall|i: int| 0 <= i < plain.len() ==> #[trigger] plain[i] != '{',
    ensures
        replaced(plain + s, hole(w), to) == plain + replaced(s, hole(w), to),
    decreases plain.len(),
{
    lemma_hole(w);
    if plain.len() == 0 {
        assert(plain + s =~= s);
        assert(plain + replaced(s, hole(w), to) =~= replaced(s, hole(w), to));
    } else {
        let all = plain + s;
        let rest = plain.skip(1);
        assert(plain[0] != '{');
        assert(all[0] == plain[0]);
        assert(!hole(w).is_prefix_of(all)) by {
            if hole(w).is_prefix_of(all) {
                assert(hole(w)[0] == all[0]);
            }
        }
        assert(all.skip(1) =~= rest + s);
        assert forall|i: int| 0 <= i < rest.len() implies #[trigger] rest[i] != '{' by {
            assert(plain[i + 1] != '{');
        }
        lemma_replace_after(rest, s, w, to);
        assert(seq![all[0]] + (rest + replaced(s, hole(w), to)) =~= plain + replaced(
            s,
            hole(w),
            to,
        ));
    }
}

/// What follows in a well-formed template is well-formed.
proof fn lemma_skip(t: Seq<char>, n: int)
    requires
        well_formed(t),
        0 <= n <= t.len(),
    ensures
        well_formed(t.skip(n)),
{
    let rest = t.skip(n);
    assert forall|i: int| 0 <= i < rest.len() && #[trigger] rest[i] == '{' implies found_at(
        rest,
        hole(1),
        i,
    ) || found_at(rest, hole(2), i) || found_at(rest, hole(3), i) by {
        assert(t[i + n] == '{');
        lemma_hole(1);
        lemma_hole(2);
        lemma_hole(3);
        assert forall|w: int| 1 <= w <= 3 && #[trigger] found_at(t, hole(w), i + n) implies found_at(
            rest,
            hole(w),
            i,
        ) by {
            lemma_hole(w);
            assert(rest.subrange(i, i + 6) =~= t.subrange(i + n, i + n + 6));
        }
        assert(found_at(t, hole(1), i + n) || found_at(t, hole(2), i + n) || found_at(
            t,
            hole(3),
            i + n,
        ));
    }
}

/// How a well-formed template starts.
proof fn lemma_start(t: Seq<char>) -> (w: int)
    requires
        well_formed(t),
        t.len() > 0,
        t[0] == '{',
    ensures
        1 <= w <= 3,
        t.len() >= 6,
        t.take(6) == hole(w),
        starts_with_hole(t, w),
        w != 1 ==> !starts_with_hole(t, 1),
        w == 3 ==> !starts_with_hole(t, 2),
{
    lemma_hole(1);
    lemma_hole(2);
    lemma_hole(3);
    assert(found_at(t, hole(1), 0) || found_at(t, hole(2), 0) || found_at(t, hole(3), 0));
    if starts_with_hole(t, 1) {
        assert(t.take(6) =~= hole(1));
        1
    } else if starts_with_hole(t, 2) {
        assert(t.take(6) =~= hole(2));
        2
    } else {
        assert(t.take(6) =~= hole(3));
        3
    }
}

/// Filling in the places of `k` digits after the shorter ones.
proof fn lemma_pass(t: Seq<char>, k: int, n: nat)
    requires
        well_formed(t),
        1 <= k <= 3,
    ensures
        replaced(filled(t, k - 1, n), hole(k), digits_in(k, n)) == filled(t, k, n),
    decreases t.len(),
{
    let to = digits_in(k, n);
    lemma_hole(k);
    if t.len() == 0 {
    } else if t[0] == '{' {
        let w = lemma_start(t);
        let rest = filled(t.skip(6), k - 1, n);
        lemma_skip(t, 6);
        lemma_pass(t.skip(6), k, n);
        lemma_hole(w);
        if w < k {
            let d = digits_in(w, n);
            lemma_digits_in(w, n);
            assert forall|i: int| 0 <= i < d.len() implies #[trigger] d[i] != '{' by {
                assert(is_digit(d[i]));
            }
            lemma_replace_after(d, rest, k, to);
        } else if w == k {
            let s = hole(k) + rest;
            assert(filled(t, k - 1, n) == s);
            assert(hole(k).is_prefix_of(s)) by {
                assert(s.subrange(0, 6) =~= hole(k));
            }
            assert(s.skip(6) =~= rest);
        } else {
            let s = hole(w) + rest;
            assert(filled(t, k - 1, n) == s);
            assert(s[3] != hole(k)[3]);
            assert(!hole(k).is_prefix_of(s));
            let tail = hole(w).skip(1);
            assert(s.skip(1) =~= tail + rest);
            lemma_replace_after(tail, rest, k, to);
            assert(seq![s[0]] + (tail + replaced(rest, hole(k), to)) =~= hole(w) + replaced(
                rest,
                hole(k),
                to,
            ));
        }
    } else {
        let rest = filled(t.skip(1), k - 1, n);
        lemma_skip(t, 1);
        lemma_pass(t.skip(1), k, n);
        lemma_replace_after(seq![t[0]], rest, k, to);
    }
}

proof fn lemma_unfilled(t: Seq<char>, n: nat)
    ensures
        filled(t, 0, n) == t,
    decreases t.len(),
{
    if t.len() > 0 {
        if t.len() >= 6 && t[0] == '{' {
            lemma_unfilled(t.skip(6), n);
            assert(t.take(6) + t.skip(6) =~= t);
        } else {
            lemma_unfilled(t.skip(1), n);
            assert(seq![t[0]] + t.skip(1) =~= t);
        }
    }
}

/// Larger numbers have as many digits or more.
proof fn lemma_more_digits(a: nat, b: nat)
    requires
        a <= b,
    ensures
        decimal(a).len() <= decimal(b).len(),
    decreases b,
{
    if b >= 10 && a >= 10 {
        lemma_more_digits(a / 10, b / 10);
    } else if b >= 10 {
        law_decimal_round_trip(b / 10, b / 10);
        lemma_more_digits(0, b / 10);
    }
}

proof fn lemma_wider(w: int, a: nat, b: nat)
    requires
        1 <= w <= 3,
        a <= b,
    ensures
        digits_in(w, a).len() <= digits_in(w, b).len(),
{
    lemma_more_digits(a, b);
    if b >= 10 {
        lemma_more_digits(10, b);
        assert(decimal(10).len() == 2) by {
            reveal_with_fuel(decimal, 2);
        }
    }
    if b >= 100 {
        lemma_more_digits(100, b);
        assert(decimal(100).len() == 3) by {
            reveal_with_fuel(decimal, 3);
        }
    }
    if a < 10 {
        assert(decimal(a).len() == 1);
    } else if a < 100 {
        assert(decimal(a).len() == 2) by {
            reveal_with_fuel(decimal, 2);
        }
    }
    if b < 10 {
        assert(decimal(b).len() == 1);
    } else if b < 100 {
        assert(decimal(b).len() == 2) by {
            reveal_with_fuel(decimal, 2);
        }
    }
}

proof fn lemma_longer(t: Seq<char>, a: nat, b: nat)
    requires
        well_formed(t),
        a <= b,
    ensures
        filled(t, 3, a).len() <= filled(t, 3, b).len(),
    decreases t.len(),
{
    if t.len() == 0 {
    } else if t[0] == '{' {
        let w = lemma_start(t);
        lemma_skip(t, 6);
        lemma_longer(t.skip(6), a, b);
        lemma_wider(w, a, b);
    } else {
        lemma_skip(t, 1);
        lemma_longer(t.skip(1), a, b);
    }
}

/// A template with a place gives every number a text of its own.
proof fn lemma_injective(t: Seq<char>, a: nat, b: nat, at: int)
    requires
        well_formed(t),
        0 <= at < t.len(),
        t[at] == '{',
        a <= b,
        filled(t, 3, a) == filled(t, 3, b),
    ensures
        a == b,
    decreases t.len(),
{
    if t[0] == '{' {
        let w = lemma_start(t);
        let da = digits_in(w, a);
        let db = digits_in(w, b);
        let ra = filled(t.skip(6), 3, a);
        let rb = filled(t.skip(6), 3, b);
        lemma_skip(t, 6);
        lemma_longer(t.skip(6), a, b);
        lemma_wider(w, a, b);
        assert(filled(t, 3, a) == da + ra);
        assert(filled(t, 3, b) == db + rb);
        assert((da + ra).len() == (db + rb).len());
        assert(da.len() == db.len());
        assert(da =~= (da + ra).take(da.len() as int));
        assert(db =~= (db + rb).take(da.len() as int));
        lemma_digits_in(w, a);
        lemma_digits_in(w, b);
    } else {
        lemma_skip(t, 1);
        let ra = filled(t.skip(1), 3, a);
        let rb = filled(t.skip(1), 3, b);
        assert(ra =~= (seq![t[0]] + ra).skip(1));
        assert(rb =~= (seq![t[0]] + rb).skip(1));
        assert(t.skip(1)[at - 1] == '{');
        lemma_injective(t.skip(1), a, b, at - 1);
    }
}

/// Outputs with different numbers get different names, where the suffix template has a
/// place for the number and no opening brace besides those of its places.
pub proof fn law_numbers_name_outputs_apart(
    template: Seq<char>,
    base: Seq<char>,
    mark: Seq<char>,
    extension: Seq<char>,
    a: nat,
    b: nat,
)
    requires
        has_placeholder(template),
        well_formed(template),
        a != b,
    ensures
        numbered(template, a) != numbered(template, b),
        output_name(base, numbered(template, a), mark, extension) != output_name(
            base,
            numbered(template, b),
            mark,
            extension,
        ),
{
    assert forall|n: nat| #[trigger] numbered(template, n) == filled(template, 3, n) by {
        lemma_unfilled(template, n);
        lemma_pass(template, 1, n);
        lemma_pass(template, 2, n);
        lemma_pass(template, 3, n);
    }
    lemma_hole(1);
    lemma_hole(2);
    lemma_hole(3);
    let at = if exists|k: int| found_at(template, hole(1), k) {
        choose|k: int| found_at(template, hole(1), k)
    } else if exists|k: int| found_at(template, hole(2), k) {
        choose|k: int| found_at(template, hole(2), k)
    } else {
        choose|k: int| found_at(template, hole(3), k)
    };
    assert(template[at] == '{') by {
        assert(template.subrange(at, at + 6)[0] == '{');
    }
    let na = numbered(template, a);
    let nb = numbered(template, b);
    if na == nb {
        if a < b {
            lemma_injective(template, a, b, at);
        } else {
            lemma_injective(template, b, a, at);
        }
    }
    let whole_a = output_name(base, na, mark, extension);
    let whole_b = output_name(base, nb, mark, extension);
    if whole_a == whole_b {
        let from = base.len() as int;
        assert(whole_a.len() == whole_b.len());
        assert(na.len() == nb.len());
        assert(na =~= whole_a.subrange(from, from + na.len()));
        assert(nb =~= whole_b.subrange(from, from + na.len()));
    }
}

/// Outputs with different bases, such as the stems of different source files, get
/// different names where their suffixes are the same.
pub proof fn law_bases_name_outputs_apart(
    a: Seq<char>,
    b: Seq<char>,
    mark: Seq<char>,
    suffix: Seq<char>,
    extension: Seq<char>,
)
    requires
        a != b,
    ensures
        output_name(a, suffix, mark, extension) != output_name(b, suffix, mark, extension),
{
    let whole_a = output_name(a, suffix, mark, extension);
    let whole_b = output_name(b, suffix, mark, extension);
    if whole_a == whole_b {
        assert(whole_a.len() == whole_b.len());
        assert(a =~= whole_a.take(a.len() as int));
        assert(b =~= whole_b.take(a.len() as int));
    }
}

} // verus!
