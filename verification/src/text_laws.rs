//! What joining, splitting, trimming and replacing do, said of whole texts.

use vstd::prelude::*;
use crate::chars::{after_prefix, before_suffix, cut_at, cut_at_last, decimal, digit, found_at, index_of, is_digit, join, lemma_run_end, lemma_run_start, none_of, other_than, padded, replaced, replaced_from, run_end, run_start, split_at_char, split_from, trimmed, value, words_from};

verus! {

// ------------------------------------------------------------------------ joining

proof fn lemma_join_push(parts: Seq<Seq<char>>, p: Seq<char>, sep: Seq<char>)
    requires
        parts.len() > 0,
    ensures
        join(parts.push(p), sep) == join(parts, sep) + sep + p,
{
    assert(parts.push(p).drop_last() =~= parts);
}

/// One part joined is that part, none is nothing, and two lists of parts joined are
/// what each of them joined gives, the separator between.
pub proof fn law_joins_add_up(a: Seq<Seq<char>>, b: Seq<Seq<char>>, p: Seq<char>, sep: Seq<char>)
    ensures
        join(seq![p], sep) == p,
        join(Seq::<Seq<char>>::empty(), sep) == Seq::<char>::empty(),
        a.len() > 0 && b.len() > 0 ==> join(a + b, sep) == join(a, sep) + sep + join(b, sep),
    decreases b.len(),
{
    if a.len() > 0 && b.len() == 1 {
        assert(a + b =~= a.push(b[0]));
        lemma_join_push(a, b[0], sep);
    } else if a.len() > 0 && b.len() > 1 {
        let front = b.drop_last();
        law_joins_add_up(a, front, p, sep);
        assert(a + b =~= (a + front).push(b.last()));
        lemma_join_push(a + front, b.last(), sep);
        assert(join(a + b, sep) =~= join(a, sep) + sep + join(b, sep));
    }
}


// ---------------------------------------------------------------------- splitting

proof fn lemma_split_joins(s: Seq<char>, c: char, i: int)
    requires
        0 <= i <= s.len(),
    ensures
        join(split_from(s, c, i), seq![c]) == s.skip(i),
        split_from(s, c, i).len() > 0,
        forall|k: int|
            0 <= k < split_from(s, c, i).len() ==> !(#[trigger] split_from(s, c, i)[k]).contains(c),
    decreases s.len() - i,
{
    lemma_run_end(s, other_than(c), i);
    let e = index_of(s, c, i);
    let all = split_from(s, c, i);
    if e >= s.len() {
        assert(s.subrange(i, s.len() as int) =~= s.skip(i));
        assert forall|k: int| 0 <= k < all.len() implies !(#[trigger] all[k]).contains(c) by {
            if all[k].contains(c) {
                let m = all[k].index_of(c);
                assert(other_than(c)(s[i + m]));
            }
        }
    } else {
        lemma_split_joins(s, c, e + 1);
        let rest = split_from(s, c, e + 1);
        let p = s.subrange(i, e);
        law_joins_add_up(seq![p], rest, p, seq![c]);
        assert(s[e] == c);
        assert(p + seq![c] + s.skip(e + 1) =~= s.skip(i));
        assert forall|k: int| 0 <= k < all.len() implies !(#[trigger] all[k]).contains(c) by {
            if k > 0 {
                assert(all[k] == rest[k - 1]);
            } else if p.contains(c) {
                let m = p.index_of(c);
                assert(other_than(c)(s[i + m]));
            }
        }
    }
}

/// A text split at a character has that character in none of its parts, and joined
/// with it again gives the text.
pub proof fn law_split_joins_back(s: Seq<char>, c: char)
    ensures
        join(split_at_char(s, c), seq![c]) == s,
        split_at_char(s, c).len() > 0,
        forall|k: int|
            0 <= k < split_at_char(s, c).len() ==> !(#[trigger] split_at_char(s, c)[k]).contains(c),
{
    lemma_split_joins(s, c, 0);
    assert(s.skip(0) =~= s);
}

// ----------------------------------------------------------------------- trimming

/// What is trimmed off the ends of a text is blank, what is left is not at its ends,
/// and it stands in the text as it is.
pub proof fn law_trimming_takes_the_ends(s: Seq<char>, p: spec_fn(char) -> bool) -> (ends: (int, int))
    ensures
        0 <= ends.0 <= ends.1 <= s.len(),
        trimmed(s, p) == s.subrange(ends.0, ends.1),
        forall|k: int| 0 <= k < ends.0 ==> p(#[trigger] s[k]),
        forall|k: int| ends.1 <= k < s.len() ==> p(#[trigger] s[k]),
        ends.0 < ends.1 ==> !p(s[ends.0]) && !p(s[ends.1 - 1]),
        ends.0 == ends.1 ==> forall|k: int| 0 <= k < s.len() ==> p(#[trigger] s[k]),
{
    let a = run_end(s, p, 0);
    lemma_run_end(s, p, 0);
    lemma_run_start(s, p, a, s.len() as int);
    let b = run_start(s, p, a, s.len() as int);
    (a, b)
}

// -------------------------------------------------------------------------- words

proof fn lemma_run_end_before(s: Seq<char>, u: Seq<char>, p: spec_fn(char) -> bool, i: int)
    requires
        0 <= i <= s.len(),
    ensures
        run_end(s, p, i) < s.len() ==> run_end(s + u, p, i) == run_end(s, p, i),
        run_end(s, p, i) >= s.len() ==> run_end(s + u, p, i) == run_end(s + u, p, s.len() as int),
    decreases s.len() - i,
{
    if i < s.len() {
        assert((s + u)[i] == s[i]);
        if p(s[i]) {
            lemma_run_end_before(s, u, p, i + 1);
        }
    }
}

proof fn lemma_run_end_behind(s: Seq<char>, u: Seq<char>, p: spec_fn(char) -> bool, k: int)
    requires
        0 <= k <= u.len(),
    ensures
        run_end(s + u, p, s.len() + k) == s.len() + run_end(u, p, k),
    decreases u.len() - k,
{
    if k < u.len() {
        assert((s + u)[s.len() + k] == u[k]);
        if p(u[k]) {
            lemma_run_end_behind(s, u, p, k + 1);
        }
    }
}

proof fn lemma_words_behind(s: Seq<char>, u: Seq<char>, p: spec_fn(char) -> bool, k: int)
    requires
        0 <= k <= u.len(),
    ensures
        words_from(s + u, p, s.len() + k) == words_from(u, p, k),
    decreases u.len() - k,
{
    lemma_run_end_behind(s, u, p, k);
    lemma_run_end(u, p, k);
    let a = run_end(u, p, k);
    if a < u.len() {
        lemma_run_end_behind(s, u, none_of(p), a + 1);
        lemma_run_end(u, none_of(p), a + 1);
        let b = run_end(u, none_of(p), a + 1);
        lemma_words_behind(s, u, p, b);
        assert((s + u).subrange(s.len() + a, s.len() + b) =~= u.subrange(a, b));
    }
}

proof fn lemma_words_before(s: Seq<char>, t: Seq<char>, c: char, p: spec_fn(char) -> bool, i: int)
    requires
        0 <= i <= s.len(),
        p(c),
    ensures
        words_from(s + seq![c] + t, p, i) == words_from(s, p, i) + words_from(t, p, 0),
    decreases s.len() - i,
{
    let u = seq![c] + t;
    let all = s + seq![c] + t;
    assert(all =~= s + u);
    lemma_run_end_before(s, u, p, i);
    lemma_run_end(s, p, i);
    let a = run_end(s, p, i);
    if a < s.len() {
        let q = none_of(p);
        assert(!p(s[a]));
        lemma_run_end_before(s, u, q, a + 1);
        lemma_run_end(s, q, a + 1);
        lemma_run_end_behind(s, u, q, 0);
        let b = run_end(s, q, a + 1);
        assert(u[0] == c);
        assert(run_end(u, q, 0) == 0);
        assert(run_end(all, q, a + 1) == b);
        lemma_words_before(s, t, c, p, b);
        assert(all.subrange(a, b) =~= s.subrange(a, b));
        assert(seq![s.subrange(a, b)] + (words_from(s, p, b) + words_from(t, p, 0)) =~= (seq![
            s.subrange(a, b),
        ] + words_from(s, p, b)) + words_from(t, p, 0));
    } else {
        // From here on only what is behind `s` is looked at.
        lemma_run_end_behind(s, u, p, 0);
        lemma_run_end_behind(seq![c], t, p, 0);
        assert(u[0] == c);
        assert(run_end(u, p, 0) == run_end(u, p, 1));
        lemma_words_behind(s + seq![c], t, p, 0);
        assert((s + seq![c]) + t =~= all);
        assert(run_end(all, p, i) == s.len() + 1 + run_end(t, p, 0));
        assert(words_from(s, p, i) =~= Seq::<Seq<char>>::empty());
        lemma_run_end(t, p, 0);
        lemma_run_end_behind(s + seq![c], t, p, 0);
        assert(run_end(all, p, s.len() as int + 1) == run_end(all, p, i));
        assert(words_from(all, p, i) == words_from(all, p, s.len() as int + 1));
        assert(words_from(s, p, i) + words_from(t, p, 0) =~= words_from(t, p, 0));
    }
}

/// A text without blanks is one word, or none where it is empty; and the words of two
/// texts with a blank between are those of the one and then those of the other.
pub proof fn law_words_add_up(s: Seq<char>, t: Seq<char>, c: char, p: spec_fn(char) -> bool)
    requires
        p(c),
    ensures
        words_from(s + seq![c] + t, p, 0) == words_from(s, p, 0) + words_from(t, p, 0),
        (forall|k: int| 0 <= k < s.len() ==> !p(#[trigger] s[k])) ==> words_from(s, p, 0)
            == if s.len() == 0 {
            Seq::empty()
        } else {
            seq![s]
        },
{
    lemma_words_before(s, t, c, p, 0);
    if forall|k: int| 0 <= k < s.len() ==> !p(#[trigger] s[k]) {
        lemma_run_end(s, p, 0);
        if s.len() > 0 {
            assert(!p(s[0]));
            assert(run_end(s, p, 0) == 0);
            lemma_run_end(s, none_of(p), 1);
            let b = run_end(s, none_of(p), 1);
            if b < s.len() {
                assert(!none_of(p)(s[b]));
            }
            lemma_run_end(s, p, b);
            assert(words_from(s, p, b) =~= Seq::<Seq<char>>::empty());
            assert(s.subrange(0, b) =~= s);
            assert(words_from(s, p, 0) =~= seq![s]);
        } else {
            assert(words_from(s, p, 0) =~= Seq::<Seq<char>>::empty());
        }
    }
}

// ---------------------------------------------------------------------- replacing

proof fn lemma_replaced_behind(s: Seq<char>, u: Seq<char>, from: Seq<char>, to: Seq<char>, k: int)
    requires
        0 <= k,
        from.len() > 0,
    ensures
        replaced_from(s + u, from, to, s.len() + k) == replaced_from(u, from, to, k),
    decreases u.len() - k,
{
    if k < u.len() {
        let all = s + u;
        if k + from.len() <= u.len() {
            assert(all.subrange(s.len() + k, s.len() + k + from.len()) =~= u.subrange(
                k,
                k + from.len(),
            ));
        }
        assert(found_at(all, from, s.len() + k) == found_at(u, from, k));
        assert(all[s.len() + k] == u[k]);
        if found_at(u, from, k) {
            lemma_replaced_behind(s, u, from, to, k + from.len());
        } else {
            lemma_replaced_behind(s, u, from, to, k + 1);
        }
    }
}

proof fn lemma_replaced_until(s: Seq<char>, from: Seq<char>, to: Seq<char>, i: int, at: int)
    requires
        from.len() > 0,
        0 <= i <= at <= s.len(),
        forall|k: int| i <= k < at ==> !#[trigger] found_at(s, from, k),
    ensures
        replaced_from(s, from, to, i) == s.subrange(i, at) + replaced_from(s, from, to, at),
    decreases at - i,
{
    if i < at {
        assert(!found_at(s, from, i));
        lemma_replaced_until(s, from, to, i + 1, at);
        assert(seq![s[i]] + (s.subrange(i + 1, at) + replaced_from(s, from, to, at)) =~= s.subrange(
            i,
            at,
        ) + replaced_from(s, from, to, at));
    } else {
        assert(s.subrange(i, at) + replaced_from(s, from, to, at) =~= replaced_from(
            s,
            from,
            to,
            at,
        ));
    }
}

/// Replacing leaves a text alone that does not hold what is replaced. Otherwise all
/// up to the first place where it stands stays, the new text stands for it there, and
/// what is behind it is treated likewise.
pub proof fn law_replacing_from_the_first(s: Seq<char>, from: Seq<char>, to: Seq<char>, at: int)
    requires
        from.len() > 0,
        0 <= at <= s.len(),
        forall|k: int| 0 <= k < at ==> !#[trigger] found_at(s, from, k),
    ensures
        found_at(s, from, at) ==> replaced(s, from, to) == s.take(at) + to + replaced(
            s.skip(at + from.len()),
            from,
            to,
        ),
        at == s.len() ==> replaced(s, from, to) == s,
{
    lemma_replaced_until(s, from, to, 0, at);
    assert(s.subrange(0, at) =~= s.take(at));
    if found_at(s, from, at) {
        let head = s.take(at + from.len());
        let tail = s.skip(at + from.len());
        assert(head + tail =~= s);
        lemma_replaced_behind(head, tail, from, to, 0);
        assert(replaced(s, from, to) =~= s.take(at) + to + replaced(tail, from, to));
    }
    if at == s.len() {
        assert(s.take(at) + Seq::<char>::empty() =~= s);
    }
}

// ------------------------------------------------------------------------ numerals

/// Ten to the power of `n`.
pub open spec fn tens(n: nat) -> nat {
    vstd::arithmetic::power::pow(10, n) as nat
}

proof fn lemma_tens(n: nat)
    ensures
        tens(0) == 1,
        tens(n + 1) == 10 * tens(n),
        tens(n) > 0,
{
    vstd::arithmetic::power::lemma_pow0(10);
    vstd::arithmetic::power::lemma_pow_positive(10, n);
    vstd::arithmetic::power::lemma_pow_adds(10, 1, n);
    vstd::arithmetic::power::lemma_pow1(10);
}

/// A numeral counts in tens: each digit by its own value, and the digits in front of
/// others ten times for each of those.
pub proof fn law_numerals_count_in_tens(a: Seq<char>, b: Seq<char>, c: char)
    requires
        forall|i: int| 0 <= i < a.len() ==> is_digit(#[trigger] a[i]),
        forall|i: int| 0 <= i < b.len() ==> is_digit(#[trigger] b[i]),
        is_digit(c),
    ensures
        value(seq![c]) == c as int - '0' as int,
        value(Seq::<char>::empty()) == 0,
        value(a + b) == value(a) * tens(b.len()) + value(b),
    decreases b.len(),
{
    reveal_with_fuel(value, 2);
    assert(seq![c].drop_last() =~= Seq::<char>::empty());
    lemma_tens(0);
    if b.len() == 0 {
        assert(a + b =~= a);
        assert(value(a) * 1 == value(a)) by (nonlinear_arith);
    } else {
        let front = b.drop_last();
        law_numerals_count_in_tens(a, front, c);
        lemma_tens(front.len());
        assert((a + b).drop_last() =~= a + front);
        assert((a + b).last() == b.last());
        assert(is_digit(b.last()));
        let v = value(a);
        let t = tens(front.len());
        assert(10 * (v * t) == v * (10 * t)) by (nonlinear_arith);
    }
}

/// A number is written in its digits, without zeros in front: the digit of a number
/// below ten is the one with that value, and a longer number never starts with zero.
pub proof fn law_numbers_are_written_plainly(n: nat)
    ensures
        n < 10 ==> decimal(n) == seq![(('0' as int) + n) as char],
        decimal(n).len() > 0,
        n > 0 ==> decimal(n)[0] != '0',
        value(decimal(n)) == n,
        crate::chars::is_numeral(decimal(n)),
    decreases n,
{
    crate::chars::lemma_decimal(n);
    if n >= 10 {
        law_numbers_are_written_plainly(n / 10);
    } else {
        assert(digit(n) == (('0' as int) + n) as char);
    }
}

/// A number that is padded keeps its digits at its end, has zeros in front of them,
/// and is as wide as asked where it was not wider.
pub proof fn law_padding_goes_in_front(s: Seq<char>, width: nat)
    ensures
        padded(s, width).len() == if s.len() < width {
            width
        } else {
            s.len()
        },
        padded(s, width).skip(padded(s, width).len() - s.len()) == s,
        forall|i: int|
            0 <= i < padded(s, width).len() - s.len() ==> #[trigger] padded(s, width)[i] == '0',
{
    let p = padded(s, width);
    assert(p.skip(p.len() - s.len()) =~= s);
}

// ------------------------------------------------------------------------- cutting

/// A text is cut at the first of a character, or at the last: what is before it, the
/// character and what is behind it make up the text, with no such character in the
/// first part, or in the last; and it is not cut only where it has none.
pub proof fn law_cuts_join_back(s: Seq<char>, c: char)
    ensures
        match cut_at(s, c) {
            Some((a, b)) => s == a + seq![c] + b && !a.contains(c),
            None => !s.contains(c),
        },
        match cut_at_last(s, c) {
            Some((a, b)) => s == a + seq![c] + b && !b.contains(c),
            None => !s.contains(c),
        },
{
    let p = other_than(c);
    lemma_run_end(s, p, 0);
    lemma_run_start(s, p, 0, s.len() as int);
    let i = index_of(s, c, 0);
    if i < s.len() {
        assert(s =~= s.take(i) + seq![c] + s.skip(i + 1));
    }
    let j = run_start(s, p, 0, s.len() as int);
    if j > 0 {
        assert(s =~= s.take(j - 1) + seq![c] + s.skip(j));
        assert forall|k: int| 0 <= k < s.skip(j).len() implies s.skip(j)[k] != c by {
            assert(p(s[j + k]));
        }
    }
}

/// What stands behind a beginning, or before an end, makes up the text with it; and
/// there is none only where the text does not start, or end, so.
pub proof fn law_ends_come_off(s: Seq<char>, pat: Seq<char>)
    ensures
        after_prefix(s, pat) matches Some(r) ==> s == pat + r,
        before_suffix(s, pat) matches Some(r) ==> s == r + pat,
        after_prefix(s, pat) is Some <==> exists|r: Seq<char>| s == #[trigger] (pat + r),
        before_suffix(s, pat) is Some <==> exists|r: Seq<char>| s == #[trigger] (r + pat),
{
    if found_at(s, pat, 0) {
        let r = s.skip(pat.len() as int);
        assert(s =~= pat + r) by {
            assert(s.subrange(0, pat.len() as int) == pat);
            assert forall|k: int| 0 <= k < pat.len() implies s[k] == pat[k] by {
                assert(s.subrange(0, pat.len() as int)[k] == s[k]);
            }
        }
    }
    let d = s.len() - pat.len();
    if found_at(s, pat, d) {
        let r = s.take(d);
        assert(s =~= r + pat) by {
            assert(s.subrange(d, d + pat.len()) == pat);
            assert forall|k: int| d <= k < s.len() implies s[k] == pat[k - d] by {
                assert(s.subrange(d, d + pat.len())[k - d] == s[k]);
            }
        }
    }
    if exists|r: Seq<char>| s == #[trigger] (pat + r) {
        let r = choose|r: Seq<char>| s == #[trigger] (pat + r);
        assert((pat + r).subrange(0, pat.len() as int) =~= pat);
    }
    if exists|r: Seq<char>| s == #[trigger] (r + pat) {
        let r = choose|r: Seq<char>| s == #[trigger] (r + pat);
        assert((r + pat).subrange(r.len() as int, (r + pat).len() as int) =~= pat);
    }
}

} // verus!
