//! Where a text is cut into sentences, with the guard on abbreviations and without.

use vstd::prelude::*;
use crate::book::{abbreviation, blank, blanks, closers, lemma_next_sentence, next_sentence, sentence_ends, sentences_of, split_sentences_from, strip, stripped, terminator, Guards};
use crate::chars::{lemma_run_end, lemma_run_start, run_end, run_start};

verus! {

// ---------------------------------------------------------------- no blank ends

/// Whether there is something in `s`, and no blank at either end of it.
pub open spec fn neat(s: Seq<char>) -> bool {
    s.len() > 0 && !blank(s[0]) && !blank(s.last())
}

/// A text without its blanks is neat, or there is nothing in it.
pub proof fn lemma_strip_is_neat(s: Seq<char>)
    ensures
        strip(s).len() > 0 ==> neat(strip(s)),
{
    let n = s.len() as int;
    let a = run_end(s, blanks(), 0);
    lemma_run_end(s, blanks(), 0);
    lemma_run_start(s, blanks(), a, n);
    let b = run_start(s, blanks(), a, n);
    if a < b {
        assert(!blanks()(s[a]));
        assert(!blanks()(s[b - 1]));
    }
}

/// A neat text stays as it is when its blanks are taken off.
pub proof fn lemma_neat_stays(s: Seq<char>)
    requires
        neat(s),
    ensures
        strip(s) == s,
{
    let n = s.len() as int;
    assert(!blanks()(s[0]));
    assert(run_end(s, blanks(), 0) == 0);
    assert(!blanks()(s[n - 1]));
    assert(run_start(s, blanks(), 0, n) == n);
    assert(s.subrange(0, n) =~= s);
}

proof fn lemma_stripped(ps: Seq<Seq<char>>)
    ensures
        stripped(ps).len() <= ps.len(),
        forall|i: int| 0 <= i < stripped(ps).len() ==> neat(#[trigger] stripped(ps)[i]),
    decreases ps.len(),
{
    let f = |p: Seq<char>| strip(p);
    let keep = |p: Seq<char>| p.len() > 0;
    reveal(Seq::filter);
    if ps.len() == 0 {
        assert(ps.map_values(f) =~= ps);
    } else {
        let rest = ps.drop_last();
        let p = ps.last();
        lemma_stripped(rest);
        lemma_strip_is_neat(p);
        assert(ps.map_values(f) =~= rest.map_values(f).push(strip(p)));
        rest.map_values(f).lemma_filter_push(strip(p), keep);
    }
}

/// No sentence is empty, and none has a blank at either end.
pub proof fn law_sentences_are_neat(s: Seq<char>, guards: Guards)
    ensures
        forall|i: int|
            0 <= i < sentences_of(s, guards).len() ==> neat(#[trigger] sentences_of(s, guards)[i]),
{
    lemma_stripped(split_sentences_from(s, guards, 0, 0));
}

// ------------------------------------------------------------- where it is cut

/// Where sentences end, from `i` on.
pub open spec fn ends_from(s: Seq<char>, guards: Guards, i: int) -> Seq<int>
    decreases s.len() - i,
{
    if i < 0 || i >= s.len() {
        Seq::empty()
    } else if sentence_ends(s, guards, i) {
        seq![i] + ends_from(s, guards, i + 1)
    } else {
        ends_from(s, guards, i + 1)
    }
}

/// The pieces of `s` from `last` on when it is cut at `ends`: each piece ends where
/// it is cut, and the next starts behind the closers and blanks there.
pub open spec fn cut_at(s: Seq<char>, ends: Seq<int>, last: int) -> Seq<Seq<char>>
    decreases ends.len(),
{
    if ends.len() == 0 {
        seq![s.subrange(last, s.len() as int)]
    } else {
        seq![s.subrange(last, ends[0])] + cut_at(s, ends.drop_first(), next_sentence(s, ends[0]))
    }
}

/// Between the end of a sentence and the next sentence none ends.
proof fn lemma_no_end_between(s: Seq<char>, guards: Guards, g: Guards, i: int, k: int)
    requires
        sentence_ends(s, guards, i),
        i < k <= next_sentence(s, i),
    ensures
        !sentence_ends(s, g, k),
{
    lemma_next_sentence(s, guards, i);
    let c = run_end(s, closers(), i);
    lemma_run_end(s, closers(), i);
    lemma_run_end(s, blanks(), c);
    if k - 1 < c {
        assert(closers()(s[k - 1]));
    } else {
        assert(blanks()(s[k - 1]));
    }
}

proof fn lemma_ends_skip(s: Seq<char>, guards: Guards, i: int, k: int)
    requires
        sentence_ends(s, guards, i),
        i < k <= next_sentence(s, i),
    ensures
        ends_from(s, guards, k) == ends_from(s, guards, next_sentence(s, i)),
    decreases next_sentence(s, i) - k,
{
    lemma_next_sentence(s, guards, i);
    if k < next_sentence(s, i) {
        lemma_no_end_between(s, guards, guards, i, k);
        lemma_ends_skip(s, guards, i, k + 1);
    }
}

proof fn lemma_cut_at(s: Seq<char>, guards: Guards, last: int, i: int)
    requires
        0 <= last <= i <= s.len(),
    ensures
        split_sentences_from(s, guards, last, i) == cut_at(s, ends_from(s, guards, i), last),
    decreases s.len() - i,
{
    if i < s.len() {
        if sentence_ends(s, guards, i) {
            lemma_next_sentence(s, guards, i);
            let e = next_sentence(s, i);
            lemma_ends_skip(s, guards, i, i + 1);
            lemma_cut_at(s, guards, e, e);
            let ends = ends_from(s, guards, i);
            assert(ends[0] == i);
            assert(ends.drop_first() =~= ends_from(s, guards, i + 1));
        } else {
            lemma_cut_at(s, guards, last, i + 1);
        }
    }
}

/// Whether the guard keeps a sentence from ending just before `i`: the full stop
/// there is an abbreviation's.
pub open spec fn guarded(s: Seq<char>) -> spec_fn(int) -> bool {
    |i: int| s[i - 1] == '.' && abbreviation(s, i - 1)
}

/// Where the guard lets a sentence end.
pub open spec fn unguarded(s: Seq<char>) -> spec_fn(int) -> bool {
    |i: int| !guarded(s)(i)
}

proof fn lemma_guard_filters(s: Seq<char>, i: int)
    requires
        0 <= i <= s.len(),
    ensures
        ends_from(s, Guards::On, i) == ends_from(s, Guards::Inert, i).filter(unguarded(s)),
    decreases s.len() - i,
{
    reveal(Seq::filter);
    if i < s.len() {
        lemma_guard_filters(s, i + 1);
        let rest = ends_from(s, Guards::Inert, i + 1);
        if sentence_ends(s, Guards::Inert, i) {
            Seq::filter_distributes_over_add(seq![i], rest, unguarded(s));
            assert(seq![i].drop_last() =~= Seq::<int>::empty());
            reveal_with_fuel(Seq::filter, 2);
            if unguarded(s)(i) {
                assert(seq![i].filter(unguarded(s)) =~= seq![i]);
            } else {
                assert(seq![i].filter(unguarded(s)) =~= Seq::<int>::empty());
                assert(Seq::<int>::empty() + rest.filter(unguarded(s)) =~= rest.filter(
                    unguarded(s),
                ));
            }
        }
    } else {
        assert(ends_from(s, Guards::Inert, i).filter(unguarded(s)) =~= Seq::<int>::empty());
    }
}

/// A text is cut exactly where a sentence ends. With the guard it is cut where it
/// is cut without, but for the full stops of abbreviations: the guard moves no cut
/// and makes none.
pub proof fn law_the_guard_only_joins(s: Seq<char>)
    ensures
        split_sentences_from(s, Guards::On, 0, 0) == cut_at(s, ends_from(s, Guards::On, 0), 0),
        split_sentences_from(s, Guards::Inert, 0, 0) == cut_at(
            s,
            ends_from(s, Guards::Inert, 0),
            0,
        ),
        ends_from(s, Guards::On, 0) == ends_from(s, Guards::Inert, 0).filter(unguarded(s)),
        sentences_of(s, Guards::On).len() <= sentences_of(s, Guards::Inert).len(),
{
    lemma_cut_at(s, Guards::On, 0, 0);
    lemma_cut_at(s, Guards::Inert, 0, 0);
    lemma_guard_filters(s, 0);
    let on = ends_from(s, Guards::On, 0);
    let inert = ends_from(s, Guards::Inert, 0);
    lemma_count(s, Guards::On, 0, 0);
    lemma_count(s, Guards::Inert, 0, 0);
    lemma_filter_len(inert, unguarded(s));
}

proof fn lemma_filter_len(v: Seq<int>, p: spec_fn(int) -> bool)
    ensures
        v.filter(p).len() <= v.len(),
        v.filter(p).len() == v.len() ==> v.filter(p) == v,
    decreases v.len(),
{
    reveal(Seq::filter);
    if v.len() > 0 {
        lemma_filter_len(v.drop_last(), p);
        assert(v.drop_last().push(v.last()) =~= v);
    }
}

/// Every piece but the last ends in its terminator, so only the last can be empty.
proof fn lemma_count(s: Seq<char>, guards: Guards, last: int, i: int)
    requires
        0 <= last <= i <= s.len(),
        last < i || i >= s.len() || !sentence_ends(s, guards, i),
    ensures
        ({
            let n = stripped(split_sentences_from(s, guards, last, i)).len();
            let cuts = ends_from(s, guards, i).len();
            cuts <= n <= cuts + 1
        }),
    decreases s.len() - i,
{
    if i >= s.len() {
        let p = s.subrange(last, s.len() as int);
        lemma_stripped(seq![p]);
    } else if sentence_ends(s, guards, i) {
        lemma_next_sentence(s, guards, i);
        let e = next_sentence(s, i);
        lemma_no_end_between(s, guards, guards, i, e);
        lemma_count(s, guards, e, e);
        lemma_ends_skip(s, guards, i, i + 1);
        let p = s.subrange(last, i);
        assert(terminator(p.last()));
        lemma_ink_left(p);
        lemma_stripped_first(p, split_sentences_from(s, guards, e, e));
    } else {
        lemma_count(s, guards, last, i + 1);
    }
}

/// What ends in a terminator is not empty without its blanks.
proof fn lemma_ink_left(p: Seq<char>)
    requires
        p.len() > 0,
        terminator(p.last()),
    ensures
        strip(p).len() > 0,
{
    let n = p.len() as int;
    let a = run_end(p, blanks(), 0);
    lemma_run_end(p, blanks(), 0);
    if a == n {
        assert(blanks()(p[n - 1]));
    }
    lemma_run_start(p, blanks(), a, n);
    assert(!blanks()(p[n - 1]));
    assert(run_start(p, blanks(), a, n) == n);
}

proof fn lemma_stripped_first(p: Seq<char>, ps: Seq<Seq<char>>)
    requires
        strip(p).len() > 0,
    ensures
        stripped(seq![p] + ps).len() == stripped(ps).len() + 1,
{
    let f = |q: Seq<char>| strip(q);
    let keep = |q: Seq<char>| q.len() > 0;
    assert((seq![p] + ps).map_values(f) =~= seq![strip(p)] + ps.map_values(f));
    Seq::filter_distributes_over_add(seq![strip(p)], ps.map_values(f), keep);
    reveal_with_fuel(Seq::filter, 2);
    assert(seq![strip(p)].drop_last() =~= Seq::<Seq<char>>::empty());
    assert(seq![strip(p)].filter(keep) =~= seq![strip(p)]);
}

} // verus!
