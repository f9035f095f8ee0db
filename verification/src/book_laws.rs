//! What holds of every plan, whatever the book.

use vstd::prelude::*;
use crate::book::{blank, blanks, chunks_of, chunks_upto, clause_ends, closer, closers, fill, fill_all, finish, group, joined, lemma_next_sentence, next_sentence, paragraph_chunks, plan_of, plan_upto, sentence_ends, sentences_of, speakable, split_clauses_from, split_sentences_from, strip, stripped, take_sentence, ChapterView, Filling, Guards, RawChapterView};
use crate::chars::{lemma_run_end, lemma_run_start, run_end, run_start};

verus! {

/// The characters of `s` that carry text: neither blanks nor closing quotes and
/// brackets.
pub open spec fn ink(s: Seq<char>) -> Seq<char> {
    s.filter(|c: char| !blank(c) && !closer(c))
}

/// The text carried by `pieces`, one after the other.
pub open spec fn ink_of(pieces: Seq<Seq<char>>) -> Seq<char> {
    ink(pieces.flatten())
}

proof fn lemma_ink_add(a: Seq<char>, b: Seq<char>)
    ensures
        ink(a + b) == ink(a) + ink(b),
{
    Seq::filter_distributes_over_add(a, b, |c: char| !blank(c) && !closer(c));
}

proof fn lemma_ink_none(s: Seq<char>)
    requires
        forall|i: int| 0 <= i < s.len() ==> blank(#[trigger] s[i]) || closer(s[i]),
    ensures
        ink(s) == Seq::<char>::empty(),
    decreases s.len(),
{
    reveal(Seq::filter);
    if s.len() > 0 {
        lemma_ink_none(s.drop_last());
    }
}

proof fn lemma_ink_split(s: Seq<char>, a: int, b: int, c: int)
    requires
        0 <= a <= b <= c <= s.len(),
    ensures
        ink(s.subrange(a, c)) == ink(s.subrange(a, b)) + ink(s.subrange(b, c)),
{
    lemma_ink_add(s.subrange(a, b), s.subrange(b, c));
    assert(s.subrange(a, b) + s.subrange(b, c) =~= s.subrange(a, c));
}

proof fn lemma_ink_strip(s: Seq<char>)
    ensures
        ink(strip(s)) == ink(s),
{
    let n = s.len() as int;
    lemma_run_end(s, blanks(), 0);
    let a = run_end(s, blanks(), 0);
    lemma_run_start(s, blanks(), a, n);
    let b = run_start(s, blanks(), a, n);
    lemma_ink_split(s, 0, a, n);
    lemma_ink_split(s, a, b, n);
    lemma_ink_none(s.subrange(0, a));
    lemma_ink_none(s.subrange(b, n));
    assert(s.subrange(0, n) =~= s);
    assert(ink(s) =~= ink(s.subrange(a, b)));
}

proof fn lemma_ink_of_push(ps: Seq<Seq<char>>, p: Seq<char>)
    ensures
        ink_of(ps.push(p)) == ink_of(ps) + ink(p),
{
    ps.lemma_flatten_push(p);
    lemma_ink_add(ps.flatten(), p);
}

proof fn lemma_ink_of_first(p: Seq<char>, ps: Seq<Seq<char>>)
    ensures
        ink_of(seq![p] + ps) == ink(p) + ink_of(ps),
{
    let all = seq![p] + ps;
    assert(all.drop_first() =~= ps);
    assert(all.first() == p);
    lemma_ink_add(p, ps.flatten());
}

proof fn lemma_ink_of_one(p: Seq<char>)
    ensures
        ink_of(seq![p]) == ink(p),
{
    seq![p].lemma_flatten_one_element();
}

proof fn lemma_ink_sentences(s: Seq<char>, guards: Guards, last: int, i: int)
    requires
        0 <= last <= i <= s.len(),
    ensures
        ink_of(split_sentences_from(s, guards, last, i)) == ink(s.subrange(last, s.len() as int)),
    decreases s.len() - i,
{
    let n = s.len() as int;
    if i >= n {
        lemma_ink_of_one(s.subrange(last, n));
    } else if sentence_ends(s, guards, i) {
        lemma_next_sentence(s, guards, i);
        let c = run_end(s, closers(), i);
        let e = next_sentence(s, i);
        lemma_run_end(s, closers(), i);
        lemma_run_end(s, blanks(), c);
        lemma_ink_sentences(s, guards, e, e);
        lemma_ink_of_first(s.subrange(last, i), split_sentences_from(s, guards, e, e));
        lemma_ink_split(s, last, i, n);
        lemma_ink_split(s, i, e, n);
        assert forall|k: int| 0 <= k < e - i implies blank(#[trigger] s.subrange(i, e)[k])
            || closer(s.subrange(i, e)[k]) by {
            if i + k < c {
                assert(closers()(s[i + k]));
            } else {
                assert(blanks()(s[i + k]));
            }
        }
        lemma_ink_none(s.subrange(i, e));
        assert(ink(s.subrange(i, n)) =~= ink(s.subrange(e, n)));
    } else {
        lemma_ink_sentences(s, guards, last, i + 1);
    }
}

proof fn lemma_ink_clauses(s: Seq<char>, last: int, i: int)
    requires
        0 <= last <= i <= s.len(),
    ensures
        ink_of(split_clauses_from(s, last, i)) == ink(s.subrange(last, s.len() as int)),
    decreases s.len() - i,
{
    let n = s.len() as int;
    if i >= n {
        lemma_ink_of_one(s.subrange(last, n));
    } else if clause_ends(s, i) {
        lemma_run_end(s, blanks(), i + 1);
        let e = run_end(s, blanks(), i + 1);
        lemma_ink_clauses(s, e, e);
        lemma_ink_of_first(s.subrange(last, i), split_clauses_from(s, e, e));
        lemma_ink_split(s, last, i, n);
        lemma_ink_split(s, i, e, n);
        assert forall|k: int| 0 <= k < e - i implies blank(#[trigger] s.subrange(i, e)[k]) by {
            if k > 0 {
                assert(blanks()(s[i + k]));
            }
        }
        lemma_ink_none(s.subrange(i, e));
        assert(ink(s.subrange(i, n)) =~= ink(s.subrange(e, n)));
    } else {
        lemma_ink_clauses(s, last, i + 1);
    }
}

proof fn lemma_ink_stripped(ps: Seq<Seq<char>>)
    ensures
        ink_of(stripped(ps)) == ink_of(ps),
    decreases ps.len(),
{
    let f = |p: Seq<char>| strip(p);
    let keep = |p: Seq<char>| p.len() > 0;
    if ps.len() == 0 {
        assert(ps.map_values(f) =~= ps);
        reveal(Seq::filter);
        assert(stripped(ps) =~= ps);
    } else {
        let rest = ps.drop_last();
        let p = ps.last();
        lemma_ink_stripped(rest);
        assert(ps =~= rest.push(p));
        assert(rest.push(p).map_values(f) =~= rest.map_values(f).push(strip(p)));
        rest.map_values(f).lemma_filter_push(strip(p), keep);
        lemma_ink_of_push(rest, p);
        lemma_ink_strip(p);
        if strip(p).len() > 0 {
            lemma_ink_of_push(stripped(rest), strip(p));
        } else {
            lemma_ink_none(strip(p));
            assert(ink_of(rest) + ink(p) =~= ink_of(rest));
        }
    }
}

spec fn ink_filling(f: Filling) -> Seq<char> {
    ink_of(f.done) + ink(f.cur)
}

proof fn lemma_ink_finish(f: Filling)
    ensures
        ink_of(finish(f)) == ink_filling(f),
{
    if f.cur.len() > 0 {
        lemma_ink_of_push(f.done, f.cur);
    } else {
        lemma_ink_none(f.cur);
        assert(ink_of(f.done) + ink(f.cur) =~= ink_of(f.done));
    }
}

proof fn lemma_ink_fill(f: Filling, p: Seq<char>, max: nat)
    ensures
        ink_filling(fill(f, p, max)) == ink_filling(f) + ink(p),
{
    if f.cur.len() > 0 && f.cur.len() + p.len() + 1 > max {
        lemma_ink_of_push(f.done, f.cur);
    } else {
        lemma_ink_strip(f.cur.push(' ') + p);
        lemma_ink_add(f.cur.push(' '), p);
        lemma_ink_add(f.cur, seq![' ']);
        assert(f.cur + seq![' '] =~= f.cur.push(' '));
        lemma_ink_none(seq![' ']);
        assert(ink(f.cur) + ink(seq![' ']) =~= ink(f.cur));
        assert(ink_of(f.done) + (ink(f.cur) + ink(p)) =~= ink_of(f.done) + ink(f.cur) + ink(p));
    }
}

proof fn lemma_ink_fill_all(done: Seq<Seq<char>>, parts: Seq<Seq<char>>, n: nat, max: nat)
    requires
        n <= parts.len(),
    ensures
        ink_filling(fill_all(done, parts, n, max)) == ink_of(done) + ink_of(parts.take(n as int)),
    decreases n,
{
    if n == 0 {
        lemma_ink_none(Seq::empty());
        assert(parts.take(0) =~= Seq::<Seq<char>>::empty());
        lemma_ink_none(parts.take(0).flatten());
        assert(ink_of(done) + Seq::<char>::empty() =~= ink_of(done));
    } else {
        let k = (n - 1) as nat;
        lemma_ink_fill_all(done, parts, k, max);
        lemma_ink_fill(fill_all(done, parts, k, max), parts[k as int], max);
        assert(parts.take(n as int) =~= parts.take(k as int).push(parts[k as int]));
        lemma_ink_of_push(parts.take(k as int), parts[k as int]);
        assert(ink_of(done) + ink_of(parts.take(k as int)) + ink(parts[k as int]) =~= ink_of(done)
            + (ink_of(parts.take(k as int)) + ink(parts[k as int])));
    }
}

proof fn lemma_ink_group(sents: Seq<Seq<char>>, n: nat, max: nat)
    requires
        n <= sents.len(),
    ensures
        ink_filling(group(sents, n, max)) == ink_of(sents.take(n as int)),
    decreases n,
{
    if n == 0 {
        lemma_ink_none(Seq::empty());
        assert(sents.take(0) =~= Seq::<Seq<char>>::empty());
        assert(group(sents, n, max).done =~= sents.take(0));
        assert(ink_of(sents.take(0)) + Seq::<char>::empty() =~= ink_of(sents.take(0)));
    } else {
        let k = (n - 1) as nat;
        let f = group(sents, k, max);
        let s = sents[k as int];
        lemma_ink_group(sents, k, max);
        assert(sents.take(n as int) =~= sents.take(k as int).push(s));
        lemma_ink_of_push(sents.take(k as int), s);
        if s.len() > max {
            let clauses = split_clauses_from(s, 0, 0);
            lemma_ink_clauses(s, 0, 0);
            assert(s.subrange(0, s.len() as int) =~= s);
            lemma_ink_finish(f);
            lemma_ink_fill_all(finish(f), clauses, clauses.len(), max);
            assert(clauses.take(clauses.len() as int) =~= clauses);
            lemma_ink_finish(fill_all(finish(f), clauses, clauses.len(), max));
            lemma_ink_none(Seq::empty());
            let after = take_sentence(f, s, max);
            assert(ink_of(after.done) + Seq::<char>::empty() =~= ink_of(after.done));
        } else {
            lemma_ink_fill(f, s, max);
        }
    }
}

/// Chunking loses nothing that carries text and invents nothing: read one after
/// the other, the chunks of a paragraph hold the paragraph's characters in
/// order, blanks and closing quotes aside.
pub proof fn law_chunks_keep_the_text(para: Seq<char>, max: nat, guards: Guards)
    ensures
        ink_of(chunks_of(para, max, guards)) == ink(para),
        ink_of(sentences_of(para, guards)) == ink(para),
{
    let pieces = split_sentences_from(para, guards, 0, 0);
    let sents = sentences_of(para, guards);
    lemma_ink_sentences(para, guards, 0, 0);
    assert(para.subrange(0, para.len() as int) =~= para);
    lemma_ink_stripped(pieces);
    lemma_ink_group(sents, sents.len(), max);
    assert(sents.take(sents.len() as int) =~= sents);
    lemma_ink_finish(group(sents, sents.len(), max));
}

/// Whether `c` is one clause of one of `sents`, a sentence too long to be a
/// chunk, with or without the blanks at its ends.
pub open spec fn lone_clause(sents: Seq<Seq<char>>, max: nat, c: Seq<char>) -> bool {
    exists|i: int, j: int|
        0 <= i < sents.len() && sents[i].len() > max && 0 <= j < split_clauses_from(
            sents[i],
            0,
            0,
        ).len() && (c == #[trigger] split_clauses_from(sents[i], 0, 0)[j] || c == strip(
            split_clauses_from(sents[i], 0, 0)[j],
        ))
}

/// A chunk that a plan may hold.
pub open spec fn fair_chunk(sents: Seq<Seq<char>>, max: nat, c: Seq<char>) -> bool {
    c.len() > 0 && (c.len() <= max || lone_clause(sents, max, c))
}

spec fn fair_filling(sents: Seq<Seq<char>>, max: nat, f: Filling) -> bool {
    &&& forall|i: int| 0 <= i < f.done.len() ==> fair_chunk(sents, max, #[trigger] f.done[i])
    &&& f.cur.len() > 0 ==> fair_chunk(sents, max, f.cur)
}

pub proof fn lemma_joined_len(a: Seq<char>, b: Seq<char>)
    ensures
        joined(a, b).len() <= a.len() + 1 + b.len(),
        a.len() == 0 ==> joined(a, b) == strip(b),
        strip(b).len() <= b.len(),
{
    let s = a.push(' ') + b;
    let n = s.len() as int;
    lemma_run_end(s, blanks(), 0);
    lemma_run_start(s, blanks(), run_end(s, blanks(), 0), n);
    lemma_run_end(b, blanks(), 0);
    lemma_run_start(b, blanks(), run_end(b, blanks(), 0), b.len() as int);
    if a.len() == 0 {
        lemma_run_end(s, blanks(), 1);
        assert(s[0] == ' ');
        assert(run_end(s, blanks(), 0) == run_end(s, blanks(), 1));
        lemma_shift_run_end(b, s, 0);
        lemma_shift_run_start(b, s, run_end(b, blanks(), 0), b.len() as int);
        assert(strip(s) =~= strip(b));
    }
}

proof fn lemma_shift_run_end(b: Seq<char>, s: Seq<char>, i: int)
    requires
        s.len() == b.len() + 1,
        forall|k: int| 0 <= k < b.len() ==> s[k + 1] == #[trigger] b[k],
        0 <= i <= b.len(),
    ensures
        run_end(s, blanks(), i + 1) == run_end(b, blanks(), i) + 1,
    decreases b.len() - i,
{
    if i < b.len() && blanks()(b[i]) {
        lemma_shift_run_end(b, s, i + 1);
    }
    assert(i < b.len() ==> s[i + 1] == b[i]);
}

proof fn lemma_shift_run_start(b: Seq<char>, s: Seq<char>, lo: int, j: int)
    requires
        s.len() == b.len() + 1,
        forall|k: int| 0 <= k < b.len() ==> s[k + 1] == #[trigger] b[k],
        0 <= lo <= j <= b.len(),
    ensures
        run_start(s, blanks(), lo + 1, j + 1) == run_start(b, blanks(), lo, j) + 1,
    decreases j - lo,
{
    if lo < j && blanks()(b[j - 1]) {
        lemma_shift_run_start(b, s, lo, j - 1);
    }
    assert(lo < j ==> s[j] == b[j - 1]);
}

proof fn lemma_fair_fill(sents: Seq<Seq<char>>, max: nat, f: Filling, p: Seq<char>)
    requires
        fair_filling(sents, max, f),
        p.len() > 0 ==> p.len() <= max || lone_clause(sents, max, p),
        strip(p).len() > 0 ==> strip(p).len() <= max || lone_clause(sents, max, strip(p)),
    ensures
        fair_filling(sents, max, fill(f, p, max)),
{
    lemma_joined_len(f.cur, p);
}

proof fn lemma_fair_fill_all(
    sents: Seq<Seq<char>>,
    max: nat,
    done: Seq<Seq<char>>,
    which: int,
    n: nat,
)
    requires
        0 <= which < sents.len(),
        sents[which].len() > max,
        n <= split_clauses_from(sents[which], 0, 0).len(),
        forall|i: int| 0 <= i < done.len() ==> fair_chunk(sents, max, #[trigger] done[i]),
    ensures
        fair_filling(
            sents,
            max,
            fill_all(done, split_clauses_from(sents[which], 0, 0), n, max),
        ),
    decreases n,
{
    if n > 0 {
        let parts = split_clauses_from(sents[which], 0, 0);
        lemma_fair_fill_all(sents, max, done, which, (n - 1) as nat);
        let p = parts[n - 1];
        assert(lone_clause(sents, max, p));
        assert(lone_clause(sents, max, strip(p)));
        lemma_fair_fill(sents, max, fill_all(done, parts, (n - 1) as nat, max), p);
    }
}

proof fn lemma_fair_group(sents: Seq<Seq<char>>, max: nat, n: nat)
    requires
        n <= sents.len(),
    ensures
        fair_filling(sents, max, group(sents, n, max)),
    decreases n,
{
    if n > 0 {
        let f = group(sents, (n - 1) as nat, max);
        let s = sents[n - 1];
        lemma_fair_group(sents, max, (n - 1) as nat);
        if s.len() > max {
            let clauses = split_clauses_from(s, 0, 0);
            lemma_fair_fill_all(sents, max, finish(f), n - 1, clauses.len());
        } else {
            lemma_joined_len(Seq::empty(), s);
            lemma_fair_fill(sents, max, f, s);
        }
    }
}

/// No chunk is empty, and a chunk longer than the limit is always one clause of
/// a sentence that was itself too long.
pub proof fn law_chunks_are_fair(para: Seq<char>, max: nat, guards: Guards)
    ensures
        forall|i: int|
            0 <= i < chunks_of(para, max, guards).len() ==> fair_chunk(
                sentences_of(para, guards),
                max,
                #[trigger] chunks_of(para, max, guards)[i],
            ),
{
    let sents = sentences_of(para, guards);
    lemma_fair_group(sents, max, sents.len());
}

proof fn lemma_chunks_upto(paras: Seq<Seq<char>>, n: nat, max: nat, guards: Guards)
    requires
        n <= paras.len(),
    ensures
        ({
            let cs = chunks_upto(paras, n, max, guards);
            &&& forall|i: int|
                0 <= i < cs.len() ==> (#[trigger] cs[i]).para < n && cs[i].silent == !speakable(
                    cs[i].text,
                ) && cs[i].text.len() > 0
            &&& forall|i: int, j: int|
                0 <= i <= j < cs.len() ==> (#[trigger] cs[i]).para <= (#[trigger] cs[j]).para
        }),
    decreases n,
{
    if n > 0 {
        let k = (n - 1) as nat;
        lemma_chunks_upto(paras, k, max, guards);
        law_chunks_are_fair(paras[k as int], max, guards);
        let new = paragraph_chunks(paras[k as int], k, max, guards);
        assert forall|i: int| 0 <= i < new.len() implies (#[trigger] new[i]).para == k
            && new[i].text.len() > 0 && new[i].silent == !speakable(new[i].text) by {
            assert(new[i].text == chunks_of(paras[k as int], max, guards)[i]);
        }
        let before = chunks_upto(paras, k, max, guards);
        let cs = chunks_upto(paras, n, max, guards);
        assert(cs == before + new);
        assert forall|i: int| 0 <= i < cs.len() implies (#[trigger] cs[i]).para < n
            && cs[i].silent == !speakable(cs[i].text) && cs[i].text.len() > 0 by {
            if i < before.len() {
                assert(cs[i] == before[i]);
            } else {
                assert(cs[i] == new[i - before.len()]);
            }
        }
        assert forall|i: int, j: int| 0 <= i <= j < cs.len() implies (#[trigger] cs[i]).para <= (
        #[trigger] cs[j]).para by {
            if j < before.len() {
                assert(cs[i] == before[i] && cs[j] == before[j]);
            } else {
                assert(cs[j] == new[j - before.len()]);
                if i < before.len() {
                    assert(cs[i] == before[i]);
                } else {
                    assert(cs[i] == new[i - before.len()]);
                }
            }
        }
    }
}

/// A plan keeps the order of the book. Its chapters are the spine documents that
/// have something to say, each under its place in the spine and with its own id
/// and title; no chapter is empty; within one, the paragraph numbers never fall;
/// and a chunk is silent exactly when there is nothing in it to pronounce.
pub proof fn law_plan_keeps_order(raw: Seq<RawChapterView>, max: nat, guards: Guards)
    ensures
        ({
            let plan = plan_of(raw, max, guards);
            &&& forall|i: int| 0 <= i < plan.len() ==> planned_from(raw, #[trigger] plan[i])
            &&& forall|i: int, j: int|
                0 <= i < j < plan.len() ==> (#[trigger] plan[i]).index < (#[trigger] plan[j]).index
        }),
{
    lemma_plan_upto(raw, raw.len(), max, guards);
}

/// Whether `c` is a chapter that a plan of `raw` may hold.
pub open spec fn planned_from(raw: Seq<RawChapterView>, c: ChapterView) -> bool {
    &&& c.index < raw.len()
    &&& c.id == raw[c.index as int].id
    &&& c.title == raw[c.index as int].title
    &&& c.chunks.len() > 0
    &&& forall|k: int|
        0 <= k < c.chunks.len() ==> (#[trigger] c.chunks[k]).para
            < raw[c.index as int].paragraphs.len() && c.chunks[k].silent == !speakable(
            c.chunks[k].text,
        ) && c.chunks[k].text.len() > 0
    &&& forall|k: int, m: int|
        0 <= k <= m < c.chunks.len() ==> (#[trigger] c.chunks[k]).para <= (
        #[trigger] c.chunks[m]).para
}

proof fn lemma_plan_upto(raw: Seq<RawChapterView>, n: nat, max: nat, guards: Guards)
    requires
        n <= raw.len(),
    ensures
        ({
            let plan = plan_upto(raw, n, max, guards);
            &&& forall|i: int|
                0 <= i < plan.len() ==> planned_from(raw, #[trigger] plan[i]) && plan[i].index < n
            &&& forall|i: int, j: int|
                0 <= i < j < plan.len() ==> (#[trigger] plan[i]).index < (#[trigger] plan[j]).index
        }),
    decreases n,
{
    if n > 0 {
        let k = (n - 1) as nat;
        let r = raw[k as int];
        lemma_plan_upto(raw, k, max, guards);
        lemma_chunks_upto(r.paragraphs, r.paragraphs.len(), max, guards);
        let before = plan_upto(raw, k, max, guards);
        let plan = plan_upto(raw, n, max, guards);
        assert forall|i: int| 0 <= i < plan.len() implies planned_from(raw, #[trigger] plan[i])
            && plan[i].index < n by {
            if i < before.len() {
                assert(plan[i] == before[i]);
            }
        }
        assert forall|i: int, j: int| 0 <= i < j < plan.len() implies (#[trigger] plan[i]).index < (
        #[trigger] plan[j]).index by {
            assert(plan[i] == before[i]);
            if j < before.len() {
                assert(plan[j] == before[j]);
            }
        }
    }
}

} // verus!
