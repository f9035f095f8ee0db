//! Which sentences a chunk takes, and that no fewer chunks would do.

use vstd::prelude::*;
use crate::book::{blank, blanks, chunks_of, clause_ends, fill, fill_all, finish, group, joined, sentences_of, split_clauses_from, strip, take_sentence, Filling, Guards};
use crate::book_laws::lemma_joined_len;
use crate::chars::{join, lemma_run_end, lemma_run_start, run_end, run_start};
use crate::sentence_laws::{law_sentences_are_neat, lemma_neat_stays, neat};

verus! {

/// The sentences from `a` up to `b`, with a space between each two.
pub open spec fn words(sents: Seq<Seq<char>>, a: int, b: int) -> Seq<char> {
    join(sents.subrange(a, b), seq![' '])
}

/// Which sentences the finished chunks take, and where the one being filled starts.
pub struct Spans {
    pub done: Seq<(int, int)>,
    pub from: int,
}

/// The spans once the one being filled is finished before sentence `n`.
pub open spec fn shut(t: Spans, n: int) -> Seq<(int, int)> {
    if t.from < n {
        t.done.push((t.from, n))
    } else {
        t.done
    }
}

/// Which of the first `n` sentences each chunk takes. A sentence that is too long
/// gives as many chunks as its clauses fill.
pub open spec fn spans_of(sents: Seq<Seq<char>>, n: nat, max: nat) -> Spans
    decreases n,
{
    if n == 0 || n > sents.len() {
        Spans { done: Seq::empty(), from: 0 }
    } else {
        let t = spans_of(sents, (n - 1) as nat, max);
        let s = sents[n - 1];
        if s.len() > max {
            let before = shut(t, n - 1);
            let more = (group(sents, n, max).done.len() - before.len()) as nat;
            Spans { done: before + Seq::new(more, |k: int| (n - 1, n as int)), from: n as int }
        } else if t.from < n - 1 && words(sents, t.from, n - 1).len() + 1 + s.len() > max {
            Spans { done: t.done.push((t.from, n - 1)), from: n - 1 }
        } else {
            t
        }
    }
}

/// Which sentences each chunk takes.
pub open spec fn cuts_of(sents: Seq<Seq<char>>, max: nat) -> Seq<(int, int)> {
    shut(spans_of(sents, sents.len(), max), sents.len() as int)
}

/// Whether sentence `i` fits in a chunk.
pub open spec fn short(sents: Seq<Seq<char>>, max: nat, i: int) -> bool {
    sents[i].len() <= max
}

/// Whether `c` is what the sentences of `at` give: all of them, whole and with a
/// space between each two, where they fit; or else a part of the one sentence that
/// does not.
pub open spec fn takes(sents: Seq<Seq<char>>, max: nat, at: (int, int), c: Seq<char>) -> bool {
    &&& 0 <= at.0 < at.1 <= sents.len()
    &&& if short(sents, max, at.0) {
        c == words(sents, at.0, at.1) && forall|i: int|
            at.0 <= i < at.1 ==> #[trigger] short(sents, max, i)
    } else {
        at.1 == at.0 + 1
    }
}

/// Whether `b` goes on where `a` ends, or with more of the same long sentence.
pub open spec fn goes_on(sents: Seq<Seq<char>>, max: nat, a: (int, int), b: (int, int)) -> bool {
    b.0 == a.1 || (a == b && !short(sents, max, a.0))
}

/// Whether the chunk `c` of the sentences `at` could not have taken the next one
/// too: there is none, it is too long for any chunk, or it does not fit in this one.
pub open spec fn is_full(sents: Seq<Seq<char>>, max: nat, at: (int, int), c: Seq<char>) -> bool {
    short(sents, max, at.0) && at.1 < sents.len() && short(sents, max, at.1) ==> c.len() + 1
        + sents[at.1].len() > max
}

// --------------------------------------------------------------------- the words

pub proof fn lemma_words_one(sents: Seq<Seq<char>>, a: int)
    requires
        0 <= a < sents.len(),
    ensures
        words(sents, a, a + 1) == sents[a],
{
    assert(sents.subrange(a, a + 1).len() == 1);
}

pub proof fn lemma_words_next(sents: Seq<Seq<char>>, a: int, b: int)
    requires
        0 <= a < b < sents.len(),
    ensures
        words(sents, a, b + 1) == words(sents, a, b) + seq![' '] + sents[b],
{
    let v = sents.subrange(a, b + 1);
    assert(v.drop_last() =~= sents.subrange(a, b));
    assert(v.last() == sents[b]);
}

pub proof fn lemma_words_neat(sents: Seq<Seq<char>>, a: int, b: int)
    requires
        0 <= a < b <= sents.len(),
        forall|i: int| 0 <= i < sents.len() ==> neat(#[trigger] sents[i]),
    ensures
        neat(words(sents, a, b)),
    decreases b - a,
{
    if b == a + 1 {
        lemma_words_one(sents, a);
    } else {
        lemma_words_neat(sents, a, b - 1);
        lemma_words_next(sents, a, b - 1);
        let w = words(sents, a, b - 1);
        let all = w + seq![' '] + sents[b - 1];
        assert(all[0] == w[0]);
        assert(all.last() == sents[b - 1].last());
    }
}

/// Joining two neat texts puts one space between them and takes nothing off.
pub proof fn lemma_joined_neat(a: Seq<char>, b: Seq<char>)
    requires
        neat(a),
        neat(b),
    ensures
        joined(a, b) == a + seq![' '] + b,
{
    let all = a.push(' ') + b;
    assert(all =~= a + seq![' '] + b);
    assert(all[0] == a[0]);
    assert(all.last() == b.last());
    lemma_neat_stays(all);
}

// ------------------------------------------------------------ the long sentences

proof fn lemma_strip_starts(s: Seq<char>)
    requires
        s.len() > 0,
        !blank(s[0]),
    ensures
        strip(s).len() > 0,
        strip(s)[0] == s[0],
{
    let n = s.len() as int;
    assert(!blanks()(s[0]));
    assert(run_end(s, blanks(), 0) == 0);
    lemma_run_start(s, blanks(), 0, n);
    let b = run_start(s, blanks(), 0, n);
    if b == 0 {
        assert(blanks()(s[0]));
    }
}

proof fn lemma_first_clause(s: Seq<char>, i: int)
    requires
        s.len() > 0,
        0 <= i <= s.len(),
    ensures
        split_clauses_from(s, 0, i).len() > 0,
        split_clauses_from(s, 0, i)[0].len() > 0,
        split_clauses_from(s, 0, i)[0][0] == s[0],
    decreases s.len() - i,
{
    if i < s.len() && !clause_ends(s, i) {
        lemma_first_clause(s, i + 1);
    } else if i < s.len() {
        lemma_run_end(s, blanks(), i + 1);
    }
}

/// Filling keeps the chunks that are finished; and parts of which the first starts
/// with something give at least one chunk more.
proof fn lemma_fill_all_grows(done: Seq<Seq<char>>, parts: Seq<Seq<char>>, n: nat, max: nat)
    requires
        n <= parts.len(),
        parts.len() > 0,
        parts[0].len() > 0,
        !blank(parts[0][0]),
    ensures
        ({
            let f = fill_all(done, parts, n, max);
            &&& done.len() <= f.done.len()
            &&& forall|i: int| 0 <= i < done.len() ==> #[trigger] f.done[i] == done[i]
            &&& n > 0 ==> f.done.len() > done.len() || (f.cur.len() > 0 && !blank(f.cur[0]))
        }),
    decreases n,
{
    if n > 0 {
        let k = (n - 1) as nat;
        lemma_fill_all_grows(done, parts, k, max);
        let f = fill_all(done, parts, k, max);
        let p = parts[k as int];
        let all = f.cur.push(' ') + p;
        if k == 0 {
            lemma_joined_len(f.cur, p);
            lemma_strip_starts(p);
        } else if f.done.len() == done.len() {
            assert(all[0] == f.cur[0]);
            lemma_strip_starts(all);
        }
    }
}

/// The clauses of a neat text are neat.
pub proof fn lemma_clauses_neat(s: Seq<char>, last: int, i: int)
    requires
        neat(s),
        0 <= last <= i <= s.len(),
        last < s.len(),
        !blank(s[last]),
    ensures
        forall|k: int|
            0 <= k < split_clauses_from(s, last, i).len() ==> neat(
                #[trigger] split_clauses_from(s, last, i)[k],
            ),
    decreases s.len() - i,
{
    let n = s.len() as int;
    let all = split_clauses_from(s, last, i);
    if i >= n {
        let p = s.subrange(last, n);
        assert(all =~= seq![p]);
        assert(p[0] == s[last] && p.last() == s.last());
        assert forall|k: int| 0 <= k < all.len() implies neat(#[trigger] all[k]) by {
            assert(all[k] == p);
        }
    } else if clause_ends(s, i) {
        lemma_run_end(s, blanks(), i + 1);
        let e = run_end(s, blanks(), i + 1);
        if e == n {
            assert(i + 1 < n ==> blanks()(s[n - 1]));
        }
        assert(!blanks()(s[e]));
        lemma_clauses_neat(s, e, e);
        let rest = split_clauses_from(s, e, e);
        let p = s.subrange(last, i);
        assert(p[0] == s[last] && p.last() == s[i - 1]);
        assert(all == seq![p] + rest);
        assert forall|k: int| 0 <= k < all.len() implies neat(#[trigger] all[k]) by {
            if k > 0 {
                assert(all[k] == rest[k - 1]);
            } else {
                assert(all[k] == p);
            }
        }
    } else {
        lemma_clauses_neat(s, last, i + 1);
        assert(all == split_clauses_from(s, last, i + 1));
    }
}

spec fn neat_filling(f: Filling) -> bool {
    &&& forall|k: int| 0 <= k < f.done.len() ==> neat(#[trigger] f.done[k])
    &&& f.cur.len() > 0 ==> neat(f.cur)
}

proof fn lemma_fill_neat(f: Filling, p: Seq<char>, max: nat)
    requires
        neat_filling(f),
        neat(p),
    ensures
        neat_filling(fill(f, p, max)),
{
    if f.cur.len() == 0 {
        lemma_joined_len(f.cur, p);
        lemma_neat_stays(p);
    } else if f.cur.len() + p.len() + 1 <= max {
        lemma_joined_neat(f.cur, p);
        let all = f.cur + seq![' '] + p;
        assert(all[0] == f.cur[0]);
        assert(all.last() == p.last());
    }
}

proof fn lemma_fill_all_neat(done: Seq<Seq<char>>, parts: Seq<Seq<char>>, n: nat, max: nat)
    requires
        n <= parts.len(),
        forall|k: int| 0 <= k < done.len() ==> neat(#[trigger] done[k]),
        forall|k: int| 0 <= k < parts.len() ==> neat(#[trigger] parts[k]),
    ensures
        neat_filling(fill_all(done, parts, n, max)),
    decreases n,
{
    if n > 0 {
        lemma_fill_all_neat(done, parts, (n - 1) as nat, max);
        lemma_fill_neat(fill_all(done, parts, (n - 1) as nat, max), parts[n - 1], max);
    }
}

proof fn lemma_group_neat(sents: Seq<Seq<char>>, n: nat, max: nat)
    requires
        n <= sents.len(),
        forall|i: int| 0 <= i < sents.len() ==> neat(#[trigger] sents[i]),
    ensures
        neat_filling(group(sents, n, max)),
    decreases n,
{
    if n > 0 {
        let f = group(sents, (n - 1) as nat, max);
        let s = sents[n - 1];
        lemma_group_neat(sents, (n - 1) as nat, max);
        if s.len() > max {
            let parts = split_clauses_from(s, 0, 0);
            lemma_clauses_neat(s, 0, 0);
            lemma_fill_all_neat(finish(f), parts, parts.len(), max);
        } else {
            lemma_fill_neat(f, s, max);
        }
    }
}

/// No chunk is empty, and none has a blank at either end.
pub proof fn law_chunks_are_neat(para: Seq<char>, max: nat, guards: Guards)
    ensures
        forall|i: int|
            0 <= i < chunks_of(para, max, guards).len() ==> neat(
                #[trigger] chunks_of(para, max, guards)[i],
            ),
{
    let sents = sentences_of(para, guards);
    law_sentences_are_neat(para, guards);
    lemma_group_neat(sents, sents.len(), max);
}

// ------------------------------------------------------------------- the grouping

spec fn spanned(sents: Seq<Seq<char>>, max: nat, n: int, t: Spans, f: Filling) -> bool {
    &&& t.done.len() == f.done.len()
    &&& 0 <= t.from <= n
    &&& f.cur == if t.from < n {
        words(sents, t.from, n)
    } else {
        Seq::<char>::empty()
    }
    &&& forall|i: int| t.from <= i < n ==> #[trigger] short(sents, max, i)
    &&& forall|k: int|
        0 <= k < t.done.len() ==> (#[trigger] t.done[k]).1 <= t.from && takes(
            sents,
            max,
            t.done[k],
            f.done[k],
        ) && is_full(sents, max, t.done[k], f.done[k])
    &&& forall|k: int|
        0 <= k < t.done.len() - 1 ==> goes_on(sents, max, #[trigger] t.done[k], t.done[k + 1])
    &&& if t.done.len() == 0 {
        t.from == 0
    } else {
        t.done[0].0 == 0 && t.done.last().1 == t.from
    }
}

/// Finishing the chunk being filled, where nothing that follows would fit in it.
proof fn lemma_shut(sents: Seq<Seq<char>>, max: nat, n: int, t: Spans, f: Filling)
    requires
        0 <= n <= sents.len(),
        spanned(sents, max, n, t, f),
        forall|i: int| 0 <= i < sents.len() ==> neat(#[trigger] sents[i]),
        t.from < n && n < sents.len() && short(sents, max, n) ==> f.cur.len() + 1
            + sents[n].len() > max,
    ensures
        spanned(
            sents,
            max,
            n,
            Spans { done: shut(t, n), from: n },
            Filling { done: finish(f), cur: Seq::empty() },
        ),
{
    if t.from < n {
        lemma_words_neat(sents, t.from, n);
        let u = shut(t, n);
        let d = finish(f);
        assert(short(sents, max, t.from));
        assert forall|k: int| 0 <= k < u.len() implies (#[trigger] u[k]).1 <= n && takes(
            sents,
            max,
            u[k],
            d[k],
        ) && is_full(sents, max, u[k], d[k]) by {
            if k < t.done.len() {
                assert(u[k] == t.done[k] && d[k] == f.done[k]);
            }
        }
        assert forall|k: int| 0 <= k < u.len() - 1 implies goes_on(
            sents,
            max,
            #[trigger] u[k],
            u[k + 1],
        ) by {
            assert(u[k] == t.done[k]);
            if k + 1 < t.done.len() {
                assert(u[k + 1] == t.done[k + 1]);
            }
        }
    }
}

proof fn lemma_spans(sents: Seq<Seq<char>>, n: nat, max: nat)
    requires
        n <= sents.len(),
        forall|i: int| 0 <= i < sents.len() ==> neat(#[trigger] sents[i]),
    ensures
        spanned(sents, max, n as int, spans_of(sents, n, max), group(sents, n, max)),
    decreases n,
{
    if n > 0 {
        let m = (n - 1) as nat;
        lemma_spans(sents, m, max);
        let t = spans_of(sents, m, max);
        let f = group(sents, m, max);
        let s = sents[m as int];
        let u = spans_of(sents, n, max);
        let g = group(sents, n, max);
        assert(neat(s));
        if s.len() > max {
            lemma_shut(sents, max, m as int, t, f);
            let before = shut(t, m as int);
            let base = finish(f);
            let parts = split_clauses_from(s, 0, 0);
            lemma_first_clause(s, 0);
            lemma_fill_all_grows(base, parts, parts.len(), max);
            assert(g == take_sentence(f, s, max));
            assert(g.done.len() > base.len());
            assert(u.done.len() == g.done.len());
            assert(!short(sents, max, m as int));
            assert forall|k: int| 0 <= k < u.done.len() implies (#[trigger] u.done[k]).1 <= n
                && takes(sents, max, u.done[k], g.done[k]) && is_full(
                sents,
                max,
                u.done[k],
                g.done[k],
            ) by {
                if k < before.len() {
                    assert(u.done[k] == before[k]);
                    assert(g.done[k] == base[k]);
                }
            }
            assert forall|k: int| 0 <= k < u.done.len() - 1 implies goes_on(
                sents,
                max,
                #[trigger] u.done[k],
                u.done[k + 1],
            ) by {
                if k + 1 < before.len() {
                    assert(u.done[k] == before[k] && u.done[k + 1] == before[k + 1]);
                } else if k + 1 == before.len() {
                    assert(u.done[k] == before[k]);
                }
            }
            if before.len() > 0 {
                assert(u.done[0] == before[0]);
            }
        } else {
            assert(g == fill(f, s, max));
            assert(short(sents, max, m as int));
            lemma_words_one(sents, m as int);
            if t.from < m {
                lemma_words_neat(sents, t.from, m as int);
                if f.cur.len() + 1 + s.len() > max {
                    lemma_shut(sents, max, m as int, t, f);
                } else {
                    lemma_joined_neat(f.cur, s);
                    lemma_words_next(sents, t.from, m as int);
                }
            } else {
                lemma_joined_len(f.cur, s);
                lemma_neat_stays(s);
            }
        }
    }
}

/// The chunks of a paragraph go through its sentences in order and leave none out.
/// A chunk is a run of whole sentences with a space between each two, or a part of
/// one sentence that no chunk could hold; and it is full: where the next sentence
/// fits in a chunk at all, this one has no room for it.
pub proof fn law_chunks_are_whole_and_full(para: Seq<char>, max: nat, guards: Guards)
    ensures
        ({
            let sents = sentences_of(para, guards);
            let chunks = chunks_of(para, max, guards);
            let cuts = cuts_of(sents, max);
            &&& cuts.len() == chunks.len()
            &&& forall|k: int|
                0 <= k < cuts.len() ==> takes(sents, max, #[trigger] cuts[k], chunks[k])
                    && is_full(sents, max, cuts[k], chunks[k])
            &&& forall|k: int|
                0 <= k < cuts.len() - 1 ==> goes_on(sents, max, #[trigger] cuts[k], cuts[k + 1])
            &&& if sents.len() == 0 {
                cuts.len() == 0
            } else {
                cuts.len() > 0 && cuts[0].0 == 0 && cuts.last().1 == sents.len()
            }
        }),
{
    let sents = sentences_of(para, guards);
    let n = sents.len();
    law_sentences_are_neat(para, guards);
    lemma_spans(sents, n, max);
    lemma_shut(sents, max, n as int, spans_of(sents, n, max), group(sents, n, max));
}

// --------------------------------------------------------------------- no fewer

/// Whether `g` goes through the first `n` sentences in order and leaves none out.
pub open spec fn covers(g: Seq<(int, int)>, n: int) -> bool {
    &&& forall|k: int| 0 <= k < g.len() ==> 0 <= (#[trigger] g[k]).0 < g[k].1 <= n
    &&& forall|j: int, k: int|
        0 <= j < k < g.len() && k == j + 1 ==> (#[trigger] g[k]).0 == (#[trigger] g[j]).1
    &&& if n == 0 {
        g.len() == 0
    } else {
        g.len() > 0 && g[0].0 == 0 && g.last().1 == n
    }
}

/// Whether every group of `g` fits in a chunk.
pub open spec fn all_fit(sents: Seq<Seq<char>>, max: nat, g: Seq<(int, int)>) -> bool {
    forall|k: int|
        0 <= k < g.len() ==> words(sents, (#[trigger] g[k]).0, g[k].1).len() <= max
}

proof fn lemma_words_within(sents: Seq<Seq<char>>, a: int, b: int, c: int, d: int)
    requires
        0 <= a <= b < c <= d <= sents.len(),
    ensures
        words(sents, b, c).len() <= words(sents, a, d).len(),
    decreases (b - a) + (d - c),
{
    if c < d {
        lemma_words_within(sents, a, b, c, d - 1);
        lemma_words_next(sents, a, d - 1);
    } else if a < b {
        lemma_words_within(sents, a + 1, b, c, d);
        lemma_words_drop_first(sents, a, d);
    }
}

proof fn lemma_words_drop_first(sents: Seq<Seq<char>>, a: int, d: int)
    requires
        0 <= a < d - 1,
        d <= sents.len(),
    ensures
        words(sents, a + 1, d).len() <= words(sents, a, d).len(),
    decreases d - a,
{
    lemma_words_next(sents, a, d - 1);
    if a + 2 == d {
        lemma_words_one(sents, a + 1);
    } else {
        lemma_words_drop_first(sents, a, d - 1);
        lemma_words_next(sents, a + 1, d - 1);
    }
}

proof fn lemma_words_meet(sents: Seq<Seq<char>>, m: int, b: int)
    requires
        0 < m < b <= sents.len(),
    ensures
        words(sents, 0, b) == words(sents, 0, m) + seq![' '] + words(sents, m, b),
    decreases b - m,
{
    lemma_words_next(sents, 0, b - 1);
    if b == m + 1 {
        lemma_words_one(sents, m);
    } else {
        lemma_words_meet(sents, m, b - 1);
        lemma_words_next(sents, m, b - 1);
        assert(words(sents, 0, b) =~= words(sents, 0, m) + seq![' '] + words(sents, m, b));
    }
}

proof fn lemma_chunks_join(
    sents: Seq<Seq<char>>,
    chunks: Seq<Seq<char>>,
    cuts: Seq<(int, int)>,
    k: int,
)
    requires
        cuts.len() == chunks.len(),
        covers(cuts, sents.len() as int),
        forall|i: int|
            0 <= i < cuts.len() ==> chunks[i] == words(sents, (#[trigger] cuts[i]).0, cuts[i].1),
        0 < k <= cuts.len(),
    ensures
        join(chunks.take(k), seq![' ']) == words(sents, 0, cuts[k - 1].1),
    decreases k,
{
    let c = cuts[k - 1];
    if k > 1 {
        lemma_chunks_join(sents, chunks, cuts, k - 1);
        assert(chunks.take(k).drop_last() =~= chunks.take(k - 1));
        assert(cuts[k - 2 + 1].0 == cuts[k - 2].1);
        lemma_words_meet(sents, c.0, c.1);
    }
}

/// However the first groups of `g` are drawn, the chunks reach at least as far.
proof fn lemma_reaches(
    sents: Seq<Seq<char>>,
    max: nat,
    chunks: Seq<Seq<char>>,
    cuts: Seq<(int, int)>,
    g: Seq<(int, int)>,
    k: int,
)
    requires
        cuts.len() == chunks.len(),
        covers(cuts, sents.len() as int),
        covers(g, sents.len() as int),
        all_fit(sents, max, g),
        forall|i: int| 0 <= i < sents.len() ==> #[trigger] short(sents, max, i),
        forall|i: int|
            0 <= i < cuts.len() ==> chunks[i] == words(sents, (#[trigger] cuts[i]).0, cuts[i].1)
                && is_full(sents, max, cuts[i], chunks[i]),
        0 <= k < g.len(),
        k < cuts.len(),
    ensures
        g[k].1 <= cuts[k].1,
    decreases k,
{
    let c = cuts[k];
    if k > 0 {
        lemma_reaches(sents, max, chunks, cuts, g, k - 1);
        assert(cuts[k - 1 + 1].0 == cuts[k - 1].1);
        assert(g[k - 1 + 1].0 == g[k - 1].1);
    }
    assert(g[k].0 <= c.0);
    if c.1 < g[k].1 {
        assert(short(sents, max, c.0) && short(sents, max, c.1));
        lemma_words_next(sents, c.0, c.1);
        lemma_words_within(sents, g[k].0, c.0, c.1 + 1, g[k].1);
    }
}

/// Where every sentence fits in a chunk, the chunks spell the sentences with a space
/// between each two: nothing is lost, added or moved. And there are no more of them
/// than there must be: no other way of taking the sentences in order, as many as fit
/// in each, comes to fewer.
pub proof fn law_no_fewer_chunks(para: Seq<char>, max: nat, guards: Guards, g: Seq<(int, int)>)
    requires
        forall|i: int|
            0 <= i < sentences_of(para, guards).len() ==> #[trigger] short(
                sentences_of(para, guards),
                max,
                i,
            ),
    ensures
        ({
            let sents = sentences_of(para, guards);
            let chunks = chunks_of(para, max, guards);
            let cuts = cuts_of(sents, max);
            &&& join(chunks, seq![' ']) == join(sents, seq![' '])
            &&& covers(cuts, sents.len() as int)
            &&& cuts.len() == chunks.len()
            &&& forall|k: int|
                0 <= k < cuts.len() ==> chunks[k] == words(sents, (#[trigger] cuts[k]).0, cuts[k].1)
            &&& covers(g, sents.len() as int) && all_fit(sents, max, g) ==> chunks.len()
                <= g.len()
        }),
{
    let sents = sentences_of(para, guards);
    let chunks = chunks_of(para, max, guards);
    let cuts = cuts_of(sents, max);
    let n = sents.len() as int;
    law_chunks_are_whole_and_full(para, max, guards);
    assert forall|k: int| 0 <= k < cuts.len() implies chunks[k] == words(
        sents,
        (#[trigger] cuts[k]).0,
        cuts[k].1,
    ) && 0 <= cuts[k].0 < cuts[k].1 <= n by {
        assert(takes(sents, max, cuts[k], chunks[k]));
        assert(short(sents, max, cuts[k].0));
    }
    assert forall|j: int, k: int| 0 <= j < k < cuts.len() && k == j + 1 implies (
    #[trigger] cuts[k]).0 == (#[trigger] cuts[j]).1 by {
        assert(goes_on(sents, max, cuts[j], cuts[j + 1]));
        assert(short(sents, max, cuts[j].0));
    }
    lemma_no_fewer(sents, max, chunks, cuts, g);
}

proof fn lemma_no_fewer(
    sents: Seq<Seq<char>>,
    max: nat,
    chunks: Seq<Seq<char>>,
    cuts: Seq<(int, int)>,
    g: Seq<(int, int)>,
)
    requires
        cuts.len() == chunks.len(),
        covers(cuts, sents.len() as int),
        forall|i: int| 0 <= i < sents.len() ==> #[trigger] short(sents, max, i),
        forall|i: int|
            0 <= i < cuts.len() ==> chunks[i] == words(sents, (#[trigger] cuts[i]).0, cuts[i].1)
                && is_full(sents, max, cuts[i], chunks[i]),
    ensures
        join(chunks, seq![' ']) == join(sents, seq![' ']),
        covers(g, sents.len() as int) && all_fit(sents, max, g) ==> chunks.len() <= g.len(),
{
    let n = sents.len() as int;
    if n > 0 {
        lemma_chunks_join(sents, chunks, cuts, cuts.len() as int);
        assert(chunks.take(chunks.len() as int) =~= chunks);
        assert(sents.subrange(0, n) =~= sents);
    } else {
        assert(chunks =~= sents);
    }
    if covers(g, n) && all_fit(sents, max, g) && g.len() < cuts.len() {
        if g.len() > 0 {
            let k = g.len() - 1;
            lemma_reaches(sents, max, chunks, cuts, g, k);
            assert(cuts[k + 1].0 == cuts[k].1);
            assert(cuts[k + 1].0 < cuts[k + 1].1 <= n);
        }
    }
}

} // verus!
