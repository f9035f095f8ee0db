//! That a plan leaves nothing of its book out, and where long sentences are cut.

use vstd::prelude::*;
use crate::book::{blank, blanks, chunks_of, chunks_upto, clause_ends, closers, fill, fill_all, finish, group, next_sentence, paragraph_chunks, plan_of, plan_upto, sentence_ends, split_clauses_from, split_sentences_from, take_sentence, wordish, ChapterView, ChunkView, Filling, Guards, RawChapterView};
use crate::book_laws::lemma_joined_len;
use crate::chapters::abbreviated;
use crate::chars::{alphanumeric, lemma_run_end, lemma_run_start, run_end, run_start, uppercase, white_space};
use crate::chunk_laws::{covers, lemma_clauses_neat, lemma_joined_neat, lemma_words_neat, lemma_words_next, lemma_words_one, words};
use crate::rows::{lemma_pick_none, lemma_pick_push};
use crate::sentence_laws::{lemma_neat_stays, neat};

verus! {

// ----------------------------------------------------------------- nothing left out

proof fn lemma_of_paragraph(cs: Seq<ChunkView>, para: nat, k: nat)
    requires
        forall|i: int| 0 <= i < cs.len() ==> (#[trigger] cs[i]).para == para,
    ensures
        cs.filter(|c: ChunkView| c.para == k) == if para == k {
            cs
        } else {
            Seq::empty()
        },
    decreases cs.len(),
{
    reveal(Seq::filter);
    if cs.len() > 0 {
        let d = cs.drop_last();
        assert forall|i: int| 0 <= i < d.len() implies (#[trigger] d[i]).para == para by {
            assert(d[i] == cs[i]);
        }
        lemma_of_paragraph(d, para, k);
        assert(cs[cs.len() - 1].para == para);
        assert(d.push(cs.last()) =~= cs);
    }
}

proof fn lemma_paragraph(paras: Seq<Seq<char>>, n: nat, max: nat, guards: Guards, k: nat)
    requires
        n <= paras.len(),
    ensures
        ({
            let own = chunks_upto(paras, n, max, guards).filter(|c: ChunkView| c.para == k);
            own == if k < n {
                paragraph_chunks(paras[k as int], k, max, guards)
            } else {
                Seq::empty()
            }
        }),
    decreases n,
{
    let p = |c: ChunkView| c.para == k;
    reveal(Seq::filter);
    if n > 0 {
        let m = (n - 1) as nat;
        lemma_paragraph(paras, m, max, guards, k);
        let before = chunks_upto(paras, m, max, guards);
        let more = paragraph_chunks(paras[m as int], m, max, guards);
        assert forall|i: int| 0 <= i < more.len() implies (#[trigger] more[i]).para == m by {}
        lemma_of_paragraph(more, m, k);
        Seq::filter_distributes_over_add(before, more, p);
        assert(before.filter(p) + more.filter(p) =~= if k < n {
            paragraph_chunks(paras[k as int], k, max, guards)
        } else {
            Seq::empty()
        });
    } else {
        assert(chunks_upto(paras, 0, max, guards).filter(p) =~= Seq::<ChunkView>::empty());
    }
}

/// Every paragraph of a chapter is in it: the chunks under its number have the texts
/// that it is cut into, all of them and in order.
pub proof fn law_every_paragraph_is_chunked(
    paras: Seq<Seq<char>>,
    max: nat,
    guards: Guards,
    k: nat,
)
    requires
        k < paras.len(),
    ensures
        chunks_upto(paras, paras.len(), max, guards).filter(
            |c: ChunkView| c.para == k,
        ).map_values(|c: ChunkView| c.text) == chunks_of(paras[k as int], max, guards),
{
    lemma_paragraph(paras, paras.len(), max, guards, k);
    let own = paragraph_chunks(paras[k as int], k, max, guards);
    assert(own.map_values(|c: ChunkView| c.text) =~= chunks_of(paras[k as int], max, guards));
}

/// The places of the spine, in order.
pub open spec fn spine(raw: Seq<RawChapterView>) -> Seq<int> {
    Seq::new(raw.len(), |i: int| i)
}

/// Every document of the spine that has anything to say is a chapter, in order, with
/// all its chunks, and under its own place, number and title; no other is.
pub proof fn law_every_document_is_planned(raw: Seq<RawChapterView>, max: nat, guards: Guards)
    ensures
        ({
            let chunks = |i: int|
                chunks_upto(raw[i].paragraphs, raw[i].paragraphs.len(), max, guards);
            plan_of(raw, max, guards) == spine(raw).filter(
                |i: int| chunks(i).len() > 0,
            ).map_values(
                |i: int|
                    ChapterView {
                        index: i as nat,
                        id: raw[i].id,
                        title: raw[i].title,
                        chunks: chunks(i),
                    },
            )
        }),
{
    let chunks = |i: int| chunks_upto(raw[i].paragraphs, raw[i].paragraphs.len(), max, guards);
    let p = |i: int| chunks(i).len() > 0;
    let f = |i: int|
        ChapterView { index: i as nat, id: raw[i].id, title: raw[i].title, chunks: chunks(i) };
    lemma_planned(raw, raw.len(), max, guards);
    lemma_pick_none(spine(raw), p, f);
}

proof fn lemma_planned(raw: Seq<RawChapterView>, n: nat, max: nat, guards: Guards)
    requires
        n <= raw.len(),
    ensures
        ({
            let chunks = |i: int|
                chunks_upto(raw[i].paragraphs, raw[i].paragraphs.len(), max, guards);
            plan_upto(raw, n, max, guards) == spine(raw).take(n as int).filter(
                |i: int| chunks(i).len() > 0,
            ).map_values(
                |i: int|
                    ChapterView {
                        index: i as nat,
                        id: raw[i].id,
                        title: raw[i].title,
                        chunks: chunks(i),
                    },
            )
        }),
    decreases n,
{
    let chunks = |i: int| chunks_upto(raw[i].paragraphs, raw[i].paragraphs.len(), max, guards);
    let p = |i: int| chunks(i).len() > 0;
    let f = |i: int|
        ChapterView { index: i as nat, id: raw[i].id, title: raw[i].title, chunks: chunks(i) };
    lemma_pick_none(spine(raw), p, f);
    if n > 0 {
        lemma_planned(raw, (n - 1) as nat, max, guards);
        lemma_pick_push(spine(raw), n as int, p, f);
    }
}

// ------------------------------------------------------------------ where it is cut

/// Whether a clause ends before `i`: with a comma, a semicolon, a colon or a dash, and
/// a blank behind it.
pub open spec fn clause_over(s: Seq<char>, i: int) -> bool {
    &&& 0 < i < s.len()
    &&& s[i - 1] == ',' || s[i - 1] == ';' || s[i - 1] == ':' || s[i - 1] == '\u{2014}'
    &&& blank(s[i])
}

/// From where a clause starts it goes on to the first place where one ends, and the
/// next starts behind the blanks there; where none ends any more, it goes on to the end.
pub proof fn law_every_clause_is_cut(s: Seq<char>, a: int, k: int, e: int)
    requires
        0 <= a <= k <= s.len(),
        forall|i: int| a <= i < k ==> !#[trigger] clause_over(s, i),
        k < s.len() ==> clause_over(s, k) && k < e <= s.len() && (forall|i: int|
            k <= i < e ==> blank(#[trigger] s[i])) && (e < s.len() ==> !blank(s[e])),
    ensures
        split_clauses_from(s, a, a) == if k == s.len() {
            seq![s.subrange(a, k)]
        } else {
            seq![s.subrange(a, k)] + split_clauses_from(s, e, e)
        },
{
    lemma_clause_from(s, a, a, k, e);
}

proof fn lemma_clause_from(s: Seq<char>, a: int, i: int, k: int, e: int)
    requires
        0 <= a <= i <= k <= s.len(),
        forall|j: int| i <= j < k ==> !#[trigger] clause_over(s, j),
        k < s.len() ==> clause_over(s, k) && k < e <= s.len() && (forall|j: int|
            k <= j < e ==> blank(#[trigger] s[j])) && (e < s.len() ==> !blank(s[e])),
    ensures
        split_clauses_from(s, a, i) == if k == s.len() {
            seq![s.subrange(a, k)]
        } else {
            seq![s.subrange(a, k)] + split_clauses_from(s, e, e)
        },
    decreases k - i,
{
    if i < k {
        assert(!clause_over(s, i));
        assert(!clause_ends(s, i));
        lemma_clause_from(s, a, i + 1, k, e);
    } else if k < s.len() {
        assert(clause_ends(s, k));
        lemma_run_end(s, blanks(), k + 1);
        let r = run_end(s, blanks(), k + 1);
        assert(r == e) by {
            if r < e {
                assert(blank(s[r]));
            } else if e < r {
                assert(blanks()(s[e]));
            }
        }
    }
}

/// From where a sentence starts it goes on to the first place where one ends, and the
/// next starts behind the closing quotes and the blanks there; where none ends any
/// more, it goes on to the end.
pub proof fn law_every_sentence_is_cut(s: Seq<char>, guards: Guards, a: int, k: int)
    requires
        0 <= a <= k <= s.len(),
        forall|i: int| a <= i < k ==> !#[trigger] sentence_ends(s, guards, i),
        k < s.len() ==> sentence_ends(s, guards, k),
    ensures
        split_sentences_from(s, guards, a, a) == if k == s.len() {
            seq![s.subrange(a, k)]
        } else {
            seq![s.subrange(a, k)] + split_sentences_from(
                s,
                guards,
                next_sentence(s, k),
                next_sentence(s, k),
            )
        },
{
    lemma_sentence_from(s, guards, a, a, k);
}

proof fn lemma_sentence_from(s: Seq<char>, guards: Guards, a: int, i: int, k: int)
    requires
        0 <= a <= i <= k <= s.len(),
        forall|j: int| i <= j < k ==> !#[trigger] sentence_ends(s, guards, j),
        k < s.len() ==> sentence_ends(s, guards, k),
    ensures
        split_sentences_from(s, guards, a, i) == if k == s.len() {
            seq![s.subrange(a, k)]
        } else {
            seq![s.subrange(a, k)] + split_sentences_from(
                s,
                guards,
                next_sentence(s, k),
                next_sentence(s, k),
            )
        },
    decreases k - i,
{
    if i < k {
        assert(!sentence_ends(s, guards, i));
        lemma_sentence_from(s, guards, a, i + 1, k);
    }
}

/// A sentence ends behind a stop, an exclamation or a question mark, where only closing
/// quotes and brackets stand between it and a blank; without the guard, wherever that
/// is so.
pub proof fn law_where_sentences_end(s: Seq<char>, i: int, e: int)
    requires
        0 < i <= e < s.len(),
        forall|j: int|
            i <= j < e ==> #[trigger] s[j] == '"' || s[j] == '\'' || s[j] == '\u{201D}' || s[j]
                == '\u{2019}' || s[j] == ')' || s[j] == ']',
        !(s[e] == '"' || s[e] == '\'' || s[e] == '\u{201D}' || s[e] == '\u{2019}' || s[e] == ')'
            || s[e] == ']'),
    ensures
        sentence_ends(s, Guards::Inert, i) <==> (s[i - 1] == '.' || s[i - 1] == '!' || s[i - 1]
            == '?') && blank(s[e]),
        s[i - 1] != '.' ==> (sentence_ends(s, Guards::On, i) <==> sentence_ends(
            s,
            Guards::Inert,
            i,
        )),
{
    lemma_run_end(s, closers(), i);
    let r = run_end(s, closers(), i);
    assert(r == e) by {
        if r < e {
            assert(!closers()(s[r]));
        } else if e < r {
            assert(closers()(s[e]));
        }
    }
}

/// Whether a word stands before a stop that is no end: one capital letter, or one of
/// the abbreviations.
pub open spec fn shortened(w: Seq<char>) -> bool {
    ||| w.len() == 1 && uppercase(w[0])
    ||| w == "Mr"@ || w == "Mrs"@ || w == "Ms"@ || w == "Dr"@ || w == "St"@ || w == "Jr"@ || w
        == "Sr"@
    ||| w == "vs"@ || w == "etc"@ || w == "i.e"@ || w == "e.g"@
}

/// The guard keeps a sentence going behind a stop where the letters, numbers and stops
/// right before it are one capital or an abbreviation, and there alone.
pub proof fn law_where_the_guard_holds(s: Seq<char>, a: int, i: int)
    requires
        0 <= a < i < s.len(),
        s[i - 1] == '.',
        forall|k: int| a <= k < i - 1 ==> alphanumeric(#[trigger] s[k]) || s[k] == '.',
        a > 0 ==> !(alphanumeric(s[a - 1]) || s[a - 1] == '.'),
    ensures
        sentence_ends(s, Guards::On, i) <==> sentence_ends(s, Guards::Inert, i) && !shortened(
            s.subrange(a, i - 1),
        ),
{
    let p = wordish();
    lemma_run_start(s, p, 0, i - 1);
    let r = run_start(s, p, 0, i - 1);
    assert(r == a) by {
        if r < a {
            assert(p(s[a - 1]));
        } else if r > a {
            assert(alphanumeric(s[r - 1]) || s[r - 1] == '.');
        }
    }
}

/// So is a chunk's last stop no end behind one capital or an abbreviation; the word
/// before it goes back to white space, an opening quote or an opening bracket.
pub proof fn law_a_last_stop_may_be_an_abbreviations(front: Seq<char>, w: Seq<char>)
    requires
        front.len() > 0 ==> white_space(front.last()) || front.last() == '\u{201C}' || front.last()
            == '(',
        forall|k: int|
            0 <= k < w.len() ==> !white_space(#[trigger] w[k]) && w[k] != '\u{201C}' && w[k] != '(',
    ensures
        abbreviated(front + w) <==> shortened(w),
{
    let s = front + w;
    let p = crate::chapters::inside_word();
    lemma_run_start(s, p, 0, s.len() as int);
    let r = run_start(s, p, 0, s.len() as int);
    assert(r == front.len()) by {
        if r < front.len() {
            assert(p(s[front.len() - 1]));
        } else if r > front.len() {
            assert(s[r - 1] == w[r - 1 - front.len()]);
        }
    }
    assert(s.skip(r) =~= w);
}

// ------------------------------------------------------------------- long sentences

proof fn lemma_group_on(a: Seq<Seq<char>>, b: Seq<Seq<char>>, max: nat, n: nat, d: Seq<Seq<char>>)
    requires
        n <= b.len(),
        group(a, a.len(), max) == (Filling { done: d, cur: Seq::empty() }),
    ensures
        group(a + b, a.len() + n, max) == (Filling {
            done: d + group(b, n, max).done,
            cur: group(b, n, max).cur,
        }),
    decreases n,
{
    if n == 0 {
        lemma_group_prefix(a, b, max, a.len());
        assert(d + group(b, 0, max).done =~= d);
    } else {
        lemma_group_on(a, b, max, (n - 1) as nat, d);
        assert((a + b)[a.len() + n - 1] == b[n - 1]);
        let f = group(b, (n - 1) as nat, max);
        let s = b[n - 1];
        lemma_take_behind(d, f, s, max);
    }
}

proof fn lemma_group_prefix(a: Seq<Seq<char>>, b: Seq<Seq<char>>, max: nat, n: nat)
    requires
        n <= a.len(),
    ensures
        group(a + b, n, max) == group(a, n, max),
    decreases n,
{
    if n > 0 {
        lemma_group_prefix(a, b, max, (n - 1) as nat);
        assert((a + b)[n - 1] == a[n - 1]);
    }
}

/// What is done already stays in front.
proof fn lemma_take_behind(d: Seq<Seq<char>>, f: Filling, s: Seq<char>, max: nat)
    ensures
        take_sentence(Filling { done: d + f.done, cur: f.cur }, s, max) == (Filling {
            done: d + take_sentence(f, s, max).done,
            cur: take_sentence(f, s, max).cur,
        }),
{
    let g = Filling { done: d + f.done, cur: f.cur };
    assert(finish(g) =~= d + finish(f));
    if s.len() > max {
        let clauses = split_clauses_from(s, 0, 0);
        lemma_fill_behind(d, finish(f), clauses, clauses.len(), max);
        let x = fill_all(finish(f), clauses, clauses.len(), max);
        let y = fill_all(finish(g), clauses, clauses.len(), max);
        assert(finish(y) =~= d + finish(x));
    } else {
        assert(fill(g, s, max).done =~= d + fill(f, s, max).done);
    }
}

proof fn lemma_fill_behind(
    d: Seq<Seq<char>>,
    done: Seq<Seq<char>>,
    parts: Seq<Seq<char>>,
    n: nat,
    max: nat,
)
    requires
        n <= parts.len(),
    ensures
        fill_all(d + done, parts, n, max).done == d + fill_all(done, parts, n, max).done,
        fill_all(d + done, parts, n, max).cur == fill_all(done, parts, n, max).cur,
    decreases n,
{
    if n > 0 {
        lemma_fill_behind(d, done, parts, (n - 1) as nat, max);
        let f = fill_all(done, parts, (n - 1) as nat, max);
        let g = fill_all(d + done, parts, (n - 1) as nat, max);
        assert(fill(g, parts[n - 1], max).done =~= d + fill(f, parts[n - 1], max).done);
    }
}

/// A sentence too long for a chunk stands apart: what is before it is put into chunks as
/// if nothing came behind, then the sentence by itself, then what is behind it.
pub proof fn law_a_long_sentence_stands_apart(
    a: Seq<Seq<char>>,
    s: Seq<char>,
    b: Seq<Seq<char>>,
    max: nat,
)
    requires
        s.len() > max,
    ensures
        finish(group(a + seq![s] + b, (a + seq![s] + b).len(), max)) == finish(
            group(a, a.len(), max),
        ) + finish(group(seq![s], 1, max)) + finish(group(b, b.len(), max)),
{
    let one = seq![s];
    let head = a + one;
    lemma_group_prefix(a, one, max, a.len());
    assert(head[a.len() as int] == s);
    let f = group(a, a.len(), max);
    let clauses = split_clauses_from(s, 0, 0);
    let none = Seq::<Seq<char>>::empty();
    assert(one[0] == s);
    assert(group(one, 0, max) == (Filling { done: none, cur: Seq::empty() }));
    assert(finish(group(one, 0, max)) =~= none);
    lemma_fill_behind(finish(f), none, clauses, clauses.len(), max);
    assert(finish(f) + none =~= finish(f));
    let x = fill_all(none, clauses, clauses.len(), max);
    let y = fill_all(finish(f), clauses, clauses.len(), max);
    assert(finish(y) =~= finish(f) + finish(x));
    let d = finish(f) + finish(group(one, 1, max));
    assert(group(head, head.len(), max).done =~= d);
    lemma_group_on(head, b, max, b.len(), d);
    let g = group(b, b.len(), max);
    assert(finish(Filling { done: d + g.done, cur: g.cur }) =~= d + finish(g));
}

/// Whether `g` puts the clauses `parts` into the chunks `chunks`: each takes some whole
/// clauses with a space between each two, no more than fit unless it is one alone, and
/// the next would not have fitted too.
pub open spec fn clauses_put(
    parts: Seq<Seq<char>>,
    max: nat,
    g: Seq<(int, int)>,
    chunks: Seq<Seq<char>>,
) -> bool {
    &&& g.len() == chunks.len()
    &&& covers(g, parts.len() as int)
    &&& forall|k: int|
        0 <= k < g.len() ==> chunks[k] == words(parts, (#[trigger] g[k]).0, g[k].1) && (
        chunks[k].len() <= max || g[k].1 == g[k].0 + 1) && (g[k].1 < parts.len()
            ==> chunks[k].len() + 1 + parts[g[k].1].len() > max)
}

spec fn filled(
    parts: Seq<Seq<char>>,
    max: nat,
    n: int,
    done: Seq<(int, int)>,
    from: int,
    f: Filling,
) -> bool {
    &&& done.len() == f.done.len()
    &&& 0 <= from <= n
    &&& n > 0 ==> from < n
    &&& f.cur == if from < n {
        words(parts, from, n)
    } else {
        Seq::<char>::empty()
    }
    &&& from < n ==> (f.cur.len() <= max || n == from + 1)
    &&& forall|k: int|
        0 <= k < done.len() ==> 0 <= (#[trigger] done[k]).0 < done[k].1 <= from && f.done[k]
            == words(parts, done[k].0, done[k].1) && (f.done[k].len() <= max || done[k].1
            == done[k].0 + 1) && f.done[k].len() + 1 + parts[done[k].1].len() > max
    &&& forall|j: int, k: int|
        0 <= j < k < done.len() && k == j + 1 ==> (#[trigger] done[k]).0 == (#[trigger] done[j]).1
    &&& if done.len() == 0 {
        from == 0
    } else {
        done[0].0 == 0 && done.last().1 == from
    }
}

proof fn lemma_filled(parts: Seq<Seq<char>>, n: nat, max: nat) -> (r: (Seq<(int, int)>, int))
    requires
        n <= parts.len(),
        forall|i: int| 0 <= i < parts.len() ==> neat(#[trigger] parts[i]),
    ensures
        filled(parts, max, n as int, r.0, r.1, fill_all(Seq::empty(), parts, n, max)),
    decreases n,
{
    if n == 0 {
        (Seq::empty(), 0)
    } else {
        let m = n - 1;
        let (done, from) = lemma_filled(parts, m as nat, max);
        let f = fill_all(Seq::empty(), parts, m as nat, max);
        let p = parts[m];
        assert(neat(p));
        if from < m {
            lemma_words_neat(parts, from, m);
        }
        if f.cur.len() > 0 && f.cur.len() + p.len() + 1 > max {
            lemma_words_one(parts, m);
            (done.push((from, m)), m)
        } else {
            if from < m {
                lemma_joined_neat(f.cur, p);
                lemma_words_next(parts, from, m);
            } else {
                lemma_joined_len(f.cur, p);
                lemma_neat_stays(p);
                lemma_words_one(parts, m);
            }
            (done, from)
        }
    }
}

/// A long sentence is put into chunks clause by clause: each chunk takes as many whole
/// clauses as fit, and at least one.
pub proof fn law_clauses_fill_their_chunks(s: Seq<char>, max: nat)
    requires
        s.len() > max,
        neat(s),
    ensures
        exists|g: Seq<(int, int)>| #[trigger]
            clauses_put(
                split_clauses_from(s, 0, 0),
                max,
                g,
                finish(group(seq![s], 1, max)),
            ),
{
    let parts = split_clauses_from(s, 0, 0);
    let n = parts.len();
    let one = seq![s];
    lemma_clauses_neat(s, 0, 0);
    let (done, from) = lemma_filled(parts, n, max);
    let none = Seq::<Seq<char>>::empty();
    let f = fill_all(none, parts, n, max);
    assert(one[0] == s);
    assert(group(one, 0, max) == (Filling { done: none, cur: Seq::empty() }));
    assert(finish(group(one, 0, max)) =~= none);
    let chunks = finish(group(one, 1, max));
    assert(chunks == finish(f));
    let g = if from < n {
        done.push((from, n as int))
    } else {
        done
    };
    if from < n {
        lemma_words_neat(parts, from, n as int);
    }
    assert(clauses_put(parts, max, g, chunks));
}

} // verus!
