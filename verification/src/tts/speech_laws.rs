//! What is asked of the pronouncer and what becomes of its answers, said of the text.

use vstd::prelude::*;
use crate::chars::{alphanumeric, lemma_run_end, replaced, run_end, white_space};
use crate::rows::{lemma_pick_none, lemma_pick_push};
use crate::tts::g2p::{asked_from, mapped, mapped_upto, overridden_from, said, said_upto, schwas_from, segments_from, splits_at, word_chars, words_between, PieceView, SegmentView, MARKS, SYLLABIC};
use crate::tts::kokoro::{token_of, token_upto, tokens_of, tokens_upto, VOCAB};

verus! {

// --------------------------------------------------------------------- the marks

/// Whether `c` is one of the marks that part the words of a text.
pub open spec fn parts_words(c: char) -> bool {
    c == ';' || c == ':' || c == ',' || c == '.' || c == '!' || c == '?' || c == '\u{2014}' || c
        == '\u{2026}' || c == '"' || c == '(' || c == ')' || c == '\u{201C}' || c == '\u{201D}'
}

/// A text is split at a mark, unless it is the comma, the stop or the colon of a number.
pub proof fn law_where_a_text_is_split(s: Seq<char>, i: int)
    requires
        0 <= i < s.len(),
    ensures
        splits_at(s, i) <==> parts_words(s[i]) && !(0 < i < s.len() - 1 && (s[i] == ',' || s[i]
            == '.' || s[i] == ':') && '0' <= s[i - 1] <= '9' && '0' <= s[i + 1] <= '9'),
{
    let c = s[i];
    assert(MARKS@[0] == ';' && MARKS@[1] == ':' && MARKS@[2] == ',' && MARKS@[3] == '.' && MARKS@[4]
        == '!' && MARKS@[5] == '?' && MARKS@[6] == '\u{2014}' && MARKS@[7] == '\u{2026}'
        && MARKS@[8] == '"' && MARKS@[9] == '(' && MARKS@[10] == ')' && MARKS@[11] == '\u{201C}'
        && MARKS@[12] == '\u{201D}');
    assert(MARKS@.len() == 13);
}

/// From any place where words may start they go on to the first mark that splits, the
/// mark follows by itself, and then what is behind it; where none splits any more, the
/// words go on to the end. Where there are no words, there is no piece of them.
pub proof fn law_every_mark_splits(s: Seq<char>, a: int, k: int)
    requires
        0 <= a <= k <= s.len(),
        forall|i: int| a <= i < k ==> !#[trigger] splits_at(s, i),
        k < s.len() ==> splits_at(s, k),
    ensures
        ({
            let words = if a < k {
                seq![SegmentView::Words(s.subrange(a, k))]
            } else {
                Seq::empty()
            };
            segments_from(s, a, a) == if k == s.len() {
                words
            } else {
                words + seq![SegmentView::Mark(s[k])] + segments_from(s, k + 1, k + 1)
            }
        }),
{
    lemma_segment(s, a, a, k);
    if k < s.len() {
        let w = words_between(s, a, k);
        let m = seq![SegmentView::Mark(s[k])];
        let rest = segments_from(s, k + 1, k + 1);
        assert(w + (m + rest) =~= w + m + rest);
    }
}

proof fn lemma_segment(s: Seq<char>, a: int, i: int, k: int)
    requires
        0 <= a <= i <= k <= s.len(),
        forall|j: int| i <= j < k ==> !#[trigger] splits_at(s, j),
        k < s.len() ==> splits_at(s, k),
    ensures
        segments_from(s, a, i) == if k == s.len() {
            words_between(s, a, k)
        } else {
            words_between(s, a, k) + (seq![SegmentView::Mark(s[k])] + segments_from(
                s,
                k + 1,
                k + 1,
            ))
        },
    decreases k - i,
{
    if i < k {
        assert(!splits_at(s, i));
        lemma_segment(s, a, i + 1, k);
    }
}

// --------------------------------------------------------------------- the overrides

/// Whether the word `I` stands at `k`, with no letter, number or apostrophe at it.
pub open spec fn lone_i(s: Seq<char>, k: int) -> bool {
    &&& 0 <= k < s.len()
    &&& s[k] == 'I'
    &&& k > 0 ==> !in_word(s[k - 1])
    &&& k + 1 < s.len() ==> !in_word(s[k + 1])
}

/// Whether `c` may stand in a word.
pub open spec fn in_word(c: char) -> bool {
    alphanumeric(c) || c == '\'' || c == '\u{2019}'
}

/// A word that is not `I` has no lone `I` in it.
proof fn lemma_no_lone_i(s: Seq<char>, i: int, e: int, k: int)
    requires
        0 <= i < e <= s.len(),
        i <= k <= s.len(),
        forall|j: int| i <= j < e ==> in_word(#[trigger] s[j]),
        e < s.len() ==> !in_word(s[e]),
        s.subrange(i, e) != "I"@,
        k < s.len() ==> lone_i(s, k),
    ensures
        k >= e,
{
    reveal_strlit("I");
    if k < e {
        if k > i {
            assert(in_word(s[k - 1]));
        } else {
            if e > i + 1 {
                assert(in_word(s[i + 1]));
            }
            assert(e == i + 1);
            assert(s.subrange(i, e) =~= "I"@);
        }
    }
}

/// What is asked is the text as it is, up to the first place where the word `I` stands;
/// there its sound is written out, and the rest follows in the same way. Nothing is
/// changed exactly where the word does not stand anywhere.
#[verifier::spinoff_prover]
pub proof fn law_the_word_i_is_written_out(s: Seq<char>, i: int, k: int)
    requires
        0 <= i <= k <= s.len(),
        0 < i < s.len() ==> !in_word(s[i - 1]) || !in_word(s[i]),
        forall|j: int| i <= j < k ==> !#[trigger] lone_i(s, j),
        k < s.len() ==> lone_i(s, k),
    ensures
        asked_from(s, i) == if k == s.len() {
            s.subrange(i, k)
        } else {
            s.subrange(i, k) + "[['aI]]"@ + asked_from(s, k + 1)
        },
        overridden_from(s, i) <==> k < s.len(),
    decreases s.len() - i,
{
    reveal_strlit("I");
    if i >= s.len() {
        assert(s.subrange(i, k) =~= Seq::<char>::empty());
    } else if word_chars()(s[i]) {
        lemma_run_end(s, word_chars(), i + 1);
        let e = run_end(s, word_chars(), i + 1);
        let w = s.subrange(i, e);
        assert forall|j: int| i <= j < e implies in_word(#[trigger] s[j]) by {
            if j > i {
                assert(word_chars()(s[j]));
            }
        }
        if w == "I"@ {
            assert(w.len() == 1 && w[0] == 'I');
            assert(lone_i(s, i));
            assert(k == i);
            assert(s.subrange(i, k) =~= Seq::<char>::empty());
            assert(s.subrange(i, k) + "[['aI]]"@ =~= "[['aI]]"@);
        } else {
            lemma_no_lone_i(s, i, e, k);
            if e < s.len() {
                assert(!word_chars()(s[e]));
            }
            law_the_word_i_is_written_out(s, e, k);
            assert(s.subrange(i, k) =~= w + s.subrange(e, k));
            assert(asked_from(s, i) == w + asked_from(s, e));
            if k < s.len() {
                assert(w + (s.subrange(e, k) + "[['aI]]"@ + asked_from(s, k + 1)) =~= s.subrange(
                    i,
                    k,
                ) + "[['aI]]"@ + asked_from(s, k + 1));
            }
        }
    } else {
        assert(!lone_i(s, i));
        law_the_word_i_is_written_out(s, i + 1, k);
        assert(s.subrange(i, k) =~= seq![s[i]] + s.subrange(i + 1, k));
        if k < s.len() {
            assert(seq![s[i]] + (s.subrange(i + 1, k) + "[['aI]]"@ + asked_from(s, k + 1))
                =~= s.subrange(i, k) + "[['aI]]"@ + asked_from(s, k + 1));
        }
    }
}

// ------------------------------------------------------------------------ the tables

proof fn lemma_mapped_prefix(
    s: Seq<char>,
    a: Seq<(&'static str, &'static str)>,
    b: Seq<(&'static str, &'static str)>,
    n: nat,
)
    requires
        n <= a.len(),
    ensures
        mapped_upto(s, a + b, n) == mapped_upto(s, a, n),
    decreases n,
{
    if n > 0 {
        lemma_mapped_prefix(s, a, b, (n - 1) as nat);
        assert((a + b)[n - 1] == a[n - 1]);
    }
}

proof fn lemma_mapped_on(
    s: Seq<char>,
    a: Seq<(&'static str, &'static str)>,
    b: Seq<(&'static str, &'static str)>,
    n: nat,
)
    requires
        n <= b.len(),
    ensures
        mapped_upto(s, a + b, a.len() + n) == mapped_upto(mapped(s, a), b, n),
    decreases n,
{
    if n == 0 {
        lemma_mapped_prefix(s, a, b, a.len());
    } else {
        lemma_mapped_on(s, a, b, (n - 1) as nat);
        assert((a + b)[a.len() + n - 1] == b[n - 1]);
    }
}

/// A table is gone through row by row: two tables one after the other do what the one
/// does and then the other, and a row replaces what it says everywhere.
pub proof fn law_rows_apply_in_turn(
    s: Seq<char>,
    a: Seq<(&'static str, &'static str)>,
    b: Seq<(&'static str, &'static str)>,
    row: (&'static str, &'static str),
)
    ensures
        mapped(s, a + b) == mapped(mapped(s, a), b),
        mapped(s, seq![row]) == replaced(s, row.0@, row.1@),
        mapped(s, Seq::empty()) == s,
{
    lemma_mapped_on(s, a, b, b.len());
    assert(seq![row][0] == row);
    reveal_with_fuel(mapped_upto, 2);
}

// ------------------------------------------------------------------- syllabic marks

/// `n` marks of a syllable.
pub open spec fn syllabics(n: nat) -> Seq<char> {
    Seq::new(n, |i: int| '\u{329}')
}

proof fn lemma_schwas_shift(s: Seq<char>, u: Seq<char>, i: int)
    requires
        0 <= i <= u.len(),
        s.len() >= u.len(),
        forall|k: int| 0 <= k < u.len() ==> s[s.len() - u.len() + k] == #[trigger] u[k],
    ensures
        schwas_from(s, s.len() - u.len() + i) == schwas_from(u, i),
    decreases u.len() - i,
{
    let d = s.len() - u.len();
    if i < u.len() {
        assert(s[d + i] == u[i]);
        if u[i] == SYLLABIC {
            lemma_schwas_shift(s, u, i + 1);
        } else if i + 1 < u.len() && u[i + 1] == SYLLABIC {
            assert(s[d + (i + 1)] == u[i + 1]);
            lemma_schwas_shift(s, u, i + 2);
        } else {
            if i + 1 < u.len() {
                assert(s[d + (i + 1)] == u[i + 1]);
            }
            lemma_schwas_shift(s, u, i + 1);
        }
    }
}

proof fn lemma_schwas_add(a: Seq<char>, b: Seq<char>, i: int)
    requires
        0 <= i <= a.len(),
        b.len() > 0 ==> b[0] != SYLLABIC,
    ensures
        schwas_from(a + b, i) == schwas_from(a, i) + schwas_from(b, 0),
    decreases a.len() - i,
{
    let s = a + b;
    if i == a.len() {
        lemma_schwas_shift(s, b, 0);
        assert(schwas_from(a, i) + schwas_from(b, 0) =~= schwas_from(b, 0));
    } else if a[i] == SYLLABIC {
        lemma_schwas_add(a, b, i + 1);
    } else if i + 1 < a.len() && a[i + 1] == SYLLABIC {
        lemma_schwas_add(a, b, i + 2);
        let head = if white_space(a[i]) {
            seq![a[i]]
        } else {
            seq!['\u{1D4A}', a[i]]
        };
        assert(head + (schwas_from(a, i + 2) + schwas_from(b, 0)) =~= head + schwas_from(a, i + 2)
            + schwas_from(b, 0));
    } else {
        lemma_schwas_add(a, b, i + 1);
        assert(seq![a[i]] + (schwas_from(a, i + 1) + schwas_from(b, 0)) =~= seq![a[i]]
            + schwas_from(a, i + 1) + schwas_from(b, 0));
    }
}

proof fn lemma_schwas_only(n: nat, i: int)
    requires
        0 <= i <= n,
    ensures
        schwas_from(syllabics(n), i) == Seq::<char>::empty(),
    decreases n - i,
{
    if i < n {
        lemma_schwas_only(n, i + 1);
    }
}

/// A mark of a syllable becomes a schwa before what it stands under. Two texts are gone
/// through one after the other, where the second does not start with such a mark; a
/// character without one stays as it is; one with one or more gets one schwa before it,
/// but white space gets none; and marks under nothing are left out.
pub proof fn law_syllables_get_their_schwa(a: Seq<char>, b: Seq<char>, c: char, n: nat)
    requires
        b.len() > 0 ==> b[0] != '\u{329}',
        c != '\u{329}',
    ensures
        schwas_from(a + b, 0) == schwas_from(a, 0) + schwas_from(b, 0),
        schwas_from(seq![c] + syllabics(n), 0) == if n > 0 && !white_space(c) {
            seq!['\u{1D4A}', c]
        } else {
            seq![c]
        },
        schwas_from(syllabics(n), 0) == Seq::<char>::empty(),
{
    lemma_schwas_add(a, b, 0);
    lemma_schwas_only(n, 0);
    let u = syllabics(n);
    let s = seq![c] + u;
    assert(s[0] == c);
    if n == 0 {
        assert(schwas_from(s, 1) =~= Seq::<char>::empty());
    } else {
        assert(s[1] == SYLLABIC);
        lemma_schwas_only(n, 1);
        lemma_schwas_shift(s, u, 1);
    }
}

// ------------------------------------------------------------------------ the answers

proof fn lemma_said_prefix(
    a: Seq<PieceView>,
    x: Seq<Seq<char>>,
    b: Seq<PieceView>,
    y: Seq<Seq<char>>,
    n: nat,
)
    requires
        n <= a.len() == x.len(),
    ensures
        said_upto(a + b, x + y, n) == said_upto(a, x, n),
    decreases n,
{
    if n > 0 {
        lemma_said_prefix(a, x, b, y, (n - 1) as nat);
        assert((a + b)[n - 1] == a[n - 1]);
        assert((x + y)[n - 1] == x[n - 1]);
    }
}

proof fn lemma_said_on(
    a: Seq<PieceView>,
    x: Seq<Seq<char>>,
    b: Seq<PieceView>,
    y: Seq<Seq<char>>,
    n: nat,
)
    requires
        a.len() == x.len(),
        n <= b.len() == y.len(),
    ensures
        said_upto(a + b, x + y, a.len() + n) == said_upto(a, x, a.len()) + said_upto(b, y, n),
    decreases n,
{
    if n == 0 {
        lemma_said_prefix(a, x, b, y, a.len());
        assert(said_upto(a, x, a.len()) + said_upto(b, y, 0) =~= said_upto(a, x, a.len()));
    } else {
        lemma_said_on(a, x, b, y, (n - 1) as nat);
        assert((a + b)[a.len() + n - 1] == b[n - 1]);
        assert((x + y)[a.len() + n - 1] == y[n - 1]);
        let p = said_upto(a, x, a.len());
        let q = said_upto(b, y, (n - 1) as nat);
        let r = said(b[n - 1], y[n - 1]);
        assert((p + q) + r =~= p + (q + r));
    }
}

/// Every piece is said, in order: two lists of pieces are said as the one and then the
/// other, and one piece as it is by itself.
pub proof fn law_every_piece_is_said(
    a: Seq<PieceView>,
    x: Seq<Seq<char>>,
    b: Seq<PieceView>,
    y: Seq<Seq<char>>,
    p: PieceView,
    ipa: Seq<char>,
)
    requires
        a.len() == x.len(),
        b.len() == y.len(),
    ensures
        said_upto(a + b, x + y, a.len() + b.len()) == said_upto(a, x, a.len()) + said_upto(
            b,
            y,
            b.len(),
        ),
        said_upto(seq![p], seq![ipa], 1) == said(p, ipa),
{
    lemma_said_on(a, x, b, y, b.len());
    assert(seq![p][0] == p && seq![ipa][0] == ipa);
    assert(said_upto(seq![p], seq![ipa], 0) =~= Seq::<char>::empty());
    assert(said_upto(seq![p], seq![ipa], 1) =~= said(p, ipa));
}

// ------------------------------------------------------------------------ the tokens

/// The token of a character is the one that the table first has for it, and it has none
/// only where the table has none.
pub proof fn law_the_table_tells_the_token(c: char)
    ensures
        match token_of(c) {
            Some(t) => exists|k: int|
                0 <= k < VOCAB@.len() && #[trigger] VOCAB@[k] == (c, t) && forall|m: int|
                    0 <= m < k ==> (#[trigger] VOCAB@[m]).0 != c,
            None => forall|m: int| 0 <= m < VOCAB@.len() ==> (#[trigger] VOCAB@[m]).0 != c,
        },
{
    lemma_token(c, VOCAB@.len());
}

proof fn lemma_token(c: char, n: nat)
    requires
        n <= VOCAB@.len(),
    ensures
        match token_upto(c, n) {
            Some(t) => exists|k: int|
                0 <= k < n && #[trigger] VOCAB@[k] == (c, t) && forall|m: int|
                    0 <= m < k ==> (#[trigger] VOCAB@[m]).0 != c,
            None => forall|m: int| 0 <= m < n ==> (#[trigger] VOCAB@[m]).0 != c,
        },
    decreases n,
{
    if n > 0 {
        lemma_token(c, (n - 1) as nat);
        if token_upto(c, (n - 1) as nat) is None && VOCAB@[n - 1].0 == c {
            assert(VOCAB@[n - 1] == (c, VOCAB@[n - 1].1));
        }
    }
}

/// The model is handed the tokens of all the characters that have one, in order, the
/// first five hundred and ten of them.
pub proof fn law_every_phoneme_is_a_token(s: Seq<char>)
    ensures
        ({
            let all = s.filter(|c: char| token_of(c) is Some).map_values(|c: char| token_of(c)->0);
            tokens_of(s) == if all.len() <= 510 {
                all
            } else {
                all.take(510)
            }
        }),
{
    lemma_tokens(s, s.len());
    lemma_pick_none(s, |c: char| token_of(c) is Some, |c: char| token_of(c)->0);
}

proof fn lemma_tokens(s: Seq<char>, n: nat)
    requires
        n <= s.len(),
    ensures
        tokens_upto(s, n) == s.take(n as int).filter(
            |c: char| token_of(c) is Some,
        ).map_values(|c: char| token_of(c)->0),
    decreases n,
{
    let p = |c: char| token_of(c) is Some;
    let f = |c: char| token_of(c)->0;
    lemma_pick_none(s, p, f);
    if n > 0 {
        lemma_tokens(s, (n - 1) as nat);
        lemma_pick_push(s, n as int, p, f);
    }
}

} // verus!
