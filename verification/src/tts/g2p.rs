//! Text to phonemes.
//!
//! The pronunciation of words comes from `espeak-ng`, which runs as a process of
//! its own. What it is asked, and what becomes of its answer, is decided here:
//! the text is split at its punctuation, each run of words is one question, and
//! the answers are mapped into the alphabet that the speech model has symbols
//! for and put back between the marks.

use std::borrow::Cow;
use vstd::prelude::*;
use crate::config::{var, var_from, vars_of, Vars};
use crate::chars::{alphanumeric, append, ascii_digit, chars_of, find_run_end, is_digit, join, join_chars, lemma_run_end, part, replace_all, replaced, run_end, same, text_of, texts, white_space, words_from, words_where};
use crate::err::TtsError;
use crate::tts::numbers::{normalize, rewritten};

verus! {

// ---------------------------------------------------------------- punctuation

/// The punctuation that is kept around the words. The speech model has a symbol
/// for each, and they are what gives a sentence its prosody.
pub const MARKS: [char; 13] = [
    ';',
    ':',
    ',',
    '.',
    '!',
    '?',
    '\u{2014}',
    '\u{2026}',
    '"',
    '(',
    ')',
    '\u{201C}',
    '\u{201D}',
];

/// Whether `c` is one of [`MARKS`].
pub open spec fn mark(c: char) -> bool {
    exists|k: int| 0 <= k < MARKS@.len() && #[trigger] MARKS@[k] == c
}

fn is_mark(c: char) -> (r: bool)
    ensures
        r == mark(c),
{
    let mut k: usize = 0;
    while k < MARKS.len()
        invariant
            k <= MARKS@.len(),
            forall|m: int| 0 <= m < k ==> #[trigger] MARKS@[m] != c,
        decreases MARKS@.len() - k,
    {
        if MARKS[k] == c {
            return true;
        }
        k += 1;
    }
    false
}

/// Whether the `,`, `.` or `:` at `i` stands between two digits, and so is part
/// of a number.
pub open spec fn within_number(s: Seq<char>, i: int) -> bool {
    &&& 0 < i < s.len() - 1
    &&& (s[i] == ',' || s[i] == '.' || s[i] == ':')
    &&& is_digit(s[i - 1])
    &&& is_digit(s[i + 1])
}

fn inside_a_number(v: &[char], i: usize) -> (r: bool)
    requires
        i < v@.len(),
    ensures
        r == within_number(v@, i as int),
{
    i > 0 && i < v.len() - 1 && (v[i] == ',' || v[i] == '.' || v[i] == ':') && ascii_digit(v[i - 1])
        && ascii_digit(v[i + 1])
}

/// A piece of text: words, or a mark between them.
#[derive(Debug, Clone, PartialEq)]
pub enum Segment {
    Words(String),
    Mark(char),
}

/// What a [`Segment`] holds.
pub enum SegmentView {
    Words(Seq<char>),
    Mark(char),
}

impl View for Segment {
    type V = SegmentView;

    open spec fn view(&self) -> SegmentView {
        match *self {
            Segment::Words(w) => SegmentView::Words(w@),
            Segment::Mark(c) => SegmentView::Mark(c),
        }
    }
}

/// What a vector of segments holds.
pub open spec fn segment_views(v: Seq<Segment>) -> Seq<SegmentView> {
    v.map_values(|s: Segment| s@)
}

/// The text that a segment stands for.
pub open spec fn segment_text(s: SegmentView) -> Seq<char> {
    match s {
        SegmentView::Words(w) => w,
        SegmentView::Mark(c) => seq![c],
    }
}

/// Whether `s` is split at `i`.
pub open spec fn splits_at(s: Seq<char>, i: int) -> bool {
    mark(s[i]) && !within_number(s, i)
}

/// The words from `a` to `b`, where there are any.
pub open spec fn words_between(s: Seq<char>, a: int, b: int) -> Seq<SegmentView> {
    if a < b {
        seq![SegmentView::Words(s.subrange(a, b))]
    } else {
        Seq::empty()
    }
}

/// The segments of `s`, looking for marks from `i` on, the current words having
/// started at `last`.
pub open spec fn segments_from(s: Seq<char>, last: int, i: int) -> Seq<SegmentView>
    decreases s.len() - i,
{
    if i < 0 || i >= s.len() {
        words_between(s, last, s.len() as int)
    } else if splits_at(s, i) {
        words_between(s, last, i) + (seq![SegmentView::Mark(s[i])] + segments_from(s, i + 1, i + 1))
    } else {
        segments_from(s, last, i + 1)
    }
}

/// The text split at its punctuation, the punctuation kept.
pub fn split_punctuation(text: &str) -> (r: Vec<Segment>)
    ensures
        segment_views(r@) == segments_from(text@, 0, 0),
{
    let v = chars_of(text);
    let mut r: Vec<Segment> = Vec::new();
    let mut last: usize = 0;
    let mut i: usize = 0;
    assert(segment_views(r@) + segments_from(v@, 0, 0) =~= segments_from(v@, 0, 0));
    while i < v.len()
        invariant
            last <= i <= v@.len(),
            segments_from(v@, 0, 0) == segment_views(r@) + segments_from(v@, last as int, i as int),
        decreases v@.len() - i,
    {
        if is_mark(v[i]) && !inside_a_number(&v, i) {
            let ghost before = segment_views(r@);
            if i > last {
                let w = part(&v, last, i);
                r.push(Segment::Words(text_of(&w)));
                assert(segment_views(r@) =~= before + words_between(v@, last as int, i as int));
            }
            let ghost middle = segment_views(r@);
            assert(middle =~= before + words_between(v@, last as int, i as int));
            r.push(Segment::Mark(v[i]));
            let ghost rest = segments_from(v@, i + 1, i + 1);
            assert(segment_views(r@) =~= middle.push(SegmentView::Mark(v@[i as int])));
            assert(segment_views(r@) + rest =~= before + (words_between(v@, last as int, i as int)
                + (seq![SegmentView::Mark(v@[i as int])] + rest)));
            last = i + 1;
        }
        i += 1;
    }
    let ghost before = segment_views(r@);
    if last < v.len() {
        let w = part(&v, last, v.len());
        r.push(Segment::Words(text_of(&w)));
    }
    assert(segment_views(r@) =~= before + words_between(v@, last as int, v@.len() as int));
    r
}

proof fn lemma_segments_text(s: Seq<char>, last: int, i: int)
    requires
        0 <= last <= i <= s.len(),
    ensures
        segments_from(s, last, i).map_values(|g: SegmentView| segment_text(g)).flatten() == s.skip(
            last,
        ),
    decreases s.len() - i,
{
    let f = |g: SegmentView| segment_text(g);
    let n = s.len() as int;
    lemma_words_text(s, last, if i >= n { n } else { i });
    if i >= n {
        assert(s.subrange(last, n) =~= s.skip(last));
    } else if splits_at(s, i) {
        lemma_segments_text(s, i + 1, i + 1);
        let rest = segments_from(s, i + 1, i + 1);
        let m = seq![SegmentView::Mark(s[i])];
        let w = words_between(s, last, i);
        assert((m + rest).map_values(f) =~= seq![seq![s[i]]] + rest.map_values(f));
        assert((seq![seq![s[i]]] + rest.map_values(f)).drop_first() =~= rest.map_values(f));
        assert((w + (m + rest)).map_values(f) =~= w.map_values(f) + (m + rest).map_values(f));
        vstd::seq_lib::lemma_flatten_concat(w.map_values(f), (m + rest).map_values(f));
        assert(s.subrange(last, i) + (seq![s[i]] + s.skip(i + 1)) =~= s.skip(last));
    } else {
        lemma_segments_text(s, last, i + 1);
    }
}

proof fn lemma_words_text(s: Seq<char>, a: int, b: int)
    requires
        0 <= a <= b <= s.len(),
    ensures
        words_between(s, a, b).map_values(|g: SegmentView| segment_text(g)).flatten() == s.subrange(
            a,
            b,
        ),
{
    let f = |g: SegmentView| segment_text(g);
    if a < b {
        assert(words_between(s, a, b).map_values(f) =~= seq![s.subrange(a, b)]);
        seq![s.subrange(a, b)].lemma_flatten_one_element();
    } else {
        assert(words_between(s, a, b).map_values(f) =~= Seq::<Seq<char>>::empty());
        assert(s.subrange(a, b) =~= Seq::<char>::empty());
    }
}

/// Splitting at punctuation takes nothing away and adds nothing: the segments,
/// one after the other, spell the text.
pub proof fn law_segments_spell_the_text(s: Seq<char>)
    ensures
        segments_from(s, 0, 0).map_values(|g: SegmentView| segment_text(g)).flatten() == s,
{
    lemma_segments_text(s, 0, 0);
    assert(s.skip(0) =~= s);
}

// ------------------------------------------------------------------ overrides

/// What a word is made of: letters, digits and apostrophes, so that `I'm` is
/// one word.
pub open spec fn word_chars() -> spec_fn(char) -> bool {
    |c: char| alphanumeric(c) || c == '\'' || c == '\u{2019}'
}

fn is_word_char(c: char) -> (r: bool)
    ensures
        r == (alphanumeric(c) || c == '\'' || c == '\u{2019}'),
{
    c.is_alphanumeric() || c == '\'' || c == '\u{2019}'
}

/// How a word is asked for. `I` is spelled out in the synthesiser's own phoneme
/// alphabet, because it is otherwise left without stress.
pub open spec fn asked_word(w: Seq<char>) -> Seq<char> {
    if w == "I"@ {
        "[['aI]]"@
    } else {
        w
    }
}

/// `s` from `i` on, each whole word as it is asked for.
pub open spec fn asked_from(s: Seq<char>, i: int) -> Seq<char>
    decreases s.len() - i,
{
    if i < 0 || i >= s.len() {
        Seq::empty()
    } else if word_chars()(s[i]) {
        proof {
            lemma_run_end(s, word_chars(), i + 1);
        }
        let e = run_end(s, word_chars(), i + 1);
        asked_word(s.subrange(i, e)) + asked_from(s, e)
    } else {
        seq![s[i]] + asked_from(s, i + 1)
    }
}

/// Whether `s` from `i` on holds a word that is asked for otherwise than it is
/// written.
pub open spec fn overridden_from(s: Seq<char>, i: int) -> bool
    decreases s.len() - i,
{
    if i < 0 || i >= s.len() {
        false
    } else if word_chars()(s[i]) {
        proof {
            lemma_run_end(s, word_chars(), i + 1);
        }
        let e = run_end(s, word_chars(), i + 1);
        s.subrange(i, e) == "I"@ || overridden_from(s, e)
    } else {
        overridden_from(s, i + 1)
    }
}

/// The text with whole words of the override table spelled out. Text with none
/// comes back borrowed.
pub fn apply_overrides(text: &str) -> (r: Cow<'_, str>)
    ensures
        r@ == asked_from(text@, 0),
        r is Borrowed <==> !overridden_from(text@, 0),
{
    let v = chars_of(text);
    let me = chars_of("I");
    let mut out: Vec<char> = Vec::new();
    let mut touched = false;
    let mut i: usize = 0;
    assert(v@.take(0) =~= Seq::<char>::empty());
    while i < v.len()
        invariant
            i <= v@.len(),
            v@ == text@,
            me@ == "I"@,
            asked_from(v@, 0) == out@ + asked_from(v@, i as int),
            overridden_from(v@, 0) == (touched || overridden_from(v@, i as int)),
            !touched ==> out@ == v@.take(i as int),
        decreases v@.len() - i,
    {
        let ghost before = out@;
        if is_word_char(v[i]) {
            let e = find_run_end(&v, is_word_char, i + 1, Ghost(word_chars()));
            let w = part(&v, i, e);
            let ghost rest = asked_from(v@, e as int);
            if same(&w, &me) {
                append(&mut out, &chars_of("[['aI]]"));
                touched = true;
            } else {
                append(&mut out, &w);
                assert(v@.take(e as int) =~= v@.take(i as int) + w@);
            }
            assert(before + (asked_word(w@) + rest) =~= out@ + rest);
            i = e;
        } else {
            out.push(v[i]);
            let ghost rest = asked_from(v@, i + 1);
            assert(before + (seq![v@[i as int]] + rest) =~= out@ + rest);
            assert(v@.take(i + 1) =~= v@.take(i as int).push(v@[i as int]));
            i += 1;
        }
    }
    assert(asked_from(v@, 0) =~= out@);
    if touched {
        Cow::Owned(text_of(&out))
    } else {
        assert(v@.take(i as int) =~= v@);
        Cow::Borrowed(text)
    }
}

// -------------------------------------------------------------------- the map

/// The synthesiser's symbols and the model's for the same sound, the longest
/// first, in the order in which they are applied. A `^` ties two symbols.
pub const E2M: [(&'static str, &'static str); 19] = [
    ("\u{294}\u{2CC}n\u{329}", "\u{294}n"),
    ("\u{294}n\u{329}", "\u{294}n"),
    ("a^\u{26A}", "I"),
    ("a^\u{28A}", "W"),
    ("d^\u{292}", "\u{2A4}"),
    ("e^\u{26A}", "A"),
    ("t^\u{283}", "\u{2A7}"),
    ("\u{254}^\u{26A}", "Y"),
    ("\u{259}^l", "\u{1D4A}l"),
    ("\u{2B2}o", "jo"),
    ("\u{2B2}\u{259}", "j\u{259}"),
    ("\u{2B2}", ""),
    ("\u{25A}", "\u{259}\u{279}"),
    ("e", "A"),
    ("r", "\u{279}"),
    ("x", "k"),
    ("\u{E7}", "k"),
    ("\u{250}", "\u{259}"),
    ("\u{26C}", "l"),
];

/// The tie that joins two symbols, and the mark of a nasal, which the model has
/// no symbol for.
pub const BEFORE: [(&'static str, &'static str); 2] = [("\u{361}", "^"), ("\u{303}", "")];

/// What American English needs after that, and at the end the ties that are
/// left over.
pub const AFTER: [(&'static str, &'static str); 9] = [
    ("o^\u{28A}", "O"),
    ("\u{25C}\u{2D0}\u{279}", "\u{25C}\u{279}"),
    ("\u{25C}\u{2D0}", "\u{25C}\u{279}"),
    ("\u{26A}\u{259}", "i\u{259}"),
    ("\u{2D0}", ""),
    ("o", "\u{254}"),
    ("\u{27E}", "T"),
    ("\u{294}", "t"),
    ("^", ""),
];

/// `s` after the first `n` replacements of `table`, each applied to what the
/// one before it left.
pub open spec fn mapped_upto(s: Seq<char>, table: Seq<(&'static str, &'static str)>, n: nat) -> Seq<
    char,
>
    decreases n,
{
    if n == 0 || n > table.len() {
        s
    } else {
        let (from, to) = table[n - 1];
        replaced(mapped_upto(s, table, (n - 1) as nat), from@, to@)
    }
}

/// `s` after all the replacements of `table`.
pub open spec fn mapped(s: Seq<char>, table: Seq<(&'static str, &'static str)>) -> Seq<char> {
    mapped_upto(s, table, table.len())
}

/// Whether no key of `table` is empty.
spec fn has_keys(table: Seq<(&'static str, &'static str)>) -> bool {
    forall|i: int| 0 <= i < table.len() ==> key_len(#[trigger] table[i]) > 0
}

spec fn key_len(row: (&'static str, &'static str)) -> nat {
    row.0@.len()
}

fn map_with(v: &[char], table: &[(&'static str, &'static str)]) -> (r: Vec<char>)
    requires
        has_keys(table@),
    ensures
        r@ == mapped(v@, table@),
{
    let mut r = part(v, 0, v.len());
    assert(r@ =~= v@);
    let mut i: usize = 0;
    while i < table.len()
        invariant
            i <= table@.len(),
            has_keys(table@),
            r@ == mapped_upto(v@, table@, i as nat),
        decreases table@.len() - i,
    {
        let (from, to) = table[i];
        assert(key_len(table@[i as int]) > 0);
        r = replace_all(&r, &chars_of(from), &chars_of(to));
        i += 1;
    }
    r
}

proof fn lemma_tables_have_keys()
    ensures
        has_keys(BEFORE@),
        has_keys(E2M@),
        has_keys(AFTER@),
{
    reveal_strlit("\u{361}");
    reveal_strlit("\u{303}");
    reveal_strlit("\u{294}\u{2CC}n\u{329}");
    reveal_strlit("\u{294}n\u{329}");
    reveal_strlit("a^\u{26A}");
    reveal_strlit("a^\u{28A}");
    reveal_strlit("d^\u{292}");
    reveal_strlit("e^\u{26A}");
    reveal_strlit("t^\u{283}");
    reveal_strlit("\u{254}^\u{26A}");
    reveal_strlit("\u{259}^l");
    reveal_strlit("\u{2B2}o");
    reveal_strlit("\u{2B2}\u{259}");
    reveal_strlit("\u{2B2}");
    reveal_strlit("\u{25A}");
    reveal_strlit("e");
    reveal_strlit("r");
    reveal_strlit("x");
    reveal_strlit("\u{E7}");
    reveal_strlit("\u{250}");
    reveal_strlit("\u{26C}");
    reveal_strlit("o^\u{28A}");
    reveal_strlit("\u{25C}\u{2D0}\u{279}");
    reveal_strlit("\u{25C}\u{2D0}");
    reveal_strlit("\u{26A}\u{259}");
    reveal_strlit("\u{2D0}");
    reveal_strlit("o");
    reveal_strlit("\u{27E}");
    reveal_strlit("\u{294}");
    reveal_strlit("^");
}

/// The mark of a syllabic consonant.
pub const SYLLABIC: char = '\u{329}';

/// `s` from `i` on, with a schwa before each syllabic consonant and the marks
/// taken away. A mark after white space, or after nothing that it could mark,
/// only goes.
pub open spec fn schwas_from(s: Seq<char>, i: int) -> Seq<char>
    decreases s.len() - i,
{
    if i < 0 || i >= s.len() {
        Seq::empty()
    } else if s[i] == SYLLABIC {
        schwas_from(s, i + 1)
    } else if i + 1 < s.len() && s[i + 1] == SYLLABIC {
        if white_space(s[i]) {
            seq![s[i]] + schwas_from(s, i + 2)
        } else {
            seq!['\u{1D4A}', s[i]] + schwas_from(s, i + 2)
        }
    } else {
        seq![s[i]] + schwas_from(s, i + 1)
    }
}

fn syllabic_chars(v: &[char]) -> (r: Vec<char>)
    ensures
        r@ == schwas_from(v@, 0),
{
    let mut r: Vec<char> = Vec::new();
    let mut i: usize = 0;
    while i < v.len()
        invariant
            i <= v@.len(),
            schwas_from(v@, 0) == r@ + schwas_from(v@, i as int),
        decreases v@.len() - i,
    {
        let ghost before = r@;
        if v[i] == SYLLABIC {
            i += 1;
        } else if i + 1 < v.len() && v[i + 1] == SYLLABIC {
            let ghost rest = schwas_from(v@, i + 2);
            if !v[i].is_whitespace() {
                r.push('\u{1D4A}');
                r.push(v[i]);
                assert(before + (seq!['\u{1D4A}', v@[i as int]] + rest) =~= r@ + rest);
            } else {
                r.push(v[i]);
                assert(before + (seq![v@[i as int]] + rest) =~= r@ + rest);
            }
            i += 2;
        } else {
            r.push(v[i]);
            let ghost rest = schwas_from(v@, i + 1);
            assert(before + (seq![v@[i as int]] + rest) =~= r@ + rest);
            i += 1;
        }
    }
    assert(schwas_from(v@, 0) =~= r@);
    r
}

/// A schwa before each syllabic consonant; see [`schwas_from`].
pub fn syllabic(s: &str) -> (r: String)
    ensures
        r@ == schwas_from(s@, 0),
{
    text_of(&syllabic_chars(&chars_of(s)))
}

/// The synthesiser's phonemes in the model's alphabet.
pub open spec fn ipa_mapped(s: Seq<char>) -> Seq<char> {
    mapped(schwas_from(mapped(mapped(s, BEFORE@), E2M@), 0), AFTER@)
}

fn map_ipa_chars(v: &[char]) -> (r: Vec<char>)
    ensures
        r@ == ipa_mapped(v@),
{
    proof {
        lemma_tables_have_keys();
    }
    let tied = map_with(v, &BEFORE);
    let said = map_with(&tied, &E2M);
    map_with(&syllabic_chars(&said), &AFTER)
}

/// The synthesiser's phonemes in the model's alphabet.
pub fn map_ipa(ipa: &str) -> (r: String)
    ensures
        r@ == ipa_mapped(ipa@),
{
    text_of(&map_ipa_chars(&chars_of(ipa)))
}

// ------------------------------------------------------------ asking and saying

/// Spaces, as a predicate value.
pub open spec fn spaces() -> spec_fn(char) -> bool {
    |c: char| c == ' '
}

fn is_space(c: char) -> (r: bool)
    ensures
        r == (c == ' '),
{
    c == ' '
}

/// `s` with each run of spaces made one, and none at the ends.
pub open spec fn single_spaced(s: Seq<char>) -> Seq<char> {
    join(words_from(s, spaces(), 0), " "@)
}

fn collapse_spaces(v: &[char]) -> (r: Vec<char>)
    ensures
        r@ == single_spaced(v@),
{
    join_chars(&words_where(v, is_space, Ghost(spaces())), &chars_of(" "))
}

/// A piece of an utterance: a mark to keep, or words to ask for, with the word
/// boundaries around them. Words that are all white space are not asked for.
#[derive(Debug, Clone, PartialEq)]
pub enum Piece {
    Mark(char),
    Say { before: bool, ask: Option<String>, after: bool },
}

/// What a [`Piece`] holds.
pub enum PieceView {
    Mark(char),
    Say { before: bool, ask: Option<Seq<char>>, after: bool },
}

impl View for Piece {
    type V = PieceView;

    open spec fn view(&self) -> PieceView {
        match *self {
            Piece::Mark(c) => PieceView::Mark(c),
            Piece::Say { before, ask, after } => PieceView::Say {
                before,
                ask: match ask {
                    Some(t) => Some(t@),
                    None => None,
                },
                after,
            },
        }
    }
}

/// What a vector of pieces holds.
pub open spec fn piece_views(v: Seq<Piece>) -> Seq<PieceView> {
    v.map_values(|p: Piece| p@)
}

/// What a segment asks for.
pub open spec fn piece_of(g: SegmentView) -> PieceView {
    match g {
        SegmentView::Mark(c) => PieceView::Mark(c),
        SegmentView::Words(w) => PieceView::Say {
            before: w.len() > 0 && white_space(w[0]),
            ask: if crate::chars::trim_of(w).len() == 0 {
                None
            } else {
                Some(asked_from(w, 0))
            },
            after: w.len() > 0 && white_space(w.last()),
        },
    }
}

/// What has to be asked to say `text`, its numbers rewritten first.
pub open spec fn questions_of(text: Seq<char>) -> Seq<PieceView> {
    segments_from(rewritten(text, 0), 0, 0).map_values(|g: SegmentView| piece_of(g))
}

/// What has to be asked to say `text`.
pub fn questions(text: &str) -> (r: Vec<Piece>)
    ensures
        piece_views(r@) == questions_of(text@),
{
    let plain = normalize(text);
    let plain: &str = match &plain {
        Cow::Borrowed(b) => b,
        Cow::Owned(o) => o.as_str(),
    };
    let segs = split_punctuation(plain);
    let mut r: Vec<Piece> = Vec::new();
    let mut i: usize = 0;
    while i < segs.len()
        invariant
            i <= segs@.len(),
            segment_views(segs@) == segments_from(rewritten(text@, 0), 0, 0),
            piece_views(r@) == questions_of(text@).take(i as int),
        decreases segs@.len() - i,
    {
        let ghost before = piece_views(r@);
        let p = match &segs[i] {
            Segment::Mark(c) => Piece::Mark(*c),
            Segment::Words(w) => {
                let v = chars_of(w.as_str());
                let ask = if crate::chars::trim_chars(&v).len() == 0 {
                    None
                } else {
                    match apply_overrides(w.as_str()) {
                        Cow::Borrowed(b) => Some(b.to_owned()),
                        Cow::Owned(o) => Some(o),
                    }
                };
                Piece::Say {
                    before: v.len() > 0 && v[0].is_whitespace(),
                    ask,
                    after: v.len() > 0 && v[v.len() - 1].is_whitespace(),
                }
            },
        };
        assert(segment_views(segs@)[i as int] == segs@[i as int]@);
        assert(p@ == questions_of(text@)[i as int]);
        r.push(p);
        assert(piece_views(r@) =~= before.push(p@));
        assert(questions_of(text@).take(i + 1) =~= questions_of(text@).take(i as int).push(p@));
        i += 1;
    }
    assert(questions_of(text@).take(i as int) =~= questions_of(text@));
    r
}

/// A space where there is a word boundary.
pub open spec fn gap(there: bool) -> Seq<char> {
    if there {
        seq![' ']
    } else {
        Seq::empty()
    }
}

/// What a piece contributes to the phonemes, `ipa` being the answer to it.
pub open spec fn said(p: PieceView, ipa: Seq<char>) -> Seq<char> {
    match p {
        PieceView::Mark(c) => seq![c],
        PieceView::Say { before, ask, after } => gap(before) + ipa_mapped(
            if ask is Some {
                ipa
            } else {
                Seq::empty()
            },
        ) + gap(after),
    }
}

/// What the first `n` pieces contribute.
pub open spec fn said_upto(ps: Seq<PieceView>, ipas: Seq<Seq<char>>, n: nat) -> Seq<char>
    decreases n,
{
    if n == 0 || n > ps.len() {
        Seq::empty()
    } else {
        said_upto(ps, ipas, (n - 1) as nat) + said(ps[n - 1], ipas[n - 1])
    }
}

/// The phonemes of an utterance, from the answers to its questions.
pub open spec fn phonemes_of(ps: Seq<PieceView>, ipas: Seq<Seq<char>>) -> Seq<char> {
    single_spaced(said_upto(ps, ipas, ps.len()))
}

/// The phonemes of an utterance. `ipas` holds an answer for each piece; the one
/// for a piece that asked nothing is not read.
pub fn assemble(pieces: &Vec<Piece>, ipas: &Vec<String>) -> (r: String)
    requires
        ipas@.len() == pieces@.len(),
    ensures
        r@ == phonemes_of(piece_views(pieces@), texts(ipas@)),
{
    let ghost ps = piece_views(pieces@);
    let ghost ans = texts(ipas@);
    let mut out: Vec<char> = Vec::new();
    let mut i: usize = 0;
    while i < pieces.len()
        invariant
            i <= pieces@.len() == ipas@.len(),
            ps == piece_views(pieces@),
            ans == texts(ipas@),
            out@ == said_upto(ps, ans, i as nat),
        decreases pieces@.len() - i,
    {
        let ghost sofar = out@;
        assert(ps[i as int] == pieces@[i as int]@);
        assert(ans[i as int] == ipas@[i as int]@);
        match &pieces[i] {
            Piece::Mark(c) => {
                out.push(*c);
                assert(out@ =~= sofar + seq![*c]);
            },
            Piece::Say { before, ask, after } => {
                if *before {
                    out.push(' ');
                }
                assert(out@ =~= sofar + gap(*before));
                let ipa: Vec<char> = if ask.is_some() {
                    chars_of(ipas[i].as_str())
                } else {
                    Vec::new()
                };
                let m = map_ipa_chars(&ipa);
                append(&mut out, &m);
                if *after {
                    out.push(' ');
                }
                assert(out@ =~= sofar + (gap(*before) + m@ + gap(*after)));
            },
        }
        i += 1;
    }
    text_of(&collapse_spaces(&out))
}

// -------------------------------------------------------------- the synthesiser

/// The lines of what the synthesiser printed, trimmed, the empty ones dropped,
/// as one utterance: it breaks its answer at clause boundaries.
pub open spec fn one_utterance(printed: Seq<char>) -> Seq<char> {
    join(crate::chars::trimmed_all(crate::chars::split_at_char(printed, '\n')), " "@)
}

/// The answer of the synthesiser: what it printed, or what it complained of
/// where it did not succeed. `status` is how it ended, in words.
pub fn answer(success: bool, status: &str, printed: &str, complaint: &str) -> (r: Result<
    String,
    TtsError,
>)
    ensures
        match r {
            Ok(ipa) => success && ipa@ == one_utterance(printed@),
            Err(TtsError::Espeak(m)) => !success && m@ == "espeak-ng exited "@ + status@ + ": "@
                + crate::chars::trim_of(complaint@),
            Err(_) => false,
        },
{
    if success {
        let lines = crate::chars::split_char(&chars_of(printed), '\n');
        Ok(text_of(&join_chars(&crate::chars::trim_all(&lines), &chars_of(" "))))
    } else {
        let mut m = chars_of("espeak-ng exited ");
        append(&mut m, &chars_of(status));
        append(&mut m, &chars_of(": "));
        append(&mut m, &crate::chars::trim_chars(&chars_of(complaint)));
        Err(TtsError::Espeak(text_of(&m)))
    }
}

/// How long the synthesiser gets before it is killed, in nanoseconds. A short
/// phrase takes milliseconds, so anything near this is a wedge.
pub const DEFAULT_TIMEOUT: u128 = 15_000_000_000;

/// Where the synthesiser lives, which voice it speaks and how long it gets, in
/// nanoseconds.
#[derive(Debug, Clone)]
pub struct Phonemizer {
    pub binary: String,
    pub voice: String,
    pub timeout: u128,
}

/// What a variable says, or `usual` where it is not set.
pub open spec fn said_or(vars: Vars, key: Seq<char>, usual: Seq<char>) -> Seq<char> {
    match var_from(vars, key, 0) {
        Some(v) => v,
        None => usual,
    }
}

fn say_or(vars: &Vec<(String, String)>, key: &str, usual: &str) -> (r: String)
    ensures
        r@ == said_or(vars_of(vars@), key@, usual@),
{
    match var(vars, key) {
        Some(v) => v,
        None => usual.to_owned(),
    }
}

impl Phonemizer {
    /// The synthesiser that the environment names, speaking `voice` whichever voice
    /// the environment names. `timeout` is what `ESPEAK_TIMEOUT` comes to, where that
    /// is a number of seconds above nothing.
    pub fn new(voice: &str, vars: &Vec<(String, String)>, timeout: Option<u128>) -> (r: Self)
        ensures
            r.binary@ == said_or(vars_of(vars@), "ESPEAK_BIN"@, "espeak-ng"@),
            r.voice@ == voice@,
            r.timeout == match timeout {
                Some(t) => t,
                None => DEFAULT_TIMEOUT,
            },
    {
        let usual = Phonemizer::configured(vars, timeout);
        Phonemizer { binary: usual.binary, voice: voice.to_owned(), timeout: usual.timeout }
    }

    /// The synthesiser that the environment names, speaking the voice it names; what
    /// it leaves out is usual. `timeout` is as for [`Phonemizer::new`].
    pub fn configured(vars: &Vec<(String, String)>, timeout: Option<u128>) -> (r: Self)
        ensures
            r.binary@ == said_or(vars_of(vars@), "ESPEAK_BIN"@, "espeak-ng"@),
            r.voice@ == said_or(vars_of(vars@), "ESPEAK_VOICE"@, "en-us"@),
            r.timeout == match timeout {
                Some(t) => t,
                None => DEFAULT_TIMEOUT,
            },
    {
        Phonemizer {
            binary: say_or(vars, "ESPEAK_BIN", "espeak-ng"),
            voice: say_or(vars, "ESPEAK_VOICE", "en-us"),
            timeout: match timeout {
                Some(t) => t,
                None => DEFAULT_TIMEOUT,
            },
        }
    }

    /// The arguments that ask for the phonemes of `text`.
    pub fn arguments(&self, text: &str) -> (r: Vec<String>)
        ensures
            texts(r@) == seq!["-q"@, "--ipa=2"@, "-v"@, self.voice@, "--"@, text@],
    {
        let r = vec![
            "-q".to_owned(),
            "--ipa=2".to_owned(),
            "-v".to_owned(),
            self.voice.clone(),
            "--".to_owned(),
            text.to_owned(),
        ];
        assert(texts(r@) =~= seq!["-q"@, "--ipa=2"@, "-v"@, self.voice@, "--"@, text@]);
        r
    }

    /// How long the synthesiser gets, in nanoseconds.
    pub fn timeout(&self) -> (r: u128)
        ensures
            r == self.timeout,
    {
        self.timeout
    }

    /// The same synthesiser with another deadline.
    pub fn with_timeout(self, timeout: u128) -> (r: Self)
        ensures
            r == (Phonemizer { timeout, ..self }),
    {
        Phonemizer { binary: self.binary, voice: self.voice, timeout }
    }
}

/// What a look at the synthesiser's process shows.
#[derive(Debug, Clone, Copy, PartialEq, Eq, Structural)]
pub enum Look {
    Ended,
    Running,
    Lost,
}

/// What to do after a look: take the answer, kill the process, or look again
/// after so many microseconds.
#[derive(Debug, Clone, Copy, PartialEq, Eq, Structural)]
pub enum Wait {
    Take,
    Kill,
    Nap { micros: u64, next: u64 },
}

/// The first pause between two looks, in microseconds.
pub const FIRST_NAP_US: u64 = 250;

/// The longest.
pub const LONGEST_NAP_US: u64 = 10_000;

/// What to do after a look at a process that has run for `elapsed` of the
/// `timeout` it gets, both in nanoseconds. The pauses double up to the longest.
pub fn after_look(look: Look, elapsed: u128, timeout: u128, nap: u64) -> (r: Wait)
    ensures
        r == match look {
            Look::Ended => Wait::Take,
            Look::Lost => Wait::Kill,
            Look::Running => if elapsed >= timeout {
                Wait::Kill
            } else {
                Wait::Nap {
                    micros: nap,
                    next: if nap > LONGEST_NAP_US / 2 {
                        LONGEST_NAP_US
                    } else {
                        (2 * nap) as u64
                    },
                }
            },
        },
{
    match look {
        Look::Ended => Wait::Take,
        Look::Lost => Wait::Kill,
        Look::Running => if elapsed >= timeout {
            Wait::Kill
        } else {
            Wait::Nap {
                micros: nap,
                next: if nap > LONGEST_NAP_US / 2 {
                    LONGEST_NAP_US
                } else {
                    2 * nap
                },
            }
        },
    }
}

} // verus!
