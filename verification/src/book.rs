//! A book as a render plan: chapters, then sentence-aware chunks sized for
//! speech.
//!
//! A chunk's index is what a reading position is made of, so the boundaries
//! drawn here are stated exactly. Two of the rules deserve a word. A full stop
//! that belongs to an abbreviation does not end a sentence. And the separator
//! after a sentence swallows the closing quotes and brackets that follow its
//! terminator along with the white space.

use vstd::prelude::*;
use crate::chars::{alphanumeric, chars_of, find_run_end, part, run_end, run_start, cat, decimal, decimal_text, same, same_text, spelled, strings_of, texts, trim_where, trimmed, uppercase, white_space};

verus! {

/// The chunk length a plan is built with unless it says otherwise.
pub const DEFAULT_MAX_CHARS: usize = 300;

/// Whether an abbreviation's full stop is kept from ending a sentence.
#[derive(Debug, Clone, Copy, PartialEq, Eq, Structural)]
pub enum Guards {
    /// Every full stop ends a sentence: `Dr. Smith` is two.
    Inert,
    /// An abbreviation's full stop does not end a sentence.
    On,
}

// ------------------------------------------------------------------ whitespace

/// White space as the chunker counts it: what Unicode calls white space, and
/// the information separators.
pub open spec fn blank(c: char) -> bool {
    white_space(c) || '\u{1C}' <= c <= '\u{1F}'
}

/// [`blank`] as a predicate value.
pub open spec fn blanks() -> spec_fn(char) -> bool {
    |c: char| blank(c)
}

/// Whether `c` is blank.
pub fn is_blank(c: char) -> (r: bool)
    ensures
        r == blank(c),
{
    c.is_whitespace() || matches!(c, '\u{1C}' | '\u{1D}' | '\u{1E}' | '\u{1F}' | '\u{85}')
}

/// `s` without the blanks at its ends.
pub open spec fn strip(s: Seq<char>) -> Seq<char> {
    trimmed(s, blanks())
}

fn strip_blanks(v: &[char]) -> (r: Vec<char>)
    ensures
        r@ == strip(v@),
{
    trim_where(v, is_blank, Ghost(blanks()))
}

// ------------------------------------------------------------------- sentences

/// The characters the sentence separator swallows after the terminator.
pub open spec fn closer(c: char) -> bool {
    c == '"' || c == '\'' || c == '\u{201D}' || c == '\u{2019}' || c == ')' || c == ']'
}

/// [`closer`] as a predicate value.
pub open spec fn closers() -> spec_fn(char) -> bool {
    |c: char| closer(c)
}

/// Whether `c` is one of them.
pub fn is_closer(c: char) -> (r: bool)
    ensures
        r == closer(c),
{
    matches!(c, '"' | '\'' | '\u{201D}' | '\u{2019}' | ')' | ']')
}

/// The characters that can end a sentence.
pub open spec fn terminator(c: char) -> bool {
    c == '.' || c == '!' || c == '?'
}

/// The characters an abbreviation is read back over: letters, digits and
/// interior full stops, so that `i.e` is found whole.
pub open spec fn wordish() -> spec_fn(char) -> bool {
    |c: char| alphanumeric(c) || c == '.'
}

fn is_wordish(c: char) -> (r: bool)
    ensures
        r == (alphanumeric(c) || c == '.'),
{
    c.is_alphanumeric() || c == '.'
}

/// The words whose full stop is their own.
pub open spec fn listed_abbreviation(w: Seq<char>) -> bool {
    w == "Mr"@ || w == "Mrs"@ || w == "Ms"@ || w == "Dr"@ || w == "St"@ || w == "Jr"@ || w == "Sr"@
        || w == "vs"@ || w == "etc"@ || w == "i.e"@ || w == "e.g"@
}

/// Whether the full stop at `dot` belongs to the word before it: one of the
/// listed abbreviations, or the single capital of an initial.
pub open spec fn abbreviation(s: Seq<char>, dot: int) -> bool {
    let w = s.subrange(run_start(s, wordish(), 0, dot), dot);
    (w.len() == 1 && uppercase(w[0])) || listed_abbreviation(w)
}

/// Whether a sentence ends just before `i`: after a terminator that is not an
/// abbreviation's, where closers and then a blank follow.
pub open spec fn sentence_ends(s: Seq<char>, guards: Guards, i: int) -> bool {
    &&& 0 < i < s.len()
    &&& terminator(s[i - 1])
    &&& !(guards == Guards::On && s[i - 1] == '.' && abbreviation(s, i - 1))
    &&& run_end(s, closers(), i) < s.len()
    &&& blank(s[run_end(s, closers(), i)])
}

/// Where the next sentence starts when one ends at `i`.
pub open spec fn next_sentence(s: Seq<char>, i: int) -> int {
    run_end(s, blanks(), run_end(s, closers(), i))
}

/// The pieces of `s` between sentence ends, looking for ends from `i` on, the
/// current piece having started at `last`.
pub open spec fn split_sentences_from(s: Seq<char>, guards: Guards, last: int, i: int) -> Seq<
    Seq<char>,
>
    decreases s.len() - i,
{
    if i < 0 || i >= s.len() {
        seq![s.subrange(last, s.len() as int)]
    } else if sentence_ends(s, guards, i) {
        proof {
            lemma_next_sentence(s, guards, i);
        }
        let e = next_sentence(s, i);
        seq![s.subrange(last, i)] + split_sentences_from(s, guards, e, e)
    } else {
        split_sentences_from(s, guards, last, i + 1)
    }
}

/// The stripped pieces of `pieces`, without the empty ones.
pub open spec fn stripped(pieces: Seq<Seq<char>>) -> Seq<Seq<char>> {
    pieces.map_values(|p: Seq<char>| strip(p)).filter(|p: Seq<char>| p.len() > 0)
}

/// The sentences of `s`.
pub open spec fn sentences_of(s: Seq<char>, guards: Guards) -> Seq<Seq<char>> {
    stripped(split_sentences_from(s, guards, 0, 0))
}

/// Past the end of a sentence lies at least one more character.
pub proof fn lemma_next_sentence(s: Seq<char>, guards: Guards, i: int)
    requires
        sentence_ends(s, guards, i),
    ensures
        i <= run_end(s, closers(), i) < next_sentence(s, i) <= s.len(),
{
    crate::chars::lemma_run_end(s, closers(), i);
    let c = run_end(s, closers(), i);
    crate::chars::lemma_run_end(s, blanks(), c + 1);
    assert(run_end(s, blanks(), c) == run_end(s, blanks(), c + 1));
}

/// Whether `w` is one of them.
pub fn is_listed_abbreviation(w: &[char]) -> (r: bool)
    ensures
        r == listed_abbreviation(w@),
{
    same(w, &chars_of("Mr")) || same(w, &chars_of("Mrs")) || same(w, &chars_of("Ms")) || same(
        w,
        &chars_of("Dr"),
    ) || same(w, &chars_of("St")) || same(w, &chars_of("Jr")) || same(w, &chars_of("Sr")) || same(
        w,
        &chars_of("vs"),
    ) || same(w, &chars_of("etc")) || same(w, &chars_of("i.e")) || same(w, &chars_of("e.g"))
}

fn is_abbreviation(v: &[char], dot: usize) -> (r: bool)
    requires
        dot < v@.len(),
    ensures
        r == abbreviation(v@, dot as int),
{
    let start = crate::chars::find_run_start(v, is_wordish, 0, dot, Ghost(wordish()));
    let w = part(v, start, dot);
    (w.len() == 1 && w[0].is_uppercase()) || is_listed_abbreviation(&w)
}

fn sentence_ends_at(v: &[char], guards: Guards, i: usize) -> (r: bool)
    requires
        i < v@.len(),
    ensures
        r == sentence_ends(v@, guards, i as int),
{
    if i == 0 || !matches!(v[i - 1], '.' | '!' | '?') {
        return false;
    }
    if guards == Guards::On && v[i - 1] == '.' && is_abbreviation(v, i - 1) {
        return false;
    }
    let c = find_run_end(v, is_closer, i, Ghost(closers()));
    c < v.len() && is_blank(v[c])
}

fn split_sentences_raw(v: &[char], guards: Guards) -> (parts: Vec<Vec<char>>)
    ensures
        spelled(parts@) == split_sentences_from(v@, guards, 0, 0),
{
    let mut parts: Vec<Vec<char>> = Vec::new();
    let mut last: usize = 0;
    let mut i: usize = 0;
    while i < v.len()
        invariant
            last <= i <= v@.len(),
            split_sentences_from(v@, guards, 0, 0) == spelled(parts@) + split_sentences_from(
                v@,
                guards,
                last as int,
                i as int,
            ),
        decreases v@.len() - i,
    {
        if sentence_ends_at(v, guards, i) {
            proof {
                lemma_next_sentence(v@, guards, i as int);
            }
            let c = find_run_end(v, is_closer, i, Ghost(closers()));
            let e = find_run_end(v, is_blank, c, Ghost(blanks()));
            let ghost before = spelled(parts@);
            let piece = part(v, last, i);
            parts.push(piece);
            assert(spelled(parts@) =~= before.push(v@.subrange(last as int, i as int)));
            last = e;
            i = e;
            assert(spelled(parts@) + split_sentences_from(v@, guards, e as int, e as int)
                =~= before + (seq![piece@] + split_sentences_from(v@, guards, e as int, e as int)));
        } else {
            i += 1;
        }
    }
    let ghost before = spelled(parts@);
    let piece = part(v, last, v.len());
    parts.push(piece);
    assert(spelled(parts@) =~= before + seq![v@.subrange(last as int, v@.len() as int)]);
    parts
}

/// The sentences of `text`.
pub fn sentences(text: &str) -> (r: Vec<String>)
    ensures
        texts(r@) == sentences_of(text@, Guards::On),
{
    sentences_with(text, Guards::On)
}

/// [`sentences`], with the choice of guards made explicit.
pub fn sentences_with(text: &str, guards: Guards) -> (r: Vec<String>)
    ensures
        texts(r@) == sentences_of(text@, guards),
{
    strings_of(&sentence_chars(&chars_of(text), guards))
}

fn sentence_chars(v: &[char], guards: Guards) -> (r: Vec<Vec<char>>)
    ensures
        spelled(r@) == sentences_of(v@, guards),
{
    strip_all(&split_sentences_raw(v, guards))
}

/// The stripped pieces, without the empty ones.
pub fn strip_all(pieces: &Vec<Vec<char>>) -> (r: Vec<Vec<char>>)
    ensures
        spelled(r@) == stripped(spelled(pieces@)),
{
    let mut r: Vec<Vec<char>> = Vec::new();
    let mut i: usize = 0;
    while i < pieces.len()
        invariant
            i <= pieces@.len(),
            spelled(r@) == stripped(spelled(pieces@).take(i as int)),
        decreases pieces@.len() - i,
    {
        let ghost before = spelled(r@);
        let ghost done = spelled(pieces@).take(i as int);
        let t = strip_blanks(&pieces[i]);
        proof {
            lemma_stripped_push(done, pieces@[i as int]@);
            assert(done.push(pieces@[i as int]@) =~= spelled(pieces@).take(i + 1));
        }
        if t.len() > 0 {
            r.push(t);
            assert(spelled(r@) =~= before.push(t@));
        }
        i += 1;
    }
    assert(spelled(pieces@).take(i as int) =~= spelled(pieces@));
    r
}

proof fn lemma_stripped_push(done: Seq<Seq<char>>, p: Seq<char>)
    ensures
        stripped(done.push(p)) == if strip(p).len() > 0 {
            stripped(done).push(strip(p))
        } else {
            stripped(done)
        },
{
    let f = |q: Seq<char>| strip(q);
    let keep = |q: Seq<char>| q.len() > 0;
    assert(done.push(p).map_values(f) =~= done.map_values(f).push(strip(p)));
    done.map_values(f).lemma_filter_push(strip(p), keep);
}

// --------------------------------------------------------------------- clauses

/// Whether a clause ends just before `i`: after a comma, semicolon, colon or em
/// dash that a blank follows.
pub open spec fn clause_ends(s: Seq<char>, i: int) -> bool {
    &&& 0 < i < s.len()
    &&& (s[i - 1] == ',' || s[i - 1] == ';' || s[i - 1] == ':' || s[i - 1] == '\u{2014}')
    &&& blank(s[i])
}

/// The clauses of `s`, looking for ends from `i` on, the current clause having
/// started at `last`.
pub open spec fn split_clauses_from(s: Seq<char>, last: int, i: int) -> Seq<Seq<char>>
    decreases s.len() - i,
{
    if i < 0 || i >= s.len() {
        seq![s.subrange(last, s.len() as int)]
    } else if clause_ends(s, i) {
        proof {
            crate::chars::lemma_run_end(s, blanks(), i + 1);
        }
        let e = run_end(s, blanks(), i + 1);
        seq![s.subrange(last, i)] + split_clauses_from(s, e, e)
    } else {
        split_clauses_from(s, last, i + 1)
    }
}

fn split_clauses(v: &[char]) -> (parts: Vec<Vec<char>>)
    ensures
        spelled(parts@) == split_clauses_from(v@, 0, 0),
{
    let mut parts: Vec<Vec<char>> = Vec::new();
    let mut last: usize = 0;
    let mut i: usize = 0;
    while i < v.len()
        invariant
            last <= i <= v@.len(),
            split_clauses_from(v@, 0, 0) == spelled(parts@) + split_clauses_from(
                v@,
                last as int,
                i as int,
            ),
        decreases v@.len() - i,
    {
        if i > 0 && matches!(v[i - 1], ',' | ';' | ':' | '\u{2014}') && is_blank(v[i]) {
            let e = find_run_end(v, is_blank, i + 1, Ghost(blanks()));
            let ghost before = spelled(parts@);
            let piece = part(v, last, i);
            parts.push(piece);
            assert(spelled(parts@) =~= before.push(v@.subrange(last as int, i as int)));
            last = e;
            i = e;
            assert(spelled(parts@) + split_clauses_from(v@, e as int, e as int) =~= before + (
            seq![piece@] + split_clauses_from(v@, e as int, e as int)));
        } else {
            i += 1;
        }
    }
    let ghost before = spelled(parts@);
    let piece = part(v, last, v.len());
    parts.push(piece);
    assert(spelled(parts@) =~= before + seq![v@.subrange(last as int, v@.len() as int)]);
    parts
}

// -------------------------------------------------------------------- chunking

/// Chunks that are finished, and the one still being filled.
pub struct Filling {
    pub done: Seq<Seq<char>>,
    pub cur: Seq<char>,
}

/// `a`, a space and `b`, without the blanks at the ends.
pub open spec fn joined(a: Seq<char>, b: Seq<char>) -> Seq<char> {
    strip(a.push(' ') + b)
}

/// Add `p` to the chunk being filled where both fit in `max` with a space
/// between; otherwise finish that chunk and start the next with `p`.
pub open spec fn fill(f: Filling, p: Seq<char>, max: nat) -> Filling {
    if f.cur.len() > 0 && f.cur.len() + p.len() + 1 > max {
        Filling { done: f.done.push(f.cur), cur: p }
    } else {
        Filling { done: f.done, cur: joined(f.cur, p) }
    }
}

/// Finish the chunk being filled, if there is anything in it.
pub open spec fn finish(f: Filling) -> Seq<Seq<char>> {
    if f.cur.len() > 0 {
        f.done.push(f.cur)
    } else {
        f.done
    }
}

/// What `done` becomes when the first `n` of `parts` are filled in after it.
pub open spec fn fill_all(done: Seq<Seq<char>>, parts: Seq<Seq<char>>, n: nat, max: nat) -> Filling
    decreases n,
{
    if n == 0 || n > parts.len() {
        Filling { done, cur: Seq::empty() }
    } else {
        fill(fill_all(done, parts, (n - 1) as nat, max), parts[n - 1], max)
    }
}

/// Take one sentence: whole where it fits in `max`, clause by clause where it
/// does not.
pub open spec fn take_sentence(f: Filling, s: Seq<char>, max: nat) -> Filling {
    if s.len() > max {
        let clauses = split_clauses_from(s, 0, 0);
        Filling {
            done: finish(fill_all(finish(f), clauses, clauses.len(), max)),
            cur: Seq::empty(),
        }
    } else {
        fill(f, s, max)
    }
}

/// What the first `n` of `sents` are grouped into.
pub open spec fn group(sents: Seq<Seq<char>>, n: nat, max: nat) -> Filling
    decreases n,
{
    if n == 0 || n > sents.len() {
        Filling { done: Seq::empty(), cur: Seq::empty() }
    } else {
        take_sentence(group(sents, (n - 1) as nat, max), sents[n - 1], max)
    }
}

/// The chunks of one paragraph: whole sentences grouped up to `max` characters,
/// and a sentence longer than that split at its clauses.
pub open spec fn chunks_of(para: Seq<char>, max: nat, guards: Guards) -> Seq<Seq<char>> {
    let sents = sentences_of(para, guards);
    finish(group(sents, sents.len(), max))
}

fn join_strip(a: &[char], b: &[char]) -> (r: Vec<char>)
    ensures
        r@ == joined(a@, b@),
{
    let mut v = part(a, 0, a.len());
    v.push(' ');
    let mut i: usize = 0;
    while i < b.len()
        invariant
            i <= b@.len(),
            v@ == a@.push(' ') + b@.take(i as int),
        decreases b@.len() - i,
    {
        v.push(b[i]);
        i += 1;
    }
    assert(v@ =~= a@.push(' ') + b@);
    strip_blanks(&v)
}

/// Add `p` to what is being filled; see [`fill`].
fn fill_with(done: &mut Vec<Vec<char>>, cur: Vec<char>, p: &[char], max: usize) -> (next: Vec<char>)
    ensures
        ({
            let f = fill(Filling { done: spelled(old(done)@), cur: cur@ }, p@, max as nat);
            spelled(final(done)@) == f.done && next@ == f.cur
        }),
{
    if cur.len() > 0 && (cur.len() >= max || p.len() >= max - cur.len()) {
        let ghost before = spelled(done@);
        let ghost c = cur@;
        done.push(cur);
        assert(spelled(done@) =~= before.push(c));
        let next = part(p, 0, p.len());
        assert(next@ =~= p@);
        next
    } else {
        join_strip(&cur, p)
    }
}

fn finish_into(done: &mut Vec<Vec<char>>, cur: Vec<char>)
    ensures
        spelled(final(done)@) == finish(Filling { done: spelled(old(done)@), cur: cur@ }),
{
    let ghost before = spelled(done@);
    let ghost c = cur@;
    if cur.len() > 0 {
        done.push(cur);
        assert(spelled(done@) =~= before.push(c));
    }
}

fn chunk_chars(para: &[char], max_chars: usize, guards: Guards) -> (r: Vec<Vec<char>>)
    ensures
        spelled(r@) == chunks_of(para@, max_chars as nat, guards),
{
    let sents = sentence_chars(para, guards);
    let ghost ss = spelled(sents@);
    let mut out: Vec<Vec<char>> = Vec::new();
    let mut cur: Vec<char> = Vec::new();
    let mut i: usize = 0;
    assert(spelled(out@) =~= Seq::<Seq<char>>::empty());
    while i < sents.len()
        invariant
            i <= sents@.len(),
            ss == spelled(sents@),
            (Filling { done: spelled(out@), cur: cur@ }) == group(ss, i as nat, max_chars as nat),
        decreases sents@.len() - i,
    {
        let s = &sents[i];
        assert(ss[i as int] == s@);
        if s.len() > max_chars {
            finish_into(&mut out, cur);
            let clauses = split_clauses(s);
            let ghost cs = spelled(clauses@);
            let ghost start = spelled(out@);
            let mut buf: Vec<char> = Vec::new();
            let mut k: usize = 0;
            while k < clauses.len()
                invariant
                    k <= clauses@.len(),
                    cs == spelled(clauses@),
                    (Filling { done: spelled(out@), cur: buf@ }) == fill_all(
                        start,
                        cs,
                        k as nat,
                        max_chars as nat,
                    ),
                decreases clauses@.len() - k,
            {
                assert(cs[k as int] == clauses@[k as int]@);
                buf = fill_with(&mut out, buf, &clauses[k], max_chars);
                k += 1;
            }
            finish_into(&mut out, buf);
            cur = Vec::new();
        } else {
            cur = fill_with(&mut out, cur, s, max_chars);
        }
        i += 1;
    }
    finish_into(&mut out, cur);
    out
}

/// The chunks of a paragraph.
pub fn chunk_paragraph(para: &str, max_chars: usize) -> (r: Vec<String>)
    ensures
        texts(r@) == chunks_of(para@, max_chars as nat, Guards::On),
{
    chunk_paragraph_with(para, max_chars, Guards::On)
}

/// [`chunk_paragraph`], with the choice of guards made explicit.
pub fn chunk_paragraph_with(para: &str, max_chars: usize, guards: Guards) -> (r: Vec<String>)
    ensures
        texts(r@) == chunks_of(para@, max_chars as nat, guards),
{
    strings_of(&chunk_chars(&chars_of(para), max_chars, guards))
}

// ------------------------------------------------------------------- the plan

/// The two-letter Unicode general category of `c`, such as `Lu` or `Po`, as
/// `unicode_general_category` has it.
pub uninterp spec fn general_category(c: char) -> Seq<char>;

/// `unicode_general_category::get_general_category` and the abbreviation it has
/// for the category found. The table behind it is not restated here.
#[verifier::external_body]
fn category_of(c: char) -> (r: String)
    ensures
        r@ == general_category(c),
{
    unicode_general_category::get_general_category(c).abbreviation().to_string()
}

/// The categories of the characters that are pronounced: letters and numbers.
pub open spec fn speakable_category(cat: Seq<char>) -> bool {
    cat == "Lu"@ || cat == "Ll"@ || cat == "Lt"@ || cat == "Lm"@ || cat == "Lo"@ || cat == "Nd"@
        || cat == "Nl"@ || cat == "No"@
}

/// Whether characters of the category abbreviated `cat` are pronounced.
pub fn is_speakable_category(cat: &str) -> (r: bool)
    ensures
        r == speakable_category(cat@),
{
    same_text(cat, "Lu") || same_text(cat, "Ll") || same_text(cat, "Lt") || same_text(cat, "Lm")
        || same_text(cat, "Lo") || same_text(cat, "Nd") || same_text(cat, "Nl") || same_text(
        cat,
        "No",
    )
}

/// Whether `c` is a letter or a number, superscripts and fractions among them.
pub fn is_speakable_char(c: char) -> (r: bool)
    ensures
        r == speakable_category(general_category(c)),
{
    is_speakable_category(category_of(c).as_str())
}

/// Whether there is anything in `s` to pronounce.
pub open spec fn speakable(s: Seq<char>) -> bool {
    exists|i: int| 0 <= i < s.len() && speakable_category(general_category(#[trigger] s[i]))
}

/// Whether there is anything in `text` to pronounce. A chunk with nothing to
/// pronounce is rendered as a short silence.
pub fn is_speakable(text: &str) -> (r: bool)
    ensures
        r == speakable(text@),
{
    let v = chars_of(text);
    let mut i: usize = 0;
    while i < v.len()
        invariant
            i <= v@.len(),
            v@ == text@,
            forall|k: int|
                0 <= k < i ==> !speakable_category(general_category(#[trigger] v@[k])),
        decreases v@.len() - i,
    {
        if is_speakable_char(v[i]) {
            return true;
        }
        i += 1;
    }
    false
}

/// One piece of text to speak.
#[derive(Debug, Clone, PartialEq)]
pub struct Chunk {
    pub text: String,
    pub para: usize,
    pub silent: bool,
}

/// What a [`Chunk`] holds.
pub struct ChunkView {
    pub text: Seq<char>,
    pub para: nat,
    pub silent: bool,
}

impl View for Chunk {
    type V = ChunkView;

    open spec fn view(&self) -> ChunkView {
        ChunkView { text: self.text@, para: self.para as nat, silent: self.silent }
    }
}

/// A chapter of a plan: one spine document that has something to say.
#[derive(Debug, Clone, PartialEq)]
pub struct Chapter {
    pub index: usize,
    pub id: String,
    pub title: String,
    pub chunks: Vec<Chunk>,
}

/// What a [`Chapter`] holds.
#[verifier::ext_equal]
pub struct ChapterView {
    pub index: nat,
    pub id: Seq<char>,
    pub title: Seq<char>,
    pub chunks: Seq<ChunkView>,
}

/// What a vector of chunks holds.
pub open spec fn chunk_views(v: Seq<Chunk>) -> Seq<ChunkView> {
    v.map_values(|c: Chunk| c@)
}

impl View for Chapter {
    type V = ChapterView;

    open spec fn view(&self) -> ChapterView {
        ChapterView {
            index: self.index as nat,
            id: self.id@,
            title: self.title@,
            chunks: chunk_views(self.chunks@),
        }
    }
}

/// What a vector of chapters holds.
pub open spec fn chapter_views(v: Seq<Chapter>) -> Seq<ChapterView> {
    v.map_values(|c: Chapter| c@)
}

/// The name shown for a chapter: its title, or its place where it has none.
pub open spec fn shown_title(c: ChapterView) -> Seq<char> {
    if c.title.len() == 0 {
        "Section "@ + decimal(c.index + 1)
    } else {
        c.title
    }
}

impl Chapter {
    /// The name shown for a chapter that the table of contents leaves out.
    pub fn display_title(&self) -> (r: String)
        requires
            self.index < u64::MAX,
        ensures
            r@ == shown_title(self@),
    {
        if self.title.as_str().is_empty() {
            cat("Section ", decimal_text(self.index as u64 + 1).as_str())
        } else {
            self.title.clone()
        }
    }
}

/// One spine document's paragraphs, before chunking.
#[derive(Debug, Clone)]
pub struct RawChapter {
    pub id: String,
    pub title: String,
    pub paragraphs: Vec<String>,
}

/// What a [`RawChapter`] holds.
#[verifier::ext_equal]
pub struct RawChapterView {
    pub id: Seq<char>,
    pub title: Seq<char>,
    pub paragraphs: Seq<Seq<char>>,
}

impl View for RawChapter {
    type V = RawChapterView;

    open spec fn view(&self) -> RawChapterView {
        RawChapterView { id: self.id@, title: self.title@, paragraphs: texts(self.paragraphs@) }
    }
}

/// What a vector of raw chapters holds.
pub open spec fn raw_views(v: Seq<RawChapter>) -> Seq<RawChapterView> {
    v.map_values(|c: RawChapter| c@)
}

/// The chunks that one paragraph, the one numbered `para`, contributes.
pub open spec fn paragraph_chunks(text: Seq<char>, para: nat, max: nat, guards: Guards) -> Seq<
    ChunkView,
> {
    chunks_of(text, max, guards).map_values(
        |t: Seq<char>| ChunkView { text: t, para, silent: !speakable(t) },
    )
}

/// The chunks that the first `n` paragraphs of a chapter contribute, in order.
pub open spec fn chunks_upto(paras: Seq<Seq<char>>, n: nat, max: nat, guards: Guards) -> Seq<
    ChunkView,
>
    decreases n,
{
    if n == 0 || n > paras.len() {
        Seq::empty()
    } else {
        let k = (n - 1) as nat;
        chunks_upto(paras, k, max, guards) + paragraph_chunks(paras[k as int], k, max, guards)
    }
}

/// The plan of the first `n` of `raw`: each chapter that has chunks, under the
/// index it has in `raw`.
pub open spec fn plan_upto(raw: Seq<RawChapterView>, n: nat, max: nat, guards: Guards) -> Seq<
    ChapterView,
>
    decreases n,
{
    if n == 0 || n > raw.len() {
        Seq::empty()
    } else {
        let k = (n - 1) as nat;
        let r = raw[k as int];
        let chunks = chunks_upto(r.paragraphs, r.paragraphs.len(), max, guards);
        let before = plan_upto(raw, k, max, guards);
        if chunks.len() > 0 {
            before.push(ChapterView { index: k, id: r.id, title: r.title, chunks })
        } else {
            before
        }
    }
}

/// The plan of a whole book.
pub open spec fn plan_of(raw: Seq<RawChapterView>, max: nat, guards: Guards) -> Seq<ChapterView> {
    plan_upto(raw, raw.len(), max, guards)
}

/// The plan of a book, abbreviations guarded.
pub fn build_plan(chapters: &[RawChapter], max_chars: usize) -> (plan: Vec<Chapter>)
    ensures
        chapter_views(plan@) == plan_of(raw_views(chapters@), max_chars as nat, Guards::On),
{
    build_plan_with(chapters, max_chars, Guards::On)
}

/// [`build_plan`], with the choice of guards made explicit.
pub fn build_plan_with(chapters: &[RawChapter], max_chars: usize, guards: Guards) -> (plan: Vec<
    Chapter,
>)
    ensures
        chapter_views(plan@) == plan_of(raw_views(chapters@), max_chars as nat, guards),
{
    let mut plan: Vec<Chapter> = Vec::new();
    let ghost raw = raw_views(chapters@);
    let mut ci: usize = 0;
    assert(chapter_views(plan@) =~= Seq::<ChapterView>::empty());
    while ci < chapters.len()
        invariant
            ci <= chapters@.len(),
            raw == raw_views(chapters@),
            chapter_views(plan@) == plan_upto(raw, ci as nat, max_chars as nat, guards),
        decreases chapters@.len() - ci,
    {
        let ch = &chapters[ci];
        assert(raw[ci as int] == ch@);
        let chunks = chapter_chunks(&ch.paragraphs, max_chars, guards);
        if chunks.len() > 0 {
            let ghost before = chapter_views(plan@);
            let made = Chapter { index: ci, id: ch.id.clone(), title: ch.title.clone(), chunks };
            plan.push(made);
            assert(chapter_views(plan@) =~= before.push(made@));
        }
        ci += 1;
    }
    plan
}

fn chapter_chunks(paras: &Vec<String>, max_chars: usize, guards: Guards) -> (r: Vec<Chunk>)
    ensures
        chunk_views(r@) == chunks_upto(texts(paras@), paras@.len(), max_chars as nat, guards),
{
    let mut r: Vec<Chunk> = Vec::new();
    let ghost ps = texts(paras@);
    let mut pi: usize = 0;
    assert(chunk_views(r@) =~= Seq::<ChunkView>::empty());
    while pi < paras.len()
        invariant
            pi <= paras@.len(),
            ps == texts(paras@),
            chunk_views(r@) == chunks_upto(ps, pi as nat, max_chars as nat, guards),
        decreases paras@.len() - pi,
    {
        assert(ps[pi as int] == paras@[pi as int]@);
        let found = chunk_paragraph_with(paras[pi].as_str(), max_chars, guards);
        let ghost before = chunk_views(r@);
        let ghost new = paragraph_chunks(ps[pi as int], pi as nat, max_chars as nat, guards);
        let mut k: usize = 0;
        while k < found.len()
            invariant
                k <= found@.len(),
                found@.len() == new.len(),
                texts(found@) == chunks_of(ps[pi as int], max_chars as nat, guards),
                new == paragraph_chunks(ps[pi as int], pi as nat, max_chars as nat, guards),
                chunk_views(r@) == before + new.take(k as int),
            decreases found@.len() - k,
        {
            let text = found[k].clone();
            assert(texts(found@)[k as int] == text@);
            let silent = !is_speakable(text.as_str());
            let ghost sofar = chunk_views(r@);
            let made = Chunk { text, para: pi, silent };
            r.push(made);
            assert(chunk_views(r@) =~= sofar.push(made@));
            assert(new[k as int] == made@);
            assert(before + new.take(k + 1) =~= (before + new.take(k as int)).push(made@));
            k += 1;
        }
        assert(before + new.take(k as int) =~= before + new);
        pi += 1;
    }
    r
}

} // verus!
