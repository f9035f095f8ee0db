//! Voice memos that become notes: what each note quotes, and how it is answered.
//!
//! Nothing but an answer with a note in it says that a memo was filed: the
//! recording is on one phone and nowhere else until then.

pub mod queue;

use vstd::prelude::*;
use crate::api::notes::queue::{Failed, Filed, FiledView, Outcome};
use crate::api::session::or_empty;
use crate::book::{chapter_views, shown_title, Chapter, ChapterView, ChunkView};
use crate::cache::{safe_key, safe_key_of};
use crate::chars::{cat, chars_of, decimal, decimal_text, found_in, join, join_chars, opt_text, spelled, stands_in, text_of, texts, trim_chars, trim_of};
use crate::paths::{file_name, name_of};
use crate::state::{Session, SessionView};
use crate::stt::Transcript;

verus! {

/// A memo as it arrives.
#[derive(Debug, Clone, PartialEq, Eq)]
pub struct NoteBody {
    /// What was recorded, in base 64.
    pub audio: String,
    pub mime: Option<String>,
    /// Where it was recorded. Without it, where the loaded book is being read.
    pub chapter: Option<usize>,
    pub chunk: Option<usize>,
    /// The book it was recorded against. Without one it is the loaded book.
    pub book: Option<String>,
    /// What it is known by, so that sending it twice files it once.
    pub id: Option<String>,
}

/// The answer that says a memo was filed.
#[derive(Debug, Clone, PartialEq, Eq)]
pub struct NoteResult {
    pub ok: bool,
    /// The file name of the note.
    pub file: String,
    pub text: String,
    pub language: String,
}

// ------------------------------------------------------------------- the recording

/// The digit of base 64 for `d`.
pub open spec fn base64_digit(d: int) -> char {
    if d < 26 {
        (0x41 + d) as char
    } else if d < 52 {
        (0x61 + d - 26) as char
    } else if d < 62 {
        (0x30 + d - 52) as char
    } else if d == 62 {
        '+'
    } else {
        '/'
    }
}

/// Bytes in base 64: four digits for every three bytes, and `=` for what the
/// last digits lack.
pub open spec fn base64_of(b: Seq<u8>) -> Seq<char>
    decreases b.len(),
{
    if b.len() == 0 {
        Seq::empty()
    } else {
        let x = b[0] as int;
        let y = if b.len() > 1 {
            b[1] as int
        } else {
            0
        };
        let z = if b.len() > 2 {
            b[2] as int
        } else {
            0
        };
        let four = seq![
            base64_digit(x / 4),
            base64_digit(x % 4 * 16 + y / 16),
            if b.len() > 1 {
                base64_digit(y % 16 * 4 + z / 64)
            } else {
                '='
            },
            if b.len() > 2 {
                base64_digit(z % 64)
            } else {
                '='
            },
        ];
        if b.len() > 3 {
            four + base64_of(b.skip(3))
        } else {
            four
        }
    }
}

/// Read base 64, by `base64::engine::general_purpose::STANDARD`'s `decode`. It
/// takes a text that some bytes are written as, and gives those bytes; any other
/// text, one with stray bits or without its padding among them, it refuses.
#[verifier::external_body]
pub(crate) fn base64_decode(s: &str) -> (r: Option<Vec<u8>>)
    ensures
        match r {
            Some(b) => base64_of(b@) == s@,
            None => forall|b: Seq<u8>| #[trigger] base64_of(b) != s@,
        },
{
    base64::Engine::decode(&base64::engine::general_purpose::STANDARD, s).ok()
}

/// What was recorded, or why there is nothing.
pub fn recording(body: &NoteBody) -> (r: Result<Vec<u8>, Failed>)
    ensures
        match r {
            Ok(b) => b@.len() > 0 && base64_of(b@) == body.audio@,
            Err(e) => {
                &&& e.status == 400
                &&& e.message@ == "no audio"@
                &&& forall|b: Seq<u8>|
                    b.len() > 0 ==> #[trigger] base64_of(b) != body.audio@
            },
        },
{
    match base64_decode(body.audio.as_str()) {
        Some(b) => {
            if b.len() == 0 {
                proof {
                    assert(body.audio@.len() == 0);
                    assert forall|c: Seq<u8>| c.len() > 0 implies #[trigger] base64_of(c)
                        != body.audio@ by {
                        assert(base64_of(c).len() >= 4);
                    }
                }
                return Err(Failed::new(400, "no audio"));
            }
            Ok(b)
        },
        None => Err(Failed::new(400, "no audio")),
    }
}

/// The name that a recording is kept under, `stamp` being when it arrived.
pub fn recording_name(stamp: &str, mime: Option<&str>) -> (r: String)
    ensures
        r@ == stamp@ + if mime is Some && found_in(mime.unwrap()@, "webm"@) {
            ".webm"@
        } else {
            ".ogg"@
        },
{
    let webm = match mime {
        Some(m) => stands_in(&chars_of(m), &chars_of("webm")),
        None => false,
    };
    if webm {
        cat(stamp, ".webm")
    } else {
        cat(stamp, ".ogg")
    }
}

// --------------------------------------------------------------------- the passage

/// What a memo was recorded at.
#[derive(Debug, Clone, PartialEq, Eq)]
pub struct Passage {
    /// The title of the book, and the name of its file.
    pub title: String,
    pub name: String,
    pub ctitle: String,
    /// The words around it.
    pub ctx: String,
    /// How many chunks the chapter has.
    pub n: usize,
}

/// What a [`Passage`] says.
#[verifier::ext_equal]
pub struct PassageView {
    pub title: Seq<char>,
    pub name: Seq<char>,
    pub ctitle: Seq<char>,
    pub ctx: Seq<char>,
    pub n: usize,
}

impl View for Passage {
    type V = PassageView;

    open spec fn view(&self) -> PassageView {
        PassageView {
            title: self.title@,
            name: self.name@,
            ctitle: self.ctitle@,
            ctx: self.ctx@,
            n: self.n,
        }
    }
}

/// Where the words around chunk `i` begin: at the one before it.
pub open spec fn ctx_from(i: int, n: int) -> int {
    let a = if i > 0 {
        i - 1
    } else {
        0
    };
    if a < n {
        a
    } else {
        n
    }
}

/// Where they end: behind the one after it.
pub open spec fn ctx_to(i: int, n: int) -> int {
    let a = ctx_from(i, n) + if i == 0 {
        2int
    } else {
        3
    };
    if a < n {
        a
    } else {
        n
    }
}

/// The pieces from `a` up to `b` that say something.
pub open spec fn spoken(pieces: Seq<(Seq<char>, bool)>, a: int, b: int) -> Seq<Seq<char>>
    decreases b - a,
{
    if b <= a {
        Seq::empty()
    } else if pieces[b - 1].1 {
        spoken(pieces, a, b - 1).push(pieces[b - 1].0)
    } else {
        spoken(pieces, a, b - 1)
    }
}

/// The words around chunk `i`.
pub open spec fn context_of(pieces: Seq<(Seq<char>, bool)>, i: int) -> Seq<char> {
    let n = pieces.len() as int;
    join(spoken(pieces, ctx_from(i, n), ctx_to(i, n)), " "@)
}

/// What pieces of text hold.
pub open spec fn pieces_of(v: Seq<(String, bool)>) -> Seq<(Seq<char>, bool)> {
    v.map_values(|p: (String, bool)| (p.0@, p.1))
}

fn context(pieces: &Vec<(String, bool)>, i: usize) -> (r: String)
    ensures
        r@ == context_of(pieces_of(pieces@), i as int),
{
    let ghost pv = pieces_of(pieces@);
    let n: usize = pieces.len();
    let before: usize = if i > 0 {
        i - 1
    } else {
        0
    };
    let from: usize = if before < n {
        before
    } else {
        n
    };
    let width: usize = if i == 0 {
        2
    } else {
        3
    };
    let to: usize = if n - from < width {
        n
    } else {
        from + width
    };
    let mut said: Vec<Vec<char>> = Vec::new();
    let mut k: usize = from;
    assert(spelled(said@) =~= Seq::<Seq<char>>::empty());
    while k < to
        invariant
            from <= k <= to <= pieces@.len(),
            pv == pieces_of(pieces@),
            spelled(said@) == spoken(pv, from as int, k as int),
        decreases to - k,
    {
        let p = &pieces[k];
        assert(pv[k as int] == (p.0@, p.1));
        if p.1 {
            let ghost before = spelled(said@);
            let t = chars_of(p.0.as_str());
            said.push(t);
            assert(spelled(said@) =~= before.push(t@));
        }
        k += 1;
    }
    text_of(&join_chars(&said, &chars_of(" ")))
}

/// The chunks of a chapter of the loaded book: a silent one says nothing.
pub open spec fn chunk_pieces(chunks: Seq<ChunkView>) -> Seq<(Seq<char>, bool)> {
    chunks.map_values(|c: ChunkView| (c.text, !c.silent))
}

/// The chunks of a chapter as it is written down: a blank one says nothing.
pub open spec fn text_pieces(chunks: Seq<Seq<char>>) -> Seq<(Seq<char>, bool)> {
    chunks.map_values(|t: Seq<char>| (t, trim_of(t).len() > 0))
}

/// The chunks of a chapter, none where there is no such chapter.
pub open spec fn chunks_at(plan: Seq<ChapterView>, ci: int) -> Seq<ChunkView> {
    if 0 <= ci < plan.len() {
        plan[ci].chunks
    } else {
        Seq::empty()
    }
}

/// What a memo was recorded at, in the loaded book.
pub open spec fn loaded_passage(s: SessionView, ci: int, i: int) -> PassageView {
    let chunks = chunks_at(s.plan, ci);
    PassageView {
        title: or_empty(s.title),
        name: or_empty(
            name_of(
                match s.book {
                    Some(b) => b,
                    None => Seq::empty(),
                },
            ),
        ),
        ctitle: if 0 <= ci < s.plan.len() {
            shown_title(s.plan[ci])
        } else {
            "Section "@ + decimal((ci + 1) as nat)
        },
        ctx: context_of(chunk_pieces(chunks), i),
        n: chunks.len() as usize,
    }
}

fn copy_chunks(plan: &Vec<Chapter>, ci: usize) -> (r: Vec<(String, bool)>)
    ensures
        pieces_of(r@) == chunk_pieces(chunks_at(chapter_views(plan@), ci as int)),
{
    let ghost pv = chapter_views(plan@);
    let mut r: Vec<(String, bool)> = Vec::new();
    if ci >= plan.len() {
        assert(pieces_of(r@) =~= chunk_pieces(chunks_at(pv, ci as int)));
        return r;
    }
    let c = &plan[ci];
    let ghost want = chunk_pieces(chunks_at(pv, ci as int));
    assert(pv[ci as int] == c@);
    let mut k: usize = 0;
    assert(pieces_of(r@) =~= want.take(0));
    while k < c.chunks.len()
        invariant
            k <= c.chunks@.len(),
            want == chunk_pieces(c@.chunks),
            pieces_of(r@) == want.take(k as int),
        decreases c.chunks@.len() - k,
    {
        let x = &c.chunks[k];
        assert(c@.chunks[k as int] == x@);
        let ghost before = pieces_of(r@);
        r.push((x.text.clone(), !x.silent));
        assert(pieces_of(r@) =~= before.push((x.text@, !x.silent)));
        assert(want.take(k + 1) =~= want.take(k as int).push(want[k as int]));
        k += 1;
    }
    assert(want.take(k as int) =~= want);
    r
}

/// The book whose words a note quotes.
#[derive(Debug, PartialEq, Eq)]
pub enum Quotes {
    /// This one, as it is written down.
    Named(String),
    /// The loaded one.
    Loaded,
}

/// Where a memo was recorded, and of which book. A book that is named and not
/// loaded is quoted from what is written down of it, so that whatever is loaded
/// is left alone.
pub fn recorded_at(body: &NoteBody, s: &Session) -> (r: (Quotes, usize, usize))
    ensures
        r.1 == match body.chapter {
            Some(c) => c,
            None => s@.chapter,
        },
        r.2 == match body.chunk {
            Some(i) => i,
            None => s@.playhead,
        },
        ({
            let asked = match body.book {
                Some(b) => safe_key_of(b@),
                None => Seq::empty(),
            };
            match r.0 {
                Quotes::Named(k) => asked.len() > 0 && s@.key() != Some(asked) && k@ == asked,
                Quotes::Loaded => asked.len() == 0 || s@.key() == Some(asked),
            }
        }),
{
    let ci: usize = match body.chapter {
        Some(c) => c,
        None => s.chapter,
    };
    let i: usize = match body.chunk {
        Some(i) => i,
        None => s.playhead,
    };
    if let Some(b) = &body.book {
        let asked = safe_key(b.as_str());
        if !asked.as_str().is_empty() && !s.is_loaded(asked.as_str()) {
            return (Quotes::Named(asked), ci, i);
        }
    }
    (Quotes::Loaded, ci, i)
}

fn text_or_none(o: &Option<String>) -> (r: String)
    ensures
        r@ == or_empty(opt_text(*o)),
{
    match o {
        Some(t) => t.clone(),
        None => {
            let none = String::new();
            assert(none@ =~= Seq::<char>::empty());
            none
        },
    }
}

/// What a memo was recorded at, in the loaded book.
pub fn passage_loaded(s: &Session, ci: usize, i: usize) -> (r: Result<Passage, Failed>)
    requires
        ci < usize::MAX,
        forall|k: int| 0 <= k < s.plan@.len() ==> (#[trigger] s.plan@[k]).index < u64::MAX,
    ensures
        match r {
            Ok(p) => s@.plan.len() > 0 && p@ == loaded_passage(s@, ci as int, i as int),
            Err(e) => s@.plan.len() == 0 && e.status == 400 && e.message@ == "no book loaded"@,
        },
{
    if s.plan.len() == 0 {
        return Err(Failed::new(400, "no book loaded"));
    }
    let ghost pv = s@.plan;
    let pieces = copy_chunks(&s.plan, ci);
    assert(pieces@.len() == pieces_of(pieces@).len());
    let ctitle = if ci < s.plan.len() {
        assert(pv[ci as int] == s.plan@[ci as int]@);
        s.plan[ci].display_title()
    } else {
        cat("Section ", decimal_text((ci + 1) as u64).as_str())
    };
    let book = text_or_none(&s.book);
    let name = text_or_none(&file_name(book.as_str()));
    let p = Passage {
        title: text_or_none(&s.title),
        name,
        ctitle,
        ctx: context(&pieces, i),
        n: pieces.len(),
    };
    assert(p@ =~= loaded_passage(s@, ci as int, i as int));
    Ok(p)
}

/// A chapter as it is written down: the title of its book, the name of its file,
/// the chapter's title, and its chunks.
#[derive(Debug)]
pub struct Written {
    pub title: String,
    pub name: String,
    pub ctitle: String,
    pub chunks: Vec<String>,
}

/// What a memo was recorded at, in a book that is named. One that nothing is
/// written down of is refused: a note must not quote another passage.
pub fn passage_named(key: &str, written: Option<&Written>, i: usize) -> (r: Result<Passage, Failed>)
    ensures
        match r {
            Ok(p) => written matches Some(w) && p@ == (PassageView {
                title: w.title@,
                name: w.name@,
                ctitle: w.ctitle@,
                ctx: context_of(text_pieces(texts(w.chunks@)), i as int),
                n: w.chunks@.len() as usize,
            }),
            Err(e) => written is None && e.status == 404 && e.message@ == "no text for book '"@
                + key@ + "' on this server"@,
        },
{
    let w = match written {
        Some(w) => w,
        None => {
            let m = cat(cat("no text for book '", key).as_str(), "' on this server");
            return Err(Failed::new(404, m.as_str()));
        },
    };
    let ghost want = text_pieces(texts(w.chunks@));
    let mut pieces: Vec<(String, bool)> = Vec::new();
    let mut k: usize = 0;
    assert(pieces_of(pieces@) =~= want.take(0));
    while k < w.chunks.len()
        invariant
            k <= w.chunks@.len(),
            want == text_pieces(texts(w.chunks@)),
            pieces_of(pieces@) == want.take(k as int),
        decreases w.chunks@.len() - k,
    {
        let t = &w.chunks[k];
        assert(texts(w.chunks@)[k as int] == t@);
        let says = trim_chars(&chars_of(t.as_str())).len() > 0;
        let ghost before = pieces_of(pieces@);
        pieces.push((t.clone(), says));
        assert(pieces_of(pieces@) =~= before.push((t@, says)));
        assert(want.take(k + 1) =~= want.take(k as int).push(want[k as int]));
        k += 1;
    }
    assert(want.take(k as int) =~= want);
    let p = Passage {
        title: w.title.clone(),
        name: w.name.clone(),
        ctitle: w.ctitle.clone(),
        ctx: context(&pieces, i),
        n: w.chunks.len(),
    };
    assert(p@ =~= (PassageView {
        title: w.title@,
        name: w.name@,
        ctitle: w.ctitle@,
        ctx: context_of(text_pieces(texts(w.chunks@)), i as int),
        n: w.chunks@.len() as usize,
    }));
    Ok(p)
}

/// The words around a chunk come from it and its neighbours and from nowhere
/// else.
pub proof fn law_a_note_quotes_its_neighbours(i: int, n: int, k: int)
    requires
        0 <= i,
        0 <= n,
    ensures
        0 <= ctx_from(i, n) <= ctx_to(i, n) <= n,
        ctx_from(i, n) <= k < ctx_to(i, n) ==> i - 1 <= k <= i + 1,
        i < n ==> ctx_from(i, n) <= i < ctx_to(i, n),
        0 < i <= n ==> ctx_from(i, n) == i - 1,
        i + 1 < n ==> ctx_to(i, n) == i + 2,
{
}

// ------------------------------------------------------------------ transcribing it

/// The parts of a prompt that there are.
pub open spec fn prompt_parts(a: Seq<char>, b: Seq<char>, c: Seq<char>) -> Seq<Seq<char>> {
    crate::api::health::if_so(a.len() > 0, a) + crate::api::health::if_so(b.len() > 0, b)
        + crate::api::health::if_so(c.len() > 0, c)
}

/// What the transcriber is told beforehand: the standing words, the book and the
/// chapter, as far as there are any.
pub fn prompt(standing: &str, title: &str, ctitle: &str) -> (r: String)
    ensures
        r@ == join(prompt_parts(standing@, title@, ctitle@), ", "@),
{
    let mut parts: Vec<Vec<char>> = Vec::new();
    assert(spelled(parts@) =~= Seq::<Seq<char>>::empty());
    let ghost none = spelled(parts@);
    if !standing.is_empty() {
        parts.push(chars_of(standing));
    }
    let ghost one = spelled(parts@);
    assert(one =~= none + crate::api::health::if_so(standing@.len() > 0, standing@));
    if !title.is_empty() {
        parts.push(chars_of(title));
    }
    let ghost two = spelled(parts@);
    assert(two =~= one + crate::api::health::if_so(title@.len() > 0, title@));
    if !ctitle.is_empty() {
        parts.push(chars_of(ctitle));
    }
    assert(spelled(parts@) =~= two + crate::api::health::if_so(ctitle@.len() > 0, ctitle@));
    assert(spelled(parts@) =~= prompt_parts(standing@, title@, ctitle@));
    text_of(&join_chars(&parts, &chars_of(", ")))
}

/// A failure that is answered with `status`.
pub fn failed(status: u16, message: &str) -> (r: Failed)
    ensures
        r.status == status,
        r.message@ == message@,
{
    Failed::new(status, message)
}

/// What was said, or why there is no note: a transcriber that failed, or one that
/// heard nothing.
pub fn heard(t: Result<Transcript, String>) -> (r: Result<Transcript, Failed>)
    ensures
        match t {
            Ok(t) => if t.text@.len() > 0 {
                r == Ok::<Transcript, Failed>(t)
            } else {
                r matches Err(e) && e.status == 400 && e.message@
                    == "heard nothing - try again closer to the mic"@
            },
            Err(why) => r matches Err(e) && e.status == 500 && e.message@
                == "transcription failed: "@ + why@,
        },
{
    match t {
        Ok(t) => {
            if t.text.as_str().is_empty() {
                return Err(failed(400, "heard nothing - try again closer to the mic"));
            }
            Ok(t)
        },
        Err(why) => Err(failed(500, cat("transcription failed: ", why.as_str()).as_str())),
    }
}

/// What a note that was written, or could not be, comes to.
pub fn filing(t: Transcript, written: Result<String, String>) -> (r: Outcome)
    ensures
        match written {
            Ok(file) => r matches Ok(f) && f@ == (FiledView {
                file: file@,
                text: t.text@,
                language: t.language@,
            }),
            Err(why) => r matches Err(e) && e.status == 500 && e.message@
                == "could not write note: "@ + why@,
        },
{
    match written {
        Ok(file) => Ok(Filed { file, text: t.text, language: t.language }),
        Err(why) => Err(failed(500, cat("could not write note: ", why.as_str()).as_str())),
    }
}

/// What the stand-in for the transcriber hears: what was recorded, as text.
pub fn fake_transcript(recorded: &str) -> (r: Transcript)
    ensures
        r.text@ == trim_of(recorded@),
        r.language@ == "en"@,
{
    Transcript {
        text: text_of(&trim_chars(&chars_of(recorded))),
        language: "en".to_owned(),
    }
}

// ----------------------------------------------------------------------- answering

/// The answer to a memo.
#[derive(Debug, PartialEq, Eq)]
pub enum Answer {
    /// It was filed; the phone may forget it.
    Filed(NoteResult),
    /// It was not.
    Refused(u16, String),
}

/// How a memo is answered. A note that is replayed is answered as it was the
/// first time.
pub fn respond(out: Outcome) -> (r: Answer)
    ensures
        match out {
            Ok(f) => r matches Answer::Filed(n) && n.ok && n.file@ == f.file@ && n.text@
                == f.text@ && n.language@ == f.language@,
            Err(e) => r matches Answer::Refused(status, m) && m@ == e.message@ && status
                == if 100 <= e.status <= 999 {
                e.status
            } else {
                500
            },
        },
{
    match out {
        Ok(f) => Answer::Filed(
            NoteResult { ok: true, file: f.file, text: f.text, language: f.language },
        ),
        Err(e) => {
            let status: u16 = if 100 <= e.status && e.status <= 999 {
                e.status
            } else {
                500
            };
            Answer::Refused(status, e.message)
        },
    }
}

} // verus!
