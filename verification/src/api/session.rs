//! Loading a book, opening a chapter, and where it is being read.

use std::collections::BTreeSet;
use std::sync::Arc;
use vstd::prelude::*;
use crate::api::device::{Device, DeviceView};
use crate::api::ApiError;
use crate::book::{chapter_views, shown_title, Chapter, ChapterView};
use crate::cache::{book_key, key_of, safe_key, safe_key_of};
use crate::chars::{cat, chars_of, opt_text, same_text, text_of, texts, trim_chars, trim_of};
use crate::order::sorted;
use crate::paths::{file_name, file_stem, join_path, joined, name_of, path_before, path_le, stem_of};
use crate::rows::{put_where, row_where, sort_rows, views};
use crate::state::{Gate, Session, SessionView};
use crate::store::{as_i64, book_again, indexed_upto, is_book, is_device, is_further, is_furthest, is_position, seen, signed, BookRow, BookRowView, ChapterIndexRow, FurthestEntryView, FurthestRow, PositionEntryView, PositionRow, PositionRowView, Store, StoreView};

verus! {

/// Which file is to be loaded, and in chunks of which size.
#[derive(Debug, Clone, PartialEq, Eq)]
pub struct LoadBody {
    pub path: String,
    pub max_chars: Option<usize>,
}

/// One chapter's words, and the paragraph each chunk is of.
#[derive(Debug, Clone, PartialEq, Eq)]
pub struct ChapterText {
    pub i: usize,
    pub title: String,
    pub chunks: Vec<String>,
    pub paras: Vec<usize>,
}

/// Which chapter is opened, at which chunk, and of which book.
#[derive(Debug, Clone, PartialEq, Eq)]
pub struct OpenBody {
    pub chapter: usize,
    pub chunk: usize,
    pub book: Option<String>,
}

/// Where the playhead is, and in which book.
#[derive(Debug, Clone, PartialEq, Eq)]
pub struct PlayheadBody {
    pub chunk: usize,
    pub book: Option<String>,
}

/// A position in a book that is named.
#[derive(Debug, Clone, PartialEq, Eq)]
pub struct PositionBody {
    pub book: String,
    pub chapter: Option<i64>,
    pub chunk: Option<i64>,
    pub chapter_title: Option<String>,
    pub chunks_total: Option<i64>,
    pub chapters_total: Option<i64>,
}

/// What a pause comes to.
#[derive(Debug, Clone, Copy, PartialEq, Eq, Structural)]
pub struct PauseResult {
    pub ok: bool,
    /// Whether the renderer goes on.
    pub still_rendering: bool,
}

/// Whether the renderer is to run. It is where nothing else is said.
#[derive(Debug, Clone, Copy, PartialEq, Eq, Structural)]
pub struct RendererBody {
    pub on: bool,
}

/// Whether the renderer runs.
#[derive(Debug, Clone, Copy, PartialEq, Eq, Structural)]
pub struct RendererResult {
    pub ok: bool,
    pub rendering: bool,
}

/// What a body says that does not say whether the renderer is to run.
pub fn yes() -> (r: bool)
    ensures
        r,
{
    true
}

/// `o`, or nothing at all.
pub open spec fn or_empty(o: Option<Seq<char>>) -> Seq<char> {
    match o {
        Some(s) => s,
        None => Seq::empty(),
    }
}

fn unwrap_text(o: Option<String>) -> (r: String)
    ensures
        r@ == or_empty(opt_text(o)),
{
    match o {
        Some(s) => s,
        None => {
            let none = String::new();
            assert(none@ =~= Seq::<char>::empty());
            none
        },
    }
}

// ---------------------------------------------------------------------- the books

/// A book that can be loaded.
#[derive(Debug, Clone, PartialEq, Eq)]
pub struct BookFile {
    pub path: String,
    pub name: String,
}

/// What a [`BookFile`] says.
#[verifier::ext_equal]
pub struct BookFileView {
    pub path: Seq<char>,
    pub name: Seq<char>,
}

impl View for BookFile {
    type V = BookFileView;

    open spec fn view(&self) -> BookFileView {
        BookFileView { path: self.path@, name: self.name@ }
    }
}

/// The order of paths.
pub open spec fn by_path() -> spec_fn(Seq<char>, Seq<char>) -> bool {
    |a: Seq<char>, b: Seq<char>| path_le(a, b)
}

fn comes_before(a: &String, b: &String) -> (r: bool)
    ensures
        r == path_le(a@, b@),
{
    path_before(a.as_str(), b.as_str())
}

/// Whether a name is listed.
pub open spec fn listed_name(s: Seq<BookFileView>, name: Seq<char>) -> bool {
    exists|i: int| 0 <= i < s.len() && (#[trigger] s[i]).name == name
}

/// A list with the first `n` of `found` behind it, as far as their names are not
/// on it yet.
pub open spec fn listed_upto(s: Seq<BookFileView>, found: Seq<Seq<char>>, n: int) -> Seq<BookFileView>
    decreases n,
{
    if n <= 0 {
        s
    } else {
        let rest = listed_upto(s, found, n - 1);
        match name_of(found[n - 1]) {
            Some(name) if !listed_name(rest, name) => rest.push(
                BookFileView { path: found[n - 1], name },
            ),
            _ => rest,
        }
    }
}

/// The books of the first `n` directories, each directory's in the order of their
/// paths, and no file name twice.
pub open spec fn books_upto(dirs: Seq<Vec<String>>, n: int) -> Seq<BookFileView>
    decreases n,
{
    if n <= 0 {
        Seq::empty()
    } else {
        let found = sorted(views(dirs[n - 1]@), by_path());
        listed_upto(books_upto(dirs, n - 1), found, found.len() as int)
    }
}

fn is_listed(out: &Vec<BookFile>, name: &str) -> (r: bool)
    ensures
        r == listed_name(views(out@), name@),
{
    let mut i: usize = 0;
    while i < out.len()
        invariant
            i <= out@.len(),
            forall|k: int| 0 <= k < i ==> (#[trigger] views(out@)[k]).name != name@,
        decreases out@.len() - i,
    {
        assert(views(out@)[i as int] == out@[i as int]@);
        if same_text(out[i].name.as_str(), name) {
            assert(views(out@)[i as int].name == name@);
            return true;
        }
        i += 1;
    }
    false
}

fn copy_paths(v: &Vec<String>) -> (r: Vec<String>)
    ensures
        views(r@) == views(v@),
{
    let mut r: Vec<String> = Vec::new();
    let mut i: usize = 0;
    assert(views(r@) =~= views(v@).take(0));
    while i < v.len()
        invariant
            i <= v@.len(),
            views(r@) == views(v@).take(i as int),
        decreases v@.len() - i,
    {
        let ghost before = views(r@);
        r.push(v[i].clone());
        assert(views(r@) =~= before.push(v@[i as int]@));
        assert(views(v@).take(i + 1) =~= views(v@).take(i as int).push(v@[i as int]@));
        i += 1;
    }
    assert(views(v@).take(i as int) =~= views(v@));
    r
}

/// The books that can be loaded, `dirs` being what was found in each directory.
pub fn books(dirs: &Vec<Vec<String>>) -> (r: Vec<BookFile>)
    ensures
        views(r@) == books_upto(dirs@, dirs@.len() as int),
{
    let mut out: Vec<BookFile> = Vec::new();
    let mut d: usize = 0;
    assert(views(out@) =~= Seq::<BookFileView>::empty());
    while d < dirs.len()
        invariant
            d <= dirs@.len(),
            views(out@) == books_upto(dirs@, d as int),
        decreases dirs@.len() - d,
    {
        let ghost before = views(out@);
        let found = sort_rows(copy_paths(&dirs[d]), comes_before, Ghost(by_path()));
        let ghost fv = views(found@);
        let mut i: usize = 0;
        while i < found.len()
            invariant
                i <= found@.len(),
                fv == views(found@),
                views(out@) == listed_upto(before, fv, i as int),
            decreases found@.len() - i,
        {
            let f = &found[i];
            assert(fv[i as int] == f@);
            if let Some(name) = file_name(f.as_str()) {
                if !is_listed(&out, name.as_str()) {
                    let ghost was = views(out@);
                    let one = BookFile { path: f.clone(), name };
                    out.push(one);
                    assert(views(out@) =~= was.push(one@));
                }
            }
            i += 1;
        }
        d += 1;
    }
    out
}

// --------------------------------------------------------------------- the refusal

/// Whether a request names a book that is not the loaded one.
pub open spec fn is_wrong_book(s: SessionView, asked: Option<&str>) -> bool {
    match asked {
        Some(a) => safe_key_of(a@).len() > 0 && s.key() != Some(safe_key_of(a@)),
        None => false,
    }
}

/// Refuse what is meant for a book that is not loaded. Acting on another book
/// would be worse than not acting.
pub fn wrong_book(s: &Session, asked: Option<&str>) -> (r: Option<ApiError>)
    ensures
        match r {
            Some(e) => is_wrong_book(s@, asked) && e.error@ == "the session holds "@
                + match s@.key() {
                Some(k) => k,
                None => "no book"@,
            } + ", not "@ + safe_key_of(asked.unwrap()@),
            None => !is_wrong_book(s@, asked),
        },
{
    let asked = match asked {
        Some(a) => safe_key(a),
        None => {
            return None;
        },
    };
    if asked.as_str().is_empty() || s.is_loaded(asked.as_str()) {
        return None;
    }
    let have = match s.key() {
        Some(k) => k,
        None => "no book".to_owned(),
    };
    let a = cat("the session holds ", have.as_str());
    let b = cat(a.as_str(), ", not ");
    Some(ApiError { error: cat(b.as_str(), asked.as_str()) })
}

// ------------------------------------------------------------------------ loading

/// Where a plan comes from: the one that was kept, or the file itself.
pub fn plan_for<F: FnOnce() -> Result<Vec<Chapter>, String>>(kept: Option<Vec<Chapter>>, parse: F) -> (r: Result<(Arc<Vec<Chapter>>, bool), ApiError>)
    requires
        call_requires(parse, ()),
    ensures
        match kept {
            Some(p) => r matches Ok((plan, reused)) && plan@ == p@ && reused,
            None => exists|o: Result<Vec<Chapter>, String>| #[trigger]
                call_ensures(parse, (), o) && match o {
                    Ok(p) => r matches Ok((plan, reused)) && plan@ == p@ && !reused,
                    Err(why) => r matches Err(e) && e.error@ == why@,
                },
        },
{
    match kept {
        Some(p) => Ok((Arc::new(p), true)),
        None => {
            let o = parse();
            match o {
                Ok(p) => Ok((Arc::new(p), false)),
                Err(why) => Err(ApiError { error: why }),
            }
        },
    }
}

/// A session that has just been given a book: at its beginning, with nothing
/// queued.
pub open spec fn loaded_of(s: SessionView, path: Seq<char>, plan: Seq<ChapterView>) -> SessionView {
    SessionView {
        book: Some(path),
        title: Some(or_empty(stem_of(path))),
        plan,
        chapter: 0,
        render_idx: 0,
        playhead: 0,
        status: "idle"@,
        error: None,
        queue: Seq::empty(),
        build_want: Set::empty(),
        build_error: None,
        pack_queue: Seq::empty(),
        ..s
    }
}

/// What is said of a book that was loaded.
#[derive(Debug)]
pub struct LoadedBook {
    pub title: String,
    pub key: String,
    /// The name of its file, by which positions are kept.
    pub name: String,
}

impl Session {
    /// Make a book the session's.
    pub fn load(&mut self, path: &str, plan: Arc<Vec<Chapter>>) -> (r: LoadedBook)
        ensures
            final(self)@ == loaded_of(old(self)@, path@, chapter_views(plan@)),
            r.title@ == or_empty(stem_of(path@)),
            r.name@ == or_empty(name_of(path@)),
            r.key@ == key_of(path@),
    {
        let title = unwrap_text(file_stem(path));
        let name = unwrap_text(file_name(path));
        self.book = Some(path.to_owned());
        self.title = Some(title.clone());
        self.plan = plan;
        self.chapter = 0;
        self.render_idx = 0;
        self.playhead = 0;
        self.status = "idle".to_owned();
        self.error = None;
        self.queue = Vec::new();
        self.build_want = BTreeSet::new();
        self.build_error = None;
        self.pack_queue = Vec::new();
        assert(self@ =~= loaded_of(old(self)@, path@, chapter_views(plan@)));
        LoadedBook { title, key: book_key(path), name }
    }
}

/// What is written after a load: the plan where it is new and the file could be
/// looked at, and the text where it is new or not all of it is there.
pub fn after_load(reused: bool, stamped: bool, index: bool, index_gz: bool) -> (r: (bool, bool))
    ensures
        r == (!reused && stamped, !reused || !index || !index_gz),
{
    (!reused && stamped, !reused || !index || !index_gz)
}

/// The row of a book that was loaded.
pub open spec fn loaded_row(key: Seq<char>, name: Seq<char>, path: Seq<char>, title: Seq<char>, chapters: usize, now_ms: i64) -> BookRowView {
    BookRowView {
        key,
        name,
        path,
        title,
        chapters,
        last_open_ms: Some(now_ms),
        scanned_ms: Some(now_ms),
    }
}

/// A store in which a book was registered as loaded now.
pub open spec fn registered(b: StoreView, row: BookRowView, rows: Seq<crate::store::ChapterIndexRowView>) -> StoreView {
    let put = put_where(
        b.books,
        is_book(row.key),
        book_again(row_where(b.books, is_book(row.key)), row),
    );
    let books = match row_where(put, is_book(row.key)) {
        Some(now) => put_where(
            put,
            is_book(row.key),
            BookRowView { last_open_ms: row.last_open_ms, ..now },
        ),
        None => put,
    };
    StoreView { books, index: indexed_upto(b.index, row.key, rows, rows.len()), ..b }
}

/// Register a book that was loaded, and what was found of its chapters.
pub fn register_loaded(store: &mut Store, l: &LoadedBook, path: &str, chapters: usize, rows: &Vec<ChapterIndexRow>, now_ms: i64)
    ensures
        final(store)@ == registered(
            old(store)@,
            loaded_row(l.key@, l.name@, path@, l.title@, chapters, now_ms),
            views(rows@),
        ),
{
    let row = BookRow {
        key: l.key.clone(),
        name: l.name.clone(),
        path: path.to_owned(),
        title: l.title.clone(),
        chapters,
        last_open_ms: Some(now_ms),
        scanned_ms: Some(now_ms),
    };
    store.put_book(&row);
    store.touch_book_open(l.key.as_str(), now_ms);
    store.put_chapter_index(l.key.as_str(), rows);
}

/// The size of a plan's chunks: the one asked for, or the usual one.
pub fn chunk_size(body: &LoadBody) -> (r: usize)
    ensures
        r == match body.max_chars {
            Some(n) => n,
            None => crate::book::DEFAULT_MAX_CHARS,
        },
{
    match body.max_chars {
        Some(n) => n,
        None => crate::book::DEFAULT_MAX_CHARS,
    }
}

// ------------------------------------------------------------------ one chapter's text

/// What a [`ChapterText`] holds.
#[verifier::ext_equal]
pub struct ChapterTextView {
    pub i: usize,
    pub title: Seq<char>,
    pub chunks: Seq<Seq<char>>,
    pub paras: Seq<usize>,
}

impl View for ChapterText {
    type V = ChapterTextView;

    open spec fn view(&self) -> ChapterTextView {
        ChapterTextView {
            i: self.i,
            title: self.title@,
            chunks: texts(self.chunks@),
            paras: self.paras@,
        }
    }
}

/// The words of a chapter of the loaded book.
pub open spec fn words_of(i: usize, c: ChapterView) -> ChapterTextView {
    ChapterTextView {
        i,
        title: c.title,
        chunks: c.chunks.map_values(|k: crate::book::ChunkView| k.text),
        paras: c.chunks.map_values(|k: crate::book::ChunkView| k.para as usize),
    }
}

/// Where the words of a chapter come from.
#[derive(Debug)]
pub enum Words {
    /// From the loaded book.
    Loaded(ChapterText),
    /// From what was written down of this book.
    Bundle(String),
    /// From nowhere: there is no such chapter.
    Missing,
}

fn copy_words(i: usize, c: &Chapter) -> (r: ChapterText)
    ensures
        r@ == words_of(i, c@),
{
    let ghost cv = c@;
    let mut chunks: Vec<String> = Vec::new();
    let mut paras: Vec<usize> = Vec::new();
    let mut k: usize = 0;
    while k < c.chunks.len()
        invariant
            k <= c.chunks@.len(),
            cv == c@,
            texts(chunks@) == words_of(i, cv).chunks.take(k as int),
            paras@ == words_of(i, cv).paras.take(k as int),
        decreases c.chunks@.len() - k,
    {
        let x = &c.chunks[k];
        assert(cv.chunks[k as int] == x@);
        let ghost before = texts(chunks@);
        chunks.push(x.text.clone());
        assert(texts(chunks@) =~= before.push(x.text@));
        paras.push(x.para);
        assert(words_of(i, cv).chunks.take(k + 1) =~= before.push(x.text@));
        assert(words_of(i, cv).paras.take(k + 1) =~= paras@);
        k += 1;
    }
    let r = ChapterText { i, title: c.title.clone(), chunks, paras };
    assert(r@ =~= words_of(i, cv));
    r
}

/// Where the words of a chapter come from. A book that is named and not loaded
/// needs no session.
pub fn chapter_words(s: &Session, book: Option<&str>, ci: usize) -> (r: Words)
    ensures
        ({
            let asked = match book {
                Some(b) => safe_key_of(b@),
                None => Seq::empty(),
            };
            let here = asked.len() == 0 || s@.key() == Some(asked);
            match r {
                Words::Loaded(t) => here && ci < s@.plan.len() && t@ == words_of(
                    ci,
                    s@.plan[ci as int],
                ),
                Words::Bundle(k) => asked.len() > 0 && k@ == asked && !(here && ci
                    < s@.plan.len()),
                Words::Missing => asked.len() == 0 && ci >= s@.plan.len(),
            }
        }),
{
    let asked = match book {
        Some(b) => safe_key(b),
        None => {
            let none = String::new();
            assert(none@ =~= Seq::<char>::empty());
            none
        },
    };
    let none = asked.as_str().is_empty();
    if (none || s.is_loaded(asked.as_str())) && ci < s.plan.len() {
        assert(s@.plan[ci as int] == s.plan@[ci as int]@);
        return Words::Loaded(copy_words(ci, &s.plan[ci]));
    }
    if none {
        Words::Missing
    } else {
        Words::Bundle(asked)
    }
}

// ------------------------------------------------------------------- the playhead

/// A session in which a chapter was opened.
pub open spec fn opened_of(s: SessionView, chapter: usize, chunk: usize) -> SessionView {
    SessionView { chapter, playhead: chunk, render_idx: chunk, status: "starting"@, ..s }
}

/// A session in which the playhead was reported.
pub open spec fn played_of(s: SessionView, chunk: usize) -> SessionView {
    SessionView {
        playhead: chunk,
        render_idx: if chunk > s.render_idx {
            chunk
        } else {
            s.render_idx
        },
        ..s
    }
}

impl Session {
    /// Open a chapter at a chunk. That chunk is then the first to be rendered.
    pub fn open(&mut self, body: &OpenBody)
        ensures
            final(self)@ == opened_of(old(self)@, body.chapter, body.chunk),
    {
        self.chapter = body.chapter;
        self.playhead = body.chunk;
        self.render_idx = body.chunk;
        self.status = "starting".to_owned();
        assert(self@ =~= opened_of(old(self)@, body.chapter, body.chunk));
    }

    /// Note where the playhead is. The hint follows it forward and never back.
    pub fn play(&mut self, body: &PlayheadBody)
        ensures
            final(self)@ == played_of(old(self)@, body.chunk),
    {
        self.playhead = body.chunk;
        if body.chunk > self.render_idx {
            self.render_idx = body.chunk;
        }
        assert(self@ =~= played_of(old(self)@, body.chunk));
    }

    /// Pause. The renderer goes on, unless it is not to.
    pub fn pause(&mut self, run: &mut Gate, prefetch: bool) -> (r: PauseResult)
        ensures
            final(self)@ == (SessionView { status: "paused"@, ..old(self)@ }),
            final(run).open == (old(run).open && prefetch),
            r == (PauseResult { ok: true, still_rendering: prefetch }),
    {
        if !prefetch {
            run.clear();
        }
        self.status = "paused".to_owned();
        assert(self@ =~= (SessionView { status: "paused"@, ..old(self)@ }));
        PauseResult { ok: true, still_rendering: prefetch }
    }

    /// Go on.
    pub fn resume(&mut self, run: &mut Gate)
        ensures
            final(self)@ == (SessionView { status: "rendering"@, ..old(self)@ }),
            final(run).open,
    {
        run.set();
        self.status = "rendering".to_owned();
        assert(self@ =~= (SessionView { status: "rendering"@, ..old(self)@ }));
    }
}

/// Start or stop the renderer, whatever is playing.
pub fn renderer(run: &mut Gate, body: &RendererBody) -> (r: RendererResult)
    ensures
        final(run).open == body.on,
        r == (RendererResult { ok: true, rendering: body.on }),
{
    if body.on {
        run.set();
    } else {
        run.clear();
    }
    RendererResult { ok: true, rendering: body.on }
}

/// The hint never goes back by a report of the playhead, and what was opened is
/// where the playhead is.
pub proof fn law_the_hint_follows_forward(s: SessionView, chapter: usize, chunk: usize, later: usize)
    ensures
        played_of(s, later).render_idx >= s.render_idx,
        played_of(s, later).render_idx >= later,
        played_of(s, later).chapter == s.chapter,
        opened_of(s, chapter, chunk).playhead == chunk,
        opened_of(s, chapter, chunk).chapter == chapter,
{
}

/// A chapter that is opened renders from the chunk it is opened at, whatever is
/// on the disk and whatever was asked for: if that chunk is missing, it is next.
pub proof fn law_an_opened_chunk_is_rendered_first(
    disk: crate::render::Disk,
    s: SessionView,
    chapter: usize,
    chunk: usize,
    lookahead: usize,
    span: usize,
    queued: Option<(usize, usize)>,
    elsewhere: Option<crate::render::TargetView>,
)
    requires
        s.key() is Some,
        chunk < crate::render::chunks_in(s.plan, chapter as int),
        !disk(s.key().unwrap(), chapter as int, chunk as int),
    ensures
        ({
            let t = opened_of(s, chapter, chunk);
            let at = crate::render::Place {
                chapter: t.chapter,
                playhead: t.playhead,
                hint: t.render_idx,
                lookahead,
                span,
            };
            crate::render::task_of(disk, t.key().unwrap(), t.plan, at, queued, elsewhere)
                == crate::render::TaskView::Playhead(chunk)
        }),
{
}

// ------------------------------------------------------------------- the positions

/// A position as the vault keeps it.
#[derive(Debug, Clone, PartialEq, Eq)]
pub struct Position {
    pub chapter: i64,
    pub chunk: i64,
    pub chapter_title: String,
    pub chunks_total: i64,
    pub chapters_total: i64,
    /// When, in the local time of the box.
    pub updated: String,
}

/// What a [`Position`] holds.
#[verifier::ext_equal]
pub struct PositionView {
    pub chapter: i64,
    pub chunk: i64,
    pub chapter_title: Seq<char>,
    pub chunks_total: i64,
    pub chapters_total: i64,
    pub updated: Seq<char>,
}

impl View for Position {
    type V = PositionView;

    open spec fn view(&self) -> PositionView {
        PositionView {
            chapter: self.chapter,
            chunk: self.chunk,
            chapter_title: self.chapter_title@,
            chunks_total: self.chunks_total,
            chapters_total: self.chapters_total,
            updated: self.updated@,
        }
    }
}

/// What a record of the vault can be read to say.
#[derive(Debug, Clone, PartialEq, Eq)]
pub struct Noted {
    pub chapter: Option<i64>,
    pub chunk: Option<i64>,
    pub chapter_title: Option<String>,
    pub chunks_total: Option<i64>,
    pub chapters_total: Option<i64>,
}

/// What is given, or what was noted, or 0.
pub open spec fn number_kept(given: Option<i64>, noted: Option<i64>) -> i64 {
    match given {
        Some(g) => g,
        None => match noted {
            Some(n) => n,
            None => 0,
        },
    }
}

fn keep_number(given: Option<i64>, noted: Option<i64>) -> (r: i64)
    ensures
        r == number_kept(given, noted),
{
    match given {
        Some(g) => g,
        None => match noted {
            Some(n) => n,
            None => 0,
        },
    }
}

/// What is given, or what was noted, or nothing.
pub open spec fn text_kept(given: Option<Seq<char>>, noted: Option<Seq<char>>) -> Seq<char> {
    match given {
        Some(g) => g,
        None => or_empty(noted),
    }
}

fn keep_text(given: &Option<String>, noted: &Option<String>) -> (r: String)
    ensures
        r@ == text_kept(opt_text(*given), opt_text(*noted)),
{
    match given {
        Some(g) => g.clone(),
        None => match noted {
            Some(n) => n.clone(),
            None => {
                let none = String::new();
                assert(none@ =~= Seq::<char>::empty());
                none
            },
        },
    }
}

/// The position that a request comes to, `was` being what the vault has: what is
/// not given stays.
pub open spec fn position_of(body: PositionBody, was: Noted, updated: Seq<char>) -> PositionView {
    PositionView {
        chapter: number_kept(body.chapter, was.chapter),
        chunk: number_kept(body.chunk, was.chunk),
        chapter_title: text_kept(opt_text(body.chapter_title), opt_text(was.chapter_title)),
        chunks_total: number_kept(body.chunks_total, was.chunks_total),
        chapters_total: number_kept(body.chapters_total, was.chapters_total),
        updated,
    }
}

/// The position that a request comes to, under the name of its book.
pub fn position(body: &PositionBody, was: &Noted, updated: &str) -> (r: Result<
    (String, Position),
    ApiError,
>)
    ensures
        match r {
            Ok((name, p)) => {
                &&& name@ == trim_of(body.book@)
                &&& name@.len() > 0
                &&& p@ == position_of(*body, *was, updated@)
            },
            Err(e) => trim_of(body.book@).len() == 0 && e.error@ == "book required"@,
        },
{
    let name = text_of(&trim_chars(&chars_of(body.book.as_str())));
    if name.as_str().is_empty() {
        return Err(ApiError { error: "book required".to_owned() });
    }
    let p = Position {
        chapter: keep_number(body.chapter, was.chapter),
        chunk: keep_number(body.chunk, was.chunk),
        chapter_title: keep_text(&body.chapter_title, &was.chapter_title),
        chunks_total: keep_number(body.chunks_total, was.chunks_total),
        chapters_total: keep_number(body.chapters_total, was.chapters_total),
        updated: updated.to_owned(),
    };
    assert(p@ =~= position_of(*body, *was, updated@));
    Ok((name, p))
}

/// How long a position that is only reported is kept back, in nanoseconds.
pub const POSITION_EVERY: u64 = 15_000_000_000;

/// Whether the position is written now.
pub fn position_due(force: bool, written: Option<u64>, now: u64) -> (r: bool)
    ensures
        r == (force || match written {
            Some(t) => now - t >= POSITION_EVERY,
            None => true,
        }),
{
    force || match written {
        Some(t) => now >= t && now - t >= POSITION_EVERY,
        None => true,
    }
}

/// Where the loaded book is being read.
pub open spec fn place_of(s: SessionView, updated: Seq<char>) -> PositionView {
    let here = s.chapter < s.plan.len();
    PositionView {
        chapter: signed(s.chapter as int),
        chunk: signed(s.playhead as int),
        chapter_title: if here {
            shown_title(s.plan[s.chapter as int])
        } else {
            Seq::empty()
        },
        chunks_total: if here {
            signed(s.plan[s.chapter as int].chunks.len() as int)
        } else {
            0
        },
        chapters_total: signed(s.plan.len() as int),
        updated,
    }
}

/// Where the loaded book is being read, under the name of its file. Nothing where
/// no book is loaded.
pub fn session_position(s: &Session, updated: &str) -> (r: Option<(String, Position)>)
    requires
        forall|i: int| 0 <= i < s.plan@.len() ==> (#[trigger] s.plan@[i]).index < u64::MAX,
    ensures
        match r {
            Some((name, p)) => s@.book matches Some(b) && name@ == or_empty(name_of(b)) && p@
                == place_of(s@, updated@),
            None => s@.book is None,
        },
{
    let name = match &s.book {
        Some(b) => unwrap_text(file_name(b.as_str())),
        None => {
            return None;
        },
    };
    let ghost pv = s@.plan;
    let here = s.chapter < s.plan.len();
    let title = if here {
        assert(pv[s.chapter as int] == s.plan@[s.chapter as int]@);
        s.plan[s.chapter].display_title()
    } else {
        unwrap_text(None)
    };
    let n: usize = if here {
        s.plan[s.chapter].chunks.len()
    } else {
        0
    };
    let p = Position {
        chapter: as_i64(s.chapter as u64),
        chunk: as_i64(s.playhead as u64),
        chapter_title: title,
        chunks_total: as_i64(n as u64),
        chapters_total: as_i64(s.plan.len() as u64),
        updated: updated.to_owned(),
    };
    assert(p@ =~= place_of(s@, updated@));
    Some((name, p))
}

/// `n`, or 0 where it is less.
pub open spec fn at_least_zero(n: i64) -> int {
    if n < 0 {
        0
    } else {
        n as int
    }
}

fn as_count(n: i64) -> (r: usize)
    requires
        n <= usize::MAX,
    ensures
        r == at_least_zero(n),
{
    if n < 0 {
        0
    } else {
        n as usize
    }
}

/// A store that has seen a device.
pub open spec fn with_device(b: StoreView, dev: DeviceView, now_ms: i64) -> StoreView {
    if dev.id.len() == 0 {
        b
    } else {
        StoreView {
            devices: put_where(
                b.devices,
                is_device(dev.id),
                seen(row_where(b.devices, is_device(dev.id)), dev.id, dev.name, now_ms),
            ),
            ..b
        }
    }
}

/// A store whose mark for a device in a book was asked to move.
pub open spec fn with_mark(b: StoreView, book: Seq<char>, device: Seq<char>, to: (i64, i64), now_ms: i64) -> StoreView {
    let moved = match row_where(b.furthest, is_furthest(book, device)) {
        Some(e) => is_further(to, (e.row.chapter, e.row.chunk)),
        None => true,
    };
    if moved {
        StoreView {
            furthest: put_where(
                b.furthest,
                is_furthest(book, device),
                FurthestEntryView {
                    book,
                    device,
                    row: FurthestRow { chapter: to.0, chunk: to.1, updated_ms: now_ms },
                },
            ),
            ..b
        }
    } else {
        b
    }
}

/// A store in which a device's position in a book was written under `seq`.
pub open spec fn with_position(b: StoreView, book: Seq<char>, device: Seq<char>, p: PositionView, updated_ms: i64, seq: u64) -> StoreView {
    StoreView {
        seq,
        positions: put_where(
            b.positions,
            is_position(book, device),
            PositionEntryView {
                book,
                device,
                row: PositionRowView {
                    chapter: p.chapter,
                    chunk: p.chunk,
                    chapter_title: p.chapter_title,
                    chunks_total: p.chunks_total,
                    chapters_total: p.chapters_total,
                    updated_ms,
                    seq,
                },
            },
        ),
        ..b
    }
}

/// A store in which a device reported a position: the device is seen, its mark
/// moves forward or not at all, and its position is written.
pub open spec fn recorded(b: StoreView, book: Seq<char>, p: PositionView, dev: DeviceView, updated_ms: i64, now_ms: i64) -> StoreView {
    let to = (signed(at_least_zero(p.chapter)), signed(at_least_zero(p.chunk)));
    with_position(
        with_mark(with_device(b, dev, now_ms), book, dev.id, to, now_ms),
        book,
        dev.id,
        p,
        updated_ms,
        (b.seq + 1) as u64,
    )
}

/// Record a position against the device that reported it, and give the number it
/// was recorded under.
pub fn record_position(store: &mut Store, book: &str, p: &Position, dev: &Device, updated_ms: i64, now_ms: i64) -> (r: u64)
    requires
        old(store)@.seq < u64::MAX,
        p.chapter <= usize::MAX,
        p.chunk <= usize::MAX,
    ensures
        r == old(store)@.seq + 1,
        final(store)@ == recorded(old(store)@, book@, p@, dev@, updated_ms, now_ms),
{
    if dev.known() {
        store.touch_device(dev.id.as_str(), dev.name.as_str(), now_ms);
    }
    let row = PositionRow {
        chapter: p.chapter,
        chunk: p.chunk,
        chapter_title: p.chapter_title.clone(),
        chunks_total: p.chunks_total,
        chapters_total: p.chapters_total,
        updated_ms,
        seq: 0,
    };
    let chapter: usize = as_count(p.chapter);
    let chunk: usize = as_count(p.chunk);
    let _moved: bool = store.bump_furthest(book, dev.id.as_str(), chapter, chunk, now_ms);
    store.put_position(book, dev.id.as_str(), row)
}

/// Reporting a position never takes a mark back, and what is reported of one
/// device leaves the position of every other alone.
pub proof fn law_a_report_is_the_devices_own(b: StoreView, book: Seq<char>, p: PositionView, dev: DeviceView, other: Seq<char>, updated_ms: i64, now_ms: i64)
    requires
        other != dev.id,
    ensures
        ({
            let t = recorded(b, book, p, dev, updated_ms, now_ms);
            &&& row_where(t.positions, is_position(book, other)) == row_where(
                b.positions,
                is_position(book, other),
            )
            &&& row_where(t.furthest, is_furthest(book, other)) == row_where(
                b.furthest,
                is_furthest(book, other),
            )
            &&& match (
                row_where(b.furthest, is_furthest(book, dev.id)),
                row_where(t.furthest, is_furthest(book, dev.id)),
            ) {
                (Some(a), Some(c)) => !is_further(
                    (a.row.chapter, a.row.chunk),
                    (c.row.chapter, c.row.chunk),
                ),
                (Some(_), None) => false,
                _ => true,
            }
        }),
{
    let c = with_device(b, dev, now_ms);
    let to = (signed(at_least_zero(p.chapter)), signed(at_least_zero(p.chunk)));
    let m = FurthestEntryView {
        book,
        device: dev.id,
        row: FurthestRow { chapter: to.0, chunk: to.1, updated_ms: now_ms },
    };
    lemma_put_other(b.furthest, is_furthest(book, dev.id), is_furthest(book, other), m);
    lemma_put_found(b.furthest, is_furthest(book, dev.id), m);
    let seq = (b.seq + 1) as u64;
    let e = PositionEntryView {
        book,
        device: dev.id,
        row: PositionRowView {
            chapter: p.chapter,
            chunk: p.chunk,
            chapter_title: p.chapter_title,
            chunks_total: p.chunks_total,
            chapters_total: p.chapters_total,
            updated_ms,
            seq,
        },
    };
    lemma_put_other(b.positions, is_position(book, dev.id), is_position(book, other), e);
}

proof fn lemma_put_other<T>(s: Seq<T>, p: spec_fn(T) -> bool, q: spec_fn(T) -> bool, row: T)
    requires
        forall|t: T| #[trigger] p(t) ==> !q(t),
        p(row),
    ensures
        row_where(put_where(s, p, row), q) == row_where(s, q),
{
    let t = put_where(s, p, row);
    crate::rows::lemma_first_where(s, p, 0);
    crate::rows::lemma_first_where(s, q, 0);
    crate::rows::lemma_first_where(t, q, 0);
    match crate::rows::first_where(s, q, 0) {
        Some(i) => {
            assert(q(s[i]));
            assert(t[i] == s[i]);
            let j = crate::rows::first_where(t, q, 0).unwrap();
            if j < i {
                assert(q(t[j]));
                assert(!q(s[j]));
                assert(t[j] == row);
                assert(p(t[j]));
            }
            assert(j == i);
        },
        None => {
            if crate::rows::first_where(t, q, 0) is Some {
                let j = crate::rows::first_where(t, q, 0).unwrap();
                assert(q(t[j]));
                if t[j] == row {
                    assert(p(t[j]));
                } else {
                    assert(!q(s[j]));
                }
            }
        },
    }
}

proof fn lemma_put_found<T>(s: Seq<T>, p: spec_fn(T) -> bool, row: T)
    requires
        p(row),
    ensures
        row_where(put_where(s, p, row), p) == Some(row),
{
    let t = put_where(s, p, row);
    crate::rows::lemma_first_where(s, p, 0);
    crate::rows::lemma_first_where(t, p, 0);
    match crate::rows::first_where(s, p, 0) {
        Some(i) => {
            assert(p(t[i]));
            let j = crate::rows::first_where(t, p, 0).unwrap();
            if j < i {
                assert(!p(s[j]));
            }
            assert(j == i);
        },
        None => {
            assert(p(t[s.len() as int]));
            let j = crate::rows::first_where(t, p, 0).unwrap();
            if j < s.len() {
                assert(!p(s[j]));
            }
            assert(j == s.len());
        },
    }
}

// -------------------------------------------------------------- surviving a restart

/// The chapter and the chunk at which a book is taken up again, `pos` being the
/// last position on record. One that the book does not have counts as none.
pub open spec fn restored_at(plan: Seq<ChapterView>, pos: Option<(i64, i64)>) -> (int, int) {
    let c = match pos {
        Some((c, _)) if at_least_zero(c) < plan.len() => at_least_zero(c),
        _ => 0,
    };
    let n = crate::render::chunks_in(plan, c);
    let i = match pos {
        Some((_, i)) if at_least_zero(i) < n => at_least_zero(i),
        _ => 0,
    };
    (c, i)
}

/// A session taken up again.
pub open spec fn restored_of(s: SessionView, path: Seq<char>, plan: Seq<ChapterView>, pos: Option<(i64, i64)>) -> SessionView {
    let (c, i) = restored_at(plan, pos);
    SessionView {
        book: Some(path),
        title: Some(or_empty(stem_of(path))),
        plan,
        chapter: c as usize,
        playhead: i as usize,
        render_idx: i as usize,
        status: "idle"@,
        ..s
    }
}

impl Session {
    /// Take up the book that was loaded last, at the position on record, and give
    /// its key.
    pub fn restore(&mut self, path: &str, plan: Arc<Vec<Chapter>>, pos: Option<(i64, i64)>) -> (r: String)
        ensures
            final(self)@ == restored_of(old(self)@, path@, chapter_views(plan@), pos),
            r@ == key_of(path@),
    {
        let ghost pv = chapter_views(plan@);
        let ci: usize = match pos {
            Some((c, _)) => if c > 0 && (c as u64) < plan.len() as u64 {
                c as usize
            } else {
                0
            },
            None => 0,
        };
        let n: usize = if ci < plan.len() {
            plan[ci].chunks.len()
        } else {
            0
        };
        assert(n == crate::render::chunks_in(pv, ci as int));
        let chunk: usize = match pos {
            Some((_, i)) => if i > 0 && (i as u64) < n as u64 {
                i as usize
            } else {
                0
            },
            None => 0,
        };
        self.book = Some(path.to_owned());
        self.title = Some(unwrap_text(file_stem(path)));
        self.plan = plan;
        self.chapter = ci;
        self.playhead = chunk;
        self.render_idx = chunk;
        self.status = "idle".to_owned();
        assert(self@ =~= restored_of(old(self)@, path@, pv, pos));
        book_key(path)
    }
}

/// A session that is taken up again is at a chunk that its book has, wherever the
/// position on record was; unless the book has none.
pub proof fn law_a_restart_lands_in_the_book(plan: Seq<ChapterView>, pos: Option<(i64, i64)>)
    ensures
        ({
            let (c, i) = restored_at(plan, pos);
            &&& plan.len() > 0 ==> 0 <= c < plan.len()
            &&& i == 0 || 0 <= i < crate::render::chunks_in(plan, c)
            &&& match pos {
                Some((pc, pi)) => (0 <= pc < plan.len() && 0 <= pi < crate::render::chunks_in(
                    plan,
                    pc as int,
                )) ==> (c, i) == (pc as int, pi as int),
                None => (c, i) == (0int, 0int),
            }
        }),
{
}

/// Where the name of the loaded book is kept.
pub fn session_file(work: &str) -> (r: String)
    ensures
        r@ == joined(work@, "session.json"@),
{
    join_path(work, "session.json")
}

/// Where the target for rendering ahead is kept.
pub fn prerender_file(work: &str) -> (r: String)
    ensures
        r@ == joined(work@, "prerender.json"@),
{
    join_path(work, "prerender.json")
}

/// The steps of a start.
#[derive(Debug, Clone, Copy, PartialEq, Eq, Structural)]
pub enum BootStep {
    /// Lift the stamps past every one on record.
    Stamps,
    /// Take up the target for rendering ahead.
    Prerender,
    /// Take up the book that was loaded last.
    Session,
    /// Take up what was asked for of it.
    Queue,
    /// Start looking through the library.
    Scanner,
    /// Serve.
    Serve,
}

/// The step after one. What was asked for is taken up after the book it was asked
/// of, and nothing is written before the stamps are lifted.
pub fn boot(done: Option<BootStep>) -> (r: BootStep)
    ensures
        r == match done {
            None => BootStep::Stamps,
            Some(BootStep::Stamps) => BootStep::Prerender,
            Some(BootStep::Prerender) => BootStep::Session,
            Some(BootStep::Session) => BootStep::Queue,
            Some(BootStep::Queue) => BootStep::Scanner,
            Some(BootStep::Scanner) => BootStep::Serve,
            Some(BootStep::Serve) => BootStep::Serve,
        },
{
    match done {
        None => BootStep::Stamps,
        Some(BootStep::Stamps) => BootStep::Prerender,
        Some(BootStep::Prerender) => BootStep::Session,
        Some(BootStep::Session) => BootStep::Queue,
        Some(BootStep::Queue) => BootStep::Scanner,
        Some(BootStep::Scanner) => BootStep::Serve,
        Some(BootStep::Serve) => BootStep::Serve,
    }
}

} // verus!
