//! Re-chunking a book that is already cached, and dropping only what that
//! invalidates.
//!
//! A chunk's index names its audio. When boundaries move, a file under an old
//! name holds the words of some other chunk, so everything from the first chunk
//! that changed to the end of its chapter has to go, and whatever was built from
//! the whole chapter with it. What comes before is the same under both plans
//! and stays.

use std::collections::BTreeMap;
use vstd::prelude::*;
use crate::book::{chapter_views, chunk_views, Chapter, ChapterView, Chunk, ChunkView};
use crate::chars::{append, cat, chars_of, decimal, decimal_chars, has_text, lower_chars, lowered_text, same, same_text, signed_chars, signed_decimal, text_of, texts};
use crate::rows::views;

verus! {

/// Whether two chunks are the same.
pub open spec fn same_chunk(a: ChunkView, b: ChunkView) -> bool {
    a.text == b.text && a.para == b.para && a.silent == b.silent
}

fn is_same_chunk(a: &Chunk, b: &Chunk) -> (r: bool)
    ensures
        r == same_chunk(a@, b@),
{
    a.para == b.para && a.silent == b.silent && same_text(a.text.as_str(), b.text.as_str())
}

/// The smaller of two numbers.
pub open spec fn lesser(a: nat, b: nat) -> nat {
    if a < b {
        a
    } else {
        b
    }
}

/// The first chunk, from `i` on, that is not the same in both; where one list
/// only goes on longer, the length they share; nothing where they are equal.
pub open spec fn first_change(old: Seq<ChunkView>, new: Seq<ChunkView>, i: int) -> Option<nat>
    decreases old.len() - i,
{
    if i < 0 || i >= old.len() || i >= new.len() {
        if old.len() != new.len() {
            Some(lesser(old.len(), new.len()))
        } else {
            None
        }
    } else if !same_chunk(old[i], new[i]) {
        Some(i as nat)
    } else {
        first_change(old, new, i + 1)
    }
}

fn find_change(old: &Vec<Chunk>, new: &Vec<Chunk>) -> (r: Option<usize>)
    ensures
        match r {
            Some(f) => first_change(chunk_views(old@), chunk_views(new@), 0) == Some(f as nat),
            None => first_change(chunk_views(old@), chunk_views(new@), 0) is None,
        },
{
    let ghost ov = chunk_views(old@);
    let ghost nv = chunk_views(new@);
    let mut i: usize = 0;
    while i < old.len() && i < new.len()
        invariant
            i <= old@.len(),
            i <= new@.len(),
            ov == chunk_views(old@),
            nv == chunk_views(new@),
            first_change(ov, nv, 0) == first_change(ov, nv, i as int),
        decreases old@.len() - i,
    {
        assert(ov[i as int] == old@[i as int]@);
        assert(nv[i as int] == new@[i as int]@);
        if !is_same_chunk(&old[i], &new[i]) {
            return Some(i);
        }
        i += 1;
    }
    if old.len() != new.len() {
        if old.len() < new.len() {
            Some(old.len())
        } else {
            Some(new.len())
        }
    } else {
        None
    }
}

/// Where each of the first `n` chapters of two plans changes, by chapter index.
pub open spec fn changes_upto(old: Seq<ChapterView>, new: Seq<ChapterView>, n: nat) -> Map<
    usize,
    usize,
>
    decreases n,
{
    if n == 0 {
        Map::empty()
    } else {
        let k = n - 1;
        let before = changes_upto(old, new, k as nat);
        match first_change(old[k].chunks, new[k].chunks, 0) {
            Some(f) => before.insert(old[k].index as usize, f as usize),
            None => before,
        }
    }
}

/// With every chapter from `a` up to `b` that has no entry changed from its
/// start.
pub open spec fn extras_upto(m: Map<usize, usize>, a: nat, b: nat) -> Map<usize, usize>
    decreases b,
{
    if b <= a {
        m
    } else {
        let k = (b - 1) as usize;
        let before = extras_upto(m, a, (b - 1) as nat);
        if before.contains_key(k) {
            before
        } else {
            before.insert(k, 0)
        }
    }
}

/// Where the chapters of two plans change: chapter by chapter as far as both
/// go, and from the start for those that only one of them has.
pub open spec fn changes_of(old: Seq<ChapterView>, new: Seq<ChapterView>) -> Map<usize, usize> {
    let n = lesser(old.len(), new.len());
    let longest = if old.len() < new.len() {
        new.len()
    } else {
        old.len()
    };
    extras_upto(changes_upto(old, new, n), n, longest)
}

/// Where the chapters of two plans change.
pub fn diff_chapters(old: &[Chapter], new: &[Chapter]) -> (out: BTreeMap<usize, usize>)
    ensures
        out@ == changes_of(chapter_views(old@), chapter_views(new@)),
{
    let ghost ov = chapter_views(old@);
    let ghost nv = chapter_views(new@);
    let mut out: BTreeMap<usize, usize> = BTreeMap::new();
    let n: usize = if old.len() < new.len() {
        old.len()
    } else {
        new.len()
    };
    let longest: usize = if old.len() < new.len() {
        new.len()
    } else {
        old.len()
    };
    let mut k: usize = 0;
    while k < n
        invariant
            k <= n,
            n <= old@.len(),
            n <= new@.len(),
            ov == chapter_views(old@),
            nv == chapter_views(new@),
            out@ == changes_upto(ov, nv, k as nat),
        decreases n - k,
    {
        assert(ov[k as int] == old@[k as int]@);
        assert(nv[k as int] == new@[k as int]@);
        if let Some(f) = find_change(&old[k].chunks, &new[k].chunks) {
            out.insert(old[k].index, f);
        }
        k += 1;
    }
    let ghost base = out@;
    let mut e: usize = n;
    while e < longest
        invariant
            n <= e <= longest,
            out@ == extras_upto(base, n as nat, e as nat),
        decreases longest - e,
    {
        if !out.contains_key(&e) {
            out.insert(e, 0);
        }
        e += 1;
    }
    out
}

/// Whether the two differ at `f`: in the chunks there, or in that exactly one of them
/// has ended.
pub open spec fn changes_at(old: Seq<ChunkView>, new: Seq<ChunkView>, f: int) -> bool {
    if f < old.len() && f < new.len() {
        !same_chunk(old[f], new[f])
    } else {
        f < old.len() || f < new.len()
    }
}

proof fn lemma_first_change(old: Seq<ChunkView>, new: Seq<ChunkView>, i: int)
    requires
        0 <= i <= old.len(),
        i <= new.len(),
    ensures
        match first_change(old, new, i) {
            Some(f) => {
                &&& i <= f <= old.len() && f <= new.len()
                &&& forall|k: int|
                    i <= k < f ==> same_chunk(#[trigger] old[k], #[trigger] new[k])
                &&& changes_at(old, new, f as int)
            },
            None => old.len() == new.len() && forall|k: int|
                i <= k < old.len() ==> same_chunk(#[trigger] old[k], #[trigger] new[k]),
        },
    decreases old.len() - i,
{
    if i < old.len() && i < new.len() && same_chunk(old[i], new[i]) {
        lemma_first_change(old, new, i + 1);
    }
}

/// What is kept is right, and no less is kept than can be: before the first chunk
/// that changed, a chapter's chunks are the same under both plans; there they differ,
/// or one of the plans has no more; and a chapter in which none changed is the same
/// throughout.
pub proof fn law_what_is_kept_is_the_same(old: Seq<ChunkView>, new: Seq<ChunkView>)
    ensures
        match first_change(old, new, 0) {
            Some(f) => {
                &&& f <= old.len() && f <= new.len()
                &&& forall|k: int|
                    0 <= k < f ==> same_chunk(#[trigger] old[k], #[trigger] new[k])
                &&& changes_at(old, new, f as int)
            },
            None => old.len() == new.len() && forall|k: int|
                0 <= k < old.len() ==> same_chunk(#[trigger] old[k], #[trigger] new[k]),
        },
{
    lemma_first_change(old, new, 0);
}

proof fn lemma_no_change(s: Seq<ChunkView>, i: int)
    requires
        0 <= i <= s.len(),
    ensures
        first_change(s, s, i) is None,
    decreases s.len() - i,
{
    if i < s.len() {
        lemma_no_change(s, i + 1);
    }
}

proof fn lemma_no_changes(plan: Seq<ChapterView>, n: nat)
    requires
        n <= plan.len(),
    ensures
        changes_upto(plan, plan, n) == Map::<usize, usize>::empty(),
    decreases n,
{
    if n > 0 {
        lemma_no_changes(plan, (n - 1) as nat);
        lemma_no_change(plan[n - 1].chunks, 0);
    }
}

/// A plan that did not move invalidates nothing.
pub proof fn law_no_change_no_loss(plan: Seq<ChapterView>)
    ensures
        changes_of(plan, plan) == Map::<usize, usize>::empty(),
{
    lemma_no_changes(plan, plan.len());
}

/// What migrating one book comes to.
#[derive(Debug, Clone)]
pub struct BookPlan {
    pub key: String,
    pub source: String,
    /// The first chunk that changed, by chapter.
    pub changed: BTreeMap<usize, usize>,
    pub chapters_total: usize,
    pub chunks_before: usize,
    pub chunks_after: usize,
    /// The chunks' files to delete.
    pub wavs: Vec<String>,
    /// Whatever was built from the chapters that changed.
    pub derived: Vec<String>,
    /// The new plan.
    pub plan: Vec<Chapter>,
}

/// How many chunks the first `n` chapters of a plan have.
pub open spec fn chunk_total(plan: Seq<ChapterView>, n: nat) -> nat
    decreases n,
{
    if n == 0 || n > plan.len() {
        0
    } else {
        chunk_total(plan, (n - 1) as nat) + plan[n - 1].chunks.len()
    }
}

fn count_chunks(plan: &Vec<Chapter>) -> (r: usize)
    ensures
        r == lesser(chunk_total(chapter_views(plan@), plan@.len()), usize::MAX as nat),
{
    let ghost pv = chapter_views(plan@);
    let mut t: usize = 0;
    let mut i: usize = 0;
    while i < plan.len()
        invariant
            i <= plan@.len(),
            pv == chapter_views(plan@),
            t == lesser(chunk_total(pv, i as nat), usize::MAX as nat),
        decreases plan@.len() - i,
    {
        assert(pv[i as int] == plan@[i as int]@);
        t = t.saturating_add(plan[i].chunks.len());
        i += 1;
    }
    t
}

impl BookPlan {
    /// What migrating the book under `key` comes to, `old` being its plan on disk
    /// and `new` the one that it has now. What there is to delete is looked up
    /// after this; see [`BookPlan::deletions`].
    pub fn between(key: &str, source: &str, old: &Vec<Chapter>, new: Vec<Chapter>) -> (r: Self)
        ensures
            r.key@ == key@,
            r.source@ == source@,
            r.changed@ == changes_of(chapter_views(old@), chapter_views(new@)),
            r.chapters_total == old@.len(),
            r.chunks_before == lesser(
                chunk_total(chapter_views(old@), old@.len()),
                usize::MAX as nat,
            ),
            r.chunks_after == lesser(
                chunk_total(chapter_views(new@), new@.len()),
                usize::MAX as nat,
            ),
            r.wavs@.len() == 0,
            r.derived@.len() == 0,
            r.plan@ == new@,
    {
        BookPlan {
            key: key.to_owned(),
            source: source.to_owned(),
            changed: diff_chapters(old, &new),
            chapters_total: old.len(),
            chunks_before: count_chunks(old),
            chunks_after: count_chunks(&new),
            wavs: Vec::new(),
            derived: Vec::new(),
            plan: new,
        }
    }

    /// Whether nothing changed.
    pub fn is_noop(&self) -> (r: bool)
        ensures
            r == (self.changed@.len() == 0),
    {
        self.changed.is_empty()
    }

    /// The chunks of chapter `ci` whose audio is invalid, `old` being the plan
    /// that it was rendered by: from the first that changed to the last.
    pub fn deletions(&self, old: &Vec<Chapter>, ci: usize) -> (r: Option<(usize, usize)>)
        ensures
            match r {
                Some((from, to)) => {
                    &&& self.changed@.contains_key(ci)
                    &&& from == self.changed@[ci]
                    &&& to == if ci < old@.len() {
                        old@[ci as int].chunks@.len()
                    } else {
                        0
                    }
                },
                None => !self.changed@.contains_key(ci),
            },
    {
        match self.changed.get(&ci) {
            Some(first) => {
                let to: usize = if ci < old.len() {
                    old[ci].chunks.len()
                } else {
                    0
                };
                Some((*first, to))
            },
            None => None,
        }
    }
}

/// Whether the file at `path` is the book kept under `key`. A key is the start
/// of a file's stem, so it is keys that are compared.
pub fn is_source(path: &str, key: &str) -> (r: bool)
    ensures
        r == (match crate::paths::name_of(path@) {
            Some(n) => match crate::paths::extension(n) {
                Some(x) => lowered_text(x) == "epub"@,
                None => false,
            },
            None => false,
        } && crate::cache::key_of(path@) == key@),
{
    let named = match crate::paths::file_name(path) {
        Some(n) => {
            let (_s, x) = crate::paths::split_name(&chars_of(n.as_str()));
            match x {
                Some(x) => same(&lower_chars(&x), &chars_of("epub")),
                None => false,
            }
        },
        None => false,
    };
    named && same_text(crate::cache::book_key(path).as_str(), key)
}

// --------------------------------------------------------------------- positions

/// A stored position: the book's file, and where the reader is in it, as far as
/// the record says.
#[derive(Debug, Clone, PartialEq)]
pub struct StoredPosition {
    pub book: String,
    pub chapter: Option<i64>,
    pub chunk: Option<i64>,
}

/// A position that no longer means what it did, and where it is pulled back to.
#[derive(Debug, Clone, PartialEq)]
pub struct PositionFix {
    pub book: String,
    pub chapter: i64,
    pub from: i64,
    pub to: i64,
}

/// What a [`PositionFix`] holds.
pub struct PositionFixView {
    pub book: Seq<char>,
    pub chapter: i64,
    pub from: i64,
    pub to: i64,
}

impl View for PositionFix {
    type V = PositionFixView;

    open spec fn view(&self) -> PositionFixView {
        PositionFixView { book: self.book@, chapter: self.chapter, from: self.from, to: self.to }
    }
}

/// What a vector of fixes holds.
pub open spec fn fix_views(v: Seq<PositionFix>) -> Seq<PositionFixView> {
    v.map_values(|f: PositionFix| f@)
}

/// How the migration of `b` moves a stored position, if it does: one at or past
/// the first chunk that changed in its chapter goes back to that chunk.
pub open spec fn fix_of(p: StoredPosition, b: BookPlan) -> Option<PositionFixView> {
    match (p.chapter, p.chunk) {
        (Some(ch), Some(ck)) => if crate::cache::key_of(p.book@) == b.key@ && 0 <= ch
            <= usize::MAX && b.changed@.contains_key(ch as usize) && ck
            >= b.changed@[ch as usize] {
            Some(
                PositionFixView {
                    book: p.book@,
                    chapter: ch,
                    from: ck,
                    to: b.changed@[ch as usize] as i64,
                },
            )
        } else {
            None
        },
        _ => None,
    }
}

/// The fixes that the first `n` positions need for one book.
pub open spec fn fixes_in(pos: Seq<StoredPosition>, b: BookPlan, n: nat) -> Seq<PositionFixView>
    decreases n,
{
    if n == 0 || n > pos.len() {
        Seq::empty()
    } else {
        let before = fixes_in(pos, b, (n - 1) as nat);
        match fix_of(pos[n - 1], b) {
            Some(f) => before.push(f),
            None => before,
        }
    }
}

/// The fixes that the first `n` books need.
pub open spec fn fixes_upto(pos: Seq<StoredPosition>, books: Seq<BookPlan>, n: nat) -> Seq<
    PositionFixView,
>
    decreases n,
{
    if n == 0 || n > books.len() {
        Seq::empty()
    } else {
        fixes_upto(pos, books, (n - 1) as nat) + fixes_in(pos, books[n - 1], pos.len())
    }
}

fn find_fix(p: &StoredPosition, b: &BookPlan) -> (r: Option<PositionFix>)
    ensures
        match r {
            Some(f) => fix_of(*p, *b) == Some(f@),
            None => fix_of(*p, *b) is None,
        },
{
    match (p.chapter, p.chunk) {
        (Some(ch), Some(ck)) => {
            if !same_text(crate::cache::book_key(p.book.as_str()).as_str(), b.key.as_str()) {
                return None;
            }
            if ch < 0 || ch as u64 > usize::MAX as u64 {
                return None;
            }
            match b.changed.get(&(ch as usize)) {
                Some(first) => if ck >= 0 && ck as u64 >= *first as u64 {
                    Some(
                        PositionFix {
                            book: p.book.clone(),
                            chapter: ch,
                            from: ck,
                            to: *first as i64,
                        },
                    )
                } else {
                    None
                },
                None => None,
            }
        },
        _ => None,
    }
}

/// Which stored positions the migration of `books` moves, and where to.
pub fn position_fixes(pos: &Vec<StoredPosition>, books: &[BookPlan]) -> (r: Vec<PositionFix>)
    ensures
        fix_views(r@) == fixes_upto(pos@, books@, books@.len()),
{
    let mut r: Vec<PositionFix> = Vec::new();
    let mut k: usize = 0;
    assert(fix_views(r@) =~= Seq::<PositionFixView>::empty());
    while k < books.len()
        invariant
            k <= books@.len(),
            fix_views(r@) == fixes_upto(pos@, books@, k as nat),
        decreases books@.len() - k,
    {
        let ghost before = fix_views(r@);
        let mut i: usize = 0;
        assert(before + fixes_in(pos@, books@[k as int], 0) =~= before);
        while i < pos.len()
            invariant
                k < books@.len(),
                i <= pos@.len(),
                fix_views(r@) == before + fixes_in(pos@, books@[k as int], i as nat),
            decreases pos@.len() - i,
        {
            if let Some(f) = find_fix(&pos[i], &books[k]) {
                let ghost sofar = fix_views(r@);
                r.push(f);
                assert(fix_views(r@) =~= sofar.push(f@));
                assert(before + fixes_in(pos@, books@[k as int], (i + 1) as nat) =~= (before
                    + fixes_in(pos@, books@[k as int], i as nat)).push(f@));
            }
            i += 1;
        }
        k += 1;
    }
    r
}

/// A position is never moved forward: re-reading a paragraph is a smaller injury
/// than skipping one.
pub proof fn law_fixes_go_back(p: StoredPosition, b: BookPlan)
    ensures
        fix_of(p, b) matches Some(f) ==> 0 <= f.to <= f.from && Some(f.from) == p.chunk && Some(
            f.chapter,
        ) == p.chapter && f.book == p.book@,
{
}

/// How many chunks the chapter of a moved position has now, where the plan of
/// its book, looked up among `books`, has that chapter.
pub fn chunks_total_after(f: &PositionFix, books: &[BookPlan]) -> (r: Option<usize>)
    ensures
        r == total_after(f@, books@, 0),
{
    let key = crate::cache::book_key(f.book.as_str());
    let mut k: usize = 0;
    while k < books.len()
        invariant
            k <= books@.len(),
            key@ == crate::cache::key_of(f.book@),
            total_after(f@, books@, 0) == total_after(f@, books@, k as int),
        decreases books@.len() - k,
    {
        if same_text(key.as_str(), books[k].key.as_str()) {
            if f.chapter >= 0 && (f.chapter as u64) < books[k].plan.len() as u64 {
                return Some(books[k].plan[f.chapter as usize].chunks.len());
            }
            return None;
        }
        k += 1;
    }
    None
}

/// How many chunks a moved position's chapter has in the first of `books` from
/// `k` on that is its book.
pub open spec fn total_after(f: PositionFixView, books: Seq<BookPlan>, k: int) -> Option<usize>
    decreases books.len() - k,
{
    if k < 0 || k >= books.len() {
        None
    } else if crate::cache::key_of(f.book) == books[k].key@ {
        if 0 <= f.chapter < books[k].plan@.len() {
            Some(books[k].plan@[f.chapter as int].chunks@.len() as usize)
        } else {
            None
        }
    } else {
        total_after(f, books, k + 1)
    }
}

/// What becomes of the record of a book whose position moves.
#[derive(Debug, Clone, PartialEq)]
pub struct RecordChange {
    pub book: String,
    /// The chunk it is at now.
    pub chunk: i64,
    /// How many chunks its chapter has now; where this is not known, what the record
    /// says stays.
    pub chunks_total: Option<usize>,
}

/// What a [`RecordChange`] holds.
#[verifier::ext_equal]
pub struct RecordChangeView {
    pub book: Seq<char>,
    pub chunk: i64,
    pub chunks_total: Option<usize>,
}

impl View for RecordChange {
    type V = RecordChangeView;

    open spec fn view(&self) -> RecordChangeView {
        RecordChangeView {
            book: self.book@,
            chunk: self.chunk,
            chunks_total: self.chunks_total,
        }
    }
}

/// What a moved position makes of its record.
pub open spec fn change_of(f: PositionFixView, books: Seq<BookPlan>) -> RecordChangeView {
    RecordChangeView { book: f.book, chunk: f.to, chunks_total: total_after(f, books, 0) }
}

/// What the first `n` moved positions make of the records, as far as there are any.
pub open spec fn records_upto(
    fixes: Seq<PositionFixView>,
    held: Seq<Seq<char>>,
    books: Seq<BookPlan>,
    n: int,
) -> Seq<RecordChangeView>
    decreases n,
{
    if n <= 0 {
        Seq::empty()
    } else {
        let rest = records_upto(fixes, held, books, n - 1);
        if held.contains(fixes[n - 1].book) {
            rest.push(change_of(fixes[n - 1], books))
        } else {
            rest
        }
    }
}

/// What the moved positions make of the records; `held` names the books that have
/// one. A book without a record gets none.
pub fn apply_position_fixes(fixes: &[PositionFix], held: &Vec<String>, books: &[BookPlan]) -> (r: Vec<
    RecordChange,
>)
    ensures
        views(r@) == records_upto(
            views(fixes@),
            texts(held@),
            books@,
            fixes@.len() as int,
        ),
{
    let ghost fv = views(fixes@);
    let mut r: Vec<RecordChange> = Vec::new();
    assert(views(r@) =~= Seq::<RecordChangeView>::empty());
    let mut i: usize = 0;
    while i < fixes.len()
        invariant
            i <= fixes@.len(),
            fv == views(fixes@),
            views(r@) == records_upto(fv, texts(held@), books@, i as int),
        decreases fixes@.len() - i,
    {
        let f = &fixes[i];
        assert(fv[i as int] == f@);
        if has_text(held, f.book.as_str()) {
            let ghost before = views(r@);
            let one = RecordChange {
                book: f.book.as_str().to_owned(),
                chunk: f.to,
                chunks_total: chunks_total_after(f, books),
            };
            r.push(one);
            assert(views(r@) =~= before.push(one@));
        }
        i += 1;
    }
    r
}

// ----------------------------------------------------------------- the arguments

/// What the command was asked to do.
#[derive(Debug, Clone, PartialEq)]
pub struct Args {
    pub work: String,
    pub books: Vec<String>,
    pub positions: Option<String>,
    pub only: Option<String>,
    pub apply: bool,
    pub max_chars: usize,
}

/// What the command line from `i` on makes of the choices so far: the work
/// directory, the one book, and whether to apply; or the complaint about the
/// first thing that is wrong.
pub open spec fn parsed_from(
    argv: Seq<Seq<char>>,
    i: int,
    work: Seq<char>,
    only: Option<Seq<char>>,
    apply: bool,
) -> Result<(Seq<char>, Option<Seq<char>>, bool), Seq<char>>
    decreases argv.len() - i,
{
    if i < 0 || i >= argv.len() {
        Ok((work, only, apply))
    } else if argv[i] == "--apply"@ {
        parsed_from(argv, i + 1, work, only, true)
    } else if argv[i] == "--dry-run"@ {
        parsed_from(argv, i + 1, work, only, false)
    } else if argv[i] == "--dir"@ {
        if i + 1 < argv.len() {
            parsed_from(argv, i + 2, argv[i + 1], only, apply)
        } else {
            Err("--dir needs a path"@)
        }
    } else if argv[i] == "--book"@ {
        if i + 1 < argv.len() {
            parsed_from(argv, i + 2, work, Some(argv[i + 1]), apply)
        } else {
            Err("--book needs a key"@)
        }
    } else {
        Err("unexpected argument "@ + crate::export::debug_of(argv[i]))
    }
}

/// What the command was asked to do. What it does not say is as the server has
/// it: `work`, the directories of `books`, and where `positions` are kept.
pub fn args_from(argv: &[String], work: &str, books: Vec<String>, positions: &str) -> (r: Result<
    Args,
    String,
>)
    ensures
        ({
            let p = parsed_from(texts(argv@), 0, work@, None, false);
            match r {
                Ok(a) => {
                    &&& p == Ok::<(Seq<char>, Option<Seq<char>>, bool), Seq<char>>(
                        (a.work@, crate::chars::opt_text(a.only), a.apply),
                    )
                    &&& a.books@ == books@
                    &&& crate::chars::opt_text(a.positions) == Some(positions@)
                    &&& a.max_chars == crate::book::DEFAULT_MAX_CHARS
                },
                Err(m) => p == Err::<(Seq<char>, Option<Seq<char>>, bool), Seq<char>>(m@),
            }
        }),
{
    let ghost av = texts(argv@);
    let mut dir = work.to_owned();
    let mut only: Option<String> = None;
    let mut apply = false;
    let mut i: usize = 0;
    while i < argv.len()
        invariant
            i <= argv@.len(),
            av == texts(argv@),
            parsed_from(av, 0, work@, None, false) == parsed_from(
                av,
                i as int,
                dir@,
                crate::chars::opt_text(only),
                apply,
            ),
        decreases argv@.len() - i,
    {
        let arg = argv[i].as_str();
        assert(av[i as int] == arg@);
        if same_text(arg, "--apply") {
            apply = true;
            i += 1;
        } else if same_text(arg, "--dry-run") {
            apply = false;
            i += 1;
        } else if same_text(arg, "--dir") {
            if i + 1 >= argv.len() {
                return Err("--dir needs a path".to_owned());
            }
            dir = argv[i + 1].clone();
            assert(av[i + 1] == dir@);
            i += 2;
        } else if same_text(arg, "--book") {
            if i + 1 >= argv.len() {
                return Err("--book needs a key".to_owned());
            }
            assert(av[i + 1] == argv@[i + 1]@);
            only = Some(argv[i + 1].clone());
            i += 2;
        } else {
            return Err(
                cat("unexpected argument ", crate::export::debug_text(arg).as_str()),
            );
        }
    }
    Ok(
        Args {
            work: dir,
            books,
            positions: Some(positions.to_owned()),
            only,
            apply,
            max_chars: crate::book::DEFAULT_MAX_CHARS,
        },
    )
}

/// How to use the command.
pub const USAGE: &'static str = "\
narrator migrate \u{2014} re-chunk cached books and drop only what that invalidated

  narrator migrate                 report what would change, touch nothing
  narrator migrate --apply         do it
  narrator migrate --book <key>    just this cache directory
  narrator migrate --dir <path>    work directory (default: NARRATOR_WORK)

Without --apply nothing is written, deleted or renamed.";

/// How to use the command that trims rendered chunks.
pub const RETRIM_USAGE: &'static str = "\
narrator retrim \u{2014} take Kokoro's padding out of chunk wavs already on disk

  narrator retrim                  report what would change, touch nothing
  narrator retrim --apply          rewrite them
  narrator retrim --book <key>     just this cache directory
  narrator retrim --dir <path>     work directory (default: NARRATOR_WORK)

Idempotent: a wav the renderer already trimmed is left alone. Chunk indices,
manifests and positions are untouched \u{2014} only the silence around the speech.";

/// Whether help was asked for.
pub fn wants_help(argv: &[String]) -> (r: bool)
    ensures
        r == exists|i: int|
            0 <= i < argv@.len() && ((#[trigger] argv@[i])@ == "--help"@ || argv@[i]@ == "-h"@),
{
    let mut i: usize = 0;
    while i < argv.len()
        invariant
            i <= argv@.len(),
            forall|k: int|
                0 <= k < i ==> (#[trigger] argv@[k])@ != "--help"@ && argv@[k]@ != "-h"@,
        decreases argv@.len() - i,
    {
        if same_text(argv[i].as_str(), "--help") || same_text(argv[i].as_str(), "-h") {
            return true;
        }
        i += 1;
    }
    false
}

// ------------------------------------------------------------------ the sequence

/// Where a migration is.
#[derive(Debug, Clone, Copy, PartialEq, Eq, Structural)]
pub enum Stage {
    /// Working out what the book with this number comes to. Nothing is touched.
    Planning(usize),
    /// Deleting what the book with this number no longer needs, then writing its
    /// plan.
    Applying(usize),
    /// Moving the stored positions.
    Positions,
    /// Finished, with this exit code.
    Done(i32),
}

/// The first book from `k` on that changes, or the end.
pub open spec fn next_changed(noop: Seq<bool>, k: int) -> int
    decreases noop.len() - k,
{
    if 0 <= k < noop.len() && noop[k] {
        next_changed(noop, k + 1)
    } else {
        k
    }
}

/// Where a migration goes on, `k` being the next book to apply.
pub open spec fn applying_from(noop: Seq<bool>, k: int, positions: bool) -> Stage {
    let n = next_changed(noop, k);
    if n < noop.len() {
        Stage::Applying(n as usize)
    } else if positions {
        Stage::Positions
    } else {
        Stage::Done(0)
    }
}

/// Where a migration of `books` goes after a stage went well or failed. `noop`
/// says of each book planned so far whether nothing changes. Everything is
/// planned before anything is touched, and without `apply` nothing is.
pub open spec fn stage_after(
    stage: Stage,
    ok: bool,
    books: nat,
    noop: Seq<bool>,
    apply: bool,
    positions: bool,
) -> Stage {
    match stage {
        Stage::Done(code) => Stage::Done(code),
        _ if !ok => Stage::Done(1),
        Stage::Planning(k) => if k + 1 < books {
            Stage::Planning((k + 1) as usize)
        } else if apply {
            applying_from(noop, 0, positions)
        } else {
            Stage::Done(0)
        },
        Stage::Applying(k) => applying_from(noop, k + 1, positions),
        Stage::Positions => Stage::Done(0),
    }
}

/// Where a migration starts.
pub fn first_stage(books: usize) -> (r: Stage)
    ensures
        r == if books == 0 {
            Stage::Done(0)
        } else {
            Stage::Planning(0)
        },
{
    if books == 0 {
        Stage::Done(0)
    } else {
        Stage::Planning(0)
    }
}

fn find_applying(noop: &Vec<bool>, k: usize, positions: bool) -> (r: Stage)
    requires
        k <= noop@.len(),
    ensures
        r == applying_from(noop@, k as int, positions),
{
    let mut n: usize = k;
    while n < noop.len() && noop[n]
        invariant
            k <= n <= noop@.len(),
            next_changed(noop@, k as int) == next_changed(noop@, n as int),
        decreases noop@.len() - n,
    {
        n += 1;
    }
    if n < noop.len() {
        Stage::Applying(n)
    } else if positions {
        Stage::Positions
    } else {
        Stage::Done(0)
    }
}

/// Where a migration goes after a stage; see [`stage_after`].
pub fn next_stage(
    stage: Stage,
    ok: bool,
    books: usize,
    noop: &Vec<bool>,
    apply: bool,
    positions: bool,
) -> (r: Stage)
    requires
        stage matches Stage::Applying(k) ==> k < noop.len(),
    ensures
        r == stage_after(stage, ok, books as nat, noop@, apply, positions),
{
    match stage {
        Stage::Done(code) => Stage::Done(code),
        Stage::Planning(k) => if !ok {
            Stage::Done(1)
        } else if k < books && k + 1 < books {
            Stage::Planning(k + 1)
        } else if apply {
            find_applying(noop, 0, positions)
        } else {
            Stage::Done(0)
        },
        Stage::Applying(k) => if !ok {
            Stage::Done(1)
        } else {
            find_applying(noop, k + 1, positions)
        },
        Stage::Positions => if !ok {
            Stage::Done(1)
        } else {
            Stage::Done(0)
        },
    }
}

proof fn lemma_next_changed(noop: Seq<bool>, k: int)
    requires
        0 <= k <= noop.len(),
    ensures
        k <= next_changed(noop, k) <= noop.len(),
        next_changed(noop, k) < noop.len() ==> !noop[next_changed(noop, k)],
    decreases noop.len() - k,
{
    if k < noop.len() && noop[k] {
        lemma_next_changed(noop, k + 1);
    }
}

/// Nothing is touched before every book is planned, nothing at all without
/// `apply`, a failure ends the run, and a book in which nothing changed is left
/// alone.
pub proof fn law_plan_all_then_apply(
    stage: Stage,
    ok: bool,
    books: nat,
    noop: Seq<bool>,
    apply: bool,
    positions: bool,
)
    requires
        noop.len() <= usize::MAX,
        stage matches Stage::Applying(k) ==> k < noop.len(),
    ensures
        ({
            let next = stage_after(stage, ok, books, noop, apply, positions);
            &&& stage is Planning && (next is Applying || next is Positions) ==> apply && ok
                && stage->Planning_0 + 1 >= books
            &&& !ok && !(stage is Done) ==> next == Stage::Done(1)
            &&& next matches Stage::Applying(k) ==> k < noop.len() && !noop[k as int]
            &&& (stage is Applying || stage is Positions) ==> !(next is Planning)
        }),
{
    lemma_next_changed(noop, 0);
    if let Stage::Applying(k) = stage {
        lemma_next_changed(noop, k + 1);
    }
}

/// What is done to apply one book's migration.
#[derive(Debug, Clone, Copy, PartialEq, Eq, Structural)]
pub enum ApplyStep {
    /// Delete the chunk file with this number.
    Wav(usize),
    /// Delete the derived file or directory with this number.
    Derived(usize),
    /// Write the new plan and its stamp.
    WritePlan,
}

/// The `k`th thing that is done to apply a book's migration: the chunks go,
/// then what was built from them, and the plan is written last, so that a run
/// cut short leaves holes under the old plan and never a new plan over old
/// audio.
pub fn apply_step(wavs: usize, derived: usize, k: usize) -> (r: Option<ApplyStep>)
    ensures
        r == if k < wavs {
            Some(ApplyStep::Wav(k))
        } else if k - wavs < derived {
            Some(ApplyStep::Derived((k - wavs) as usize))
        } else if k - wavs == derived {
            Some(ApplyStep::WritePlan)
        } else {
            None
        },
{
    if k < wavs {
        Some(ApplyStep::Wav(k))
    } else if k - wavs < derived {
        Some(ApplyStep::Derived(k - wavs))
    } else if k - wavs == derived {
        Some(ApplyStep::WritePlan)
    } else {
        None
    }
}

// -------------------------------------------------------------------- the report

/// What is said of one book.
pub open spec fn book_line_of(
    key: Seq<char>,
    before: nat,
    after: nat,
    changed: nat,
    chapters: nat,
    wavs: nat,
    derived: nat,
) -> Seq<char> {
    key + ": "@ + decimal(before) + " -> "@ + decimal(after) + " chunks; "@ + if changed == 0 {
        "unchanged"@
    } else {
        decimal(changed) + " of "@ + decimal(chapters) + " chapters re-chunk; "@ + decimal(wavs)
            + " chunk wavs and "@ + decimal(derived) + " packed/HLS artifacts to delete"@
    }
}

fn push_number(v: &mut Vec<char>, n: usize, after: &str)
    ensures
        final(v)@ == old(v)@ + decimal(n as nat) + after@,
{
    append(v, &decimal_chars(n as u64));
    append(v, &chars_of(after));
}

/// What is said of one book.
pub fn book_line(p: &BookPlan) -> (r: String)
    ensures
        p.changed@.len() <= usize::MAX ==> r@ == book_line_of(
            p.key@,
            p.chunks_before as nat,
            p.chunks_after as nat,
            p.changed@.len(),
            p.chapters_total as nat,
            p.wavs@.len(),
            p.derived@.len(),
        ),
{
    let mut v = chars_of(p.key.as_str());
    append(&mut v, &chars_of(": "));
    push_number(&mut v, p.chunks_before, " -> ");
    push_number(&mut v, p.chunks_after, " chunks; ");
    let ghost head = v@;
    let n = p.changed.len();
    if n == 0 {
        append(&mut v, &chars_of("unchanged"));
    } else {
        push_number(&mut v, n, " of ");
        push_number(&mut v, p.chapters_total, " chapters re-chunk; ");
        push_number(&mut v, p.wavs.len(), " chunk wavs and ");
        push_number(&mut v, p.derived.len(), " packed/HLS artifacts to delete");
        assert(v@ =~= head + (decimal(n as nat) + " of "@ + decimal(p.chapters_total as nat)
            + " chapters re-chunk; "@ + decimal(p.wavs@.len()) + " chunk wavs and "@ + decimal(
            p.derived@.len(),
        ) + " packed/HLS artifacts to delete"@));
    }
    text_of(&v)
}

/// What is said of a position that moves.
pub fn fix_line(f: &PositionFix) -> (r: String)
    ensures
        r@ == "position: "@ + f.book@ + " chapter "@ + signed_decimal(f.chapter as int)
            + " chunk "@ + signed_decimal(f.from as int) + " -> "@ + signed_decimal(f.to as int)
            + " (the last chunk both chunkings agree on)"@,
{
    let mut v = chars_of("position: ");
    append(&mut v, &chars_of(f.book.as_str()));
    append(&mut v, &chars_of(" chapter "));
    append(&mut v, &signed_chars(f.chapter));
    append(&mut v, &chars_of(" chunk "));
    append(&mut v, &signed_chars(f.from));
    append(&mut v, &chars_of(" -> "));
    append(&mut v, &signed_chars(f.to));
    append(&mut v, &chars_of(" (the last chunk both chunkings agree on)"));
    text_of(&v)
}

// ------------------------------------------------------------------- trimming

/// What trimming the chunks on disk comes to.
#[derive(Debug, Clone, Copy, PartialEq, Eq, Structural)]
pub struct TrimCounts {
    pub examined: u64,
    pub trimmed: u64,
    pub failed: u64,
}

impl TrimCounts {
    /// Counts that can go on counting.
    pub open spec fn wf(self) -> bool {
        self.trimmed + self.failed <= 2 * self.examined && self.failed <= self.examined
    }

    /// Nothing looked at.
    pub fn new() -> (r: Self)
        ensures
            r == (TrimCounts { examined: 0, trimmed: 0, failed: 0 }),
            r.wf(),
    {
        TrimCounts { examined: 0, trimmed: 0, failed: 0 }
    }

    /// One more file: whether it could be read, whether trimming shortens it,
    /// and, where that was to be written, whether it was. A file that cannot be
    /// read or written is counted and left.
    pub fn count(&mut self, readable: bool, shortened: bool, write_failed: bool)
        requires
            old(self).wf(),
            old(self).examined < u64::MAX / 2,
        ensures
            final(self).wf(),
            final(self).examined == old(self).examined + 1,
            final(self).trimmed == old(self).trimmed + if readable && shortened {
                1int
            } else {
                0
            },
            final(self).failed == old(self).failed + if !readable || (shortened && write_failed) {
                1int
            } else {
                0
            },
    {
        self.examined = self.examined + 1;
        if !readable {
            self.failed = self.failed + 1;
        } else if shortened {
            self.trimmed = self.trimmed + 1;
            if write_failed {
                self.failed = self.failed + 1;
            }
        }
    }

    /// The exit code: a run fails where every file it looked at failed.
    pub fn exit_code(&self) -> (r: i32)
        ensures
            r == if self.failed > 0 && self.examined == self.failed {
                1int
            } else {
                0
            },
    {
        if self.failed > 0 && self.examined == self.failed {
            1
        } else {
            0
        }
    }
}

} // verus!
