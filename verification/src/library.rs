//! What the whole box has ready: the look through the disk, book by book.
//!
//! What is found is a cache of the disk and no more. Nothing that renders or
//! packs reads it.

use vstd::prelude::*;
use crate::book::{shown_title, Chapter};
use crate::cache::{book_key, key_of, rendered_count, rendered_of};
use crate::chars::{chars_of, lower_chars, lowered_text, opt_text, same, same_text, texts};
use crate::order::{sorted, text_before, text_le};
use crate::paths::{extension, file_name, file_stem, name_of, split_name, stem_of};
use crate::rows::{sort_rows, views, Row};
use crate::store::{BookRow, BookRowView, ChapterIndexRow, ChapterIndexRowView};

verus! {

/// What was found on the disk of one chapter.
#[derive(Debug)]
pub struct Seen {
    /// The names in the directory of its chunks.
    pub names: Vec<String>,
    /// The size of the packed chapter, where there is one.
    pub bytes: Option<u64>,
    /// What the manifest of the packed chapter says, where it can be read: how
    /// many chunks it was made of, and the bits of its length in seconds.
    pub manifest: Option<(usize, u64)>,
    /// The bits of its estimated length in seconds.
    pub est_bits: u64,
}

/// The row of one chapter. A packed chapter whose manifest counts other chunks
/// than the plan does is not usable; one without a manifest is.
pub open spec fn index_row(ci: int, ch: Chapter, seen: Seen, now_ms: i64) -> ChapterIndexRowView {
    let n = ch.chunks@.len();
    ChapterIndexRowView {
        chapter: ci as usize,
        n: n as usize,
        rendered: rendered_of(texts(seen.names@), n) as usize,
        m4a: seen.bytes is Some && match seen.manifest {
            Some((chunks, _)) => chunks == n,
            None => true,
        },
        bytes: seen.bytes,
        duration_bits: match (seen.bytes, seen.manifest) {
            (Some(_), Some((_, d))) => Some(d),
            _ => None,
        },
        title: shown_title(ch@),
        est_bits: Some(seen.est_bits),
        scanned_ms: now_ms,
    }
}

fn scan_chapter(ci: usize, ch: &Chapter, seen: &Seen, now_ms: i64) -> (r: ChapterIndexRow)
    requires
        ch.index < u64::MAX,
    ensures
        r@ == index_row(ci as int, *ch, *seen, now_ms),
{
    let n: usize = ch.chunks.len();
    let rendered = rendered_count(&seen.names, n);
    let (m4a, duration_bits) = match seen.bytes {
        None => (false, None),
        Some(_) => match seen.manifest {
            Some((chunks, d)) => (chunks == n, Some(d)),
            None => (true, None),
        },
    };
    ChapterIndexRow {
        chapter: ci,
        n,
        rendered,
        m4a,
        bytes: seen.bytes,
        duration_bits,
        title: ch.display_title(),
        est_bits: Some(seen.est_bits),
        scanned_ms: now_ms,
    }
}

/// The rows of one book: one per chapter of its plan, all of one moment.
pub fn scan_book(plan: &Vec<Chapter>, seen: &Vec<Seen>, now_ms: i64) -> (r: Vec<ChapterIndexRow>)
    requires
        plan@.len() == seen@.len(),
        forall|i: int| 0 <= i < plan@.len() ==> (#[trigger] plan@[i]).index < u64::MAX,
    ensures
        r@.len() == plan@.len(),
        forall|i: int|
            0 <= i < plan@.len() ==> (#[trigger] r@[i])@ == index_row(
                i,
                plan@[i],
                seen@[i],
                now_ms,
            ),
{
    let mut r: Vec<ChapterIndexRow> = Vec::new();
    let mut i: usize = 0;
    while i < plan.len()
        invariant
            i <= plan@.len(),
            plan@.len() == seen@.len(),
            forall|i: int| 0 <= i < plan@.len() ==> (#[trigger] plan@[i]).index < u64::MAX,
            r@.len() == i,
            forall|k: int|
                0 <= k < i ==> (#[trigger] r@[k])@ == index_row(k, plan@[k], seen@[k], now_ms),
        decreases plan@.len() - i,
    {
        r.push(scan_chapter(i, &plan[i], &seen[i], now_ms));
        i += 1;
    }
    r
}

/// A plan that can be used: an empty one is none.
pub fn usable_plan(parsed: Option<Vec<Chapter>>) -> (r: Option<Vec<Chapter>>)
    ensures
        match parsed {
            Some(p) if p@.len() > 0 => r == Some(p),
            _ => r is None,
        },
{
    match parsed {
        Some(p) => if p.len() > 0 {
            Some(p)
        } else {
            None
        },
        None => None,
    }
}

// ----------------------------------------------------------------- finding books

/// An entry of the directory of all audio.
#[derive(Debug)]
pub struct CacheEntry {
    pub name: String,
    pub is_dir: bool,
    /// Whether there is a plan in it.
    pub has_plan: bool,
}

/// The entries that are books.
pub open spec fn is_book(e: CacheEntry) -> bool {
    e.is_dir && e.has_plan
}

/// The names of the books among the first `n` entries.
pub open spec fn book_names(all: Seq<CacheEntry>, n: int) -> Seq<Seq<char>>
    decreases n,
{
    if n <= 0 {
        Seq::empty()
    } else if is_book(all[n - 1]) {
        book_names(all, n - 1).push(all[n - 1].name@)
    } else {
        book_names(all, n - 1)
    }
}

/// The order of texts.
pub open spec fn by_text() -> spec_fn(Seq<char>, Seq<char>) -> bool {
    |a: Seq<char>, b: Seq<char>| text_le(a, b)
}

fn is_before(a: &String, b: &String) -> (r: bool)
    ensures
        r == text_le(a@, b@),
{
    text_before(a.as_str(), b.as_str())
}

/// The keys of the books that have audio, in order. Only a directory with a plan
/// in it is one.
pub fn cached_keys(all: &Vec<CacheEntry>) -> (r: Vec<String>)
    ensures
        views(r@) == sorted(book_names(all@, all@.len() as int), by_text()),
{
    let mut out: Vec<String> = Vec::new();
    let mut i: usize = 0;
    assert(views(out@) =~= Seq::<Seq<char>>::empty());
    while i < all.len()
        invariant
            i <= all@.len(),
            views(out@) == book_names(all@, i as int),
        decreases all@.len() - i,
    {
        let e = &all[i];
        if e.is_dir && e.has_plan {
            let ghost before = views(out@);
            out.push(e.name.clone());
            assert(views(out@) =~= before.push(e.name@));
        }
        i += 1;
    }
    sort_rows(out, is_before, Ghost(by_text()))
}

/// Whether a path is that of an epub, by its extension.
pub open spec fn epub_path(p: Seq<char>) -> bool {
    match name_of(p) {
        Some(n) => match extension(n) {
            Some(x) => lowered_text(x) == "epub"@,
            None => false,
        },
        None => false,
    }
}

/// Whether a path is that of an epub, by its extension.
pub fn is_epub(p: &str) -> (r: bool)
    ensures
        r == epub_path(p@),
{
    match file_name(p) {
        Some(n) => {
            let (_, x) = split_name(&chars_of(n.as_str()));
            match x {
                Some(x) => same(&lower_chars(&x), &chars_of("epub")),
                None => false,
            }
        },
        None => false,
    }
}

/// The first path from `i` on whose key is `key`.
pub open spec fn epub_from(found: Seq<Seq<char>>, key: Seq<char>, i: int) -> Option<Seq<char>>
    decreases found.len() - i,
{
    if i < 0 || i >= found.len() {
        None
    } else if key_of(found[i]) == key {
        Some(found[i])
    } else {
        epub_from(found, key, i + 1)
    }
}

/// The epub of a book, among those that were found: the first with its key.
pub fn epub_for(found: &Vec<String>, key: &str) -> (r: Option<String>)
    ensures
        opt_text(r) == epub_from(texts(found@), key@, 0),
{
    let mut i: usize = 0;
    while i < found.len()
        invariant
            i <= found@.len(),
            epub_from(texts(found@), key@, 0) == epub_from(texts(found@), key@, i as int),
        decreases found@.len() - i,
    {
        assert(texts(found@)[i as int] == found@[i as int]@);
        if same_text(book_key(found[i].as_str()).as_str(), key) {
            return Some(found[i].clone());
        }
        i += 1;
    }
    None
}

/// The row of a book that was found on the disk and is not known: by the name of
/// its epub, or by its key where there is none.
pub open spec fn adopted(key: Seq<char>, chapters: usize, epub: Option<Seq<char>>, now_ms: i64) -> BookRowView {
    BookRowView {
        key,
        name: match epub {
            Some(p) => match name_of(p) {
                Some(n) => n,
                None => key,
            },
            None => key,
        },
        path: match epub {
            Some(p) => p,
            None => Seq::empty(),
        },
        title: match epub {
            Some(p) => match stem_of(p) {
                Some(t) => t,
                None => key,
            },
            None => key,
        },
        chapters,
        last_open_ms: None,
        scanned_ms: Some(now_ms),
    }
}

/// The row of a book that was found on the disk and is not known.
pub fn adopt(key: &str, chapters: usize, epub: Option<&str>, now_ms: i64) -> (r: BookRow)
    ensures
        r@ == adopted(
            key@,
            chapters,
            match epub {
                Some(p) => Some(p@),
                None => None,
            },
            now_ms,
        ),
{
    match epub {
        Some(p) => {
            let name = match file_name(p) {
                Some(n) => n,
                None => key.to_owned(),
            };
            let title = match file_stem(p) {
                Some(t) => t,
                None => key.to_owned(),
            };
            BookRow {
                key: key.to_owned(),
                name,
                path: p.to_owned(),
                title,
                chapters,
                last_open_ms: None,
                scanned_ms: Some(now_ms),
            }
        },
        None => {
            let r = BookRow {
                key: key.to_owned(),
                name: key.to_owned(),
                path: String::new(),
                title: key.to_owned(),
                chapters,
                last_open_ms: None,
                scanned_ms: Some(now_ms),
            };
            assert(r@.path =~= Seq::<char>::empty());
            r
        },
    }
}

// -------------------------------------------------------------- one pass over all

/// Whether a book is known.
pub open spec fn known_key(known: Seq<BookRowView>, key: Seq<char>) -> bool {
    exists|i: int| 0 <= i < known.len() && (#[trigger] known[i]).key == key
}

/// The keys among the first `n` on the disk that are not known.
pub open spec fn strangers_upto(known: Seq<BookRowView>, on_disk: Seq<Seq<char>>, n: int) -> Seq<
    Seq<char>,
>
    decreases n,
{
    if n <= 0 {
        Seq::empty()
    } else if known_key(known, on_disk[n - 1]) {
        strangers_upto(known, on_disk, n - 1)
    } else {
        strangers_upto(known, on_disk, n - 1).push(on_disk[n - 1])
    }
}

/// The keys of some books.
pub open spec fn keys_in(known: Seq<BookRowView>) -> Seq<Seq<char>> {
    known.map_values(|b: BookRowView| b.key)
}

fn find_known(known: &Vec<BookRow>, key: &str) -> (r: Option<usize>)
    ensures
        match r {
            Some(i) => i < known@.len() && known@[i as int]@.key == key@,
            None => !known_key(views(known@), key@),
        },
        r is Some ==> known_key(views(known@), key@),
{
    let mut i: usize = 0;
    while i < known.len()
        invariant
            i <= known@.len(),
            forall|k: int| 0 <= k < i ==> (#[trigger] views(known@)[k]).key != key@,
        decreases known@.len() - i,
    {
        assert(views(known@)[i as int] == known@[i as int]@);
        if same_text(known[i].key.as_str(), key) {
            assert(views(known@)[i as int].key == key@);
            return Some(i);
        }
        i += 1;
    }
    None
}

/// The books with audio that are not known.
pub fn strangers(known: &Vec<BookRow>, on_disk: &Vec<String>) -> (r: Vec<String>)
    ensures
        views(r@) == strangers_upto(views(known@), views(on_disk@), on_disk@.len() as int),
{
    let ghost kv = views(known@);
    let ghost dv = views(on_disk@);
    let mut out: Vec<String> = Vec::new();
    let mut i: usize = 0;
    assert(views(out@) =~= Seq::<Seq<char>>::empty());
    while i < on_disk.len()
        invariant
            i <= on_disk@.len(),
            kv == views(known@),
            dv == views(on_disk@),
            views(out@) == strangers_upto(kv, dv, i as int),
        decreases on_disk@.len() - i,
    {
        let k = &on_disk[i];
        assert(dv[i as int] == k@);
        if find_known(known, k.as_str()).is_none() {
            let ghost before = views(out@);
            out.push(k.clone());
            assert(views(out@) =~= before.push(k@));
        }
        i += 1;
    }
    out
}

/// The order in which books are looked at: those that are known, by their keys,
/// and then the others.
pub fn scan_order(known: &Vec<BookRow>, strange: &Vec<String>) -> (r: Vec<String>)
    ensures
        views(r@) == sorted(keys_in(views(known@)), by_text()) + views(strange@),
{
    let ghost kv = views(known@);
    let mut keys: Vec<String> = Vec::new();
    let mut i: usize = 0;
    assert(views(keys@) =~= keys_in(kv).take(0));
    while i < known.len()
        invariant
            i <= known@.len(),
            kv == views(known@),
            views(keys@) == keys_in(kv).take(i as int),
        decreases known@.len() - i,
    {
        let ghost before = views(keys@);
        assert(kv[i as int] == known@[i as int]@);
        keys.push(known[i].key.clone());
        assert(views(keys@) =~= before.push(kv[i as int].key));
        assert(keys_in(kv).take(i + 1) =~= keys_in(kv).take(i as int).push(kv[i as int].key));
        i += 1;
    }
    assert(keys_in(kv).take(i as int) =~= keys_in(kv));
    let mut r = sort_rows(keys, is_before, Ghost(by_text()));
    let ghost front = views(r@);
    let mut j: usize = 0;
    assert(front + views(strange@).take(0) =~= front);
    while j < strange.len()
        invariant
            j <= strange@.len(),
            views(r@) == front + views(strange@).take(j as int),
        decreases strange@.len() - j,
    {
        let ghost before = views(r@);
        let s = strange[j].clone();
        r.push(s);
        assert(views(r@) =~= before.push(s@));
        assert(views(strange@).take(j + 1) =~= views(strange@).take(j as int).push(s@));
        assert(before.push(s@) =~= front + views(strange@).take(j + 1));
        j += 1;
    }
    assert(views(strange@).take(j as int) =~= views(strange@));
    r
}

/// The row of a book after a look at it. What is known of a book stays, but for
/// its chapters and the time of the look; when it was opened, a look cannot know.
pub open spec fn looked_at(was: Option<BookRowView>, key: Seq<char>, chapters: usize, epub: Option<Seq<char>>, now_ms: i64) -> BookRowView {
    match was {
        Some(b) => BookRowView {
            chapters,
            scanned_ms: Some(now_ms),
            last_open_ms: None,
            ..b
        },
        None => adopted(key, chapters, epub, now_ms),
    }
}

/// The row of a book after a look at it, and whether it was not known before.
pub fn look_at(known: &Vec<BookRow>, key: &str, chapters: usize, epub: Option<&str>, now_ms: i64) -> (r: (BookRow, bool))
    ensures
        r.1 == !known_key(views(known@), key@),
        r.1 ==> r.0@ == adopted(
            key@,
            chapters,
            match epub {
                Some(p) => Some(p@),
                None => None,
            },
            now_ms,
        ),
        !r.1 ==> exists|i: int|
            0 <= i < known@.len() && (#[trigger] known@[i])@.key == key@ && r.0@ == looked_at(
                Some(known@[i]@),
                key@,
                chapters,
                None,
                now_ms,
            ),
{
    match find_known(known, key) {
        Some(i) => {
            let b = known[i].copied();
            let row = BookRow { chapters, scanned_ms: Some(now_ms), last_open_ms: None, ..b };
            assert(row@ == looked_at(Some(known@[i as int]@), key@, chapters, None, now_ms));
            (row, false)
        },
        None => (adopt(key, chapters, epub, now_ms), true),
    }
}

/// What one pass over the whole library came to.
#[derive(Debug, Clone, Copy, PartialEq, Eq, Structural)]
pub struct ScanReport {
    pub books: usize,
    pub chapters: usize,
    pub registered: usize,
}

impl ScanReport {
    /// Nothing was looked at.
    pub fn new() -> (r: Self)
        ensures
            r == (ScanReport { books: 0, chapters: 0, registered: 0 }),
    {
        ScanReport { books: 0, chapters: 0, registered: 0 }
    }

    /// Count a book that was looked at.
    pub fn count(&mut self, chapters: usize, registered: bool)
        requires
            old(self).books < usize::MAX,
            old(self).chapters + chapters <= usize::MAX,
            old(self).registered <= old(self).books,
        ensures
            *final(self) == (ScanReport {
                books: (old(self).books + 1) as usize,
                chapters: (old(self).chapters + chapters) as usize,
                registered: (old(self).registered + if registered {
                    1int
                } else {
                    0
                }) as usize,
            }),
            final(self).registered <= final(self).books,
    {
        self.books = self.books + 1;
        self.chapters = self.chapters + chapters;
        if registered {
            self.registered = self.registered + 1;
        }
    }
}

// -------------------------------------------------------------------- the scanner

/// The longest the scanner waits for a renderer that is behind, in nanoseconds.
pub const HOLD_MAX: u64 = 30_000_000_000;

/// The longest the scanner sleeps at a time.
pub const SLICE: u64 = 500_000_000;

/// How often the whole library is looked through, in seconds.
pub const SCAN_EVERY_S: u64 = 300;

/// What the scanner does next.
#[derive(Debug, Clone, Copy, PartialEq, Eq, Structural)]
pub enum ScanTurn {
    /// Sleep for this long: the next pass is not due.
    Sleep(u64),
    /// Stand down for a memo that is being transcribed.
    Park,
    /// Hold back for a renderer that is behind.
    Hold,
    /// Look through the library.
    Scan,
}

/// What the scanner does next. The times are of a clock that never goes back, in
/// nanoseconds.
pub fn scanner_turn(now: u64, due: u64, clear: bool, stalled: u64) -> (r: ScanTurn)
    ensures
        r == if now < due {
            ScanTurn::Sleep(
                if due - now < SLICE {
                    (due - now) as u64
                } else {
                    SLICE
                },
            )
        } else if !clear {
            ScanTurn::Park
        } else if 0 < stalled < HOLD_MAX {
            ScanTurn::Hold
        } else {
            ScanTurn::Scan
        },
{
    if now < due {
        let left: u64 = due - now;
        ScanTurn::Sleep(
            if left < SLICE {
                left
            } else {
                SLICE
            },
        )
    } else if !clear {
        ScanTurn::Park
    } else if 0 < stalled && stalled < HOLD_MAX {
        ScanTurn::Hold
    } else {
        ScanTurn::Scan
    }
}

} // verus!
