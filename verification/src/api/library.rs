//! What the whole box has ready, as of the last look.

use vstd::prelude::*;
use crate::cache::{safe_key, safe_key_of};
use crate::chars::same_text;
use crate::rows::{views, Row};
use crate::store::{BookRow, ChapterIndexRow, ChapterIndexRowView};

verus! {

/// Which book is asked about, and whether its chapters are wanted too.
#[derive(Debug, Clone, PartialEq, Eq)]
pub struct LibraryQuery {
    pub book: Option<String>,
    pub chapters: Option<bool>,
}

impl LibraryQuery {
    /// The key asked about, as one path segment; and whether its chapters are
    /// wanted, which they never are of all books.
    pub fn wanted(&self) -> (r: (Option<String>, bool))
        ensures
            match r.0 {
                Some(k) => self.book matches Some(b) && k@ == safe_key_of(b@) && k@.len() > 0,
                None => match self.book {
                    Some(b) => safe_key_of(b@).len() == 0,
                    None => true,
                },
            },
            r.1 == (r.0 is Some && self.chapters == Some(true)),
    {
        let key = match &self.book {
            Some(b) => {
                let k = safe_key(b.as_str());
                if k.as_str().is_empty() {
                    None
                } else {
                    Some(k)
                }
            },
            None => None,
        };
        let rows = match self.chapters {
            Some(c) => c,
            None => false,
        };
        let both = rows && key.is_some();
        (key, both)
    }
}

/// What the chapters of a book come to.
#[derive(Debug, Clone, Copy, PartialEq, Eq, Structural)]
pub struct Totals {
    /// The chapters of which every chunk is there; one without chunks is not one.
    pub rendered_chapters: usize,
    /// The chapters with a packed file that can be used.
    pub packed_chapters: usize,
    pub packed_bytes: u64,
    pub total_chunks: usize,
    /// No more of a chapter than it has.
    pub rendered_chunks: usize,
    /// When the look at any of them was longest ago.
    pub oldest_ms: Option<i64>,
}

/// `a + b`, or the most there is.
pub open spec fn plus(a: u64, b: u64) -> u64 {
    if a + b > u64::MAX {
        u64::MAX
    } else {
        (a + b) as u64
    }
}

/// The earlier of a time and one that may be missing.
pub open spec fn earlier(a: Option<i64>, b: i64) -> i64 {
    match a {
        Some(a) if a < b => a,
        _ => b,
    }
}

/// How many chunks the first `n` chapters have.
pub open spec fn chunks_upto(rows: Seq<ChapterIndexRowView>, n: int) -> nat
    decreases n,
{
    if n <= 0 {
        0
    } else {
        chunks_upto(rows, n - 1) + rows[n - 1].n as nat
    }
}

/// What the first `n` chapters come to.
pub open spec fn totals_upto(rows: Seq<ChapterIndexRowView>, n: int) -> Totals
    decreases n,
{
    if n <= 0 {
        Totals {
            rendered_chapters: 0,
            packed_chapters: 0,
            packed_bytes: 0,
            total_chunks: 0,
            rendered_chunks: 0,
            oldest_ms: None,
        }
    } else {
        let t = totals_upto(rows, n - 1);
        let r = rows[n - 1];
        Totals {
            rendered_chapters: (t.rendered_chapters + if r.n > 0 && r.rendered >= r.n {
                1int
            } else {
                0
            }) as usize,
            packed_chapters: (t.packed_chapters + if r.m4a {
                1int
            } else {
                0
            }) as usize,
            packed_bytes: match (r.m4a, r.bytes) {
                (true, Some(b)) => plus(t.packed_bytes, b),
                _ => t.packed_bytes,
            },
            total_chunks: (t.total_chunks + r.n) as usize,
            rendered_chunks: (t.rendered_chunks + if r.rendered < r.n {
                r.rendered as int
            } else {
                r.n as int
            }) as usize,
            oldest_ms: Some(earlier(t.oldest_ms, r.scanned_ms)),
        }
    }
}

proof fn lemma_chunks_grow(rows: Seq<ChapterIndexRowView>, a: int, b: int)
    requires
        0 <= a <= b,
    ensures
        chunks_upto(rows, a) <= chunks_upto(rows, b),
    decreases b,
{
    if a < b {
        lemma_chunks_grow(rows, a, b - 1);
    }
}

/// What the chapters of a book come to.
pub fn totals(rows: &Vec<ChapterIndexRow>) -> (r: Totals)
    requires
        chunks_upto(views(rows@), rows@.len() as int) <= usize::MAX,
    ensures
        r == totals_upto(views(rows@), rows@.len() as int),
{
    let ghost rv = views(rows@);
    let mut t = Totals {
        rendered_chapters: 0,
        packed_chapters: 0,
        packed_bytes: 0,
        total_chunks: 0,
        rendered_chunks: 0,
        oldest_ms: None,
    };
    let mut i: usize = 0;
    while i < rows.len()
        invariant
            i <= rows@.len(),
            rv == views(rows@),
            rows.len() <= usize::MAX,
            chunks_upto(rv, rows@.len() as int) <= usize::MAX,
            t == totals_upto(rv, i as int),
            t.total_chunks == chunks_upto(rv, i as int),
            t.rendered_chunks <= t.total_chunks,
            t.rendered_chapters <= i,
            t.packed_chapters <= i,
        decreases rows@.len() - i,
    {
        let r = &rows[i];
        assert(rv[i as int] == r@);
        proof {
            lemma_chunks_grow(rv, i + 1, rows@.len() as int);
        }
        let some: usize = if r.rendered < r.n {
            r.rendered
        } else {
            r.n
        };
        let whole: usize = if r.n > 0 && r.rendered >= r.n {
            1
        } else {
            0
        };
        let packed: usize = if r.m4a {
            1
        } else {
            0
        };
        let bytes: u64 = match (r.m4a, r.bytes) {
            (true, Some(b)) => b,
            _ => 0,
        };
        t = Totals {
            rendered_chapters: t.rendered_chapters + whole,
            packed_chapters: t.packed_chapters + packed,
            packed_bytes: t.packed_bytes.saturating_add(bytes),
            total_chunks: t.total_chunks + r.n,
            rendered_chunks: t.rendered_chunks + some,
            oldest_ms: Some(
                match t.oldest_ms {
                    Some(o) => if o < r.scanned_ms {
                        o
                    } else {
                        r.scanned_ms
                    },
                    None => r.scanned_ms,
                },
            ),
        };
        i += 1;
    }
    t
}

/// A book is never more than wholly rendered, and every part is counted once.
pub proof fn law_no_book_is_more_than_whole(rows: Seq<ChapterIndexRowView>, n: int)
    requires
        0 <= n <= rows.len() <= usize::MAX,
        chunks_upto(rows, rows.len() as int) <= usize::MAX,
    ensures
        totals_upto(rows, n).total_chunks == chunks_upto(rows, n),
        totals_upto(rows, n).rendered_chunks <= totals_upto(rows, n).total_chunks,
        totals_upto(rows, n).rendered_chapters <= n,
        totals_upto(rows, n).packed_chapters <= n,
        n > 0 ==> totals_upto(rows, n).oldest_ms is Some,
        forall|i: int|
            0 <= i < n ==> totals_upto(rows, n).oldest_ms.unwrap() <= (
            #[trigger] rows[i]).scanned_ms,
    decreases n,
{
    if n > 0 {
        law_no_book_is_more_than_whole(rows, n - 1);
        lemma_chunks_grow(rows, n, rows.len() as int);
    }
}

/// One book of the answer.
#[derive(Debug)]
pub struct LibraryBook {
    pub book: BookRow,
    pub totals: Totals,
    /// Whether it is the loaded book.
    pub loaded: bool,
}

/// The answer. `scanned_ms` is when the look at anything in it was longest ago.
#[derive(Debug)]
pub struct LibraryResult {
    pub books: Vec<LibraryBook>,
    pub scanned_ms: Option<i64>,
}

/// The earlier of two times, either of which may be missing.
pub open spec fn earliest(a: Option<i64>, b: Option<i64>) -> Option<i64> {
    match b {
        None => a,
        Some(b) => Some(earlier(a, b)),
    }
}

/// When the look at any of the first `n` books was longest ago.
pub open spec fn oldest_upto(rows: Seq<Vec<ChapterIndexRow>>, n: int) -> Option<i64>
    decreases n,
{
    if n <= 0 {
        None
    } else {
        earliest(
            oldest_upto(rows, n - 1),
            totals_upto(views(rows[n - 1]@), rows[n - 1]@.len() as int).oldest_ms,
        )
    }
}

/// Put the answer together, `rows` being the chapters of each of the books.
pub fn collect(books: &Vec<BookRow>, rows: &Vec<Vec<ChapterIndexRow>>, loaded: Option<&str>) -> (r:
    LibraryResult)
    requires
        books@.len() == rows@.len(),
        forall|i: int|
            0 <= i < rows@.len() ==> chunks_upto(
                views((#[trigger] rows@[i])@),
                rows@[i]@.len() as int,
            ) <= usize::MAX,
    ensures
        r.books@.len() == books@.len(),
        forall|i: int|
            0 <= i < books@.len() ==> {
                let b = #[trigger] r.books@[i];
                &&& b.book@ == books@[i]@
                &&& b.totals == totals_upto(views(rows@[i]@), rows@[i]@.len() as int)
                &&& b.loaded == match loaded {
                    Some(k) => k@ == books@[i]@.key,
                    None => false,
                }
            },
        r.scanned_ms == oldest_upto(rows@, rows@.len() as int),
{
    let mut out: Vec<LibraryBook> = Vec::new();
    let mut oldest: Option<i64> = None;
    let mut i: usize = 0;
    while i < books.len()
        invariant
            i <= books@.len(),
            books@.len() == rows@.len(),
            forall|i: int|
                0 <= i < rows@.len() ==> chunks_upto(
                    views((#[trigger] rows@[i])@),
                    rows@[i]@.len() as int,
                ) <= usize::MAX,
            out@.len() == i,
            forall|k: int|
                0 <= k < i ==> {
                    let b = #[trigger] out@[k];
                    &&& b.book@ == books@[k]@
                    &&& b.totals == totals_upto(views(rows@[k]@), rows@[k]@.len() as int)
                    &&& b.loaded == match loaded {
                        Some(key) => key@ == books@[k]@.key,
                        None => false,
                    }
                },
            oldest == oldest_upto(rows@, i as int),
        decreases books@.len() - i,
    {
        let t = totals(&rows[i]);
        let mine = match loaded {
            Some(k) => same_text(k, books[i].key.as_str()),
            None => false,
        };
        oldest = match t.oldest_ms {
            None => oldest,
            Some(b) => Some(
                match oldest {
                    Some(a) => if a < b {
                        a
                    } else {
                        b
                    },
                    None => b,
                },
            ),
        };
        out.push(LibraryBook { book: books[i].copied(), totals: t, loaded: mine });
        i += 1;
    }
    LibraryResult { books: out, scanned_ms: oldest }
}

} // verus!
