//! The chapter manager: what each chapter's state is, and its three verbs.

use vstd::prelude::*;
use crate::api::ApiError;
use crate::book::{chapter_views, Chapter, ChapterView};
use crate::chapters::{chapter_ids, ChapterId};
use crate::chars::same_text;
use crate::pack::{not_number, tells, with_one};
use crate::render::chunks_in;
use crate::rows::{views, Row};
use crate::state::{has_number, Session, SessionView};
use crate::store::{ordered_upto, ChapterIndexRow, ChapterIndexRowView, IntentRow, IntentRowView, Store, StoreView};

verus! {

/// Which chapters are asked about, both bounds among them, and of which book.
#[derive(Debug, Clone, PartialEq, Eq)]
pub struct ChaptersQuery {
    pub from: Option<usize>,
    pub to: Option<usize>,
    pub book: Option<String>,
}

/// Which chapters something is to be done with.
#[derive(Debug, Clone, PartialEq, Eq)]
pub struct ChapterSetBody {
    pub chapters: Option<Vec<i64>>,
    /// Pack each chapter once it is rendered.
    pub pack: Option<bool>,
    /// Pack it again where it is packed already.
    pub force: Option<bool>,
    /// The book they are of. Without one it is the loaded book.
    pub book: Option<String>,
}

/// What became of a request to render.
#[derive(Debug, PartialEq, Eq)]
pub struct RenderResult {
    pub ok: bool,
    pub queue: Vec<usize>,
    /// The chapters that were complete and went straight to the packer.
    pub packing: Vec<usize>,
}

/// A chapter that the packer was not given, and why.
#[derive(Debug, Clone, PartialEq, Eq)]
pub struct BuildRefusal {
    pub chapter: usize,
    /// `not_rendered`, `no_chunks` or `out_of_range`.
    pub reason: String,
    pub rendered: usize,
    pub n: usize,
}

/// What a [`BuildRefusal`] says.
#[verifier::ext_equal]
pub struct BuildRefusalView {
    pub chapter: usize,
    pub reason: Seq<char>,
    pub rendered: usize,
    pub n: usize,
}

impl View for BuildRefusal {
    type V = BuildRefusalView;

    open spec fn view(&self) -> BuildRefusalView {
        BuildRefusalView {
            chapter: self.chapter,
            reason: self.reason@,
            rendered: self.rendered,
            n: self.n,
        }
    }
}

/// What became of a request to pack.
#[derive(Debug, PartialEq, Eq)]
pub struct BuildResult {
    pub ok: bool,
    /// Packed already.
    pub built: Vec<usize>,
    /// Given to the packer now.
    pub building: Vec<usize>,
    /// To be rendered first.
    pub rendering: Vec<usize>,
    /// Every chapter that was not given to the packer, and why.
    pub refused: Vec<BuildRefusal>,
}

/// What became of a request to stop.
#[derive(Debug, PartialEq, Eq)]
pub struct CancelResult {
    pub ok: bool,
    pub queue: Vec<usize>,
}

// ----------------------------------------------------------------- what is asked

/// The first `n` of `s`, each the first time it comes.
pub open spec fn distinct<T>(s: Seq<T>, n: int) -> Seq<T>
    decreases n,
{
    if n <= 0 {
        Seq::empty()
    } else {
        with_one(distinct(s, n - 1), s[n - 1])
    }
}

/// The chapters that are named, in the order given.
pub open spec fn named(chapters: Option<Vec<i64>>) -> Seq<i64> {
    match chapters {
        Some(c) => c@,
        None => Seq::empty(),
    }
}

/// The first `k` of the chapters that a book of `n` chapters has, each the first
/// time it comes.
pub open spec fn in_range_upto(s: Seq<i64>, n: int, k: int) -> Seq<usize>
    decreases k,
{
    if k <= 0 {
        Seq::empty()
    } else if 0 <= s[k - 1] < n {
        with_one(in_range_upto(s, n, k - 1), s[k - 1] as usize)
    } else {
        in_range_upto(s, n, k - 1)
    }
}

/// The chapters that are named and that a book of `n` chapters has.
pub open spec fn wanted_of(chapters: Option<Vec<i64>>, n: int) -> Seq<usize> {
    in_range_upto(named(chapters), n, named(chapters).len() as int)
}

fn has_signed(v: &Vec<i64>, c: i64) -> (r: bool)
    ensures
        r == v@.contains(c),
{
    let mut i: usize = 0;
    while i < v.len()
        invariant
            i <= v@.len(),
            forall|k: int| 0 <= k < i ==> #[trigger] v@[k] != c,
        decreases v@.len() - i,
    {
        if v[i] == c {
            return true;
        }
        i += 1;
    }
    false
}

/// The chapters that are named, each once and none left out, those that no book
/// has among them.
pub fn asked(body: &ChapterSetBody) -> (r: Vec<i64>)
    ensures
        r@ == distinct(named(body.chapters), named(body.chapters).len() as int),
{
    let mut r: Vec<i64> = Vec::new();
    if let Some(all) = &body.chapters {
        let mut i: usize = 0;
        while i < all.len()
            invariant
                i <= all@.len(),
                r@ == distinct(all@, i as int),
            decreases all@.len() - i,
        {
            if !has_signed(&r, all[i]) {
                r.push(all[i]);
            }
            i += 1;
        }
    }
    r
}

/// The chapters that are named and that a book of `n` chapters has, each once, in
/// the order given.
pub fn wanted(body: &ChapterSetBody, n: usize) -> (r: Vec<usize>)
    ensures
        r@ == wanted_of(body.chapters, n as int),
{
    let mut r: Vec<usize> = Vec::new();
    if let Some(all) = &body.chapters {
        let mut i: usize = 0;
        while i < all.len()
            invariant
                i <= all@.len(),
                r@ == in_range_upto(all@, n as int, i as int),
            decreases all@.len() - i,
        {
            let c: i64 = all[i];
            if c >= 0 && (c as u64) < n as u64 {
                let c: usize = c as usize;
                if !has_number(&r, c) {
                    r.push(c);
                }
            }
            i += 1;
        }
    }
    r
}

/// What is wanted was named, is a chapter of the book, and comes once.
pub proof fn law_wanted_is_in_the_book(s: Seq<i64>, n: int, k: int)
    requires
        0 <= k <= s.len(),
        n <= usize::MAX,
    ensures
        in_range_upto(s, n, k).no_duplicates(),
        forall|i: int|
            0 <= i < in_range_upto(s, n, k).len() ==> (#[trigger] in_range_upto(s, n, k)[i]) < n
                && s.contains(in_range_upto(s, n, k)[i] as i64),
        forall|i: int|
            0 <= i < k && 0 <= #[trigger] s[i] < n ==> in_range_upto(s, n, k).contains(
                s[i] as usize,
            ),
    decreases k,
{
    if k > 0 {
        law_wanted_is_in_the_book(s, n, k - 1);
        let d = in_range_upto(s, n, k - 1);
        let e = in_range_upto(s, n, k);
        let x = s[k - 1];
        if 0 <= x < n {
            assert(x as usize as i64 == x);
            if !d.contains(x as usize) {
                assert(e == d.push(x as usize));
                assert(e[d.len() as int] == x as usize);
                assert forall|i: int| 0 <= i < k && 0 <= #[trigger] s[i] < n implies e.contains(
                    s[i] as usize,
                ) by {
                    if i < k - 1 {
                        assert(d.contains(s[i] as usize));
                        let w = choose|w: int| 0 <= w < d.len() && d[w] == s[i] as usize;
                        assert(e[w] == s[i] as usize);
                    }
                }
            }
        }
    }
}

// ---------------------------------------------------------------------- the list

/// One chapter of the list.
#[derive(Debug)]
pub struct ChapterRow {
    pub row: ChapterIndexRow,
    pub queued: bool,
    pub packing: bool,
    pub pack_queued: bool,
    /// Out of attempts.
    pub parked: bool,
}

/// What a [`ChapterRow`] says.
#[verifier::ext_equal]
pub struct ChapterRowView {
    pub row: ChapterIndexRowView,
    pub queued: bool,
    pub packing: bool,
    pub pack_queued: bool,
    pub parked: bool,
}

impl View for ChapterRow {
    type V = ChapterRowView;

    open spec fn view(&self) -> ChapterRowView {
        ChapterRowView {
            row: self.row@,
            queued: self.queued,
            packing: self.packing,
            pack_queued: self.pack_queued,
            parked: self.parked,
        }
    }
}

/// What is being done with a chapter.
pub open spec fn marked(row: ChapterIndexRowView, s: SessionView, parked: Seq<usize>) -> ChapterRowView {
    let c = row.chapter;
    ChapterRowView {
        row,
        queued: s.queue.contains(c),
        packing: s.building == Some(c),
        pack_queued: s.pack_queue.contains(c) || s.build_want.contains(c),
        parked: parked.contains(c),
    }
}

/// A bound of the window: the one asked for, or `other`, and never past the last
/// chapter.
pub open spec fn bound(asked: Option<usize>, other: int, total: int) -> int {
    let last = if total > 0 {
        total - 1
    } else {
        0
    };
    let b = match asked {
        Some(a) => a as int,
        None => other,
    };
    if b < last {
        b
    } else {
        last
    }
}

/// The first `n` of the chapters that lie in the window.
pub open spec fn window_upto(rows: Seq<ChapterIndexRowView>, s: SessionView, parked: Seq<usize>, from: int, to: int, n: int) -> Seq<ChapterRowView>
    decreases n,
{
    if n <= 0 {
        Seq::empty()
    } else {
        let rest = window_upto(rows, s, parked, from, to, n - 1);
        if from <= rows[n - 1].chapter <= to {
            rest.push(marked(rows[n - 1], s, parked))
        } else {
            rest
        }
    }
}

/// The chapters of a list, and the window it covers.
#[derive(Debug)]
pub struct ChapterList {
    pub chapters: Vec<ChapterRow>,
    pub from: usize,
    pub to: usize,
    pub total: usize,
}

/// The list of a book's chapters, `rows` being what was found of them.
pub fn chapters_list(rows: &Vec<ChapterIndexRow>, s: &Session, parked: &Vec<usize>, q: &ChaptersQuery) -> (r: ChapterList)
    ensures
        r.total == rows@.len(),
        r.from == bound(q.from, 0, rows@.len() as int),
        r.to == bound(q.to, rows@.len() as int, rows@.len() as int),
        views(r.chapters@) == window_upto(
            views(rows@),
            s@,
            parked@,
            r.from as int,
            r.to as int,
            rows@.len() as int,
        ),
{
    broadcast use vstd::std_specs::btree::group_btree_axioms;

    let total: usize = rows.len();
    let last: usize = if total > 0 {
        total - 1
    } else {
        0
    };
    let from: usize = match q.from {
        Some(a) => if a < last {
            a
        } else {
            last
        },
        None => 0,
    };
    let to: usize = match q.to {
        Some(a) => if a < last {
            a
        } else {
            last
        },
        None => last,
    };
    let ghost rv = views(rows@);
    let mut out: Vec<ChapterRow> = Vec::new();
    let mut i: usize = 0;
    assert(views(out@) =~= Seq::<ChapterRowView>::empty());
    while i < rows.len()
        invariant
            i <= rows@.len(),
            rv == views(rows@),
            views(out@) == window_upto(rv, s@, parked@, from as int, to as int, i as int),
        decreases rows@.len() - i,
    {
        let r = &rows[i];
        assert(rv[i as int] == r@);
        let c: usize = r.chapter;
        if from <= c && c <= to {
            let ghost before = views(out@);
            let one = ChapterRow {
                row: r.copied(),
                queued: has_number(&s.queue, c),
                packing: match s.building {
                    Some(b) => b == c,
                    None => false,
                },
                pack_queued: has_number(&s.pack_queue, c) || s.build_want.contains(&c),
                parked: has_number(parked, c),
            };
            assert(one@ =~= marked(r@, s@, parked@));
            out.push(one);
            assert(views(out@) =~= before.push(one@));
        }
        i += 1;
    }
    ChapterList { chapters: out, from, to, total }
}

/// How long a look at the chapters is good for, in nanoseconds.
pub const LOOK_GOOD_FOR: u64 = 1_500_000_000;

/// Whether a look at the chapters of `key` made at `at` still serves.
pub fn look_serves(looked: Option<(u64, &str)>, key: &str, now: u64) -> (r: bool)
    ensures
        r == match looked {
            Some((at, k)) => k@ == key@ && now - at < LOOK_GOOD_FOR,
            None => false,
        },
{
    match looked {
        Some((at, k)) => same_text(k, key) && (now < at || now - at < LOOK_GOOD_FOR),
        None => false,
    }
}

// --------------------------------------------------------------------- rendering

/// The row of a chapter.
pub open spec fn row_for(rows: Seq<ChapterIndexRowView>, c: usize, i: int) -> Option<ChapterIndexRowView>
    decreases rows.len() - i,
{
    if i < 0 || i >= rows.len() {
        None
    } else if rows[i].chapter == c {
        Some(rows[i])
    } else {
        row_for(rows, c, i + 1)
    }
}

fn find_row(rows: &Vec<ChapterIndexRow>, c: usize) -> (r: Option<usize>)
    ensures
        match r {
            Some(i) => i < rows@.len() && row_for(views(rows@), c, 0) == Some(rows@[i as int]@),
            None => row_for(views(rows@), c, 0) is None,
        },
{
    let ghost rv = views(rows@);
    let mut i: usize = 0;
    while i < rows.len()
        invariant
            i <= rows@.len(),
            rv == views(rows@),
            row_for(rv, c, 0) == row_for(rv, c, i as int),
        decreases rows@.len() - i,
    {
        assert(rv[i as int] == rows@[i as int]@);
        if rows[i].chapter == c {
            return Some(i);
        }
        i += 1;
    }
    None
}

/// A queue with `want` behind it, as far as it does not hold them yet.
pub open spec fn queue_with(q: Seq<usize>, want: Seq<usize>, n: int) -> Seq<usize>
    decreases n,
{
    if n <= 0 {
        q
    } else {
        with_one(queue_with(q, want, n - 1), want[n - 1])
    }
}

/// Whether a chapter is complete.
pub open spec fn complete(r: Option<ChapterIndexRowView>) -> bool {
    match r {
        Some(r) => r.rendered >= r.n,
        None => false,
    }
}

/// The session after the first `n` of `want` were looked at: those that are
/// complete leave the queue, and go to the packer where they are not packed.
pub open spec fn settled_upto(s: SessionView, rows: Seq<ChapterIndexRowView>, want: Seq<usize>, n: int) -> SessionView
    decreases n,
{
    if n <= 0 {
        s
    } else {
        let b = settled_upto(s, rows, want, n - 1);
        let c = want[n - 1];
        let r = row_for(rows, c, 0);
        if complete(r) {
            SessionView {
                queue: b.queue.filter(not_number(c)),
                pack_queue: if r.unwrap().m4a {
                    b.pack_queue
                } else {
                    with_one(b.pack_queue, c)
                },
                ..b
            }
        } else {
            b
        }
    }
}

/// The first `n` of `want` that are complete.
pub open spec fn complete_upto(rows: Seq<ChapterIndexRowView>, want: Seq<usize>, n: int) -> Seq<usize>
    decreases n,
{
    if n <= 0 {
        Seq::empty()
    } else if complete(row_for(rows, want[n - 1], 0)) {
        complete_upto(rows, want, n - 1).push(want[n - 1])
    } else {
        complete_upto(rows, want, n - 1)
    }
}

/// The session after `want` was asked for.
pub open spec fn asked_for(s: SessionView, want: Seq<usize>, pack: bool) -> SessionView {
    SessionView {
        queue: queue_with(s.queue, want, want.len() as int),
        build_want: if pack {
            s.build_want.union(want.to_set())
        } else {
            s.build_want
        },
        ..s
    }
}

/// The session after a request to render `want`.
pub open spec fn rendering_of(s: SessionView, rows: Seq<ChapterIndexRowView>, want: Seq<usize>, pack: bool) -> SessionView {
    let a = asked_for(s, want, pack);
    if pack {
        settled_upto(a, rows, want, want.len() as int)
    } else {
        a
    }
}

fn ask_for(s: &mut Session, want: &Vec<usize>, pack: bool)
    ensures
        final(s)@ == asked_for(old(s)@, want@, pack),
{
    broadcast use vstd::std_specs::btree::group_btree_axioms;

    let ghost was = s@;
    let mut i: usize = 0;
    proof {
        assert(want@.take(0).to_set() =~= Set::<usize>::empty());
        assert(s@ =~= (SessionView {
            queue: queue_with(was.queue, want@, 0),
            build_want: if pack {
                was.build_want.union(want@.take(0).to_set())
            } else {
                was.build_want
            },
            ..was
        }));
    }
    while i < want.len()
        invariant
            i <= want@.len(),
            s@ == (SessionView {
                queue: queue_with(was.queue, want@, i as int),
                build_want: if pack {
                    was.build_want.union(want@.take(i as int).to_set())
                } else {
                    was.build_want
                },
                ..was
            }),
        decreases want@.len() - i,
    {
        let c: usize = want[i];
        if !has_number(&s.queue, c) {
            s.queue.push(c);
        }
        if pack {
            let _new: bool = s.build_want.insert(c);
        }
        proof {
            let front = want@.take(i as int);
            assert(want@.take(i + 1) =~= front.push(c));
            front.lemma_push_to_set_commute(c);
            assert(was.build_want.union(front.to_set()).insert(c) =~= was.build_want.union(
                front.to_set().insert(c),
            ));
            assert(s@ =~= (SessionView {
                queue: queue_with(was.queue, want@, i + 1),
                build_want: if pack {
                    was.build_want.union(want@.take(i + 1).to_set())
                } else {
                    was.build_want
                },
                ..was
            }));
        }
        i += 1;
    }
    assert(want@.take(i as int) =~= want@);
}

fn settle(s: &mut Session, rows: &Vec<ChapterIndexRow>, want: &Vec<usize>) -> (r: Vec<usize>)
    ensures
        final(s)@ == settled_upto(old(s)@, views(rows@), want@, want@.len() as int),
        r@ == complete_upto(views(rows@), want@, want@.len() as int),
{
    let ghost was = s@;
    let ghost rv = views(rows@);
    let mut ready: Vec<usize> = Vec::new();
    let mut i: usize = 0;
    while i < want.len()
        invariant
            i <= want@.len(),
            rv == views(rows@),
            s@ == settled_upto(was, rv, want@, i as int),
            ready@ == complete_upto(rv, want@, i as int),
        decreases want@.len() - i,
    {
        let c: usize = want[i];
        if let Some(k) = find_row(rows, c) {
            let r = &rows[k];
            if r.rendered >= r.n {
                if !r.m4a {
                    s.enqueue_build(c);
                }
                ready.push(c);
                let _want: bool = s.leave_queue(c);
                assert(s@ =~= settled_upto(was, rv, want@, i + 1));
            }
        }
        i += 1;
    }
    ready
}

/// Queue chapters of the loaded book for rendering, in the order given; `rows` is
/// what was found of its chapters. Where they are to be packed too, those that
/// are complete go to the packer now.
pub fn queue_chapters(s: &mut Session, rows: &Vec<ChapterIndexRow>, body: &ChapterSetBody) -> (r:
    Result<RenderResult, ApiError>)
    ensures
        ({
            let n = old(s)@.plan.len() as int;
            let want = wanted_of(body.chapters, n);
            let pack = body.pack == Some(true);
            match r {
                Err(e) => n == 0 && e.error@ == "no book loaded"@ && final(s)@ == old(s)@,
                Ok(o) => {
                    &&& n > 0
                    &&& o.ok
                    &&& final(s)@ == rendering_of(old(s)@, views(rows@), want, pack)
                    &&& o.queue@ == final(s)@.queue
                    &&& o.packing@ == if pack {
                        complete_upto(views(rows@), want, want.len() as int)
                    } else {
                        Seq::empty()
                    }
                },
            }
        }),
{
    let n: usize = s.plan.len();
    if n == 0 {
        return Err(ApiError { error: "no book loaded".to_owned() });
    }
    let want = wanted(body, n);
    let pack = match body.pack {
        Some(p) => p,
        None => false,
    };
    ask_for(s, &want, pack);
    let ready = if pack {
        settle(s, rows, &want)
    } else {
        Vec::new()
    };
    assert(!pack ==> ready@ =~= Seq::<usize>::empty());
    Ok(RenderResult { ok: true, queue: s.queue.clone(), packing: ready })
}

// ----------------------------------------------------------------------- packing

/// What is done with a chapter that is to be packed.
#[derive(Debug, Clone, Copy, PartialEq, Eq, Structural)]
pub enum Build {
    /// It is packed.
    Done,
    /// It has nothing to pack.
    NoChunks,
    /// It is packed now.
    Now,
    /// It is rendered first.
    Render,
}

/// What is done with a chapter that is to be packed.
pub open spec fn build_of(r: Option<ChapterIndexRowView>, force: bool) -> Build {
    match r {
        Some(r) => if r.m4a && !force {
            Build::Done
        } else if r.n == 0 {
            Build::NoChunks
        } else if r.rendered >= r.n {
            Build::Now
        } else {
            Build::Render
        },
        None => Build::Render,
    }
}

/// The first `n` of `want` that `kind` is done with.
pub open spec fn built_upto(rows: Seq<ChapterIndexRowView>, want: Seq<usize>, force: bool, kind: Build, n: int) -> Seq<usize>
    decreases n,
{
    if n <= 0 {
        Seq::empty()
    } else {
        let rest = built_upto(rows, want, force, kind, n - 1);
        if build_of(row_for(rows, want[n - 1], 0), force) == kind {
            rest.push(want[n - 1])
        } else {
            rest
        }
    }
}

/// The refusals of the first `n` that no chapter answers to.
pub open spec fn out_of_range_upto(asked: Seq<i64>, count: int, n: int) -> Seq<BuildRefusalView>
    decreases n,
{
    if n <= 0 {
        Seq::empty()
    } else {
        let rest = out_of_range_upto(asked, count, n - 1);
        let c = asked[n - 1];
        if c < 0 || c >= count {
            rest.push(
                BuildRefusalView {
                    chapter: if c < 0 {
                        0
                    } else {
                        c as usize
                    },
                    reason: "out_of_range"@,
                    rendered: 0,
                    n: 0,
                },
            )
        } else {
            rest
        }
    }
}

/// The refusals of the first `n` of `want`.
pub open spec fn refused_upto(rows: Seq<ChapterIndexRowView>, want: Seq<usize>, force: bool, n: int) -> Seq<BuildRefusalView>
    decreases n,
{
    if n <= 0 {
        Seq::empty()
    } else {
        let rest = refused_upto(rows, want, force, n - 1);
        let c = want[n - 1];
        let r = row_for(rows, c, 0);
        match build_of(r, force) {
            Build::NoChunks => rest.push(
                BuildRefusalView { chapter: c, reason: "no_chunks"@, rendered: 0, n: 0 },
            ),
            Build::Render => rest.push(
                BuildRefusalView {
                    chapter: c,
                    reason: "not_rendered"@,
                    rendered: match r {
                        Some(r) => r.rendered,
                        None => 0,
                    },
                    n: match r {
                        Some(r) => r.n,
                        None => 0,
                    },
                },
            ),
            _ => rest,
        }
    }
}

/// A session whose packer has the first `n` of `ready` too.
pub open spec fn handed_upto(s: SessionView, ready: Seq<usize>, n: int) -> SessionView
    decreases n,
{
    if n <= 0 {
        s
    } else {
        let b = handed_upto(s, ready, n - 1);
        SessionView { pack_queue: with_one(b.pack_queue, ready[n - 1]), ..b }
    }
}

/// The session after a request to pack `want`: what is complete goes to the
/// packer, and what is not is rendered first.
pub open spec fn building_of(s: SessionView, rows: Seq<ChapterIndexRowView>, want: Seq<usize>, force: bool) -> SessionView {
    let n = want.len() as int;
    let ready = built_upto(rows, want, force, Build::Now, n);
    let handed = handed_upto(s, ready, ready.len() as int);
    let missing = built_upto(rows, want, force, Build::Render, n);
    if missing.len() > 0 {
        rendering_of(handed, rows, missing, true)
    } else {
        handed
    }
}

fn build_kind(rows: &Vec<ChapterIndexRow>, c: usize, force: bool) -> (r: (Build, Option<usize>))
    ensures
        r.0 == build_of(row_for(views(rows@), c, 0), force),
        match r.1 {
            Some(i) => i < rows@.len() && row_for(views(rows@), c, 0) == Some(rows@[i as int]@),
            None => row_for(views(rows@), c, 0) is None,
        },
{
    let at = find_row(rows, c);
    let kind = match at {
        Some(i) => {
            let r = &rows[i];
            if r.m4a && !force {
                Build::Done
            } else if r.n == 0 {
                Build::NoChunks
            } else if r.rendered >= r.n {
                Build::Now
            } else {
                Build::Render
            }
        },
        None => Build::Render,
    };
    (kind, at)
}

fn refuse_out_of_range(asked: &Vec<i64>, count: usize) -> (r: Vec<BuildRefusal>)
    requires
        forall|i: int| 0 <= i < asked@.len() ==> #[trigger] asked@[i] <= usize::MAX,
    ensures
        views(r@) == out_of_range_upto(asked@, count as int, asked@.len() as int),
{
    let mut r: Vec<BuildRefusal> = Vec::new();
    let mut i: usize = 0;
    assert(views(r@) =~= Seq::<BuildRefusalView>::empty());
    while i < asked.len()
        invariant
            i <= asked@.len(),
            forall|i: int| 0 <= i < asked@.len() ==> #[trigger] asked@[i] <= usize::MAX,
            views(r@) == out_of_range_upto(asked@, count as int, i as int),
        decreases asked@.len() - i,
    {
        let c: i64 = asked[i];
        if c < 0 || c as u64 >= count as u64 {
            let ghost before = views(r@);
            let one = BuildRefusal {
                chapter: if c < 0 {
                    0
                } else {
                    c as usize
                },
                reason: "out_of_range".to_owned(),
                rendered: 0,
                n: 0,
            };
            r.push(one);
            assert(views(r@) =~= before.push(one@));
        }
        i += 1;
    }
    r
}

/// Every number that is named fits in a word, as all do where that has 64 bits.
pub open spec fn fits_word(chapters: Option<Vec<i64>>) -> bool {
    forall|i: int| 0 <= i < named(chapters).len() ==> #[trigger] named(chapters)[i] <= usize::MAX
}

proof fn lemma_distinct_within<T>(s: Seq<T>, n: int)
    requires
        0 <= n <= s.len(),
    ensures
        forall|i: int| 0 <= i < distinct(s, n).len() ==> s.contains(#[trigger] distinct(s, n)[i]),
    decreases n,
{
    if n > 0 {
        lemma_distinct_within(s, n - 1);
        assert(s.contains(s[n - 1]));
        let d = distinct(s, n - 1);
        let e = distinct(s, n);
        assert forall|i: int| 0 <= i < e.len() implies s.contains(#[trigger] e[i]) by {
            if i < d.len() {
                assert(s.contains(d[i]));
            }
        }
    }
}

/// What `body` asks to be packed, of a book of `n` chapters, sorted by what is done
/// with each; `rows` is what was found of its chapters. Every chapter that is not
/// given to the packer and not packed is refused, with the reason.
pub open spec fn sorted_out(o: BuildResult, rows: Seq<ChapterIndexRowView>, chapters: Option<Vec<i64>>, n: int, force: bool) -> bool {
    let want = wanted_of(chapters, n);
    let k = want.len() as int;
    let all = distinct(named(chapters), named(chapters).len() as int);
    &&& o.ok
    &&& o.built@ == built_upto(rows, want, force, Build::Done, k)
    &&& o.building@ == built_upto(rows, want, force, Build::Now, k)
    &&& o.rendering@ == built_upto(rows, want, force, Build::Render, k)
    &&& views(o.refused@) == out_of_range_upto(all, n, all.len() as int) + refused_upto(
        rows,
        want,
        force,
        k,
    )
}

fn sort_out(rows: &Vec<ChapterIndexRow>, body: &ChapterSetBody, want: &Vec<usize>, n: usize, force: bool) -> (r: BuildResult)
    requires
        fits_word(body.chapters),
        want@ == wanted_of(body.chapters, n as int),
    ensures
        sorted_out(r, views(rows@), body.chapters, n as int, force),
{
    let ghost rv = views(rows@);
    let all = asked(body);
    proof {
        lemma_distinct_within(named(body.chapters), named(body.chapters).len() as int);
        assert forall|i: int| 0 <= i < all@.len() implies #[trigger] all@[i] <= usize::MAX by {
            let src = named(body.chapters);
            let w = choose|w: int| 0 <= w < src.len() && src[w] == all@[i];
            assert(src[w] <= usize::MAX);
        }
    }
    let mut refused = refuse_out_of_range(&all, n);
    let ghost beyond = views(refused@);
    let mut built: Vec<usize> = Vec::new();
    let mut building: Vec<usize> = Vec::new();
    let mut rendering: Vec<usize> = Vec::new();
    let mut i: usize = 0;
    assert(beyond + Seq::<BuildRefusalView>::empty() =~= beyond);
    while i < want.len()
        invariant
            i <= want@.len(),
            rv == views(rows@),
            built@ == built_upto(rv, want@, force, Build::Done, i as int),
            building@ == built_upto(rv, want@, force, Build::Now, i as int),
            rendering@ == built_upto(rv, want@, force, Build::Render, i as int),
            views(refused@) == beyond + refused_upto(rv, want@, force, i as int),
        decreases want@.len() - i,
    {
        let c: usize = want[i];
        let ghost before = views(refused@);
        let ghost rest = refused_upto(rv, want@, force, i as int);
        let (kind, at) = build_kind(rows, c, force);
        match kind {
            Build::Done => {
                built.push(c);
            },
            Build::NoChunks => {
                let one = BuildRefusal {
                    chapter: c,
                    reason: "no_chunks".to_owned(),
                    rendered: 0,
                    n: 0,
                };
                refused.push(one);
                assert(views(refused@) =~= before.push(one@));
                assert(before.push(one@) =~= beyond + rest.push(one@));
            },
            Build::Now => {
                building.push(c);
            },
            Build::Render => {
                let (have, of) = match at {
                    Some(k) => (rows[k].rendered, rows[k].n),
                    None => (0, 0),
                };
                let one = BuildRefusal {
                    chapter: c,
                    reason: "not_rendered".to_owned(),
                    rendered: have,
                    n: of,
                };
                refused.push(one);
                assert(views(refused@) =~= before.push(one@));
                assert(before.push(one@) =~= beyond + rest.push(one@));
                rendering.push(c);
            },
        }
        i += 1;
    }
    BuildResult { ok: true, built, building, rendering, refused }
}

fn is_forced(body: &ChapterSetBody) -> (r: bool)
    ensures
        r == (body.force == Some(true)),
{
    match body.force {
        Some(f) => f,
        None => false,
    }
}

/// Pack the chapters of the loaded book that are complete, and have the others
/// rendered first; `rows` is what was found of its chapters. Every chapter that is
/// not given to the packer is in the answer, with the reason.
pub fn build_chapters(s: &mut Session, rows: &Vec<ChapterIndexRow>, body: &ChapterSetBody) -> (r:
    Result<BuildResult, ApiError>)
    requires
        fits_word(body.chapters),
    ensures
        ({
            let n = old(s)@.plan.len() as int;
            let want = wanted_of(body.chapters, n);
            let force = body.force == Some(true);
            match r {
                Err(e) => n == 0 && e.error@ == "no book loaded"@ && final(s)@ == old(s)@,
                Ok(o) => {
                    &&& n > 0
                    &&& sorted_out(o, views(rows@), body.chapters, n, force)
                    &&& final(s)@ == building_of(old(s)@, views(rows@), want, force)
                },
            }
        }),
{
    let n: usize = s.plan.len();
    if n == 0 {
        return Err(ApiError { error: "no book loaded".to_owned() });
    }
    let want = wanted(body, n);
    let o = sort_out(rows, body, &want, n, is_forced(body));
    let ghost was = s@;
    let mut i: usize = 0;
    while i < o.building.len()
        invariant
            i <= o.building@.len(),
            s@ == handed_upto(was, o.building@, i as int),
        decreases o.building@.len() - i,
    {
        s.enqueue_build(o.building[i]);
        i += 1;
    }
    if o.rendering.len() > 0 {
        ask_for(s, &o.rendering, true);
        let _ready: Vec<usize> = settle(s, rows, &o.rendering);
    }
    Ok(o)
}

/// Every chapter that is asked for and that the book has is answered for in
/// exactly one place: packed already, given to the packer, to be rendered, or
/// without anything to pack.
pub proof fn law_every_chapter_is_answered_for(rows: Seq<ChapterIndexRowView>, want: Seq<usize>, force: bool, n: int)
    requires
        0 <= n <= want.len(),
    ensures
        built_upto(rows, want, force, Build::Done, n).len() + built_upto(
            rows,
            want,
            force,
            Build::Now,
            n,
        ).len() + refused_upto(rows, want, force, n).len() == n,
        built_upto(rows, want, force, Build::Render, n).len() <= refused_upto(
            rows,
            want,
            force,
            n,
        ).len(),
        forall|i: int|
            0 <= i < n ==> built_upto(
                rows,
                want,
                force,
                build_of(row_for(rows, #[trigger] want[i], 0), force),
                n,
            ).contains(want[i]),
    decreases n,
{
    if n > 0 {
        law_every_chapter_is_answered_for(rows, want, force, n - 1);
        assert forall|i: int| 0 <= i < n implies built_upto(
            rows,
            want,
            force,
            build_of(row_for(rows, #[trigger] want[i], 0), force),
            n,
        ).contains(want[i]) by {
            let kind = build_of(row_for(rows, want[i], 0), force);
            let old = built_upto(rows, want, force, kind, n - 1);
            let new = built_upto(rows, want, force, kind, n);
            if i < n - 1 {
                assert(old.contains(want[i]));
                let w = choose|w: int| 0 <= w < old.len() && old[w] == want[i];
                assert(new[w] == want[i]);
            } else {
                assert(new[old.len() as int] == want[i]);
            }
        }
    }
}

// ---------------------------------------------------------------- books elsewhere

/// The chapters that some orders name, in their order.
pub open spec fn chapters_in(rows: Seq<IntentRowView>) -> Seq<usize> {
    rows.map_values(|r: IntentRowView| r.chapter)
}

fn copy_chapters(rows: &Vec<IntentRow>) -> (r: Vec<usize>)
    ensures
        r@ == chapters_in(views(rows@)),
{
    let ghost rv = views(rows@);
    let mut r: Vec<usize> = Vec::new();
    let mut i: usize = 0;
    while i < rows.len()
        invariant
            i <= rows@.len(),
            rv == views(rows@),
            r@ == chapters_in(rv).take(i as int),
        decreases rows@.len() - i,
    {
        assert(rv[i as int] == rows@[i as int]@);
        r.push(rows[i].chapter);
        assert(r@ =~= chapters_in(rv).take(i + 1));
        i += 1;
    }
    assert(chapters_in(rv).take(i as int) =~= chapters_in(rv));
    r
}

/// Whether a chapter of another book can be packed now.
pub open spec fn ready_elsewhere(plan: Seq<ChapterView>, whole: spec_fn(int) -> bool, done: spec_fn(int) -> bool, c: usize) -> bool {
    chunks_in(plan, c as int) > 0 && whole(c as int) && !done(c as int)
}

/// The first `n` of `want` that can be packed now.
pub open spec fn ready_upto(plan: Seq<ChapterView>, whole: spec_fn(int) -> bool, done: spec_fn(int) -> bool, want: Seq<usize>, n: int) -> Seq<usize>
    decreases n,
{
    if n <= 0 {
        Seq::empty()
    } else {
        let rest = ready_upto(plan, whole, done, want, n - 1);
        if ready_elsewhere(plan, whole, done, want[n - 1]) {
            rest.push(want[n - 1])
        } else {
            rest
        }
    }
}

/// A session whose packer has the chapters `ready` of another book too.
pub open spec fn handed_elsewhere(s: SessionView, key: Seq<char>, ready: Seq<usize>, n: int) -> SessionView
    decreases n,
{
    if n <= 0 {
        s
    } else {
        let b = handed_elsewhere(s, key, ready, n - 1);
        SessionView {
            pack_elsewhere: with_one(b.pack_elsewhere, (key, ready[n - 1])),
            ..b
        }
    }
}

/// Order chapters of a book that is not loaded. `whole` says which chapters are
/// complete on the disk, and `packed` which are packed.
pub fn order_elsewhere<W: Fn(usize) -> bool, K: Fn(usize) -> bool>(
    store: &mut Store,
    s: &mut Session,
    key: &str,
    plan: &Vec<Chapter>,
    body: &ChapterSetBody,
    device: &str,
    pack: bool,
    now_ms: i64,
    whole: &W,
    packed: &K,
) -> (r: Result<RenderResult, ApiError>)
    requires
        old(store)@.seq + named(body.chapters).len() <= u64::MAX,
        forall|c: usize| call_requires(*whole, (c,)),
        forall|c: usize| call_requires(*packed, (c,)),
    ensures
        ({
            let want = wanted_of(body.chapters, plan@.len() as int);
            match r {
                Err(e) => {
                    &&& want.len() == 0
                    &&& e.error@ == "no chapters in range for that book"@
                    &&& final(store)@ == old(store)@
                    &&& final(s)@ == old(s)@
                },
                Ok(o) => {
                    &&& want.len() > 0
                    &&& o.ok
                    &&& final(store)@ == ordered_upto(
                        old(store)@,
                        key@,
                        want,
                        want.len(),
                        device@,
                        pack,
                        now_ms,
                    )
                    &&& o.queue@ == chapters_in(
                        crate::order::sorted(
                            final(store)@.intents.filter(crate::store::intents_for(key@)),
                            crate::store::by_seq(),
                        ),
                    )
                    &&& final(s)@ == handed_elsewhere(
                        old(s)@,
                        key@,
                        o.packing@,
                        o.packing@.len() as int,
                    )
                    &&& !pack ==> o.packing@.len() == 0
                    &&& pack ==> forall|w: spec_fn(int) -> bool, d: spec_fn(int) -> bool|
                        #[trigger] tells(*whole, w) && #[trigger] tells(*packed, d) ==> o.packing@
                            == ready_upto(
                            chapter_views(plan@),
                            w,
                            d,
                            want,
                            want.len() as int,
                        )
                },
            }
        }),
{
    let want = wanted(body, plan.len());
    if want.len() == 0 {
        return Err(ApiError { error: "no chapters in range for that book".to_owned() });
    }
    proof {
        lemma_wanted_len(named(body.chapters), plan@.len() as int, named(body.chapters).len() as int);
    }
    store.add_intent(key, &want, device, pack, now_ms);
    let ghost was = s@;
    let ghost pv = chapter_views(plan@);
    let mut ready: Vec<usize> = Vec::new();
    if pack {
        let mut i: usize = 0;
        while i < want.len()
            invariant
                i <= want@.len(),
                pv == chapter_views(plan@),
                forall|c: usize| call_requires(*whole, (c,)),
                forall|c: usize| call_requires(*packed, (c,)),
                s@ == handed_elsewhere(was, key@, ready@, ready@.len() as int),
                forall|w: spec_fn(int) -> bool, d: spec_fn(int) -> bool| #[trigger]
                    tells(*whole, w) && #[trigger] tells(*packed, d) ==> ready@ == ready_upto(
                        pv,
                        w,
                        d,
                        want@,
                        i as int,
                    ),
            decreases want@.len() - i,
        {
            let c: usize = want[i];
            let n: usize = if c < plan.len() {
                plan[c].chunks.len()
            } else {
                0
            };
            assert(n == chunks_in(pv, c as int));
            if n > 0 && whole(c) && !packed(c) {
                let ghost before = ready@;
                s.enqueue_build_elsewhere(key, c);
                ready.push(c);
                proof {
                    lemma_handed_same(was, key@, before, ready@, before.len() as int);
                }
            }
            i += 1;
        }
    }
    let rows = store.intents(key);
    Ok(RenderResult { ok: true, queue: copy_chapters(&rows), packing: ready })
}

/// Pack chapters of a book that is not loaded; `rows` is what was found of its
/// chapters. All of them are ordered, to be packed; those that are complete go to
/// the packer now, and the others are rendered first. They are answered for as those
/// of the loaded book are.
pub fn build_elsewhere(
    store: &mut Store,
    s: &mut Session,
    key: &str,
    chapters: usize,
    rows: &Vec<ChapterIndexRow>,
    body: &ChapterSetBody,
    device: &str,
    now_ms: i64,
) -> (r: Result<BuildResult, ApiError>)
    requires
        fits_word(body.chapters),
        old(store)@.seq + named(body.chapters).len() <= u64::MAX,
    ensures
        ({
            let want = wanted_of(body.chapters, chapters as int);
            let force = body.force == Some(true);
            match r {
                Err(e) => {
                    &&& want.len() == 0
                    &&& e.error@ == "no chapters in range for that book"@
                    &&& final(store)@ == old(store)@
                    &&& final(s)@ == old(s)@
                },
                Ok(o) => {
                    &&& want.len() > 0
                    &&& sorted_out(o, views(rows@), body.chapters, chapters as int, force)
                    &&& final(store)@ == ordered_upto(
                        old(store)@,
                        key@,
                        want,
                        want.len(),
                        device@,
                        true,
                        now_ms,
                    )
                    &&& final(s)@ == handed_elsewhere(
                        old(s)@,
                        key@,
                        o.building@,
                        o.building@.len() as int,
                    )
                },
            }
        }),
{
    let want = wanted(body, chapters);
    if want.len() == 0 {
        return Err(ApiError { error: "no chapters in range for that book".to_owned() });
    }
    proof {
        lemma_wanted_len(named(body.chapters), chapters as int, named(body.chapters).len() as int);
    }
    store.add_intent(key, &want, device, true, now_ms);
    let o = sort_out(rows, body, &want, chapters, is_forced(body));
    let ghost was = s@;
    let mut i: usize = 0;
    while i < o.building.len()
        invariant
            i <= o.building@.len(),
            s@ == handed_elsewhere(was, key@, o.building@, i as int),
        decreases o.building@.len() - i,
    {
        s.enqueue_build_elsewhere(key, o.building[i]);
        i += 1;
    }
    Ok(o)
}

proof fn lemma_handed_same(s: SessionView, key: Seq<char>, a: Seq<usize>, b: Seq<usize>, n: int)
    requires
        n <= a.len() <= b.len(),
        forall|i: int| 0 <= i < a.len() ==> a[i] == b[i],
    ensures
        handed_elsewhere(s, key, a, n) == handed_elsewhere(s, key, b, n),
    decreases n,
{
    if n > 0 {
        lemma_handed_same(s, key, a, b, n - 1);
    }
}

proof fn lemma_wanted_len(s: Seq<i64>, n: int, k: int)
    requires
        0 <= k <= s.len(),
    ensures
        in_range_upto(s, n, k).len() <= k,
    decreases k,
{
    if k > 0 {
        lemma_wanted_len(s, n, k - 1);
    }
}

// --------------------------------------------------------------------- cancelling

/// Every number that is not among `w`.
pub open spec fn not_in(w: Seq<usize>) -> spec_fn(usize) -> bool {
    |x: usize| !w.contains(x)
}

/// Every number that is not among `w`, or that the packer is on.
pub open spec fn not_in_but(w: Seq<usize>, building: Option<usize>) -> spec_fn(usize) -> bool {
    |x: usize| !w.contains(x) || building == Some(x)
}

/// A session whose queues were cancelled: all of them, or `want` of them. A
/// chapter the packer is on is let finish.
pub open spec fn cancelled(s: SessionView, want: Option<Seq<usize>>) -> SessionView {
    match want {
        None => SessionView {
            queue: Seq::empty(),
            build_want: Set::empty(),
            pack_queue: Seq::empty(),
            ..s
        },
        Some(w) => SessionView {
            queue: s.queue.filter(not_in(w)),
            build_want: s.build_want.difference(w.to_set()),
            pack_queue: s.pack_queue.filter(not_in_but(w, s.building)),
            ..s
        },
    }
}

/// What a request to stop names: nothing where it names no chapter at all.
pub open spec fn cancels(chapters: Option<Vec<i64>>, n: int) -> Option<Seq<usize>> {
    if named(chapters).len() == 0 {
        None
    } else {
        Some(wanted_of(chapters, n))
    }
}

fn keep_others(v: &Vec<usize>, w: &Vec<usize>, but: Option<usize>) -> (r: Vec<usize>)
    ensures
        r@ == v@.filter(not_in_but(w@, but)),
{
    let ghost p = not_in_but(w@, but);
    let mut r: Vec<usize> = Vec::new();
    let mut i: usize = 0;
    proof {
        reveal(Seq::filter);
        assert(r@ =~= v@.take(0).filter(p));
    }
    while i < v.len()
        invariant
            i <= v@.len(),
            p == not_in_but(w@, but),
            r@ == v@.take(i as int).filter(p),
        decreases v@.len() - i,
    {
        let x: usize = v[i];
        proof {
            v@.take(i as int).lemma_filter_push(x, p);
            assert(v@.take(i + 1) =~= v@.take(i as int).push(x));
        }
        let on_it = match but {
            Some(b) => b == x,
            None => false,
        };
        if on_it || !has_number(w, x) {
            r.push(x);
        }
        i += 1;
    }
    assert(v@.take(i as int) =~= v@);
    r
}

/// Take chapters of the loaded book off the queues. A request that names none
/// clears them all.
pub fn cancel_chapters(s: &mut Session, body: &ChapterSetBody) -> (r: (CancelResult, Option<Vec<usize>>))
    ensures
        ({
            let want = cancels(body.chapters, old(s)@.plan.len() as int);
            &&& final(s)@ == cancelled(old(s)@, want)
            &&& r.0.ok
            &&& r.0.queue@ == final(s)@.queue
            &&& match r.1 {
                Some(w) => want == Some(w@),
                None => want is None,
            }
        }),
{
    broadcast use vstd::std_specs::btree::group_btree_axioms;

    let ghost was = s@;
    let n: usize = s.plan.len();
    let any = match &body.chapters {
        Some(c) => c.len() > 0,
        None => false,
    };
    if !any {
        s.queue = Vec::new();
        s.build_want.clear();
        s.pack_queue = Vec::new();
        assert(s@ =~= cancelled(was, None));
        return (CancelResult { ok: true, queue: s.queue.clone() }, None);
    }
    let w = wanted(body, n);
    s.queue = keep_others(&s.queue, &w, None);
    s.pack_queue = keep_others(&s.pack_queue, &w, s.building);
    let mut i: usize = 0;
    proof {
        assert(w@.take(0).to_set() =~= Set::<usize>::empty());
        assert(was.build_want.difference(w@.take(0).to_set()) =~= was.build_want);
        lemma_same_filter(was.queue, not_in_but(w@, None), not_in(w@));
    }
    let ghost q = s@.queue;
    let ghost p = s@.pack_queue;
    while i < w.len()
        invariant
            i <= w@.len(),
            s@ == (SessionView {
                queue: q,
                pack_queue: p,
                build_want: was.build_want.difference(w@.take(i as int).to_set()),
                ..was
            }),
        decreases w@.len() - i,
    {
        let c: usize = w[i];
        let _was: bool = s.build_want.remove(&c);
        proof {
            let front = w@.take(i as int);
            assert(w@.take(i + 1) =~= front.push(c));
            front.lemma_push_to_set_commute(c);
            assert(was.build_want.difference(front.to_set()).remove(c)
                =~= was.build_want.difference(front.to_set().insert(c)));
            assert(s@ =~= (SessionView {
                queue: q,
                pack_queue: p,
                build_want: was.build_want.difference(w@.take(i + 1).to_set()),
                ..was
            }));
        }
        i += 1;
    }
    assert(w@.take(i as int) =~= w@);
    assert(s@ =~= cancelled(was, Some(w@)));
    (CancelResult { ok: true, queue: s.queue.clone() }, Some(w))
}

proof fn lemma_same_filter(s: Seq<usize>, p: spec_fn(usize) -> bool, q: spec_fn(usize) -> bool)
    requires
        forall|x: usize| #[trigger] p(x) == q(x),
    ensures
        s.filter(p) == s.filter(q),
    decreases s.len(),
{
    reveal(Seq::filter);
    if s.len() > 0 {
        lemma_same_filter(s.drop_last(), p, q);
        assert(p(s.last()) == q(s.last()));
    }
}

/// A chapter that is cancelled is on no queue of the loaded book any more, but
/// for the one the packer is on; and every other stays where it was.
pub proof fn law_a_cancel_reaches_every_queue(s: SessionView, w: Seq<usize>, c: usize)
    ensures
        ({
            let t = cancelled(s, Some(w));
            if w.contains(c) {
                &&& !t.queue.contains(c)
                &&& !t.build_want.contains(c)
                &&& (t.pack_queue.contains(c) ==> s.building == Some(c))
            } else {
                &&& t.queue.contains(c) == s.queue.contains(c)
                &&& t.build_want.contains(c) == s.build_want.contains(c)
                &&& t.pack_queue.contains(c) == s.pack_queue.contains(c)
            }
        }),
{
    let t = cancelled(s, Some(w));
    lemma_filter_holds(s.queue, not_in(w), c);
    lemma_filter_holds(s.pack_queue, not_in_but(w, s.building), c);
}

proof fn lemma_filter_holds(s: Seq<usize>, p: spec_fn(usize) -> bool, c: usize)
    ensures
        s.filter(p).contains(c) == (s.contains(c) && p(c)),
{
    if s.filter(p).contains(c) {
        let f = s.filter(p);
        let i = choose|i: int| 0 <= i < f.len() && f[i] == c;
        s.lemma_filter_pred(p, i);
        s.lemma_filter_contains_rev(p, c);
    }
    if s.contains(c) && p(c) {
        let i = choose|i: int| 0 <= i < s.len() && s[i] == c;
        s.lemma_filter_contains(p, i);
    }
}

/// The jobs of other books that stay where `dropped` of the book `key` are
/// cancelled: the one the packer is on is let finish.
pub open spec fn stays_elsewhere(key: Seq<char>, dropped: Seq<usize>, packing: Option<ChapterId>) -> spec_fn(ChapterId) -> bool {
    |id: ChapterId| id.0 != key || !dropped.contains(id.1) || packing == Some(id)
}

fn drop_jobs(s: &mut Session, key: &str, dropped: &Vec<usize>)
    ensures
        final(s)@ == (SessionView {
            pack_elsewhere: old(s)@.pack_elsewhere.filter(
                stays_elsewhere(key@, dropped@, old(s)@.packing),
            ),
            ..old(s)@
        }),
{
    let ghost p = stays_elsewhere(key@, dropped@, s@.packing);
    let ghost all = chapter_ids(s.pack_elsewhere@);
    let mut r: Vec<(String, usize)> = Vec::new();
    let mut i: usize = 0;
    proof {
        reveal(Seq::filter);
        assert(chapter_ids(r@) =~= all.take(0).filter(p));
    }
    while i < s.pack_elsewhere.len()
        invariant
            i <= s.pack_elsewhere@.len(),
            *s == *old(s),
            p == stays_elsewhere(key@, dropped@, s@.packing),
            all == chapter_ids(s.pack_elsewhere@),
            chapter_ids(r@) == all.take(i as int).filter(p),
        decreases s.pack_elsewhere@.len() - i,
    {
        let x = &s.pack_elsewhere[i];
        let ghost id = (x.0@, x.1);
        proof {
            assert(all[i as int] == id);
            all.take(i as int).lemma_filter_push(id, p);
            assert(all.take(i + 1) =~= all.take(i as int).push(id));
        }
        let on_it = match &s.packing {
            Some(j) => j.1 == x.1 && same_text(j.0.as_str(), x.0.as_str()),
            None => false,
        };
        if on_it || !has_number(dropped, x.1) || !same_text(x.0.as_str(), key) {
            let ghost before = chapter_ids(r@);
            r.push((x.0.clone(), x.1));
            assert(chapter_ids(r@) =~= before.push(id));
        }
        i += 1;
    }
    assert(all.take(i as int) =~= all);
    s.pack_elsewhere = r;
    assert(s@ =~= (SessionView {
        pack_elsewhere: old(s)@.pack_elsewhere.filter(p),
        ..old(s)@
    }));
}

/// The orders of a store without those of the first `n` of `want`.
pub open spec fn unordered_upto(b: StoreView, key: Seq<char>, want: Seq<usize>, n: int) -> StoreView
    decreases n,
{
    if n <= 0 {
        b
    } else {
        let c = unordered_upto(b, key, want, n - 1);
        StoreView {
            intents: crate::rows::drop_where(
                c.intents,
                crate::store::is_intent(key, want[n - 1]),
            ),
            ..c
        }
    }
}

/// Those of the first `n` of `want` that were ordered.
pub open spec fn had_orders_upto(b: StoreView, key: Seq<char>, want: Seq<usize>, n: int) -> Seq<usize>
    decreases n,
{
    if n <= 0 {
        Seq::empty()
    } else {
        let rest = had_orders_upto(b, key, want, n - 1);
        if unordered_upto(b, key, want, n).intents.len() < unordered_upto(
            b,
            key,
            want,
            n - 1,
        ).intents.len() {
            rest.push(want[n - 1])
        } else {
            rest
        }
    }
}

/// Take back the orders on a book that is not loaded: those named, or all of them
/// where none is. `chapters` is how many chapters the book has, where that is
/// known.
pub fn cancel_elsewhere(store: &mut Store, s: &mut Session, key: &str, chapters: Option<usize>, body: &ChapterSetBody) -> (r: CancelResult)
    ensures
        ({
            let n = match chapters {
                Some(n) => n as int,
                None => usize::MAX as int,
            };
            &&& r.ok
            &&& match cancels(body.chapters, n) {
                None => {
                    &&& r.queue@ == chapters_in(
                        crate::order::sorted(
                            old(store)@.intents.filter(crate::store::intents_for(key@)),
                            crate::store::by_seq(),
                        ),
                    )
                    &&& final(store)@ == (StoreView {
                        intents: crate::rows::drop_where(
                            old(store)@.intents,
                            crate::store::intents_for(key@),
                        ),
                        ..old(store)@
                    })
                },
                Some(w) => {
                    &&& r.queue@ == had_orders_upto(old(store)@, key@, w, w.len() as int)
                    &&& final(store)@ == unordered_upto(old(store)@, key@, w, w.len() as int)
                },
            }
            &&& final(s)@ == (SessionView {
                pack_elsewhere: old(s)@.pack_elsewhere.filter(
                    stays_elsewhere(key@, r.queue@, old(s)@.packing),
                ),
                ..old(s)@
            })
        }),
{
    let any = match &body.chapters {
        Some(c) => c.len() > 0,
        None => false,
    };
    let dropped = if !any {
        let rows = store.intents(key);
        let all = copy_chapters(&rows);
        let _gone: usize = store.drop_intents_for_book(key);
        all
    } else {
        let n: usize = match chapters {
            Some(n) => n,
            None => usize::MAX,
        };
        let w = wanted(body, n);
        let ghost was = store@;
        let mut out: Vec<usize> = Vec::new();
        let mut i: usize = 0;
        while i < w.len()
            invariant
                i <= w@.len(),
                store@ == unordered_upto(was, key@, w@, i as int),
                out@ == had_orders_upto(was, key@, w@, i as int),
            decreases w@.len() - i,
        {
            let c: usize = w[i];
            if store.drop_intent(key, c) {
                out.push(c);
            }
            i += 1;
        }
        out
    };
    drop_jobs(s, key, &dropped);
    CancelResult { ok: true, queue: dropped }
}

} // verus!
