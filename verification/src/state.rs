//! The one session: the loaded book, where it is being read, and what is queued.

use std::collections::BTreeSet;
use std::sync::Arc;
use vstd::prelude::*;
use crate::book::{chapter_views, Chapter, ChapterView};
use crate::cache::{book_key, chapter_dir, chapter_dir_of, key_of};
use crate::chapters::{chapter_ids, ChapterId};
use crate::chars::{opt_text, texts};
use crate::paths::{file_name, name_of};

verus! {

/// The loaded book and what is being done with it.
#[derive(Debug)]
pub struct Session {
    pub status: String,
    /// The path of the loaded book.
    pub book: Option<String>,
    pub title: Option<String>,
    pub plan: Arc<Vec<Chapter>>,
    pub chapter: usize,
    /// Where the renderer last was. A hint: the disk says what is rendered.
    pub render_idx: usize,
    pub playhead: usize,
    pub error: Option<String>,
    pub model_ready: bool,
    pub prerender: Option<usize>,
    /// The chapters that were asked for by name, in the order asked.
    pub queue: Vec<usize>,
    /// The chapters to pack once they are rendered.
    pub build_want: BTreeSet<usize>,
    /// The chapters waiting for the packer.
    pub pack_queue: Vec<usize>,
    /// The same, of books that are not loaded.
    pub pack_elsewhere: Vec<(String, usize)>,
    /// The chapter of the loaded book that the packer is on.
    pub building: Option<usize>,
    /// The chapter that the packer is on, whichever book it is of.
    pub packing: Option<(String, usize)>,
    pub build_error: Option<String>,
}

/// What a [`Session`] holds.
#[verifier::ext_equal]
pub struct SessionView {
    pub status: Seq<char>,
    pub book: Option<Seq<char>>,
    pub title: Option<Seq<char>>,
    pub plan: Seq<ChapterView>,
    pub chapter: usize,
    pub render_idx: usize,
    pub playhead: usize,
    pub error: Option<Seq<char>>,
    pub model_ready: bool,
    pub prerender: Option<usize>,
    pub queue: Seq<usize>,
    pub build_want: Set<usize>,
    pub pack_queue: Seq<usize>,
    pub pack_elsewhere: Seq<ChapterId>,
    pub building: Option<usize>,
    pub packing: Option<ChapterId>,
    pub build_error: Option<Seq<char>>,
}

/// What an optional chapter names.
pub open spec fn opt_chapter(o: Option<(String, usize)>) -> Option<ChapterId> {
    match o {
        Some(c) => Some((c.0@, c.1)),
        None => None,
    }
}

impl View for Session {
    type V = SessionView;

    open spec fn view(&self) -> SessionView {
        SessionView {
            status: self.status@,
            book: opt_text(self.book),
            title: opt_text(self.title),
            plan: chapter_views(self.plan@),
            chapter: self.chapter,
            render_idx: self.render_idx,
            playhead: self.playhead,
            error: opt_text(self.error),
            model_ready: self.model_ready,
            prerender: self.prerender,
            queue: self.queue@,
            build_want: self.build_want@,
            pack_queue: self.pack_queue@,
            pack_elsewhere: chapter_ids(self.pack_elsewhere@),
            building: self.building,
            packing: opt_chapter(self.packing),
            build_error: opt_text(self.build_error),
        }
    }
}

/// A session in which nothing has happened yet.
pub open spec fn idle_session() -> SessionView {
    SessionView {
        status: "idle"@,
        book: None,
        title: None,
        plan: Seq::empty(),
        chapter: 0,
        render_idx: 0,
        playhead: 0,
        error: None,
        model_ready: false,
        prerender: None,
        queue: Seq::empty(),
        build_want: Set::empty(),
        pack_queue: Seq::empty(),
        pack_elsewhere: Seq::empty(),
        building: None,
        packing: None,
        build_error: None,
    }
}

impl SessionView {
    /// The key of the loaded book.
    pub open spec fn key(self) -> Option<Seq<char>> {
        match self.book {
            Some(b) => Some(key_of(b)),
            None => None,
        }
    }

    /// The key of the loaded book, and `x` where none is.
    pub open spec fn key_or_x(self) -> Seq<char> {
        match self.book {
            Some(b) => key_of(b),
            None => "x"@,
        }
    }

    /// The file name of the loaded book.
    pub open spec fn book_name(self) -> Option<Seq<char>> {
        match self.book {
            Some(b) => Some(
                match name_of(b) {
                    Some(n) => n,
                    None => b,
                },
            ),
            None => None,
        }
    }

    /// Whether chapter `c` of the book `k` is one that something is being done
    /// with: the chapter being read and the `span` after it, whatever is asked
    /// for of the loaded book, and whatever the packer has of any book.
    pub open spec fn in_use(self, k: Seq<char>, c: usize, span: usize) -> bool {
        ||| self.pack_elsewhere.contains((k, c))
        ||| self.packing == Some((k, c))
        ||| {
            &&& self.key() == Some(k)
            &&& c < self.plan.len()
            &&& {
                ||| self.chapter <= c <= self.chapter + span
                ||| self.queue.contains(c)
                ||| self.build_want.contains(c)
                ||| self.pack_queue.contains(c)
                ||| self.building == Some(c)
            }
        }
    }
}

/// The directories of some chapters.
pub open spec fn dirs_of(work: Seq<char>, ids: Set<ChapterId>) -> Set<Seq<char>> {
    ids.map(|id: ChapterId| chapter_dir_of(work, id.0, id.1 as nat))
}

fn keep_dir(keep: &mut Vec<String>, work: &str, key: &str, c: usize, Ghost(ids): Ghost<Set<ChapterId>>)
    requires
        texts(old(keep)@).to_set() == dirs_of(work@, ids),
    ensures
        texts(final(keep)@).to_set() == dirs_of(work@, ids.insert((key@, c))),
{
    let ghost before = texts(keep@);
    let d = chapter_dir(work, key, c);
    keep.push(d);
    proof {
        let f = |id: ChapterId| chapter_dir_of(work@, id.0, id.1 as nat);
        let after = texts(keep@);
        assert(after =~= before.push(d@));
        let more = ids.insert((key@, c));
        assert forall|p: Seq<char>| #[trigger] after.to_set().contains(p) <==> dirs_of(
            work@,
            more,
        ).contains(p) by {
            if after.contains(p) {
                let i = choose|i: int| 0 <= i < after.len() && after[i] == p;
                if i == before.len() {
                    assert(more.contains((key@, c)) && f((key@, c)) == p);
                } else {
                    assert(before[i] == p);
                    assert(before.to_set().contains(p));
                    let id = choose|id: ChapterId| ids.contains(id) && f(id) == p;
                    assert(more.contains(id) && f(id) == p);
                }
            }
            if dirs_of(work@, more).contains(p) {
                let id = choose|id: ChapterId| more.contains(id) && f(id) == p;
                if id == (key@, c) {
                    assert(after[before.len() as int] == p);
                } else {
                    assert(ids.contains(id) && f(id) == p);
                    assert(before.to_set().contains(p));
                    let i = choose|i: int| 0 <= i < before.len() && before[i] == p;
                    assert(after[i] == p);
                }
            }
        }
        assert(after.to_set() =~= dirs_of(work@, more));
    }
}

impl Session {
    /// A session in which nothing has happened yet.
    pub fn new() -> (r: Self)
        ensures
            r@ == idle_session(),
    {
        let r = Session {
            status: "idle".to_owned(),
            book: None,
            title: None,
            plan: Arc::new(Vec::new()),
            chapter: 0,
            render_idx: 0,
            playhead: 0,
            error: None,
            model_ready: false,
            prerender: None,
            queue: Vec::new(),
            build_want: BTreeSet::new(),
            pack_queue: Vec::new(),
            pack_elsewhere: Vec::new(),
            building: None,
            packing: None,
            build_error: None,
        };
        assert(r@ =~= idle_session());
        r
    }

    /// The key of the loaded book.
    pub fn key(&self) -> (r: Option<String>)
        ensures
            opt_text(r) == self@.key(),
    {
        match &self.book {
            Some(b) => Some(book_key(b.as_str())),
            None => None,
        }
    }

    /// The key of the loaded book, and `x` where none is.
    pub fn key_or_x(&self) -> (r: String)
        ensures
            r@ == self@.key_or_x(),
    {
        match &self.book {
            Some(b) => book_key(b.as_str()),
            None => "x".to_owned(),
        }
    }

    /// The file name of the loaded book.
    pub fn book_name(&self) -> (r: Option<String>)
        ensures
            opt_text(r) == self@.book_name(),
    {
        match &self.book {
            Some(b) => match file_name(b.as_str()) {
                Some(n) => Some(n),
                None => Some(b.clone()),
            },
            None => None,
        }
    }

    /// The directories of the chapters that something is being done with, `span`
    /// being how many chapters past the one being read are rendered ahead.
    pub fn gc_keep(&self, work: &str, span: usize) -> (r: Vec<String>)
        ensures
            texts(r@).to_set() == dirs_of(
                work@,
                Set::new(|id: ChapterId| self@.in_use(id.0, id.1, span)),
            ),
    {
        broadcast use vstd::std_specs::btree::group_btree_axioms;

        let ghost s = self@;
        let mut keep: Vec<String> = Vec::new();
        let ghost mut ids: Set<ChapterId> = Set::empty();
        proof {
            assert(texts(keep@).to_set() =~= dirs_of(work@, ids));
        }
        let mut i: usize = 0;
        while i < self.pack_elsewhere.len()
            invariant
                s == self@,
                i <= self.pack_elsewhere@.len(),
                texts(keep@).to_set() == dirs_of(work@, ids),
                ids == s.pack_elsewhere.take(i as int).to_set(),
            decreases self.pack_elsewhere@.len() - i,
        {
            let job = &self.pack_elsewhere[i];
            keep_dir(&mut keep, work, job.0.as_str(), job.1, Ghost(ids));
            proof {
                let was = s.pack_elsewhere.take(i as int);
                assert(s.pack_elsewhere[i as int] == (job.0@, job.1));
                assert(s.pack_elsewhere.take(i + 1) =~= was.push((job.0@, job.1)));
                vstd::seq_lib::seq_to_set_is_finite(was);
                was.lemma_push_to_set_commute((job.0@, job.1));
                ids = ids.insert((job.0@, job.1));
            }
            i += 1;
        }
        proof {
            assert(s.pack_elsewhere.take(i as int) =~= s.pack_elsewhere);
        }
        if let Some(job) = &self.packing {
            keep_dir(&mut keep, work, job.0.as_str(), job.1, Ghost(ids));
            proof {
                ids = ids.insert((job.0@, job.1));
            }
        }
        let key = match self.key() {
            Some(k) => k,
            None => {
                proof {
                    assert(ids =~= Set::new(|id: ChapterId| s.in_use(id.0, id.1, span)));
                }
                return keep;
            },
        };
        let n: usize = self.plan.len();
        let ghost foreign = ids;
        let mut c: usize = 0;
        while c < n
            invariant
                s == self@,
                n == s.plan.len(),
                s.key() == Some(key@),
                c <= n,
                texts(keep@).to_set() == dirs_of(work@, ids),
                forall|id: ChapterId| #[trigger]
                    ids.contains(id) <==> foreign.contains(id) || (id.0 == key@ && id.1 < c
                        && s.in_use(id.0, id.1, span)),
                forall|id: ChapterId| #[trigger]
                    foreign.contains(id) <==> s.pack_elsewhere.contains(id) || s.packing == Some(
                        id,
                    ),
            decreases n - c,
        {
            let read = self.chapter <= c && c - self.chapter <= span;
            let mut pending = read || has_number(&self.queue, c) || has_number(&self.pack_queue, c)
                || self.build_want.contains(&c);
            if let Some(b) = self.building {
                pending = pending || b == c;
            }
            if pending {
                assert(s.in_use(key@, c, span));
                keep_dir(&mut keep, work, key.as_str(), c, Ghost(ids));
                proof {
                    ids = ids.insert((key@, c));
                }
            }
            c += 1;
        }
        proof {
            assert(ids =~= Set::new(|id: ChapterId| s.in_use(id.0, id.1, span)));
        }
        keep
    }
}

/// Whether `c` is one of some numbers.
pub fn has_number(v: &Vec<usize>, c: usize) -> (r: bool)
    ensures
        r == v@.contains(c),
{
    let mut i: usize = 0;
    while i < v.len()
        invariant
            i <= v@.len(),
            forall|k: int| 0 <= k < i ==> #[trigger] v@[k] != c,
        decreases v@.len() - i,
    {
        if v[i] == c {
            return true;
        }
        i += 1;
    }
    false
}

// ------------------------------------------------------------ orders elsewhere

/// A chapter that somebody has a standing order on.
#[derive(Debug, Clone, Copy, PartialEq, Eq, Structural)]
pub struct Order {
    pub chapter: usize,
    /// Out of attempts: still wanted, no longer tried.
    pub parked: bool,
    /// To be packed once it is rendered.
    pub pack: bool,
}

/// The standing orders on one book.
#[derive(Debug, Clone)]
pub struct Orders {
    pub key: String,
    pub items: Vec<Order>,
}

/// The chapters that the orders on one book name.
pub open spec fn ordered(o: Orders, k: Seq<char>, c: usize) -> bool {
    o.key@ == k && exists|i: int| 0 <= i < o.items@.len() && (#[trigger] o.items@[i]).chapter == c
}

/// The chapters that any order names.
pub open spec fn ordered_by(all: Seq<Orders>, k: Seq<char>, c: usize) -> bool {
    exists|j: int| 0 <= j < all.len() && ordered(#[trigger] all[j], k, c)
}

fn keep_orders(
    keep: &mut Vec<String>,
    work: &str,
    o: &Orders,
    Ghost(ids): Ghost<Set<ChapterId>>,
) -> (r: Ghost<Set<ChapterId>>)
    requires
        texts(old(keep)@).to_set() == dirs_of(work@, ids),
    ensures
        texts(final(keep)@).to_set() == dirs_of(work@, r@),
        forall|id: ChapterId| #[trigger] r@.contains(id) <==> ids.contains(id) || ordered(*o, id.0, id.1),
{
    let ghost mut now = ids;
    let mut i: usize = 0;
    while i < o.items.len()
        invariant
            i <= o.items@.len(),
            texts(keep@).to_set() == dirs_of(work@, now),
            forall|id: ChapterId| #[trigger]
                now.contains(id) <==> ids.contains(id) || (id.0 == o.key@ && exists|k: int|
                    0 <= k < i && (#[trigger] o.items@[k]).chapter == id.1),
        decreases o.items@.len() - i,
    {
        let c: usize = o.items[i].chapter;
        keep_dir(keep, work, o.key.as_str(), c, Ghost(now));
        proof {
            let was = now;
            now = now.insert((o.key@, c));
            assert forall|id: ChapterId| #[trigger] now.contains(id) <==> ids.contains(id) || (id.0
                == o.key@ && exists|k: int|
                0 <= k < i + 1 && (#[trigger] o.items@[k]).chapter == id.1) by {
                if id == (o.key@, c) {
                    assert(o.items@[i as int].chapter == id.1);
                } else if was.contains(id) && !ids.contains(id) {
                    let k = choose|k: int|
                        0 <= k < i && (#[trigger] o.items@[k]).chapter == id.1;
                    assert(o.items@[k].chapter == id.1);
                }
            }
        }
        i += 1;
    }
    Ghost(now)
}

/// Every directory that must be left alone: those the session is doing something
/// with, and those of every chapter that somebody has a standing order on,
/// whichever book it is of and whether it is parked or not.
pub fn gc_keep(session: &Session, work: &str, span: usize, orders: &Vec<Orders>) -> (r: Vec<String>)
    ensures
        texts(r@).to_set() == dirs_of(
            work@,
            Set::new(
                |id: ChapterId|
                    session@.in_use(id.0, id.1, span) || ordered_by(orders@, id.0, id.1),
            ),
        ),
{
    let mut keep = session.gc_keep(work, span);
    let ghost used = Set::new(|id: ChapterId| session@.in_use(id.0, id.1, span));
    let ghost mut ids = used;
    let mut j: usize = 0;
    while j < orders.len()
        invariant
            j <= orders@.len(),
            used == Set::new(|id: ChapterId| session@.in_use(id.0, id.1, span)),
            texts(keep@).to_set() == dirs_of(work@, ids),
            forall|id: ChapterId| #[trigger]
                ids.contains(id) <==> used.contains(id) || exists|k: int|
                    0 <= k < j && ordered(#[trigger] orders@[k], id.0, id.1),
        decreases orders@.len() - j,
    {
        let Ghost(now) = keep_orders(&mut keep, work, &orders[j], Ghost(ids));
        proof {
            assert forall|id: ChapterId| #[trigger] now.contains(id) <==> used.contains(id)
                || exists|k: int| 0 <= k < j + 1 && ordered(#[trigger] orders@[k], id.0, id.1) by {
                if ordered(orders@[j as int], id.0, id.1) {
                    assert(ordered(orders@[j as int], id.0, id.1));
                } else if ids.contains(id) && !used.contains(id) {
                    let k = choose|k: int|
                        0 <= k < j && ordered(#[trigger] orders@[k], id.0, id.1);
                    assert(ordered(orders@[k], id.0, id.1));
                }
            }
            ids = now;
        }
        j += 1;
    }
    proof {
        assert(ids =~= Set::new(
            |id: ChapterId| session@.in_use(id.0, id.1, span) || ordered_by(orders@, id.0, id.1),
        ));
    }
    keep
}

// ------------------------------------------------------------------------ gates

/// What a waiter at a gate does.
#[derive(Debug, Clone, Copy, PartialEq, Eq, Structural)]
pub enum Waiting {
    /// Go on, the way being open or not.
    Done(bool),
    /// Sleep, no longer than this.
    Sleep(u64),
}

/// A flag that a thread waits for.
#[derive(Debug, Clone, Copy, PartialEq, Eq, Structural)]
pub struct Gate {
    pub open: bool,
}

impl Gate {
    /// A gate that is closed.
    pub fn new() -> (r: Self)
        ensures
            !r.open,
    {
        Gate { open: false }
    }

    /// Open it.
    pub fn set(&mut self)
        ensures
            final(self).open,
    {
        self.open = true;
    }

    /// Close it.
    pub fn clear(&mut self)
        ensures
            !final(self).open,
    {
        self.open = false;
    }

    /// Whether it is open.
    pub fn is_set(&self) -> (r: bool)
        ensures
            r == self.open,
    {
        self.open
    }

    /// What one who has waited for `waited` does, and was to wait for `timeout`:
    /// an open gate is gone through at once, and a closed one is given up on in
    /// time.
    pub fn wait(&self, waited: u64, timeout: u64) -> (r: Waiting)
        ensures
            r == if self.open || waited >= timeout {
                Waiting::Done(self.open)
            } else {
                Waiting::Sleep((timeout - waited) as u64)
            },
    {
        if self.open || waited >= timeout {
            Waiting::Done(self.open)
        } else {
            Waiting::Sleep(timeout - waited)
        }
    }
}

// ----------------------------------------------------------------------- stamps

/// The counter that position writes are stamped from.
#[derive(Debug, Clone, Copy, PartialEq, Eq, Structural)]
pub struct Stamps {
    pub next: u64,
}

impl Stamps {
    /// No stamp has been given.
    pub fn new() -> (r: Self)
        ensures
            r.next == 1,
    {
        Stamps { next: 1 }
    }

    /// The next stamp. It is never 0, which is what a record without one says.
    pub fn next_seq(&mut self) -> (r: u64)
        requires
            old(self).next < u64::MAX,
        ensures
            r == stamp_at(old(self).next),
            final(self).next == old(self).next + 1,
    {
        let n: u64 = self.next;
        self.next = n + 1;
        if n == 0 {
            1
        } else {
            n
        }
    }

    /// Lift the counter past a stamp that is on record. It only ever goes up.
    pub fn seed_seq(&mut self, at_least: u64)
        ensures
            final(self).next == seeded(old(self).next, at_least),
    {
        let least: u64 = if at_least == u64::MAX {
            at_least
        } else {
            at_least + 1
        };
        if self.next < least {
            self.next = least;
        }
    }
}

/// A counter lifted past `at_least`.
pub open spec fn seeded(next: u64, at_least: u64) -> u64 {
    let least = if at_least == u64::MAX {
        u64::MAX
    } else {
        (at_least + 1) as u64
    };
    if next < least {
        least
    } else {
        next
    }
}

/// The stamp that a counter at `next` gives.
pub open spec fn stamp_at(next: u64) -> u64 {
    if next == 0 {
        1
    } else {
        next
    }
}

/// No stamp is given twice: a later one is larger, and one given after a restart
/// is larger than every one on record.
pub proof fn law_stamps_never_repeat(next: u64, later: u64, on_record: u64)
    requires
        0 < next < later,
        on_record < u64::MAX,
    ensures
        0 < stamp_at(next) < stamp_at(later),
        stamp_at(seeded(next, on_record)) > on_record,
        seeded(next, on_record) >= next,
        seeded(seeded(next, on_record), on_record) == seeded(next, on_record),
{
}

// ------------------------------------------------------------------- the stall

/// Since when the renderer has been behind the playhead. The times are of a
/// clock that never goes back.
#[derive(Debug, Clone, Copy, PartialEq, Eq, Structural)]
pub struct Stall {
    pub since: Option<u64>,
}

impl Stall {
    /// The renderer is not behind.
    pub fn new() -> (r: Self)
        ensures
            r.since is None,
    {
        Stall { since: None }
    }

    /// How long the renderer has been behind; 0 where it is not.
    pub open spec fn length(self, now: u64) -> u64 {
        match self.since {
            Some(t) if t < now => (now - t) as u64,
            _ => 0,
        }
    }

    /// How long the renderer has been behind; 0 where it is not.
    pub fn stalled_for(&self, now: u64) -> (r: u64)
        ensures
            r == self.length(now),
    {
        match self.since {
            Some(t) => if t < now {
                now - t
            } else {
                0
            },
            None => 0,
        }
    }

    /// The stall once it was noted whether the renderer is behind.
    pub open spec fn noted(self, yes: bool, now: u64) -> Stall {
        Stall {
            since: if !yes {
                None
            } else if self.since is Some {
                self.since
            } else {
                Some(now)
            },
        }
    }

    /// Note whether the renderer is behind. A stall that goes on keeps its start.
    pub fn set_stalled(&mut self, yes: bool, now: u64)
        ensures
            *final(self) == old(self).noted(yes, now),
    {
        if !yes {
            self.since = None;
        } else if self.since.is_none() {
            self.since = Some(now);
        }
    }
}

} // verus!
