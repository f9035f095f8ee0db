//! The packer's turn: which chapter becomes a file next, and what that changes.

use std::sync::Arc;
use vstd::prelude::*;
use crate::book::{chapter_views, Chapter, ChapterView};
use crate::chapters::{chapter_gc_tag, chapter_ids, tag_of, ChapterId};
use crate::chars::{cat, decimal, decimal_text, opt_text, same_text};
use crate::render::{answers, can_ask, chunks_in, first_gap, first_missing, opt_plan, Disk};
use crate::state::{has_number, Session, SessionView};

verus! {

// -------------------------------------------------------------------- the queues

/// Every number but `c`.
pub open spec fn not_number(c: usize) -> spec_fn(usize) -> bool {
    |x: usize| x != c
}

/// Every chapter but `id`.
pub open spec fn not_chapter(id: ChapterId) -> spec_fn(ChapterId) -> bool {
    |x: ChapterId| x != id
}

/// `s` with `c` behind it, where it does not hold it yet.
pub open spec fn with_one<T>(s: Seq<T>, c: T) -> Seq<T> {
    if s.contains(c) {
        s
    } else {
        s.push(c)
    }
}

fn drop_number(v: &Vec<usize>, c: usize) -> (r: Vec<usize>)
    ensures
        r@ == v@.filter(not_number(c)),
{
    let mut r: Vec<usize> = Vec::new();
    let mut i: usize = 0;
    proof {
        reveal(Seq::filter);
        assert(r@ =~= v@.take(0).filter(not_number(c)));
    }
    while i < v.len()
        invariant
            i <= v@.len(),
            r@ == v@.take(i as int).filter(not_number(c)),
        decreases v@.len() - i,
    {
        let x: usize = v[i];
        proof {
            v@.take(i as int).lemma_filter_push(x, not_number(c));
            assert(v@.take(i + 1) =~= v@.take(i as int).push(x));
        }
        if x != c {
            r.push(x);
        }
        i += 1;
    }
    assert(v@.take(i as int) =~= v@);
    r
}

fn drop_chapter(v: &Vec<(String, usize)>, key: &str, c: usize) -> (r: Vec<(String, usize)>)
    ensures
        chapter_ids(r@) == chapter_ids(v@).filter(not_chapter((key@, c))),
{
    let ghost p = not_chapter((key@, c));
    let ghost all = chapter_ids(v@);
    let mut r: Vec<(String, usize)> = Vec::new();
    let mut i: usize = 0;
    proof {
        reveal(Seq::filter);
        assert(chapter_ids(r@) =~= all.take(0).filter(p));
    }
    while i < v.len()
        invariant
            i <= v@.len(),
            p == not_chapter((key@, c)),
            all == chapter_ids(v@),
            chapter_ids(r@) == all.take(i as int).filter(p),
        decreases v@.len() - i,
    {
        let x = &v[i];
        let ghost id = (x.0@, x.1);
        proof {
            assert(all[i as int] == id);
            all.take(i as int).lemma_filter_push(id, p);
            assert(all.take(i + 1) =~= all.take(i as int).push(id));
        }
        if x.1 != c || !same_text(x.0.as_str(), key) {
            let ghost before = chapter_ids(r@);
            r.push((x.0.clone(), x.1));
            assert(chapter_ids(r@) =~= before.push(id));
        }
        i += 1;
    }
    assert(all.take(i as int) =~= all);
    r
}

fn has_chapter(v: &Vec<(String, usize)>, key: &str, c: usize) -> (r: bool)
    ensures
        r == chapter_ids(v@).contains((key@, c)),
{
    let mut i: usize = 0;
    while i < v.len()
        invariant
            i <= v@.len(),
            forall|k: int| 0 <= k < i ==> #[trigger] chapter_ids(v@)[k] != (key@, c),
        decreases v@.len() - i,
    {
        let x = &v[i];
        assert(chapter_ids(v@)[i as int] == (x.0@, x.1));
        if x.1 == c && same_text(x.0.as_str(), key) {
            return true;
        }
        i += 1;
    }
    false
}

/// A chapter that the packer is given.
#[derive(Debug, PartialEq, Eq)]
pub enum Job {
    /// There is none.
    Nothing,
    /// A chapter of a book that is not loaded. Its plan has to be read.
    Elsewhere(String, usize),
    /// A chapter of the loaded book, which has begun.
    Loaded(String, usize),
}

/// What a job leaves behind.
#[derive(Debug)]
pub struct Finished {
    /// Whether it was one of the loaded book.
    pub loaded: bool,
    /// The packed chapter that must not be trimmed: the one being read.
    pub keep: Option<String>,
}

/// A session in which the packer is on chapter `c` of the book `k`.
pub open spec fn packing_of(s: SessionView, k: Seq<char>, c: usize) -> SessionView {
    SessionView {
        packing: Some((k, c)),
        building: if s.key() == Some(k) {
            Some(c)
        } else {
            s.building
        },
        ..s
    }
}

/// A session whose packer is done with chapter `c` of the book `k`.
pub open spec fn packed_of(s: SessionView, k: Seq<char>, c: usize, error: Option<Seq<char>>) -> SessionView {
    let done = SessionView {
        build_error: error,
        building: None,
        packing: None,
        pack_elsewhere: s.pack_elsewhere.filter(not_chapter((k, c))),
        ..s
    };
    if s.key() == Some(k) {
        SessionView {
            pack_queue: s.pack_queue.filter(not_number(c)),
            build_want: s.build_want.remove(c),
            ..done
        }
    } else {
        done
    }
}

impl Session {
    /// Whether `key` is the loaded book's.
    pub fn is_loaded(&self, key: &str) -> (r: bool)
        ensures
            r == (self@.key() == Some(key@)),
    {
        match self.key() {
            Some(k) => same_text(k.as_str(), key),
            None => false,
        }
    }

    /// Take a chapter off the queue, and say whether it is to be packed.
    pub fn leave_queue(&mut self, c: usize) -> (r: bool)
        ensures
            r == old(self)@.build_want.contains(c),
            final(self)@ == (SessionView {
                queue: old(self)@.queue.filter(not_number(c)),
                ..old(self)@
            }),
    {
        broadcast use vstd::std_specs::btree::group_btree_axioms;

        self.queue = drop_number(&self.queue, c);
        assert(self@ =~= (SessionView {
            queue: old(self)@.queue.filter(not_number(c)),
            ..old(self)@
        }));
        self.build_want.contains(&c)
    }

    /// Ask for a chapter of the loaded book to be packed. Asking twice is asking
    /// once.
    pub fn enqueue_build(&mut self, c: usize)
        ensures
            final(self)@ == (SessionView {
                pack_queue: with_one(old(self)@.pack_queue, c),
                ..old(self)@
            }),
    {
        if !has_number(&self.pack_queue, c) {
            self.pack_queue.push(c);
        }
        assert(self@ =~= (SessionView {
            pack_queue: with_one(old(self)@.pack_queue, c),
            ..old(self)@
        }));
    }

    /// The same, of a book that is not loaded.
    pub fn enqueue_build_elsewhere(&mut self, key: &str, c: usize)
        ensures
            final(self)@ == (SessionView {
                pack_elsewhere: with_one(old(self)@.pack_elsewhere, (key@, c)),
                ..old(self)@
            }),
    {
        if !has_chapter(&self.pack_elsewhere, key, c) {
            let ghost before = chapter_ids(self.pack_elsewhere@);
            self.pack_elsewhere.push((key.to_owned(), c));
            assert(chapter_ids(self.pack_elsewhere@) =~= before.push((key@, c)));
        }
        assert(self@ =~= (SessionView {
            pack_elsewhere: with_one(old(self)@.pack_elsewhere, (key@, c)),
            ..old(self)@
        }));
    }

    /// Move the hint past chunk `i`, which has been rendered. A hint that has been
    /// moved further meanwhile stays.
    pub fn advance(&mut self, i: usize) -> (r: usize)
        requires
            i < usize::MAX,
        ensures
            r == if old(self)@.render_idx <= i {
                i + 1
            } else {
                old(self)@.render_idx as int
            },
            final(self)@ == (SessionView { render_idx: r, ..old(self)@ }),
    {
        if self.render_idx <= i {
            self.render_idx = i + 1;
        }
        assert(self@ =~= (SessionView { render_idx: self.render_idx, ..old(self)@ }));
        self.render_idx
    }

    /// Show what the renderer is doing, and which chapter ahead it is on.
    pub fn show(&mut self, status: &str, prerender: Option<usize>)
        ensures
            final(self)@ == (SessionView { status: status@, prerender, ..old(self)@ }),
    {
        self.status = status.to_owned();
        self.prerender = prerender;
        assert(self@ =~= (SessionView { status: status@, prerender, ..old(self)@ }));
    }

    /// The next job for the packer. One of the loaded book comes before one of
    /// any other, and has begun when it is handed out.
    pub fn next_job(&mut self) -> (r: Job)
        ensures
            match r {
                Job::Loaded(k, c) => {
                    &&& old(self)@.pack_queue.len() > 0
                    &&& c == old(self)@.pack_queue[0]
                    &&& k@ == old(self)@.key_or_x()
                    &&& final(self)@ == (SessionView {
                        building: Some(c),
                        packing: Some((k@, c)),
                        ..old(self)@
                    })
                },
                Job::Elsewhere(k, c) => {
                    &&& old(self)@.pack_queue.len() == 0
                    &&& old(self)@.pack_elsewhere.len() > 0
                    &&& (k@, c) == old(self)@.pack_elsewhere[0]
                    &&& final(self)@ == old(self)@
                },
                Job::Nothing => {
                    &&& old(self)@.pack_queue.len() == 0
                    &&& old(self)@.pack_elsewhere.len() == 0
                    &&& final(self)@ == old(self)@
                },
            },
    {
        if self.pack_queue.len() > 0 {
            let c: usize = self.pack_queue[0];
            let key = self.key_or_x();
            self.building = Some(c);
            self.packing = Some((key.clone(), c));
            assert(self@ =~= (SessionView {
                building: Some(c),
                packing: Some((key@, c)),
                ..old(self)@
            }));
            return Job::Loaded(key, c);
        }
        if self.pack_elsewhere.len() > 0 {
            let job = &self.pack_elsewhere[0];
            assert(chapter_ids(self.pack_elsewhere@)[0] == (job.0@, job.1));
            return Job::Elsewhere(job.0.clone(), job.1);
        }
        Job::Nothing
    }

    /// The packer begins with a chapter of a book whose plan was read.
    pub fn start_elsewhere(&mut self, key: &str, c: usize)
        ensures
            final(self)@ == packing_of(old(self)@, key@, c),
    {
        let mine = self.is_loaded(key);
        self.packing = Some((key.to_owned(), c));
        if mine {
            self.building = Some(c);
        }
        assert(self@ =~= packing_of(old(self)@, key@, c));
    }

    /// Drop a job of a book that has no plan.
    pub fn drop_elsewhere(&mut self, key: &str, c: usize)
        ensures
            final(self)@ == (SessionView {
                pack_elsewhere: old(self)@.pack_elsewhere.filter(not_chapter((key@, c))),
                ..old(self)@
            }),
    {
        self.pack_elsewhere = drop_chapter(&self.pack_elsewhere, key, c);
        assert(self@ =~= (SessionView {
            pack_elsewhere: old(self)@.pack_elsewhere.filter(not_chapter((key@, c))),
            ..old(self)@
        }));
    }

    /// The packer is done with a chapter, whether it packed or not. Only a job of
    /// the loaded book clears the loaded book's queues.
    pub fn finish_job(&mut self, key: &str, c: usize, error: Option<String>) -> (r: Finished)
        ensures
            final(self)@ == packed_of(old(self)@, key@, c, opt_text(error)),
            r.loaded == (old(self)@.key() == Some(key@)),
            opt_text(r.keep) == match old(self)@.key() {
                Some(k) => Some(tag_of(k, old(self)@.chapter as nat)),
                None => None,
            },
    {
        broadcast use vstd::std_specs::btree::group_btree_axioms;

        let loaded = self.is_loaded(key);
        let keep = match self.key() {
            Some(k) => Some(chapter_gc_tag(k.as_str(), self.chapter)),
            None => None,
        };
        self.build_error = error;
        self.building = None;
        self.packing = None;
        self.pack_elsewhere = drop_chapter(&self.pack_elsewhere, key, c);
        if loaded {
            self.pack_queue = drop_number(&self.pack_queue, c);
            let _was: bool = self.build_want.remove(&c);
        }
        assert(self@ =~= packed_of(old(self)@, key@, c, opt_text(error)));
        Finished { loaded, keep }
    }
}

/// A job of another book leaves what was asked for of the loaded book alone.
pub proof fn law_a_foreign_job_touches_no_queue(
    s: SessionView,
    k: Seq<char>,
    c: usize,
    error: Option<Seq<char>>,
)
    requires
        s.key() != Some(k),
    ensures
        packed_of(s, k, c, error).pack_queue == s.pack_queue,
        packed_of(s, k, c, error).build_want == s.build_want,
        packed_of(s, k, c, error).queue == s.queue,
        packing_of(s, k, c).building == s.building,
{
}

/// A job that is finished is not handed out again, whether it packed or not.
pub proof fn law_a_job_ends(s: SessionView, k: Seq<char>, c: usize, error: Option<Seq<char>>)
    ensures
        !packed_of(s, k, c, error).pack_elsewhere.contains((k, c)),
        s.key() == Some(k) ==> !packed_of(s, k, c, error).pack_queue.contains(c)
            && !packed_of(s, k, c, error).build_want.contains(c),
{
    let t = packed_of(s, k, c, error);
    let p = not_chapter((k, c));
    if t.pack_elsewhere.contains((k, c)) {
        let i = choose|i: int| 0 <= i < t.pack_elsewhere.len() && t.pack_elsewhere[i] == (k, c);
        s.pack_elsewhere.lemma_filter_pred(p, i);
        assert(p(t.pack_elsewhere[i]));
    }
    if s.key() == Some(k) && t.pack_queue.contains(c) {
        let q = not_number(c);
        let i = choose|i: int| 0 <= i < t.pack_queue.len() && t.pack_queue[i] == c;
        s.pack_queue.lemma_filter_pred(q, i);
        assert(q(t.pack_queue[i]));
    }
}

/// What packing came to: the number of chunks, or what is shown.
pub fn pack_outcome(ci: usize, found: bool, built: Result<usize, String>) -> (r: Result<usize, String>)
    requires
        ci < usize::MAX,
    ensures
        match r {
            Ok(n) => found && built == Ok::<usize, String>(n),
            Err(e) => if !found {
                e@ == "chapter out of range"@
            } else {
                built matches Err(why) && e@ == "chapter "@ + decimal((ci + 1) as nat) + ": "@
                    + why@
            },
        },
        r is Ok <==> found && built is Ok,
{
    if !found {
        return Err("chapter out of range".to_owned());
    }
    match built {
        Ok(n) => Ok(n),
        Err(why) => {
            let head = cat("chapter ", decimal_text((ci + 1) as u64).as_str());
            Err(cat(cat(head.as_str(), ": ").as_str(), why.as_str()))
        },
    }
}

// ---------------------------------------------------------------------- the turns

/// The longest the packer waits for a renderer that is behind, in nanoseconds.
pub const PACK_HOLD_MAX: u64 = 30_000_000_000;

/// What a background thread does with its turn.
#[derive(Debug, Clone, Copy, PartialEq, Eq, Structural)]
pub enum Turn {
    /// Stand down for a memo that is being transcribed.
    Park,
    /// Hold back for a renderer that is behind.
    Hold,
    /// Go on.
    Work,
}

/// Whether the packer may begin with another chapter: not while a memo is being
/// transcribed, and not while the renderer is behind, for as long as that is a
/// matter of waiting.
pub fn packer_turn(clear: bool, stalled: u64, pending: bool) -> (r: Turn)
    ensures
        r == if !clear {
            Turn::Park
        } else if 0 < stalled < PACK_HOLD_MAX && pending {
            Turn::Hold
        } else {
            Turn::Work
        },
{
    if !clear {
        Turn::Park
    } else if 0 < stalled && stalled < PACK_HOLD_MAX && pending {
        Turn::Hold
    } else {
        Turn::Work
    }
}

/// A thread that is standing down, and since when, so that it is said once.
#[derive(Debug, Clone, Copy, PartialEq, Eq, Structural)]
pub struct Standing {
    pub since: Option<u64>,
}

impl Standing {
    /// The thread is not standing down.
    pub fn new() -> (r: Self)
        ensures
            r.since is None,
    {
        Standing { since: None }
    }

    /// The thread stands down, which is to be said where it did not before.
    pub fn enter(&mut self, now: u64) -> (r: bool)
        ensures
            r == old(self).since is None,
            final(self).since == if old(self).since is Some {
                old(self).since
            } else {
                Some(now)
            },
    {
        match self.since {
            Some(_) => false,
            None => {
                self.since = Some(now);
                true
            },
        }
    }

    /// The thread goes on; where it stood down, this long.
    pub fn leave(&mut self, now: u64) -> (r: Option<u64>)
        ensures
            final(self).since is None,
            r == match old(self).since {
                Some(t) => Some(
                    if t < now {
                        (now - t) as u64
                    } else {
                        0
                    },
                ),
                None => None,
            },
    {
        let r = match self.since {
            Some(t) => Some(
                if t < now {
                    now - t
                } else {
                    0
                },
            ),
            None => None,
        };
        self.since = None;
        r
    }
}

/// What the renderer does with its turn, before it looks for work.
#[derive(Debug, Clone, Copy, PartialEq, Eq, Structural)]
pub enum WorkerTurn {
    /// End.
    Stop,
    /// Wait once more for the signal.
    Again,
    /// Stand down for a memo that is being transcribed.
    Park,
    /// No book is loaded.
    NoBook,
    /// Renders have failed; wait.
    BackOff,
    /// Look for work.
    Look,
}

/// What the renderer does with its turn.
pub open spec fn turn_of(stopped: bool, run: bool, clear: bool, loaded: bool, ready: bool) -> WorkerTurn {
    if stopped {
        WorkerTurn::Stop
    } else if !run {
        WorkerTurn::Again
    } else if !clear {
        WorkerTurn::Park
    } else if !loaded {
        WorkerTurn::NoBook
    } else if !ready {
        WorkerTurn::BackOff
    } else {
        WorkerTurn::Look
    }
}

/// What the renderer does with its turn. A memo that is being transcribed comes
/// before every chunk, and waiting for it is no failure.
pub fn worker_turn(stopped: bool, run: bool, clear: bool, loaded: bool, ready: bool) -> (r:
    WorkerTurn)
    ensures
        r == turn_of(stopped, run, clear, loaded, ready),
{
    if stopped {
        WorkerTurn::Stop
    } else if !run {
        WorkerTurn::Again
    } else if !clear {
        WorkerTurn::Park
    } else if !loaded {
        WorkerTurn::NoBook
    } else if !ready {
        WorkerTurn::BackOff
    } else {
        WorkerTurn::Look
    }
}

/// How many chunks are rendered between two sweeps of the cache.
pub const GC_EVERY: usize = 25;

/// What follows a chunk of the chapter being read: whether the chapter is
/// complete, and whether the cache is to be swept.
pub fn after_chunk(next: usize, n: usize) -> (r: (bool, bool))
    ensures
        r == (next >= n, next % GC_EVERY == 0),
{
    (next >= n, next % GC_EVERY == 0)
}

// ------------------------------------------------------------------ without asking

/// Whether it is time to look for a chapter to pack without being asked.
pub fn autopack_due(enabled: bool, force: bool, last: Option<u64>, now: u64, every: u64) -> (r: bool)
    ensures
        r == (enabled && (force || match last {
            Some(t) => now - t >= every,
            None => true,
        })),
{
    enabled && (force || match last {
        Some(t) => now >= t && now - t >= every,
        None => true,
    })
}

/// Whether chapter `c` is to be packed without being asked: it has chunks, all of
/// them are there, and it is not packed.
pub open spec fn packable(
    disk: Disk,
    packed: spec_fn(int) -> bool,
    key: Seq<char>,
    plan: Seq<ChapterView>,
    c: int,
) -> bool {
    &&& chunks_in(plan, c) > 0
    &&& !packed(c)
    &&& first_gap(disk, key, c, 0, chunks_in(plan, c)) is None
}

/// The chapter to pack without being asked: the one being read or the one after
/// it, and none while the packer has work or chapters are queued.
pub open spec fn autopack_of(disk: Disk, packed: spec_fn(int) -> bool, s: SessionView) -> Option<usize> {
    match s.key() {
        None => None,
        Some(key) => if s.packing is Some || s.pack_queue.len() > 0 || s.queue.len() > 0 {
            None
        } else if packable(disk, packed, key, s.plan, s.chapter as int) {
            Some(s.chapter)
        } else if s.chapter < usize::MAX && packable(disk, packed, key, s.plan, s.chapter + 1) {
            Some((s.chapter + 1) as usize)
        } else {
            None
        },
    }
}

fn is_packable<P: Fn(&str, usize, usize) -> bool, K: Fn(usize) -> bool>(
    key: &str,
    plan: &Vec<Chapter>,
    c: usize,
    packed: &K,
    present: &P,
) -> (r: bool)
    requires
        can_ask(*present),
        forall|c: usize| call_requires(*packed, (c,)),
    ensures
        forall|disk: Disk, done: spec_fn(int) -> bool| #[trigger]
            answers(*present, disk) && #[trigger] tells(*packed, done) ==> r == packable(
                disk,
                done,
                key@,
                chapter_views(plan@),
                c as int,
            ),
{
    let ghost pv = chapter_views(plan@);
    if c >= plan.len() {
        return false;
    }
    let n: usize = plan[c].chunks.len();
    assert(pv[c as int].chunks.len() == n);
    if n == 0 || packed(c) {
        return false;
    }
    first_missing(key, c, 0, n, present).is_none()
}

/// Whether `packed` says which chapters are packed.
pub open spec fn tells<K: Fn(usize) -> bool>(packed: K, done: spec_fn(int) -> bool) -> bool {
    forall|c: usize, b: bool| #[trigger] call_ensures(packed, (c,), b) ==> b == done(c as int)
}

/// The chapter to pack without being asked.
pub fn autopack<P: Fn(&str, usize, usize) -> bool, K: Fn(usize) -> bool>(
    s: &Session,
    packed: &K,
    present: &P,
) -> (r: Option<usize>)
    requires
        can_ask(*present),
        forall|c: usize| call_requires(*packed, (c,)),
    ensures
        forall|disk: Disk, done: spec_fn(int) -> bool| #[trigger]
            answers(*present, disk) && #[trigger] tells(*packed, done) ==> r == autopack_of(
                disk,
                done,
                s@,
            ),
{
    let key = match s.key() {
        Some(k) => k,
        None => {
            return None;
        },
    };
    if s.packing.is_some() || s.pack_queue.len() > 0 || s.queue.len() > 0 {
        return None;
    }
    if is_packable(key.as_str(), &s.plan, s.chapter, packed, present) {
        return Some(s.chapter);
    }
    if s.chapter < usize::MAX && is_packable(
        key.as_str(),
        &s.plan,
        s.chapter + 1,
        packed,
        present,
    ) {
        return Some(s.chapter + 1);
    }
    None
}

// ------------------------------------------------------------------- foreign plans

/// How many plans are held.
pub const PLANS_HELD: usize = 8;

/// A plan that was read, and what its file was like then.
#[derive(Debug)]
pub struct HeldPlan {
    pub key: String,
    /// When the file was last written, where that is known.
    pub modified: Option<i128>,
    pub len: u64,
    pub plan: Arc<Vec<Chapter>>,
}

/// The plans of books that are not loaded, so that each is read once.
#[derive(Debug)]
pub struct Plans {
    pub held: Vec<HeldPlan>,
}

/// Whether a plan is held for `key`.
pub open spec fn holds_key(held: Seq<HeldPlan>, key: Seq<char>) -> bool {
    exists|i: int| 0 <= i < held.len() && (#[trigger] held[i]).key@ == key
}

impl Plans {
    /// No plan is held.
    pub fn new() -> (r: Self)
        ensures
            r.wf(),
            r.held@.len() == 0,
    {
        Plans { held: Vec::new() }
    }

    /// No more than [`PLANS_HELD`] plans are held, and none of one book twice.
    pub open spec fn wf(self) -> bool {
        &&& self.held@.len() <= PLANS_HELD
        &&& forall|i: int, j: int|
            0 <= i < j < self.held@.len() ==> (#[trigger] self.held@[i]).key@ != (
            #[trigger] self.held@[j]).key@
    }

    /// The plan held for a book whose file is like this.
    pub open spec fn plan_of(self, key: Seq<char>, modified: Option<i128>, len: u64) -> Option<
        Seq<ChapterView>,
    > {
        if exists|i: int|
            0 <= i < self.held@.len() && fits(#[trigger] self.held@[i], key, modified, len) {
            let i = choose|i: int|
                0 <= i < self.held@.len() && fits(#[trigger] self.held@[i], key, modified, len);
            Some(chapter_views(self.held@[i].plan@))
        } else {
            None
        }
    }

    /// The plan held for a book whose file is like this. A file that has changed
    /// has to be read again.
    pub fn get(&self, key: &str, modified: Option<i128>, len: u64) -> (r: Option<Arc<Vec<Chapter>>>)
        requires
            self.wf(),
        ensures
            opt_plan(r) == self.plan_of(key@, modified, len),
    {
        let mut i: usize = 0;
        while i < self.held.len()
            invariant
                self.wf(),
                i <= self.held@.len(),
                forall|k: int| 0 <= k < i ==> !fits(#[trigger] self.held@[k], key@, modified, len),
            decreases self.held@.len() - i,
        {
            let h = &self.held[i];
            let as_it_was = h.len == len && match (h.modified, modified) {
                (Some(a), Some(b)) => a == b,
                (None, None) => true,
                _ => false,
            };
            if as_it_was && same_text(h.key.as_str(), key) {
                assert(fits(self.held@[i as int], key@, modified, len));
                assert forall|k: int|
                    0 <= k < self.held@.len() && fits(
                        #[trigger] self.held@[k],
                        key@,
                        modified,
                        len,
                    ) implies k == i by {
                    if k < i {
                        assert(self.held@[k].key@ != self.held@[i as int].key@);
                    } else if k > i {
                        assert(self.held@[i as int].key@ != self.held@[k].key@);
                    }
                }
                return Some(h.plan.clone());
            }
            i += 1;
        }
        None
    }

    /// Hold a plan that was read. Where as many are held as may be and this book's
    /// is not among them, the others are let go of.
    pub fn keep(&mut self, key: &str, modified: Option<i128>, len: u64, plan: Arc<Vec<Chapter>>)
        requires
            old(self).wf(),
        ensures
            final(self).wf(),
            final(self).plan_of(key@, modified, len) == Some(chapter_views(plan@)),
            forall|k: Seq<char>, m: Option<i128>, l: u64| #[trigger]
                final(self).plan_of(k, m, l) == if k == key@ {
                    if m == modified && l == len {
                        Some(chapter_views(plan@))
                    } else {
                        None
                    }
                } else if !holds_key(old(self).held@, key@) && old(self).held@.len()
                    >= PLANS_HELD {
                    None
                } else {
                    old(self).plan_of(k, m, l)
                },
            final(self).held@.len() == if holds_key(old(self).held@, key@) {
                old(self).held@.len()
            } else if old(self).held@.len() >= PLANS_HELD {
                1
            } else {
                old(self).held@.len() + 1
            },
    {
        let row = HeldPlan { key: key.to_owned(), modified, len, plan };
        let mut at: Option<usize> = None;
        let mut i: usize = 0;
        while i < self.held.len()
            invariant
                i <= self.held@.len(),
                self.held@ == old(self).held@,
                match at {
                    Some(k) => k < i && self.held@[k as int].key@ == key@,
                    None => forall|k: int|
                        0 <= k < i ==> (#[trigger] self.held@[k]).key@ != key@,
                },
            decreases self.held@.len() - i,
        {
            if at.is_none() && same_text(self.held[i].key.as_str(), key) {
                at = Some(i);
            }
            i += 1;
        }
        match at {
            Some(k) => {
                assert(old(self).held@[k as int].key@ == key@);
                self.held.set(k, row);
            },
            None => {
                if self.held.len() >= PLANS_HELD {
                    self.held = Vec::new();
                }
                self.held.push(row);
            },
        }
        proof {
            let n = match at {
                Some(k) => k as int,
                None => self.held@.len() - 1,
            };
            assert forall|i: int, j: int| 0 <= i < j < self.held@.len() implies (
            #[trigger] self.held@[i]).key@ != (#[trigger] self.held@[j]).key@ by {
                if old(self).held@.len() >= j + 1 {
                    assert(old(self).held@[i].key@ != old(self).held@[j].key@);
                } else {
                    assert(j == n);
                    assert(old(self).held@[i].key@ != key@);
                }
            }
            lemma_plan_at(*self, n);
            let cleared = at is None && old(self).held@.len() >= PLANS_HELD;
            assert forall|k: Seq<char>, m: Option<i128>, l: u64| #[trigger]
                self.plan_of(k, m, l) == if k == key@ {
                    if m == modified && l == len {
                        Some(chapter_views(plan@))
                    } else {
                        None
                    }
                } else if cleared {
                    None
                } else {
                    old(self).plan_of(k, m, l)
                } by {
                if k == key@ {
                    if exists|i: int|
                        0 <= i < self.held@.len() && fits(#[trigger] self.held@[i], k, m, l) {
                        let i = choose|i: int|
                            0 <= i < self.held@.len() && fits(#[trigger] self.held@[i], k, m, l);
                        assert(i < n ==> self.held@[i].key@ != self.held@[n].key@);
                        assert(i > n ==> self.held@[n].key@ != self.held@[i].key@);
                    }
                } else if !cleared {
                    if exists|i: int|
                        0 <= i < self.held@.len() && fits(#[trigger] self.held@[i], k, m, l) {
                        let i = choose|i: int|
                            0 <= i < self.held@.len() && fits(#[trigger] self.held@[i], k, m, l);
                        assert(self.held@[i] == old(self).held@[i]);
                        lemma_plan_at(*self, i);
                        lemma_plan_at(*old(self), i);
                    } else if exists|i: int|
                        0 <= i < old(self).held@.len() && fits(
                            #[trigger] old(self).held@[i],
                            k,
                            m,
                            l,
                        ) {
                        let i = choose|i: int|
                            0 <= i < old(self).held@.len() && fits(
                                #[trigger] old(self).held@[i],
                                k,
                                m,
                                l,
                            );
                        assert(self.held@[i] == old(self).held@[i]);
                    }
                }
            }
        }
    }
}

/// The plan held at `i` is the one held for its book and its file.
proof fn lemma_plan_at(p: Plans, i: int)
    requires
        p.wf(),
        0 <= i < p.held@.len(),
    ensures
        p.plan_of(p.held@[i].key@, p.held@[i].modified, p.held@[i].len) == Some(
            chapter_views(p.held@[i].plan@),
        ),
{
    let h = p.held@[i];
    assert(fits(p.held@[i], h.key@, h.modified, h.len));
    assert forall|k: int|
        0 <= k < p.held@.len() && fits(
            #[trigger] p.held@[k],
            h.key@,
            h.modified,
            h.len,
        ) implies k == i by {
        if k < i {
            assert(p.held@[k].key@ != p.held@[i].key@);
        } else if k > i {
            assert(p.held@[i].key@ != p.held@[k].key@);
        }
    }
}

/// Whether a plan is that of a book whose file is like this.
pub open spec fn fits(h: HeldPlan, key: Seq<char>, modified: Option<i128>, len: u64) -> bool {
    h.key@ == key && h.modified == modified && h.len == len
}

} // verus!
