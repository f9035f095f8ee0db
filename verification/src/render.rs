//! What is rendered next, and what is packed next.
//!
//! What is on the disk decides, and nothing else does: a chunk that is there is
//! rendered, and one that is not is not, whatever any counter says.
//!
//! 1. A chunk under the playhead that is missing is rendered first. Always.
//! 2. Then the first chunk that is missing in the window ahead of it.
//! 3. Then what was asked for, of the loaded book and then of any other.
//! 4. Then the chapters ahead, and then whatever anyone is likely to want.

use std::sync::Arc;
use vstd::prelude::*;
use crate::book::{chapter_views, Chapter, ChapterView};
use crate::chars::same_text;
use crate::rows::views;
use crate::state::{Order, Orders};
use crate::store::{BookRow, BookRowView};
use crate::render_laws::{law_the_queue_is_worked_in_order, queue_worked};

verus! {

// ----------------------------------------------------------------------- holes

/// What is on the disk: whether a chunk of a chapter of a book is there.
pub type Disk = spec_fn(Seq<char>, int, int) -> bool;

/// Whether `present` says what is on `disk`, as it does while the disk does not
/// change.
pub open spec fn answers<P: Fn(&str, usize, usize) -> bool>(present: P, disk: Disk) -> bool {
    forall|k: &str, c: usize, i: usize, b: bool| #[trigger]
        call_ensures(present, (k, c, i), b) ==> b == disk(k@, c as int, i as int)
}

/// Whether `present` can be asked about every chunk.
pub open spec fn can_ask<P: Fn(&str, usize, usize) -> bool>(present: P) -> bool {
    forall|k: &str, c: usize, i: usize| #[trigger] call_requires(present, (k, c, i))
}

/// The first chunk from `j` on and before `limit` that is not there.
pub open spec fn first_gap(disk: Disk, key: Seq<char>, ci: int, j: int, limit: int) -> Option<usize>
    decreases limit - j,
{
    if j >= limit {
        None
    } else if !disk(key, ci, j) {
        Some(j as usize)
    } else {
        first_gap(disk, key, ci, j + 1, limit)
    }
}

/// The first chunk from `from` on and before `limit` that is not there.
pub fn first_missing<P: Fn(&str, usize, usize) -> bool>(
    key: &str,
    ci: usize,
    from: usize,
    limit: usize,
    present: &P,
) -> (r: Option<usize>)
    requires
        can_ask(*present),
    ensures
        forall|disk: Disk| #[trigger]
            answers(*present, disk) ==> r == first_gap(
                disk,
                key@,
                ci as int,
                from as int,
                limit as int,
            ),
        r matches Some(j) ==> from <= j < limit,
{
    let mut j: usize = from;
    while j < limit
        invariant
            from <= j,
            j <= limit || j == from,
            can_ask(*present),
            forall|disk: Disk| #[trigger]
                answers(*present, disk) ==> first_gap(
                    disk,
                    key@,
                    ci as int,
                    from as int,
                    limit as int,
                ) == first_gap(disk, key@, ci as int, j as int, limit as int),
        decreases limit - j,
    {
        if !present(key, ci, j) {
            return Some(j);
        }
        j += 1;
    }
    None
}

/// Where a gap is found, it is one, and nothing before it is.
pub proof fn lemma_first_gap(disk: Disk, key: Seq<char>, ci: int, j: int, limit: int)
    requires
        0 <= j,
        limit <= usize::MAX,
    ensures
        match first_gap(disk, key, ci, j, limit) {
            Some(k) => j <= k < limit && !disk(key, ci, k as int) && forall|m: int|
                j <= m < k ==> #[trigger] disk(key, ci, m),
            None => forall|m: int| j <= m < limit ==> #[trigger] disk(key, ci, m),
        },
    decreases limit - j,
{
    if j < limit && disk(key, ci, j) {
        lemma_first_gap(disk, key, ci, j + 1, limit);
    }
}

/// The first chapter from `cj` on and before `end` that misses a chunk, and the
/// first chunk it misses.
pub open spec fn hole_from(
    disk: Disk,
    key: Seq<char>,
    plan: Seq<ChapterView>,
    cj: int,
    end: int,
) -> Option<(usize, usize)>
    decreases end - cj,
{
    if cj >= end {
        None
    } else {
        match first_gap(disk, key, cj, 0, plan[cj].chunks.len() as int) {
            Some(j) => Some((cj as usize, j)),
            None => hole_from(disk, key, plan, cj + 1, end),
        }
    }
}

/// The first chapter from `from` on and before `end` that misses a chunk.
pub fn first_hole<P: Fn(&str, usize, usize) -> bool>(
    key: &str,
    plan: &Vec<Chapter>,
    from: usize,
    end: usize,
    present: &P,
) -> (r: Option<(usize, usize)>)
    requires
        end <= plan@.len(),
        can_ask(*present),
    ensures
        forall|disk: Disk| #[trigger]
            answers(*present, disk) ==> r == hole_from(
                disk,
                key@,
                chapter_views(plan@),
                from as int,
                end as int,
            ),
{
    let ghost pv = chapter_views(plan@);
    let mut cj: usize = from;
    while cj < end
        invariant
            end <= plan@.len(),
            pv == chapter_views(plan@),
            can_ask(*present),
            forall|disk: Disk| #[trigger]
                answers(*present, disk) ==> hole_from(disk, key@, pv, from as int, end as int)
                    == hole_from(disk, key@, pv, cj as int, end as int),
        decreases end - cj,
    {
        let n: usize = plan[cj].chunks.len();
        assert(pv[cj as int].chunks.len() == n);
        if let Some(j) = first_missing(key, cj, 0, n, present) {
            return Some((cj, j));
        }
        cj += 1;
    }
    None
}

/// `n` and as many as there are after it.
pub open spec fn capped(n: int) -> usize {
    if n > usize::MAX {
        usize::MAX
    } else {
        n as usize
    }
}

/// `a`, or `b` where it is less.
pub open spec fn least(a: int, b: int) -> int {
    if a < b {
        a
    } else {
        b
    }
}

fn add_capped(a: usize, b: usize) -> (r: usize)
    ensures
        r == capped(a + b),
{
    if a > usize::MAX - b {
        usize::MAX
    } else {
        a + b
    }
}

// -------------------------------------------------------------------- the ranks

/// A chunk of any book.
#[derive(Debug, Clone, PartialEq, Eq)]
pub struct Target {
    pub key: String,
    pub chapter: usize,
    pub chunk: usize,
}

/// What a [`Target`] names.
#[verifier::ext_equal]
pub struct TargetView {
    pub key: Seq<char>,
    pub chapter: usize,
    pub chunk: usize,
}

impl View for Target {
    type V = TargetView;

    open spec fn view(&self) -> TargetView {
        TargetView { key: self.key@, chapter: self.chapter, chunk: self.chunk }
    }
}

/// What the renderer does next.
#[derive(Debug, PartialEq, Eq)]
pub enum Task {
    /// Render the chunk under the playhead: somebody is waiting for it.
    Playhead(usize),
    /// Render this chunk of the chapter being read.
    Lookahead(usize),
    /// Render a chunk of a chapter that was asked for.
    Queued(usize, usize),
    /// The same, of a book that is not loaded.
    Elsewhere(Target),
    /// Nothing: there is enough ahead of the playhead.
    Buffered,
    /// Render a chunk of a chapter ahead.
    Ahead(usize, usize),
    /// Everything that was asked for is done.
    Spare,
}

/// What a [`Task`] is.
pub enum TaskView {
    Playhead(usize),
    Lookahead(usize),
    Queued(usize, usize),
    Elsewhere(TargetView),
    Buffered,
    Ahead(usize, usize),
    Spare,
}

impl View for Task {
    type V = TaskView;

    open spec fn view(&self) -> TaskView {
        match *self {
            Task::Playhead(i) => TaskView::Playhead(i),
            Task::Lookahead(i) => TaskView::Lookahead(i),
            Task::Queued(c, i) => TaskView::Queued(c, i),
            Task::Elsewhere(t) => TaskView::Elsewhere(t@),
            Task::Buffered => TaskView::Buffered,
            Task::Ahead(c, i) => TaskView::Ahead(c, i),
            Task::Spare => TaskView::Spare,
        }
    }
}

/// Where the book is being read, and how far ahead of that is rendered.
#[derive(Debug, Clone, Copy, PartialEq, Eq, Structural)]
pub struct Place {
    pub chapter: usize,
    pub playhead: usize,
    /// Where the renderer last was.
    pub hint: usize,
    /// How many chunks past the playhead are wanted.
    pub lookahead: usize,
    /// How many chapters past the one being read are wanted.
    pub span: usize,
}

/// How many chunks a chapter has; none where there is no such chapter.
pub open spec fn chunks_in(plan: Seq<ChapterView>, c: int) -> int {
    if 0 <= c < plan.len() {
        plan[c].chunks.len() as int
    } else {
        0
    }
}

/// Where the window ahead of the playhead ends.
pub open spec fn window_end(at: Place, n: int) -> int {
    least(n, capped(capped(at.playhead + at.lookahead) + 1) as int)
}

/// What cannot wait for anything that was asked for.
pub open spec fn urgent(disk: Disk, key: Seq<char>, plan: Seq<ChapterView>, at: Place) -> Option<
    TaskView,
> {
    let ci = at.chapter as int;
    let n = chunks_in(plan, ci);
    let end = window_end(at, n);
    if at.playhead < n && !disk(key, ci, at.playhead as int) {
        Some(TaskView::Playhead(at.playhead))
    } else {
        match first_gap(disk, key, ci, least(at.hint as int, end), end) {
            Some(i) => Some(TaskView::Lookahead(i)),
            None => match first_gap(disk, key, ci, at.playhead as int, end) {
                Some(i) => Some(TaskView::Lookahead(i)),
                None => None,
            },
        }
    }
}

/// What there is to do where nothing was asked for.
pub open spec fn unasked(disk: Disk, key: Seq<char>, plan: Seq<ChapterView>, at: Place) -> TaskView {
    let ci = at.chapter as int;
    if first_gap(disk, key, ci, 0, chunks_in(plan, ci)) is Some {
        TaskView::Buffered
    } else {
        match hole_from(
            disk,
            key,
            plan,
            capped(ci + 1) as int,
            least(plan.len() as int, capped(capped(ci + 1) + at.span) as int),
        ) {
            Some((c, i)) => TaskView::Ahead(c, i),
            None => TaskView::Spare,
        }
    }
}

/// What the renderer does next, `queued` being the first chunk to render of what
/// was asked for, and `elsewhere` that of the other books.
pub open spec fn task_of(
    disk: Disk,
    key: Seq<char>,
    plan: Seq<ChapterView>,
    at: Place,
    queued: Option<(usize, usize)>,
    elsewhere: Option<TargetView>,
) -> TaskView {
    match urgent(disk, key, plan, at) {
        Some(t) => t,
        None => match queued {
            Some((c, i)) => TaskView::Queued(c, i),
            None => match elsewhere {
                Some(t) => TaskView::Elsewhere(t),
                None => unasked(disk, key, plan, at),
            },
        },
    }
}

/// What an optional target names.
pub open spec fn opt_target(o: Option<Target>) -> Option<TargetView> {
    match o {
        Some(t) => Some(t@),
        None => None,
    }
}

/// Whether `r` is what the renderer does next, `q` being what `queued` gave and
/// `e` what `elsewhere` gave, as far as either was asked.
pub open spec fn decided<
    P: Fn(&str, usize, usize) -> bool,
    Q: FnOnce() -> Option<(usize, usize)>,
    E: FnOnce() -> Option<Target>,
>(
    present: P,
    queued: Q,
    elsewhere: E,
    key: Seq<char>,
    plan: Seq<ChapterView>,
    at: Place,
    q: Option<(usize, usize)>,
    e: Option<Target>,
    r: TaskView,
) -> bool {
    forall|disk: Disk| #[trigger]
        answers(present, disk) ==> {
            let now = urgent(disk, key, plan, at);
            &&& r == task_of(disk, key, plan, at, q, opt_target(e))
            &&& now is None ==> call_ensures(queued, (), q)
            &&& now is None && q is None ==> call_ensures(elsewhere, (), e)
        }
}

/// What the renderer does next. `queued` and `elsewhere` look through what was
/// asked for; neither is asked before its turn.
pub fn next_task<
    P: Fn(&str, usize, usize) -> bool,
    Q: FnOnce() -> Option<(usize, usize)>,
    E: FnOnce() -> Option<Target>,
>(
    key: &str,
    plan: &Vec<Chapter>,
    at: Place,
    present: &P,
    queued: Q,
    elsewhere: E,
) -> (r: Task)
    requires
        can_ask(*present),
        call_requires(queued, ()),
        call_requires(elsewhere, ()),
    ensures
        exists|q: Option<(usize, usize)>, e: Option<Target>| #[trigger]
            decided(*present, queued, elsewhere, key@, chapter_views(plan@), at, q, e, r@),
{
    let ghost pv = chapter_views(plan@);
    let ci: usize = at.chapter;
    let n: usize = if ci < plan.len() {
        plan[ci].chunks.len()
    } else {
        0
    };
    assert(n == chunks_in(pv, ci as int));
    let ghost no_q: Option<(usize, usize)> = None;
    let ghost no_e: Option<Target> = None;
    if at.playhead < n && !present(key, ci, at.playhead) {
        let r = Task::Playhead(at.playhead);
        assert(decided(*present, queued, elsewhere, key@, pv, at, no_q, no_e, r@));
        return r;
    }
    let reach: usize = add_capped(add_capped(at.playhead, at.lookahead), 1);
    let end: usize = if n < reach {
        n
    } else {
        reach
    };
    let from: usize = if at.hint < end {
        at.hint
    } else {
        end
    };
    let ahead = match first_missing(key, ci, from, end, present) {
        Some(i) => Some(i),
        None => first_missing(key, ci, at.playhead, end, present),
    };
    if let Some(i) = ahead {
        let r = Task::Lookahead(i);
        assert(decided(*present, queued, elsewhere, key@, pv, at, no_q, no_e, r@));
        return r;
    }
    let q = queued();
    if let Some((c, i)) = q {
        let r = Task::Queued(c, i);
        assert(decided(*present, queued, elsewhere, key@, pv, at, q, no_e, r@));
        return r;
    }
    let e = elsewhere();
    let ghost found = e;
    if let Some(t) = e {
        let r = Task::Elsewhere(t);
        assert(decided(*present, queued, elsewhere, key@, pv, at, q, found, r@));
        return r;
    }
    if n > 0 && first_missing(key, ci, 0, n, present).is_some() {
        let r = Task::Buffered;
        assert(decided(*present, queued, elsewhere, key@, pv, at, q, found, r@));
        return r;
    }
    let first: usize = add_capped(ci, 1);
    let reach: usize = add_capped(first, at.span);
    let end: usize = if plan.len() < reach {
        plan.len()
    } else {
        reach
    };
    let r = match first_hole(key, plan, first, end, present) {
        Some((c, i)) => Task::Ahead(c, i),
        None => Task::Spare,
    };
    assert(decided(*present, queued, elsewhere, key@, pv, at, q, found, r@));
    r
}

/// A chunk under the playhead that is missing is rendered before anything else,
/// whatever was asked for and wherever the renderer last was.
pub proof fn law_the_playhead_comes_first(
    disk: Disk,
    key: Seq<char>,
    plan: Seq<ChapterView>,
    at: Place,
    queued: Option<(usize, usize)>,
    elsewhere: Option<TargetView>,
)
    requires
        at.playhead < chunks_in(plan, at.chapter as int),
        !disk(key, at.chapter as int, at.playhead as int),
    ensures
        task_of(disk, key, plan, at, queued, elsewhere) == TaskView::Playhead(at.playhead),
{
}

/// Where a hole is found, it is one.
pub proof fn lemma_hole(disk: Disk, key: Seq<char>, plan: Seq<ChapterView>, cj: int, end: int)
    requires
        0 <= cj,
        end <= plan.len() <= usize::MAX,
        forall|c: int| 0 <= c < plan.len() ==> (#[trigger] plan[c]).chunks.len() <= usize::MAX,
    ensures
        match hole_from(disk, key, plan, cj, end) {
            Some((c, i)) => {
                &&& cj <= c < end && i < plan[c as int].chunks.len()
                &&& !disk(key, c as int, i as int)
                &&& forall|j: int| 0 <= j < i ==> #[trigger] disk(key, c as int, j)
                &&& forall|d: int, j: int|
                    cj <= d < c && 0 <= j < plan[d].chunks.len() ==> #[trigger] disk(key, d, j)
            },
            None => forall|c: int, i: int|
                cj <= c < end && 0 <= i < plan[c].chunks.len() ==> #[trigger] disk(key, c, i),
        },
    decreases end - cj,
{
    if cj < end {
        let n = plan[cj].chunks.len() as int;
        lemma_first_gap(disk, key, cj, 0, n);
        if first_gap(disk, key, cj, 0, n) is None {
            lemma_hole(disk, key, plan, cj + 1, end);
            assert forall|c: int, i: int|
                hole_from(disk, key, plan, cj, end) is None && cj <= c < end && 0 <= i
                    < plan[c].chunks.len() implies #[trigger] disk(key, c, i) by {
                if c == cj {
                    assert(disk(key, cj, i));
                }
            }
            if let Some((c, i)) = hole_from(disk, key, plan, cj, end) {
                assert forall|d: int, j: int|
                    cj <= d < c && 0 <= j < plan[d].chunks.len() implies #[trigger] disk(
                    key,
                    d,
                    j,
                ) by {
                    if d == cj {
                        assert(disk(key, cj, j));
                    }
                }
            }
        }
    }
}

/// The window ahead of the playhead is full before anything that was asked for
/// is rendered, and everything asked for before anything that was not.
pub proof fn law_asking_outranks_guessing(
    disk: Disk,
    key: Seq<char>,
    plan: Seq<ChapterView>,
    at: Place,
    queued: Option<(usize, usize)>,
    elsewhere: Option<TargetView>,
    k: int,
)
    requires
        plan.len() <= usize::MAX,
        chunks_in(plan, at.chapter as int) <= usize::MAX,
    ensures
        ({
            let t = task_of(disk, key, plan, at, queued, elsewhere);
            &&& (!(t is Playhead) && !(t is Lookahead) && at.playhead <= k < window_end(
                at,
                chunks_in(plan, at.chapter as int),
            )) ==> disk(key, at.chapter as int, k)
            &&& (t is Elsewhere ==> queued is None)
            &&& (t is Buffered || t is Ahead || t is Spare) ==> queued is None && elsewhere is None
        }),
{
    let ci = at.chapter as int;
    let end = window_end(at, chunks_in(plan, ci));
    lemma_first_gap(disk, key, ci, at.playhead as int, end);
}

// -------------------------------------------------------------------- the queue

/// A chapter that leaves the queue.
#[derive(Debug, Clone, Copy, PartialEq, Eq, Structural)]
pub struct Leaving {
    pub chapter: usize,
    /// How many chunks it has, where it leaves because all of them are there.
    pub complete: Option<usize>,
}

/// One look through the queue: what there is to render, and what leaves.
#[derive(Debug)]
pub struct QueuePass {
    pub target: Option<(usize, usize)>,
    pub left: Vec<Leaving>,
}

/// What leaves the queue from the one at `i` on, and the first chunk to render.
/// A chapter that the book does not have leaves, and so does one that is
/// complete; the first that is not is worked on.
pub open spec fn queue_from(
    disk: Disk,
    key: Seq<char>,
    plan: Seq<ChapterView>,
    q: Seq<usize>,
    i: int,
) -> (Seq<Leaving>, Option<(usize, usize)>)
    decreases q.len() - i,
{
    if i < 0 || i >= q.len() {
        (Seq::empty(), None)
    } else {
        let c = q[i];
        let rest = queue_from(disk, key, plan, q, i + 1);
        if c >= plan.len() {
            (seq![Leaving { chapter: c, complete: None }] + rest.0, rest.1)
        } else {
            let n = plan[c as int].chunks.len();
            match first_gap(disk, key, c as int, 0, n as int) {
                Some(j) => (Seq::empty(), Some((c, j))),
                None => (
                    seq![Leaving { chapter: c, complete: Some(n as usize) }] + rest.0,
                    rest.1,
                ),
            }
        }
    }
}

/// Look through the queue for a chunk to render.
pub fn next_queued<P: Fn(&str, usize, usize) -> bool>(
    key: &str,
    plan: &Vec<Chapter>,
    q: &Vec<usize>,
    present: &P,
) -> (r: QueuePass)
    requires
        can_ask(*present),
    ensures
        forall|disk: Disk| #[trigger]
            answers(*present, disk) ==> (r.left@, r.target) == queue_from(
                disk,
                key@,
                chapter_views(plan@),
                q@,
                0,
            ),
        forall|disk: Disk| #[trigger]
            answers(*present, disk) ==> queue_worked(
                disk,
                key@,
                chapter_views(plan@),
                q@,
                r.left@,
                r.target,
            ),
{
    let ghost pv = chapter_views(plan@);
    proof {
        assert(plan.len() == pv.len());
        assert forall|c: int| 0 <= c < pv.len() implies (#[trigger] pv[c]).chunks.len()
            <= usize::MAX by {
            let m: usize = plan@[c].chunks.len();
            assert(pv[c].chunks.len() == m);
        }
        assert forall|disk: Disk| #[trigger] answers(*present, disk) implies ({
            let (left, target) = queue_from(disk, key@, pv, q@, 0);
            queue_worked(disk, key@, pv, q@, left, target)
        }) by {
            law_the_queue_is_worked_in_order(disk, key@, pv, q@);
        }
    }
    let mut left: Vec<Leaving> = Vec::new();
    let mut i: usize = 0;
    while i < q.len()
        invariant
            i <= q@.len(),
            pv == chapter_views(plan@),
            forall|disk: Disk| #[trigger]
                answers(*present, disk) ==> {
                    let (left, target) = queue_from(disk, key@, pv, q@, 0);
                    queue_worked(disk, key@, pv, q@, left, target)
                },
            can_ask(*present),
            forall|disk: Disk| #[trigger]
                answers(*present, disk) ==> {
                    let rest = queue_from(disk, key@, pv, q@, i as int);
                    queue_from(disk, key@, pv, q@, 0) == (left@ + rest.0, rest.1)
                },
        decreases q@.len() - i,
    {
        let c: usize = q[i];
        let ghost before = left@;
        let out = if c >= plan.len() {
            Leaving { chapter: c, complete: None }
        } else {
            let n: usize = plan[c].chunks.len();
            assert(pv[c as int].chunks.len() == n);
            if let Some(j) = first_missing(key, c, 0, n, present) {
                assert forall|disk: Disk| #[trigger] answers(*present, disk) implies (
                    left@,
                    Some((c, j)),
                ) == queue_from(disk, key@, pv, q@, 0) by {
                    assert(left@ + Seq::<Leaving>::empty() =~= left@);
                }
                return QueuePass { target: Some((c, j)), left };
            }
            Leaving { chapter: c, complete: Some(n) }
        };
        left.push(out);
        i += 1;
        assert forall|disk: Disk| #[trigger] answers(*present, disk) implies {
            let rest = queue_from(disk, key@, pv, q@, i as int);
            queue_from(disk, key@, pv, q@, 0) == (left@ + rest.0, rest.1)
        } by {
            let rest = queue_from(disk, key@, pv, q@, i as int);
            assert(before + (seq![out] + rest.0) =~= left@ + rest.0);
        }
    }
    assert forall|disk: Disk| #[trigger] answers(*present, disk) implies (
        left@,
        None::<(usize, usize)>,
    ) == queue_from(disk, key@, pv, q@, 0) by {
        assert(left@ + Seq::<Leaving>::empty() =~= left@);
    }
    QueuePass { target: None, left }
}

/// A chapter leaves the queue because the book does not have it, or because every
/// chunk of it is on the disk; and the one that is worked on misses the chunk.
pub proof fn law_a_queue_ends_on_the_disk(
    disk: Disk,
    key: Seq<char>,
    plan: Seq<ChapterView>,
    q: Seq<usize>,
    i: int,
)
    requires
        0 <= i,
        forall|c: int| 0 <= c < plan.len() ==> (#[trigger] plan[c]).chunks.len() <= usize::MAX,
    ensures
        ({
            let (left, target) = queue_from(disk, key, plan, q, i);
            &&& forall|k: int|
                0 <= k < left.len() ==> match (#[trigger] left[k]).complete {
                    None => left[k].chapter >= plan.len(),
                    Some(n) => left[k].chapter < plan.len() && n
                        == plan[left[k].chapter as int].chunks.len() && forall|j: int|
                        0 <= j < n ==> #[trigger] disk(key, left[k].chapter as int, j),
                }
            &&& (target matches Some((c, j)) ==> c < plan.len() && j
                < plan[c as int].chunks.len() && !disk(key, c as int, j as int) && q.contains(c))
        }),
    decreases q.len() - i,
{
    if i < q.len() {
        let c = q[i];
        law_a_queue_ends_on_the_disk(disk, key, plan, q, i + 1);
        let rest = queue_from(disk, key, plan, q, i + 1);
        if c < plan.len() {
            let n = plan[c as int].chunks.len();
            lemma_first_gap(disk, key, c as int, 0, n as int);
        }
        let (left, target) = queue_from(disk, key, plan, q, i);
        assert forall|k: int| 0 <= k < left.len() implies match (#[trigger] left[k]).complete {
            None => left[k].chapter >= plan.len(),
            Some(n) => left[k].chapter < plan.len() && n
                == plan[left[k].chapter as int].chunks.len() && forall|j: int|
                0 <= j < n ==> #[trigger] disk(key, left[k].chapter as int, j),
        } by {
            if k > 0 {
                assert(left[k] == rest.0[k - 1]);
            }
        }
    }
}

// --------------------------------------------------------------- orders elsewhere

/// The plans of books that are not loaded, by their keys.
pub type Shelf = spec_fn(Seq<char>) -> Option<Seq<ChapterView>>;

/// What an optional plan holds.
pub open spec fn opt_plan(o: Option<Arc<Vec<Chapter>>>) -> Option<Seq<ChapterView>> {
    match o {
        Some(p) => Some(chapter_views(p@)),
        None => None,
    }
}

/// Whether `plans` gives what stands on `shelf`.
pub open spec fn gives<L: Fn(&str) -> Option<Arc<Vec<Chapter>>>>(plans: L, shelf: Shelf) -> bool {
    forall|k: &str, o: Option<Arc<Vec<Chapter>>>| #[trigger]
        call_ensures(plans, (k,), o) ==> opt_plan(o) == shelf(k@)
}

/// Whether `plans` can be asked for every book.
pub open spec fn can_give<L: Fn(&str) -> Option<Arc<Vec<Chapter>>>>(plans: L) -> bool {
    forall|k: &str| #[trigger] call_requires(plans, (k,))
}

/// An order that is finished, or can never be.
#[derive(Debug, Clone, PartialEq, Eq)]
pub struct Retired {
    pub key: String,
    pub chapter: usize,
    /// How many chunks the chapter has.
    pub n: usize,
    /// Whether it is to be packed.
    pub pack: bool,
}

/// What a [`Retired`] holds.
#[verifier::ext_equal]
pub struct RetiredView {
    pub key: Seq<char>,
    pub chapter: usize,
    pub n: usize,
    pub pack: bool,
}

impl View for Retired {
    type V = RetiredView;

    open spec fn view(&self) -> RetiredView {
        RetiredView { key: self.key@, chapter: self.chapter, n: self.n, pack: self.pack }
    }
}

/// One look through the orders on books that are not loaded.
#[derive(Debug)]
pub struct ElsewherePass {
    pub target: Option<Target>,
    pub retired: Vec<Retired>,
}

/// What the orders on one book come to, from the one at `i` on: those that are
/// finished or can never be, and the first chunk to render.
pub open spec fn items_from(
    disk: Disk,
    key: Seq<char>,
    plan: Seq<ChapterView>,
    items: Seq<Order>,
    i: int,
) -> (Seq<RetiredView>, Option<TargetView>)
    decreases items.len() - i,
{
    if i < 0 || i >= items.len() {
        (Seq::empty(), None)
    } else {
        let it = items[i];
        let rest = items_from(disk, key, plan, items, i + 1);
        let n = chunks_in(plan, it.chapter as int);
        if it.parked {
            rest
        } else if n == 0 {
            let out = RetiredView { key, chapter: it.chapter, n: 0, pack: false };
            (seq![out] + rest.0, rest.1)
        } else {
            match first_gap(disk, key, it.chapter as int, 0, n) {
                Some(j) => (
                    Seq::empty(),
                    Some(TargetView { key, chapter: it.chapter, chunk: j }),
                ),
                None => {
                    let out = RetiredView {
                        key,
                        chapter: it.chapter,
                        n: n as usize,
                        pack: it.pack,
                    };
                    (seq![out] + rest.0, rest.1)
                },
            }
        }
    }
}

/// The same for every book from the one at `j` on. The loaded book `cur` is not
/// among them, and a book without a plan waits.
pub open spec fn elsewhere_from(
    disk: Disk,
    shelf: Shelf,
    cur: Seq<char>,
    orders: Seq<Orders>,
    j: int,
) -> (Seq<RetiredView>, Option<TargetView>)
    decreases orders.len() - j,
{
    if j < 0 || j >= orders.len() {
        (Seq::empty(), None)
    } else {
        let key = orders[j].key@;
        let rest = elsewhere_from(disk, shelf, cur, orders, j + 1);
        match shelf(key) {
            Some(plan) if key != cur => {
                let here = items_from(disk, key, plan, orders[j].items@, 0);
                if here.1 is Some {
                    here
                } else {
                    (here.0 + rest.0, rest.1)
                }
            },
            _ => rest,
        }
    }
}

fn items_pass<P: Fn(&str, usize, usize) -> bool>(
    key: &str,
    plan: &Vec<Chapter>,
    items: &Vec<Order>,
    present: &P,
    retired: &mut Vec<Retired>,
) -> (r: Option<Target>)
    requires
        can_ask(*present),
    ensures
        forall|disk: Disk| #[trigger]
            answers(*present, disk) ==> {
                let (out, target) = items_from(disk, key@, chapter_views(plan@), items@, 0);
                views(final(retired)@) == views(old(retired)@) + out && opt_target(r) == target
            },
{
    let ghost pv = chapter_views(plan@);
    let ghost was = views(retired@);
    let mut i: usize = 0;
    assert forall|disk: Disk| #[trigger] answers(*present, disk) implies {
        let all = items_from(disk, key@, pv, items@, 0);
        was + all.0 == views(retired@) + all.0
    } by {}
    while i < items.len()
        invariant
            i <= items@.len(),
            pv == chapter_views(plan@),
            was == views(old(retired)@),
            can_ask(*present),
            forall|disk: Disk| #[trigger]
                answers(*present, disk) ==> {
                    let all = items_from(disk, key@, pv, items@, 0);
                    let rest = items_from(disk, key@, pv, items@, i as int);
                    was + all.0 == views(retired@) + rest.0 && all.1 == rest.1
                },
        decreases items@.len() - i,
    {
        let it: Order = items[i];
        let ghost before = views(retired@);
        if !it.parked {
            let n: usize = if it.chapter < plan.len() {
                plan[it.chapter].chunks.len()
            } else {
                0
            };
            assert(n == chunks_in(pv, it.chapter as int));
            let pack = if n == 0 {
                false
            } else {
                if let Some(j) = first_missing(key, it.chapter, 0, n, present) {
                    assert forall|disk: Disk| #[trigger] answers(*present, disk) implies {
                        let all = items_from(disk, key@, pv, items@, 0);
                        was + all.0 == views(retired@)
                    } by {
                        assert(views(retired@) + Seq::<RetiredView>::empty() =~= views(retired@));
                    }
                    return Some(
                        Target { key: key.to_owned(), chapter: it.chapter, chunk: j },
                    );
                }
                it.pack
            };
            let out = Retired { key: key.to_owned(), chapter: it.chapter, n, pack };
            retired.push(out);
            assert(views(retired@) =~= before.push(out@));
            assert forall|disk: Disk| #[trigger] answers(*present, disk) implies {
                let rest = items_from(disk, key@, pv, items@, i + 1);
                before + (seq![out@] + rest.0) == views(retired@) + rest.0
            } by {
                let rest = items_from(disk, key@, pv, items@, i + 1);
                assert(before + (seq![out@] + rest.0) =~= before.push(out@) + rest.0);
            }
        }
        i += 1;
    }
    assert forall|disk: Disk| #[trigger] answers(*present, disk) implies {
        let all = items_from(disk, key@, pv, items@, 0);
        was + all.0 == views(retired@)
    } by {
        assert(views(retired@) + Seq::<RetiredView>::empty() =~= views(retired@));
    }
    None
}

/// Look through the orders on books that are not loaded for a chunk to render.
pub fn next_elsewhere<
    P: Fn(&str, usize, usize) -> bool,
    L: Fn(&str) -> Option<Arc<Vec<Chapter>>>,
>(cur: &str, orders: &Vec<Orders>, plans: &L, present: &P) -> (r: ElsewherePass)
    requires
        can_ask(*present),
        can_give(*plans),
    ensures
        forall|disk: Disk, shelf: Shelf| #[trigger]
            answers(*present, disk) && #[trigger] gives(*plans, shelf) ==> (
                views(r.retired@),
                opt_target(r.target),
            ) == elsewhere_from(disk, shelf, cur@, orders@, 0),
{
    let mut retired: Vec<Retired> = Vec::new();
    let mut j: usize = 0;
    assert forall|disk: Disk, shelf: Shelf| #[trigger]
        answers(*present, disk) && #[trigger] gives(*plans, shelf) implies {
        let all = elsewhere_from(disk, shelf, cur@, orders@, 0);
        all.0 == views(retired@) + all.0
    } by {
        let all = elsewhere_from(disk, shelf, cur@, orders@, 0);
        assert(views(retired@) + all.0 =~= all.0);
    }
    while j < orders.len()
        invariant
            j <= orders@.len(),
            can_ask(*present),
            can_give(*plans),
            forall|disk: Disk, shelf: Shelf| #[trigger]
                answers(*present, disk) && #[trigger] gives(*plans, shelf) ==> {
                    let all = elsewhere_from(disk, shelf, cur@, orders@, 0);
                    let rest = elsewhere_from(disk, shelf, cur@, orders@, j as int);
                    all.0 == views(retired@) + rest.0 && all.1 == rest.1
                },
        decreases orders@.len() - j,
    {
        let o = &orders[j];
        let ghost before = views(retired@);
        if !same_text(o.key.as_str(), cur) {
            if let Some(plan) = plans(o.key.as_str()) {
                let found = items_pass(
                    o.key.as_str(),
                    &plan,
                    &o.items,
                    present,
                    &mut retired,
                );
                if found.is_some() {
                    return ElsewherePass { target: found, retired };
                }
                assert forall|disk: Disk, shelf: Shelf| #[trigger]
                    answers(*present, disk) && #[trigger] gives(*plans, shelf) implies {
                    let here = items_from(disk, o.key@, chapter_views(plan@), o.items@, 0);
                    let rest = elsewhere_from(disk, shelf, cur@, orders@, j + 1);
                    before + (here.0 + rest.0) == views(retired@) + rest.0
                } by {
                    let here = items_from(disk, o.key@, chapter_views(plan@), o.items@, 0);
                    let rest = elsewhere_from(disk, shelf, cur@, orders@, j + 1);
                    assert(before + (here.0 + rest.0) =~= (before + here.0) + rest.0);
                }
            }
        }
        j += 1;
    }
    assert(views(retired@) + Seq::<RetiredView>::empty() =~= views(retired@));
    ElsewherePass { target: None, retired }
}

/// What becomes of an order that is finished or can never be.
#[derive(Debug, Clone, Copy, PartialEq, Eq, Structural)]
pub enum Retire {
    /// It goes to the packer, which ends it.
    Pack,
    /// It ends here.
    Drop,
}

/// What becomes of it, `packed` saying whether the chapter is packed already.
pub fn retire(pack: bool, packed: bool) -> (r: Retire)
    ensures
        r == if pack && !packed {
            Retire::Pack
        } else {
            Retire::Drop
        },
{
    if pack && !packed {
        Retire::Pack
    } else {
        Retire::Drop
    }
}

/// An order ends because every chunk of its chapter is on the disk, or because
/// the book has no such chapter to render; a parked one neither ends nor is
/// tried; and a chunk that is rendered for one is missing.
pub proof fn law_orders_end_on_the_disk(
    disk: Disk,
    key: Seq<char>,
    plan: Seq<ChapterView>,
    items: Seq<Order>,
    i: int,
)
    requires
        0 <= i,
        forall|c: int| 0 <= c < plan.len() ==> (#[trigger] plan[c]).chunks.len() <= usize::MAX,
    ensures
        ({
            let (out, target) = items_from(disk, key, plan, items, i);
            &&& forall|k: int|
                0 <= k < out.len() ==> {
                    let o = #[trigger] out[k];
                    &&& o.key == key
                    &&& o.n == chunks_in(plan, o.chapter as int)
                    &&& forall|j: int| 0 <= j < o.n ==> #[trigger] disk(key, o.chapter as int, j)
                    &&& exists|m: int|
                        i <= m < items.len() && (#[trigger] items[m]).chapter == o.chapter
                            && !items[m].parked
                }
            &&& (target matches Some(t) ==> t.key == key && t.chunk < chunks_in(
                plan,
                t.chapter as int,
            ) && !disk(key, t.chapter as int, t.chunk as int))
        }),
    decreases items.len() - i,
{
    if i < items.len() {
        law_orders_end_on_the_disk(disk, key, plan, items, i + 1);
        let it = items[i];
        let rest = items_from(disk, key, plan, items, i + 1);
        let n = chunks_in(plan, it.chapter as int);
        lemma_first_gap(disk, key, it.chapter as int, 0, n);
        let (out, target) = items_from(disk, key, plan, items, i);
        assert forall|k: int| 0 <= k < out.len() implies {
            let o = #[trigger] out[k];
            &&& o.key == key
            &&& o.n == chunks_in(plan, o.chapter as int)
            &&& forall|j: int| 0 <= j < o.n ==> #[trigger] disk(key, o.chapter as int, j)
            &&& exists|m: int|
                i <= m < items.len() && (#[trigger] items[m]).chapter == o.chapter
                    && !items[m].parked
        } by {
            if it.parked {
                assert(out[k] == rest.0[k]);
            } else if k > 0 {
                assert(out[k] == rest.0[k - 1]);
            } else {
                assert(items[i].chapter == out[k].chapter);
            }
        }
    }
}

// ------------------------------------------------------------ rendering while idle

/// How often the renderer measures the cache when it has nothing to do, in
/// nanoseconds.
pub const IDLE_MEASURE_EVERY: u64 = 60_000_000_000;

/// How many books deep it looks.
pub const IDLE_BOOKS: usize = 20;

/// Where a book that is not loaded would be taken up again: `newest` is the
/// chapter the store has, and `noted` the one the vault has.
pub fn resume_chapter(newest: Option<i64>, noted: Option<i64>) -> (r: u64)
    ensures
        r == match (newest, noted) {
            (Some(c), _) => if c > 0 {
                c as int
            } else {
                0
            },
            (None, Some(c)) => if c > 0 {
                c as int
            } else {
                0
            },
            (None, None) => 0,
        },
{
    let c: i64 = match newest {
        Some(c) => c,
        None => match noted {
            Some(c) => c,
            None => 0,
        },
    };
    if c > 0 {
        c as u64
    } else {
        0
    }
}

/// The chapters at which books are taken up again, by their names.
pub type Marks = spec_fn(Seq<char>) -> int;

/// Whether `resume` says where `marks` are.
pub open spec fn resumes<R: Fn(&str) -> u64>(resume: R, marks: Marks) -> bool {
    forall|n: &str, c: u64| #[trigger] call_ensures(resume, (n,), c) ==> c == marks(n@)
}

/// Whether `resume` can be asked of every book.
pub open spec fn can_resume<R: Fn(&str) -> u64>(resume: R) -> bool {
    forall|n: &str| #[trigger] call_requires(resume, (n,))
}

/// The last chapter of a plan, or the first where it has none.
pub open spec fn last_chapter(plan: Seq<ChapterView>) -> int {
    if plan.len() > 0 {
        plan.len() - 1
    } else {
        0
    }
}

/// The first chunk to render of the books from the one at `i` on, each from where
/// it would be taken up again. The loaded book `cur` is not among them.
pub open spec fn shelf_hole(
    disk: Disk,
    shelf: Shelf,
    marks: Marks,
    cur: Seq<char>,
    books: Seq<BookRowView>,
    i: int,
) -> Option<TargetView>
    decreases books.len() - i,
{
    if i < 0 || i >= books.len() {
        None
    } else {
        let b = books[i];
        let rest = shelf_hole(disk, shelf, marks, cur, books, i + 1);
        match shelf(b.key) {
            Some(plan) if b.key != cur => match hole_from(
                disk,
                b.key,
                plan,
                least(marks(b.name), last_chapter(plan)),
                plan.len() as int,
            ) {
                Some((c, j)) => Some(TargetView { key: b.key, chapter: c, chunk: j }),
                None => rest,
            },
            _ => rest,
        }
    }
}

/// What is worth rendering when nothing was asked for: the rest of the loaded
/// book, from the chapter `from` on, and then the other books in their order.
pub open spec fn idle_target(
    disk: Disk,
    shelf: Shelf,
    marks: Marks,
    cur: Seq<char>,
    plan: Seq<ChapterView>,
    from: int,
    books: Seq<BookRowView>,
) -> Option<TargetView> {
    match hole_from(disk, cur, plan, from, plan.len() as int) {
        Some((c, j)) => Some(TargetView { key: cur, chapter: c, chunk: j }),
        None => shelf_hole(disk, shelf, marks, cur, books, 0),
    }
}

/// The chunk that a task has rendered, the book `key` being read at `at`; none
/// where there is nothing to render.
pub open spec fn chunk_of(t: TaskView, key: Seq<char>, at: Place) -> Option<TargetView> {
    match t {
        TaskView::Playhead(i) => Some(TargetView { key, chapter: at.chapter, chunk: i }),
        TaskView::Lookahead(i) => Some(TargetView { key, chapter: at.chapter, chunk: i }),
        TaskView::Queued(c, i) => Some(TargetView { key, chapter: c, chunk: i }),
        TaskView::Elsewhere(t) => Some(t),
        TaskView::Ahead(c, i) => Some(TargetView { key, chapter: c, chunk: i }),
        TaskView::Buffered => None,
        TaskView::Spare => None,
    }
}

/// Whether a chunk is one that its book has and that is not on the disk, `plan`
/// being that of the loaded book `key`.
pub open spec fn wanting(
    disk: Disk,
    shelf: Shelf,
    key: Seq<char>,
    plan: Seq<ChapterView>,
    t: TargetView,
) -> bool {
    let of = if t.key == key {
        Some(plan)
    } else {
        shelf(t.key)
    };
    &&& of is Some
    &&& t.chunk < chunks_in(of.unwrap(), t.chapter as int)
    &&& !disk(t.key, t.chapter as int, t.chunk as int)
}

/// A plan as long as one can be held.
pub open spec fn holdable(plan: Seq<ChapterView>) -> bool {
    plan.len() <= usize::MAX && forall|c: int|
        0 <= c < plan.len() ==> (#[trigger] plan[c]).chunks.len() <= usize::MAX
}

proof fn lemma_elsewhere_wanting(
    disk: Disk,
    shelf: Shelf,
    key: Seq<char>,
    plan: Seq<ChapterView>,
    orders: Seq<Orders>,
    j: int,
)
    requires
        0 <= j,
        forall|k: Seq<char>| (#[trigger] shelf(k)) matches Some(p) ==> holdable(p),
    ensures
        elsewhere_from(disk, shelf, key, orders, j).1 matches Some(t) ==> wanting(
            disk,
            shelf,
            key,
            plan,
            t,
        ),
    decreases orders.len() - j,
{
    if j < orders.len() {
        lemma_elsewhere_wanting(disk, shelf, key, plan, orders, j + 1);
        let k = orders[j].key@;
        if shelf(k) is Some && k != key {
            law_orders_end_on_the_disk(disk, k, shelf(k).unwrap(), orders[j].items@, 0);
        }
    }
}

proof fn lemma_shelf_wanting(
    disk: Disk,
    shelf: Shelf,
    marks: Marks,
    key: Seq<char>,
    plan: Seq<ChapterView>,
    books: Seq<BookRowView>,
    i: int,
)
    requires
        0 <= i,
        forall|k: Seq<char>| (#[trigger] shelf(k)) matches Some(p) ==> holdable(p),
        forall|n: Seq<char>| 0 <= #[trigger] marks(n),
    ensures
        shelf_hole(disk, shelf, marks, key, books, i) matches Some(t) ==> wanting(
            disk,
            shelf,
            key,
            plan,
            t,
        ),
    decreases books.len() - i,
{
    if i < books.len() {
        lemma_shelf_wanting(disk, shelf, marks, key, plan, books, i + 1);
        let b = books[i];
        if shelf(b.key) is Some && b.key != key {
            let p = shelf(b.key).unwrap();
            assert(0 <= marks(b.name));
            lemma_hole(
                disk,
                b.key,
                p,
                least(marks(b.name), last_chapter(p)),
                p.len() as int,
            );
        }
    }
}

/// Nothing that is on the disk is rendered again, and nothing is rendered that its
/// book does not have: not under the playhead or ahead of it, not for the queue or
/// an order on another book, and not when nothing was asked for at all.
pub proof fn law_only_what_is_missing_is_rendered(
    disk: Disk,
    shelf: Shelf,
    key: Seq<char>,
    plan: Seq<ChapterView>,
    at: Place,
    queue: Seq<usize>,
    orders: Seq<Orders>,
    marks: Marks,
    from: int,
    books: Seq<BookRowView>,
)
    requires
        holdable(plan),
        forall|k: Seq<char>| (#[trigger] shelf(k)) matches Some(p) ==> holdable(p),
        forall|n: Seq<char>| 0 <= #[trigger] marks(n),
        0 <= from,
    ensures
        ({
            let queued = queue_from(disk, key, plan, queue, 0).1;
            let elsewhere = elsewhere_from(disk, shelf, key, orders, 0).1;
            let task = task_of(disk, key, plan, at, queued, elsewhere);
            &&& chunk_of(task, key, at) matches Some(t) ==> wanting(disk, shelf, key, plan, t)
            &&& task matches TaskView::Ahead(c, i) ==> at.chapter < c
        }),
        idle_target(disk, shelf, marks, key, plan, from, books) matches Some(t) ==> wanting(
            disk,
            shelf,
            key,
            plan,
            t,
        ),
{
    let ci = at.chapter as int;
    let n = chunks_in(plan, ci);
    let end = window_end(at, n);
    assert(n <= usize::MAX);
    lemma_first_gap(disk, key, ci, least(at.hint as int, end), end);
    lemma_first_gap(disk, key, ci, at.playhead as int, end);
    lemma_hole(
        disk,
        key,
        plan,
        capped(ci + 1) as int,
        least(plan.len() as int, capped(capped(ci + 1) + at.span) as int),
    );
    law_a_queue_ends_on_the_disk(disk, key, plan, queue, 0);
    lemma_elsewhere_wanting(disk, shelf, key, plan, orders, 0);
    lemma_hole(disk, key, plan, from, plan.len() as int);
    lemma_shelf_wanting(disk, shelf, marks, key, plan, books, 0);
}

/// Pick something worth rendering when nothing was asked for.
pub fn next_idle<
    P: Fn(&str, usize, usize) -> bool,
    L: Fn(&str) -> Option<Arc<Vec<Chapter>>>,
    R: Fn(&str) -> u64,
>(
    cur: &str,
    plan: &Vec<Chapter>,
    from: usize,
    books: &Vec<BookRow>,
    plans: &L,
    resume: &R,
    present: &P,
) -> (r: Option<Target>)
    requires
        can_ask(*present),
        can_give(*plans),
        can_resume(*resume),
    ensures
        forall|disk: Disk, shelf: Shelf, marks: Marks| #[trigger]
            answers(*present, disk) && #[trigger] gives(*plans, shelf) && #[trigger] resumes(
                *resume,
                marks,
            ) ==> opt_target(r) == idle_target(
                disk,
                shelf,
                marks,
                cur@,
                chapter_views(plan@),
                from as int,
                views(books@),
            ),
{
    if let Some((c, j)) = first_hole(cur, plan, from, plan.len(), present) {
        return Some(Target { key: cur.to_owned(), chapter: c, chunk: j });
    }
    let ghost all = views(books@);
    let mut i: usize = 0;
    while i < books.len()
        invariant
            i <= books@.len(),
            all == views(books@),
            can_ask(*present),
            can_give(*plans),
            can_resume(*resume),
            forall|disk: Disk, shelf: Shelf, marks: Marks| #[trigger]
                answers(*present, disk) && #[trigger] gives(*plans, shelf) && #[trigger] resumes(
                    *resume,
                    marks,
                ) ==> shelf_hole(disk, shelf, marks, cur@, all, 0) == shelf_hole(
                    disk,
                    shelf,
                    marks,
                    cur@,
                    all,
                    i as int,
                ),
            forall|disk: Disk| #[trigger]
                answers(*present, disk) ==> hole_from(
                    disk,
                    cur@,
                    chapter_views(plan@),
                    from as int,
                    plan@.len() as int,
                ) is None,
        decreases books@.len() - i,
    {
        let b = &books[i];
        assert(all[i as int] == b@);
        if !same_text(b.key.as_str(), cur) {
            if let Some(other) = plans(b.key.as_str()) {
                let mark: u64 = resume(b.name.as_str());
                let last: usize = if other.len() > 0 {
                    other.len() - 1
                } else {
                    0
                };
                let start: usize = if mark < last as u64 {
                    mark as usize
                } else {
                    last
                };
                if let Some((c, j)) = first_hole(
                    b.key.as_str(),
                    &other,
                    start,
                    other.len(),
                    present,
                ) {
                    return Some(Target { key: b.key.clone(), chapter: c, chunk: j });
                }
            }
        }
        i += 1;
    }
    None
}

/// Whether there is room to render what nobody has asked for: `ceiling` is where
/// that stops, well below where the cache is trimmed, and there is none where the
/// cache is not limited.
pub fn room_to_speculate(idle_render: bool, ceiling: Option<u64>, bytes: u64) -> (r: bool)
    ensures
        r == (idle_render && match ceiling {
            Some(most) => bytes < most,
            None => true,
        }),
{
    idle_render && match ceiling {
        Some(most) => bytes < most,
        None => true,
    }
}

/// A look that found nothing: when, and where the reader was.
#[derive(Debug, Clone, PartialEq, Eq)]
pub struct Dry {
    pub at: u64,
    pub key: String,
    pub chapter: usize,
    pub playhead: usize,
}

/// What the renderer remembers of having nothing to do. The times are of a clock
/// that never goes back, in nanoseconds.
#[derive(Debug)]
pub struct Idling {
    pub measured: Option<u64>,
    pub dry: Option<Dry>,
    /// Whether it has been said that the cache is full.
    pub said_full: bool,
}

/// What there is to do when there is nothing to do.
#[derive(Debug, Clone, Copy, PartialEq, Eq, Structural)]
pub enum Spare {
    /// Look for something worth rendering.
    Look,
    /// Rest: a look was made a moment ago.
    Rest,
    /// Rest: there is no room. Say so where it has not been said.
    Full(bool),
}

impl Idling {
    /// Nothing is remembered.
    pub fn new() -> (r: Self)
        ensures
            r.measured is None,
            r.dry is None,
            !r.said_full,
    {
        Idling { measured: None, dry: None, said_full: false }
    }

    /// Whether the cache is to be measured now.
    pub open spec fn stale(self, now: u64) -> bool {
        match self.measured {
            Some(t) => now - t >= IDLE_MEASURE_EVERY,
            None => true,
        }
    }

    /// Whether the cache is to be measured now; it is taken that it is.
    pub fn measure(&mut self, now: u64) -> (r: bool)
        ensures
            r == old(self).stale(now),
            final(self).measured == if r {
                Some(now)
            } else {
                old(self).measured
            },
            final(self).dry == old(self).dry,
            final(self).said_full == old(self).said_full,
    {
        let due = match self.measured {
            Some(t) => now >= t && now - t >= IDLE_MEASURE_EVERY,
            None => true,
        };
        if due {
            self.measured = Some(now);
        }
        due
    }

    /// Whether a look found nothing a moment ago, the reader being where it was.
    pub open spec fn looked(self, now: u64, key: Seq<char>, chapter: usize, playhead: usize) -> bool {
        match self.dry {
            Some(d) => now - d.at < IDLE_MEASURE_EVERY && d.key@ == key && d.chapter == chapter
                && d.playhead == playhead,
            None => false,
        }
    }

    /// What there is to do, `room` saying whether there is room.
    pub fn next(&mut self, now: u64, key: &str, chapter: usize, playhead: usize, room: bool) -> (r:
        Spare)
        ensures
            r == if old(self).looked(now, key@, chapter, playhead) {
                Spare::Rest
            } else if room {
                Spare::Look
            } else {
                Spare::Full(!old(self).said_full)
            },
            final(self).said_full == (old(self).said_full || r is Full),
            final(self).dry == old(self).dry,
            final(self).measured == old(self).measured,
    {
        let looked = match &self.dry {
            Some(d) => (now < d.at || now - d.at < IDLE_MEASURE_EVERY) && same_text(
                d.key.as_str(),
                key,
            ) && d.chapter == chapter && d.playhead == playhead,
            None => false,
        };
        if looked {
            Spare::Rest
        } else if room {
            Spare::Look
        } else {
            let first = !self.said_full;
            self.said_full = true;
            Spare::Full(first)
        }
    }

    /// A look was made. One that found nothing is remembered.
    pub fn found(&mut self, something: bool, now: u64, key: &str, chapter: usize, playhead: usize)
        ensures
            final(self).measured == old(self).measured,
            final(self).said_full == (old(self).said_full && !something),
            match final(self).dry {
                Some(d) => !something && d.at == now && d.key@ == key@ && d.chapter == chapter
                    && d.playhead == playhead,
                None => something,
            },
    {
        if something {
            self.dry = None;
            self.said_full = false;
        } else {
            self.dry = Some(Dry { at: now, key: key.to_owned(), chapter, playhead });
        }
    }
}

// ---------------------------------------------------------------------- backing off

/// How long the renderer waits after one failure, in nanoseconds.
pub const BACKOFF_BASE: u64 = 250_000_000;

/// The longest it waits.
pub const BACKOFF_MAX: u64 = 30_000_000_000;

/// The longest it sleeps at a time, so that it can still be stopped.
pub const BACKOFF_SLICE: u64 = 400_000_000;

/// How long the renderer waits after a run of failures: twice as long after each,
/// and no longer than [`BACKOFF_MAX`].
pub open spec fn wait_after(fails: u32) -> u64
    decreases fails,
{
    if fails == 0 {
        0
    } else if fails == 1 {
        BACKOFF_BASE
    } else {
        let twice = 2 * wait_after((fails - 1) as u32);
        if twice > BACKOFF_MAX {
            BACKOFF_MAX
        } else {
            twice as u64
        }
    }
}

fn wait_for(fails: u32) -> (r: u64)
    ensures
        r == wait_after(fails),
        r <= BACKOFF_MAX,
{
    if fails == 0 {
        return 0;
    }
    let mut d: u64 = BACKOFF_BASE;
    let mut k: u32 = 1;
    while k < fails && d < BACKOFF_MAX
        invariant
            1 <= k <= fails,
            d == wait_after(k),
            d <= BACKOFF_MAX,
        decreases fails - k,
    {
        d = if d > BACKOFF_MAX / 2 {
            BACKOFF_MAX
        } else {
            2 * d
        };
        k += 1;
    }
    proof {
        if k < fails {
            law_waiting_is_bounded(k, fails);
        }
    }
    d
}

/// The wait never shrinks as failures go on, and never passes [`BACKOFF_MAX`].
pub proof fn law_waiting_is_bounded(a: u32, b: u32)
    requires
        a <= b,
    ensures
        wait_after(a) <= wait_after(b) <= BACKOFF_MAX,
    decreases b,
{
    if a < b {
        law_waiting_is_bounded(a, (b - 1) as u32);
    } else if b > 0 {
        law_waiting_is_bounded((b - 1) as u32, (b - 1) as u32);
    }
}

/// How the renderer keeps from trying without end what cannot succeed. Failures
/// are counted in a row, and one success forgets them. The times are of a clock
/// that never goes back, in nanoseconds.
#[derive(Debug, Clone, Copy, PartialEq, Eq, Structural)]
pub struct Backoff {
    pub fails: u32,
    pub until: Option<u64>,
}

impl Backoff {
    /// Nothing has failed.
    pub fn new() -> (r: Self)
        ensures
            r == (Backoff { fails: 0, until: None }),
    {
        Backoff { fails: 0, until: None }
    }

    /// Whether the renderer may try now.
    pub fn ready(&self, now: u64) -> (r: bool)
        ensures
            r == match self.until {
                None => true,
                Some(t) => now >= t,
            },
    {
        match self.until {
            None => true,
            Some(t) => now >= t,
        }
    }

    /// How long to sleep: what is left of the wait, in slices.
    pub fn nap(&self, now: u64) -> (r: u64)
        ensures
            r == match self.until {
                None => 0,
                Some(t) => if now >= t {
                    0
                } else {
                    least(t - now, BACKOFF_SLICE as int)
                },
            },
    {
        match self.until {
            None => 0,
            Some(t) => if now >= t {
                0
            } else if t - now < BACKOFF_SLICE {
                t - now
            } else {
                BACKOFF_SLICE
            },
        }
    }

    /// Note how a render went.
    pub fn record(&mut self, ok: bool, now: u64)
        ensures
            ok ==> *final(self) == (Backoff { fails: 0, until: None }),
            !ok ==> final(self).fails == least(old(self).fails + 1, u32::MAX as int),
            !ok ==> final(self).until == if now + wait_after(final(self).fails) > u64::MAX {
                None
            } else {
                Some((now + wait_after(final(self).fails)) as u64)
            },
    {
        if ok {
            self.fails = 0;
            self.until = None;
            return;
        }
        if self.fails < u32::MAX {
            self.fails = self.fails + 1;
        }
        let d = wait_for(self.fails);
        self.until = now.checked_add(d);
    }

    /// Whether this run of failures is one to be said: the first, and every one
    /// that doubles the run.
    pub fn worth_saying(&self) -> (r: bool)
        ensures
            r == exists|k: u32| k < 32 && self.fails == #[trigger] (1u32 << k),
    {
        let mut k: u32 = 0;
        while k < 32
            invariant
                k <= 32,
                forall|j: u32| j < k ==> self.fails != #[trigger] (1u32 << j),
            decreases 32 - k,
        {
            if self.fails == 1u32 << k {
                return true;
            }
            k += 1;
        }
        false
    }
}

} // verus!
