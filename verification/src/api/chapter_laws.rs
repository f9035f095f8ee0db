//! What becomes of the chapters that a request names, said of the request.

use vstd::prelude::*;
use crate::api::chapters::{asked_for, bound, building_of, built_upto, complete_upto, distinct, handed_elsewhere, handed_upto, had_orders_upto, in_range_upto, out_of_range_upto, queue_with, ready_upto, refused_upto, rendering_of, row_for, settled_upto, unordered_upto, window_upto, Build, BuildRefusalView, ChapterRowView};
use crate::book::ChapterView;
use crate::chapters::ChapterId;
use crate::rows::{appended, lemma_appended, lemma_keep_push, lemma_pick_none, lemma_pick_push};
use crate::state::SessionView;
use crate::store::{ChapterIndexRowView, IntentRowView, StoreView};

verus! {

// --------------------------------------------------------------------- what is asked

/// What is asked for is each number that the request names, once, in the order in
/// which it first names them.
pub proof fn law_every_number_is_asked_once(s: Seq<i64>)
    ensures
        appended(Seq::empty(), s, distinct(s, s.len() as int)),
{
    lemma_distinct(s, s.len() as int);
    assert(s.take(s.len() as int) =~= s);
}

proof fn lemma_distinct(s: Seq<i64>, n: int)
    requires
        0 <= n <= s.len(),
    ensures
        appended(Seq::empty(), s.take(n), distinct(s, n)),
    decreases n,
{
    let none = Seq::<i64>::empty();
    if n == 0 {
        assert(s.take(0) =~= none);
        lemma_appended(none, none, none, 0);
    } else {
        lemma_distinct(s, n - 1);
        lemma_appended(none, s.take(n - 1), distinct(s, n - 1), s[n - 1]);
        assert(s.take(n) =~= s.take(n - 1).push(s[n - 1]));
    }
}

/// What is wanted is each chapter of the book that the request names, once, in the
/// order in which it first names them.
pub proof fn law_every_chapter_is_wanted_once(s: Seq<i64>, n: int)
    requires
        n <= usize::MAX,
    ensures
        appended(
            Seq::empty(),
            s.filter(|c: i64| 0 <= c < n).map_values(|c: i64| c as usize),
            in_range_upto(s, n, s.len() as int),
        ),
{
    lemma_wanted(s, n, s.len() as int);
    lemma_pick_none(s, |c: i64| 0 <= c < n, |c: i64| c as usize);
}

proof fn lemma_wanted(s: Seq<i64>, n: int, k: int)
    requires
        0 <= k <= s.len(),
        n <= usize::MAX,
    ensures
        appended(
            Seq::empty(),
            s.take(k).filter(|c: i64| 0 <= c < n).map_values(|c: i64| c as usize),
            in_range_upto(s, n, k),
        ),
    decreases k,
{
    let p = |c: i64| 0 <= c < n;
    let f = |c: i64| c as usize;
    let none = Seq::<usize>::empty();
    lemma_pick_none(s, p, f);
    if k == 0 {
        lemma_appended(none, none, none, 0);
    } else {
        lemma_wanted(s, n, k - 1);
        lemma_pick_push(s, k, p, f);
        lemma_appended(
            none,
            s.take(k - 1).filter(p).map_values(f),
            in_range_upto(s, n, k - 1),
            s[k - 1] as usize,
        );
    }
}

// ------------------------------------------------------------------------ the list

/// The list has each chapter from the one bound to the other, both among them, in
/// order: its row, and whether it is queued, being packed, to be packed, and parked.
pub proof fn law_every_chapter_in_the_window_is_listed(
    rows: Seq<ChapterIndexRowView>,
    s: SessionView,
    parked: Seq<usize>,
    from: int,
    to: int,
)
    ensures
        window_upto(rows, s, parked, from, to, rows.len() as int) == rows.filter(
            |r: ChapterIndexRowView| from <= r.chapter <= to,
        ).map_values(
            |r: ChapterIndexRowView|
                ChapterRowView {
                    row: r,
                    queued: s.queue.contains(r.chapter),
                    packing: s.building == Some(r.chapter),
                    pack_queued: s.pack_queue.contains(r.chapter) || s.build_want.contains(
                        r.chapter,
                    ),
                    parked: parked.contains(r.chapter),
                },
        ),
{
    let p = |r: ChapterIndexRowView| from <= r.chapter <= to;
    let f = |r: ChapterIndexRowView|
        ChapterRowView {
            row: r,
            queued: s.queue.contains(r.chapter),
            packing: s.building == Some(r.chapter),
            pack_queued: s.pack_queue.contains(r.chapter) || s.build_want.contains(r.chapter),
            parked: parked.contains(r.chapter),
        };
    lemma_window(rows, s, parked, from, to, rows.len() as int);
    lemma_pick_none(rows, p, f);
}

proof fn lemma_window(
    rows: Seq<ChapterIndexRowView>,
    s: SessionView,
    parked: Seq<usize>,
    from: int,
    to: int,
    n: int,
)
    requires
        0 <= n <= rows.len(),
    ensures
        window_upto(rows, s, parked, from, to, n) == rows.take(n).filter(
            |r: ChapterIndexRowView| from <= r.chapter <= to,
        ).map_values(
            |r: ChapterIndexRowView|
                ChapterRowView {
                    row: r,
                    queued: s.queue.contains(r.chapter),
                    packing: s.building == Some(r.chapter),
                    pack_queued: s.pack_queue.contains(r.chapter) || s.build_want.contains(
                        r.chapter,
                    ),
                    parked: parked.contains(r.chapter),
                },
        ),
    decreases n,
{
    let p = |r: ChapterIndexRowView| from <= r.chapter <= to;
    let f = |r: ChapterIndexRowView|
        ChapterRowView {
            row: r,
            queued: s.queue.contains(r.chapter),
            packing: s.building == Some(r.chapter),
            pack_queued: s.pack_queue.contains(r.chapter) || s.build_want.contains(r.chapter),
            parked: parked.contains(r.chapter),
        };
    lemma_pick_none(rows, p, f);
    if n > 0 {
        lemma_window(rows, s, parked, from, to, n - 1);
        lemma_pick_push(rows, n, p, f);
    }
}

/// The row of a chapter is the first that has its number, and there is none only where
/// no row has it.
pub proof fn law_the_first_row_counts(rows: Seq<ChapterIndexRowView>, c: usize)
    ensures
        match row_for(rows, c, 0) {
            Some(r) => exists|k: int|
                0 <= k < rows.len() && #[trigger] rows[k] == r && r.chapter == c && forall|m: int|
                    0 <= m < k ==> (#[trigger] rows[m]).chapter != c,
            None => forall|m: int| 0 <= m < rows.len() ==> (#[trigger] rows[m]).chapter != c,
        },
{
    lemma_row_for(rows, c, 0);
}

proof fn lemma_row_for(rows: Seq<ChapterIndexRowView>, c: usize, i: int)
    requires
        0 <= i <= rows.len(),
    ensures
        match row_for(rows, c, i) {
            Some(r) => exists|k: int|
                i <= k < rows.len() && #[trigger] rows[k] == r && r.chapter == c && forall|m: int|
                    i <= m < k ==> (#[trigger] rows[m]).chapter != c,
            None => forall|m: int| i <= m < rows.len() ==> (#[trigger] rows[m]).chapter != c,
        },
    decreases rows.len() - i,
{
    if i < rows.len() {
        lemma_row_for(rows, c, i + 1);
        if rows[i].chapter == c {
            assert(rows[i] == rows[i]);
        } else if let Some(r) = row_for(rows, c, i + 1) {
            let k = choose|k: int|
                i + 1 <= k < rows.len() && #[trigger] rows[k] == r && r.chapter == c && forall|
                    m: int,
                |
                    i + 1 <= m < k ==> (#[trigger] rows[m]).chapter != c;
            assert(rows[k] == r);
            assert forall|m: int| i <= m < k implies (#[trigger] rows[m]).chapter != c by {}
        }
    }
}

// ------------------------------------------------------------------------ rendering

/// The queue gets what is new of what is wanted behind what it holds.
pub proof fn law_the_queue_gets_what_is_wanted(q: Seq<usize>, want: Seq<usize>)
    ensures
        appended(q, want, queue_with(q, want, want.len() as int)),
{
    lemma_queue_with(q, want, want.len() as int);
    assert(want.take(want.len() as int) =~= want);
}

proof fn lemma_queue_with(q: Seq<usize>, want: Seq<usize>, n: int)
    requires
        0 <= n <= want.len(),
    ensures
        appended(q, want.take(n), queue_with(q, want, n)),
    decreases n,
{
    if n == 0 {
        assert(want.take(0) =~= Seq::<usize>::empty());
        lemma_appended(q, Seq::empty(), q, 0);
    } else {
        lemma_queue_with(q, want, n - 1);
        lemma_appended(q, want.take(n - 1), queue_with(q, want, n - 1), want[n - 1]);
        assert(want.take(n) =~= want.take(n - 1).push(want[n - 1]));
    }
}

/// Whether a chapter is all rendered, as its row has it.
pub open spec fn all_rendered(rows: Seq<ChapterIndexRowView>, c: usize) -> bool {
    row_for(rows, c, 0) matches Some(r) && r.rendered >= r.n
}

/// Whether a chapter is all rendered and not packed.
pub open spec fn to_pack(rows: Seq<ChapterIndexRowView>, c: usize) -> bool {
    row_for(rows, c, 0) matches Some(r) && r.rendered >= r.n && !r.m4a
}

/// What is wanted and rendered already leaves the queue, and nothing else does; what
/// of it is not packed goes to be packed, what is new behind what is there; and these
/// are the chapters that the answer names.
pub proof fn law_what_is_rendered_goes_on(
    s: SessionView,
    rows: Seq<ChapterIndexRowView>,
    want: Seq<usize>,
)
    ensures
        ({
            let t = settled_upto(s, rows, want, want.len() as int);
            &&& t.queue == s.queue.filter(|c: usize| !(want.contains(c) && all_rendered(rows, c)))
            &&& appended(s.pack_queue, want.filter(|c: usize| to_pack(rows, c)), t.pack_queue)
            &&& t == (SessionView { queue: t.queue, pack_queue: t.pack_queue, ..s })
            &&& complete_upto(rows, want, want.len() as int) == want.filter(
                |c: usize| all_rendered(rows, c),
            )
        }),
{
    lemma_settled(s, rows, want, want.len() as int);
    assert(want.take(want.len() as int) =~= want);
}

proof fn lemma_filter_twice(s: Seq<usize>, p: spec_fn(usize) -> bool, q: spec_fn(usize) -> bool, r: spec_fn(usize) -> bool)
    requires
        forall|x: usize| #[trigger] r(x) == (p(x) && q(x)),
    ensures
        s.filter(p).filter(q) == s.filter(r),
    decreases s.len(),
{
    reveal(Seq::filter);
    if s.len() > 0 {
        lemma_filter_twice(s.drop_last(), p, q, r);
        let x = s.last();
        if p(x) {
            s.drop_last().filter(p).lemma_filter_push(x, q);
        }
        assert(r(x) == (p(x) && q(x)));
    }
}

proof fn lemma_filter_all(s: Seq<usize>, p: spec_fn(usize) -> bool)
    requires
        forall|x: usize| #[trigger] p(x),
    ensures
        s.filter(p) == s,
    decreases s.len(),
{
    reveal(Seq::filter);
    if s.len() > 0 {
        lemma_filter_all(s.drop_last(), p);
        assert(p(s.last()));
        assert(s.drop_last().push(s.last()) =~= s);
    }
}

proof fn lemma_filter_same(s: Seq<usize>, p: spec_fn(usize) -> bool, q: spec_fn(usize) -> bool)
    requires
        forall|x: usize| #[trigger] p(x) == q(x),
    ensures
        s.filter(p) == s.filter(q),
{
    assert(p =~= q);
}

proof fn lemma_settled(
    s: SessionView,
    rows: Seq<ChapterIndexRowView>,
    want: Seq<usize>,
    n: int,
)
    requires
        0 <= n <= want.len(),
    ensures
        ({
            let t = settled_upto(s, rows, want, n);
            let some = want.take(n);
            &&& t.queue == s.queue.filter(|c: usize| !(some.contains(c) && all_rendered(rows, c)))
            &&& appended(s.pack_queue, some.filter(|c: usize| to_pack(rows, c)), t.pack_queue)
            &&& t == (SessionView { queue: t.queue, pack_queue: t.pack_queue, ..s })
            &&& complete_upto(rows, want, n) == some.filter(|c: usize| all_rendered(rows, c))
        }),
    decreases n,
{
    let some = want.take(n);
    let r = |c: usize| !(some.contains(c) && all_rendered(rows, c));
    let due = |c: usize| to_pack(rows, c);
    let full = |c: usize| all_rendered(rows, c);
    lemma_keep_push(want, n, due);
    lemma_keep_push(want, n, full);
    if n == 0 {
        lemma_filter_all(s.queue, r);
        lemma_appended(s.pack_queue, Seq::empty(), s.pack_queue, 0);
    } else {
        lemma_settled(s, rows, want, n - 1);
        let before = want.take(n - 1);
        let c = want[n - 1];
        let b = settled_upto(s, rows, want, n - 1);
        let p = |x: usize| !(before.contains(x) && all_rendered(rows, x));
        assert(some =~= before.push(c));
        assert forall|x: usize| #[trigger] some.contains(x) <==> before.contains(x) || x == c by {
            if some.contains(x) {
                let k = some.index_of(x);
                if k < before.len() {
                    assert(before[k] == x);
                }
            }
            if before.contains(x) {
                let k = before.index_of(x);
                assert(some[k] == x);
            }
            assert(some[n - 1] == c);
        }
        if all_rendered(rows, c) {
            let q = crate::pack::not_number(c);
            assert forall|x: usize| #[trigger] r(x) == (p(x) && q(x)) by {
                assert(some.contains(x) <==> before.contains(x) || x == c);
            }
            lemma_filter_twice(s.queue, p, q, r);
        } else {
            assert forall|x: usize| #[trigger] p(x) == r(x) by {
                assert(some.contains(x) <==> before.contains(x) || x == c);
            }
            lemma_filter_same(s.queue, p, r);
        }
        lemma_appended(s.pack_queue, before.filter(due), b.pack_queue, c);
    }
}

// -------------------------------------------------------------------------- packing

/// What is done with each chapter that is to be packed. One that is packed is done
/// with, unless all is to be packed anew; one that is all rendered is packed now; one
/// without chunks is not; and every other, the ones nobody knows among them, is
/// rendered first. Each of the answers has its chapters in the order of the request.
pub proof fn law_every_chapter_is_built_as_it_stands(
    rows: Seq<ChapterIndexRowView>,
    want: Seq<usize>,
    force: bool,
)
    ensures
        ({
            let n = want.len() as int;
            let row = |c: usize| row_for(rows, c, 0);
            let done = |c: usize| row(c) is Some && row(c)->0.m4a && !force;
            let bare = |c: usize| row(c) is Some && !done(c) && row(c)->0.n == 0;
            let now = |c: usize|
                row(c) is Some && !done(c) && row(c)->0.n > 0 && row(c)->0.rendered
                    >= row(c)->0.n;
            &&& built_upto(rows, want, force, Build::Done, n) == want.filter(done)
            &&& built_upto(rows, want, force, Build::NoChunks, n) == want.filter(bare)
            &&& built_upto(rows, want, force, Build::Now, n) == want.filter(now)
            &&& built_upto(rows, want, force, Build::Render, n) == want.filter(
                |c: usize| !done(c) && !bare(c) && !now(c),
            )
            &&& refused_upto(rows, want, force, n) == want.filter(
                |c: usize| !done(c) && !now(c),
            ).map_values(
                |c: usize|
                    BuildRefusalView {
                        chapter: c,
                        reason: if bare(c) {
                            "no_chunks"@
                        } else {
                            "not_rendered"@
                        },
                        rendered: if row(c) is Some && !bare(c) {
                            row(c)->0.rendered
                        } else {
                            0
                        },
                        n: if row(c) is Some {
                            row(c)->0.n
                        } else {
                            0
                        },
                    },
            )
        }),
{
    let row = |c: usize| row_for(rows, c, 0);
    let done = |c: usize| row(c) is Some && row(c)->0.m4a && !force;
    let now = |c: usize|
        row(c) is Some && !done(c) && row(c)->0.n > 0 && row(c)->0.rendered >= row(c)->0.n;
    lemma_built(rows, want, force, want.len() as int);
    lemma_keep_push(want, 0, done);
}

proof fn lemma_built(rows: Seq<ChapterIndexRowView>, want: Seq<usize>, force: bool, n: int)
    requires
        0 <= n <= want.len(),
    ensures
        ({
            let some = want.take(n);
            let row = |c: usize| row_for(rows, c, 0);
            let done = |c: usize| row(c) is Some && row(c)->0.m4a && !force;
            let bare = |c: usize| row(c) is Some && !done(c) && row(c)->0.n == 0;
            let now = |c: usize|
                row(c) is Some && !done(c) && row(c)->0.n > 0 && row(c)->0.rendered
                    >= row(c)->0.n;
            &&& built_upto(rows, want, force, Build::Done, n) == some.filter(done)
            &&& built_upto(rows, want, force, Build::NoChunks, n) == some.filter(bare)
            &&& built_upto(rows, want, force, Build::Now, n) == some.filter(now)
            &&& built_upto(rows, want, force, Build::Render, n) == some.filter(
                |c: usize| !done(c) && !bare(c) && !now(c),
            )
            &&& refused_upto(rows, want, force, n) == some.filter(
                |c: usize| !done(c) && !now(c),
            ).map_values(
                |c: usize|
                    BuildRefusalView {
                        chapter: c,
                        reason: if bare(c) {
                            "no_chunks"@
                        } else {
                            "not_rendered"@
                        },
                        rendered: if row(c) is Some && !bare(c) {
                            row(c)->0.rendered
                        } else {
                            0
                        },
                        n: if row(c) is Some {
                            row(c)->0.n
                        } else {
                            0
                        },
                    },
            )
        }),
    decreases n,
{
    let row = |c: usize| row_for(rows, c, 0);
    let done = |c: usize| row(c) is Some && row(c)->0.m4a && !force;
    let bare = |c: usize| row(c) is Some && !done(c) && row(c)->0.n == 0;
    let now = |c: usize|
        row(c) is Some && !done(c) && row(c)->0.n > 0 && row(c)->0.rendered >= row(c)->0.n;
    let render = |c: usize| !done(c) && !bare(c) && !now(c);
    let refused = |c: usize| !done(c) && !now(c);
    let told = |c: usize|
        BuildRefusalView {
            chapter: c,
            reason: if bare(c) {
                "no_chunks"@
            } else {
                "not_rendered"@
            },
            rendered: if row(c) is Some && !bare(c) {
                row(c)->0.rendered
            } else {
                0
            },
            n: if row(c) is Some {
                row(c)->0.n
            } else {
                0
            },
        };
    lemma_keep_push(want, n, done);
    lemma_keep_push(want, n, bare);
    lemma_keep_push(want, n, now);
    lemma_keep_push(want, n, render);
    lemma_pick_none(want, refused, told);
    if n > 0 {
        lemma_built(rows, want, force, n - 1);
        lemma_pick_push(want, n, refused, told);
    }
}

/// Every number that the book does not have a chapter for is refused as such, in
/// order; one below nothing is named as nothing.
pub proof fn law_every_stray_number_is_refused(asked: Seq<i64>, count: int)
    ensures
        out_of_range_upto(asked, count, asked.len() as int) == asked.filter(
            |c: i64| !(0 <= c < count),
        ).map_values(
            |c: i64|
                BuildRefusalView {
                    chapter: if c < 0 {
                        0
                    } else {
                        c as usize
                    },
                    reason: "out_of_range"@,
                    rendered: 0,
                    n: 0,
                },
        ),
{
    let p = |c: i64| !(0 <= c < count);
    let f = |c: i64|
        BuildRefusalView {
            chapter: if c < 0 {
                0
            } else {
                c as usize
            },
            reason: "out_of_range"@,
            rendered: 0,
            n: 0,
        };
    lemma_stray(asked, count, asked.len() as int);
    lemma_pick_none(asked, p, f);
}

proof fn lemma_stray(asked: Seq<i64>, count: int, n: int)
    requires
        0 <= n <= asked.len(),
    ensures
        out_of_range_upto(asked, count, n) == asked.take(n).filter(
            |c: i64| !(0 <= c < count),
        ).map_values(
            |c: i64|
                BuildRefusalView {
                    chapter: if c < 0 {
                        0
                    } else {
                        c as usize
                    },
                    reason: "out_of_range"@,
                    rendered: 0,
                    n: 0,
                },
        ),
    decreases n,
{
    let p = |c: i64| !(0 <= c < count);
    let f = |c: i64|
        BuildRefusalView {
            chapter: if c < 0 {
                0
            } else {
                c as usize
            },
            reason: "out_of_range"@,
            rendered: 0,
            n: 0,
        };
    lemma_pick_none(asked, p, f);
    if n > 0 {
        lemma_stray(asked, count, n - 1);
        lemma_pick_push(asked, n, p, f);
    }
}

/// What is ready goes to be packed, what is new behind what is there, and nothing else
/// of the session changes.
pub proof fn law_what_is_ready_is_handed_over(s: SessionView, ready: Seq<usize>)
    ensures
        ({
            let t = handed_upto(s, ready, ready.len() as int);
            &&& appended(s.pack_queue, ready, t.pack_queue)
            &&& t == (SessionView { pack_queue: t.pack_queue, ..s })
        }),
{
    lemma_handed(s, ready, ready.len() as int);
    assert(ready.take(ready.len() as int) =~= ready);
}

proof fn lemma_handed(s: SessionView, ready: Seq<usize>, n: int)
    requires
        0 <= n <= ready.len(),
    ensures
        ({
            let t = handed_upto(s, ready, n);
            &&& appended(s.pack_queue, ready.take(n), t.pack_queue)
            &&& t == (SessionView { pack_queue: t.pack_queue, ..s })
        }),
    decreases n,
{
    if n == 0 {
        assert(ready.take(0) =~= Seq::<usize>::empty());
        lemma_appended(s.pack_queue, Seq::empty(), s.pack_queue, 0);
    } else {
        lemma_handed(s, ready, n - 1);
        let b = handed_upto(s, ready, n - 1);
        lemma_appended(s.pack_queue, ready.take(n - 1), b.pack_queue, ready[n - 1]);
        assert(ready.take(n) =~= ready.take(n - 1).push(ready[n - 1]));
    }
}

/// What a request to render comes to, chapter by chapter. One that is asked for is
/// queued; where it is to be packed too, that is noted, and one that is all rendered
/// leaves the queue instead and goes to be packed unless it is. Of a chapter that is not
/// asked for nothing changes, and nothing else of the session does.
pub proof fn law_what_a_request_to_render_does(
    s: SessionView,
    rows: Seq<ChapterIndexRowView>,
    want: Seq<usize>,
    pack: bool,
    c: usize,
)
    ensures
        ({
            let t = rendering_of(s, rows, want, pack);
            &&& t == (SessionView {
                queue: t.queue,
                pack_queue: t.pack_queue,
                build_want: t.build_want,
                ..s
            })
            &&& t.queue.contains(c) <==> (s.queue.contains(c) || want.contains(c)) && !(pack
                && want.contains(c) && all_rendered(rows, c))
            &&& t.pack_queue.contains(c) <==> s.pack_queue.contains(c) || (pack && want.contains(c)
                && to_pack(rows, c))
            &&& t.build_want.contains(c) <==> s.build_want.contains(c) || (pack && want.contains(c))
        }),
{
    let a = asked_for(s, want, pack);
    law_the_queue_gets_what_is_wanted(s.queue, want);
    assert(a.queue.contains(c) <==> s.queue.contains(c) || want.contains(c));
    assert(want.to_set().contains(c) <==> want.contains(c));
    if pack {
        law_what_is_rendered_goes_on(a, rows, want);
        let t = rendering_of(s, rows, want, pack);
        lemma_kept_holds(
            a.queue,
            |x: usize| !(want.contains(x) && all_rendered(rows, x)),
            c,
        );
        lemma_kept_holds(want, |x: usize| to_pack(rows, x), c);
        assert(t.pack_queue.contains(c) <==> a.pack_queue.contains(c) || want.filter(
            |x: usize| to_pack(rows, x),
        ).contains(c));
    }
}

proof fn lemma_kept_holds(s: Seq<usize>, p: spec_fn(usize) -> bool, c: usize)
    ensures
        s.filter(p).contains(c) <==> s.contains(c) && p(c),
{
    if s.filter(p).contains(c) {
        let k = s.filter(p).index_of(c);
        s.lemma_filter_pred(p, k);
        s.lemma_filter_contains_rev(p, c);
    }
    if s.contains(c) && p(c) {
        let k = s.index_of(c);
        s.lemma_filter_contains(p, k);
    }
}

/// What a request to pack comes to, chapter by chapter. One that is asked for and all
/// rendered goes to be packed, unless it is packed and not to be packed anew; one that
/// is not all rendered is queued and noted, to be packed once it is; one without chunks
/// is left alone, and so is one that is not asked for.
pub proof fn law_what_a_request_to_pack_does(
    s: SessionView,
    rows: Seq<ChapterIndexRowView>,
    want: Seq<usize>,
    force: bool,
    c: usize,
)
    ensures
        ({
            let t = building_of(s, rows, want, force);
            let row = row_for(rows, c, 0);
            let done = row is Some && row->0.m4a && !force;
            let bare = row is Some && !done && row->0.n == 0;
            let now = row is Some && !done && row->0.n > 0 && row->0.rendered >= row->0.n;
            let later = want.contains(c) && !done && !bare && !now;
            &&& t == (SessionView {
                queue: t.queue,
                pack_queue: t.pack_queue,
                build_want: t.build_want,
                ..s
            })
            &&& t.pack_queue.contains(c) <==> s.pack_queue.contains(c) || (want.contains(c) && now)
            &&& t.queue.contains(c) <==> s.queue.contains(c) || later
            &&& t.build_want.contains(c) <==> s.build_want.contains(c) || later
        }),
{
    let n = want.len() as int;
    let row = |x: usize| row_for(rows, x, 0);
    let done = |x: usize| row(x) is Some && row(x)->0.m4a && !force;
    let bare = |x: usize| row(x) is Some && !done(x) && row(x)->0.n == 0;
    let now = |x: usize|
        row(x) is Some && !done(x) && row(x)->0.n > 0 && row(x)->0.rendered >= row(x)->0.n;
    let later = |x: usize| !done(x) && !bare(x) && !now(x);
    law_every_chapter_is_built_as_it_stands(rows, want, force);
    let ready = built_upto(rows, want, force, Build::Now, n);
    let missing = built_upto(rows, want, force, Build::Render, n);
    assert(ready == want.filter(now));
    assert(missing == want.filter(later));
    lemma_kept_holds(want, now, c);
    lemma_kept_holds(want, later, c);
    law_what_is_ready_is_handed_over(s, ready);
    let handed = handed_upto(s, ready, ready.len() as int);
    assert(handed.pack_queue.contains(c) <==> s.pack_queue.contains(c) || ready.contains(c));
    if missing.len() > 0 {
        law_what_a_request_to_render_does(handed, rows, missing, true, c);
        if missing.contains(c) {
            assert(later(c));
            assert(!all_rendered(rows, c)) by {
                if all_rendered(rows, c) {
                    assert(row(c) is Some);
                }
            }
        }
    } else {
        assert(!missing.contains(c));
    }
}

/// The bounds of a list are those that are asked for where the book has them, and its
/// ends otherwise.
pub proof fn law_a_window_lies_in_the_book(from: Option<usize>, to: Option<usize>, total: int)
    requires
        total > 0,
    ensures
        0 <= bound(from, 0, total) < total,
        0 <= bound(to, total, total) < total,
        from matches Some(a) && a < total ==> bound(from, 0, total) == from->0,
        to matches Some(b) && b < total ==> bound(to, total, total) == to->0,
        from is None ==> bound(from, 0, total) == 0,
        to is None ==> bound(to, total, total) == total - 1,
        from matches Some(a) && a >= total ==> bound(from, 0, total) == total - 1,
        to matches Some(b) && b >= total ==> bound(to, total, total) == total - 1,
{
}

// ------------------------------------------------------------------- another book

/// What is ready to pack of a book that is not loaded: what is wanted, has chunks, has
/// all of them, and is not packed, in order.
pub proof fn law_every_ready_chapter_is_found(
    plan: Seq<ChapterView>,
    whole: spec_fn(int) -> bool,
    done: spec_fn(int) -> bool,
    want: Seq<usize>,
)
    ensures
        ready_upto(plan, whole, done, want, want.len() as int) == want.filter(
            |c: usize|
                c < plan.len() && plan[c as int].chunks.len() > 0 && whole(c as int) && !done(
                    c as int,
                ),
        ),
{
    let p = |c: usize|
        c < plan.len() && plan[c as int].chunks.len() > 0 && whole(c as int) && !done(c as int);
    lemma_ready(plan, whole, done, want, want.len() as int);
    lemma_keep_push(want, 0, p);
}

proof fn lemma_ready(
    plan: Seq<ChapterView>,
    whole: spec_fn(int) -> bool,
    done: spec_fn(int) -> bool,
    want: Seq<usize>,
    n: int,
)
    requires
        0 <= n <= want.len(),
    ensures
        ready_upto(plan, whole, done, want, n) == want.take(n).filter(
            |c: usize|
                c < plan.len() && plan[c as int].chunks.len() > 0 && whole(c as int) && !done(
                    c as int,
                ),
        ),
    decreases n,
{
    let p = |c: usize|
        c < plan.len() && plan[c as int].chunks.len() > 0 && whole(c as int) && !done(c as int);
    lemma_keep_push(want, n, p);
    if n > 0 {
        lemma_ready(plan, whole, done, want, n - 1);
    }
}

/// The chapters `cs` of the book `key`.
pub open spec fn of_book(key: Seq<char>, cs: Seq<usize>) -> Seq<ChapterId> {
    cs.map_values(|c: usize| (key, c))
}

/// What is ready of another book goes to be packed under its own name, what is new
/// behind what is there, and nothing else of the session changes.
pub proof fn law_what_is_ready_elsewhere_is_handed_over(
    s: SessionView,
    key: Seq<char>,
    ready: Seq<usize>,
)
    ensures
        ({
            let t = handed_elsewhere(s, key, ready, ready.len() as int);
            &&& appended(s.pack_elsewhere, of_book(key, ready), t.pack_elsewhere)
            &&& t == (SessionView { pack_elsewhere: t.pack_elsewhere, ..s })
        }),
{
    lemma_handed_elsewhere(s, key, ready, ready.len() as int);
    assert(ready.take(ready.len() as int) =~= ready);
}

proof fn lemma_handed_elsewhere(s: SessionView, key: Seq<char>, ready: Seq<usize>, n: int)
    requires
        0 <= n <= ready.len(),
    ensures
        ({
            let t = handed_elsewhere(s, key, ready, n);
            &&& appended(s.pack_elsewhere, of_book(key, ready.take(n)), t.pack_elsewhere)
            &&& t == (SessionView { pack_elsewhere: t.pack_elsewhere, ..s })
        }),
    decreases n,
{
    if n == 0 {
        assert(of_book(key, ready.take(0)) =~= Seq::<ChapterId>::empty());
        lemma_appended(s.pack_elsewhere, Seq::empty(), s.pack_elsewhere, (key, 0));
    } else {
        lemma_handed_elsewhere(s, key, ready, n - 1);
        let b = handed_elsewhere(s, key, ready, n - 1);
        lemma_appended(
            s.pack_elsewhere,
            of_book(key, ready.take(n - 1)),
            b.pack_elsewhere,
            (key, ready[n - 1]),
        );
        assert(of_book(key, ready.take(n)) =~= of_book(key, ready.take(n - 1)).push(
            (key, ready[n - 1]),
        ));
    }
}

/// Calling off chapters of a book takes the wishes for them off the record, and no
/// other wish; and what is named as called off is what there was a wish for.
pub proof fn law_what_is_called_off_is_gone(b: StoreView, key: Seq<char>, want: Seq<usize>)
    ensures
        ({
            let t = unordered_upto(b, key, want, want.len() as int);
            &&& t == (StoreView { intents: t.intents, ..b })
            &&& t.intents == b.intents.filter(
                |r: IntentRowView| !(r.book == key && want.contains(r.chapter)),
            )
            &&& want.no_duplicates() ==> had_orders_upto(b, key, want, want.len() as int)
                == want.filter(|c: usize| wished(b, key, c))
        }),
{
    lemma_unordered(b, key, want, want.len() as int);
    assert(want.take(want.len() as int) =~= want);
}

/// Whether there is a wish on record for a chapter.
pub open spec fn wished(b: StoreView, key: Seq<char>, c: usize) -> bool {
    exists|i: int|
        0 <= i < b.intents.len() && (#[trigger] b.intents[i]).book == key && b.intents[i].chapter
            == c
}

proof fn lemma_rows_twice(
    s: Seq<IntentRowView>,
    p: spec_fn(IntentRowView) -> bool,
    q: spec_fn(IntentRowView) -> bool,
    r: spec_fn(IntentRowView) -> bool,
)
    requires
        forall|x: IntentRowView| #[trigger] r(x) == (p(x) && q(x)),
    ensures
        s.filter(p).filter(q) == s.filter(r),
    decreases s.len(),
{
    reveal(Seq::filter);
    if s.len() > 0 {
        lemma_rows_twice(s.drop_last(), p, q, r);
        let x = s.last();
        if p(x) {
            s.drop_last().filter(p).lemma_filter_push(x, q);
        }
        assert(r(x) == (p(x) && q(x)));
    }
}

proof fn lemma_rows_all(s: Seq<IntentRowView>, p: spec_fn(IntentRowView) -> bool)
    ensures
        s.filter(p).len() <= s.len(),
        s.filter(p).len() == s.len() <==> forall|i: int| 0 <= i < s.len() ==> p(#[trigger] s[i]),
        (forall|i: int| 0 <= i < s.len() ==> p(#[trigger] s[i])) ==> s.filter(p) == s,
    decreases s.len(),
{
    reveal(Seq::filter);
    if s.len() > 0 {
        let d = s.drop_last();
        lemma_rows_all(d, p);
        assert(d.push(s.last()) =~= s);
        if s.filter(p).len() == s.len() {
            assert(p(s.last()));
            assert forall|i: int| 0 <= i < s.len() implies p(#[trigger] s[i]) by {
                if i < d.len() {
                    assert(p(d[i]));
                }
            }
        }
        if forall|i: int| 0 <= i < s.len() ==> p(#[trigger] s[i]) {
            assert forall|i: int| 0 <= i < d.len() implies p(#[trigger] d[i]) by {
                assert(d[i] == s[i]);
            }
            assert(p(s[s.len() - 1]));
        }
    }
}

proof fn lemma_unordered(b: StoreView, key: Seq<char>, want: Seq<usize>, n: int)
    requires
        0 <= n <= want.len(),
    ensures
        ({
            let t = unordered_upto(b, key, want, n);
            let some = want.take(n);
            &&& t == (StoreView { intents: t.intents, ..b })
            &&& t.intents == b.intents.filter(
                |r: IntentRowView| !(r.book == key && some.contains(r.chapter)),
            )
            &&& want.no_duplicates() ==> had_orders_upto(b, key, want, n) == some.filter(
                |c: usize| wished(b, key, c),
            )
        }),
    decreases n,
{
    let some = want.take(n);
    let r = |x: IntentRowView| !(x.book == key && some.contains(x.chapter));
    let had = |c: usize| wished(b, key, c);
    lemma_keep_push(want, n, had);
    if n == 0 {
        lemma_rows_all(b.intents, r);
        assert(forall|i: int| 0 <= i < b.intents.len() ==> r(#[trigger] b.intents[i]));
    } else {
        lemma_unordered(b, key, want, n - 1);
        let before = want.take(n - 1);
        let c = want[n - 1];
        let p = |x: IntentRowView| !(x.book == key && before.contains(x.chapter));
        let named = crate::store::is_intent(key, c);
        let q = |x: IntentRowView| !named(x);
        assert(some =~= before.push(c));
        assert forall|x: usize| #[trigger] some.contains(x) <==> before.contains(x) || x == c by {
            if some.contains(x) {
                let k = some.index_of(x);
                if k < before.len() {
                    assert(before[k] == x);
                }
            }
            if before.contains(x) {
                let k = before.index_of(x);
                assert(some[k] == x);
            }
            assert(some[n - 1] == c);
        }
        assert forall|x: IntentRowView| #[trigger] r(x) == (p(x) && q(x)) by {
            assert(some.contains(x.chapter) <==> before.contains(x.chapter) || x.chapter == c);
        }
        lemma_rows_twice(b.intents, p, q, r);
        let was = unordered_upto(b, key, want, n - 1).intents;
        let is_now = unordered_upto(b, key, want, n).intents;
        assert(was == b.intents.filter(p));
        assert(is_now == was.filter(q));
        if want.no_duplicates() {
            lemma_rows_all(was, q);
            assert(!before.contains(c)) by {
                if before.contains(c) {
                    let k = before.index_of(c);
                    assert(want[k] == c && want[n - 1] == c);
                }
            }
            if wished(b, key, c) {
                let i = choose|i: int|
                    0 <= i < b.intents.len() && (#[trigger] b.intents[i]).book == key
                        && b.intents[i].chapter == c;
                b.intents.lemma_filter_contains(p, i);
                let k = was.index_of(b.intents[i]);
                assert(!q(was[k]));
            } else {
                assert forall|i: int| 0 <= i < was.len() implies q(#[trigger] was[i]) by {
                    assert(was.contains(was[i]));
                    b.intents.lemma_filter_contains_rev(p, was[i]);
                    let k = b.intents.index_of(was[i]);
                    assert(b.intents[k] == was[i]);
                }
            }
        }
    }
}

} // verus!
