//! What a session shows, keeps and says, said of what it was told.

use vstd::prelude::*;
use crate::api::health::{problems_of, Facts};
use crate::api::session::{loaded_of, loaded_row, place_of, position_of, registered, restored_at, restored_of, Noted, PositionBody};
use crate::book::{shown_title, ChapterView};
use crate::chars::opt_text;
use crate::render::{chunk_of, Place, TaskView};
use crate::rows::{put_where, row_where};
use crate::state::SessionView;
use crate::store::{is_book, is_indexed, BookRowView, ChapterIndexRowView, StoreView};
use crate::store_laws::{law_other_rows_stay, law_rows_read_back, law_the_index_says_what_was_put};
use crate::worker::{begun_of, can_follow, event_of, idling_of};

verus! {

// ------------------------------------------------------------------------ in use

/// What is in use is not cleared: of the loaded book the chapter being read and the
/// ones ahead of it, and whatever is queued, to be packed or being packed; of any book
/// what waits for the packer or is with it. Nothing else is in use.
pub proof fn law_what_is_in_use(s: SessionView, k: Seq<char>, c: usize, span: usize)
    ensures
        s.pack_elsewhere.contains((k, c)) ==> s.in_use(k, c, span),
        s.packing == Some((k, c)) ==> s.in_use(k, c, span),
        s.key() == Some(k) && c < s.plan.len() ==> {
            &&& s.chapter <= c <= s.chapter + span ==> s.in_use(k, c, span)
            &&& s.queue.contains(c) ==> s.in_use(k, c, span)
            &&& s.build_want.contains(c) ==> s.in_use(k, c, span)
            &&& s.pack_queue.contains(c) ==> s.in_use(k, c, span)
            &&& s.building == Some(c) ==> s.in_use(k, c, span)
        },
        s.in_use(k, c, span) && (s.key() != Some(k) || c >= s.plan.len())
            ==> s.pack_elsewhere.contains((k, c)) || s.packing == Some((k, c)),
        s.in_use(k, c, span) && !(s.chapter <= c <= s.chapter + span)
            ==> s.pack_elsewhere.contains((k, c)) || s.packing == Some((k, c)) || s.queue.contains(
            c,
        ) || s.build_want.contains(c) || s.pack_queue.contains(c) || s.building == Some(c),
{
}

// ------------------------------------------------------------------------ events

/// Whatever is rendered is told of: which chapter it is of, how far that has come, and
/// of which book where it is not the loaded one. Nothing is told where nothing is
/// rendered. For what lies ahead of the reader it is told how far the renderer is.
pub proof fn law_every_chunk_is_told_of(
    t: TaskView,
    key: Seq<char>,
    at: Place,
    next: usize,
    n: usize,
)
    requires
        can_follow(t),
    ensures
        ({
            let e = event_of(t, at.chapter, next, n);
            match chunk_of(t, key, at) {
                None => e is None,
                Some(c) => {
                    &&& e is Some
                    &&& e->0.chapter == c.chapter
                    &&& e->0.render_idx == if t is Lookahead {
                        next as int
                    } else {
                        c.chunk + 1
                    }
                    &&& e->0.n == n
                    &&& e->0.key == if t is Elsewhere {
                        Some(c.key)
                    } else {
                        None
                    }
                    &&& e->0.complete ==> t is Lookahead && next >= n
                    &&& t is Lookahead && next >= n ==> e->0.complete
                },
            }
        }),
{
}

/// What the session shows is what the event says, and which chapter is rendered ahead of
/// the reader, where one of the loaded book is; and nothing else of it changes.
pub proof fn law_the_session_shows_what_is_done(
    s: SessionView,
    t: TaskView,
    reading: usize,
    next: usize,
    n: usize,
)
    ensures
        ({
            let b = begun_of(s, t);
            &&& b == (SessionView { status: b.status, prerender: b.prerender, ..s })
            &&& event_of(t, reading, next, n) matches Some(e) ==> b.status == e.status
            &&& t matches TaskView::Queued(c, _) ==> b.prerender == Some(c)
            &&& t matches TaskView::Ahead(c, _) ==> b.prerender == Some(c)
            &&& t is Lookahead || t is Buffered ==> b.prerender is None
            &&& t is Buffered ==> b.status == "ready"@
            &&& t is Spare ==> b == s
        }),
        idling_of(s, None).status == "ready"@,
        idling_of(s, None).prerender is None,
{
}

// ------------------------------------------------------------------------ health

/// Whether anything is wrong.
pub open spec fn something_wrong(f: Facts) -> bool {
    ||| f.status@ == "error"@
    ||| f.run && f.want && !f.render_alive
    ||| (f.status@ == "rendering"@ || f.status@ == "prerendering"@ || f.status@ == "queued"@)
        && f.overdue
    ||| f.work_error is Some
    ||| f.positions_error is Some
}

/// A problem is named exactly where something is wrong, one for each thing that is.
pub proof fn law_every_problem_is_named(f: Facts)
    ensures
        problems_of(f).len() == 0 <==> !something_wrong(f),
        problems_of(f).len() == (if f.status@ == "error"@ {
            1int
        } else {
            0
        }) + (if f.run && f.want && !f.render_alive {
            1int
        } else {
            0
        }) + (if (f.status@ == "rendering"@ || f.status@ == "prerendering"@ || f.status@
            == "queued"@) && f.overdue {
            1int
        } else {
            0
        }) + (if f.work_error is Some {
            1int
        } else {
            0
        }) + (if f.positions_error is Some {
            1int
        } else {
            0
        }),
{
}

// ---------------------------------------------------------------------- positions

/// A report keeps what it does not say: each part of it is what the report says, or what
/// was noted where it says nothing, or nothing where that says nothing either.
pub proof fn law_a_report_keeps_what_it_does_not_say(
    body: PositionBody,
    was: Noted,
    updated: Seq<char>,
)
    ensures
        ({
            let p = position_of(body, was, updated);
            &&& body.chapter is Some ==> p.chapter == body.chapter->0
            &&& body.chapter is None && was.chapter is Some ==> p.chapter == was.chapter->0
            &&& body.chapter is None && was.chapter is None ==> p.chapter == 0
            &&& body.chunk is Some ==> p.chunk == body.chunk->0
            &&& body.chunk is None && was.chunk is Some ==> p.chunk == was.chunk->0
            &&& body.chunk is None && was.chunk is None ==> p.chunk == 0
            &&& body.chunks_total is Some ==> p.chunks_total == body.chunks_total->0
            &&& body.chunks_total is None && was.chunks_total is Some ==> p.chunks_total
                == was.chunks_total->0
            &&& body.chapters_total is Some ==> p.chapters_total == body.chapters_total->0
            &&& body.chapters_total is None && was.chapters_total is Some ==> p.chapters_total
                == was.chapters_total->0
            &&& body.chapter_title is Some ==> p.chapter_title == body.chapter_title->0@
            &&& body.chapter_title is None && was.chapter_title is Some ==> p.chapter_title
                == was.chapter_title->0@
            &&& p.updated == updated
        }),
{
}

/// The place of a session is where it is: its chapter and its playhead, with the title
/// and the length of the chapter where the book has it, and the length of the book.
pub proof fn law_the_place_is_where_the_session_is(s: SessionView, updated: Seq<char>)
    requires
        s.chapter <= i64::MAX,
        s.playhead <= i64::MAX,
        s.plan.len() <= i64::MAX,
        s.chapter < s.plan.len(),
        s.plan[s.chapter as int].chunks.len() <= i64::MAX,
    ensures
        ({
            let p = place_of(s, updated);
            &&& p.chapter == s.chapter
            &&& p.chunk == s.playhead
            &&& p.chapter_title == shown_title(s.plan[s.chapter as int])
            &&& p.chunks_total == s.plan[s.chapter as int].chunks.len()
            &&& p.chapters_total == s.plan.len()
            &&& p.updated == updated
        }),
{
}

// ------------------------------------------------------------------------ loading

/// A book that is loaded starts at its beginning with nothing asked for, and what was
/// asked of other books, and what is being packed, stays; a book that is restored starts
/// where it was left, where it still has that place.
pub proof fn law_a_loaded_book_starts_afresh(
    s: SessionView,
    path: Seq<char>,
    plan: Seq<ChapterView>,
    pos: Option<(i64, i64)>,
)
    requires
        plan.len() <= usize::MAX,
        forall|c: int| 0 <= c < plan.len() ==> (#[trigger] plan[c]).chunks.len() <= usize::MAX,
    ensures
        ({
            let t = loaded_of(s, path, plan);
            &&& t.book == Some(path)
            &&& t.plan == plan
            &&& t.chapter == 0 && t.playhead == 0 && t.render_idx == 0
            &&& t.queue.len() == 0 && t.pack_queue.len() == 0
            &&& forall|c: usize| !#[trigger] t.build_want.contains(c)
            &&& t.error is None && t.build_error is None
            &&& t.pack_elsewhere == s.pack_elsewhere && t.packing == s.packing
        }),
        ({
            let t = restored_of(s, path, plan, pos);
            &&& t.book == Some(path)
            &&& t.plan == plan
            &&& t.render_idx == t.playhead
            &&& match pos {
                Some((c, i)) => 0 <= c < plan.len() && 0 <= i < plan[c as int].chunks.len()
                    ==> t.chapter == c && t.playhead == i,
                None => t.chapter == 0 && t.playhead == 0,
            }
        }),
{
    let (c, i) = restored_at(plan, pos);
    crate::api::session::law_a_restart_lands_in_the_book(plan, pos);
    if plan.len() > 0 {
        assert(plan[c].chunks.len() <= usize::MAX);
    }
}

/// A book that is loaded is on record as opened and looked at now, under the name, the
/// path, the title and the length it was loaded with; its rows are what the index says;
/// and no other book's record or index changes.
pub proof fn law_a_loaded_book_is_on_record(
    b: StoreView,
    key: Seq<char>,
    name: Seq<char>,
    path: Seq<char>,
    title: Seq<char>,
    chapters: usize,
    now: i64,
    rows: Seq<ChapterIndexRowView>,
    other: Seq<char>,
    c: usize,
)
    requires
        other != key,
    ensures
        ({
            let t = registered(b, loaded_row(key, name, path, title, chapters, now), rows);
            &&& row_where(t.books, is_book(key)) == Some(
                BookRowView {
                    key,
                    name,
                    path,
                    title,
                    chapters,
                    last_open_ms: Some(now),
                    scanned_ms: Some(now),
                },
            )
            &&& row_where(t.books, is_book(other)) == row_where(b.books, is_book(other))
            &&& row_where(t.index, is_indexed(other, c)) == row_where(
                b.index,
                is_indexed(other, c),
            )
            &&& t == (StoreView { books: t.books, index: t.index, ..b })
        }),
{
    let row = loaded_row(key, name, path, title, chapters, now);
    let p = is_book(key);
    let again = crate::store::book_again(row_where(b.books, p), row);
    let put = put_where(b.books, p, again);
    law_rows_read_back(b.books, p, again);
    law_other_rows_stay(b.books, p, is_book(other), again);
    let opened = BookRowView { last_open_ms: row.last_open_ms, ..again };
    law_rows_read_back(put, p, opened);
    law_other_rows_stay(put, p, is_book(other), opened);
    law_the_index_says_what_was_put(b.index, key, rows, other, c);
}

} // verus!
