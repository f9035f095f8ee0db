//! What a new chunking changes, said of the two plans and the places on record.

use vstd::prelude::*;
use crate::book::ChapterView;
use crate::cache::key_of;
use crate::migrate::{applying_from, changes_of, changes_upto, chunk_total, extras_upto, first_change, fixes_in, fixes_upto, law_what_is_kept_is_the_same, lesser, next_changed, parsed_from, records_upto, same_chunk, total_after, BookPlan, PositionFixView, RecordChangeView, Stage, StoredPosition};
use crate::rows::{lemma_pick_none, lemma_pick_push};

verus! {

// -------------------------------------------------------------------- what changes

/// Whether chunk `f` is the first that is not the same in both: there is one on one
/// side only, or the two differ.
pub open spec fn parts_at(old: ChapterView, new: ChapterView, f: int) -> bool {
    &&& 0 <= f <= old.chunks.len() && f <= new.chunks.len()
    &&& f < old.chunks.len() || f < new.chunks.len()
    &&& f < old.chunks.len() && f < new.chunks.len() ==> {
        ||| old.chunks[f].text != new.chunks[f].text
        ||| old.chunks[f].para != new.chunks[f].para
        ||| old.chunks[f].silent != new.chunks[f].silent
    }
    &&& forall|k: int|
        0 <= k < f ==> (#[trigger] old.chunks[k]).text == new.chunks[k].text && old.chunks[k].para
            == new.chunks[k].para && old.chunks[k].silent == new.chunks[k].silent
}

proof fn lemma_first_part(old: ChapterView, new: ChapterView)
    ensures
        match first_change(old.chunks, new.chunks, 0) {
            Some(f) => parts_at(old, new, f as int),
            None => forall|f: int| !#[trigger] parts_at(old, new, f),
        },
{
    law_what_is_kept_is_the_same(old.chunks, new.chunks);
    match first_change(old.chunks, new.chunks, 0) {
        Some(f) => {
            assert forall|k: int| 0 <= k < f implies (#[trigger] old.chunks[k]).text
                == new.chunks[k].text && old.chunks[k].para == new.chunks[k].para
                && old.chunks[k].silent == new.chunks[k].silent by {
                assert(same_chunk(old.chunks[k], new.chunks[k]));
            }
        },
        None => {
            assert forall|f: int| !#[trigger] parts_at(old, new, f) by {
                if parts_at(old, new, f) {
                    assert(same_chunk(old.chunks[f], new.chunks[f]));
                }
            }
        },
    }
}

proof fn lemma_changes(old: Seq<ChapterView>, new: Seq<ChapterView>, n: nat)
    requires
        n <= old.len() <= usize::MAX,
        n <= new.len() <= usize::MAX,
        forall|k: int| 0 <= k < old.len() ==> (#[trigger] old[k]).index == k,
        forall|k: int| 0 <= k < old.len() ==> (#[trigger] old[k]).chunks.len() <= usize::MAX,
    ensures
        forall|c: usize| #[trigger]
            changes_upto(old, new, n).contains_key(c) <==> c < n && exists|f: int| #[trigger]
                parts_at(old[c as int], new[c as int], f),
        forall|c: usize| #[trigger]
            changes_upto(old, new, n).contains_key(c) ==> parts_at(
                old[c as int],
                new[c as int],
                changes_upto(old, new, n)[c] as int,
            ),
    decreases n,
{
    if n > 0 {
        let k = n - 1;
        lemma_changes(old, new, k as nat);
        lemma_first_part(old[k], new[k]);
        let before = changes_upto(old, new, k as nat);
        let m = changes_upto(old, new, n);
        assert(old[k].index == k);
        match first_change(old[k].chunks, new[k].chunks, 0) {
            Some(f) => {
                assert(old[k].chunks.len() <= usize::MAX);
                assert(parts_at(old[k], new[k], f as int));
                assert(m == before.insert(k as usize, f as usize));
                assert forall|c: usize| #[trigger] m.contains_key(c) <==> c < n && exists|f: int|
                     #[trigger]
                    parts_at(old[c as int], new[c as int], f) by {
                    assert(before.contains_key(c) <==> c < k && exists|f: int| #[trigger]
                        parts_at(old[c as int], new[c as int], f));
                }
            },
            None => {},
        }
    }
}

proof fn lemma_extras(m: Map<usize, usize>, a: nat, b: nat)
    requires
        b <= usize::MAX,
    ensures
        forall|c: usize| #[trigger]
            extras_upto(m, a, b).contains_key(c) <==> m.contains_key(c) || a <= c < b,
        forall|c: usize| #[trigger]
            extras_upto(m, a, b).contains_key(c) ==> extras_upto(m, a, b)[c] == if m.contains_key(
                c,
            ) {
                m[c]
            } else {
                0
            },
    decreases b,
{
    if b > a {
        lemma_extras(m, a, (b - 1) as nat);
        let k = (b - 1) as usize;
        let before = extras_upto(m, a, (b - 1) as nat);
        let all = extras_upto(m, a, b);
        assert forall|c: usize| #[trigger] all.contains_key(c) <==> m.contains_key(c) || a <= c
            < b by {
            assert(before.contains_key(c) <==> m.contains_key(c) || a <= c < b - 1);
        }
        assert forall|c: usize| #[trigger] all.contains_key(c) implies all[c] == if m.contains_key(
            c,
        ) {
            m[c]
        } else {
            0
        } by {
            assert(before.contains_key(c) <==> m.contains_key(c) || a <= c < b - 1);
        }
    }
}

/// A chapter of both plans changes where some chunk is not the same in both, from the
/// first such chunk on; a chapter of one plan alone changes from its start; and no
/// other changes.
pub proof fn law_every_changed_chapter_is_found(
    old: Seq<ChapterView>,
    new: Seq<ChapterView>,
    c: usize,
)
    requires
        old.len() <= usize::MAX,
        new.len() <= usize::MAX,
        forall|k: int| 0 <= k < old.len() ==> (#[trigger] old[k]).index == k,
        forall|k: int| 0 <= k < old.len() ==> (#[trigger] old[k]).chunks.len() <= usize::MAX,
    ensures
        ({
            let m = changes_of(old, new);
            if c < old.len() && c < new.len() {
                &&& m.contains_key(c) <==> exists|f: int| #[trigger]
                    parts_at(old[c as int], new[c as int], f)
                &&& m.contains_key(c) ==> parts_at(old[c as int], new[c as int], m[c] as int)
            } else {
                &&& m.contains_key(c) <==> c < old.len() || c < new.len()
                &&& m.contains_key(c) ==> m[c] == 0
            }
        }),
{
    let n = lesser(old.len(), new.len());
    let longest = if old.len() < new.len() {
        new.len()
    } else {
        old.len()
    };
    lemma_changes(old, new, n);
    let some = changes_upto(old, new, n);
    lemma_extras(some, n, longest);
    let m = changes_of(old, new);
    assert(m == extras_upto(some, n, longest));
    assert(m.contains_key(c) <==> some.contains_key(c) || n <= c < longest);
    assert(some.contains_key(c) <==> c < n && exists|f: int| #[trigger]
        parts_at(old[c as int], new[c as int], f));
}

/// A chapter more brings its chunks, and a plan without chapters has none.
pub proof fn law_chunks_add_up(a: Seq<ChapterView>, c: ChapterView)
    ensures
        chunk_total(a.push(c), a.len() + 1) == chunk_total(a, a.len()) + c.chunks.len(),
        chunk_total(Seq::empty(), 0) == 0,
{
    lemma_total_prefix(a, c, a.len());
}

proof fn lemma_total_prefix(a: Seq<ChapterView>, c: ChapterView, n: nat)
    requires
        n <= a.len(),
    ensures
        chunk_total(a.push(c), n) == chunk_total(a, n),
    decreases n,
{
    if n > 0 {
        lemma_total_prefix(a, c, (n - 1) as nat);
    }
}

// ---------------------------------------------------------------------- the places

/// Whether a place on record is past what both chunkings of a book agree on.
pub open spec fn misplaced(p: StoredPosition, b: BookPlan) -> bool {
    &&& p.chapter is Some && p.chunk is Some
    &&& key_of(p.book@) == b.key@
    &&& 0 <= p.chapter->0 <= usize::MAX
    &&& b.changed@.contains_key(p.chapter->0 as usize)
    &&& p.chunk->0 >= b.changed@[p.chapter->0 as usize]
}

/// Every place that is past what both chunkings of its book agree on is pulled back to
/// the first chunk that changed, and no other place is, in the order of the places.
pub proof fn law_every_misplaced_place_is_pulled_back(pos: Seq<StoredPosition>, b: BookPlan)
    ensures
        fixes_in(pos, b, pos.len()) == pos.filter(
            |p: StoredPosition| misplaced(p, b),
        ).map_values(
            |p: StoredPosition|
                PositionFixView {
                    book: p.book@,
                    chapter: p.chapter->0,
                    from: p.chunk->0,
                    to: b.changed@[p.chapter->0 as usize] as i64,
                },
        ),
{
    lemma_pulled_back(pos, b, pos.len());
    lemma_pick_none(
        pos,
        |p: StoredPosition| misplaced(p, b),
        |p: StoredPosition|
            PositionFixView {
                book: p.book@,
                chapter: p.chapter->0,
                from: p.chunk->0,
                to: b.changed@[p.chapter->0 as usize] as i64,
            },
    );
}

proof fn lemma_pulled_back(pos: Seq<StoredPosition>, b: BookPlan, n: nat)
    requires
        n <= pos.len(),
    ensures
        fixes_in(pos, b, n) == pos.take(n as int).filter(
            |p: StoredPosition| misplaced(p, b),
        ).map_values(
            |p: StoredPosition|
                PositionFixView {
                    book: p.book@,
                    chapter: p.chapter->0,
                    from: p.chunk->0,
                    to: b.changed@[p.chapter->0 as usize] as i64,
                },
        ),
    decreases n,
{
    let q = |p: StoredPosition| misplaced(p, b);
    let f = |p: StoredPosition|
        PositionFixView {
            book: p.book@,
            chapter: p.chapter->0,
            from: p.chunk->0,
            to: b.changed@[p.chapter->0 as usize] as i64,
        };
    lemma_pick_none(pos, q, f);
    if n > 0 {
        lemma_pulled_back(pos, b, (n - 1) as nat);
        lemma_pick_push(pos, n as int, q, f);
    }
}

proof fn lemma_fixes_prefix(pos: Seq<StoredPosition>, a: Seq<BookPlan>, b: Seq<BookPlan>, n: nat)
    requires
        n <= a.len(),
    ensures
        fixes_upto(pos, a + b, n) == fixes_upto(pos, a, n),
    decreases n,
{
    if n > 0 {
        lemma_fixes_prefix(pos, a, b, (n - 1) as nat);
        assert((a + b)[n - 1] == a[n - 1]);
    }
}

proof fn lemma_fixes_suffix(pos: Seq<StoredPosition>, a: Seq<BookPlan>, b: Seq<BookPlan>, n: nat)
    requires
        n <= b.len(),
    ensures
        fixes_upto(pos, a + b, a.len() + n) == fixes_upto(pos, a, a.len()) + fixes_upto(pos, b, n),
    decreases n,
{
    lemma_fixes_prefix(pos, a, b, a.len());
    if n == 0 {
        assert(fixes_upto(pos, a, a.len()) + fixes_upto(pos, b, 0) =~= fixes_upto(
            pos,
            a,
            a.len(),
        ));
    } else {
        lemma_fixes_suffix(pos, a, b, (n - 1) as nat);
        assert((a + b)[a.len() + n - 1] == b[n - 1]);
        let x = fixes_upto(pos, a, a.len());
        let y = fixes_upto(pos, b, (n - 1) as nat);
        let z = fixes_in(pos, b[n - 1], pos.len());
        assert((x + y) + z =~= x + (y + z));
    }
}

/// The places of two lists of books are pulled back as those of the one, and then as
/// those of the other; and those of one book as it says.
pub proof fn law_places_are_pulled_back_book_by_book(
    pos: Seq<StoredPosition>,
    a: Seq<BookPlan>,
    b: Seq<BookPlan>,
    one: BookPlan,
)
    ensures
        fixes_upto(pos, a + b, a.len() + b.len()) == fixes_upto(pos, a, a.len()) + fixes_upto(
            pos,
            b,
            b.len(),
        ),
        fixes_upto(pos, seq![one], 1) == fixes_in(pos, one, pos.len()),
{
    lemma_fixes_suffix(pos, a, b, b.len());
    assert(fixes_upto(pos, seq![one], 0) =~= Seq::<PositionFixView>::empty());
    assert(seq![one][0] == one);
    assert(fixes_upto(pos, seq![one], 1) =~= fixes_in(pos, one, pos.len()));
}

/// How long a chapter is after the change is what the first plan of its book has of
/// it; it is not known where no plan is of its book, or the first has no such chapter.
pub proof fn law_the_first_plan_of_a_book_counts(f: PositionFixView, books: Seq<BookPlan>, k: int)
    requires
        0 <= k <= books.len(),
        forall|j: int| 0 <= j < k ==> (#[trigger] books[j]).key@ != key_of(f.book),
        k < books.len() ==> books[k].key@ == key_of(f.book),
    ensures
        total_after(f, books, 0) == if k < books.len() && 0 <= f.chapter < books[k].plan@.len() {
            Some(books[k].plan@[f.chapter as int].chunks@.len() as usize)
        } else {
            None
        },
{
    lemma_total_from(f, books, k, 0);
}

proof fn lemma_total_from(f: PositionFixView, books: Seq<BookPlan>, k: int, i: int)
    requires
        0 <= i <= k <= books.len(),
        forall|j: int| 0 <= j < k ==> (#[trigger] books[j]).key@ != key_of(f.book),
        k < books.len() ==> books[k].key@ == key_of(f.book),
    ensures
        total_after(f, books, i) == if k < books.len() && 0 <= f.chapter < books[k].plan@.len() {
            Some(books[k].plan@[f.chapter as int].chunks@.len() as usize)
        } else {
            None
        },
    decreases k - i,
{
    if i < k {
        lemma_total_from(f, books, k, i + 1);
        assert(books[i].key@ != key_of(f.book));
    }
}

/// Every record of a book whose place is pulled back is changed, and no other, in
/// order: to the place it is pulled back to, and the length of the chapter.
pub proof fn law_every_record_held_is_changed(
    fixes: Seq<PositionFixView>,
    held: Seq<Seq<char>>,
    books: Seq<BookPlan>,
)
    ensures
        records_upto(fixes, held, books, fixes.len() as int) == fixes.filter(
            |f: PositionFixView| held.contains(f.book),
        ).map_values(
            |f: PositionFixView|
                RecordChangeView {
                    book: f.book,
                    chunk: f.to,
                    chunks_total: total_after(f, books, 0),
                },
        ),
{
    lemma_records(fixes, held, books, fixes.len() as int);
    lemma_pick_none(
        fixes,
        |f: PositionFixView| held.contains(f.book),
        |f: PositionFixView|
            RecordChangeView {
                book: f.book,
                chunk: f.to,
                chunks_total: total_after(f, books, 0),
            },
    );
}

proof fn lemma_records(
    fixes: Seq<PositionFixView>,
    held: Seq<Seq<char>>,
    books: Seq<BookPlan>,
    n: int,
)
    requires
        0 <= n <= fixes.len(),
    ensures
        records_upto(fixes, held, books, n) == fixes.take(n).filter(
            |f: PositionFixView| held.contains(f.book),
        ).map_values(
            |f: PositionFixView|
                RecordChangeView {
                    book: f.book,
                    chunk: f.to,
                    chunks_total: total_after(f, books, 0),
                },
        ),
    decreases n,
{
    let p = |f: PositionFixView| held.contains(f.book);
    let g = |f: PositionFixView|
        RecordChangeView { book: f.book, chunk: f.to, chunks_total: total_after(f, books, 0) };
    lemma_pick_none(fixes, p, g);
    if n > 0 {
        lemma_records(fixes, held, books, n - 1);
        lemma_pick_push(fixes, n, p, g);
    }
}

// ------------------------------------------------------------------------ the stages

/// The next book to apply is the first from `k` on that anything changes in; the places
/// come only where there is none.
pub proof fn law_every_changed_book_is_applied(noop: Seq<bool>, k: int, positions: bool)
    requires
        0 <= k <= noop.len() <= usize::MAX,
    ensures
        match applying_from(noop, k, positions) {
            Stage::Applying(n) => k <= n < noop.len() && !noop[n as int] && forall|j: int|
                k <= j < n ==> #[trigger] noop[j],
            Stage::Positions => positions && forall|j: int|
                k <= j < noop.len() ==> #[trigger] noop[j],
            Stage::Done(code) => code == 0 && !positions && forall|j: int|
                k <= j < noop.len() ==> #[trigger] noop[j],
            Stage::Planning(_) => false,
        },
{
    lemma_next_one(noop, k);
}

proof fn lemma_next_one(noop: Seq<bool>, k: int)
    requires
        0 <= k <= noop.len(),
    ensures
        k <= next_changed(noop, k) <= noop.len(),
        next_changed(noop, k) < noop.len() ==> !noop[next_changed(noop, k)],
        forall|j: int| k <= j < next_changed(noop, k) ==> #[trigger] noop[j],
    decreases noop.len() - k,
{
    if k < noop.len() && noop[k] {
        lemma_next_one(noop, k + 1);
    }
}

// -------------------------------------------------------------------- the arguments

proof fn lemma_parsed_on(
    x: Seq<Seq<char>>,
    t: Seq<Seq<char>>,
    i: int,
    work: Seq<char>,
    only: Option<Seq<char>>,
    apply: bool,
)
    requires
        0 <= i <= x.len(),
        parsed_from(x, i, work, only, apply) is Ok,
    ensures
        ({
            let (w, o, a) = parsed_from(x, i, work, only, apply)->Ok_0;
            parsed_from(x + t, i, work, only, apply) == parsed_from(
                x + t,
                x.len() as int,
                w,
                o,
                a,
            )
        }),
    decreases x.len() - i,
{
    if i < x.len() {
        assert((x + t)[i] == x[i]);
        if x[i] == "--apply"@ {
            lemma_parsed_on(x, t, i + 1, work, only, true);
        } else if x[i] == "--dry-run"@ {
            lemma_parsed_on(x, t, i + 1, work, only, false);
        } else if x[i] == "--dir"@ {
            assert((x + t)[i + 1] == x[i + 1]);
            lemma_parsed_on(x, t, i + 2, x[i + 1], only, apply);
        } else {
            assert((x + t)[i + 1] == x[i + 1]);
            lemma_parsed_on(x, t, i + 2, work, Some(x[i + 1]), apply);
        }
    }
}

/// What one more argument, or one more pair of them, makes of arguments that are
/// accepted: the last of `--apply` and `--dry-run` holds, and so do the last folder and
/// the last book; a folder or a book that is not named is refused, and so is any other
/// argument. With none, nothing is applied.
pub proof fn law_the_last_argument_holds(
    argv: Seq<Seq<char>>,
    work: Seq<char>,
    flag: Seq<char>,
    v: Seq<char>,
)
    requires
        parsed_from(argv, 0, work, None, false) is Ok,
    ensures
        ({
            let (w, o, a) = parsed_from(argv, 0, work, None, false)->Ok_0;
            let bare = parsed_from(argv + seq![flag], 0, work, None, false);
            let pair = parsed_from(argv + seq![flag, v], 0, work, None, false);
            &&& flag == "--apply"@ ==> bare == Ok::<_, Seq<char>>((w, o, true))
            &&& flag == "--dry-run"@ ==> bare == Ok::<_, Seq<char>>((w, o, false))
            &&& flag == "--dir"@ ==> pair == Ok::<_, Seq<char>>((v, o, a)) && bare == Err::<
                (Seq<char>, Option<Seq<char>>, bool),
                _,
            >("--dir needs a path"@)
            &&& flag == "--book"@ ==> pair == Ok::<_, Seq<char>>((w, Some(v), a)) && bare == Err::<
                (Seq<char>, Option<Seq<char>>, bool),
                _,
            >("--book needs a key"@)
            &&& flag != "--apply"@ && flag != "--dry-run"@ && flag != "--dir"@ && flag != "--book"@
                ==> bare == Err::<(Seq<char>, Option<Seq<char>>, bool), _>(
                "unexpected argument "@ + crate::export::debug_of(flag),
            )
        }),
        parsed_from(Seq::empty(), 0, work, None, false) == Ok::<_, Seq<char>>(
            (work, None::<Seq<char>>, false),
        ),
{
    reveal_strlit("--apply");
    reveal_strlit("--dry-run");
    reveal_strlit("--dir");
    reveal_strlit("--book");
    assert("--apply"@[2] == 'a' && "--dry-run"@[2] == 'd' && "--dir"@[2] == 'd' && "--book"@[2]
        == 'b');
    assert("--dry-run"@.len() == 9 && "--dir"@.len() == 5);
    let n = argv.len() as int;
    let one = argv + seq![flag];
    let two = argv + seq![flag, v];
    lemma_parsed_on(argv, seq![flag], 0, work, None, false);
    lemma_parsed_on(argv, seq![flag, v], 0, work, None, false);
    assert(one[n] == flag);
    assert(two[n] == flag && two[n + 1] == v);
    reveal_with_fuel(parsed_from, 2);
}

} // verus!
