//! What holds of the store, whatever is written to it.

use vstd::prelude::*;
use crate::order::{differs_at, law_sorted, law_texts_are_ordered, law_the_first_difference_decides, orders, sorted, text_le};
use crate::rows::{drop_where, first_where, lemma_first_where, put_where, row_where};
use crate::store::{added_upto, book_again, by_chapter, by_device, by_key, by_newest, by_opening, by_seq, by_sight, held_again, indexed_upto, is_further, is_held, is_indexed, is_intent, leading, mark_after, newest_first, not_kept, opened_after, ordered_again, ordered_upto, positions_in, wanted, written_after, BookRowView, ChapterIndexRowView, DeviceRowView, IndexEntryView, IntentRowView, InventoryRowView, PositionEntryView, StoreView};

verus! {

/// What is written is read back.
pub proof fn law_rows_read_back<T>(s: Seq<T>, p: spec_fn(T) -> bool, row: T)
    requires
        p(row),
    ensures
        row_where(put_where(s, p, row), p) == Some(row),
{
    let t = put_where(s, p, row);
    lemma_first_where(s, p, 0);
    lemma_first_where(t, p, 0);
    match first_where(s, p, 0) {
        Some(i) => {
            assert(t[i] == row);
            assert forall|m: int| 0 <= m < i implies !p(#[trigger] t[m]) by {
                assert(t[m] == s[m]);
            }
        },
        None => {
            assert(t[s.len() as int] == row);
            assert forall|m: int| 0 <= m < s.len() implies !p(#[trigger] t[m]) by {
                assert(t[m] == s[m]);
            }
        },
    }
}

/// Writing one row leaves every other as it was.
pub proof fn law_other_rows_stay<T>(
    s: Seq<T>,
    p: spec_fn(T) -> bool,
    q: spec_fn(T) -> bool,
    row: T,
)
    requires
        p(row),
        forall|t: T| #[trigger] p(t) ==> !q(t),
    ensures
        row_where(put_where(s, p, row), q) == row_where(s, q),
{
    let t = put_where(s, p, row);
    lemma_first_where(s, p, 0);
    lemma_first_where(s, q, 0);
    lemma_first_where(t, q, 0);
    let at = match first_where(s, p, 0) {
        Some(i) => i,
        None => s.len() as int,
    };
    assert(t[at] == row);
    assert forall|m: int| 0 <= m < s.len() && m != at implies #[trigger] t[m] == s[m] by {}
    if at < s.len() {
        assert(!q(s[at]));
    }
    match first_where(s, q, 0) {
        Some(k) => {
            assert(t[k] == s[k]);
            match first_where(t, q, 0) {
                Some(j) => {
                    if j < k {
                        assert(t[j] == s[j]);
                    } else if k < j {
                        assert(!q(t[k]));
                    }
                },
                None => {
                    assert(!q(t[k]));
                },
            }
        },
        None => {
            if let Some(j) = first_where(t, q, 0) {
                if j != at {
                    assert(t[j] == s[j]);
                }
            }
        },
    }
}

/// Whether no two rows have the same key.
pub open spec fn one_per_key<T, K>(s: Seq<T>, key: spec_fn(T) -> K) -> bool {
    forall|i: int, j: int| 0 <= i < j < s.len() ==> key(#[trigger] s[i]) != key(#[trigger] s[j])
}

/// Writing the row of a key keeps it that there is one row for each.
pub proof fn law_keys_stay_single<T, K>(
    s: Seq<T>,
    key: spec_fn(T) -> K,
    p: spec_fn(T) -> bool,
    row: T,
)
    requires
        one_per_key(s, key),
        forall|t: T| #[trigger] p(t) <==> key(t) == key(row),
    ensures
        one_per_key(put_where(s, p, row), key),
{
    let t = put_where(s, p, row);
    lemma_first_where(s, p, 0);
    match first_where(s, p, 0) {
        Some(k) => {
            assert(p(s[k]));
            assert forall|i: int, j: int| 0 <= i < j < t.len() implies key(#[trigger] t[i]) != key(
                #[trigger] t[j],
            ) by {
                assert(key(s[i]) != key(s[j]));
            }
        },
        None => {
            assert forall|i: int, j: int| 0 <= i < j < t.len() implies key(#[trigger] t[i]) != key(
                #[trigger] t[j],
            ) by {
                if j < s.len() {
                    assert(key(s[i]) != key(s[j]));
                } else {
                    assert(!p(s[i]));
                }
            }
        },
    }
}

/// A mark never goes back, and reaches at least where it was asked to; asking
/// twice changes nothing.
pub proof fn law_marks_never_go_back(old: Option<(i64, i64)>, new: (i64, i64))
    ensures
        ({
            let m = mark_after(old, new);
            &&& old matches Some(o) ==> !is_further(o, m)
            &&& !is_further(new, m)
            &&& mark_after(Some(m), new) == m
        }),
{
}

/// An order placed again keeps its place in the queue and its date, its count
/// starts over, and a wish to pack is not taken back.
pub proof fn law_ordering_again_keeps_the_place(
    old: IntentRowView,
    device: Seq<char>,
    pack: bool,
    seq: u64,
    now: i64,
)
    ensures
        ({
            let r = ordered_again(Some(old), old.book, old.chapter, device, pack, seq, now);
            &&& r.seq == old.seq && r.created_ms == old.created_ms
            &&& r.book == old.book && r.chapter == old.chapter
            &&& r.tries == 0
            &&& r.pack == (old.pack || pack)
            &&& r.device == device
        }),
{
}

/// Whether the store knows this device to hold this chapter.
pub open spec fn holds(
    rows: Seq<InventoryRowView>,
    device: Seq<char>,
    book: Seq<char>,
    chapter: usize,
) -> bool {
    exists|i: int| 0 <= i < rows.len() && is_held(device, book, chapter)(#[trigger] rows[i])
}

proof fn lemma_holds_found(
    rows: Seq<InventoryRowView>,
    device: Seq<char>,
    book: Seq<char>,
    chapter: usize,
)
    ensures
        holds(rows, device, book, chapter) <==> first_where(
            rows,
            is_held(device, book, chapter),
            0,
        ) is Some,
{
    lemma_first_where(rows, is_held(device, book, chapter), 0);
}

proof fn lemma_added(
    rows: Seq<InventoryRowView>,
    device: Seq<char>,
    book: Seq<char>,
    chapters: Seq<usize>,
    n: nat,
    now: i64,
)
    requires
        n <= chapters.len(),
    ensures
        ({
            let after = added_upto(rows, device, book, chapters, n, now);
            &&& after.len() >= rows.len()
            &&& after.take(rows.len() as int) == rows
            &&& forall|i: int|
                rows.len() <= i < after.len() ==> (#[trigger] after[i]).device == device
                    && after[i].book == book && wanted(chapters, after[i].chapter)
                    && after[i].bytes is None && after[i].stored_ms == now
            &&& forall|k: int|
                0 <= k < n ==> holds(after, device, book, #[trigger] chapters[k])
        }),
    decreases n,
{
    if n == 0 {
        assert(rows.take(rows.len() as int) =~= rows);
    } else {
        lemma_added(rows, device, book, chapters, (n - 1) as nat, now);
        let before = added_upto(rows, device, book, chapters, (n - 1) as nat, now);
        let after = added_upto(rows, device, book, chapters, n, now);
        let c = chapters[n - 1];
        lemma_holds_found(before, device, book, c);
        assert(after.take(rows.len() as int) =~= before.take(rows.len() as int));
        assert forall|k: int| 0 <= k < n implies holds(
            after,
            device,
            book,
            #[trigger] chapters[k],
        ) by {
            if k < n - 1 || holds(before, device, book, c) {
                assert(holds(before, device, book, chapters[k]));
                let i = choose|i: int|
                    0 <= i < before.len() && is_held(device, book, chapters[k])(
                        #[trigger] before[i],
                    );
                assert(after[i] == before[i]);
            } else {
                assert(is_held(device, book, c)(after[before.len() as int]));
            }
        }
        assert forall|i: int| rows.len() <= i < after.len() implies (
        #[trigger] after[i]).device == device && after[i].book == book && wanted(
            chapters,
            after[i].chapter,
        ) && after[i].bytes is None && after[i].stored_ms == now by {
            if i < before.len() {
                assert(after[i] == before[i]);
            } else {
                assert(chapters[n - 1] == c);
            }
        }
    }
}

/// After its holdings of a book are set, a device holds the chapters it was said
/// to hold and no others; what it still holds is as it was recorded; and what it newly
/// holds is of no known size and was stored at this time.
pub proof fn law_holdings_are_what_was_said(
    rows: Seq<InventoryRowView>,
    device: Seq<char>,
    book: Seq<char>,
    chapters: Seq<usize>,
    now: i64,
)
    ensures
        ({
            let left = drop_where(rows, not_kept(device, book, chapters));
            let after = added_upto(left, device, book, chapters, chapters.len(), now);
            &&& forall|c: usize|
                #[trigger] holds(after, device, book, c) <==> wanted(chapters, c)
            &&& after.take(left.len() as int) == left
            &&& forall|i: int|
                left.len() <= i < after.len() ==> (#[trigger] after[i]).device == device
                    && after[i].book == book && wanted(chapters, after[i].chapter)
                    && after[i].bytes is None && after[i].stored_ms == now
        }),
{
    let p = not_kept(device, book, chapters);
    let keep = |r: InventoryRowView| !p(r);
    let left = drop_where(rows, p);
    let after = added_upto(left, device, book, chapters, chapters.len(), now);
    lemma_added(left, device, book, chapters, chapters.len(), now);
    assert forall|c: usize| #[trigger] holds(after, device, book, c) <==> wanted(
        chapters,
        c,
    ) by {
        if holds(after, device, book, c) {
            let i = choose|i: int|
                0 <= i < after.len() && is_held(device, book, c)(#[trigger] after[i]);
            if i < left.len() {
                assert(after.take(left.len() as int)[i] == after[i]);
                rows.lemma_filter_pred(keep, i);
                assert(keep(left[i]));
            }
        }
        if wanted(chapters, c) {
            let k = choose|k: int| 0 <= k < chapters.len() && #[trigger] chapters[k] == c;
            assert(holds(after, device, book, chapters[k]));
        }
    }
}

/// The position shown for a book is the one written last: no position in that
/// book was written after it.
pub proof fn law_the_newest_is_shown(rows: Seq<PositionEntryView>, book: Seq<char>, k: int)
    requires
        0 <= k < rows.len(),
        rows[k].book == book,
    ensures
        newest_first(rows, book).len() > 0,
        written_after(newest_first(rows, book)[0].row, rows[k].row),
        newest_first(rows, book)[0].book == book,
{
    broadcast use vstd::seq_lib::group_to_multiset_ensures;

    let p = positions_in(book);
    let some = rows.filter(p);
    let list = newest_first(rows, book);
    assert(orders(by_newest())) by {
        assert forall|a: PositionEntryView, b: PositionEntryView| #[trigger] by_newest()(a, b)
            || by_newest()(b, a) by {}
    }
    law_sorted(some, by_newest());
    rows.lemma_filter_contains(p, k);
    assert(some.contains(rows[k]));
    assert(some.to_multiset().contains(rows[k]));
    assert(list.to_multiset().contains(rows[k]));
    assert(list.contains(rows[k]));
    let j = choose|j: int| 0 <= j < list.len() && list[j] == rows[k];
    assert(by_newest()(list[0], list[j]));
    assert(list.contains(list[0]));
    assert(list.to_multiset().contains(list[0]));
    assert(some.contains(list[0]));
    let m = choose|m: int| 0 <= m < some.len() && some[m] == list[0];
    rows.lemma_filter_pred(p, m);
}

/// Books are listed by when they were opened, the ones never opened last.
pub proof fn law_recent_books_in_order(rows: Seq<BookRowView>)
    ensures
        ({
            let list = sorted(rows, by_opening());
            &&& list.to_multiset() == rows.to_multiset()
            &&& forall|i: int, j: int|
                0 <= i <= j < list.len() ==> opened_after(#[trigger] list[i], #[trigger] list[j])
            &&& forall|i: int, j: int|
                0 <= i <= j < list.len() && (#[trigger] list[i]).last_open_ms is None ==> (
                #[trigger] list[j]).last_open_ms is None
        }),
{
    assert(orders(by_opening())) by {
        assert forall|a: BookRowView, b: BookRowView| #[trigger] by_opening()(a, b) || by_opening()(
            b,
            a,
        ) by {
            crate::order::law_texts_are_ordered(a.key, b.key, a.key);
        }
        assert forall|a: BookRowView, b: BookRowView, c: BookRowView| #[trigger] by_opening()(a, b)
            && #[trigger] by_opening()(b, c) implies by_opening()(a, c) by {
            crate::order::law_texts_are_ordered(a.key, b.key, c.key);
        }
    }
    law_sorted(rows, by_opening());
    let list = sorted(rows, by_opening());
    assert forall|i: int, j: int| 0 <= i <= j < list.len() implies opened_after(
        #[trigger] list[i],
        #[trigger] list[j],
    ) by {
        assert(by_opening()(list[i], list[j]));
    }
}

// ------------------------------------------------------------------------- orders

/// What an order for chapters of a book comes to, for one of them: it is on record, not
/// tried, under the device that asked last, to be packed where that was asked now or
/// before; and it keeps its place and its time where it was on record already.
pub open spec fn order_stands(
    was: Option<IntentRowView>,
    is: Option<IntentRowView>,
    device: Seq<char>,
    pack: bool,
    now: i64,
) -> bool {
    is matches Some(r) && r.tries == 0 && r.device == device && match was {
        Some(w) => r.pack == (w.pack || pack) && r.seq == w.seq && r.created_ms == w.created_ms,
        None => r.pack == pack && r.created_ms == now,
    }
}

/// Ordering chapters of a book puts every one of them on record and leaves every other
/// order, and every other table, as it was. Chapters that are new get their places in
/// the order in which they are asked for.
pub proof fn law_every_chapter_is_ordered(
    s: StoreView,
    book: Seq<char>,
    chapters: Seq<usize>,
    device: Seq<char>,
    pack: bool,
    now: i64,
)
    requires
        s.seq + chapters.len() <= u64::MAX,
    ensures
        ({
            let t = ordered_upto(s, book, chapters, chapters.len(), device, pack, now);
            &&& t == (StoreView { seq: t.seq, intents: t.intents, ..s })
            &&& t.seq == s.seq + chapters.len()
            &&& forall|b: Seq<char>, c: usize|
                b == book && chapters.contains(c) ==> order_stands(
                    row_where(s.intents, is_intent(b, c)),
                    #[trigger] row_where(t.intents, is_intent(b, c)),
                    device,
                    pack,
                    now,
                )
            &&& forall|b: Seq<char>, c: usize|
                !(b == book && chapters.contains(c)) ==> #[trigger] row_where(
                    t.intents,
                    is_intent(b, c),
                ) == row_where(s.intents, is_intent(b, c))
            &&& chapters.no_duplicates() ==> forall|i: int|
                0 <= i < chapters.len() && row_where(
                    s.intents,
                    is_intent(book, #[trigger] chapters[i]),
                ) is None ==> row_where(t.intents, is_intent(book, chapters[i]))->0.seq == s.seq + i
                    + 1
        }),
{
    lemma_ordered(s, book, chapters, chapters.len(), device, pack, now);
    assert(chapters.take(chapters.len() as int) =~= chapters);
}

proof fn lemma_ordered(
    s: StoreView,
    book: Seq<char>,
    chapters: Seq<usize>,
    n: nat,
    device: Seq<char>,
    pack: bool,
    now: i64,
)
    requires
        n <= chapters.len(),
        s.seq + chapters.len() <= u64::MAX,
    ensures
        ({
            let t = ordered_upto(s, book, chapters, n, device, pack, now);
            let some = chapters.take(n as int);
            &&& t == (StoreView { seq: t.seq, intents: t.intents, ..s })
            &&& t.seq == s.seq + n
            &&& forall|b: Seq<char>, c: usize|
                b == book && some.contains(c) ==> order_stands(
                    row_where(s.intents, is_intent(b, c)),
                    #[trigger] row_where(t.intents, is_intent(b, c)),
                    device,
                    pack,
                    now,
                )
            &&& forall|b: Seq<char>, c: usize|
                !(b == book && some.contains(c)) ==> #[trigger] row_where(
                    t.intents,
                    is_intent(b, c),
                ) == row_where(s.intents, is_intent(b, c))
            &&& chapters.no_duplicates() ==> forall|i: int|
                0 <= i < n && row_where(
                    s.intents,
                    is_intent(book, #[trigger] chapters[i]),
                ) is None ==> row_where(t.intents, is_intent(book, chapters[i]))->0.seq == s.seq + i
                    + 1
        }),
    decreases n,
{
    let t = ordered_upto(s, book, chapters, n, device, pack, now);
    let some = chapters.take(n as int);
    if n > 0 {
        let m = (n - 1) as nat;
        lemma_ordered(s, book, chapters, m, device, pack, now);
        let u = ordered_upto(s, book, chapters, m, device, pack, now);
        let before = chapters.take(m as int);
        let c = chapters[m as int];
        let p = is_intent(book, c);
        lemma_row_where(u.intents, p);
        let was = row_where(u.intents, p);
        let row = ordered_again(was, book, c, device, pack, (u.seq + 1) as u64, now);
        assert(t.intents == put_where(u.intents, p, row));
        assert(p(row));
        assert(some =~= before.push(c));
        assert forall|x: usize| #[trigger] some.contains(x) <==> before.contains(x) || x == c by {
            if some.contains(x) {
                let k = some.index_of(x);
                if k < before.len() {
                    assert(before[k] == x);
                }
            }
            if before.contains(x) {
                let k = before.index_of(x);
                assert(some[k] == x);
            }
            assert(some[m as int] == c);
        }
        assert forall|b: Seq<char>, x: usize| b == book && x == c implies #[trigger] row_where(
            t.intents,
            is_intent(b, x),
        ) == Some(row) by {
            law_rows_read_back(u.intents, p, row);
        }
        assert forall|b: Seq<char>, x: usize| !(b == book && x == c) implies #[trigger] row_where(
            t.intents,
            is_intent(b, x),
        ) == row_where(u.intents, is_intent(b, x)) by {
            law_other_rows_stay(u.intents, p, is_intent(b, x), row);
        }
        assert forall|b: Seq<char>, x: usize| b == book && some.contains(x) implies order_stands(
            row_where(s.intents, is_intent(b, x)),
            #[trigger] row_where(t.intents, is_intent(b, x)),
            device,
            pack,
            now,
        ) by {
            assert(some.contains(x) <==> before.contains(x) || x == c);
            let mid = row_where(u.intents, is_intent(b, x));
            if x == c {
                if before.contains(c) {
                    assert(order_stands(
                        row_where(s.intents, is_intent(b, x)),
                        mid,
                        device,
                        pack,
                        now,
                    ));
                } else {
                    assert(mid == row_where(s.intents, is_intent(b, x)));
                }
            }
        }
        assert forall|b: Seq<char>, x: usize|
            !(b == book && some.contains(x)) implies #[trigger] row_where(
            t.intents,
            is_intent(b, x),
        ) == row_where(s.intents, is_intent(b, x)) by {
            assert(some.contains(x) <==> before.contains(x) || x == c);
            assert(row_where(u.intents, is_intent(b, x)) == row_where(
                s.intents,
                is_intent(b, x),
            ));
        }
        if chapters.no_duplicates() {
            assert forall|i: int| 0 <= i < n && row_where(
                s.intents,
                is_intent(book, #[trigger] chapters[i]),
            ) is None implies row_where(t.intents, is_intent(book, chapters[i]))->0.seq == s.seq + i
                + 1 by {
                if i < m {
                    assert(chapters[i] != c);
                } else {
                    assert(!before.contains(c)) by {
                        if before.contains(c) {
                            let k = before.index_of(c);
                            assert(chapters[k] == c);
                        }
                    }
                    assert(was is None);
                }
            }
        }
    }
}

proof fn lemma_row_where<T>(s: Seq<T>, p: spec_fn(T) -> bool)
    ensures
        row_where(s, p) matches Some(r) ==> p(r),
{
    lemma_first_where(s, p, 0);
}

// -------------------------------------------------------------------------- index

/// Putting rows into the index of a book leaves every row that is put as what the index
/// says of its chapter, the last where several are of one chapter; and what it says of
/// every other chapter, and of every other book, stays.
pub proof fn law_the_index_says_what_was_put(
    s: Seq<IndexEntryView>,
    book: Seq<char>,
    rows: Seq<ChapterIndexRowView>,
    other: Seq<char>,
    c: usize,
)
    ensures
        ({
            let t = indexed_upto(s, book, rows, rows.len());
            &&& forall|k: int|
                0 <= k < rows.len() && (forall|m: int|
                    k < m < rows.len() ==> (#[trigger] rows[m]).chapter != rows[k].chapter)
                    ==> row_where(t, is_indexed(book, (#[trigger] rows[k]).chapter)) == Some(
                    IndexEntryView { book, row: rows[k] },
                )
            &&& (other != book || forall|m: int|
                0 <= m < rows.len() ==> (#[trigger] rows[m]).chapter != c) ==> row_where(
                t,
                is_indexed(other, c),
            ) == row_where(s, is_indexed(other, c))
        }),
{
    lemma_indexed(s, book, rows, rows.len(), other, c);
}

proof fn lemma_indexed(
    s: Seq<IndexEntryView>,
    book: Seq<char>,
    rows: Seq<ChapterIndexRowView>,
    n: nat,
    other: Seq<char>,
    c: usize,
)
    requires
        n <= rows.len(),
    ensures
        ({
            let t = indexed_upto(s, book, rows, n);
            &&& forall|k: int|
                0 <= k < n && (forall|m: int|
                    k < m < n ==> (#[trigger] rows[m]).chapter != rows[k].chapter) ==> row_where(
                    t,
                    is_indexed(book, (#[trigger] rows[k]).chapter),
                ) == Some(IndexEntryView { book, row: rows[k] })
            &&& (other != book || forall|m: int|
                0 <= m < n ==> (#[trigger] rows[m]).chapter != c) ==> row_where(
                t,
                is_indexed(other, c),
            ) == row_where(s, is_indexed(other, c))
        }),
    decreases n,
{
    if n > 0 {
        let k0 = n - 1;
        lemma_indexed(s, book, rows, k0 as nat, other, c);
        let u = indexed_upto(s, book, rows, k0 as nat);
        let t = indexed_upto(s, book, rows, n);
        let r = rows[k0];
        let p = is_indexed(book, r.chapter);
        let row = IndexEntryView { book, row: r };
        assert(t == put_where(u, p, row));
        law_rows_read_back(u, p, row);
        assert forall|k: int|
            0 <= k < n && (forall|m: int|
                k < m < n ==> (#[trigger] rows[m]).chapter != rows[k].chapter) implies row_where(
            t,
            is_indexed(book, (#[trigger] rows[k]).chapter),
        ) == Some(IndexEntryView { book, row: rows[k] }) by {
            if k < k0 {
                assert(rows[k0].chapter != rows[k].chapter);
                law_other_rows_stay(u, p, is_indexed(book, rows[k].chapter), row);
            }
        }
        if other != book || forall|m: int| 0 <= m < n ==> (#[trigger] rows[m]).chapter != c {
            assert(other != book || rows[k0].chapter != c);
            law_other_rows_stay(u, p, is_indexed(other, c), row);
        }
    }
}

// ------------------------------------------------------------------- in what order

/// Orders are listed in the order in which they were given, all of them.
pub proof fn law_orders_are_listed_as_given(rows: Seq<IntentRowView>)
    ensures
        ({
            let list = sorted(rows, by_seq());
            &&& list.to_multiset() == rows.to_multiset()
            &&& forall|i: int, j: int|
                0 <= i <= j < list.len() ==> (#[trigger] list[i]).seq <= (#[trigger] list[j]).seq
        }),
{
    law_sorted(rows, by_seq());
    let list = sorted(rows, by_seq());
    assert forall|i: int, j: int| 0 <= i <= j < list.len() implies (#[trigger] list[i]).seq <= (
    #[trigger] list[j]).seq by {
        assert(by_seq()(list[i], list[j]));
    }
}

/// Devices are listed with the one seen last first, all of them, those seen at the same
/// time by their numbers.
pub proof fn law_the_device_seen_last_is_first(rows: Seq<DeviceRowView>)
    ensures
        ({
            let list = sorted(rows, by_sight());
            &&& list.to_multiset() == rows.to_multiset()
            &&& forall|i: int, j: int|
                0 <= i <= j < list.len() ==> (#[trigger] list[i]).last_seen >= (
                #[trigger] list[j]).last_seen && (list[i].last_seen == list[j].last_seen
                    ==> text_le(list[i].id, list[j].id))
        }),
{
    let le = by_sight();
    assert forall|a: DeviceRowView, b: DeviceRowView| #[trigger] le(a, b) || le(b, a) by {
        law_texts_are_ordered(a.id, b.id, a.id);
    }
    assert forall|a: DeviceRowView, b: DeviceRowView, c: DeviceRowView| #[trigger] le(a, b)
        && #[trigger] le(b, c) implies le(a, c) by {
        law_texts_are_ordered(a.id, b.id, c.id);
    }
    law_sorted(rows, le);
    let list = sorted(rows, le);
    assert forall|i: int, j: int| 0 <= i <= j < list.len() implies (#[trigger] list[i]).last_seen
        >= (#[trigger] list[j]).last_seen && (list[i].last_seen == list[j].last_seen ==> text_le(
        list[i].id,
        list[j].id,
    )) by {
        assert(le(list[i], list[j]));
    }
}

/// What devices hold is listed device by device, each with its chapters in order, all
/// of it.
pub proof fn law_holdings_are_listed_by_device(rows: Seq<InventoryRowView>)
    ensures
        ({
            let list = sorted(rows, by_device());
            &&& list.to_multiset() == rows.to_multiset()
            &&& forall|i: int, j: int|
                0 <= i <= j < list.len() ==> text_le(
                    (#[trigger] list[i]).device,
                    (#[trigger] list[j]).device,
                ) && (list[i].device == list[j].device ==> list[i].chapter <= list[j].chapter)
        }),
{
    let le = by_device();
    assert forall|a: InventoryRowView, b: InventoryRowView| #[trigger] le(a, b) || le(b, a) by {
        law_texts_are_ordered(a.device, b.device, a.device);
    }
    assert forall|a: InventoryRowView, b: InventoryRowView, c: InventoryRowView| #[trigger]
        le(a, b) && #[trigger] le(b, c) implies le(a, c) by {
        law_texts_are_ordered(a.device, b.device, c.device);
        lemma_text_same(a.device, b.device);
    }
    law_sorted(rows, le);
    let list = sorted(rows, le);
    assert forall|i: int, j: int| 0 <= i <= j < list.len() implies text_le(
        (#[trigger] list[i]).device,
        (#[trigger] list[j]).device,
    ) && (list[i].device == list[j].device ==> list[i].chapter <= list[j].chapter) by {
        assert(le(list[i], list[j]));
        law_texts_are_ordered(list[i].device, list[i].device, list[i].device);
    }
}

/// Two texts that each come before the other are one.
proof fn lemma_text_same(a: Seq<char>, b: Seq<char>)
    ensures
        text_le(a, b) && text_le(b, a) ==> a == b,
{
    law_the_first_difference_decides(a, b);
    law_the_first_difference_decides(b, a);
    if text_le(a, b) && text_le(b, a) {
        if a.is_prefix_of(b) && b.is_prefix_of(a) {
            assert(a =~= b);
        } else if exists|k: int| #[trigger] differs_at(a, b, k) && a[k] < b[k] {
            let k = choose|k: int| #[trigger] differs_at(a, b, k) && a[k] < b[k];
            if b.is_prefix_of(a) {
                assert(b[k] == a.subrange(0, b.len() as int)[k]);
            } else {
                let m = choose|m: int| #[trigger] differs_at(b, a, m) && b[m] < a[m];
                if k < m {
                    assert(b[k] == a[k]);
                } else if m < k {
                    assert(a[m] == b[m]);
                }
            }
        } else {
            let m = choose|m: int| #[trigger] differs_at(b, a, m) && b[m] < a[m];
            assert(a[m] == b.subrange(0, a.len() as int)[m]);
        }
    }
}

/// The chapters of an index, and the books of a library, are listed in their order, all
/// of them.
pub proof fn law_indexes_and_books_are_listed_in_order(
    rows: Seq<IndexEntryView>,
    books: Seq<BookRowView>,
)
    ensures
        ({
            let list = sorted(rows, by_chapter());
            &&& list.to_multiset() == rows.to_multiset()
            &&& forall|i: int, j: int|
                0 <= i <= j < list.len() ==> (#[trigger] list[i]).row.chapter <= (
                #[trigger] list[j]).row.chapter
        }),
        ({
            let list = sorted(books, by_key());
            &&& list.to_multiset() == books.to_multiset()
            &&& forall|i: int, j: int|
                0 <= i <= j < list.len() ==> text_le(
                    (#[trigger] list[i]).key,
                    (#[trigger] list[j]).key,
                )
        }),
{
    law_sorted(rows, by_chapter());
    let list = sorted(rows, by_chapter());
    assert forall|i: int, j: int| 0 <= i <= j < list.len() implies (#[trigger] list[i]).row.chapter
        <= (#[trigger] list[j]).row.chapter by {
        assert(by_chapter()(list[i], list[j]));
    }
    let le = by_key();
    assert forall|a: BookRowView, b: BookRowView| #[trigger] le(a, b) || le(b, a) by {
        law_texts_are_ordered(a.key, b.key, a.key);
    }
    assert forall|a: BookRowView, b: BookRowView, c: BookRowView| #[trigger] le(a, b) && #[trigger]
        le(b, c) implies le(a, c) by {
        law_texts_are_ordered(a.key, b.key, c.key);
    }
    law_sorted(books, le);
    let all = sorted(books, le);
    assert forall|i: int, j: int| 0 <= i <= j < all.len() implies text_le(
        (#[trigger] all[i]).key,
        (#[trigger] all[j]).key,
    ) by {
        assert(le(all[i], all[j]));
    }
}

/// A position leads its book where none of the book was written after it: every book
/// that has positions has one that leads, and where no two have one number, one only.
pub proof fn law_the_newest_position_leads(rows: Seq<PositionEntryView>, k: int)
    requires
        0 <= k < rows.len(),
        forall|i: int, j: int|
            0 <= i < j < rows.len() ==> (#[trigger] rows[i]).row.seq != (#[trigger] rows[j]).row.seq,
    ensures
        leading(rows)(rows[k]) <==> forall|i: int|
            0 <= i < rows.len() && (#[trigger] rows[i]).book == rows[k].book ==> written_after(
                rows[k].row,
                rows[i].row,
            ),
{
    let book = rows[k].book;
    law_the_newest_is_shown(rows, book, k);
    let list = newest_first(rows, book);
    let top = list[0];
    let mine = rows.filter(positions_in(book));
    assert(orders(by_newest()));
    law_sorted(mine, by_newest());
    broadcast use vstd::seq_lib::group_to_multiset_ensures;
    assert(list.contains(top));
    assert(list.to_multiset().count(top) > 0);
    assert(mine.to_multiset().count(top) > 0);
    assert(mine.contains(top));
    rows.lemma_filter_contains_rev(positions_in(book), top);
    let t = rows.index_of(top);
    assert(rows[t] == top);
    if leading(rows)(rows[k]) {
        assert(top.row.seq == rows[k].row.seq);
        assert(t == k);
        assert forall|i: int| 0 <= i < rows.len() && (#[trigger] rows[i]).book
            == rows[k].book implies written_after(rows[k].row, rows[i].row) by {
            law_the_newest_is_shown(rows, book, i);
        }
    }
    if forall|i: int|
        0 <= i < rows.len() && (#[trigger] rows[i]).book == rows[k].book ==> written_after(
            rows[k].row,
            rows[i].row,
        ) {
        assert(written_after(rows[k].row, rows[t].row));
        assert(top.row.seq == rows[k].row.seq);
    }
}

/// A copy that is reported again keeps its size where none is said, and is the same
/// copy; a book that is put again keeps when it was opened and looked at where that is
/// not said.
pub proof fn law_what_is_not_said_is_kept(
    old: InventoryRowView,
    bytes: Option<u64>,
    now: i64,
    was: BookRowView,
    new: BookRowView,
)
    ensures
        ({
            let r = held_again(Some(old), old.device, old.book, old.chapter, bytes, now);
            &&& r.device == old.device && r.book == old.book && r.chapter == old.chapter
            &&& r.stored_ms == now
            &&& r.bytes == if bytes is Some {
                bytes
            } else {
                old.bytes
            }
        }),
        ({
            let b = book_again(Some(was), new);
            &&& b.key == new.key && b.name == new.name && b.path == new.path && b.title == new.title
                && b.chapters == new.chapters
            &&& b.last_open_ms == if new.last_open_ms is Some {
                new.last_open_ms
            } else {
                was.last_open_ms
            }
            &&& b.scanned_ms == if new.scanned_ms is Some {
                new.scanned_ms
            } else {
                was.scanned_ms
            }
        }),
        book_again(None, new) == new,
{
}

} // verus!
