//! What the wishes on record come to, said of the rows.

use vstd::prelude::*;
use crate::rows::{appended, lemma_appended, lemma_pick_none, lemma_pick_push};
use crate::state::{Order, SessionView};
use crate::store::IntentRowView;
use crate::wishlist::{adopted_upto, adopting_upto, books_upto, items_upto, orders_upto, parked_upto};

verus! {

/// Every wish for a book is one order on it, in the order of the rows: its chapter,
/// whether it is to be packed, and whether it was tried three times and is parked.
pub proof fn law_every_wish_is_an_order(rows: Seq<IntentRowView>, book: Seq<char>)
    ensures
        items_upto(rows, book, rows.len() as int) == rows.filter(
            |r: IntentRowView| r.book == book,
        ).map_values(
            |r: IntentRowView| Order { chapter: r.chapter, parked: r.tries >= 3, pack: r.pack },
        ),
{
    lemma_wishes(rows, book, rows.len() as int);
    lemma_pick_none(
        rows,
        |r: IntentRowView| r.book == book,
        |r: IntentRowView| Order { chapter: r.chapter, parked: r.tries >= 3, pack: r.pack },
    );
}

proof fn lemma_wishes(rows: Seq<IntentRowView>, book: Seq<char>, n: int)
    requires
        0 <= n <= rows.len(),
    ensures
        items_upto(rows, book, n) == rows.take(n).filter(
            |r: IntentRowView| r.book == book,
        ).map_values(
            |r: IntentRowView| Order { chapter: r.chapter, parked: r.tries >= 3, pack: r.pack },
        ),
    decreases n,
{
    let p = |r: IntentRowView| r.book == book;
    let f = |r: IntentRowView| Order { chapter: r.chapter, parked: r.tries >= 3, pack: r.pack };
    lemma_pick_none(rows, p, f);
    if n > 0 {
        lemma_wishes(rows, book, n - 1);
        lemma_pick_push(rows, n, p, f);
    }
}

/// Every book that anything is wished of is listed once, in the order in which the
/// books first come in the rows, with all its orders.
pub proof fn law_every_book_is_listed_once(rows: Seq<IntentRowView>)
    ensures
        ({
            let all = orders_upto(rows, rows.len() as int);
            let keys = Seq::new(all.len(), |j: int| all[j].key);
            &&& appended(Seq::empty(), rows.map_values(|r: IntentRowView| r.book), keys)
            &&& forall|j: int|
                0 <= j < all.len() ==> (#[trigger] all[j]).items == items_upto(
                    rows,
                    keys[j],
                    rows.len() as int,
                )
        }),
{
    lemma_books_listed(rows, rows.len() as int);
    assert(rows.take(rows.len() as int) =~= rows);
    let all = orders_upto(rows, rows.len() as int);
    let keys = Seq::new(all.len(), |j: int| all[j].key);
    assert(keys =~= books_upto(rows, rows.len() as int));
}

proof fn lemma_books_listed(rows: Seq<IntentRowView>, n: int)
    requires
        0 <= n <= rows.len(),
    ensures
        appended(
            Seq::empty(),
            rows.take(n).map_values(|r: IntentRowView| r.book),
            books_upto(rows, n),
        ),
    decreases n,
{
    let f = |r: IntentRowView| r.book;
    let none = Seq::<Seq<char>>::empty();
    if n == 0 {
        assert(rows.take(0).map_values(f) =~= none);
        lemma_appended(none, none, none, none[0]);
    } else {
        lemma_books_listed(rows, n - 1);
        lemma_appended(
            none,
            rows.take(n - 1).map_values(f),
            books_upto(rows, n - 1),
            rows[n - 1].book,
        );
        assert(rows.take(n).map_values(f) =~= rows.take(n - 1).map_values(f).push(
            rows[n - 1].book,
        ));
    }
}

/// What is parked is what is marked so, and nothing else, in order.
pub proof fn law_every_parked_order_is_named(items: Seq<Order>)
    ensures
        parked_upto(items, items.len() as int) == items.filter(|o: Order| o.parked).map_values(
            |o: Order| o.chapter,
        ),
{
    lemma_parked(items, items.len() as int);
    lemma_pick_none(items, |o: Order| o.parked, |o: Order| o.chapter);
}

proof fn lemma_parked(items: Seq<Order>, n: int)
    requires
        0 <= n <= items.len(),
    ensures
        parked_upto(items, n) == items.take(n).filter(|o: Order| o.parked).map_values(
            |o: Order| o.chapter,
        ),
    decreases n,
{
    let p = |o: Order| o.parked;
    let f = |o: Order| o.chapter;
    lemma_pick_none(items, p, f);
    if n > 0 {
        lemma_parked(items, n - 1);
        lemma_pick_push(items, n, p, f);
    }
}

/// What is adopted of the orders on a book when it is loaded: each that is not parked
/// and that the book has the chapter of, in order. The queue gets what is new of it
/// behind what it holds, the wishes to pack get what was to be packed, and nothing else
/// of the session changes.
pub proof fn law_every_order_is_adopted(s: SessionView, items: Seq<Order>)
    ensures
        ({
            let n = s.plan.len();
            let taken = items.filter(|o: Order| !o.parked && o.chapter < n).map_values(
                |o: Order| o.chapter,
            );
            let t = adopting_upto(s, items, items.len() as int);
            &&& adopted_upto(items, n as int, items.len() as int) == taken
            &&& appended(s.queue, taken, t.queue)
            &&& forall|c: usize| #[trigger]
                t.build_want.contains(c) <==> s.build_want.contains(c) || exists|i: int|
                    0 <= i < items.len() && (#[trigger] items[i]).pack && !items[i].parked
                        && items[i].chapter == c && c < n
            &&& t == (SessionView { queue: t.queue, build_want: t.build_want, ..s })
        }),
{
    let n = s.plan.len();
    lemma_adopted(s, items, items.len() as int);
    lemma_pick_none(items, |o: Order| !o.parked && o.chapter < n, |o: Order| o.chapter);
}

proof fn lemma_adopted(s: SessionView, items: Seq<Order>, m: int)
    requires
        0 <= m <= items.len(),
    ensures
        ({
            let n = s.plan.len();
            let taken = items.take(m).filter(|o: Order| !o.parked && o.chapter < n).map_values(
                |o: Order| o.chapter,
            );
            let t = adopting_upto(s, items, m);
            &&& adopted_upto(items, n as int, m) == taken
            &&& appended(s.queue, taken, t.queue)
            &&& forall|c: usize| #[trigger]
                t.build_want.contains(c) <==> s.build_want.contains(c) || exists|i: int|
                    0 <= i < m && (#[trigger] items[i]).pack && !items[i].parked
                        && items[i].chapter == c && c < n
            &&& t == (SessionView { queue: t.queue, build_want: t.build_want, ..s })
        }),
    decreases m,
{
    let n = s.plan.len();
    let p = |o: Order| !o.parked && o.chapter < n;
    let f = |o: Order| o.chapter;
    lemma_pick_none(items, p, f);
    if m == 0 {
        lemma_appended(s.queue, Seq::empty(), s.queue, 0);
    } else {
        lemma_adopted(s, items, m - 1);
        lemma_pick_push(items, m, p, f);
        let o = items[m - 1];
        let t = adopting_upto(s, items, m);
        let b = adopting_upto(s, items, m - 1);
        let before = items.take(m - 1).filter(p).map_values(f);
        lemma_appended(s.queue, before, b.queue, o.chapter);
        assert forall|c: usize| #[trigger] t.build_want.contains(c) <==> s.build_want.contains(c)
            || exists|i: int|
            0 <= i < m && (#[trigger] items[i]).pack && !items[i].parked && items[i].chapter == c
                && c < n by {
            assert(b.build_want.contains(c) <==> s.build_want.contains(c) || exists|i: int|
                0 <= i < m - 1 && (#[trigger] items[i]).pack && !items[i].parked
                    && items[i].chapter == c && c < n);
            if t.build_want.contains(c) && !b.build_want.contains(c) {
                assert(items[m - 1].pack);
            }
        }
    }
}

} // verus!
