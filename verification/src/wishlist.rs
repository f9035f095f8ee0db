//! What was asked for and is not there yet: the orders that stand on every book,
//! and those that go back on the queue of the book in front of the reader.

use vstd::prelude::*;
use crate::chars::same_text;
use crate::pack::with_one;
use crate::rows::views;
use crate::state::{has_number, Order, Orders, Session, SessionView};
use crate::store::{IntentRow, IntentRowView};

verus! {

/// How often a chapter is picked up without a chunk of it landing before it is
/// left alone.
pub const MAX_ATTEMPTS: u32 = 3;

/// What some [`Orders`] hold.
#[verifier::ext_equal]
pub struct OrdersView {
    pub key: Seq<char>,
    pub items: Seq<Order>,
}

impl View for Orders {
    type V = OrdersView;

    open spec fn view(&self) -> OrdersView {
        OrdersView { key: self.key@, items: self.items@ }
    }
}

// ------------------------------------------------------------------- what stands

/// An order, as its row has it.
pub open spec fn order_of(i: IntentRowView) -> Order {
    Order { chapter: i.chapter, parked: i.tries >= MAX_ATTEMPTS, pack: i.pack }
}

/// The books that the first `n` rows name, in the order they are first named.
pub open spec fn books_upto(rows: Seq<IntentRowView>, n: int) -> Seq<Seq<char>>
    decreases n,
{
    if n <= 0 {
        Seq::empty()
    } else {
        let rest = books_upto(rows, n - 1);
        if rest.contains(rows[n - 1].book) {
            rest
        } else {
            rest.push(rows[n - 1].book)
        }
    }
}

/// The orders on one book among the first `n` rows, in their order.
pub open spec fn items_upto(rows: Seq<IntentRowView>, book: Seq<char>, n: int) -> Seq<Order>
    decreases n,
{
    if n <= 0 {
        Seq::empty()
    } else if rows[n - 1].book == book {
        items_upto(rows, book, n - 1).push(order_of(rows[n - 1]))
    } else {
        items_upto(rows, book, n - 1)
    }
}

/// The orders of the first `n` rows, book by book.
pub open spec fn orders_upto(rows: Seq<IntentRowView>, n: int) -> Seq<OrdersView> {
    books_upto(rows, n).map_values(
        |b: Seq<char>| OrdersView { key: b, items: items_upto(rows, b, n) },
    )
}

proof fn lemma_books(rows: Seq<IntentRowView>, n: int)
    requires
        0 <= n <= rows.len(),
    ensures
        books_upto(rows, n).no_duplicates(),
        forall|b: Seq<char>| #[trigger]
            books_upto(rows, n).contains(b) <==> items_upto(rows, b, n).len() > 0,
    decreases n,
{
    if n > 0 {
        lemma_books(rows, n - 1);
        let rest = books_upto(rows, n - 1);
        let here = rows[n - 1].book;
        assert forall|b: Seq<char>| #[trigger]
            books_upto(rows, n).contains(b) <==> items_upto(rows, b, n).len() > 0 by {
            if !rest.contains(here) {
                if b == here {
                    assert(rest.push(here)[rest.len() as int] == b);
                } else if rest.contains(b) {
                    let k = rest.index_of(b);
                    assert(rest.push(here)[k] == b);
                }
            }
            assert(rest.contains(b) <==> items_upto(rows, b, n - 1).len() > 0);
        }
    }
}

fn find_orders(all: &Vec<Orders>, key: &str) -> (r: Option<usize>)
    ensures
        match r {
            Some(j) => j < all@.len() && all@[j as int]@.key == key@ && forall|k: int|
                0 <= k < j ==> (#[trigger] all@[k])@.key != key@,
            None => forall|k: int| 0 <= k < all@.len() ==> (#[trigger] all@[k])@.key != key@,
        },
{
    let mut j: usize = 0;
    while j < all.len()
        invariant
            j <= all@.len(),
            forall|k: int| 0 <= k < j ==> (#[trigger] all@[k])@.key != key@,
        decreases all@.len() - j,
    {
        if same_text(all[j].key.as_str(), key) {
            return Some(j);
        }
        j += 1;
    }
    None
}

/// The orders that stand, book by book: a book where it is first named, and its
/// orders in the order of the rows.
pub fn all_outstanding(rows: &Vec<IntentRow>) -> (r: Vec<Orders>)
    ensures
        views(r@) == orders_upto(views(rows@), rows@.len() as int),
{
    let ghost rv = views(rows@);
    let mut out: Vec<Orders> = Vec::new();
    assert(views(out@) =~= orders_upto(rv, 0));
    let mut i: usize = 0;
    while i < rows.len()
        invariant
            i <= rows@.len(),
            rv == views(rows@),
            views(out@) == orders_upto(rv, i as int),
        decreases rows@.len() - i,
    {
        let it = &rows[i];
        let item = Order { chapter: it.chapter, parked: it.tries >= MAX_ATTEMPTS, pack: it.pack };
        let ghost was = out@;
        let ghost books = books_upto(rv, i as int);
        proof {
            lemma_books(rv, i as int);
            assert(rv[i as int] == it@);
            assert(item == order_of(it@));
            assert(views(was).len() == books.len());
            assert forall|k: int| 0 <= k < was.len() implies (#[trigger] was[k])@ == (OrdersView {
                key: books[k],
                items: items_upto(rv, books[k], i as int),
            }) by {
                assert(views(was)[k] == orders_upto(rv, i as int)[k]);
            }
        }
        match find_orders(&out, it.book.as_str()) {
            Some(j) => {
                let mut items = copy_orders(&out[j].items);
                items.push(item);
                let key = it.book.as_str().to_owned();
                out.set(j, Orders { key, items });
                proof {
                    assert(books[j as int] == it.book@);
                    assert(books_upto(rv, i + 1) == books);
                    assert forall|k: int| 0 <= k < out@.len() implies (#[trigger] views(out@)[k])
                        == orders_upto(rv, i + 1)[k] by {
                        if k != j {
                            assert(books[k] != books[j as int]);
                            assert(was[k]@.key == books[k]);
                        }
                    }
                }
            },
            None => {
                let mut items: Vec<Order> = Vec::new();
                items.push(item);
                out.push(Orders { key: it.book.as_str().to_owned(), items });
                proof {
                    assert(!books.contains(it.book@)) by {
                        if books.contains(it.book@) {
                            let k = books.index_of(it.book@);
                            assert(was[k]@.key == books[k]);
                        }
                    }
                    assert(items_upto(rv, it.book@, i as int).len() == 0);
                    assert(items_upto(rv, it.book@, i + 1) =~= seq![item]);
                    assert forall|k: int| 0 <= k < out@.len() implies (#[trigger] views(out@)[k])
                        == orders_upto(rv, i + 1)[k] by {
                        if k < was.len() {
                            assert(out@[k] == was[k]);
                            assert(books.contains(books[k]));
                        }
                    }
                }
            },
        }
        assert(views(out@) =~= orders_upto(rv, i + 1));
        i += 1;
    }
    out
}

fn copy_orders(v: &Vec<Order>) -> (r: Vec<Order>)
    ensures
        r@ == v@,
{
    let mut r: Vec<Order> = Vec::new();
    let mut i: usize = 0;
    while i < v.len()
        invariant
            i <= v@.len(),
            r@ == v@.take(i as int),
        decreases v@.len() - i,
    {
        r.push(v[i]);
        assert(v@.take(i + 1) =~= v@.take(i as int).push(v@[i as int]));
        i += 1;
    }
    assert(v@.take(i as int) =~= v@);
    r
}

/// The orders that stand on one book.
pub fn outstanding(rows: &Vec<IntentRow>, key: &str) -> (r: Vec<Order>)
    ensures
        r@ == items_upto(views(rows@), key@, rows@.len() as int),
{
    let ghost rv = views(rows@);
    let mut r: Vec<Order> = Vec::new();
    let mut i: usize = 0;
    while i < rows.len()
        invariant
            i <= rows@.len(),
            rv == views(rows@),
            r@ == items_upto(rv, key@, i as int),
        decreases rows@.len() - i,
    {
        let it = &rows[i];
        assert(rv[i as int] == it@);
        if same_text(it.book.as_str(), key) {
            r.push(Order { chapter: it.chapter, parked: it.tries >= MAX_ATTEMPTS, pack: it.pack });
        }
        i += 1;
    }
    r
}

/// The chapters among the first `n` orders that are out of attempts.
pub open spec fn parked_upto(items: Seq<Order>, n: int) -> Seq<usize>
    decreases n,
{
    if n <= 0 {
        Seq::empty()
    } else if items[n - 1].parked {
        parked_upto(items, n - 1).push(items[n - 1].chapter)
    } else {
        parked_upto(items, n - 1)
    }
}

/// The chapters of a book that are out of attempts.
pub fn parked(items: &Vec<Order>) -> (r: Vec<usize>)
    ensures
        r@ == parked_upto(items@, items@.len() as int),
{
    let mut r: Vec<usize> = Vec::new();
    let mut i: usize = 0;
    while i < items.len()
        invariant
            i <= items@.len(),
            r@ == parked_upto(items@, i as int),
        decreases items@.len() - i,
    {
        if items[i].parked {
            r.push(items[i].chapter);
        }
        i += 1;
    }
    r
}

// ------------------------------------------------------------ back on the queue

/// Whether an order can be taken up in a book of `chapters` chapters.
pub open spec fn adoptable(o: Order, chapters: int) -> bool {
    !o.parked && o.chapter < chapters
}

/// The chapters among the first `n` orders that can be taken up.
pub open spec fn adopted_upto(items: Seq<Order>, chapters: int, n: int) -> Seq<usize>
    decreases n,
{
    if n <= 0 {
        Seq::empty()
    } else if adoptable(items[n - 1], chapters) {
        adopted_upto(items, chapters, n - 1).push(items[n - 1].chapter)
    } else {
        adopted_upto(items, chapters, n - 1)
    }
}

/// The session once the first `n` orders were taken up: each is behind the queue
/// where it is not on it yet, and packed when it is done where that was asked.
pub open spec fn adopting_upto(s: SessionView, items: Seq<Order>, n: int) -> SessionView
    decreases n,
{
    if n <= 0 {
        s
    } else {
        let b = adopting_upto(s, items, n - 1);
        let o = items[n - 1];
        if adoptable(o, s.plan.len() as int) {
            SessionView {
                queue: with_one(b.queue, o.chapter),
                build_want: if o.pack {
                    b.build_want.insert(o.chapter)
                } else {
                    b.build_want
                },
                ..b
            }
        } else {
            b
        }
    }
}

impl Session {
    /// Put the orders on the loaded book back on its queue, and say which.
    pub fn adopt(&mut self, items: &Vec<Order>) -> (r: Vec<usize>)
        ensures
            final(self)@ == adopting_upto(old(self)@, items@, items@.len() as int),
            r@ == adopted_upto(items@, old(self)@.plan.len() as int, items@.len() as int),
    {
        broadcast use vstd::std_specs::btree::group_btree_axioms;

        let ghost was = self@;
        let chapters: usize = self.plan.len();
        let mut r: Vec<usize> = Vec::new();
        let mut i: usize = 0;
        while i < items.len()
            invariant
                i <= items@.len(),
                chapters == was.plan.len(),
                self@ == adopting_upto(was, items@, i as int),
                r@ == adopted_upto(items@, chapters as int, i as int),
            decreases items@.len() - i,
        {
            let o = items[i];
            let ghost b = self@;
            if !o.parked && o.chapter < chapters {
                if !has_number(&self.queue, o.chapter) {
                    self.queue.push(o.chapter);
                }
                if o.pack {
                    let _new: bool = self.build_want.insert(o.chapter);
                }
                r.push(o.chapter);
                assert(self@ =~= (SessionView {
                    queue: with_one(b.queue, o.chapter),
                    build_want: if o.pack {
                        b.build_want.insert(o.chapter)
                    } else {
                        b.build_want
                    },
                    ..b
                }));
            }
            i += 1;
        }
        r
    }
}

/// Whether one of the first `n` orders is on chapter `c`, and can be taken up.
pub open spec fn ordered_in(items: Seq<Order>, chapters: int, n: int, c: usize) -> bool {
    exists|i: int|
        0 <= i < n && adoptable(#[trigger] items[i], chapters) && items[i].chapter == c
}

/// An order that can be taken up is on the queue afterwards, and marked to be
/// packed where that was asked. What was on the queue keeps its place; what came
/// to it was ordered, is not out of attempts, and is a chapter of the book.
/// Nothing else of the session changes.
pub proof fn law_orders_come_back(s: SessionView, items: Seq<Order>)
    ensures
        ({
            let t = adopting_upto(s, items, items.len() as int);
            &&& s.queue.is_prefix_of(t.queue)
            &&& s.build_want.subset_of(t.build_want)
            &&& t == (SessionView { queue: t.queue, build_want: t.build_want, ..s })
            &&& forall|i: int|
                0 <= i < items.len() && adoptable(#[trigger] items[i], s.plan.len() as int)
                    ==> t.queue.contains(items[i].chapter) && (items[i].pack
                    ==> t.build_want.contains(items[i].chapter))
            &&& forall|k: int|
                s.queue.len() <= k < t.queue.len() ==> ordered_in(
                    items,
                    s.plan.len() as int,
                    items.len() as int,
                    #[trigger] t.queue[k],
                )
        }),
{
    lemma_orders_come_back(s, items, items.len() as int);
}

proof fn lemma_orders_come_back(s: SessionView, items: Seq<Order>, n: int)
    requires
        0 <= n <= items.len(),
    ensures
        ({
            let t = adopting_upto(s, items, n);
            &&& s.queue.is_prefix_of(t.queue)
            &&& s.build_want.subset_of(t.build_want)
            &&& t == (SessionView { queue: t.queue, build_want: t.build_want, ..s })
            &&& forall|i: int|
                0 <= i < n && adoptable(#[trigger] items[i], s.plan.len() as int)
                    ==> t.queue.contains(items[i].chapter) && (items[i].pack
                    ==> t.build_want.contains(items[i].chapter))
            &&& forall|k: int|
                s.queue.len() <= k < t.queue.len() ==> ordered_in(
                    items,
                    s.plan.len() as int,
                    n,
                    #[trigger] t.queue[k],
                )
        }),
    decreases n,
{
    if n > 0 {
        lemma_orders_come_back(s, items, n - 1);
        let b = adopting_upto(s, items, n - 1);
        let t = adopting_upto(s, items, n);
        let c = items[n - 1].chapter;
        assert forall|i: int|
            0 <= i < n && adoptable(#[trigger] items[i], s.plan.len() as int) implies t.queue.contains(
            items[i].chapter,
        ) && (items[i].pack ==> t.build_want.contains(items[i].chapter)) by {
            if i < n - 1 {
                let k = b.queue.index_of(items[i].chapter);
                assert(t.queue[k] == items[i].chapter);
            } else if !b.queue.contains(c) {
                assert(t.queue[b.queue.len() as int] == c);
            }
        }
        assert forall|k: int| s.queue.len() <= k < t.queue.len() implies ordered_in(
            items,
            s.plan.len() as int,
            n,
            #[trigger] t.queue[k],
        ) by {
            if k < b.queue.len() {
                assert(t.queue[k] == b.queue[k]);
                assert(ordered_in(items, s.plan.len() as int, n - 1, b.queue[k]));
            } else {
                assert(adoptable(items[n - 1], s.plan.len() as int));
            }
        }
    }
}

} // verus!
