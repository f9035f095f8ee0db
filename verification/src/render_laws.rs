//! What a look through the queue and the orders must find, said of the disk.

use vstd::prelude::*;
use crate::book::ChapterView;
use crate::render::{elsewhere_from, first_gap, hole_from, idle_target, items_from, lemma_first_gap, lemma_hole, queue_from, shelf_hole, task_of, wait_after, Disk, Leaving, Marks, Place, RetiredView, Shelf, TargetView, TaskView, BACKOFF_BASE, BACKOFF_MAX};
use crate::state::{Order, Orders, SessionView};
use crate::store::BookRowView;
use crate::pack::autopack_of;

verus! {

/// A plan no longer than one can be held.
pub open spec fn short_enough(plan: Seq<ChapterView>) -> bool {
    plan.len() <= usize::MAX && forall|c: int|
        0 <= c < plan.len() ==> (#[trigger] plan[c]).chunks.len() <= usize::MAX
}

/// Whether every chunk that a plan has of a chapter is on the disk.
pub open spec fn on_disk(disk: Disk, key: Seq<char>, plan: Seq<ChapterView>, c: int) -> bool {
    0 <= c < plan.len() ==> forall|j: int|
        0 <= j < plan[c].chunks.len() ==> #[trigger] disk(key, c, j)
}

/// Whether chunk `j` is the first of its chapter that is not on the disk.
pub open spec fn first_off_disk(
    disk: Disk,
    key: Seq<char>,
    plan: Seq<ChapterView>,
    c: int,
    j: int,
) -> bool {
    &&& 0 <= c < plan.len()
    &&& 0 <= j < plan[c].chunks.len()
    &&& !disk(key, c, j)
    &&& forall|i: int| 0 <= i < j ==> #[trigger] disk(key, c, i)
}

// ---------------------------------------------------------------------- the queue

proof fn lemma_queue_in_order(
    disk: Disk,
    key: Seq<char>,
    plan: Seq<ChapterView>,
    q: Seq<usize>,
    i: int,
)
    requires
        0 <= i <= q.len(),
        short_enough(plan),
    ensures
        ({
            let (left, target) = queue_from(disk, key, plan, q, i);
            &&& i + left.len() <= q.len()
            &&& forall|k: int|
                0 <= k < left.len() ==> {
                    &&& (#[trigger] left[k]).chapter == q[i + k]
                    &&& on_disk(disk, key, plan, q[i + k] as int)
                    &&& left[k].complete == if q[i + k] < plan.len() {
                        Some(plan[q[i + k] as int].chunks.len() as usize)
                    } else {
                        None
                    }
                }
            &&& match target {
                None => i + left.len() == q.len(),
                Some((c, j)) => {
                    &&& i + left.len() < q.len()
                    &&& q[i + left.len()] == c
                    &&& first_off_disk(disk, key, plan, c as int, j as int)
                },
            }
        }),
    decreases q.len() - i,
{
    if i < q.len() {
        lemma_queue_in_order(disk, key, plan, q, i + 1);
        let c = q[i];
        let rest = queue_from(disk, key, plan, q, i + 1);
        let (left, target) = queue_from(disk, key, plan, q, i);
        if c < plan.len() {
            lemma_first_gap(disk, key, c as int, 0, plan[c as int].chunks.len() as int);
        }
        if c >= plan.len() || first_gap(
            disk,
            key,
            c as int,
            0,
            plan[c as int].chunks.len() as int,
        ) is None {
            assert(left.len() == rest.0.len() + 1);
            assert forall|k: int| 0 <= k < left.len() implies {
                &&& (#[trigger] left[k]).chapter == q[i + k]
                &&& on_disk(disk, key, plan, q[i + k] as int)
                &&& left[k].complete == if q[i + k] < plan.len() {
                    Some(plan[q[i + k] as int].chunks.len() as usize)
                } else {
                    None
                }
            } by {
                if k > 0 {
                    assert(left[k] == rest.0[k - 1]);
                    assert(q[i + 1 + (k - 1)] == q[i + k]);
                }
            }
            assert(i + 1 + rest.0.len() == i + left.len());
        }
    }
}

/// Whether `left` are the first chapters of the queue `q`, none of which misses a
/// chunk, and `target` the first chunk that the next one misses, or none where there
/// is no next one.
pub open spec fn queue_worked(
    disk: Disk,
    key: Seq<char>,
    plan: Seq<ChapterView>,
    q: Seq<usize>,
    left: Seq<Leaving>,
    target: Option<(usize, usize)>,
) -> bool {
    &&& left.len() <= q.len()
    &&& forall|k: int|
        0 <= k < left.len() ==> {
            &&& (#[trigger] left[k]).chapter == q[k]
            &&& on_disk(disk, key, plan, q[k] as int)
            &&& left[k].complete == if q[k] < plan.len() {
                Some(plan[q[k] as int].chunks.len() as usize)
            } else {
                None
            }
        }
    &&& match target {
        None => left.len() == q.len(),
        Some((c, j)) => left.len() < q.len() && q[left.len() as int] == c && first_off_disk(
            disk,
            key,
            plan,
            c as int,
            j as int,
        ),
    }
}

/// The queue is worked in its order. What leaves it are its first chapters, each
/// because the book does not have it or because all of it is on the disk; and where
/// any chapter after them is left, it misses a chunk, and the first one that it
/// misses is what is rendered. So a look finds nothing only where no chapter of the
/// queue misses anything, and the whole queue leaves.
pub proof fn law_the_queue_is_worked_in_order(
    disk: Disk,
    key: Seq<char>,
    plan: Seq<ChapterView>,
    q: Seq<usize>,
)
    requires
        short_enough(plan),
    ensures
        ({
            let (left, target) = queue_from(disk, key, plan, q, 0);
            queue_worked(disk, key, plan, q, left, target)
        }),
{
    lemma_queue_in_order(disk, key, plan, q, 0);
    let (left, target) = queue_from(disk, key, plan, q, 0);
    assert forall|k: int| 0 <= k < left.len() implies {
        &&& (#[trigger] left[k]).chapter == q[k]
        &&& on_disk(disk, key, plan, q[k] as int)
        &&& left[k].complete == if q[k] < plan.len() {
            Some(plan[q[k] as int].chunks.len() as usize)
        } else {
            None
        }
    } by {
        assert(q[0 + k] == q[k]);
    }
}

/// A look finds something exactly where some chapter of the queue misses a chunk.
pub proof fn law_a_missing_chunk_is_found(
    disk: Disk,
    key: Seq<char>,
    plan: Seq<ChapterView>,
    q: Seq<usize>,
)
    requires
        short_enough(plan),
    ensures
        queue_from(disk, key, plan, q, 0).1 is Some <==> exists|k: int|
            0 <= k < q.len() && !on_disk(disk, key, plan, #[trigger] q[k] as int),
{
    law_the_queue_is_worked_in_order(disk, key, plan, q);
    let (left, target) = queue_from(disk, key, plan, q, 0);
    match target {
        Some((c, j)) => {
            let m = left.len() as int;
            assert(!disk(key, c as int, j as int));
            assert(!on_disk(disk, key, plan, q[m] as int));
        },
        None => {
            assert forall|k: int| 0 <= k < q.len() implies on_disk(
                disk,
                key,
                plan,
                #[trigger] q[k] as int,
            ) by {
                assert(left[k].chapter == q[k]);
            }
        },
    }
}

// ------------------------------------------------------------- orders on one book

/// What is said of an order that ends: the book, the chapter, how many chunks the
/// plan has of it, and whether it is to be packed, which nothing is that has none.
pub open spec fn ended(key: Seq<char>, plan: Seq<ChapterView>) -> spec_fn(Order) -> RetiredView {
    |o: Order|
        {
            let n = if o.chapter < plan.len() {
                plan[o.chapter as int].chunks.len()
            } else {
                0
            };
            RetiredView { key, chapter: o.chapter, n: n as usize, pack: n > 0 && o.pack }
        }
}

/// The orders that are still tried.
pub open spec fn tried() -> spec_fn(Order) -> bool {
    |o: Order| !o.parked
}

proof fn lemma_items_in_order(
    disk: Disk,
    key: Seq<char>,
    plan: Seq<ChapterView>,
    items: Seq<Order>,
    i: int,
) -> (m: int)
    requires
        0 <= i <= items.len(),
        short_enough(plan),
    ensures
        i <= m <= items.len(),
        ({
            let (out, target) = items_from(disk, key, plan, items, i);
            &&& out == items.subrange(i, m).filter(tried()).map_values(ended(key, plan))
            &&& forall|k: int|
                i <= k < m && !(#[trigger] items[k]).parked ==> on_disk(
                    disk,
                    key,
                    plan,
                    items[k].chapter as int,
                )
            &&& match target {
                None => m == items.len(),
                Some(t) => {
                    &&& m < items.len()
                    &&& !items[m].parked
                    &&& t.key == key
                    &&& t.chapter == items[m].chapter
                    &&& first_off_disk(disk, key, plan, t.chapter as int, t.chunk as int)
                },
            }
        }),
    decreases items.len() - i,
{
    let p = tried();
    let f = ended(key, plan);
    reveal(Seq::filter);
    if i == items.len() {
        assert(items.subrange(i, i).filter(p) =~= Seq::<Order>::empty());
        assert(items.subrange(i, i).filter(p).map_values(f) =~= Seq::<RetiredView>::empty());
        i
    } else {
        let it = items[i];
        let rest = items_from(disk, key, plan, items, i + 1);
        let n = if it.chapter < plan.len() {
            plan[it.chapter as int].chunks.len() as int
        } else {
            0
        };
        lemma_first_gap(disk, key, it.chapter as int, 0, n);
        if !it.parked && n > 0 && first_gap(disk, key, it.chapter as int, 0, n) is Some {
            assert(items.subrange(i, i).filter(p) =~= Seq::<Order>::empty());
            assert(items.subrange(i, i).filter(p).map_values(f) =~= Seq::<RetiredView>::empty());
            i
        } else {
            let m = lemma_items_in_order(disk, key, plan, items, i + 1);
            let tail = items.subrange(i + 1, m);
            assert(items.subrange(i, m) =~= seq![it] + tail);
            Seq::filter_distributes_over_add(seq![it], tail, p);
            assert(seq![it].drop_last() =~= Seq::<Order>::empty());
            reveal_with_fuel(Seq::filter, 2);
            if it.parked {
                assert(seq![it].filter(p) =~= Seq::<Order>::empty());
                assert(items.subrange(i, m).filter(p) =~= tail.filter(p));
            } else {
                assert(seq![it].filter(p) =~= seq![it]);
                assert((seq![it] + tail.filter(p)).map_values(f) =~= seq![f(it)]
                    + tail.filter(p).map_values(f));
                assert(on_disk(disk, key, plan, it.chapter as int));
            }
            m
        }
    }
}

/// The orders on a book are worked in their order, those that are parked left out.
/// The first of the others that misses a chunk is worked on, from the first chunk it
/// misses; all before it end, each with its chapter, how many chunks that has and
/// whether it is to be packed; and nothing is worked on only where none misses any.
pub proof fn law_orders_are_worked_in_order(
    disk: Disk,
    key: Seq<char>,
    plan: Seq<ChapterView>,
    items: Seq<Order>,
)
    requires
        short_enough(plan),
    ensures
        exists|m: int| #[trigger] worked_upto(disk, key, plan, items, m),
{
    let m = lemma_items_in_order(disk, key, plan, items, 0);
    assert(items.subrange(0, m) =~= items.take(m));
    assert(worked_upto(disk, key, plan, items, m));
}

/// Whether a look through the orders `items` on a book ends all before the one at
/// `m`, and works on that one.
pub open spec fn worked_upto(
    disk: Disk,
    key: Seq<char>,
    plan: Seq<ChapterView>,
    items: Seq<Order>,
    m: int,
) -> bool {
    let (out, target) = items_from(disk, key, plan, items, 0);
    &&& 0 <= m <= items.len()
    &&& out == items.take(m).filter(tried()).map_values(ended(key, plan))
    &&& forall|k: int|
        0 <= k < m && !(#[trigger] items[k]).parked ==> on_disk(
            disk,
            key,
            plan,
            items[k].chapter as int,
        )
    &&& match target {
        None => m == items.len(),
        Some(t) => {
            &&& m < items.len()
            &&& !items[m].parked
            &&& t.key == key
            &&& t.chapter == items[m].chapter
            &&& first_off_disk(disk, key, plan, t.chapter as int, t.chunk as int)
        },
    }
}

// ------------------------------------------------------------ orders on all books

/// Whether there is nothing to render for the orders on a book: it is the loaded one,
/// it has no plan, or no order that is tried misses a chunk.
pub open spec fn settled(disk: Disk, shelf: Shelf, cur: Seq<char>, o: Orders) -> bool {
    o.key@ == cur || match shelf(o.key@) {
        None => true,
        Some(plan) => forall|k: int|
            0 <= k < o.items@.len() && !(#[trigger] o.items@[k]).parked ==> on_disk(
                disk,
                o.key@,
                plan,
                o.items@[k].chapter as int,
            ),
    }
}

/// Whether chunk `t` is what the orders `o` want next.
pub open spec fn wants(disk: Disk, shelf: Shelf, cur: Seq<char>, o: Orders, t: TargetView) -> bool {
    &&& t.key == o.key@
    &&& o.key@ != cur
    &&& shelf(o.key@) is Some
    &&& first_off_disk(disk, t.key, shelf(o.key@)->0, t.chapter as int, t.chunk as int)
    &&& exists|m: int|
        {
            &&& 0 <= m < o.items@.len()
            &&& (#[trigger] o.items@[m]).chapter == t.chapter
            &&& !o.items@[m].parked
            &&& forall|k: int|
                0 <= k < m && !(#[trigger] o.items@[k]).parked ==> on_disk(
                    disk,
                    o.key@,
                    shelf(o.key@)->0,
                    o.items@[k].chapter as int,
                )
        }
}

proof fn lemma_elsewhere_in_order(
    disk: Disk,
    shelf: Shelf,
    cur: Seq<char>,
    orders: Seq<Orders>,
    j: int,
)
    requires
        0 <= j <= orders.len(),
        forall|k: Seq<char>| (#[trigger] shelf(k)) matches Some(p) ==> short_enough(p),
    ensures
        match elsewhere_from(disk, shelf, cur, orders, j).1 {
            None => forall|b: int|
                j <= b < orders.len() ==> settled(disk, shelf, cur, #[trigger] orders[b]),
            Some(t) => exists|b: int|
                {
                    &&& j <= b < orders.len()
                    &&& wants(disk, shelf, cur, #[trigger] orders[b], t)
                    &&& forall|a: int|
                        j <= a < b ==> settled(disk, shelf, cur, #[trigger] orders[a])
                },
        },
    decreases orders.len() - j,
{
    if j < orders.len() {
        lemma_elsewhere_in_order(disk, shelf, cur, orders, j + 1);
        let o = orders[j];
        let key = o.key@;
        if shelf(key) is Some && key != cur {
            let plan = shelf(key)->0;
            let m = lemma_items_in_order(disk, key, plan, o.items@, 0);
            let here = items_from(disk, key, plan, o.items@, 0);
            if let Some(t) = here.1 {
                assert(o.items@[m].chapter == t.chapter);
                assert(wants(disk, shelf, cur, orders[j], t));
            } else {
                assert(settled(disk, shelf, cur, o));
            }
        } else {
            assert(settled(disk, shelf, cur, o));
        }
        if settled(disk, shelf, cur, o) && elsewhere_from(disk, shelf, cur, orders, j).1
            == elsewhere_from(disk, shelf, cur, orders, j + 1).1 {
            if let Some(t) = elsewhere_from(disk, shelf, cur, orders, j + 1).1 {
                let b = choose|b: int|
                    {
                        &&& j + 1 <= b < orders.len()
                        &&& wants(disk, shelf, cur, #[trigger] orders[b], t)
                        &&& forall|a: int|
                            j + 1 <= a < b ==> settled(disk, shelf, cur, #[trigger] orders[a])
                    };
                assert(wants(disk, shelf, cur, orders[b], t));
                assert forall|a: int| j <= a < b implies settled(
                    disk,
                    shelf,
                    cur,
                    #[trigger] orders[a],
                ) by {}
            }
        }
    }
}

/// Books are worked in the order of their orders: what is rendered is wanted by the
/// first book that misses anything it has an order on, the loaded one left out; and
/// nothing is rendered only where no book does.
pub proof fn law_books_are_worked_in_order(
    disk: Disk,
    shelf: Shelf,
    cur: Seq<char>,
    orders: Seq<Orders>,
)
    requires
        forall|k: Seq<char>| (#[trigger] shelf(k)) matches Some(p) ==> short_enough(p),
    ensures
        match elsewhere_from(disk, shelf, cur, orders, 0).1 {
            None => forall|b: int|
                0 <= b < orders.len() ==> settled(disk, shelf, cur, #[trigger] orders[b]),
            Some(t) => exists|b: int|
                {
                    &&& 0 <= b < orders.len()
                    &&& wants(disk, shelf, cur, #[trigger] orders[b], t)
                    &&& forall|a: int|
                        0 <= a < b ==> settled(disk, shelf, cur, #[trigger] orders[a])
                },
        },
{
    lemma_elsewhere_in_order(disk, shelf, cur, orders, 0);
}

/// Which orders of a look end at which book: none of the loaded one's and none of a
/// book without a plan.
pub open spec fn looked_at(shelf: Shelf, cur: Seq<char>, o: Orders) -> bool {
    o.key@ != cur && shelf(o.key@) is Some
}

proof fn lemma_elsewhere_ends(
    disk: Disk,
    shelf: Shelf,
    cur: Seq<char>,
    orders: Seq<Orders>,
    j: int,
    b: int,
    k: int,
)
    requires
        0 <= j <= b < orders.len(),
        looked_at(shelf, cur, orders[b]),
        0 <= k < orders[b].items@.len(),
        !orders[b].items@[k].parked,
        elsewhere_from(disk, shelf, cur, orders, j).1 is None,
        forall|k: Seq<char>| (#[trigger] shelf(k)) matches Some(p) ==> short_enough(p),
    ensures
        elsewhere_from(disk, shelf, cur, orders, j).0.contains(
            ended(orders[b].key@, shelf(orders[b].key@)->0)(orders[b].items@[k]),
        ),
    decreases b - j,
{
    let all = elsewhere_from(disk, shelf, cur, orders, j).0;
    let rest = elsewhere_from(disk, shelf, cur, orders, j + 1);
    let o = orders[j];
    let key = o.key@;
    if j < b {
        lemma_elsewhere_ends(disk, shelf, cur, orders, j + 1, b, k);
        let x = ended(orders[b].key@, shelf(orders[b].key@)->0)(orders[b].items@[k]);
        let w = rest.0.index_of(x);
        if looked_at(shelf, cur, o) {
            let here = items_from(disk, key, shelf(key)->0, o.items@, 0);
            assert(all[here.0.len() + w] == x);
        }
    } else {
        let plan = shelf(key)->0;
        let here = items_from(disk, key, plan, o.items@, 0);
        let m = lemma_items_in_order(disk, key, plan, o.items@, 0);
        assert(m == o.items@.len());
        let p = tried();
        let f = ended(key, plan);
        let kept = o.items@.subrange(0, m).filter(p);
        assert(o.items@.subrange(0, m)[k] == o.items@[k]);
        o.items@.subrange(0, m).filter_lemma(p);
        assert(kept.contains(o.items@[k]));
        let w = kept.index_of(o.items@[k]);
        assert(here.0[w] == f(o.items@[k]));
        assert(all[w] == here.0[w]);
    }
}

/// Where nothing is left to render for any order, every order that is tried on a book
/// with a plan ends, with the right count and the right wish.
pub proof fn law_finished_orders_end(
    disk: Disk,
    shelf: Shelf,
    cur: Seq<char>,
    orders: Seq<Orders>,
    b: int,
    k: int,
)
    requires
        0 <= b < orders.len(),
        orders[b].key@ != cur,
        shelf(orders[b].key@) is Some,
        0 <= k < orders[b].items@.len(),
        !orders[b].items@[k].parked,
        elsewhere_from(disk, shelf, cur, orders, 0).1 is None,
        forall|k: Seq<char>| (#[trigger] shelf(k)) matches Some(p) ==> short_enough(p),
    ensures
        ({
            let o = orders[b].items@[k];
            let plan = shelf(orders[b].key@)->0;
            let n = if o.chapter < plan.len() {
                plan[o.chapter as int].chunks.len()
            } else {
                0
            };
            elsewhere_from(disk, shelf, cur, orders, 0).0.contains(
                RetiredView {
                    key: orders[b].key@,
                    chapter: o.chapter,
                    n: n as usize,
                    pack: n > 0 && o.pack,
                },
            )
        }),
{
    lemma_elsewhere_ends(disk, shelf, cur, orders, 0, b, k);
}

/// What ends of the orders on one book.
pub open spec fn ends_of(disk: Disk, shelf: Shelf) -> spec_fn(Orders) -> Seq<RetiredView> {
    |o: Orders| items_from(disk, o.key@, shelf(o.key@)->0, o.items@, 0).0
}

/// Whether a look through the orders ends with the book before `e`: what ends of all
/// the books up to there, the loaded one and those without a plan left out, is what
/// ends, book by book.
pub open spec fn books_ended(
    disk: Disk,
    shelf: Shelf,
    cur: Seq<char>,
    orders: Seq<Orders>,
    e: int,
) -> bool {
    let (out, target) = elsewhere_from(disk, shelf, cur, orders, 0);
    &&& 0 <= e <= orders.len()
    &&& out == orders.take(e).filter(|o: Orders| looked_at(shelf, cur, o)).map_values(
        ends_of(disk, shelf),
    ).flatten()
    &&& match target {
        None => e == orders.len(),
        Some(t) => e > 0 && orders[e - 1].key@ == t.key,
    }
}

proof fn lemma_books_ended(
    disk: Disk,
    shelf: Shelf,
    cur: Seq<char>,
    orders: Seq<Orders>,
    j: int,
) -> (e: int)
    requires
        0 <= j <= orders.len(),
        forall|k: Seq<char>| (#[trigger] shelf(k)) matches Some(p) ==> short_enough(p),
    ensures
        j <= e <= orders.len(),
        ({
            let (out, target) = elsewhere_from(disk, shelf, cur, orders, j);
            &&& out == orders.subrange(j, e).filter(
                |o: Orders| looked_at(shelf, cur, o),
            ).map_values(ends_of(disk, shelf)).flatten()
            &&& match target {
                None => e == orders.len(),
                Some(t) => e > j && orders[e - 1].key@ == t.key,
            }
        }),
    decreases orders.len() - j,
{
    let p = |o: Orders| looked_at(shelf, cur, o);
    let f = ends_of(disk, shelf);
    reveal(Seq::filter);
    if j == orders.len() {
        assert(orders.subrange(j, j).filter(p) =~= Seq::<Orders>::empty());
        assert(orders.subrange(j, j).filter(p).map_values(f) =~= Seq::<Seq<RetiredView>>::empty());
        j
    } else {
        let o = orders[j];
        let one = seq![o];
        assert(one.drop_last() =~= Seq::<Orders>::empty());
        reveal_with_fuel(Seq::filter, 2);
        if looked_at(shelf, cur, o) {
            assert(one.filter(p) =~= one);
            let here = items_from(disk, o.key@, shelf(o.key@)->0, o.items@, 0);
            if here.1 is Some {
                let m = lemma_items_in_order(disk, o.key@, shelf(o.key@)->0, o.items@, 0);
                assert(orders.subrange(j, j + 1) =~= one);
                let l = one.map_values(f);
                assert(l.len() == 1 && l[0] == here.0);
                l.lemma_flatten_one_element();
                j + 1
            } else {
                let e = lemma_books_ended(disk, shelf, cur, orders, j + 1);
                let rest = orders.subrange(j + 1, e);
                assert(orders.subrange(j, e) =~= one + rest);
                Seq::filter_distributes_over_add(one, rest, p);
                let l = (one + rest.filter(p)).map_values(f);
                assert(l.first() == here.0);
                assert(l.drop_first() =~= rest.filter(p).map_values(f));
                e
            }
        } else {
            assert(one.filter(p) =~= Seq::<Orders>::empty());
            let e = lemma_books_ended(disk, shelf, cur, orders, j + 1);
            let rest = orders.subrange(j + 1, e);
            assert(orders.subrange(j, e) =~= one + rest);
            Seq::filter_distributes_over_add(one, rest, p);
            assert(Seq::<Orders>::empty() + rest.filter(p) =~= rest.filter(p));
            e
        }
    }
}

/// Whatever ends on the way to what is rendered ends all the same: the orders of every
/// book that is looked at up to the one that something is rendered for.
pub proof fn law_orders_end_on_the_way(
    disk: Disk,
    shelf: Shelf,
    cur: Seq<char>,
    orders: Seq<Orders>,
)
    requires
        forall|k: Seq<char>| (#[trigger] shelf(k)) matches Some(p) ==> short_enough(p),
    ensures
        exists|e: int| #[trigger] books_ended(disk, shelf, cur, orders, e),
{
    let e = lemma_books_ended(disk, shelf, cur, orders, 0);
    assert(orders.subrange(0, e) =~= orders.take(e));
    assert(books_ended(disk, shelf, cur, orders, e));
}

// ------------------------------------------------------------------ nothing asked

/// Whether a book has all its chunks from chapter `from` on on the disk.
pub open spec fn full_from(disk: Disk, key: Seq<char>, plan: Seq<ChapterView>, from: int) -> bool {
    forall|c: int| from <= c < plan.len() ==> #[trigger] on_disk(disk, key, plan, c)
}

/// Whether `(c, j)` is the first chunk from chapter `from` on that is not there.
pub open spec fn first_hole_at(
    disk: Disk,
    key: Seq<char>,
    plan: Seq<ChapterView>,
    from: int,
    c: int,
    j: int,
) -> bool {
    &&& from <= c
    &&& first_off_disk(disk, key, plan, c, j)
    &&& forall|d: int| from <= d < c ==> #[trigger] on_disk(disk, key, plan, d)
}

proof fn lemma_hole_is_first(disk: Disk, key: Seq<char>, plan: Seq<ChapterView>, from: int)
    requires
        0 <= from,
        short_enough(plan),
    ensures
        match hole_from(disk, key, plan, from, plan.len() as int) {
            Some((c, j)) => first_hole_at(disk, key, plan, from, c as int, j as int),
            None => full_from(disk, key, plan, from),
        },
{
    lemma_hole(disk, key, plan, from, plan.len() as int);
}

/// Where a book is taken up again: at its mark, or at its last chapter where the mark
/// is past it.
pub open spec fn taken_up(marks: Marks, name: Seq<char>, plan: Seq<ChapterView>) -> int {
    if plan.len() == 0 {
        0
    } else if marks(name) < plan.len() {
        marks(name)
    } else {
        plan.len() - 1
    }
}

/// Whether there is nothing to render of a book that is not loaded.
pub open spec fn shelved(
    disk: Disk,
    shelf: Shelf,
    marks: Marks,
    cur: Seq<char>,
    b: BookRowView,
) -> bool {
    b.key == cur || match shelf(b.key) {
        None => true,
        Some(plan) => full_from(disk, b.key, plan, taken_up(marks, b.name, plan)),
    }
}

proof fn lemma_shelf_in_order(
    disk: Disk,
    shelf: Shelf,
    marks: Marks,
    cur: Seq<char>,
    books: Seq<BookRowView>,
    i: int,
)
    requires
        0 <= i <= books.len(),
        forall|k: Seq<char>| (#[trigger] shelf(k)) matches Some(p) ==> short_enough(p),
        forall|n: Seq<char>| 0 <= #[trigger] marks(n),
    ensures
        match shelf_hole(disk, shelf, marks, cur, books, i) {
            None => forall|b: int|
                i <= b < books.len() ==> shelved(disk, shelf, marks, cur, #[trigger] books[b]),
            Some(t) => exists|b: int|
                {
                    &&& i <= b < books.len()
                    &&& found_on(disk, shelf, marks, cur, #[trigger] books[b], t)
                    &&& forall|a: int|
                        i <= a < b ==> shelved(disk, shelf, marks, cur, #[trigger] books[a])
                },
        },
    decreases books.len() - i,
{
    if i < books.len() {
        lemma_shelf_in_order(disk, shelf, marks, cur, books, i + 1);
        let b = books[i];
        assert(0 <= marks(b.name));
        if shelf(b.key) is Some && b.key != cur {
            let plan = shelf(b.key)->0;
            lemma_hole_is_first(disk, b.key, plan, taken_up(marks, b.name, plan));
            if let Some((c, j)) = hole_from(
                disk,
                b.key,
                plan,
                taken_up(marks, b.name, plan),
                plan.len() as int,
            ) {
                let t = TargetView { key: b.key, chapter: c, chunk: j };
                assert(found_on(disk, shelf, marks, cur, books[i], t));
            } else {
                assert(shelved(disk, shelf, marks, cur, b));
            }
        } else {
            assert(shelved(disk, shelf, marks, cur, b));
        }
        if shelved(disk, shelf, marks, cur, b) {
            if let Some(t) = shelf_hole(disk, shelf, marks, cur, books, i + 1) {
                let w = choose|w: int|
                    {
                        &&& i + 1 <= w < books.len()
                        &&& found_on(disk, shelf, marks, cur, #[trigger] books[w], t)
                        &&& forall|a: int|
                            i + 1 <= a < w ==> shelved(
                                disk,
                                shelf,
                                marks,
                                cur,
                                #[trigger] books[a],
                            )
                    };
                assert(found_on(disk, shelf, marks, cur, books[w], t));
                assert forall|a: int| i <= a < w implies shelved(
                    disk,
                    shelf,
                    marks,
                    cur,
                    #[trigger] books[a],
                ) by {}
            }
        }
    }
}

/// Whether `t` is the first chunk that a book misses from where it is taken up.
pub open spec fn found_on(
    disk: Disk,
    shelf: Shelf,
    marks: Marks,
    cur: Seq<char>,
    b: BookRowView,
    t: TargetView,
) -> bool {
    &&& b.key != cur
    &&& t.key == b.key
    &&& shelf(b.key) is Some
    &&& first_hole_at(
        disk,
        b.key,
        shelf(b.key)->0,
        taken_up(marks, b.name, shelf(b.key)->0),
        t.chapter as int,
        t.chunk as int,
    )
}

/// With nothing asked for, the rest of the loaded book comes first, from its first
/// missing chunk; then the other books in their order, each from where it would be
/// taken up again; and nothing is found only where none misses any.
pub proof fn law_the_rest_comes_in_order(
    disk: Disk,
    shelf: Shelf,
    marks: Marks,
    cur: Seq<char>,
    plan: Seq<ChapterView>,
    from: int,
    books: Seq<BookRowView>,
)
    requires
        0 <= from,
        short_enough(plan),
        forall|k: Seq<char>| (#[trigger] shelf(k)) matches Some(p) ==> short_enough(p),
        forall|n: Seq<char>| 0 <= #[trigger] marks(n),
    ensures
        match idle_target(disk, shelf, marks, cur, plan, from, books) {
            None => full_from(disk, cur, plan, from) && forall|b: int|
                0 <= b < books.len() ==> shelved(disk, shelf, marks, cur, #[trigger] books[b]),
            Some(t) => if full_from(disk, cur, plan, from) {
                exists|b: int|
                    {
                        &&& 0 <= b < books.len()
                        &&& found_on(disk, shelf, marks, cur, #[trigger] books[b], t)
                        &&& forall|a: int|
                            0 <= a < b ==> shelved(disk, shelf, marks, cur, #[trigger] books[a])
                    }
            } else {
                t.key == cur && first_hole_at(
                    disk,
                    cur,
                    plan,
                    from,
                    t.chapter as int,
                    t.chunk as int,
                )
            },
        },
{
    lemma_hole_is_first(disk, cur, plan, from);
    lemma_shelf_in_order(disk, shelf, marks, cur, books, 0);
    if let Some((c, j)) = hole_from(disk, cur, plan, from, plan.len() as int) {
        assert(!on_disk(disk, cur, plan, c as int));
    }
}

// ------------------------------------------------------------------- every task

/// Why each thing is done. The chunk under the playhead where it is missing. Else,
/// where anything of the window ahead is missing, a chunk of the window: the first
/// missing from where the renderer last was, or else from the playhead. Else what the
/// queue, and else what the other books want. Else nothing, where the chapter is not
/// whole. Else the first chunk missing of as many chapters ahead as are wanted; and
/// where there is none, the renderer is free.
pub proof fn law_every_task_has_its_reason(
    disk: Disk,
    key: Seq<char>,
    plan: Seq<ChapterView>,
    at: Place,
    queued: Option<(usize, usize)>,
    elsewhere: Option<TargetView>,
)
    requires
        short_enough(plan),
        at.chapter < usize::MAX,
        at.chapter + 1 + at.span <= usize::MAX,
        at.playhead + at.lookahead < usize::MAX,
    ensures
        ({
            let ci = at.chapter as int;
            let n = if ci < plan.len() {
                plan[ci].chunks.len() as int
            } else {
                0
            };
            let end = if n < at.playhead + at.lookahead + 1 {
                n
            } else {
                at.playhead + at.lookahead + 1
            };
            let stalled = at.playhead < n && !disk(key, ci, at.playhead as int);
            let ahead = exists|k: int|
                (at.playhead <= k || at.hint <= k) && k < end && !(#[trigger] disk(key, ci, k));
            match task_of(disk, key, plan, at, queued, elsewhere) {
                TaskView::Playhead(i) => stalled && i == at.playhead,
                TaskView::Lookahead(i) => {
                    &&& !stalled && i < end && !disk(key, ci, i as int)
                    &&& {
                        ||| at.hint <= i && forall|k: int|
                            at.hint <= k < i ==> #[trigger] disk(key, ci, k)
                        ||| at.playhead <= i && (forall|k: int|
                            at.playhead <= k < i ==> #[trigger] disk(key, ci, k)) && forall|k: int|
                            at.hint <= k < end ==> #[trigger] disk(key, ci, k)
                    }
                },
                TaskView::Queued(c, i) => !stalled && !ahead && queued == Some((c, i)),
                TaskView::Elsewhere(t) => !stalled && !ahead && queued is None && elsewhere
                    == Some(t),
                TaskView::Buffered => !stalled && !ahead && queued is None && elsewhere is None
                    && !on_disk(disk, key, plan, ci),
                TaskView::Ahead(c, i) => {
                    &&& !stalled && !ahead && queued is None && elsewhere is None
                    &&& on_disk(disk, key, plan, ci)
                    &&& c <= ci + at.span
                    &&& first_hole_at(disk, key, plan, ci + 1, c as int, i as int)
                },
                TaskView::Spare => {
                    &&& !stalled && !ahead && queued is None && elsewhere is None
                    &&& on_disk(disk, key, plan, ci)
                    &&& forall|c: int|
                        ci < c <= ci + at.span ==> #[trigger] on_disk(disk, key, plan, c)
                },
            }
        }),
{
    let ci = at.chapter as int;
    let n = if ci < plan.len() {
        plan[ci].chunks.len() as int
    } else {
        0
    };
    let end = if n < at.playhead + at.lookahead + 1 {
        n
    } else {
        at.playhead + at.lookahead + 1
    };
    let from = if at.hint < end {
        at.hint as int
    } else {
        end
    };
    lemma_first_gap(disk, key, ci, from, end);
    lemma_first_gap(disk, key, ci, at.playhead as int, end);
    lemma_first_gap(disk, key, ci, 0, n);
    let last = if plan.len() < ci + 1 + at.span {
        plan.len() as int
    } else {
        ci + 1 + at.span
    };
    lemma_hole(disk, key, plan, ci + 1, last);
    if let TaskView::Lookahead(i) = task_of(disk, key, plan, at, queued, elsewhere) {
        if first_gap(disk, key, ci, from, end) is None {
            assert forall|k: int| at.hint <= k < end implies #[trigger] disk(key, ci, k) by {}
        }
    }
}

// ------------------------------------------------------------------- the packing

/// What is packed without being asked: the chapter being read, or else the next one,
/// where it has chunks, all of them are on the disk and it is not packed; and only
/// with a book loaded, and while nothing is packed and nothing is waiting for it.
pub proof fn law_packing_unasked(disk: Disk, packed: spec_fn(int) -> bool, s: SessionView)
    requires
        short_enough(s.plan),
        s.chapter < usize::MAX,
    ensures
        ({
            let key = s.key()->0;
            let free = s.key() is Some && s.packing is None && s.pack_queue.len() == 0
                && s.queue.len() == 0;
            let ripe = |c: int|
                c < s.plan.len() && s.plan[c].chunks.len() > 0 && !packed(c) && on_disk(
                    disk,
                    key,
                    s.plan,
                    c,
                );
            autopack_of(disk, packed, s) == if free && ripe(s.chapter as int) {
                Some(s.chapter)
            } else if free && ripe(s.chapter + 1) {
                Some((s.chapter + 1) as usize)
            } else {
                None
            }
        }),
{
    if s.key() is Some {
        let key = s.key()->0;
        let c = s.chapter as int;
        if c < s.plan.len() {
            lemma_first_gap(disk, key, c, 0, s.plan[c].chunks.len() as int);
        }
        if c + 1 < s.plan.len() {
            lemma_first_gap(disk, key, c + 1, 0, s.plan[c + 1].chunks.len() as int);
        }
    }
}

// ---------------------------------------------------------------------- the waits

/// The first failure costs the shortest wait, and each one more doubles it, up to the
/// longest; with no failure there is none.
pub proof fn law_waits_double(fails: u32)
    ensures
        wait_after(0) == 0,
        fails > 0 ==> wait_after(fails) == if BACKOFF_BASE * vstd::arithmetic::power2::pow2(
            (fails - 1) as nat,
        ) < BACKOFF_MAX {
            BACKOFF_BASE * vstd::arithmetic::power2::pow2((fails - 1) as nat)
        } else {
            BACKOFF_MAX as int
        },
    decreases fails,
{
    vstd::arithmetic::power2::lemma2_to64();
    if fails > 1 {
        law_waits_double((fails - 1) as u32);
        vstd::arithmetic::power2::lemma_pow2_unfold((fails - 1) as nat);
        let p = vstd::arithmetic::power2::pow2((fails - 2) as nat);
        assert(BACKOFF_BASE * (2 * p) == 2 * (BACKOFF_BASE * p)) by (nonlinear_arith);
    }
}

} // verus!
