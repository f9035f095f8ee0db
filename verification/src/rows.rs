//! Tables as lists of rows.

use vstd::prelude::*;
use crate::order::{place, sort_by, sorted};

verus! {

/// What a list of rows holds.
pub open spec fn views<T: View>(s: Seq<T>) -> Seq<T::V> {
    s.map_values(|t: T| t@)
}

/// The first row from `i` on that `p` accepts.
pub open spec fn first_where<T>(s: Seq<T>, p: spec_fn(T) -> bool, i: int) -> Option<int>
    decreases s.len() - i,
{
    if i < 0 || i >= s.len() {
        None
    } else if p(s[i]) {
        Some(i)
    } else {
        first_where(s, p, i + 1)
    }
}

/// The row that `p` accepts.
pub open spec fn row_where<T>(s: Seq<T>, p: spec_fn(T) -> bool) -> Option<T> {
    match first_where(s, p, 0) {
        Some(i) => Some(s[i]),
        None => None,
    }
}

/// `s` with `row` in place of the one that `p` accepts, or at the end where
/// there is none.
pub open spec fn put_where<T>(s: Seq<T>, p: spec_fn(T) -> bool, row: T) -> Seq<T> {
    match first_where(s, p, 0) {
        Some(i) => s.update(i, row),
        None => s.push(row),
    }
}

/// `s` without the rows that `p` accepts.
pub open spec fn drop_where<T>(s: Seq<T>, p: spec_fn(T) -> bool) -> Seq<T> {
    s.filter(|t: T| !p(t))
}

/// What it means to have found a row, or none.
pub proof fn lemma_first_where<T>(s: Seq<T>, p: spec_fn(T) -> bool, i: int)
    requires
        0 <= i,
    ensures
        match first_where(s, p, i) {
            Some(k) => i <= k < s.len() && p(s[k]) && forall|m: int|
                i <= m < k ==> !p(#[trigger] s[m]),
            None => forall|m: int| i <= m < s.len() ==> !p(#[trigger] s[m]),
        },
    decreases s.len() - i,
{
    if i < s.len() && !p(s[i]) {
        lemma_first_where(s, p, i + 1);
    }
}

/// The row that `f` accepts.
pub fn find_where<T: View, F: Fn(&T) -> bool>(
    v: &Vec<T>,
    f: F,
    Ghost(p): Ghost<spec_fn(T::V) -> bool>,
) -> (r: Option<usize>)
    requires
        forall|t: T| call_requires(f, (&t,)),
        forall|t: T, b: bool| call_ensures(f, (&t,), b) ==> b == p(t@),
    ensures
        match r {
            Some(i) => first_where(views(v@), p, 0) == Some(i as int) && i < v@.len() && p(
                v@[i as int]@,
            ),
            None => first_where(views(v@), p, 0) is None,
        },
{
    let ghost vs = views(v@);
    let mut i: usize = 0;
    while i < v.len()
        invariant
            i <= v@.len(),
            vs == views(v@),
            forall|t: T| call_requires(f, (&t,)),
            forall|t: T, b: bool| call_ensures(f, (&t,), b) ==> b == p(t@),
            first_where(vs, p, 0) == first_where(vs, p, i as int),
        decreases v@.len() - i,
    {
        assert(vs[i as int] == v@[i as int]@);
        if f(&v[i]) {
            return Some(i);
        }
        i += 1;
    }
    None
}

/// Put `row` at `at`, or at the end.
pub fn put_row<T: View>(v: &mut Vec<T>, at: Option<usize>, row: T)
    requires
        at matches Some(i) ==> i < old(v)@.len(),
    ensures
        views(final(v)@) == match at {
            Some(i) => views(old(v)@).update(i as int, row@),
            None => views(old(v)@).push(row@),
        },
{
    match at {
        Some(i) => {
            v.set(i, row);
            assert(views(v@) =~= views(old(v)@).update(i as int, row@));
        },
        None => {
            v.push(row);
            assert(views(v@) =~= views(old(v)@).push(row@));
        },
    }
}

/// Take out the rows that `f` accepts, and say how many there were.
pub fn remove_where<T: View, F: Fn(&T) -> bool>(
    v: &mut Vec<T>,
    f: F,
    Ghost(p): Ghost<spec_fn(T::V) -> bool>,
) -> (n: usize)
    requires
        forall|t: T| call_requires(f, (&t,)),
        forall|t: T, b: bool| call_ensures(f, (&t,), b) ==> b == p(t@),
    ensures
        views(final(v)@) == drop_where(views(old(v)@), p),
        n == old(v)@.len() - final(v)@.len(),
{
    let ghost keep = |t: T::V| !p(t);
    let ghost was = views(v@);
    let ghost mut done: int = 0;
    let total: usize = v.len();
    let mut n: usize = 0;
    let mut i: usize = 0;
    proof {
        reveal(Seq::filter);
        assert(was.take(0).filter(keep) =~= Seq::<T::V>::empty());
        assert(views(v@) =~= was.take(0).filter(keep) + was.skip(0));
    }
    while i < v.len()
        invariant
            forall|t: T| call_requires(f, (&t,)),
            forall|t: T, b: bool| call_ensures(f, (&t,), b) ==> b == p(t@),
            keep == (|t: T::V| !p(t)),
            0 <= done <= was.len(),
            i <= v@.len(),
            i == was.take(done).filter(keep).len(),
            views(v@) == was.take(done).filter(keep) + was.skip(done),
            n == was.len() - v@.len(),
            was.len() == old(v)@.len() == total,
        decreases v@.len() - i,
    {
        let ghost kept = was.take(done).filter(keep);
        proof {
            assert(views(v@)[i as int] == v@[i as int]@);
            assert(v@[i as int]@ == was[done]);
            was.take(done).lemma_filter_push(was[done], keep);
            assert(was.take(done + 1) =~= was.take(done).push(was[done]));
        }
        if f(&v[i]) {
            let ghost before = views(v@);
            let _gone = v.remove(i);
            n += 1;
            assert(views(v@) =~= before.remove(i as int));
            assert(views(v@) =~= kept + was.skip(done + 1));
        } else {
            i += 1;
            assert(views(v@) =~= kept.push(was[done]) + was.skip(done + 1));
        }
        proof {
            done = done + 1;
        }
    }
    proof {
        assert(done == was.len());
        assert(was.take(done) =~= was);
        assert(views(v@) =~= was.filter(keep));
    }
    n
}

/// A row that can be copied out of its table.
pub trait Row: View + Sized {
    /// A row that holds the same.
    fn copied(&self) -> (r: Self)
        ensures
            r@ == self@,
    ;
}

/// The rows that `f` accepts, in their order.
pub fn select_where<T: Row, F: Fn(&T) -> bool>(
    v: &Vec<T>,
    f: F,
    Ghost(p): Ghost<spec_fn(T::V) -> bool>,
) -> (r: Vec<T>)
    requires
        forall|t: T| call_requires(f, (&t,)),
        forall|t: T, b: bool| call_ensures(f, (&t,), b) ==> b == p(t@),
    ensures
        views(r@) == views(v@).filter(p),
{
    let ghost all = views(v@);
    let mut r: Vec<T> = Vec::new();
    let mut i: usize = 0;
    proof {
        reveal(Seq::filter);
        assert(views(r@) =~= all.take(0).filter(p));
    }
    while i < v.len()
        invariant
            i <= v@.len(),
            all == views(v@),
            forall|t: T| call_requires(f, (&t,)),
            forall|t: T, b: bool| call_ensures(f, (&t,), b) ==> b == p(t@),
            views(r@) == all.take(i as int).filter(p),
        decreases v@.len() - i,
    {
        proof {
            assert(all[i as int] == v@[i as int]@);
            all.take(i as int).lemma_filter_push(all[i as int], p);
            assert(all.take(i + 1) =~= all.take(i as int).push(all[i as int]));
        }
        if f(&v[i]) {
            let ghost before = views(r@);
            let c = v[i].copied();
            r.push(c);
            assert(views(r@) =~= before.push(c@));
        }
        i += 1;
    }
    assert(all.take(i as int) =~= all);
    r
}

/// The order of rows that is the order `lev` of what they hold.
pub open spec fn by_view<T: View>(lev: spec_fn(T::V, T::V) -> bool) -> spec_fn(T, T) -> bool {
    |a: T, b: T| lev(a@, b@)
}

proof fn lemma_place_view<T: View>(
    t: Seq<T>,
    x: T,
    lev: spec_fn(T::V, T::V) -> bool,
    i: int,
)
    requires
        0 <= i <= t.len(),
    ensures
        place(t, x, by_view(lev), i) == place(views(t), x@, lev, i),
        i <= place(t, x, by_view(lev), i) <= t.len(),
    decreases t.len() - i,
{
    if i < t.len() {
        assert(views(t)[i] == t[i]@);
        if !lev(x@, t[i]@) {
            lemma_place_view(t, x, lev, i + 1);
        }
    }
}

proof fn lemma_sorted_view<T: View>(s: Seq<T>, lev: spec_fn(T::V, T::V) -> bool)
    ensures
        views(sorted(s, by_view(lev))) == sorted(views(s), lev),
    decreases s.len(),
{
    if s.len() == 0 {
        assert(views(s) =~= Seq::<T::V>::empty());
        assert(sorted(views(s), lev) =~= views(s));
    } else {
        let rest = s.drop_first();
        lemma_sorted_view(rest, lev);
        assert(views(s).drop_first() =~= views(rest));
        let r = sorted(rest, by_view(lev));
        lemma_place_view(r, s[0], lev, 0);
        let k = place(r, s[0], by_view(lev), 0);
        assert(views(r.insert(k, s[0])) =~= views(r).insert(k, s[0]@));
    }
}

/// The rows in the order that `f` decides.
pub fn sort_rows<T: View, F: Fn(&T, &T) -> bool>(
    v: Vec<T>,
    f: F,
    Ghost(lev): Ghost<spec_fn(T::V, T::V) -> bool>,
) -> (r: Vec<T>)
    requires
        forall|a: T, b: T| call_requires(f, (&a, &b)),
        forall|a: T, b: T, c: bool| call_ensures(f, (&a, &b), c) ==> c == lev(a@, b@),
    ensures
        views(r@) == sorted(views(v@), lev),
{
    proof {
        lemma_sorted_view(v@, lev);
    }
    sort_by(v, f, Ghost(by_view(lev)))
}

/// Picking from a list that has one element more: it is picked last, or not at all.
pub proof fn lemma_pick_push<A, B>(s: Seq<A>, n: int, p: spec_fn(A) -> bool, f: spec_fn(A) -> B)
    requires
        0 < n <= s.len(),
    ensures
        s.take(n).filter(p).map_values(f) == if p(s[n - 1]) {
            s.take(n - 1).filter(p).map_values(f).push(f(s[n - 1]))
        } else {
            s.take(n - 1).filter(p).map_values(f)
        },
{
    let front = s.take(n - 1);
    let a = s[n - 1];
    assert(s.take(n) =~= front.push(a));
    front.lemma_filter_push(a, p);
    if p(a) {
        assert(front.filter(p).push(a).map_values(f) =~= front.filter(p).map_values(f).push(f(a)));
    }
}

/// Nothing is picked from nothing.
pub proof fn lemma_pick_none<A, B>(s: Seq<A>, p: spec_fn(A) -> bool, f: spec_fn(A) -> B)
    ensures
        s.take(0).filter(p).map_values(f) == Seq::<B>::empty(),
        s.take(s.len() as int) == s,
{
    reveal(Seq::filter);
    assert(s.take(0).filter(p) =~= Seq::<A>::empty());
    assert(s.take(0).filter(p).map_values(f) =~= Seq::<B>::empty());
    assert(s.take(s.len() as int) =~= s);
}

/// Keeping some of a list that has one element more, and keeping some of none.
pub proof fn lemma_keep_push<A>(s: Seq<A>, n: int, p: spec_fn(A) -> bool)
    requires
        0 <= n <= s.len(),
    ensures
        n > 0 ==> s.take(n).filter(p) == if p(s[n - 1]) {
            s.take(n - 1).filter(p).push(s[n - 1])
        } else {
            s.take(n - 1).filter(p)
        },
        s.take(0).filter(p) == Seq::<A>::empty(),
        s.take(s.len() as int) == s,
{
    reveal(Seq::filter);
    assert(s.take(0).filter(p) =~= Seq::<A>::empty());
    assert(s.take(s.len() as int) =~= s);
    if n > 0 {
        assert(s.take(n) =~= s.take(n - 1).push(s[n - 1]));
        s.take(n - 1).lemma_filter_push(s[n - 1], p);
    }
}

/// Whether `d` is `q` with what is new of `more` behind it: `q` first and as it was,
/// everything of `more` in it, nothing else, nothing new twice, and what is new in the
/// order in which it first comes in `more`.
pub open spec fn appended<T>(q: Seq<T>, more: Seq<T>, d: Seq<T>) -> bool {
    &&& q.is_prefix_of(d)
    &&& forall|x: T| #[trigger] d.contains(x) <==> q.contains(x) || more.contains(x)
    &&& forall|i: int, j: int|
        0 <= i < j < d.len() && j >= q.len() ==> #[trigger] d[i] != #[trigger] d[j]
    &&& forall|i: int, j: int|
        q.len() <= i < j < d.len() ==> #[trigger] comes_before(more, d[i], d[j])
}

/// Whether `x` is in `s`, and `y` is not before the first place where it is.
pub open spec fn comes_before<T>(s: Seq<T>, x: T, y: T) -> bool {
    exists|k: int|
        0 <= k < s.len() && #[trigger] s[k] == x && forall|m: int|
            0 <= m <= k ==> #[trigger] s[m] != y
}

/// Nothing appended, and one thing more.
pub proof fn lemma_appended<T>(q: Seq<T>, more: Seq<T>, d: Seq<T>, x: T)
    ensures
        appended(q, Seq::empty(), q),
        appended(q, more, d) ==> appended(
            q,
            more.push(x),
            if d.contains(x) {
                d
            } else {
                d.push(x)
            },
        ),
{
    if appended(q, more, d) {
        let e = if d.contains(x) {
            d
        } else {
            d.push(x)
        };
        let w = more.push(x);
        assert forall|y: T| #[trigger] e.contains(y) <==> q.contains(y) || w.contains(y) by {
            if e.contains(y) {
                let k = e.index_of(y);
                if k < d.len() {
                    assert(d[k] == y);
                    assert(d.contains(y));
                    if more.contains(y) {
                        let m = more.index_of(y);
                        assert(w[m] == y);
                    }
                } else {
                    assert(w[more.len() as int] == y);
                }
            }
            if q.contains(y) {
                assert(d.contains(y));
                let k = d.index_of(y);
                assert(e[k] == y);
            }
            if w.contains(y) {
                let k = w.index_of(y);
                if k < more.len() {
                    assert(more[k] == y);
                    assert(more.contains(y));
                    assert(d.contains(y));
                    let m = d.index_of(y);
                    assert(e[m] == y);
                } else if !d.contains(x) {
                    assert(e[d.len() as int] == y);
                }
            }
        }
        assert forall|i: int, j: int| 0 <= i < j < e.len() && j >= q.len() implies #[trigger] e[i]
            != #[trigger] e[j] by {
            assert(e[i] == d[i]);
            if j < d.len() {
                assert(e[j] == d[j]);
            } else {
                assert(d.contains(d[i]));
            }
        }
        assert forall|i: int, j: int| q.len() <= i < j < e.len() implies #[trigger] comes_before(
            w,
            e[i],
            e[j],
        ) by {
            assert(e[i] == d[i]);
            if j < d.len() {
                assert(comes_before(more, d[i], d[j]));
                let k = choose|k: int|
                    0 <= k < more.len() && #[trigger] more[k] == d[i] && forall|m: int|
                        0 <= m <= k ==> #[trigger] more[m] != d[j];
                assert(w[k] == e[i]);
                assert forall|m: int| 0 <= m <= k implies #[trigger] w[m] != e[j] by {
                    assert(w[m] == more[m]);
                }
            } else {
                assert(d.contains(d[i]));
                assert(!q.contains(d[i])) by {
                    if q.contains(d[i]) {
                        let k = q.index_of(d[i]);
                        assert(d[k] == d[i]);
                    }
                }
                assert(more.contains(d[i]));
                let k = more.index_of(d[i]);
                assert(w[k] == e[i]);
                assert forall|m: int| 0 <= m <= k implies #[trigger] w[m] != e[j] by {
                    assert(w[m] == more[m]);
                    assert(more.contains(more[m]));
                    assert(d.contains(more[m]));
                }
            }
        }
    }
}

} // verus!
