//! Putting things in order.
//!
//! One stable sort serves every list this library orders. It is stated as a
//! function of the list and the order; that its result is ordered, and holds
//! what the list held, follows.

use vstd::prelude::*;

verus! {

/// Where `x` goes in `t`: before the first element that it may precede.
pub open spec fn place<T>(t: Seq<T>, x: T, le: spec_fn(T, T) -> bool, i: int) -> int
    decreases t.len() - i,
{
    if 0 <= i < t.len() && !le(x, t[i]) {
        place(t, x, le, i + 1)
    } else {
        i
    }
}

/// `s` in the order `le`; elements that `le` puts level keep their order.
pub open spec fn sorted<T>(s: Seq<T>, le: spec_fn(T, T) -> bool) -> Seq<T>
    decreases s.len(),
{
    if s.len() == 0 {
        s
    } else {
        let rest = sorted(s.drop_first(), le);
        rest.insert(place(rest, s[0], le, 0), s[0])
    }
}

proof fn lemma_place<T>(t: Seq<T>, x: T, le: spec_fn(T, T) -> bool, i: int)
    requires
        0 <= i <= t.len(),
    ensures
        i <= place(t, x, le, i) <= t.len(),
        forall|k: int| i <= k < place(t, x, le, i) ==> !le(x, #[trigger] t[k]),
        place(t, x, le, i) < t.len() ==> le(x, t[place(t, x, le, i)]),
    decreases t.len() - i,
{
    if i < t.len() && !le(x, t[i]) {
        lemma_place(t, x, le, i + 1);
    }
}

/// `v` in the order that `f` decides.
pub fn sort_by<T, F: Fn(&T, &T) -> bool>(
    v: Vec<T>,
    f: F,
    Ghost(le): Ghost<spec_fn(T, T) -> bool>,
) -> (r: Vec<T>)
    requires
        forall|a: T, b: T| call_requires(f, (&a, &b)),
        forall|a: T, b: T, c: bool| call_ensures(f, (&a, &b), c) ==> c == le(a, b),
    ensures
        r@ == sorted(v@, le),
{
    let mut left = v;
    let mut r: Vec<T> = Vec::new();
    let ghost all = v@;
    assert(all.skip(all.len() as int) =~= Seq::<T>::empty());
    assert(left@ =~= all.take(all.len() as int));
    while left.len() > 0
        invariant
            forall|a: T, b: T| call_requires(f, (&a, &b)),
            forall|a: T, b: T, c: bool| call_ensures(f, (&a, &b), c) ==> c == le(a, b),
            left@.len() <= all.len(),
            left@ == all.take(left@.len() as int),
            r@ == sorted(all.skip(left@.len() as int), le),
        decreases left@.len(),
    {
        let ghost n = left@.len() as int;
        let x = left.pop().unwrap();
        proof {
            assert(x == all[n - 1]);
            assert(left@ =~= all.take(n - 1));
            assert(all.skip(n - 1).drop_first() =~= all.skip(n));
            assert(all.skip(n - 1)[0] == x);
        }
        let mut k: usize = 0;
        while k < r.len() && !f(&x, &r[k])
            invariant
                k <= r@.len(),
                forall|a: T, b: T| call_requires(f, (&a, &b)),
                forall|a: T, b: T, c: bool| call_ensures(f, (&a, &b), c) ==> c == le(a, b),
                place(r@, x, le, 0) == place(r@, x, le, k as int),
            decreases r@.len() - k,
        {
            k += 1;
        }
        r.insert(k, x);
    }
    assert(all.skip(0) =~= all);
    r
}

/// Whether `le` is a total order, up to level elements.
pub open spec fn orders<T>(le: spec_fn(T, T) -> bool) -> bool {
    &&& forall|a: T, b: T| #[trigger] le(a, b) || le(b, a)
    &&& forall|a: T, b: T, c: T| #[trigger] le(a, b) && #[trigger] le(b, c) ==> le(a, c)
}

/// Sorting puts the elements in order and keeps each of them.
pub proof fn law_sorted<T>(s: Seq<T>, le: spec_fn(T, T) -> bool)
    requires
        orders(le),
    ensures
        forall|i: int, j: int|
            0 <= i <= j < sorted(s, le).len() ==> le(
                #[trigger] sorted(s, le)[i],
                #[trigger] sorted(s, le)[j],
            ),
        sorted(s, le).to_multiset() == s.to_multiset(),
        sorted(s, le).len() == s.len(),
    decreases s.len(),
{
    broadcast use vstd::seq_lib::group_to_multiset_ensures;

    if s.len() > 0 {
        let rest = sorted(s.drop_first(), le);
        let k = place(rest, s[0], le, 0);
        law_sorted(s.drop_first(), le);
        lemma_place(rest, s[0], le, 0);
        let r = sorted(s, le);
        assert(le(s[0], s[0]));
        assert forall|i: int, j: int| 0 <= i <= j < r.len() implies le(
            #[trigger] r[i],
            #[trigger] r[j],
        ) by {
            let ri = if i < k { rest[i] } else if i == k { s[0] } else { rest[i - 1] };
            let rj = if j < k { rest[j] } else if j == k { s[0] } else { rest[j - 1] };
            assert(r[i] == ri && r[j] == rj);
            if i < k && j == k {
                assert(!le(s[0], rest[i]));
            } else if i == k && j > k {
                assert(le(s[0], rest[k]));
                assert(le(rest[k], rest[j - 1]));
            }
        }
        assert(s =~= seq![s[0]] + s.drop_first());
        vstd::seq_lib::lemma_multiset_commutative(seq![s[0]], s.drop_first());
        assert(rest.insert(k, s[0]).to_multiset() == rest.to_multiset().insert(s[0]));
        assert(seq![s[0]].to_multiset() =~= vstd::multiset::Multiset::empty().insert(s[0])) by {
            assert(Seq::empty().push(s[0]) =~= seq![s[0]]);
        }
        assert(s.to_multiset() =~= s.drop_first().to_multiset().insert(s[0]));
    } else {
        assert(sorted(s, le) =~= s);
    }
}

/// Whether `a` comes before `b`, or is `b`, from the `i`th character on.
pub open spec fn text_le_from(a: Seq<char>, b: Seq<char>, i: int) -> bool
    decreases a.len() - i,
{
    if i < 0 || i >= a.len() {
        true
    } else if i >= b.len() {
        false
    } else if a[i] != b[i] {
        a[i] < b[i]
    } else {
        text_le_from(a, b, i + 1)
    }
}

/// Whether the text `a` comes before `b`, or is `b`, character by character.
pub open spec fn text_le(a: Seq<char>, b: Seq<char>) -> bool {
    text_le_from(a, b, 0)
}

/// Whether the text `a` comes before `b`, or is `b`.
pub fn text_before(a: &str, b: &str) -> (r: bool)
    ensures
        r == text_le(a@, b@),
{
    let x = crate::chars::chars_of(a);
    let y = crate::chars::chars_of(b);
    let mut i: usize = 0;
    while i < x.len()
        invariant
            i <= x@.len(),
            x@ == a@,
            y@ == b@,
            text_le(x@, y@) == text_le_from(x@, y@, i as int),
        decreases x@.len() - i,
    {
        if i >= y.len() {
            return false;
        }
        if x[i] != y[i] {
            return x[i] < y[i];
        }
        i += 1;
    }
    true
}

proof fn lemma_text_total(a: Seq<char>, b: Seq<char>, i: int)
    requires
        0 <= i,
    ensures
        text_le_from(a, b, i) || text_le_from(b, a, i),
    decreases a.len() - i,
{
    if i < a.len() && i < b.len() && a[i] == b[i] {
        lemma_text_total(a, b, i + 1);
    }
}

proof fn lemma_text_transitive(a: Seq<char>, b: Seq<char>, c: Seq<char>, i: int)
    requires
        0 <= i,
        text_le_from(a, b, i),
        text_le_from(b, c, i),
    ensures
        text_le_from(a, c, i),
    decreases a.len() - i,
{
    if i < a.len() && i < b.len() && i < c.len() && a[i] == b[i] && b[i] == c[i] {
        lemma_text_transitive(a, b, c, i + 1);
    }
}

/// Texts are ordered: of any two, one comes before the other or they are equal,
/// and the order carries through.
pub proof fn law_texts_are_ordered(a: Seq<char>, b: Seq<char>, c: Seq<char>)
    ensures
        text_le(a, b) || text_le(b, a),
        text_le(a, b) && text_le(b, c) ==> text_le(a, c),
{
    lemma_text_total(a, b, 0);
    if text_le(a, b) && text_le(b, c) {
        lemma_text_transitive(a, b, c, 0);
    }
}

/// What comes first is decided where two texts first differ, by the lesser character;
/// and a text comes before every longer one that starts with it.
pub proof fn law_the_first_difference_decides(a: Seq<char>, b: Seq<char>)
    ensures
        text_le(a, b) <==> a.is_prefix_of(b) || exists|k: int| #[trigger] differs_at(a, b, k) && a[k]
            < b[k],
{
    lemma_text_first(a, b, 0);
}

/// Whether two texts are the same up to their `k`th characters, and not there.
pub open spec fn differs_at(a: Seq<char>, b: Seq<char>, k: int) -> bool {
    &&& 0 <= k < a.len()
    &&& k < b.len()
    &&& a[k] != b[k]
    &&& forall|j: int| 0 <= j < k ==> #[trigger] a[j] == b[j]
}

proof fn lemma_text_first(a: Seq<char>, b: Seq<char>, i: int)
    requires
        0 <= i <= a.len(),
        i <= b.len(),
        forall|j: int| 0 <= j < i ==> #[trigger] a[j] == b[j],
    ensures
        text_le_from(a, b, i) <==> a.is_prefix_of(b) || exists|k: int| #[trigger]
            differs_at(a, b, k) && a[k] < b[k],
    decreases a.len() - i,
{
    if i >= a.len() {
        assert(a.is_prefix_of(b)) by {
            assert(a =~= b.subrange(0, a.len() as int));
        }
    } else if i >= b.len() {
        assert(!a.is_prefix_of(b));
    } else if a[i] != b[i] {
        assert(differs_at(a, b, i));
        if a.is_prefix_of(b) {
            assert(a[i] == b.subrange(0, a.len() as int)[i]);
        }
        assert forall|k: int| #[trigger] differs_at(a, b, k) implies k == i by {
            if k < i {
                assert(a[k] == b[k]);
            } else if k > i {
                assert(a[i] == b[i]);
            }
        }
    } else {
        lemma_text_first(a, b, i + 1);
    }
}

/// Sorting leaves what is level in its order.
pub proof fn law_sorting_is_stable<T>(s: Seq<T>, le: spec_fn(T, T) -> bool, x: T)
    requires
        orders(le),
    ensures
        sorted(s, le).filter(|y: T| le(x, y) && le(y, x)) == s.filter(
            |y: T| le(x, y) && le(y, x),
        ),
    decreases s.len(),
{
    let p = |y: T| le(x, y) && le(y, x);
    if s.len() > 0 {
        let tail = s.drop_first();
        let rest = sorted(tail, le);
        let k = place(rest, s[0], le, 0);
        law_sorting_is_stable(tail, le, x);
        lemma_place(rest, s[0], le, 0);
        let one = seq![s[0]];
        let before = rest.take(k);
        let behind = rest.skip(k);
        assert(rest.insert(k, s[0]) =~= before + one + behind);
        assert(rest =~= before + behind);
        assert(s =~= one + tail);
        Seq::filter_distributes_over_add(before, behind, p);
        Seq::filter_distributes_over_add(before + one, behind, p);
        Seq::filter_distributes_over_add(before, one, p);
        Seq::filter_distributes_over_add(one, tail, p);
        if p(s[0]) {
            assert forall|j: int| 0 <= j < before.len() implies !p(#[trigger] before[j]) by {
                assert(before[j] == rest[j]);
                if p(rest[j]) {
                    assert(le(s[0], x) && le(x, rest[j]));
                    assert(le(s[0], rest[j]));
                }
            }
            lemma_none_kept(before, p);
            assert(before.filter(p) =~= Seq::<T>::empty());
            assert(Seq::<T>::empty() + one.filter(p) =~= one.filter(p));
            assert(Seq::<T>::empty() + behind.filter(p) =~= behind.filter(p));
        } else {
            reveal_with_fuel(Seq::filter, 2);
            assert(one.drop_last() =~= Seq::<T>::empty());
            assert(one.filter(p) =~= Seq::<T>::empty());
            assert(before.filter(p) + Seq::<T>::empty() =~= before.filter(p));
            assert(Seq::<T>::empty() + tail.filter(p) =~= tail.filter(p));
        }
    }
}

proof fn lemma_none_kept<T>(s: Seq<T>, p: spec_fn(T) -> bool)
    requires
        forall|j: int| 0 <= j < s.len() ==> !p(#[trigger] s[j]),
    ensures
        s.filter(p) == Seq::<T>::empty(),
    decreases s.len(),
{
    reveal(Seq::filter);
    if s.len() > 0 {
        assert(!p(s[s.len() - 1]));
        assert forall|j: int| 0 <= j < s.drop_last().len() implies !p(
            #[trigger] s.drop_last()[j],
        ) by {
            assert(s.drop_last()[j] == s[j]);
        }
        lemma_none_kept(s.drop_last(), p);
    }
}

} // verus!
