//! File paths as text, with `/` between their parts.

use vstd::prelude::*;
use crate::chars::{append, chars_of, part, run_start, same, text_of, find_run_start, lemma_run_start};
use crate::order::differs_at;

verus! {

/// `b` inside the directory `a`. A rooted `b` stands by itself.
pub open spec fn joined(a: Seq<char>, b: Seq<char>) -> Seq<char> {
    if b.len() > 0 && b[0] == '/' {
        b
    } else if a.len() == 0 || a.last() == '/' {
        a + b
    } else {
        a + "/"@ + b
    }
}

/// `b` inside the directory `a`. A rooted `b` stands by itself.
pub fn join_path(a: &str, b: &str) -> (r: String)
    ensures
        r@ == joined(a@, b@),
{
    let x = chars_of(a);
    let y = chars_of(b);
    if y.len() > 0 && y[0] == '/' {
        return text_of(&y);
    }
    let bare = x.len() == 0 || x[x.len() - 1] == '/';
    let mut r = x;
    if !bare {
        append(&mut r, &chars_of("/"));
    }
    append(&mut r, &y);
    text_of(&r)
}

/// Slashes, as a predicate value.
pub open spec fn slashes() -> spec_fn(char) -> bool {
    |c: char| c == '/'
}

fn is_slash(c: char) -> (r: bool)
    ensures
        r == (c == '/'),
{
    c == '/'
}

/// Everything but slashes, as a predicate value.
pub open spec fn non_slashes() -> spec_fn(char) -> bool {
    |c: char| c != '/'
}

pub fn is_non_slash(c: char) -> (r: bool)
    ensures
        r == (c != '/'),
{
    c != '/'
}

/// The last part of `p` up to `end`: where it starts and where it ends. Slashes
/// at the end, and parts that only say "here", do not count. Nothing where
/// there is no part left that names anything.
pub open spec fn last_part(p: Seq<char>, end: int) -> Option<(int, int)>
    decreases end,
{
    if end < 0 || end > p.len() {
        None
    } else {
        proof {
            lemma_run_start(p, slashes(), 0, end);
            lemma_run_start(p, non_slashes(), 0, run_start(p, slashes(), 0, end));
        }
        let e = run_start(p, slashes(), 0, end);
        let s = run_start(p, non_slashes(), 0, e);
        if e == 0 {
            None
        } else if p.subrange(s, e) == "."@ && s > 0 && s < end {
            last_part(p, s)
        } else if p.subrange(s, e) == "."@ || p.subrange(s, e) == ".."@ {
            None
        } else {
            Some((s, e))
        }
    }
}

/// The name of the file that `p` leads to.
pub open spec fn name_of(p: Seq<char>) -> Option<Seq<char>> {
    match last_part(p, p.len() as int) {
        Some((s, e)) => Some(p.subrange(s, e)),
        None => None,
    }
}

fn find_last_part(p: &[char]) -> (r: Option<(usize, usize)>)
    ensures
        match r {
            Some((s, e)) => last_part(p@, p@.len() as int) == Some((s as int, e as int)) && s <= e
                <= p@.len(),
            None => last_part(p@, p@.len() as int) is None,
        },
{
    let here = chars_of(".");
    let above = chars_of("..");
    let mut end: usize = p.len();
    loop
        invariant
            end <= p@.len(),
            here@ == "."@,
            above@ == ".."@,
            last_part(p@, p@.len() as int) == last_part(p@, end as int),
        decreases end,
    {
        let e = find_run_start(p, is_slash, 0, end, Ghost(slashes()));
        if e == 0 {
            return None;
        }
        let s = find_run_start(p, is_non_slash, 0, e, Ghost(non_slashes()));
        let w = part(p, s, e);
        if same(&w, &here) && s > 0 && s < end {
            end = s;
        } else if same(&w, &here) || same(&w, &above) {
            return None;
        } else {
            return Some((s, e));
        }
    }
}

/// The name of the file that `p` leads to.
pub fn file_name(p: &str) -> (r: Option<String>)
    ensures
        match r {
            Some(n) => name_of(p@) == Some(n@),
            None => name_of(p@) is None,
        },
{
    let v = chars_of(p);
    match find_last_part(&v) {
        Some((s, e)) => Some(text_of(&part(&v, s, e))),
        None => None,
    }
}

/// Everything but full stops, as a predicate value.
pub open spec fn non_stops() -> spec_fn(char) -> bool {
    |c: char| c != '.'
}

fn is_non_stop(c: char) -> (r: bool)
    ensures
        r == (c != '.'),
{
    c != '.'
}

/// Where the extension of the file name `n` starts, the full stop before it
/// left out; zero where it has none. A full stop in front makes no extension.
pub open spec fn extension_start(n: Seq<char>) -> int {
    let k = run_start(n, non_stops(), 0, n.len() as int);
    if k <= 1 {
        0
    } else {
        k
    }
}

/// A file name without its extension.
pub open spec fn stem(n: Seq<char>) -> Seq<char> {
    if extension_start(n) == 0 {
        n
    } else {
        n.take(extension_start(n) - 1)
    }
}

/// A file name's extension.
pub open spec fn extension(n: Seq<char>) -> Option<Seq<char>> {
    if extension_start(n) == 0 {
        None
    } else {
        Some(n.skip(extension_start(n)))
    }
}

/// A file name, apart: its stem and its extension.
pub fn split_name(n: &[char]) -> (r: (Vec<char>, Option<Vec<char>>))
    ensures
        r.0@ == stem(n@),
        match r.1 {
            Some(x) => extension(n@) == Some(x@),
            None => extension(n@) is None,
        },
{
    let k = find_run_start(n, is_non_stop, 0, n.len(), Ghost(non_stops()));
    if k <= 1 {
        let s = part(n, 0, n.len());
        assert(s@ =~= n@);
        (s, None)
    } else {
        let s = part(n, 0, k - 1);
        let x = part(n, k, n.len());
        assert(s@ =~= n@.take(k - 1));
        assert(x@ =~= n@.skip(k as int));
        (s, Some(x))
    }
}

/// The stem of the file that a path leads to.
pub open spec fn stem_of(p: Seq<char>) -> Option<Seq<char>> {
    match name_of(p) {
        Some(n) => Some(stem(n)),
        None => None,
    }
}

/// The stem of the file that a path leads to.
pub fn file_stem(p: &str) -> (r: Option<String>)
    ensures
        match r {
            Some(n) => stem_of(p@) == Some(n@),
            None => stem_of(p@) is None,
        },
{
    match file_name(p) {
        Some(n) => {
            let (s, _x) = split_name(&chars_of(n.as_str()));
            Some(text_of(&s))
        },
        None => None,
    }
}

/// The directory that the file at `p` is in, where `p` names a file.
pub open spec fn parent_of(p: Seq<char>) -> Option<Seq<char>> {
    match last_part(p, p.len() as int) {
        Some((s, e)) => {
            let d = run_start(p, slashes(), 0, s);
            if d == 0 && s > 0 {
                Some("/"@)
            } else {
                Some(p.take(d))
            }
        },
        None => None,
    }
}

/// The directory that the file at `p` is in, where `p` names a file.
pub fn parent(p: &str) -> (r: Option<String>)
    ensures
        match r {
            Some(d) => parent_of(p@) == Some(d@),
            None => parent_of(p@) is None,
        },
{
    let v = chars_of(p);
    match find_last_part(&v) {
        Some((s, _e)) => {
            let d = find_run_start(&v, is_slash, 0, s, Ghost(slashes()));
            if d == 0 && s > 0 {
                Some("/".to_owned())
            } else {
                let t = part(&v, 0, d);
                assert(t@ =~= p@.take(d as int));
                Some(text_of(&t))
            }
        },
        None => None,
    }
}

// ------------------------------------------------------------------- the order

/// The rank of a character in a path: the separator comes before all others, so
/// that paths are ordered part by part.
pub open spec fn rank(c: char) -> int {
    if c == '/' {
        0
    } else {
        c as int + 1
    }
}

/// Whether `a` comes before `b`, or is `b`, from the `i`th character on.
pub open spec fn path_le_from(a: Seq<char>, b: Seq<char>, i: int) -> bool
    decreases a.len() - i,
{
    if i < 0 || i >= a.len() {
        true
    } else if i >= b.len() {
        false
    } else if rank(a[i]) != rank(b[i]) {
        rank(a[i]) < rank(b[i])
    } else {
        path_le_from(a, b, i + 1)
    }
}

/// Whether the path `a` comes before `b`, or is `b`.
pub open spec fn path_le(a: Seq<char>, b: Seq<char>) -> bool {
    path_le_from(a, b, 0)
}

fn rank_of(c: char) -> (r: u32)
    ensures
        r == rank(c),
{
    if c == '/' {
        0
    } else {
        c as u32 + 1
    }
}

/// Whether the path `a` comes before `b`, or is `b`.
pub fn path_before(a: &str, b: &str) -> (r: bool)
    ensures
        r == path_le(a@, b@),
{
    let x = chars_of(a);
    let y = chars_of(b);
    let mut i: usize = 0;
    while i < x.len()
        invariant
            i <= x@.len(),
            x@ == a@,
            y@ == b@,
            path_le(x@, y@) == path_le_from(x@, y@, i as int),
        decreases x@.len() - i,
    {
        if i >= y.len() {
            return false;
        }
        let p: u32 = rank_of(x[i]);
        let q: u32 = rank_of(y[i]);
        if p != q {
            return p < q;
        }
        i += 1;
    }
    true
}

proof fn lemma_path_total(a: Seq<char>, b: Seq<char>, i: int)
    requires
        0 <= i,
    ensures
        path_le_from(a, b, i) || path_le_from(b, a, i),
    decreases a.len() - i,
{
    if i < a.len() && i < b.len() && rank(a[i]) == rank(b[i]) {
        lemma_path_total(a, b, i + 1);
    }
}

proof fn lemma_path_transitive(a: Seq<char>, b: Seq<char>, c: Seq<char>, i: int)
    requires
        0 <= i,
        path_le_from(a, b, i),
        path_le_from(b, c, i),
    ensures
        path_le_from(a, c, i),
    decreases a.len() - i,
{
    if i < a.len() && i < b.len() && i < c.len() && rank(a[i]) == rank(b[i]) && rank(b[i]) == rank(
        c[i],
    ) {
        lemma_path_transitive(a, b, c, i + 1);
    }
}

/// Paths are ordered: of any two, one comes before the other or they are level,
/// and the order carries through.
pub proof fn law_paths_are_ordered(a: Seq<char>, b: Seq<char>, c: Seq<char>)
    ensures
        path_le(a, b) || path_le(b, a),
        path_le(a, b) && path_le(b, c) ==> path_le(a, c),
{
    lemma_path_total(a, b, 0);
    if path_le(a, b) && path_le(b, c) {
        lemma_path_transitive(a, b, c, 0);
    }
}

/// What comes first of two paths is decided where they first differ: a path ends its
/// part there, or has the lesser character; and a path comes before every longer one
/// that starts with it.
pub proof fn law_the_first_difference_in_paths_decides(a: Seq<char>, b: Seq<char>)
    ensures
        path_le(a, b) <==> a.is_prefix_of(b) || exists|k: int| #[trigger] differs_at(a, b, k) && (
        a[k] == '/' || (b[k] != '/' && a[k] < b[k])),
{
    lemma_path_first(a, b, 0);
}

proof fn lemma_rank(c: char, d: char)
    requires
        c != d,
    ensures
        rank(c) != rank(d),
        rank(c) < rank(d) <==> c == '/' || (d != '/' && c < d),
{
}

proof fn lemma_path_first(a: Seq<char>, b: Seq<char>, i: int)
    requires
        0 <= i <= a.len(),
        i <= b.len(),
        forall|j: int| 0 <= j < i ==> #[trigger] a[j] == b[j],
    ensures
        path_le_from(a, b, i) <==> a.is_prefix_of(b) || exists|k: int| #[trigger]
            differs_at(a, b, k) && (a[k] == '/' || (b[k] != '/' && a[k] < b[k])),
    decreases a.len() - i,
{
    if i >= a.len() {
        assert(a.is_prefix_of(b)) by {
            assert(a =~= b.subrange(0, a.len() as int));
        }
    } else if i >= b.len() {
        assert(!a.is_prefix_of(b));
    } else if a[i] != b[i] {
        assert(differs_at(a, b, i));
        lemma_rank(a[i], b[i]);
        if a.is_prefix_of(b) {
            assert(a[i] == b.subrange(0, a.len() as int)[i]);
        }
        assert forall|k: int| #[trigger] differs_at(a, b, k) implies k == i by {
            if k < i {
                assert(a[k] == b[k]);
            } else if k > i {
                assert(a[i] == b[i]);
            }
        }
    } else {
        lemma_path_first(a, b, i + 1);
    }
}

} // verus!
