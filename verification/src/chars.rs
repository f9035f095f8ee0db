//! Text as sequences of characters.
//!
//! Every rule in this library that reads text is stated over `Seq<char>`, and
//! the helpers here carry text between `str`, `String` and vectors of
//! characters. What the standard library knows about a character beyond ASCII (is it
//! a letter, is it upper case) is named, not restated.

use vstd::prelude::*;

verus! {

/// The characters with Unicode's `White_Space` property.
pub open spec fn white_space(c: char) -> bool {
    ||| '\u{9}' <= c <= '\u{D}'
    ||| c == ' '
    ||| c == '\u{85}'
    ||| c == '\u{A0}'
    ||| c == '\u{1680}'
    ||| '\u{2000}' <= c <= '\u{200A}'
    ||| c == '\u{2028}'
    ||| c == '\u{2029}'
    ||| c == '\u{202F}'
    ||| c == '\u{205F}'
    ||| c == '\u{3000}'
}

/// `char::is_whitespace` holds of the characters with the `White_Space` property,
/// of which there are twenty-five.
pub assume_specification[ char::is_whitespace ](c: char) -> (r: bool)
    ensures
        r == white_space(c),
;

/// The capital letters of ASCII.
pub open spec fn ascii_capital(c: char) -> bool {
    'A' <= c <= 'Z'
}

/// The letters of ASCII.
pub open spec fn ascii_letter(c: char) -> bool {
    'A' <= c <= 'Z' || 'a' <= c <= 'z'
}

/// What `char::is_uppercase` says of `c`, a character beyond ASCII.
pub uninterp spec fn uppercase_beyond(c: char) -> bool;

/// What `char::is_alphabetic` says of `c`, a character beyond ASCII.
pub uninterp spec fn alphabetic_beyond(c: char) -> bool;

/// What `char::is_alphanumeric` says of `c`, a character beyond ASCII.
pub uninterp spec fn alphanumeric_beyond(c: char) -> bool;

/// Upper case: the capitals of ASCII, and what Unicode counts among them beyond.
pub open spec fn uppercase(c: char) -> bool {
    if c <= '\u{7F}' {
        ascii_capital(c)
    } else {
        uppercase_beyond(c)
    }
}

/// Letters: those of ASCII, and what Unicode counts among them beyond.
pub open spec fn alphabetic(c: char) -> bool {
    if c <= '\u{7F}' {
        ascii_letter(c)
    } else {
        alphabetic_beyond(c)
    }
}

/// Letters and numbers: those of ASCII, and what Unicode counts among them beyond.
pub open spec fn alphanumeric(c: char) -> bool {
    if c <= '\u{7F}' {
        ascii_letter(c) || '0' <= c <= '9'
    } else {
        alphanumeric_beyond(c)
    }
}

/// `char::is_uppercase` depends on the character alone. In ASCII it holds of the
/// capital letters and of nothing else.
pub assume_specification[ char::is_uppercase ](c: char) -> (r: bool)
    ensures
        c <= '\u{7F}' ==> r == ascii_capital(c),
        c > '\u{7F}' ==> r == uppercase_beyond(c),
;

/// `char::is_alphabetic` depends on the character alone. In ASCII it holds of the
/// letters and of nothing else.
pub assume_specification[ char::is_alphabetic ](c: char) -> (r: bool)
    ensures
        c <= '\u{7F}' ==> r == ascii_letter(c),
        c > '\u{7F}' ==> r == alphabetic_beyond(c),
;

/// `char::is_alphanumeric` depends on the character alone. In ASCII it holds of the
/// letters and the digits and of nothing else.
pub assume_specification[ char::is_alphanumeric ](c: char) -> (r: bool)
    ensures
        c <= '\u{7F}' ==> r == (ascii_letter(c) || '0' <= c <= '9'),
        c > '\u{7F}' ==> r == alphanumeric_beyond(c),
;

/// `String::push` appends one character and leaves what was there in place.
pub assume_specification[ String::push ](s: &mut String, c: char)
    ensures
        final(s)@ == old(s)@.push(c),
;

/// The characters of `s`, in order.
pub fn chars_of(s: &str) -> (v: Vec<char>)
    ensures
        v@ == s@,
{
    let mut v: Vec<char> = Vec::new();
    for c in it: s.chars()
        invariant
            v@ == it.seq().take(it.index() as int),
            it.seq() == s@,
    {
        v.push(c);
    }
    v
}

/// The text that `v` spells.
pub fn text_of(v: &[char]) -> (s: String)
    ensures
        s@ == v@,
{
    let mut s = String::new();
    let mut i: usize = 0;
    while i < v.len()
        invariant
            i <= v@.len(),
            s@ == v@.take(i as int),
        decreases v@.len() - i,
    {
        s.push(v[i]);
        i += 1;
    }
    s
}

/// Where the run of characters satisfying `p` that starts at `i` ends.
pub open spec fn run_end(s: Seq<char>, p: spec_fn(char) -> bool, i: int) -> int
    decreases s.len() - i,
{
    if 0 <= i < s.len() && p(s[i]) {
        run_end(s, p, i + 1)
    } else {
        i
    }
}

/// Where the run of characters satisfying `p` that ends before `j` starts,
/// reaching back no further than `lo`.
pub open spec fn run_start(s: Seq<char>, p: spec_fn(char) -> bool, lo: int, j: int) -> int
    decreases j - lo,
{
    if lo < j <= s.len() && p(s[j - 1]) {
        run_start(s, p, lo, j - 1)
    } else {
        j
    }
}

/// `s` without the characters satisfying `p` at its two ends.
pub open spec fn trimmed(s: Seq<char>, p: spec_fn(char) -> bool) -> Seq<char> {
    let a = run_end(s, p, 0);
    s.subrange(a, run_start(s, p, a, s.len() as int))
}

pub proof fn lemma_run_end(s: Seq<char>, p: spec_fn(char) -> bool, i: int)
    requires
        0 <= i <= s.len(),
    ensures
        i <= run_end(s, p, i) <= s.len(),
        forall|k: int| i <= k < run_end(s, p, i) ==> p(#[trigger] s[k]),
        run_end(s, p, i) < s.len() ==> !p(s[run_end(s, p, i)]),
    decreases s.len() - i,
{
    if i < s.len() && p(s[i]) {
        lemma_run_end(s, p, i + 1);
    }
}

pub proof fn lemma_run_start(s: Seq<char>, p: spec_fn(char) -> bool, lo: int, j: int)
    requires
        0 <= lo <= j <= s.len(),
    ensures
        lo <= run_start(s, p, lo, j) <= j,
        forall|k: int| run_start(s, p, lo, j) <= k < j ==> p(#[trigger] s[k]),
        lo < run_start(s, p, lo, j) ==> !p(s[run_start(s, p, lo, j) - 1]),
    decreases j - lo,
{
    if lo < j && p(s[j - 1]) {
        lemma_run_start(s, p, lo, j - 1);
    }
}

/// The end of the run of characters that `f` accepts, from `i` on.
pub fn find_run_end<F: Fn(char) -> bool>(
    v: &[char],
    f: F,
    i: usize,
    Ghost(p): Ghost<spec_fn(char) -> bool>,
) -> (r: usize)
    requires
        i <= v@.len(),
        forall|c: char| call_requires(f, (c,)),
        forall|c: char, b: bool| call_ensures(f, (c,), b) ==> b == p(c),
    ensures
        r == run_end(v@, p, i as int),
        i <= r <= v@.len(),
{
    let mut k: usize = i;
    while k < v.len() && f(v[k])
        invariant
            i <= k <= v@.len(),
            forall|c: char| call_requires(f, (c,)),
            forall|c: char, b: bool| call_ensures(f, (c,), b) ==> b == p(c),
            run_end(v@, p, i as int) == run_end(v@, p, k as int),
        decreases v@.len() - k,
    {
        k += 1;
    }
    k
}

/// The start of the run of characters that `f` accepts, back from `j`.
pub fn find_run_start<F: Fn(char) -> bool>(
    v: &[char],
    f: F,
    lo: usize,
    j: usize,
    Ghost(p): Ghost<spec_fn(char) -> bool>,
) -> (r: usize)
    requires
        lo <= j <= v@.len(),
        forall|c: char| call_requires(f, (c,)),
        forall|c: char, b: bool| call_ensures(f, (c,), b) ==> b == p(c),
    ensures
        r == run_start(v@, p, lo as int, j as int),
        lo <= r <= j,
{
    let mut k: usize = j;
    while k > lo && f(v[k - 1])
        invariant
            lo <= k <= j <= v@.len(),
            forall|c: char| call_requires(f, (c,)),
            forall|c: char, b: bool| call_ensures(f, (c,), b) ==> b == p(c),
            run_start(v@, p, lo as int, j as int) == run_start(v@, p, lo as int, k as int),
        decreases k,
    {
        k -= 1;
    }
    k
}

/// `v` without the characters that `f` accepts at its two ends.
pub fn trim_where<F: Fn(char) -> bool>(
    v: &[char],
    f: F,
    Ghost(p): Ghost<spec_fn(char) -> bool>,
) -> (r: Vec<char>)
    requires
        forall|c: char| call_requires(f, (c,)),
        forall|c: char, b: bool| call_ensures(f, (c,), b) ==> b == p(c),
    ensures
        r@ == trimmed(v@, p),
{
    let a = find_run_end(v, &f, 0, Ghost(p));
    let b = find_run_start(v, &f, a, v.len(), Ghost(p));
    part(v, a, b)
}

/// The characters of `v` from `a` up to `b`.
pub fn part(v: &[char], a: usize, b: usize) -> (r: Vec<char>)
    requires
        a <= b <= v@.len(),
    ensures
        r@ == v@.subrange(a as int, b as int),
{
    let mut r: Vec<char> = Vec::new();
    let mut i: usize = a;
    while i < b
        invariant
            a <= i <= b <= v@.len(),
            r@ == v@.subrange(a as int, i as int),
        decreases b - i,
    {
        r.push(v[i]);
        i += 1;
    }
    r
}

/// Whether `a` and `b` spell the same text.
pub fn same(a: &[char], b: &[char]) -> (r: bool)
    ensures
        r == (a@ == b@),
{
    if a.len() != b.len() {
        return false;
    }
    let mut i: usize = 0;
    while i < a.len()
        invariant
            i <= a@.len() == b@.len(),
            forall|k: int| 0 <= k < i ==> a@[k] == b@[k],
        decreases a@.len() - i,
    {
        if a[i] != b[i] {
            return false;
        }
        i += 1;
    }
    assert(a@ =~= b@);
    true
}

/// The texts that a vector of strings holds.
pub open spec fn texts(v: Seq<String>) -> Seq<Seq<char>> {
    v.map_values(|s: String| s@)
}

/// The texts that a vector of character vectors holds.
pub open spec fn spelled(v: Seq<Vec<char>>) -> Seq<Seq<char>> {
    v.map_values(|s: Vec<char>| s@)
}

/// The texts that the vectors of `v` spell.
pub fn strings_of(v: &Vec<Vec<char>>) -> (r: Vec<String>)
    ensures
        texts(r@) == spelled(v@),
{
    let mut r: Vec<String> = Vec::new();
    let mut i: usize = 0;
    while i < v.len()
        invariant
            i <= v@.len(),
            texts(r@) == spelled(v@).take(i as int),
        decreases v@.len() - i,
    {
        let ghost before = texts(r@);
        r.push(text_of(&v[i]));
        assert(texts(r@) =~= before.push(v@[i as int]@));
        assert(spelled(v@).take(i + 1) =~= spelled(v@).take(i as int).push(spelled(v@)[i as int]));
        i += 1;
    }
    assert(spelled(v@).take(i as int) =~= spelled(v@));
    r
}

/// The characters of each text of `v`.
pub fn chars_of_all(v: &Vec<String>) -> (r: Vec<Vec<char>>)
    ensures
        spelled(r@) == texts(v@),
{
    let mut r: Vec<Vec<char>> = Vec::new();
    let mut i: usize = 0;
    while i < v.len()
        invariant
            i <= v@.len(),
            spelled(r@) == texts(v@).take(i as int),
        decreases v@.len() - i,
    {
        let ghost before = spelled(r@);
        r.push(chars_of(v[i].as_str()));
        assert(spelled(r@) =~= before.push(v@[i as int]@));
        assert(texts(v@).take(i + 1) =~= texts(v@).take(i as int).push(texts(v@)[i as int]));
        i += 1;
    }
    assert(texts(v@).take(i as int) =~= texts(v@));
    r
}

/// Whether `a` and `b` are the same text.
pub fn same_text(a: &str, b: &str) -> (r: bool)
    ensures
        r == (a@ == b@),
{
    same(&chars_of(a), &chars_of(b))
}

// ----------------------------------------------------------- searching, joining

/// Whether `pat` stands in `s` at `i`.
pub open spec fn found_at(s: Seq<char>, pat: Seq<char>, i: int) -> bool {
    0 <= i && i + pat.len() <= s.len() && s.subrange(i, i + pat.len()) == pat
}

/// Whether `pat` stands anywhere in `s`.
pub open spec fn found_in(s: Seq<char>, pat: Seq<char>) -> bool {
    exists|i: int| found_at(s, pat, i)
}

/// Whether `pat` stands in `v` at `i`.
pub fn stands_at(v: &[char], pat: &[char], i: usize) -> (r: bool)
    requires
        i <= v@.len(),
    ensures
        r == found_at(v@, pat@, i as int),
{
    if v.len() - i < pat.len() {
        return false;
    }
    let mut k: usize = 0;
    while k < pat.len()
        invariant
            k <= pat@.len(),
            i + pat@.len() <= v.len(),
            forall|m: int| 0 <= m < k ==> v@[i + m] == pat@[m],
        decreases pat@.len() - k,
    {
        if v[i + k] != pat[k] {
            assert(v@.subrange(i as int, i + pat@.len())[k as int] != pat@[k as int]);
            return false;
        }
        k += 1;
    }
    assert(v@.subrange(i as int, i + pat@.len()) =~= pat@);
    true
}

/// Whether `pat` stands anywhere in `v`.
pub fn stands_in(v: &[char], pat: &[char]) -> (r: bool)
    ensures
        r == found_in(v@, pat@),
{
    let mut i: usize = 0;
    loop
        invariant
            i <= v@.len(),
            forall|k: int| 0 <= k < i ==> !found_at(v@, pat@, k),
        decreases v@.len() - i,
    {
        if stands_at(v, pat, i) {
            return true;
        }
        if i == v.len() {
            return false;
        }
        i += 1;
    }
}

/// The characters that do not satisfy `p`, as a predicate value.
pub open spec fn none_of(p: spec_fn(char) -> bool) -> spec_fn(char) -> bool {
    |c: char| !p(c)
}

/// The words of `s` from `i` on: its runs of characters that do not satisfy `p`.
pub open spec fn words_from(s: Seq<char>, p: spec_fn(char) -> bool, i: int) -> Seq<Seq<char>>
    decreases s.len() - i,
{
    if i < 0 || i > s.len() || run_end(s, p, i) >= s.len() {
        Seq::empty()
    } else {
        proof {
            lemma_run_end(s, p, i);
            lemma_run_end(s, none_of(p), run_end(s, p, i) + 1);
        }
        let a = run_end(s, p, i);
        let b = run_end(s, none_of(p), a + 1);
        seq![s.subrange(a, b)] + words_from(s, p, b)
    }
}

/// The words of `v`: its runs of characters that `f` does not accept.
pub fn words_where<F: Fn(char) -> bool>(
    v: &[char],
    f: F,
    Ghost(p): Ghost<spec_fn(char) -> bool>,
) -> (r: Vec<Vec<char>>)
    requires
        forall|c: char| call_requires(f, (c,)),
        forall|c: char, b: bool| call_ensures(f, (c,), b) ==> b == p(c),
    ensures
        spelled(r@) == words_from(v@, p, 0),
{
    let mut r: Vec<Vec<char>> = Vec::new();
    let mut i: usize = 0;
    assert(spelled(r@) + words_from(v@, p, 0) =~= words_from(v@, p, 0));
    loop
        invariant
            i <= v@.len(),
            forall|c: char| call_requires(f, (c,)),
            forall|c: char, b: bool| call_ensures(f, (c,), b) ==> b == p(c),
            words_from(v@, p, 0) == spelled(r@) + words_from(v@, p, i as int),
        ensures
            words_from(v@, p, 0) == spelled(r@),
        decreases v@.len() - i,
    {
        let a = find_run_end(v, &f, i, Ghost(p));
        if a == v.len() {
            assert(spelled(r@) + words_from(v@, p, i as int) =~= spelled(r@));
            break;
        }
        proof {
            lemma_run_end(v@, p, i as int);
        }
        let mut b: usize = a + 1;
        while b < v.len() && !f(v[b])
            invariant
                a < b <= v@.len(),
                forall|c: char| call_requires(f, (c,)),
                forall|c: char, b: bool| call_ensures(f, (c,), b) ==> b == p(c),
                run_end(v@, none_of(p), a + 1) == run_end(v@, none_of(p), b as int),
            decreases v@.len() - b,
        {
            b += 1;
        }
        let ghost before = spelled(r@);
        let w = part(v, a, b);
        r.push(w);
        assert(spelled(r@) =~= before.push(w@));
        assert(spelled(r@) + words_from(v@, p, b as int) =~= before + (seq![w@] + words_from(
            v@,
            p,
            b as int,
        )));
        i = b;
    }
    r
}

/// `s` from `i` on, with every `from` that is found reading left to right
/// turned into `to`. `from` is not empty.
pub open spec fn replaced_from(s: Seq<char>, from: Seq<char>, to: Seq<char>, i: int) -> Seq<char>
    decreases s.len() - i,
{
    if i < 0 || i >= s.len() || from.len() == 0 {
        Seq::empty()
    } else if found_at(s, from, i) {
        to + replaced_from(s, from, to, i + from.len())
    } else {
        seq![s[i]] + replaced_from(s, from, to, i + 1)
    }
}

/// `s` with every `from` turned into `to`.
pub open spec fn replaced(s: Seq<char>, from: Seq<char>, to: Seq<char>) -> Seq<char> {
    replaced_from(s, from, to, 0)
}

/// `v` with every `from` turned into `to`.
pub fn replace_all(v: &[char], from: &[char], to: &[char]) -> (r: Vec<char>)
    requires
        from@.len() > 0,
    ensures
        r@ == replaced(v@, from@, to@),
{
    let mut r: Vec<char> = Vec::new();
    let mut i: usize = 0;
    while i < v.len()
        invariant
            i <= v@.len(),
            from@.len() > 0,
            replaced(v@, from@, to@) == r@ + replaced_from(v@, from@, to@, i as int),
        decreases v@.len() - i,
    {
        let ghost before = r@;
        if stands_at(v, from, i) {
            append(&mut r, to);
            let ghost rest = replaced_from(v@, from@, to@, i + from@.len());
            assert(before + (to@ + rest) =~= r@ + rest);
            i += from.len();
        } else {
            r.push(v[i]);
            let ghost rest = replaced_from(v@, from@, to@, i + 1);
            assert(before + (seq![v@[i as int]] + rest) =~= r@ + rest);
            i += 1;
        }
    }
    assert(replaced(v@, from@, to@) =~= r@);
    r
}

/// `s` with every `from` turned into `to`.
pub open spec fn swapped(s: Seq<char>, from: char, to: char) -> Seq<char> {
    s.map_values(|c: char| if c == from { to } else { c })
}

/// `v` with every `from` turned into `to`.
pub fn swap_char(v: &[char], from: char, to: char) -> (r: Vec<char>)
    ensures
        r@ == swapped(v@, from, to),
{
    let mut r: Vec<char> = Vec::new();
    let mut i: usize = 0;
    while i < v.len()
        invariant
            i <= v@.len(),
            r@ == swapped(v@, from, to).take(i as int),
        decreases v@.len() - i,
    {
        r.push(if v[i] == from { to } else { v[i] });
        i += 1;
        assert(r@ =~= swapped(v@, from, to).take(i as int));
    }
    assert(swapped(v@, from, to).take(i as int) =~= swapped(v@, from, to));
    r
}

/// Every character but `c`, as a predicate value.
pub open spec fn other_than(c: char) -> spec_fn(char) -> bool {
    |x: char| x != c
}

/// `s` without its `c`s.
pub open spec fn without(s: Seq<char>, c: char) -> Seq<char> {
    s.filter(other_than(c))
}

/// `v` without its `c`s.
pub fn remove_char(v: &[char], c: char) -> (r: Vec<char>)
    ensures
        r@ == without(v@, c),
{
    let ghost keep = other_than(c);
    let mut r: Vec<char> = Vec::new();
    let mut i: usize = 0;
    proof {
        reveal(Seq::filter);
        assert(v@.take(0).filter(keep) =~= Seq::<char>::empty());
    }
    while i < v.len()
        invariant
            i <= v@.len(),
            keep == other_than(c),
            r@ == v@.take(i as int).filter(keep),
        decreases v@.len() - i,
    {
        proof {
            v@.take(i as int).lemma_filter_push(v@[i as int], keep);
            assert(v@.take(i + 1) =~= v@.take(i as int).push(v@[i as int]));
        }
        if v[i] != c {
            r.push(v[i]);
        }
        i += 1;
    }
    assert(v@.take(i as int) =~= v@);
    r
}

/// `parts` with `sep` between each two.
pub open spec fn join(parts: Seq<Seq<char>>, sep: Seq<char>) -> Seq<char>
    decreases parts.len(),
{
    if parts.len() == 0 {
        Seq::empty()
    } else if parts.len() == 1 {
        parts[0]
    } else {
        join(parts.drop_last(), sep) + sep + parts.last()
    }
}

/// `parts` with `sep` between each two.
pub fn join_chars(parts: &Vec<Vec<char>>, sep: &[char]) -> (r: Vec<char>)
    ensures
        r@ == join(spelled(parts@), sep@),
{
    let ghost ps = spelled(parts@);
    let mut r: Vec<char> = Vec::new();
    let mut i: usize = 0;
    while i < parts.len()
        invariant
            i <= parts@.len(),
            ps == spelled(parts@),
            r@ == join(ps.take(i as int), sep@),
        decreases parts@.len() - i,
    {
        assert(ps.take(i + 1).drop_last() =~= ps.take(i as int));
        assert(ps[i as int] == parts@[i as int]@);
        if i > 0 {
            append(&mut r, sep);
        }
        append(&mut r, &parts[i]);
        assert(i == 0 ==> r@ =~= parts@[0]@);
        i += 1;
    }
    assert(ps.take(i as int) =~= ps);
    r
}

/// Where the first `c` at or after `i` is, or the end.
pub open spec fn index_of(s: Seq<char>, c: char, i: int) -> int {
    run_end(s, other_than(c), i)
}

/// Where the first `c` at or after `i` is, or the end.
pub fn find_char(v: &[char], c: char, i: usize) -> (r: usize)
    requires
        i <= v@.len(),
    ensures
        r == index_of(v@, c, i as int),
        i <= r <= v@.len(),
        forall|k: int| i <= k < r ==> v@[k] != c,
        r < v@.len() ==> v@[r as int] == c,
{
    let mut k: usize = i;
    while k < v.len() && v[k] != c
        invariant
            i <= k <= v@.len(),
            index_of(v@, c, i as int) == index_of(v@, c, k as int),
            forall|m: int| i <= m < k ==> v@[m] != c,
        decreases v@.len() - k,
    {
        k += 1;
    }
    k
}

/// The pieces of `s` from `i` on, between the `c`s.
pub open spec fn split_from(s: Seq<char>, c: char, i: int) -> Seq<Seq<char>>
    decreases s.len() - i,
{
    if i < 0 || i > s.len() || index_of(s, c, i) >= s.len() {
        seq![s.subrange(i, s.len() as int)]
    } else {
        proof {
            lemma_run_end(s, other_than(c), i);
        }
        let e = index_of(s, c, i);
        seq![s.subrange(i, e)] + split_from(s, c, e + 1)
    }
}

/// The pieces of `s` between the `c`s.
pub open spec fn split_at_char(s: Seq<char>, c: char) -> Seq<Seq<char>> {
    split_from(s, c, 0)
}

/// There is always at least one piece.
pub proof fn lemma_split_nonempty(s: Seq<char>, c: char, i: int)
    ensures
        split_from(s, c, i).len() > 0,
{
}

/// The pieces of `v` between the `c`s.
pub fn split_char(v: &[char], c: char) -> (r: Vec<Vec<char>>)
    ensures
        spelled(r@) == split_at_char(v@, c),
{
    let mut r: Vec<Vec<char>> = Vec::new();
    let mut i: usize = 0;
    assert(spelled(r@) + split_from(v@, c, 0) =~= split_from(v@, c, 0));
    loop
        invariant_except_break
            i <= v@.len(),
            split_at_char(v@, c) == spelled(r@) + split_from(v@, c, i as int),
        ensures
            split_at_char(v@, c) == spelled(r@),
        decreases v@.len() - i,
    {
        let e = find_char(v, c, i);
        let ghost before = spelled(r@);
        let w = part(v, i, e);
        r.push(w);
        assert(spelled(r@) =~= before.push(w@));
        if e == v.len() {
            assert(spelled(r@) =~= before + seq![w@]);
            break;
        }
        assert(spelled(r@) + split_from(v@, c, e + 1) =~= before + (seq![w@] + split_from(
            v@,
            c,
            e + 1,
        )));
        i = e + 1;
    }
    r
}

/// White space, as a predicate value.
pub open spec fn whites() -> spec_fn(char) -> bool {
    |c: char| white_space(c)
}

/// Whether `c` is white space.
pub fn is_white(c: char) -> (r: bool)
    ensures
        r == white_space(c),
{
    c.is_whitespace()
}

/// `s` without the white space at its ends.
pub open spec fn trim_of(s: Seq<char>) -> Seq<char> {
    trimmed(s, whites())
}

/// `v` without the white space at its ends.
pub fn trim_chars(v: &[char]) -> (r: Vec<char>)
    ensures
        r@ == trim_of(v@),
{
    trim_where(v, is_white, Ghost(whites()))
}

/// The trimmed pieces of `pieces`, without the empty ones.
pub open spec fn trimmed_all(pieces: Seq<Seq<char>>) -> Seq<Seq<char>> {
    pieces.map_values(|p: Seq<char>| trim_of(p)).filter(|p: Seq<char>| p.len() > 0)
}

/// The trimmed pieces, without the empty ones.
pub fn trim_all(pieces: &Vec<Vec<char>>) -> (r: Vec<Vec<char>>)
    ensures
        spelled(r@) == trimmed_all(spelled(pieces@)),
{
    let ghost f = |p: Seq<char>| trim_of(p);
    let ghost keep = |p: Seq<char>| p.len() > 0;
    let ghost ps = spelled(pieces@);
    let mut r: Vec<Vec<char>> = Vec::new();
    let mut i: usize = 0;
    proof {
        reveal(Seq::filter);
        assert(ps.take(0).map_values(f).filter(keep) =~= spelled(r@));
    }
    while i < pieces.len()
        invariant
            i <= pieces@.len(),
            ps == spelled(pieces@),
            f == (|p: Seq<char>| trim_of(p)),
            keep == (|p: Seq<char>| p.len() > 0),
            spelled(r@) == ps.take(i as int).map_values(f).filter(keep),
        decreases pieces@.len() - i,
    {
        let t = trim_chars(&pieces[i]);
        proof {
            assert(ps[i as int] == pieces@[i as int]@);
            assert(ps.take(i + 1).map_values(f) =~= ps.take(i as int).map_values(f).push(t@));
            ps.take(i as int).map_values(f).lemma_filter_push(t@, keep);
        }
        if t.len() > 0 {
            let ghost before = spelled(r@);
            r.push(t);
            assert(spelled(r@) =~= before.push(t@));
        }
        i += 1;
    }
    assert(ps.take(i as int) =~= ps);
    r
}

// -------------------------------------------------------------------- numerals

/// The decimal digit for `d`, which is less than ten.
pub open spec fn digit(d: nat) -> char {
    if d == 0 {
        '0'
    } else if d == 1 {
        '1'
    } else if d == 2 {
        '2'
    } else if d == 3 {
        '3'
    } else if d == 4 {
        '4'
    } else if d == 5 {
        '5'
    } else if d == 6 {
        '6'
    } else if d == 7 {
        '7'
    } else if d == 8 {
        '8'
    } else {
        '9'
    }
}

/// Whether `c` is an ASCII digit.
pub open spec fn is_digit(c: char) -> bool {
    '0' <= c && c <= '9'
}

/// Whether `c` is an ASCII digit.
pub fn ascii_digit(c: char) -> (r: bool)
    ensures
        r == is_digit(c),
{
    '0' <= c && c <= '9'
}

/// `c`, lowered where it is an ASCII capital.
pub open spec fn lowered(c: char) -> char {
    if 'A' <= c && c <= 'Z' {
        (c as u32 + 32) as char
    } else {
        c
    }
}

/// `c`, lowered where it is an ASCII capital.
pub fn lower(c: char) -> (r: char)
    ensures
        r == lowered(c),
{
    if 'A' <= c && c <= 'Z' {
        (c as u8 + 32) as char
    } else {
        c
    }
}

/// `s` with every ASCII capital lowered.
pub open spec fn lowered_text(s: Seq<char>) -> Seq<char> {
    s.map_values(|c: char| lowered(c))
}

/// `v` with every ASCII capital lowered.
pub fn lower_chars(v: &[char]) -> (r: Vec<char>)
    ensures
        r@ == lowered_text(v@),
{
    let mut r: Vec<char> = Vec::new();
    let mut i: usize = 0;
    while i < v.len()
        invariant
            i <= v@.len(),
            r@ == lowered_text(v@).take(i as int),
        decreases v@.len() - i,
    {
        r.push(lower(v[i]));
        i += 1;
        assert(r@ =~= lowered_text(v@).take(i as int));
    }
    assert(lowered_text(v@).take(i as int) =~= lowered_text(v@));
    r
}

/// Whether `s` is made of ASCII digits, at least one.
pub open spec fn is_numeral(s: Seq<char>) -> bool {
    s.len() > 0 && forall|i: int| 0 <= i < s.len() ==> is_digit(#[trigger] s[i])
}

/// The number that the digits of `s` stand for.
pub open spec fn value(s: Seq<char>) -> nat
    decreases s.len(),
{
    if s.len() == 0 {
        0
    } else {
        (10 * value(s.drop_last()) + (s.last() as u32 - '0' as u32)) as nat
    }
}

/// The number that a numeral stands for, where it fits in 64 bits.
pub fn parse_u64(v: &[char]) -> (r: Option<u64>)
    ensures
        match r {
            Some(n) => is_numeral(v@) && n == value(v@),
            None => !is_numeral(v@) || value(v@) > u64::MAX,
        },
{
    if v.len() == 0 {
        return None;
    }
    let mut big = false;
    let mut n: u64 = 0;
    let mut i: usize = 0;
    while i < v.len()
        invariant
            i <= v@.len(),
            forall|k: int| 0 <= k < i ==> is_digit(#[trigger] v@[k]),
            !big ==> n == value(v@.take(i as int)),
            big ==> value(v@.take(i as int)) > u64::MAX,
        decreases v@.len() - i,
    {
        let c = v[i];
        if !ascii_digit(c) {
            return None;
        }
        assert(v@.take(i + 1).drop_last() =~= v@.take(i as int));
        let d: u64 = (c as u32 - '0' as u32) as u64;
        if !big {
            if n > (u64::MAX - d) / 10 {
                big = true;
            } else {
                n = n * 10 + d;
            }
        }
        i += 1;
    }
    assert(v@.take(i as int) =~= v@);
    if big {
        None
    } else {
        Some(n)
    }
}

/// The digits of a number that may carry a plus sign.
pub open spec fn unsigned_digits(s: Seq<char>) -> Seq<char> {
    if s.len() > 0 && s[0] == '+' {
        s.skip(1)
    } else {
        s
    }
}

/// The number that `s` writes, with or without a plus sign.
pub open spec fn unsigned(s: Seq<char>) -> Option<nat> {
    if is_numeral(unsigned_digits(s)) {
        Some(value(unsigned_digits(s)))
    } else {
        None
    }
}

/// The number that `s` writes, where it fits in 64 bits.
pub open spec fn unsigned_64(s: Seq<char>) -> Option<u64> {
    match unsigned(s) {
        Some(n) if n <= u64::MAX => Some(n as u64),
        _ => None,
    }
}

/// The number that `v` writes, where it fits in 64 bits.
pub fn parse_unsigned(v: &[char]) -> (r: Option<u64>)
    ensures
        r == unsigned_64(v@),
{
    if v.len() > 0 && v[0] == '+' {
        let d = part(v, 1, v.len());
        assert(d@ =~= unsigned_digits(v@));
        parse_u64(&d)
    } else {
        parse_u64(v)
    }
}

/// The number that `v` writes, where the machine's word holds it.
pub open spec fn unsigned_word(s: Seq<char>) -> Option<usize> {
    match unsigned(s) {
        Some(n) if n <= usize::MAX => Some(n as usize),
        _ => None,
    }
}

/// The number that `v` writes, where the machine's word holds it.
pub fn parse_word(v: &[char]) -> (r: Option<usize>)
    ensures
        r == unsigned_word(v@),
{
    match parse_unsigned(v) {
        Some(n) => if n <= usize::MAX as u64 {
            Some(n as usize)
        } else {
            None
        },
        None => None,
    }
}

/// The decimal numeral of `n`.
pub open spec fn decimal(n: nat) -> Seq<char>
    decreases n,
{
    if n < 10 {
        seq![digit(n)]
    } else {
        decimal(n / 10).push(digit(n % 10))
    }
}

/// A decimal numeral is made of digits and stands for the number it was made of.
pub proof fn lemma_decimal(n: nat)
    ensures
        is_numeral(decimal(n)),
        value(decimal(n)) == n,
    decreases n,
{
    reveal_with_fuel(value, 2);
    if n < 10 {
        assert(decimal(n).drop_last() =~= Seq::<char>::empty());
    } else {
        lemma_decimal(n / 10);
        assert(decimal(n).drop_last() =~= decimal(n / 10));
        assert forall|i: int| 0 <= i < decimal(n).len() implies is_digit(
            #[trigger] decimal(n)[i],
        ) by {
            if i < decimal(n / 10).len() {
                assert(decimal(n)[i] == decimal(n / 10)[i]);
            }
        }
    }
}

/// Zeros in front do not change what a numeral stands for.
pub proof fn lemma_zeros(s: Seq<char>, k: nat)
    ensures
        value(Seq::new(k, |i: int| '0') + s) == value(s),
        is_numeral(s) ==> is_numeral(Seq::new(k, |i: int| '0') + s),
    decreases s.len(),
{
    let z = Seq::new(k, |i: int| '0');
    if s.len() == 0 {
        assert(z + s =~= z);
        lemma_all_zeros(k);
    } else {
        lemma_zeros(s.drop_last(), k);
        assert((z + s).drop_last() =~= z + s.drop_last());
        assert((z + s).last() == s.last());
    }
    if is_numeral(s) {
        assert forall|i: int| 0 <= i < (z + s).len() implies is_digit(#[trigger] (z + s)[i]) by {
            if i >= k {
                assert((z + s)[i] == s[i - k]);
            }
        }
    }
}

proof fn lemma_all_zeros(k: nat)
    ensures
        value(Seq::new(k, |i: int| '0')) == 0,
    decreases k,
{
    let z = Seq::new(k, |i: int| '0');
    if k > 0 {
        lemma_all_zeros((k - 1) as nat);
        assert(z.drop_last() =~= Seq::new((k - 1) as nat, |i: int| '0'));
    }
}

/// A padded decimal numeral still stands for its number.
pub proof fn lemma_padded(n: nat, width: nat)
    ensures
        is_numeral(padded(decimal(n), width)),
        value(padded(decimal(n), width)) == n,
        padded(decimal(n), width).len() >= width,
{
    lemma_decimal(n);
    if decimal(n).len() < width {
        lemma_zeros(decimal(n), (width - decimal(n).len()) as nat);
    }
}

/// `s` with zeros in front, up to `width` characters.
pub open spec fn padded(s: Seq<char>, width: nat) -> Seq<char> {
    if s.len() >= width {
        s
    } else {
        Seq::new((width - s.len()) as nat, |i: int| '0') + s
    }
}

fn digit_char(d: u64) -> (c: char)
    requires
        d < 10,
    ensures
        c == digit(d as nat),
{
    match d {
        0 => '0',
        1 => '1',
        2 => '2',
        3 => '3',
        4 => '4',
        5 => '5',
        6 => '6',
        7 => '7',
        8 => '8',
        _ => '9',
    }
}

/// The decimal numeral of `n`.
pub fn decimal_chars(n: u64) -> (v: Vec<char>)
    ensures
        v@ == decimal(n as nat),
    decreases n,
{
    if n < 10 {
        let v = vec![digit_char(n)];
        assert(v@ =~= decimal(n as nat));
        v
    } else {
        let mut v = decimal_chars(n / 10);
        v.push(digit_char(n % 10));
        v
    }
}

/// The decimal numeral of `n`, at least `width` digits long.
pub fn padded_chars(n: u64, width: usize) -> (v: Vec<char>)
    ensures
        v@ == padded(decimal(n as nat), width as nat),
{
    let d = decimal_chars(n);
    let mut v: Vec<char> = Vec::new();
    if d.len() < width {
        let zeros: usize = width - d.len();
        let mut i: usize = 0;
        while i < zeros
            invariant
                i <= zeros,
                v@ == Seq::new(i as nat, |k: int| '0'),
            decreases zeros - i,
        {
            v.push('0');
            i += 1;
            assert(v@ =~= Seq::new(i as nat, |k: int| '0'));
        }
    }
    let ghost front = v@;
    append(&mut v, &d);
    assert(v@ =~= padded(decimal(n as nat), width as nat));
    v
}

/// Put the characters of `b` after those of `v`.
pub fn append(v: &mut Vec<char>, b: &[char])
    ensures
        final(v)@ == old(v)@ + b@,
{
    let mut i: usize = 0;
    while i < b.len()
        invariant
            i <= b@.len(),
            v@ == old(v)@ + b@.take(i as int),
        decreases b@.len() - i,
    {
        v.push(b[i]);
        i += 1;
    }
    assert(v@ =~= old(v)@ + b@);
}

/// The decimal numeral of `n`, with a minus sign where it has one.
pub open spec fn signed_decimal(n: int) -> Seq<char> {
    if n < 0 {
        "-"@ + decimal((-n) as nat)
    } else {
        decimal(n as nat)
    }
}

/// The decimal numeral of `n`, with a minus sign where it has one.
pub fn signed_chars(n: i64) -> (v: Vec<char>)
    ensures
        v@ == signed_decimal(n as int),
{
    if n < 0 {
        let m: u64 = (-(n + 1)) as u64 + 1;
        let mut v = chars_of("-");
        append(&mut v, &decimal_chars(m));
        v
    } else {
        decimal_chars(n as u64)
    }
}

/// The decimal numeral of `n`, as text.
pub fn decimal_text(n: u64) -> (s: String)
    ensures
        s@ == decimal(n as nat),
{
    text_of(&decimal_chars(n))
}

/// `a` and then `b`.
pub fn cat(a: &str, b: &str) -> (s: String)
    ensures
        s@ == a@ + b@,
{
    let mut v = chars_of(a);
    append(&mut v, &chars_of(b));
    text_of(&v)
}

/// What an optional text holds.
pub open spec fn opt_text(o: Option<String>) -> Option<Seq<char>> {
    match o {
        Some(s) => Some(s@),
        None => None,
    }
}

/// `s` behind `pat`, where it starts with that.
pub open spec fn after_prefix(s: Seq<char>, pat: Seq<char>) -> Option<Seq<char>> {
    if found_at(s, pat, 0) {
        Some(s.skip(pat.len() as int))
    } else {
        None
    }
}

/// `v` behind `pat`, where it starts with that.
pub fn strip_prefix(v: &[char], pat: &str) -> (r: Option<Vec<char>>)
    ensures
        match r {
            Some(t) => after_prefix(v@, pat@) == Some(t@),
            None => after_prefix(v@, pat@) is None,
        },
{
    let p = chars_of(pat);
    if stands_at(v, &p, 0) {
        let t = part(v, p.len(), v.len());
        assert(t@ =~= v@.skip(pat@.len() as int));
        Some(t)
    } else {
        None
    }
}

/// `s` before `pat`, where it ends with that.
pub open spec fn before_suffix(s: Seq<char>, pat: Seq<char>) -> Option<Seq<char>> {
    if found_at(s, pat, s.len() - pat.len()) {
        Some(s.take(s.len() - pat.len()))
    } else {
        None
    }
}

/// `v` before `pat`, where it ends with that.
pub fn strip_suffix(v: &[char], pat: &str) -> (r: Option<Vec<char>>)
    ensures
        match r {
            Some(t) => before_suffix(v@, pat@) == Some(t@),
            None => before_suffix(v@, pat@) is None,
        },
{
    let p = chars_of(pat);
    if p.len() <= v.len() && stands_at(v, &p, v.len() - p.len()) {
        let t = part(v, 0, v.len() - p.len());
        assert(t@ =~= v@.take(v@.len() - pat@.len()));
        Some(t)
    } else {
        None
    }
}

/// What stands before the first `c`, and what behind it.
pub open spec fn cut_at(s: Seq<char>, c: char) -> Option<(Seq<char>, Seq<char>)> {
    let i = index_of(s, c, 0);
    if i < s.len() {
        Some((s.take(i), s.skip(i + 1)))
    } else {
        None
    }
}

/// What stands before the first `c`, and what behind it.
pub fn split_once(v: &[char], c: char) -> (r: Option<(Vec<char>, Vec<char>)>)
    ensures
        match r {
            Some((a, b)) => cut_at(v@, c) == Some((a@, b@)),
            None => cut_at(v@, c) is None,
        },
{
    let i: usize = find_char(v, c, 0);
    if i < v.len() {
        let a = part(v, 0, i);
        let b = part(v, i + 1, v.len());
        assert(a@ =~= v@.take(i as int));
        assert(b@ =~= v@.skip(i + 1));
        Some((a, b))
    } else {
        None
    }
}

/// What stands before the last `c`, and what behind it.
pub open spec fn cut_at_last(s: Seq<char>, c: char) -> Option<(Seq<char>, Seq<char>)> {
    let i = run_start(s, other_than(c), 0, s.len() as int);
    if i > 0 {
        Some((s.take(i - 1), s.skip(i)))
    } else {
        None
    }
}

/// What stands before the last `c`, and what behind it.
pub fn rsplit_once(v: &[char], c: char) -> (r: Option<(Vec<char>, Vec<char>)>)
    ensures
        match r {
            Some((a, b)) => cut_at_last(v@, c) == Some((a@, b@)),
            None => cut_at_last(v@, c) is None,
        },
{
    let f = |x: char| -> (b: bool)
        ensures
            b == (x != c),
        { x != c };
    let i: usize = find_run_start(v, f, 0, v.len(), Ghost(other_than(c)));
    if i > 0 {
        let a = part(v, 0, i - 1);
        let b = part(v, i, v.len());
        assert(a@ =~= v@.take(i - 1));
        assert(b@ =~= v@.skip(i as int));
        Some((a, b))
    } else {
        None
    }
}

/// Whether every character from `a` up to `b` is a digit.
pub fn all_digits(v: &[char], a: usize, b: usize) -> (r: bool)
    requires
        a <= b <= v@.len(),
    ensures
        r == forall|i: int| a <= i < b ==> is_digit(#[trigger] v@[i]),
{
    let mut i: usize = a;
    while i < b
        invariant
            a <= i <= b <= v@.len(),
            forall|k: int| a <= k < i ==> is_digit(#[trigger] v@[k]),
        decreases b - i,
    {
        if !ascii_digit(v[i]) {
            return false;
        }
        i += 1;
    }
    true
}

/// Whether `t` is one of some texts.
pub fn has_text(v: &Vec<String>, t: &str) -> (r: bool)
    ensures
        r == texts(v@).contains(t@),
{
    let mut i: usize = 0;
    while i < v.len()
        invariant
            i <= v@.len(),
            forall|k: int| 0 <= k < i ==> #[trigger] texts(v@)[k] != t@,
        decreases v@.len() - i,
    {
        assert(texts(v@)[i as int] == v@[i as int]@);
        if same_text(v[i].as_str(), t) {
            return true;
        }
        i += 1;
    }
    false
}

} // verus!
