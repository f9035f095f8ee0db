//! What the API answers, said of what it is asked and of what it knows.

use vstd::prelude::*;
use crate::api::device::{pair_of, percent_bytes, value_from};
use crate::api::library::{chunks_upto, oldest_upto, totals_upto};
use crate::api::media::{hex_digit, url_byte, url_bytes};
use crate::api::notes::queue::{is_record_name, opt_record, owed, owed_upto, FoundRecord, UnfiledView};
use crate::api::notes::spoken;
use crate::api::session::{books_upto, by_path, listed_name, listed_upto, BookFileView};
use crate::api::{coding_of, ranged_of, weight_of};
use crate::chars::{after_prefix, decimal, index_of, is_digit, lemma_decimal, other_than, trim_of, white_space, whites};
use crate::order::sorted;
use crate::paths::{joined, name_of};
use crate::rows::{appended, lemma_appended, lemma_pick_none, lemma_pick_push, views};
use crate::store::{ChapterIndexRow, ChapterIndexRowView};
use crate::text_laws::law_trimming_takes_the_ends;

verus! {

// ------------------------------------------------------------------ a book's totals

/// What a book comes to: as many chapters rendered as have chunks and all of them, as
/// many packed as are, and the look longest ago among its rows'.
pub proof fn law_a_book_comes_to_its_chapters(rows: Seq<ChapterIndexRowView>)
    requires
        rows.len() <= usize::MAX,
    ensures
        ({
            let t = totals_upto(rows, rows.len() as int);
            &&& t.rendered_chapters == rows.filter(
                |r: ChapterIndexRowView| r.n > 0 && r.rendered >= r.n,
            ).len()
            &&& t.packed_chapters == rows.filter(|r: ChapterIndexRowView| r.m4a).len()
            &&& match t.oldest_ms {
                None => rows.len() == 0,
                Some(ms) => (exists|i: int|
                    0 <= i < rows.len() && (#[trigger] rows[i]).scanned_ms == ms) && forall|i: int|
                    0 <= i < rows.len() ==> ms <= (#[trigger] rows[i]).scanned_ms,
            }
        }),
{
    lemma_comes_to(rows, rows.len() as int);
    assert(rows.take(rows.len() as int) =~= rows);
}

proof fn lemma_comes_to(rows: Seq<ChapterIndexRowView>, n: int)
    requires
        0 <= n <= rows.len() <= usize::MAX,
    ensures
        ({
            let t = totals_upto(rows, n);
            let some = rows.take(n);
            &&& t.rendered_chapters == some.filter(
                |r: ChapterIndexRowView| r.n > 0 && r.rendered >= r.n,
            ).len()
            &&& t.packed_chapters == some.filter(|r: ChapterIndexRowView| r.m4a).len()
            &&& match t.oldest_ms {
                None => n == 0,
                Some(ms) => (exists|i: int|
                    0 <= i < n && (#[trigger] rows[i]).scanned_ms == ms) && forall|i: int|
                    0 <= i < n ==> ms <= (#[trigger] rows[i]).scanned_ms,
            }
        }),
    decreases n,
{
    let p = |r: ChapterIndexRowView| r.n > 0 && r.rendered >= r.n;
    let q = |r: ChapterIndexRowView| r.m4a;
    crate::rows::lemma_keep_push(rows, n, p);
    crate::rows::lemma_keep_push(rows, n, q);
    if n > 0 {
        lemma_comes_to(rows, n - 1);
        rows.take(n - 1).lemma_filter_len(p);
        rows.take(n - 1).lemma_filter_len(q);
        let t = totals_upto(rows, n - 1);
        let ms = rows[n - 1].scanned_ms;
        match t.oldest_ms {
            None => {
                assert(rows[n - 1].scanned_ms == ms);
            },
            Some(old) => {
                if old < ms {
                    let i = choose|i: int|
                        0 <= i < n - 1 && (#[trigger] rows[i]).scanned_ms == old;
                    assert(rows[i].scanned_ms == old);
                } else {
                    assert(rows[n - 1].scanned_ms == ms);
                }
            },
        }
    }
}

/// The lesser of a chapter's two counts: what is rendered of it, and what it has.
pub open spec fn done_of(r: ChapterIndexRowView) -> nat {
    if r.rendered < r.n {
        r.rendered as nat
    } else {
        r.n as nat
    }
}

/// A book with a row more comes to so much more: the chunks of the row, those rendered
/// of it but no more than it has, and the bytes of its packed file where it has one. A
/// sum of bytes that does not fit stays at the greatest that does.
pub proof fn law_a_row_more_comes_on_top(rows: Seq<ChapterIndexRowView>, r: ChapterIndexRowView)
    requires
        rows.len() < usize::MAX,
        chunks_upto(rows.push(r), rows.len() as int + 1) <= usize::MAX,
    ensures
        ({
            let t = totals_upto(rows, rows.len() as int);
            let u = totals_upto(rows.push(r), rows.len() as int + 1);
            let bytes = if r.m4a && r.bytes is Some {
                r.bytes->0 as int
            } else {
                0
            };
            &&& u.total_chunks == t.total_chunks + r.n
            &&& u.rendered_chunks == t.rendered_chunks + done_of(r)
            &&& u.packed_bytes == if t.packed_bytes + bytes <= u64::MAX {
                t.packed_bytes + bytes
            } else {
                u64::MAX as int
            }
        }),
        totals_upto(Seq::empty(), 0).total_chunks == 0,
        totals_upto(Seq::empty(), 0).rendered_chunks == 0,
        totals_upto(Seq::empty(), 0).packed_bytes == 0,
{
    lemma_totals_prefix(rows, r, rows.len() as int);
    let more = rows.push(r);
    crate::api::library::law_no_book_is_more_than_whole(more, more.len() as int);
    crate::api::library::law_no_book_is_more_than_whole(more, more.len() - 1);
}

proof fn lemma_totals_prefix(rows: Seq<ChapterIndexRowView>, r: ChapterIndexRowView, n: int)
    requires
        0 <= n <= rows.len(),
    ensures
        totals_upto(rows.push(r), n) == totals_upto(rows, n),
        chunks_upto(rows.push(r), n) == chunks_upto(rows, n),
    decreases n,
{
    if n > 0 {
        lemma_totals_prefix(rows, r, n - 1);
    }
}

/// The look longest ago at anything in the library is that at one of its books, and no
/// book's is longer ago; and there is none only where no book has any.
pub proof fn law_the_oldest_look_is_some_books(rows: Seq<Vec<ChapterIndexRow>>)
    ensures
        ({
            let of = |i: int| totals_upto(views(rows[i]@), rows[i]@.len() as int).oldest_ms;
            match oldest_upto(rows, rows.len() as int) {
                None => forall|i: int| 0 <= i < rows.len() ==> (#[trigger] of(i)) is None,
                Some(ms) => (exists|i: int| 0 <= i < rows.len() && #[trigger] of(i) == Some(ms))
                    && forall|i: int|
                    0 <= i < rows.len() ==> match #[trigger] of(i) {
                        None => true,
                        Some(other) => ms <= other,
                    },
            }
        }),
{
    lemma_oldest(rows, rows.len() as int);
}

proof fn lemma_oldest(rows: Seq<Vec<ChapterIndexRow>>, n: int)
    requires
        0 <= n <= rows.len(),
    ensures
        ({
            let of = |i: int| totals_upto(views(rows[i]@), rows[i]@.len() as int).oldest_ms;
            match oldest_upto(rows, n) {
                None => forall|i: int| 0 <= i < n ==> (#[trigger] of(i)) is None,
                Some(ms) => (exists|i: int| 0 <= i < n && #[trigger] of(i) == Some(ms)) && forall|
                    i: int,
                |
                    0 <= i < n ==> match #[trigger] of(i) {
                        None => true,
                        Some(other) => ms <= other,
                    },
            }
        }),
    decreases n,
{
    let of = |i: int| totals_upto(views(rows[i]@), rows[i]@.len() as int).oldest_ms;
    if n > 0 {
        lemma_oldest(rows, n - 1);
        let last = of(n - 1);
        match (oldest_upto(rows, n - 1), last) {
            (Some(a), Some(b)) => {
                if a < b {
                    let i = choose|i: int| 0 <= i < n - 1 && #[trigger] of(i) == Some(a);
                    assert(of(i) == Some(a));
                } else {
                    assert(of(n - 1) == Some(b));
                }
            },
            (Some(a), None) => {
                let i = choose|i: int| 0 <= i < n - 1 && #[trigger] of(i) == Some(a);
                assert(of(i) == Some(a));
            },
            (None, Some(b)) => {
                assert(of(n - 1) == Some(b));
            },
            (None, None) => {},
        }
    }
}

// -------------------------------------------------------------------- the bookshelf

/// What was found in all the folders, one after the other, each in the order of paths.
pub open spec fn all_found(dirs: Seq<Vec<String>>) -> Seq<Seq<char>> {
    dirs.map_values(|d: Vec<String>| sorted(views(d@), by_path())).flatten_alt()
}

/// The names of what was found that has one.
pub open spec fn names_found(found: Seq<Seq<char>>) -> Seq<Seq<char>> {
    found.filter(|p: Seq<char>| name_of(p) is Some).map_values(|p: Seq<char>| name_of(p)->0)
}

/// Every file that was found is listed under its name, each name once, in the order in
/// which they were found, folder by folder: so of two files with one name the first
/// counts.
pub proof fn law_every_file_is_listed_once(dirs: Seq<Vec<String>>)
    ensures
        ({
            let found = all_found(dirs);
            let all = books_upto(dirs, dirs.len() as int);
            &&& appended(
                Seq::empty(),
                names_found(found),
                all.map_values(|b: BookFileView| b.name),
            )
            &&& forall|i: int|
                0 <= i < all.len() ==> #[trigger] first_named(found, all[i].name, all[i].path)
        }),
{
    let found = all_found(dirs);
    lemma_books_found(dirs, dirs.len() as int);
    assert(dirs.take(dirs.len() as int) =~= dirs);
    lemma_listed(found, found.len() as int);
    assert(found.take(found.len() as int) =~= found);
}

/// Whether `path` is the first of `found` with this name.
pub open spec fn first_named(found: Seq<Seq<char>>, name: Seq<char>, path: Seq<char>) -> bool {
    exists|k: int|
        0 <= k < found.len() && #[trigger] found[k] == path && name_of(path) == Some(name)
            && forall|m: int| 0 <= m < k ==> name_of(#[trigger] found[m]) != Some(name)
}

proof fn lemma_listed_on(s: Seq<BookFileView>, a: Seq<Seq<char>>, b: Seq<Seq<char>>, n: int)
    requires
        0 <= n <= b.len(),
    ensures
        listed_upto(listed_upto(s, a, a.len() as int), b, n) == listed_upto(
            s,
            a + b,
            a.len() + n,
        ),
    decreases n,
{
    if n == 0 {
        lemma_listed_prefix(s, a, b, a.len() as int);
    } else {
        lemma_listed_on(s, a, b, n - 1);
        assert((a + b)[a.len() + n - 1] == b[n - 1]);
    }
}

proof fn lemma_listed_prefix(s: Seq<BookFileView>, a: Seq<Seq<char>>, b: Seq<Seq<char>>, n: int)
    requires
        0 <= n <= a.len(),
    ensures
        listed_upto(s, a + b, n) == listed_upto(s, a, n),
    decreases n,
{
    if n > 0 {
        lemma_listed_prefix(s, a, b, n - 1);
        assert((a + b)[n - 1] == a[n - 1]);
    }
}

proof fn lemma_books_found(dirs: Seq<Vec<String>>, n: int)
    requires
        0 <= n <= dirs.len(),
    ensures
        ({
            let found = all_found(dirs.take(n));
            books_upto(dirs, n) == listed_upto(Seq::empty(), found, found.len() as int)
        }),
    decreases n,
{
    let f = |d: Vec<String>| sorted(views(d@), by_path());
    if n == 0 {
        assert(dirs.take(0).map_values(f) =~= Seq::<Seq<Seq<char>>>::empty());
    } else {
        lemma_books_found(dirs, n - 1);
        let before = all_found(dirs.take(n - 1));
        let more = f(dirs[n - 1]);
        let lists = dirs.take(n).map_values(f);
        assert(lists.drop_last() =~= dirs.take(n - 1).map_values(f));
        assert(lists.last() == more);
        assert(all_found(dirs.take(n)) == before + more);
        lemma_listed_on(Seq::empty(), before, more, more.len() as int);
    }
}

proof fn lemma_listed(found: Seq<Seq<char>>, n: int)
    requires
        0 <= n <= found.len(),
    ensures
        ({
            let all = listed_upto(Seq::empty(), found, n);
            &&& appended(
                Seq::empty(),
                names_found(found.take(n)),
                all.map_values(|b: BookFileView| b.name),
            )
            &&& forall|i: int|
                0 <= i < all.len() ==> #[trigger] first_named(found, all[i].name, all[i].path)
        }),
    decreases n,
{
    let p = |p: Seq<char>| name_of(p) is Some;
    let f = |p: Seq<char>| name_of(p)->0;
    let g = |b: BookFileView| b.name;
    let none = Seq::<Seq<char>>::empty();
    lemma_pick_none(found, p, f);
    let all = listed_upto(Seq::empty(), found, n);
    if n == 0 {
        lemma_appended(none, none, none, none[0]);
        assert(all.map_values(g) =~= none);
    } else {
        lemma_listed(found, n - 1);
        lemma_pick_push(found, n, p, f);
        let before = listed_upto(Seq::empty(), found, n - 1);
        let names = before.map_values(g);
        if let Some(name) = name_of(found[n - 1]) {
            lemma_appended(none, names_found(found.take(n - 1)), names, name);
            if listed_name(before, name) {
                let i = choose|i: int|
                    0 <= i < before.len() && (#[trigger] before[i]).name == name;
                assert(names[i] == name);
                assert(all == before);
            } else {
                assert(!names.contains(name)) by {
                    if names.contains(name) {
                        let i = names.index_of(name);
                        assert(before[i].name == name);
                    }
                }
                assert(all.map_values(g) =~= names.push(name));
                assert forall|m: int| 0 <= m < n - 1 implies name_of(#[trigger] found[m]) != Some(
                    name,
                ) by {
                    if name_of(found[m]) == Some(name) {
                        let some = found.take(n - 1);
                        assert(some[m] == found[m]);
                        some.lemma_filter_contains(p, m);
                        let k = some.filter(p).index_of(found[m]);
                        assert(names_found(some)[k] == name);
                        assert(names_found(some).contains(name));
                        assert(names.contains(name));
                    }
                }
                assert forall|i: int| 0 <= i < all.len() implies #[trigger] first_named(
                    found,
                    all[i].name,
                    all[i].path,
                ) by {
                    if i < before.len() {
                        assert(all[i] == before[i]);
                        assert(first_named(found, before[i].name, before[i].path));
                    } else {
                        assert(found[n - 1] == all[i].path);
                    }
                }
            }
        }
    }
}

// ---------------------------------------------------------------------- the query

/// The value of a name in a query is that of the first pair that has it: what stands
/// behind the first `=` of the pair, or nothing where it has none. There is no value
/// only where no pair has the name.
pub proof fn law_the_first_pair_counts(pairs: Seq<Seq<char>>, key: Seq<char>)
    ensures
        match value_from(pairs, key, 0) {
            Some(v) => exists|k: int| #[trigger]
                says(pairs, k, key, v) && unnamed(pairs, key, 0, k),
            None => unnamed(pairs, key, 0, pairs.len() as int),
        },
{
    let k = lemma_value_from(pairs, key, 0);
    assert(unnamed(pairs, key, 0, k));
}

/// Whether the `k`th pair is this name with this value.
pub open spec fn says(pairs: Seq<Seq<char>>, k: int, key: Seq<char>, v: Seq<char>) -> bool {
    &&& 0 <= k < pairs.len()
    &&& !key.contains('=')
    &&& pairs[k] == key + seq!['='] + v || (pairs[k] == key && v.len() == 0)
}

/// Whether no pair from `a` to `b` has this name, alone or before a `=`.
pub open spec fn unnamed(pairs: Seq<Seq<char>>, key: Seq<char>, a: int, b: int) -> bool {
    forall|m: int, v: Seq<char>| a <= m < b ==> !#[trigger] says(pairs, m, key, v)
}

/// A pair says its own name and value, and nothing else.
proof fn lemma_pair(pairs: Seq<Seq<char>>, k: int, key: Seq<char>, v: Seq<char>)
    requires
        0 <= k < pairs.len(),
    ensures
        says(pairs, k, key, v) ==> pair_of(pairs[k]) == (key, v),
        says(pairs, k, pair_of(pairs[k]).0, pair_of(pairs[k]).1),
{
    let p = pairs[k];
    crate::text_laws::law_cuts_join_back(p, '=');
    if says(pairs, k, key, v) {
        crate::chars::lemma_run_end(p, other_than('='), 0);
        let e = index_of(p, '=', 0);
        if p == key {
            assert(!p.contains('='));
            assert(v =~= Seq::<char>::empty());
        } else {
            assert(p[key.len() as int] == '=');
            if e < key.len() {
                assert(key[e] == p[e]);
                assert(key.contains('='));
            } else if e > key.len() {
                assert(other_than('=')(p[key.len() as int]));
            }
            assert(p.take(e) =~= key);
            assert(p.skip(e + 1) =~= v);
        }
    }
}

proof fn lemma_value_from(pairs: Seq<Seq<char>>, key: Seq<char>, i: int) -> (k: int)
    requires
        0 <= i <= pairs.len(),
    ensures
        i <= k <= pairs.len(),
        unnamed(pairs, key, i, k),
        value_from(pairs, key, i) matches Some(v) ==> says(pairs, k, key, v),
        value_from(pairs, key, i) is None ==> k == pairs.len(),
    decreases pairs.len() - i,
{
    if i >= pairs.len() {
        i
    } else if pair_of(pairs[i]).0 == key {
        lemma_pair(pairs, i, key, pair_of(pairs[i]).1);
        i
    } else {
        let k = lemma_value_from(pairs, key, i + 1);
        assert forall|m: int, v: Seq<char>| i <= m < k implies !#[trigger] says(
            pairs,
            m,
            key,
            v,
        ) by {
            lemma_pair(pairs, i, key, v);
        }
        k
    }
}

/// The bytes of a text of ASCII.
pub open spec fn ascii(s: Seq<char>) -> Seq<u8> {
    s.map_values(|c: char| c as u8)
}

/// What is written with percent signs reads back as it was.
pub proof fn law_percent_signs_read_back(b: Seq<u8>)
    ensures
        percent_bytes(ascii(url_bytes(b))) == b,
    decreases b.len(),
{
    lemma_percent_on(b, Seq::empty());
    assert(ascii(url_bytes(b)) + Seq::<u8>::empty() =~= ascii(url_bytes(b)));
    assert(b + percent_bytes(Seq::empty()) =~= b);
}

proof fn lemma_percent_on(b: Seq<u8>, rest: Seq<u8>)
    ensures
        percent_bytes(ascii(url_bytes(b)) + rest) == b + percent_bytes(rest),
    decreases b.len(),
{
    if b.len() == 0 {
        assert(ascii(url_bytes(b)) + rest =~= rest);
        assert(b + percent_bytes(rest) =~= percent_bytes(rest));
    } else {
        let x = b.last();
        let front = b.drop_last();
        let one = ascii(url_byte(x));
        assert(ascii(url_bytes(b)) + rest =~= ascii(url_bytes(front)) + (one + rest));
        lemma_percent_on(front, one + rest);
        lemma_percent_one(x, rest);
        assert(front + (seq![x] + percent_bytes(rest)) =~= b + percent_bytes(rest));
    }
}

proof fn lemma_percent_one(x: u8, rest: Seq<u8>)
    ensures
        percent_bytes(ascii(url_byte(x)) + rest) == seq![x] + percent_bytes(rest),
{
    let s = ascii(url_byte(x)) + rest;
    if (0x30 <= x <= 0x39) || (0x41 <= x <= 0x5a) || (0x61 <= x <= 0x7a) {
        let c = x as char;
        assert(c as u8 == x);
        assert(s[0] == x);
        assert(s.skip(1) =~= rest);
    } else {
        let h = x as int / 16;
        let l = x as int % 16;
        lemma_hex(h);
        lemma_hex(l);
        assert('%' as u8 == 0x25);
        assert(s[0] == 0x25);
        assert(s[1] == hex_digit(h) as u8);
        assert(s[2] == hex_digit(l) as u8);
        assert(s.skip(3) =~= rest);
        assert(h * 16 + l == x);
    }
}

proof fn lemma_hex(d: int)
    requires
        0 <= d < 16,
    ensures
        crate::api::device::hex_value(hex_digit(d) as u8) == Some(d),
{
    if d < 10 {
        let c = (0x30 + d) as char;
        assert(c as u8 == 0x30 + d);
    } else {
        let c = (0x41 + d - 10) as char;
        assert(c as u8 == 0x41 + d - 10);
    }
}

// ----------------------------------------------------------------------- the codings

/// The weight of a coding is that of the last part of the header that names it, and
/// there is none only where no part does.
pub proof fn law_the_last_weight_counts(parts: Seq<Seq<char>>, coding: Seq<char>)
    ensures
        match weight_of(parts, coding, parts.len() as int) {
            Some(q) => exists|k: int|
                0 <= k < parts.len() && #[trigger] coding_of(parts[k]) == (coding, q) && forall|
                    m: int,
                |
                    k < m < parts.len() ==> (#[trigger] coding_of(parts[m])).0 != coding,
            None => forall|m: int|
                0 <= m < parts.len() ==> (#[trigger] coding_of(parts[m])).0 != coding,
        },
{
    lemma_weight(parts, coding, parts.len() as int);
}

proof fn lemma_weight(parts: Seq<Seq<char>>, coding: Seq<char>, n: int)
    requires
        0 <= n <= parts.len(),
    ensures
        match weight_of(parts, coding, n) {
            Some(q) => exists|k: int|
                0 <= k < n && #[trigger] coding_of(parts[k]) == (coding, q) && forall|m: int|
                    k < m < n ==> (#[trigger] coding_of(parts[m])).0 != coding,
            None => forall|m: int| 0 <= m < n ==> (#[trigger] coding_of(parts[m])).0 != coding,
        },
    decreases n,
{
    if n > 0 {
        lemma_weight(parts, coding, n - 1);
        if coding_of(parts[n - 1]).0 == coding {
            assert(coding_of(parts[n - 1]) == (coding, coding_of(parts[n - 1]).1));
        } else if let Some(q) = weight_of(parts, coding, n - 1) {
            let k = choose|k: int|
                0 <= k < n - 1 && #[trigger] coding_of(parts[k]) == (coding, q) && forall|m: int|
                    k < m < n - 1 ==> (#[trigger] coding_of(parts[m])).0 != coding;
            assert(coding_of(parts[k]) == (coding, q));
            assert forall|m: int| k < m < n implies (#[trigger] coding_of(parts[m])).0
                != coding by {}
        }
    }
}

// ------------------------------------------------------------------------- the memos

/// What is quoted are the pieces that are spoken, from the one place to the other, in
/// order.
pub proof fn law_every_spoken_piece_is_quoted(pieces: Seq<(Seq<char>, bool)>, a: int, b: int)
    requires
        0 <= a <= b <= pieces.len(),
    ensures
        spoken(pieces, a, b) == pieces.subrange(a, b).filter(
            |p: (Seq<char>, bool)| p.1,
        ).map_values(|p: (Seq<char>, bool)| p.0),
    decreases b - a,
{
    let q = |p: (Seq<char>, bool)| p.1;
    let f = |p: (Seq<char>, bool)| p.0;
    let s = pieces.subrange(a, b);
    lemma_pick_none(s, q, f);
    if a < b {
        law_every_spoken_piece_is_quoted(pieces, a, b - 1);
        lemma_pick_push(s, b - a, q, f);
        assert(s.take(b - a - 1) =~= pieces.subrange(a, b - 1));
        assert(s[b - a - 1] == pieces[b - 1]);
    } else {
        assert(s.take(0) =~= s);
    }
}

/// Whether a record found is of a memo that is still owed: it can be read, nothing is
/// filed, its recording is named and there, its work order too, and it was not taken up
/// five times.
pub open spec fn still_owed(f: FoundRecord) -> bool {
    &&& is_record_name(f.name@)
    &&& f.has_audio
    &&& opt_record(f.record) matches Some(r) && r.filed is None && r.audio is Some && r.pending
        is Some && r.resumes < 5
}

/// Every memo that is still owed is taken up, and no other: under its own number, with
/// its own recording and its own work order.
pub proof fn law_every_memo_owed_is_taken_up(work: Seq<char>, found: Seq<FoundRecord>)
    ensures
        owed_upto(work, found, found.len() as int) == found.filter(
            |f: FoundRecord| still_owed(f),
        ).map_values(
            |f: FoundRecord|
                UnfiledView {
                    id: opt_record(f.record)->0.id,
                    audio: joined(
                        joined(work, "notes-audio"@),
                        opt_record(f.record)->0.audio->0,
                    ),
                    pending: opt_record(f.record)->0.pending->0,
                },
        ),
{
    lemma_owed(work, found, found.len() as int);
    lemma_pick_none(
        found,
        |f: FoundRecord| still_owed(f),
        |f: FoundRecord|
            UnfiledView {
                id: opt_record(f.record)->0.id,
                audio: joined(joined(work, "notes-audio"@), opt_record(f.record)->0.audio->0),
                pending: opt_record(f.record)->0.pending->0,
            },
    );
}

proof fn lemma_owed(work: Seq<char>, found: Seq<FoundRecord>, n: int)
    requires
        0 <= n <= found.len(),
    ensures
        owed_upto(work, found, n) == found.take(n).filter(
            |f: FoundRecord| still_owed(f),
        ).map_values(
            |f: FoundRecord|
                UnfiledView {
                    id: opt_record(f.record)->0.id,
                    audio: joined(
                        joined(work, "notes-audio"@),
                        opt_record(f.record)->0.audio->0,
                    ),
                    pending: opt_record(f.record)->0.pending->0,
                },
        ),
    decreases n,
{
    let p = |f: FoundRecord| still_owed(f);
    let g = |f: FoundRecord|
        UnfiledView {
            id: opt_record(f.record)->0.id,
            audio: joined(joined(work, "notes-audio"@), opt_record(f.record)->0.audio->0),
            pending: opt_record(f.record)->0.pending->0,
        };
    lemma_pick_none(found, p, g);
    if n > 0 {
        lemma_owed(work, found, n - 1);
        lemma_pick_push(found, n, p, g);
        assert(owed(work, found[n - 1]) is Some <==> still_owed(found[n - 1]));
    }
}

// ------------------------------------------------------------------------ the ranges

/// A request for bytes is answered with those bytes. From one place to another with
/// both, no further than the end; from a place to the end; or the last so many. The
/// answer says which they are and how many, and of how many. What starts behind the
/// end, or ends before it starts, is refused.
pub proof fn law_a_range_is_answered_with_its_bytes(size: u64, a: u64, b: u64)
    requires
        size > 0,
    ensures
        ({
            let r = ranged_of(
                size,
                false,
                "bytes="@ + decimal(a as nat) + "-"@ + decimal(b as nat),
            );
            let last = if b < size {
                b as int
            } else {
                size - 1
            };
            if a < size && a <= b {
                &&& r.status == 206
                &&& r.start == a
                &&& r.len == last - a + 1
                &&& r.content_length == Some(r.len)
                &&& r.body
            } else {
                r.status == 416 && !r.body
            }
        }),
        ({
            let r = ranged_of(size, false, "bytes="@ + decimal(a as nat) + "-"@);
            if a < size {
                r.status == 206 && r.start == a && r.len == size - a && r.body
            } else {
                r.status == 416 && !r.body
            }
        }),
        ({
            let r = ranged_of(size, false, "bytes="@ + "-"@ + decimal(b as nat));
            b > 0 ==> r.status == 206 && r.body && r.start + r.len == size && r.len == if b < size {
                b
            } else {
                size
            }
        }),
{
    let x = decimal(a as nat);
    let y = decimal(b as nat);
    lemma_decimal(a as nat);
    lemma_decimal(b as nat);
    reveal_strlit("bytes=");
    reveal_strlit("-");
    let none = Seq::<char>::empty();
    lemma_range_text(x, y);
    lemma_range_text(x, none);
    lemma_range_text(none, y);
    assert("bytes="@ + x + "-"@ + none =~= "bytes="@ + x + "-"@);
    assert("bytes="@ + none + "-"@ + y =~= "bytes="@ + "-"@ + y);
}

proof fn lemma_range_text(x: Seq<char>, y: Seq<char>)
    requires
        forall|i: int| 0 <= i < x.len() ==> is_digit(#[trigger] x[i]),
        forall|i: int| 0 <= i < y.len() ==> is_digit(#[trigger] y[i]),
    ensures
        crate::api::range_ends("bytes="@ + x + "-"@ + y) == Some((x, y)),
{
    reveal_strlit("bytes=");
    reveal_strlit("-");
    let head = "bytes="@;
    let bar = "-"@;
    let s = head + x + bar + y;
    let rest = x + bar + y;
    let ends = law_trimming_takes_the_ends(s, whites());
    assert(s[0] == 'b');
    assert(!white_space(s[0]));
    assert(!white_space(s.last())) by {
        if y.len() > 0 {
            assert(s.last() == y[y.len() - 1]);
        } else {
            assert(s.last() == '-');
        }
    }
    assert(ends.0 == 0 && ends.1 == s.len());
    assert(trim_of(s) =~= s);
    assert(s.subrange(0, 6) =~= head);
    assert(s.skip(6) =~= rest);
    assert(after_prefix(s, head) == Some(rest));
    crate::text_laws::law_cuts_join_back(rest, '-');
    assert(rest[x.len() as int] == '-');
    crate::chars::lemma_run_end(rest, other_than('-'), 0);
    let k = index_of(rest, '-', 0);
    assert(k == x.len()) by {
        if k < x.len() {
            assert(rest[k] == x[k]);
        } else if k > x.len() {
            assert(other_than('-')(rest[x.len() as int]));
        }
    }
    assert(rest.take(k) =~= x);
    assert(rest.skip(k + 1) =~= y);
    lemma_digits_stay(x);
    lemma_digits_stay(y);
}

proof fn lemma_digits_stay(x: Seq<char>)
    requires
        forall|i: int| 0 <= i < x.len() ==> is_digit(#[trigger] x[i]),
    ensures
        trim_of(x) == x,
{
    let ends = law_trimming_takes_the_ends(x, whites());
    if x.len() > 0 {
        assert(is_digit(x[0]) && is_digit(x[x.len() - 1]));
        assert(ends.0 == 0 && ends.1 == x.len());
    }
    assert(trim_of(x) =~= x);
}

} // verus!
