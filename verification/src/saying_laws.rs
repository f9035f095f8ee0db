//! What is quoted, named and answered, said of what it is made of.

use vstd::prelude::*;
use crate::api::answer_laws::law_every_spoken_piece_is_quoted;
use crate::api::device::{heard_within, later_first, Here};
use crate::api::notes::queue::{by_stamp, UnfiledView};
use crate::api::notes::{context_of, ctx_from, ctx_to, prompt_parts};
use crate::api::{gzip_weight, hashed_asset, weight_of};
use crate::cache::{chapter_name, first};
use crate::chapters::{last_line, path_tag, tag_of};
use crate::chars::{after_prefix, cut_at_last, decimal, is_digit, join, lemma_padded, lemma_run_end, lemma_run_start, lowered_text, none_of, other_than, padded, run_end, run_start, split_at_char, split_from, trim_of, words_from};
use crate::disk_laws::{law_a_name_has_its_extension, law_a_path_has_its_name_and_folder};
use crate::export::some_names;
use crate::library::epub_path;
use crate::order::{law_sorted, sorted};
use crate::paths::{joined, name_of, parent_of, stem, stem_of};
use crate::text_laws::{law_cuts_join_back, law_ends_come_off};
use crate::tts::g2p::{single_spaced, spaces};

verus! {

// -------------------------------------------------------------------------- notes

/// A note quotes what is spoken of the piece it was made at and of the ones next to it,
/// in order and with spaces between.
pub proof fn law_a_note_quotes_what_is_spoken_around(pieces: Seq<(Seq<char>, bool)>, i: int)
    requires
        0 <= i < pieces.len(),
    ensures
        ({
            let a = if i > 0 {
                i - 1
            } else {
                0
            };
            let b = if i + 2 < pieces.len() {
                i + 2
            } else {
                pieces.len() as int
            };
            context_of(pieces, i) == join(
                pieces.subrange(a, b).filter(|p: (Seq<char>, bool)| p.1).map_values(
                    |p: (Seq<char>, bool)| p.0,
                ),
                " "@,
            )
        }),
{
    let n = pieces.len() as int;
    law_every_spoken_piece_is_quoted(pieces, ctx_from(i, n), ctx_to(i, n));
}

/// What the transcriber is prompted with is what there is of three things, in order.
pub proof fn law_the_prompt_says_what_there_is(a: Seq<char>, b: Seq<char>, c: Seq<char>)
    ensures
        prompt_parts(a, b, c) == seq![a, b, c].filter(|s: Seq<char>| s.len() > 0),
{
    let p = |s: Seq<char>| s.len() > 0;
    let all = seq![a, b, c];
    reveal_with_fuel(Seq::filter, 4);
    assert(all.drop_last() =~= seq![a, b]);
    assert(seq![a, b].drop_last() =~= seq![a]);
    assert(seq![a].drop_last() =~= Seq::<Seq<char>>::empty());
    assert(prompt_parts(a, b, c) =~= all.filter(p));
}

/// Memos that are owed are taken up in the order in which they were made, all of them.
pub proof fn law_the_oldest_memo_is_taken_up_first(all: Seq<UnfiledView>)
    ensures
        ({
            let list = sorted(all, by_stamp());
            &&& list.to_multiset() == all.to_multiset()
            &&& forall|i: int, j: int|
                0 <= i <= j < list.len() ==> (#[trigger] list[i]).pending.stamp_ms <= (
                #[trigger] list[j]).pending.stamp_ms
        }),
{
    law_sorted(all, by_stamp());
    let list = sorted(all, by_stamp());
    assert forall|i: int, j: int| 0 <= i <= j < list.len() implies (
    #[trigger] list[i]).pending.stamp_ms <= (#[trigger] list[j]).pending.stamp_ms by {
        assert(by_stamp()(list[i], list[j]));
    }
}

/// Who is here is who was heard of within the window, each of them, the one heard of
/// last first.
pub proof fn law_who_is_here(s: Seq<Here>, window: u64, now: u64, k: int)
    requires
        0 <= k < s.len(),
    ensures
        ({
            let list = sorted(s.filter(heard_within(window, now)), later_first());
            &&& forall|i: int, j: int|
                0 <= i <= j < list.len() ==> (#[trigger] list[i]).1.last_seen >= (
                #[trigger] list[j]).1.last_seen
            &&& list.contains(s[k]) <==> now - s[k].1.last_seen <= window
        }),
{
    let p = heard_within(window, now);
    let kept = s.filter(p);
    law_sorted(kept, later_first());
    let list = sorted(kept, later_first());
    assert forall|i: int, j: int| 0 <= i <= j < list.len() implies (#[trigger] list[i]).1.last_seen
        >= (#[trigger] list[j]).1.last_seen by {
        assert(later_first()(list[i], list[j]));
    }
    broadcast use vstd::seq_lib::group_to_multiset_ensures;
    assert(list.contains(s[k]) <==> list.to_multiset().count(s[k]) > 0);
    assert(kept.contains(s[k]) <==> kept.to_multiset().count(s[k]) > 0);
    if kept.contains(s[k]) {
        let i = kept.index_of(s[k]);
        s.lemma_filter_pred(p, i);
    }
    if p(s[k]) {
        s.lemma_filter_contains(p, k);
    }
}

// ------------------------------------------------------------------------- the web

/// What gzip weighs is what the header says of it by name, and what it says of
/// everything only where it does not name it.
pub proof fn law_gzip_goes_by_its_own_name(raw: Seq<char>)
    ensures
        ({
            let parts = split_at_char(lowered_text(raw), ',');
            let own = weight_of(parts, "gzip"@, parts.len() as int);
            gzip_weight(raw) == if own is Some {
                own
            } else {
                weight_of(parts, "*"@, parts.len() as int)
            }
        }),
{
}

/// A file of the app that has its hash in its name is one that never changes: below the
/// assets, with a dash and eight letters, digits, dashes or underscores before its
/// extension.
pub proof fn law_hashed_files_never_change(stem: Seq<char>, hash: Seq<char>, ext: Seq<char>)
    requires
        !stem.contains('/'),
        hash.len() == 8,
        forall|i: int| 0 <= i < 8 ==> crate::api::device::in_id(#[trigger] hash[i]),
        ext.len() > 0,
        !ext.contains('/'),
        !ext.contains('.'),
    ensures
        hashed_asset("/assets/"@ + stem + "-"@ + hash + "."@ + ext),
{
    reveal_strlit("/assets/");
    reveal_strlit("-");
    reveal_strlit(".");
    let head = "/assets/"@;
    let front = stem + "-"@ + hash;
    let name = front + "."@ + ext;
    let path = head + stem + "-"@ + hash + "."@ + ext;
    assert(path =~= head + name);
    assert(path.subrange(0, 8) =~= head);
    assert(path.skip(8) =~= name);
    assert(!name.contains('/')) by {
        assert forall|i: int| 0 <= i < name.len() implies name[i] != '/' by {
            if i < stem.len() {
                assert(stem.contains(stem[i]));
            } else if stem.len() < i < stem.len() + 9 {
                assert(crate::api::device::in_id(hash[i - stem.len() - 1]));
            } else if i > stem.len() + 9 {
                assert(ext.contains(ext[i - stem.len() - 10]));
            }
        }
    }
    law_cuts_join_back(name, '/');
    if cut_at_last(name, '/') is Some {
        let (a, b) = cut_at_last(name, '/')->0;
        assert(name[a.len() as int] == '/');
        assert(name.contains('/'));
    }
    let p = other_than('.');
    lemma_run_start(name, p, 0, name.len() as int);
    let k = run_start(name, p, 0, name.len() as int);
    let d = front.len() as int;
    assert(name[d] == '.');
    assert(k == d + 1) by {
        if k <= d {
            assert(p(name[d]));
        } else if k > d + 1 {
            assert(name[k - 1] == ext[k - 1 - d - 1]);
            assert(ext.contains(ext[k - 1 - d - 1]));
        }
    }
    assert(name.take(d) =~= front);
    assert(name.skip(d + 1) =~= ext);
    assert(front[front.len() - 9] == '-');
    assert forall|i: int| front.len() - 8 <= i < front.len() implies crate::api::device::in_id(
        #[trigger] front[i],
    ) by {
        assert(front[i] == hash[i - (front.len() - 8)]);
    }
}

/// And no other file is: what never changes lies below the assets, and its name has the
/// dash, the eight characters, a stop and an extension.
pub proof fn law_other_files_may_change(path: Seq<char>) -> (r: (Seq<char>, Seq<char>, Seq<char>))
    requires
        hashed_asset(path),
    ensures
        ({
            let (front, hash, ext) = r;
            &&& path == "/assets/"@ + front + "-"@ + hash + "."@ + ext
            &&& hash.len() == 8
            &&& forall|i: int| 0 <= i < 8 ==> crate::api::device::in_id(#[trigger] hash[i])
            &&& ext.len() > 0
            &&& !ext.contains('.')
        }),
{
    reveal_strlit("/assets/");
    reveal_strlit("-");
    reveal_strlit(".");
    law_ends_come_off(path, "/assets/"@);
    let rest = after_prefix(path, "/assets/"@)->0;
    law_cuts_join_back(rest, '/');
    let name = crate::api::last_of(rest);
    let dir = match cut_at_last(rest, '/') {
        Some((d, _)) => d + seq!['/'],
        None => Seq::empty(),
    };
    assert(rest =~= dir + name);
    law_cuts_join_back(name, '.');
    let (stem, ext) = cut_at_last(name, '.')->0;
    let n = stem.len() as int;
    let front = dir + stem.take(n - 9);
    let hash = stem.skip(n - 8);
    assert(stem =~= stem.take(n - 9) + "-"@ + hash);
    assert forall|i: int| 0 <= i < 8 implies crate::api::device::in_id(#[trigger] hash[i]) by {
        assert(hash[i] == stem[n - 8 + i]);
    }
    assert(path =~= "/assets/"@ + front + "-"@ + hash + "."@ + ext);
    (front, hash, ext)
}

// ------------------------------------------------------------------------ the files

/// A chapter's file carries the tag of its chapter: its book's folder and its name.
pub proof fn law_files_carry_their_tag(root: Seq<char>, key: Seq<char>, ci: nat, ext: Seq<char>)
    requires
        root.len() > 0,
        root.last() != '/',
        key.len() > 0,
        !key.contains('/'),
        key != "."@,
        key != ".."@,
        !ext.contains('.'),
        !ext.contains('/'),
    ensures
        path_tag(joined(joined(root, key), chapter_name(ci) + "."@ + ext)) == Some(
            tag_of(key, ci),
        ),
{
    let dir = joined(root, key);
    let tag = chapter_name(ci);
    let name = tag + "."@ + ext;
    lemma_chapter_file(ci, ext);
    lemma_folder(root, key);
    law_a_path_has_its_name_and_folder(root, key);
    law_a_path_has_its_name_and_folder(dir, name);
    law_a_name_has_its_extension(tag, ext);
    reveal_strlit(".");
    assert(tag + seq!['.'] + ext =~= name);
    assert(parent_of(joined(dir, name)) == Some(dir));
    assert(name_of(dir) == Some(key));
    assert(stem_of(joined(dir, name)) == Some(tag));
}

proof fn lemma_folder(root: Seq<char>, key: Seq<char>)
    requires
        root.len() > 0,
        root.last() != '/',
        key.len() > 0,
        !key.contains('/'),
    ensures
        joined(root, key).len() > 0,
        joined(root, key).last() != '/',
{
    reveal_strlit("/");
    assert(key.contains(key[0]));
    assert(key.contains(key[key.len() - 1]));
    assert(joined(root, key) =~= root + seq!['/'] + key);
    assert(joined(root, key).last() == key.last());
}

proof fn lemma_chapter_file(ci: nat, ext: Seq<char>)
    requires
        !ext.contains('/'),
    ensures
        chapter_name(ci).len() > 0,
        ({
            let name = chapter_name(ci) + "."@ + ext;
            &&& name.len() > 0
            &&& !name.contains('/')
            &&& name != "."@
            &&& name != ".."@
        }),
{
    reveal_strlit("ch");
    reveal_strlit(".");
    reveal_strlit("..");
    lemma_padded(ci, 3);
    let tag = chapter_name(ci);
    let d = padded(decimal(ci), 3);
    let name = tag + "."@ + ext;
    assert forall|i: int| 0 <= i < name.len() implies name[i] != '/' by {
        if i < 2 {
            assert(name[i] == "ch"@[i]);
        } else if i < tag.len() {
            assert(name[i] == d[i - 2]);
            assert(is_digit(d[i - 2]));
        } else if i > tag.len() {
            assert(name[i] == ext[i - tag.len() - 1]);
            assert(ext.contains(ext[i - tag.len() - 1]));
        }
    }
    assert(name[0] == 'c');
    assert("."@[0] == '.' && ".."@[0] == '.');
}

/// A book is a file whose name ends in `.epub`, in capitals or not, with something
/// before it.
pub proof fn law_books_end_in_epub(dir: Seq<char>, a: Seq<char>, x: Seq<char>)
    requires
        dir.len() > 0,
        dir.last() != '/',
        a.len() > 0,
        !a.contains('/'),
        !x.contains('/'),
        !x.contains('.'),
        x.len() > 0,
    ensures
        epub_path(joined(dir, a + seq!['.'] + x)) <==> lowered_text(x) == "epub"@,
{
    reveal_strlit(".");
    reveal_strlit("..");
    let name = a + seq!['.'] + x;
    assert(!name.contains('/')) by {
        assert forall|i: int| 0 <= i < name.len() implies name[i] != '/' by {
            if i < a.len() {
                assert(a.contains(a[i]));
            } else if i > a.len() {
                assert(x.contains(x[i - a.len() - 1]));
            }
        }
    }
    assert(name != "."@ && name != ".."@) by {
        assert(name.len() >= 3);
        assert("."@.len() == 1 && ".."@.len() == 2);
    }
    law_a_path_has_its_name_and_folder(dir, name);
    law_a_name_has_its_extension(a, x);
}

/// A complaint is the last line of what was printed, white space at the ends left out,
/// or that nothing was said.
pub proof fn law_a_complaint_is_the_last_line(printed: Seq<char>)
    ensures
        trim_of(printed).len() > 0 ==> {
            &&& !last_line(printed).contains('\n')
            &&& exists|before: Seq<char>|
                trim_of(printed) == #[trigger] (before + last_line(printed)) && (before.len() == 0
                    || before.last() == '\n')
        },
{
    let t = trim_of(printed);
    if t.len() > 0 {
        let before = lemma_last_piece(t, '\n', 0);
        assert(t.skip(0) =~= t);
        assert(t == before + last_line(printed));
    }
}

proof fn lemma_last_piece(s: Seq<char>, c: char, i: int) -> (before: Seq<char>)
    requires
        0 <= i <= s.len(),
    ensures
        split_from(s, c, i).len() > 0,
        !split_from(s, c, i).last().contains(c),
        s.skip(i) == before + split_from(s, c, i).last(),
        before.len() == 0 || before.last() == c,
    decreases s.len() - i,
{
    lemma_run_end(s, other_than(c), i);
    let e = crate::chars::index_of(s, c, i);
    let all = split_from(s, c, i);
    if e >= s.len() {
        let p = s.subrange(i, s.len() as int);
        assert(all =~= seq![p]);
        assert forall|k: int| 0 <= k < p.len() implies p[k] != c by {
            assert(other_than(c)(s[i + k]));
        }
        assert(s.skip(i) =~= Seq::<char>::empty() + p);
        Seq::empty()
    } else {
        let before = lemma_last_piece(s, c, e + 1);
        let rest = split_from(s, c, e + 1);
        assert(all == seq![s.subrange(i, e)] + rest);
        assert(all.last() == rest.last());
        let front = s.subrange(i, e + 1) + before;
        assert(s.skip(i) =~= s.subrange(i, e + 1) + s.skip(e + 1));
        assert(s.skip(i) =~= front + rest.last());
        assert(front.last() == c) by {
            if before.len() == 0 {
                assert(front =~= s.subrange(i, e + 1));
                assert(s[e] == c);
            } else {
                assert(front.last() == before.last());
            }
        }
        front
    }
}

/// What is missing is named by the first eight titles, the first forty characters of
/// each.
pub proof fn law_the_first_eight_are_named(missing: Seq<Seq<char>>)
    ensures
        missing.len() <= 8 ==> some_names(missing) == join(
            missing.map_values(|t: Seq<char>| if t.len() <= 40 { t } else { t.take(40) }),
            ", "@,
        ),
        missing.len() > 8 ==> some_names(missing) == some_names(missing.take(8)),
{
    let f = |t: Seq<char>| if t.len() <= 40 { t } else { t.take(40) };
    if missing.len() <= 8 {
        assert(Seq::new(missing.len(), |i: int| first(missing[i], 40)) =~= missing.map_values(f));
    } else {
        let some = missing.take(8);
        assert(Seq::new(8, |i: int| first(missing[i], 40)) =~= Seq::new(
            some.len(),
            |i: int| first(some[i], 40),
        ));
    }
}

// ------------------------------------------------------------------------ the spaces

proof fn lemma_word_pieces(s: Seq<char>, i: int)
    requires
        0 <= i <= s.len(),
    ensures
        forall|k: int|
            0 <= k < words_from(s, spaces(), i).len() ==> (#[trigger] words_from(
                s,
                spaces(),
                i,
            )[k]).len() > 0 && !words_from(s, spaces(), i)[k].contains(' '),
    decreases s.len() - i,
{
    let p = spaces();
    lemma_run_end(s, p, i);
    let all = words_from(s, p, i);
    if run_end(s, p, i) < s.len() {
        let a = run_end(s, p, i);
        lemma_run_end(s, none_of(p), a + 1);
        let b = run_end(s, none_of(p), a + 1);
        lemma_word_pieces(s, b);
        let rest = words_from(s, p, b);
        assert(all == seq![s.subrange(a, b)] + rest);
        assert forall|k: int| 0 <= k < all.len() implies (#[trigger] all[k]).len() > 0
            && !all[k].contains(' ') by {
            if k == 0 {
                let w = s.subrange(a, b);
                assert forall|j: int| 0 <= j < w.len() implies w[j] != ' ' by {
                    if j > 0 {
                        assert(none_of(p)(s[a + j]));
                    }
                }
            } else {
                assert(all[k] == rest[k - 1]);
            }
        }
    }
}

/// Whether no two spaces stand together in `s`, and none at its ends.
pub open spec fn spaced_once(s: Seq<char>) -> bool {
    &&& s.len() > 0 ==> s[0] != ' ' && s.last() != ' '
    &&& forall|i: int, j: int|
        0 <= i < j < s.len() && j == i + 1 && #[trigger] s[i] == ' ' ==> #[trigger] s[j] != ' '
}

proof fn lemma_spaced_once(parts: Seq<Seq<char>>)
    requires
        forall|k: int|
            0 <= k < parts.len() ==> (#[trigger] parts[k]).len() > 0 && !parts[k].contains(' '),
    ensures
        spaced_once(join(parts, " "@)),
        parts.len() > 0 ==> join(parts, " "@).len() > 0,
    decreases parts.len(),
{
    reveal_strlit(" ");
    if parts.len() == 1 {
        let w = parts[0];
        assert forall|i: int| 0 <= i < w.len() implies w[i] != ' ' by {
            assert(w.contains(w[i]));
        }
    } else if parts.len() > 1 {
        let before = parts.drop_last();
        assert forall|k: int| 0 <= k < before.len() implies (#[trigger] before[k]).len() > 0
            && !before[k].contains(' ') by {
            assert(before[k] == parts[k]);
        }
        lemma_spaced_once(before);
        let x = join(before, " "@);
        let w = parts.last();
        assert(parts[parts.len() - 1] == w);
        let s = join(parts, " "@);
        assert(s == x + " "@ + w);
        assert forall|i: int| 0 <= i < w.len() implies w[i] != ' ' by {
            assert(w.contains(w[i]));
        }
        assert(s.last() == w.last());
        assert(w.last() != ' ');
        assert(s[0] == x[0]);
        assert forall|i: int, j: int|
            0 <= i < j < s.len() && j == i + 1 && #[trigger] s[i] == ' ' implies #[trigger] s[j]
            != ' ' by {
            if j < x.len() {
                assert(s[i] == x[i] && s[j] == x[j]);
            } else if j == x.len() {
                assert(s[i] == x.last());
            } else {
                assert(s[j] == w[j - x.len() - 1]);
            }
        }
    }
}

/// What is said has one space between each two words and none at its ends, and the words
/// are all there, each as it was.
pub proof fn law_words_are_spaced_once(s: Seq<char>)
    ensures
        spaced_once(single_spaced(s)),
        single_spaced(s) == join(words_from(s, spaces(), 0), " "@),
{
    lemma_word_pieces(s, 0);
    lemma_spaced_once(words_from(s, spaces(), 0));
}

} // verus!
