//! That what a list shows is all of it, item by item, and what small readings come to.

use vstd::prelude::*;
use crate::api::chapters::{cancels, chapters_in, named, stays_elsewhere, wanted_of};
use crate::api::notes::{chunk_pieces, chunks_at, text_pieces};
use crate::book::{chapter_views, chunk_views, raw_views, shown_title, Chapter, ChapterView, Chunk, RawChapter};
use crate::cache::{chapter_dir_of, chunk_of_name};
use crate::chapters::ChapterId;
use crate::chars::{decimal, lowered_text, spelled, swapped, texts, trim_of, without};
use crate::config::{flag_or, text_or, var_of, word_or, Vars};
use crate::disk_laws::law_every_chunk_file_counts;
use crate::export::{escaped, marks_upto, metadata_of, packed_views, Mark, Packed};
use crate::library::{adopted, index_row, looked_at, Seen};
use crate::rows::views;
use crate::state::dirs_of;
use crate::store::{BookRowView, IntentRowView};

verus! {

// -------------------------------------------------------------------------- lists

/// A list shows as many items as it holds, each in its place and as it is.
pub proof fn law_a_list_shows_every_item<T: View>(
    v: Seq<T>,
    t: Seq<String>,
    s: Seq<Vec<char>>,
    i: int,
)
    ensures
        views(v).len() == v.len(),
        0 <= i < v.len() ==> views(v)[i] == v[i]@,
        texts(t).len() == t.len(),
        0 <= i < t.len() ==> texts(t)[i] == t[i]@,
        spelled(s).len() == s.len(),
        0 <= i < s.len() ==> spelled(s)[i] == s[i]@,
{
}

/// So does a plan, with all that its chapters and their chunks hold.
pub proof fn law_a_plan_shows_every_chapter(
    plan: Seq<Chapter>,
    chunks: Seq<Chunk>,
    raw: Seq<RawChapter>,
    packed: Seq<Packed>,
    i: int,
)
    ensures
        chapter_views(plan).len() == plan.len(),
        0 <= i < plan.len() ==> {
            let c = chapter_views(plan)[i];
            &&& c.index == plan[i].index
            &&& c.id == plan[i].id@
            &&& c.title == plan[i].title@
            &&& c.chunks == chunk_views(plan[i].chunks@)
        },
        chunk_views(chunks).len() == chunks.len(),
        0 <= i < chunks.len() ==> {
            let c = chunk_views(chunks)[i];
            &&& c.text == chunks[i].text@
            &&& c.para == chunks[i].para
            &&& c.silent == chunks[i].silent
        },
        raw_views(raw).len() == raw.len(),
        0 <= i < raw.len() ==> {
            let r = raw_views(raw)[i];
            &&& r.id == raw[i].id@
            &&& r.title == raw[i].title@
            &&& r.paragraphs == texts(raw[i].paragraphs@)
        },
        packed_views(packed).len() == packed.len(),
        0 <= i < packed.len() ==> {
            let p = packed_views(packed)[i];
            &&& p.index == packed[i].index
            &&& p.title == packed[i].title@
            &&& p.pieces == packed[i].pieces@
        },
{
}

// --------------------------------------------------------------------- characters

/// Swapping a character for another, or lowering capitals, goes by characters and leaves
/// every other as it is; leaving one out keeps the others in order.
pub proof fn law_characters_change_one_by_one(s: Seq<char>, from: char, to: char, i: int)
    requires
        0 <= i < s.len(),
    ensures
        swapped(s, from, to).len() == s.len(),
        swapped(s, from, to)[i] == if s[i] == from {
            to
        } else {
            s[i]
        },
        lowered_text(s).len() == s.len(),
        !('A' <= s[i] <= 'Z') ==> lowered_text(s)[i] == s[i],
        s[i] == 'A' ==> lowered_text(s)[i] == 'a',
        s[i] == 'Z' ==> lowered_text(s)[i] == 'z',
        'A' <= s[i] <= 'Z' ==> lowered_text(s)[i] as int == s[i] as int + 32,
        without(s, from) == s.filter(|c: char| c != from),
{
    assert(crate::chars::other_than(from) =~= (|c: char| c != from));
    lemma_lowered(s[i]);
}

proof fn lemma_lowered(c: char)
    ensures
        'A' <= c <= 'Z' ==> crate::chars::lowered(c) as int == c as int + 32,
{
}

// ---------------------------------------------------------------------- directories

/// What is kept of the cache is the folder of each chapter that is to be kept, and no
/// other.
pub proof fn law_the_folders_of_chapters(work: Seq<char>, ids: Set<ChapterId>, dir: Seq<char>)
    ensures
        dirs_of(work, ids).contains(dir) <==> exists|id: ChapterId| #[trigger]
            ids.contains(id) && dir == chapter_dir_of(work, id.0, id.1 as nat),
{
    let f = |id: ChapterId| chapter_dir_of(work, id.0, id.1 as nat);
    if dirs_of(work, ids).contains(dir) {
        let id = choose|id: ChapterId| ids.contains(id) && dir == f(id);
        assert(ids.contains(id));
    }
    if exists|id: ChapterId| #[trigger]
        ids.contains(id) && dir == chapter_dir_of(work, id.0, id.1 as nat) {
        let id = choose|id: ChapterId| #[trigger]
            ids.contains(id) && dir == chapter_dir_of(work, id.0, id.1 as nat);
        assert(dir == f(id));
        assert(ids.map(f).contains(f(id)));
    }
}

// ------------------------------------------------------------------------- library

/// What the index says of a chapter is what was seen of it: how many chunks it has, how
/// many of them are there, and that it is packed where there is a packed file and its
/// manifest, where that can be read, is of as many chunks.
pub proof fn law_a_row_says_what_was_seen(ci: int, ch: Chapter, seen: Seen, now: i64)
    requires
        0 <= ci <= usize::MAX,
        ch.chunks@.len() <= usize::MAX,
        seen.names@.len() <= usize::MAX,
    ensures
        ({
            let r = index_row(ci, ch, seen, now);
            let n = ch.chunks@.len();
            &&& r.chapter == ci
            &&& r.n == n
            &&& r.rendered == texts(seen.names@).filter(
                |name: Seq<char>| chunk_of_name(name) is Some && chunk_of_name(name)->0 < n,
            ).len()
            &&& r.m4a ==> seen.bytes is Some
            &&& seen.bytes is Some && seen.manifest is None ==> r.m4a
            &&& seen.bytes is Some && seen.manifest is Some ==> (r.m4a <==> ({
                let (chunks, _) = seen.manifest->0;
                chunks == n
            }))
            &&& r.bytes == seen.bytes
            &&& r.title == shown_title(ch@)
            &&& r.scanned_ms == now
        }),
{
    let n = ch.chunks@.len();
    law_every_chunk_file_counts(texts(seen.names@), n);
    texts(seen.names@).lemma_filter_len(
        |name: Seq<char>| chunk_of_name(name) is Some && chunk_of_name(name)->0 < n,
    );
}

/// A look at a book that is on record keeps its name, its path and its title, and says
/// when it was and how long the book is; a book that is not is adopted under its key.
pub proof fn law_a_look_keeps_what_is_known(
    was: BookRowView,
    chapters: usize,
    epub: Option<Seq<char>>,
    now: i64,
)
    ensures
        ({
            let b = looked_at(Some(was), was.key, chapters, epub, now);
            &&& b.key == was.key && b.name == was.name && b.path == was.path && b.title == was.title
            &&& b.chapters == chapters
            &&& b.scanned_ms == Some(now)
        }),
        ({
            let b = looked_at(None, was.key, chapters, epub, now);
            &&& b == adopted(was.key, chapters, epub, now)
            &&& b.key == was.key
            &&& b.chapters == chapters
            &&& epub is None ==> b.name == was.key && b.title == was.key
            &&& epub is Some ==> b.path == epub->0
        }),
{
}

// --------------------------------------------------------------------- calling off

/// A request that names no chapter calls off everything; one that does calls off those
/// that the book has. A chapter of another book that is called off is not packed, unless
/// that is being done; and nothing else is let go.
pub proof fn law_what_is_called_off(
    chapters: Option<Vec<i64>>,
    n: int,
    waiting: Seq<ChapterId>,
    key: Seq<char>,
    dropped: Seq<usize>,
    packing: Option<ChapterId>,
    id: ChapterId,
)
    ensures
        named(chapters).len() == 0 ==> cancels(chapters, n) is None,
        named(chapters).len() > 0 ==> cancels(chapters, n) == Some(wanted_of(chapters, n)),
        waiting.filter(stays_elsewhere(key, dropped, packing)).contains(id) <==> waiting.contains(
            id,
        ) && !(id.0 == key && dropped.contains(id.1) && packing != Some(id)),
{
    let p = stays_elsewhere(key, dropped, packing);
    if waiting.filter(p).contains(id) {
        let k = waiting.filter(p).index_of(id);
        waiting.lemma_filter_pred(p, k);
        waiting.lemma_filter_contains_rev(p, id);
    }
    if waiting.contains(id) && p(id) {
        let k = waiting.index_of(id);
        waiting.lemma_filter_contains(p, k);
    }
}

/// The chapters of some orders are theirs, one for each.
pub proof fn law_every_order_names_its_chapter(rows: Seq<IntentRowView>, i: int)
    ensures
        chapters_in(rows).len() == rows.len(),
        0 <= i < rows.len() ==> chapters_in(rows)[i] == rows[i].chapter,
{
}

// --------------------------------------------------------------------------- memos

/// The pieces that a note may quote are the chunks of its chapter, each with its text;
/// a silent one, or one that is only white space, is not spoken. A chapter that the book
/// does not have has none.
pub proof fn law_pieces_are_the_chunks(
    plan: Seq<ChapterView>,
    ci: int,
    written: Seq<Seq<char>>,
    i: int,
)
    ensures
        !(0 <= ci < plan.len()) ==> chunks_at(plan, ci).len() == 0,
        0 <= ci < plan.len() ==> {
            &&& chunk_pieces(chunks_at(plan, ci)).len() == plan[ci].chunks.len()
            &&& 0 <= i < plan[ci].chunks.len() ==> chunk_pieces(chunks_at(plan, ci))[i] == (
                plan[ci].chunks[i].text,
                !plan[ci].chunks[i].silent,
            )
        },
        text_pieces(written).len() == written.len(),
        0 <= i < written.len() ==> text_pieces(written)[i] == (
            written[i],
            trim_of(written[i]).len() > 0,
        ),
{
}

// ------------------------------------------------------------------------- settings

/// A number is read where one is written, and is what it was without one otherwise; a
/// switch is on with a `1` and off with anything else; a text is what is written, where
/// anything is.
pub proof fn law_settings_are_read(vars: Vars, key: Seq<char>, n: usize, usual: usize, on: bool, text: Seq<char>)
    ensures
        var_of(vars, key) == Some(decimal(n as nat)) ==> word_or(vars, key, usual) == n,
        var_of(vars, key) is None ==> word_or(vars, key, usual) == usual && flag_or(vars, key, on)
            == on && text_or(vars, key, text) == text,
        var_of(vars, key) is Some ==> (flag_or(vars, key, on) <==> var_of(vars, key)->0 == "1"@)
            && text_or(vars, key, text) == var_of(vars, key)->0,
{
    crate::chars::lemma_decimal(n as nat);
    let d = decimal(n as nat);
    assert(crate::chars::is_digit(d[0]));
}

// ------------------------------------------------------------------------- metadata

/// The lines that an audiobook's metadata starts with.
pub open spec fn opening(title: Seq<char>, author: Option<Seq<char>>) -> Seq<Seq<char>> {
    let head = seq![
        ";FFMETADATA1"@,
        "title="@ + escaped(title),
        "album="@ + escaped(title),
        "genre=Audiobook"@,
    ];
    if author is Some {
        head.push("artist="@ + escaped(author->0)).push("album_artist="@ + escaped(author->0))
    } else {
        head
    }
}

/// The metadata of an audiobook opens with its title and its author, where it has one,
/// and goes on with the marks of its chapters, a line each and an end of line behind the
/// last.
pub proof fn law_the_metadata_opens_with_the_title(
    title: Seq<char>,
    author: Option<Seq<char>>,
    marks: Seq<Mark>,
)
    ensures
        metadata_of(title, author, marks) == crate::chars::join(
            opening(title, author) + marks_upto(marks, marks.len()),
            "\n"@,
        ) + "\n"@,
{
    let head = seq![
        ";FFMETADATA1"@,
        "title="@ + escaped(title),
        "album="@ + escaped(title),
        "genre=Audiobook"@,
    ];
    assert(head + crate::export::author_lines(author) =~= opening(title, author));
}

} // verus!
