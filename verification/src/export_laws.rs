//! What an export holds, said of the book that goes into it.

use vstd::prelude::*;
use crate::book::{shown_title, ChapterView};
use crate::chapters::concat_line_of;
use crate::chars::signed_decimal;
use crate::export::{debug_of, default_args, escaped, file_lines, is_number_text, join_lines_upto, marks_upto, missing_upto, packed_upto, parsed_from, pieces_upto, safe_name_of, unsafe_char, ExportView, Mark, PackedView, Piece};
use crate::rows::{lemma_pick_none, lemma_pick_push};
use crate::text_laws::law_trimming_takes_the_ends;
use crate::chars::{trim_of, whites, white_space};

verus! {

// ------------------------------------------------------------------------- pieces

/// Whether chunk `i` stands where it belongs, every second piece being a silence.
pub open spec fn chunk_placed(p: Seq<Piece>, i: int) -> bool {
    p[2 * i] == Piece::Chunk(i as usize)
}

/// Whether the right silence stands before chunk `i`.
pub open spec fn silence_placed(c: ChapterView, p: Seq<Piece>, i: int) -> bool {
    p[2 * i - 1] == if c.chunks[i].para == c.chunks[i - 1].para {
        Piece::Gap
    } else {
        Piece::ParaGap
    }
}

proof fn lemma_pieces(c: ChapterView, n: nat)
    requires
        n <= c.chunks.len() <= usize::MAX,
    ensures
        ({
            let p = pieces_upto(c, n);
            &&& p.len() == if n == 0 {
                0
            } else {
                2 * n - 1
            }
            &&& forall|i: int| 0 <= i < n ==> #[trigger] chunk_placed(p, i)
            &&& forall|i: int| 0 < i < n ==> #[trigger] silence_placed(c, p, i)
        }),
    decreases n,
{
    if n > 0 {
        lemma_pieces(c, (n - 1) as nat);
        let before = pieces_upto(c, (n - 1) as nat);
        let p = pieces_upto(c, n);
        assert forall|i: int| 0 <= i < n implies #[trigger] chunk_placed(p, i) by {
            if i < n - 1 {
                assert(chunk_placed(before, i));
            }
        }
        assert forall|i: int| 0 < i < n implies #[trigger] silence_placed(c, p, i) by {
            if i < n - 1 {
                assert(silence_placed(c, before, i));
            }
        }
    }
}

/// A chapter of `n` chunks has each of them once and in order, one silence between
/// each two and none at the ends: the long one where a paragraph ends, else the short.
pub proof fn law_every_chunk_has_its_place(c: ChapterView)
    requires
        c.chunks.len() <= usize::MAX,
    ensures
        ({
            let n = c.chunks.len();
            let p = pieces_upto(c, n);
            &&& p.len() == if n == 0 {
                0
            } else {
                2 * n - 1
            }
            &&& forall|i: int| 0 <= i < n ==> #[trigger] chunk_placed(p, i)
            &&& forall|i: int| 0 < i < n ==> #[trigger] silence_placed(c, p, i)
        }),
{
    lemma_pieces(c, c.chunks.len());
}

/// The places of a book's chapters, in order.
pub open spec fn places(plan: Seq<ChapterView>) -> Seq<int> {
    Seq::new(plan.len(), |i: int| i)
}

/// A chapter goes into the book where it has chunks and all of them can be read; each
/// that does goes in once, in order, under its own title and with its own pieces, and
/// each that does not is named as missing, in order too.
pub proof fn law_every_whole_chapter_goes_in(plan: Seq<ChapterView>, readable: Seq<usize>)
    requires
        readable.len() == plan.len(),
    ensures
        ({
            let whole = |i: int|
                plan[i].chunks.len() > 0 && readable[i] >= plan[i].chunks.len();
            &&& packed_upto(plan, readable, plan.len()) == places(plan).filter(whole).map_values(
                |i: int|
                    PackedView {
                        index: plan[i].index,
                        title: shown_title(plan[i]),
                        pieces: pieces_upto(plan[i], plan[i].chunks.len()),
                    },
            )
            &&& missing_upto(plan, readable, plan.len()) == places(plan).filter(
                |i: int| !whole(i),
            ).map_values(|i: int| shown_title(plan[i]))
            &&& packed_upto(plan, readable, plan.len()).len() + missing_upto(
                plan,
                readable,
                plan.len(),
            ).len() == plan.len()
        }),
{
    let whole = |i: int| plan[i].chunks.len() > 0 && readable[i] >= plan[i].chunks.len();
    let f = |i: int|
        PackedView {
            index: plan[i].index,
            title: shown_title(plan[i]),
            pieces: pieces_upto(plan[i], plan[i].chunks.len()),
        };
    lemma_whole_chapters(plan, readable, plan.len());
    lemma_pick_none(places(plan), whole, f);
}

proof fn lemma_whole_chapters(plan: Seq<ChapterView>, readable: Seq<usize>, n: nat)
    requires
        readable.len() == plan.len(),
        n <= plan.len(),
    ensures
        ({
            let whole = |i: int|
                plan[i].chunks.len() > 0 && readable[i] >= plan[i].chunks.len();
            let some = places(plan).take(n as int);
            &&& packed_upto(plan, readable, n) == some.filter(whole).map_values(
                |i: int|
                    PackedView {
                        index: plan[i].index,
                        title: shown_title(plan[i]),
                        pieces: pieces_upto(plan[i], plan[i].chunks.len()),
                    },
            )
            &&& missing_upto(plan, readable, n) == some.filter(|i: int| !whole(i)).map_values(
                |i: int| shown_title(plan[i]),
            )
            &&& packed_upto(plan, readable, n).len() + missing_upto(plan, readable, n).len() == n
        }),
    decreases n,
{
    let whole = |i: int| plan[i].chunks.len() > 0 && readable[i] >= plan[i].chunks.len();
    let not = |i: int| !whole(i);
    let f = |i: int|
        PackedView {
            index: plan[i].index,
            title: shown_title(plan[i]),
            pieces: pieces_upto(plan[i], plan[i].chunks.len()),
        };
    let g = |i: int| shown_title(plan[i]);
    lemma_pick_none(places(plan), whole, f);
    lemma_pick_none(places(plan), not, g);
    if n > 0 {
        lemma_whole_chapters(plan, readable, (n - 1) as nat);
        lemma_pick_push(places(plan), n as int, whole, f);
        lemma_pick_push(places(plan), n as int, not, g);
    }
}

// ---------------------------------------------------------------------- the marks

/// Whether the lines of the mark `m` stand where those of the mark at `k` belong.
pub open spec fn mark_placed(lines: Seq<Seq<char>>, m: Mark, k: int) -> bool {
    &&& lines[5 * k] == "[CHAPTER]"@
    &&& lines[5 * k + 1] == "TIMEBASE=1/1000"@
    &&& lines[5 * k + 2] == "START="@ + signed_decimal(m.start_ms as int)
    &&& lines[5 * k + 3] == "END="@ + signed_decimal(m.end_ms as int)
    &&& lines[5 * k + 4] == "title="@ + escaped(m.title@)
}

proof fn lemma_marks(marks: Seq<Mark>, n: nat)
    requires
        n <= marks.len(),
    ensures
        ({
            let lines = marks_upto(marks, n);
            &&& lines.len() == 5 * n
            &&& forall|k: int|
                0 <= k < n ==> #[trigger] mark_placed(lines, marks[k], k)
        }),
    decreases n,
{
    if n > 0 {
        lemma_marks(marks, (n - 1) as nat);
        let before = marks_upto(marks, (n - 1) as nat);
        let lines = marks_upto(marks, n);
        assert forall|k: int| 0 <= k < n implies #[trigger] mark_placed(lines, marks[k], k) by {
            if k < n - 1 {
                assert(mark_placed(before, marks[k], k));
            }
        }
    }
}

/// Every chapter has its mark, in order: five lines, with where it starts and ends in
/// thousandths of a second and its own title.
pub proof fn law_every_chapter_is_marked(marks: Seq<Mark>)
    ensures
        ({
            let lines = marks_upto(marks, marks.len());
            &&& lines.len() == 5 * marks.len()
            &&& forall|k: int|
                0 <= k < marks.len() ==> #[trigger] mark_placed(lines, marks[k], k)
        }),
{
    lemma_marks(marks, marks.len());
}

// ------------------------------------------------------------------- what is joined

proof fn lemma_lines_before(
    a: Seq<Vec<String>>,
    b: Seq<Vec<String>>,
    between: Seq<char>,
    n: nat,
)
    requires
        n <= a.len(),
        b.len() > 0,
    ensures
        join_lines_upto(a + b, between, n) == if n < a.len() {
            join_lines_upto(a, between, n)
        } else if n == 0 {
            Seq::empty()
        } else {
            join_lines_upto(a, between, n).push(concat_line_of(between))
        },
    decreases n,
{
    if n > 0 {
        lemma_lines_before(a, b, between, (n - 1) as nat);
        assert((a + b)[n - 1] == a[n - 1]);
    }
}

proof fn lemma_lines_after(
    a: Seq<Vec<String>>,
    b: Seq<Vec<String>>,
    between: Seq<char>,
    n: nat,
)
    requires
        n <= b.len(),
        a.len() > 0,
        b.len() > 0,
    ensures
        join_lines_upto(a + b, between, a.len() + n) == join_lines_upto(a, between, a.len()).push(
            concat_line_of(between),
        ) + join_lines_upto(b, between, n),
    decreases n,
{
    lemma_lines_before(a, b, between, a.len());
    if n > 0 {
        lemma_lines_after(a, b, between, (n - 1) as nat);
        assert((a + b)[a.len() + n - 1] == b[n - 1]);
    }
}

/// Joining two lists of chapters joins the one, then a silence, then the other; and a
/// list of one chapter is its files, one line each and in order, with no silence.
pub proof fn law_chapters_join_with_a_silence(
    a: Seq<Vec<String>>,
    b: Seq<Vec<String>>,
    one: Vec<String>,
    between: Seq<char>,
)
    requires
        a.len() > 0,
        b.len() > 0,
    ensures
        join_lines_upto(a + b, between, a.len() + b.len()) == join_lines_upto(
            a,
            between,
            a.len(),
        ) + seq![concat_line_of(between)] + join_lines_upto(b, between, b.len()),
        join_lines_upto(seq![one], between, 1).len() == one@.len(),
        forall|i: int|
            0 <= i < one@.len() ==> #[trigger] join_lines_upto(seq![one], between, 1)[i]
                == concat_line_of(one@[i]@),
{
    lemma_lines_after(a, b, between, b.len());
    let x = join_lines_upto(a, between, a.len());
    let y = join_lines_upto(b, between, b.len());
    assert(x.push(concat_line_of(between)) + y =~= x + seq![concat_line_of(between)] + y);
    let l = join_lines_upto(seq![one], between, 1);
    assert(join_lines_upto(seq![one], between, 0) =~= Seq::<Seq<char>>::empty());
    assert(l =~= file_lines(one@));
}

// -------------------------------------------------------------------- the arguments

proof fn lemma_parsed_on(x: Seq<Seq<char>>, t: Seq<Seq<char>>, i: int, a: ExportView)
    requires
        0 <= i,
        parsed_from(x, i, a) is Ok,
    ensures
        i <= x.len() ==> parsed_from(x + t, i, a) == parsed_from(
            x + t,
            x.len() as int,
            parsed_from(x, i, a)->Ok_0,
        ),
        parsed_from(x, i, a)->Ok_0.book is Some,
    decreases x.len() - i,
{
    if i < x.len() {
        assert((x + t)[i] == x[i]);
        if x[i] == "--partial"@ {
            lemma_parsed_on(x, t, i + 1, ExportView { partial: true, ..a });
        } else {
            assert(i + 1 < x.len());
            assert((x + t)[i + 1] == x[i + 1]);
            lemma_parsed_on(x, t, i + 2, crate::export::with_value(a, x[i], x[i + 1]));
        }
    }
}

/// What one more argument, or one more pair of them, makes of arguments that are
/// accepted: `--partial` says so, each other flag sets its own field to its value and
/// no other field, whatever stood there; a flag without a value is refused, and so are
/// a number that is none and a flag that nobody knows.
pub proof fn law_every_flag_sets_its_field(
    argv: Seq<Seq<char>>,
    work: Seq<char>,
    flag: Seq<char>,
    v: Seq<char>,
)
    requires
        parsed_from(argv, 0, default_args(None, work)) is Ok,
    ensures
        ({
            let a = parsed_from(argv, 0, default_args(None, work))->Ok_0;
            let none = default_args(None, work);
            let more = parsed_from(argv + seq![flag, v], 0, none);
            let bare = parsed_from(argv + seq![flag], 0, none);
            let book = flag == "--book"@ || flag == "--epub"@;
            let number = flag == "--gap"@ || flag == "--para-gap"@ || flag == "--chapter-gap"@;
            let word = flag == "--dir"@ || flag == "--work"@ || flag == "--out"@ || flag
                == "--bitrate"@ || flag == "--title"@ || flag == "--author"@;
            &&& flag == "--partial"@ ==> bare == Ok::<ExportView, Seq<char>>(
                ExportView { partial: true, ..a },
            )
            &&& (book || number || word) && !(number && !is_number_text(v)) ==> {
                &&& more is Ok
                &&& more->Ok_0.book == if book {
                    Some(v)
                } else {
                    a.book
                }
                &&& more->Ok_0.dir == if flag == "--dir"@ {
                    Some(v)
                } else {
                    a.dir
                }
                &&& more->Ok_0.work == if flag == "--work"@ {
                    v
                } else {
                    a.work
                }
                &&& more->Ok_0.out == if flag == "--out"@ {
                    Some(v)
                } else {
                    a.out
                }
                &&& more->Ok_0.bitrate == if flag == "--bitrate"@ {
                    v
                } else {
                    a.bitrate
                }
                &&& more->Ok_0.gap_s == if flag == "--gap"@ {
                    v
                } else {
                    a.gap_s
                }
                &&& more->Ok_0.para_gap_s == if flag == "--para-gap"@ {
                    v
                } else {
                    a.para_gap_s
                }
                &&& more->Ok_0.chapter_gap_s == if flag == "--chapter-gap"@ {
                    v
                } else {
                    a.chapter_gap_s
                }
                &&& more->Ok_0.title == if flag == "--title"@ {
                    Some(v)
                } else {
                    a.title
                }
                &&& more->Ok_0.author == if flag == "--author"@ {
                    Some(v)
                } else {
                    a.author
                }
                &&& more->Ok_0.partial == a.partial
            }
            &&& (book || number || word) ==> bare == Err::<ExportView, Seq<char>>(
                flag + " needs a value"@,
            )
            &&& number && !is_number_text(v) ==> more == Err::<ExportView, Seq<char>>(
                flag + " wants a number, not "@ + debug_of(v),
            )
            &&& !(book || number || word) && flag != "--partial"@ ==> more == Err::<
                ExportView,
                Seq<char>,
            >(
                "unknown argument "@ + debug_of(flag)
                    + " \u{2014} see `narrator export --help`"@,
            )
        }),
{
    lemma_flags_differ();
    let none = default_args(None, work);
    let n = argv.len() as int;
    let two = argv + seq![flag, v];
    let one = argv + seq![flag];
    lemma_parsed_on(argv, seq![flag, v], 0, none);
    lemma_parsed_on(argv, seq![flag], 0, none);
    assert(two[n] == flag && two[n + 1] == v);
    assert(one[n] == flag);
    reveal_with_fuel(parsed_from, 2);
}

proof fn lemma_flags_differ()
    ensures
        "--partial"@ != "--book"@,
        "--partial"@ != "--epub"@,
        "--partial"@ != "--dir"@,
        "--partial"@ != "--work"@,
        "--partial"@ != "--out"@,
        "--partial"@ != "--bitrate"@,
        "--partial"@ != "--title"@,
        "--partial"@ != "--author"@,
        "--partial"@ != "--gap"@,
        "--partial"@ != "--para-gap"@,
        "--partial"@ != "--chapter-gap"@,
        "--book"@ != "--dir"@,
        "--book"@ != "--work"@,
        "--book"@ != "--out"@,
        "--book"@ != "--bitrate"@,
        "--book"@ != "--title"@,
        "--book"@ != "--author"@,
        "--epub"@ != "--dir"@,
        "--epub"@ != "--work"@,
        "--epub"@ != "--out"@,
        "--epub"@ != "--bitrate"@,
        "--epub"@ != "--title"@,
        "--epub"@ != "--author"@,
        "--dir"@ != "--work"@,
        "--dir"@ != "--out"@,
        "--work"@ != "--out"@,
        "--gap"@ != "--book"@,
        "--gap"@ != "--epub"@,
        "--gap"@ != "--dir"@,
        "--gap"@ != "--work"@,
        "--gap"@ != "--out"@,
        "--gap"@ != "--bitrate"@,
        "--gap"@ != "--title"@,
        "--gap"@ != "--author"@,
        "--gap"@ != "--para-gap"@,
        "--gap"@ != "--chapter-gap"@,
        "--para-gap"@ != "--book"@,
        "--para-gap"@ != "--epub"@,
        "--para-gap"@ != "--dir"@,
        "--para-gap"@ != "--work"@,
        "--para-gap"@ != "--out"@,
        "--para-gap"@ != "--bitrate"@,
        "--para-gap"@ != "--title"@,
        "--para-gap"@ != "--author"@,
        "--para-gap"@ != "--chapter-gap"@,
        "--chapter-gap"@ != "--book"@,
        "--chapter-gap"@ != "--epub"@,
        "--chapter-gap"@ != "--dir"@,
        "--chapter-gap"@ != "--work"@,
        "--chapter-gap"@ != "--out"@,
        "--chapter-gap"@ != "--bitrate"@,
        "--chapter-gap"@ != "--title"@,
        "--chapter-gap"@ != "--author"@,
        "--bitrate"@ != "--dir"@,
        "--bitrate"@ != "--work"@,
        "--bitrate"@ != "--out"@,
        "--bitrate"@ != "--title"@,
        "--bitrate"@ != "--author"@,
        "--title"@ != "--dir"@,
        "--title"@ != "--work"@,
        "--title"@ != "--out"@,
        "--title"@ != "--author"@,
        "--author"@ != "--dir"@,
        "--author"@ != "--work"@,
        "--author"@ != "--out"@,
{
    reveal_strlit("--partial");
    reveal_strlit("--book");
    reveal_strlit("--epub");
    reveal_strlit("--dir");
    reveal_strlit("--work");
    reveal_strlit("--out");
    reveal_strlit("--bitrate");
    reveal_strlit("--title");
    reveal_strlit("--author");
    reveal_strlit("--gap");
    reveal_strlit("--para-gap");
    reveal_strlit("--chapter-gap");
    assert("--partial"@[2] == 'p' && "--book"@[2] == 'b' && "--epub"@[2] == 'e' && "--dir"@[2]
        == 'd' && "--work"@[2] == 'w' && "--out"@[2] == 'o' && "--bitrate"@[2] == 'b'
        && "--title"@[2] == 't' && "--author"@[2] == 'a' && "--gap"@[2] == 'g' && "--para-gap"@[2]
        == 'p' && "--chapter-gap"@[2] == 'c');
    assert("--partial"@.len() == 9 && "--para-gap"@.len() == 10);
    assert("--book"@.len() == 6 && "--bitrate"@.len() == 9);
}

/// The book alone is enough, and nothing at all is not.
pub proof fn law_a_book_is_needed(book: Seq<char>, work: Seq<char>)
    ensures
        parsed_from(seq!["--book"@, book], 0, default_args(None, work)) == Ok::<
            ExportView,
            Seq<char>,
        >(default_args(Some(book), work)),
        parsed_from(Seq::empty(), 0, default_args(None, work)) == Err::<ExportView, Seq<char>>(
            "which book? pass --book <path to the epub>"@,
        ),
{
    lemma_flags_differ();
    reveal_with_fuel(parsed_from, 2);
}

// ------------------------------------------------------------------------ the name

/// A name for a file holds nothing that a file's name may not, is never empty, and has
/// no white space at its ends; and a title that is such a name already is kept.
pub proof fn law_names_are_safe(title: Seq<char>)
    ensures
        ({
            let name = safe_name_of(title);
            &&& name.len() > 0
            &&& forall|i: int| 0 <= i < name.len() ==> !unsafe_char(#[trigger] name[i])
            &&& !white_space(name[0]) && !white_space(name.last())
            &&& title.len() > 0 && !white_space(title[0]) && !white_space(title.last()) && (forall|
                i: int,
            |
                0 <= i < title.len() ==> !unsafe_char(#[trigger] title[i])) ==> name == title
        }),
{
    reveal_strlit("audiobook");
    let swap = |c: char|
        if unsafe_char(c) {
            '-'
        } else {
            c
        };
    let m = title.map_values(swap);
    let ends = law_trimming_takes_the_ends(m, whites());
    let t = trim_of(m);
    let name = safe_name_of(title);
    if t.len() > 0 {
        assert(name == t);
        assert forall|i: int| 0 <= i < name.len() implies !unsafe_char(#[trigger] name[i]) by {
            assert(name[i] == m[ends.0 + i]);
        }
        assert(name[0] == m[ends.0]);
        assert(name.last() == m[ends.1 - 1]);
    }
    if title.len() > 0 && !white_space(title[0]) && !white_space(title.last()) && (forall|i: int|
        0 <= i < title.len() ==> !unsafe_char(#[trigger] title[i])) {
        assert(m =~= title);
        assert(ends.0 == 0);
        assert(ends.1 == m.len());
        assert(t =~= title);
    }
}

} // verus!
