//! One audiobook out of the chunk cache: which chapters go in, in what order
//! their files are joined, and what the encoder is told.

use vstd::prelude::*;
use crate::book::{chapter_views, shown_title, Chapter, ChapterView};
use crate::cache::first;
use crate::chapters::concat_line_of;
use crate::chars::{append, ascii_digit, cat, chars_of, decimal, decimal_text, find_run_end, join, join_chars, lower_chars, lowered_text, opt_text, part, run_end, same, same_text, signed_chars, signed_decimal, spelled, text_of, texts, trim_chars, trim_of};
use crate::export_laws::{chunk_placed, law_every_chunk_has_its_place, silence_placed};
use crate::tts::numbers::digits;

verus! {

/// An export failed.
#[derive(Debug, Clone, PartialEq)]
pub enum ExportError {
    NoPlan(String),
    BadPlan(String),
    NoAudio(String),
    Incomplete(usize, String),
    NothingComplete(String),
    Ffmpeg(String),
    Io(String),
    Usage(String),
}

impl ExportError {
    /// What is shown of the failure.
    pub fn message(&self) -> (r: String)
        ensures
            r@ == match *self {
                ExportError::NoPlan(p) => "no plan.json under "@ + p@
                    + " — open the book in the reader once, or render it"@,
                ExportError::BadPlan(p) => "plan.json in "@ + p@ + " will not parse"@,
                ExportError::NoAudio(p) => "no rendered audio under "@ + p@,
                ExportError::Incomplete(n, e) => decimal(n as nat)
                    + " chapter(s) are not fully rendered ("@ + e@
                    + ") — finish the render, or pass --partial"@,
                ExportError::NothingComplete(p) => "nothing complete to pack under "@ + p@,
                ExportError::Ffmpeg(e) => "ffmpeg: "@ + e@,
                ExportError::Io(e) => "io: "@ + e@,
                ExportError::Usage(e) => e@,
            },
    {
        match self {
            ExportError::NoPlan(p) => cat(
                cat("no plan.json under ", p.as_str()).as_str(),
                " — open the book in the reader once, or render it",
            ),
            ExportError::BadPlan(p) => cat(
                cat("plan.json in ", p.as_str()).as_str(),
                " will not parse",
            ),
            ExportError::NoAudio(p) => cat("no rendered audio under ", p.as_str()),
            ExportError::Incomplete(n, e) => {
                let head = cat(
                    decimal_text(*n as u64).as_str(),
                    " chapter(s) are not fully rendered (",
                );
                cat(
                    cat(head.as_str(), e.as_str()).as_str(),
                    ") — finish the render, or pass --partial",
                )
            },
            ExportError::NothingComplete(p) => cat("nothing complete to pack under ", p.as_str()),
            ExportError::Ffmpeg(e) => cat("ffmpeg: ", e.as_str()),
            ExportError::Io(e) => cat("io: ", e.as_str()),
            ExportError::Usage(e) => e.clone(),
        }
    }
}

// ------------------------------------------------------------------- the numbers

/// A sign in front of a number.
pub open spec fn sign_len(s: Seq<char>, i: int) -> int {
    if 0 <= i < s.len() && (s[i] == '+' || s[i] == '-') {
        1
    } else {
        0
    }
}

/// Where the exponent after a number's digits ends; nothing where there is a
/// broken one.
pub open spec fn exponent_end(s: Seq<char>, i: int) -> Option<int> {
    if 0 <= i < s.len() && (s[i] == 'e' || s[i] == 'E') {
        let a = i + 1 + sign_len(s, i + 1);
        let b = run_end(s, digits(), a);
        if b > a {
            Some(b)
        } else {
            None
        }
    } else {
        Some(i)
    }
}

/// Whether `s` writes a number, as the standard library reads floating point:
/// an optional sign, then an infinity, a not-a-number, or digits around an
/// optional point with an optional exponent.
pub open spec fn is_number_text(s: Seq<char>) -> bool {
    let i = sign_len(s, 0);
    let word = lowered_text(s.skip(i));
    let a = run_end(s, digits(), i);
    let point = 0 <= a < s.len() && s[a] == '.';
    let b = if point {
        run_end(s, digits(), a + 1)
    } else {
        a
    };
    let some_digit = a > i || b > a + 1;
    word == "inf"@ || word == "infinity"@ || word == "nan"@ || (some_digit && exponent_end(s, b)
        == Some(s.len() as int))
}

fn find_sign(v: &[char], i: usize) -> (r: usize)
    requires
        i <= v@.len(),
    ensures
        r == sign_len(v@, i as int),
        i + r <= v@.len(),
{
    if i < v.len() && (v[i] == '+' || v[i] == '-') {
        1
    } else {
        0
    }
}

/// Whether `s` writes a number.
pub fn writes_number(s: &str) -> (r: bool)
    ensures
        r == is_number_text(s@),
{
    let v = chars_of(s);
    let i = find_sign(&v, 0);
    let rest = part(&v, i, v.len());
    assert(rest@ =~= v@.skip(i as int));
    let word = lower_chars(&rest);
    if same(&word, &chars_of("inf")) || same(&word, &chars_of("infinity")) || same(
        &word,
        &chars_of("nan"),
    ) {
        return true;
    }
    let a = find_run_end(&v, ascii_digit, i, Ghost(digits()));
    let point = a < v.len() && v[a] == '.';
    let b = if point {
        find_run_end(&v, ascii_digit, a + 1, Ghost(digits()))
    } else {
        a
    };
    if !(a > i || (point && b > a + 1)) {
        return false;
    }
    if b < v.len() && (v[b] == 'e' || v[b] == 'E') {
        let k = find_sign(&v, b + 1);
        let c = find_run_end(&v, ascii_digit, b + 1 + k, Ghost(digits()));
        c > b + 1 + k && c == v.len()
    } else {
        b == v.len()
    }
}

// ----------------------------------------------------------------- the arguments

/// What to pack, and how. The pauses are numbers, in seconds, as they were
/// written.
#[derive(Debug, Clone, PartialEq)]
pub struct ExportArgs {
    pub book: String,
    pub dir: Option<String>,
    pub work: String,
    pub out: Option<String>,
    pub bitrate: String,
    pub gap_s: String,
    pub para_gap_s: String,
    pub chapter_gap_s: String,
    pub partial: bool,
    pub title: Option<String>,
    pub author: Option<String>,
}

/// What [`ExportArgs`] hold.
pub struct ExportView {
    pub book: Option<Seq<char>>,
    pub dir: Option<Seq<char>>,
    pub work: Seq<char>,
    pub out: Option<Seq<char>>,
    pub bitrate: Seq<char>,
    pub gap_s: Seq<char>,
    pub para_gap_s: Seq<char>,
    pub chapter_gap_s: Seq<char>,
    pub partial: bool,
    pub title: Option<Seq<char>>,
    pub author: Option<Seq<char>>,
}

impl View for ExportArgs {
    type V = ExportView;

    open spec fn view(&self) -> ExportView {
        ExportView {
            book: Some(self.book@),
            dir: opt_text(self.dir),
            work: self.work@,
            out: opt_text(self.out),
            bitrate: self.bitrate@,
            gap_s: self.gap_s@,
            para_gap_s: self.para_gap_s@,
            chapter_gap_s: self.chapter_gap_s@,
            partial: self.partial,
            title: opt_text(self.title),
            author: opt_text(self.author),
        }
    }
}

/// What is packed where nothing is asked for.
pub open spec fn default_args(book: Option<Seq<char>>, work: Seq<char>) -> ExportView {
    ExportView {
        book,
        dir: None,
        work,
        out: None,
        bitrate: "64k"@,
        gap_s: "0.30"@,
        para_gap_s: "0.60"@,
        chapter_gap_s: "1.0"@,
        partial: false,
        title: None,
        author: None,
    }
}

impl ExportArgs {
    /// The usual way of packing `book`.
    pub fn new(book: &str, work: &str) -> (r: Self)
        ensures
            r@ == default_args(Some(book@), work@),
    {
        ExportArgs {
            book: book.to_owned(),
            dir: None,
            work: work.to_owned(),
            out: None,
            bitrate: "64k".to_owned(),
            gap_s: "0.30".to_owned(),
            para_gap_s: "0.60".to_owned(),
            chapter_gap_s: "1.0".to_owned(),
            partial: false,
            title: None,
            author: None,
        }
    }
}

/// `s` as the standard library shows a string for debugging, in quotes and with
/// what cannot be shown escaped.
pub uninterp spec fn debug_of(s: Seq<char>) -> Seq<char>;

/// `format!("{:?}")` of a string: what is shown depends on the string alone.
#[verifier::external_body]
pub(crate) fn debug_text(s: &str) -> (r: String)
    ensures
        r@ == debug_of(s@),
{
    format!("{s:?}")
}

/// The options that take a value.
pub open spec fn takes_value(flag: Seq<char>) -> bool {
    flag == "--book"@ || flag == "--epub"@ || flag == "--dir"@ || flag == "--work"@ || flag
        == "--out"@ || flag == "--bitrate"@ || flag == "--title"@ || flag == "--author"@
        || takes_number(flag)
}

/// The options whose value is a number.
pub open spec fn takes_number(flag: Seq<char>) -> bool {
    flag == "--gap"@ || flag == "--para-gap"@ || flag == "--chapter-gap"@
}

/// The arguments after `flag` was given the value `v`.
pub open spec fn with_value(a: ExportView, flag: Seq<char>, v: Seq<char>) -> ExportView {
    if flag == "--book"@ || flag == "--epub"@ {
        ExportView { book: Some(v), ..a }
    } else if flag == "--dir"@ {
        ExportView { dir: Some(v), ..a }
    } else if flag == "--work"@ {
        ExportView { work: v, ..a }
    } else if flag == "--out"@ {
        ExportView { out: Some(v), ..a }
    } else if flag == "--bitrate"@ {
        ExportView { bitrate: v, ..a }
    } else if flag == "--gap"@ {
        ExportView { gap_s: v, ..a }
    } else if flag == "--para-gap"@ {
        ExportView { para_gap_s: v, ..a }
    } else if flag == "--chapter-gap"@ {
        ExportView { chapter_gap_s: v, ..a }
    } else if flag == "--title"@ {
        ExportView { title: Some(v), ..a }
    } else {
        ExportView { author: Some(v), ..a }
    }
}

/// What the command line from `i` on makes of `a`: the arguments, or the
/// complaint about the first thing that is wrong.
pub open spec fn parsed_from(argv: Seq<Seq<char>>, i: int, a: ExportView) -> Result<
    ExportView,
    Seq<char>,
>
    decreases argv.len() - i,
{
    if i < 0 || i >= argv.len() {
        if a.book is Some {
            Ok(a)
        } else {
            Err("which book? pass --book <path to the epub>"@)
        }
    } else if argv[i] == "--partial"@ {
        parsed_from(argv, i + 1, ExportView { partial: true, ..a })
    } else if !takes_value(argv[i]) {
        Err("unknown argument "@ + debug_of(argv[i]) + " \u{2014} see `narrator export --help`"@)
    } else if i + 1 >= argv.len() {
        Err(argv[i] + " needs a value"@)
    } else if takes_number(argv[i]) && !is_number_text(argv[i + 1]) {
        Err(argv[i] + " wants a number, not "@ + debug_of(argv[i + 1]))
    } else {
        parsed_from(argv, i + 2, with_value(a, argv[i], argv[i + 1]))
    }
}

fn is_number_flag(flag: &str) -> (r: bool)
    ensures
        r == takes_number(flag@),
{
    same_text(flag, "--gap") || same_text(flag, "--para-gap") || same_text(flag, "--chapter-gap")
}

fn is_value_flag(flag: &str) -> (r: bool)
    ensures
        r == takes_value(flag@),
{
    same_text(flag, "--book") || same_text(flag, "--epub") || same_text(flag, "--dir") || same_text(
        flag,
        "--work",
    ) || same_text(flag, "--out") || same_text(flag, "--bitrate") || same_text(flag, "--title")
        || same_text(flag, "--author") || is_number_flag(flag)
}

/// The arguments of an export out of its command line; `work` is where the
/// server keeps its files unless the command line says otherwise.
pub fn args_from(argv: &[String], work: &str) -> (r: Result<ExportArgs, ExportError>)
    ensures
        match r {
            Ok(a) => parsed_from(texts(argv@), 0, default_args(None, work@)) == Ok::<
                ExportView,
                Seq<char>,
            >(a@),
            Err(ExportError::Usage(m)) => parsed_from(texts(argv@), 0, default_args(None, work@))
                == Err::<ExportView, Seq<char>>(m@),
            Err(_) => false,
        },
{
    let ghost av = texts(argv@);
    let mut a = ExportArgs::new("", work);
    let mut book: Option<String> = None;
    let ghost mut now = default_args(None, work@);
    let mut i: usize = 0;
    while i < argv.len()
        invariant
            i <= argv@.len(),
            av == texts(argv@),
            now == (ExportView { book: opt_text(book), ..a@ }),
            parsed_from(av, 0, default_args(None, work@)) == parsed_from(av, i as int, now),
        decreases argv@.len() - i,
    {
        let arg = argv[i].as_str();
        assert(av[i as int] == arg@);
        if same_text(arg, "--partial") {
            a.partial = true;
            proof {
                now = ExportView { partial: true, ..now };
            }
            i += 1;
        } else if !is_value_flag(arg) {
            let m = cat(
                cat("unknown argument ", debug_text(arg).as_str()).as_str(),
                " \u{2014} see `narrator export --help`",
            );
            return Err(ExportError::Usage(m));
        } else if i + 1 >= argv.len() {
            return Err(ExportError::Usage(cat(arg, " needs a value")));
        } else {
            let v = argv[i + 1].clone();
            assert(av[i + 1] == v@);
            if is_number_flag(arg) && !writes_number(v.as_str()) {
                let m = cat(
                    cat(arg, " wants a number, not ").as_str(),
                    debug_text(v.as_str()).as_str(),
                );
                return Err(ExportError::Usage(m));
            }
            proof {
                now = with_value(now, arg@, v@);
            }
            if same_text(arg, "--book") || same_text(arg, "--epub") {
                book = Some(v);
            } else if same_text(arg, "--dir") {
                a.dir = Some(v);
            } else if same_text(arg, "--work") {
                a.work = v;
            } else if same_text(arg, "--out") {
                a.out = Some(v);
            } else if same_text(arg, "--bitrate") {
                a.bitrate = v;
            } else if same_text(arg, "--gap") {
                a.gap_s = v;
            } else if same_text(arg, "--para-gap") {
                a.para_gap_s = v;
            } else if same_text(arg, "--chapter-gap") {
                a.chapter_gap_s = v;
            } else if same_text(arg, "--title") {
                a.title = Some(v);
            } else {
                a.author = Some(v);
            }
            i += 2;
        }
    }
    match book {
        Some(b) => {
            a.book = b;
            Ok(a)
        },
        None => Err(
            ExportError::Usage("which book? pass --book <path to the epub>".to_owned()),
        ),
    }
}

/// How to use the command.
pub const USAGE: &'static str = "\
narrator export --book <file.epub> [options]

Pack the rendered chunks in the work directory into one .m4b audiobook: AAC,
chapter marks from the real durations, the EPUB's cover art embedded.

  --book <path>       the EPUB (metadata, cover, and which cache to read)
  --dir <path>        the cache directory, if it is not work/audio/<key>
  --work <path>       the work directory (default: $NARRATOR_WORK)
  --out <path>        where the .m4b lands (default: <work>/export)
  --bitrate <rate>    AAC bitrate (default: 64k)
  --partial           pack the complete chapters instead of refusing
  --gap <s>           silence between chunks (default: 0.30)
  --para-gap <s>      silence between paragraphs (default: 0.60)
  --chapter-gap <s>   silence between chapters (default: 1.0)
  --title <text>      override the EPUB title
  --author <text>     override the EPUB author
";

// ---------------------------------------------------------------- what goes in

/// The first chunk, in the order of the plan, that `there` finds.
pub fn first_wav<F: Fn(usize, usize) -> bool>(plan: &[Chapter], there: F) -> (r: Option<
    (usize, usize),
>)
    requires
        forall|c: usize, i: usize| call_requires(there, (c, i)),
    ensures
        match r {
            Some((c, i)) => exists|k: int|
                {
                    &&& 0 <= k < plan@.len()
                    &&& (#[trigger] plan@[k]).index == c
                    &&& i < plan@[k].chunks@.len()
                    &&& call_ensures(there, (c, i), true)
                    &&& forall|j: usize| j < i ==> #[trigger] call_ensures(there, (c, j), false)
                    &&& none_there(plan@.take(k), there)
                },
            None => none_there(plan@, there),
        },
{
    let mut k: usize = 0;
    while k < plan.len()
        invariant
            k <= plan@.len(),
            forall|c: usize, i: usize| call_requires(there, (c, i)),
            none_there(plan@.take(k as int), there),
        decreases plan@.len() - k,
    {
        let c: usize = plan[k].index;
        let mut i: usize = 0;
        while i < plan[k].chunks.len()
            invariant
                k < plan@.len(),
                c == plan@[k as int].index,
                i <= plan@[k as int].chunks@.len(),
                forall|c: usize, i: usize| call_requires(there, (c, i)),
                none_there(plan@.take(k as int), there),
                forall|j: usize| j < i ==> #[trigger] call_ensures(there, (c, j), false),
            decreases plan@[k as int].chunks@.len() - i,
        {
            if there(c, i) {
                return Some((c, i));
            }
            i += 1;
        }
        proof {
            let now = plan@.take(k + 1);
            assert forall|m: int, j: usize|
                0 <= m < now.len() && j < now[m].chunks@.len() implies #[trigger] call_ensures(
                there,
                (now[m].index, j),
                false,
            ) by {
                if m < k {
                    assert(now[m] == plan@.take(k as int)[m]);
                }
            }
        }
        k += 1;
    }
    assert(plan@.take(k as int) =~= plan@);
    None
}

/// Whether `there` found none of the chunks of `plan`.
pub open spec fn none_there<F: Fn(usize, usize) -> bool>(plan: Seq<Chapter>, there: F) -> bool {
    forall|m: int, j: usize|
        0 <= m < plan.len() && j < plan[m].chunks@.len() ==> #[trigger] call_ensures(
            there,
            (plan[m].index, j),
            false,
        )
}

/// A file that goes into a chapter.
#[derive(Debug, Clone, Copy, PartialEq, Eq, Structural)]
pub enum Piece {
    /// The chunk with this index.
    Chunk(usize),
    /// The silence between two chunks of a paragraph.
    Gap,
    /// The silence between two paragraphs.
    ParaGap,
}

/// The first `n` chunks of a chapter, a silence between each two.
pub open spec fn pieces_upto(c: ChapterView, n: nat) -> Seq<Piece>
    decreases n,
{
    if n == 0 || n > c.chunks.len() {
        Seq::empty()
    } else {
        let k = n - 1;
        let before = pieces_upto(c, k as nat);
        if k == 0 {
            before.push(Piece::Chunk(0))
        } else if c.chunks[k].para != c.chunks[k - 1].para {
            before.push(Piece::ParaGap).push(Piece::Chunk(k as usize))
        } else {
            before.push(Piece::Gap).push(Piece::Chunk(k as usize))
        }
    }
}

/// A chapter that goes into the book.
#[derive(Debug, Clone, PartialEq)]
pub struct Packed {
    pub index: usize,
    pub title: String,
    pub pieces: Vec<Piece>,
}

/// What a [`Packed`] holds.
pub struct PackedView {
    pub index: nat,
    pub title: Seq<char>,
    pub pieces: Seq<Piece>,
}

impl View for Packed {
    type V = PackedView;

    open spec fn view(&self) -> PackedView {
        PackedView { index: self.index as nat, title: self.title@, pieces: self.pieces@ }
    }
}

/// What a vector of packed chapters holds.
pub open spec fn packed_views(v: Seq<Packed>) -> Seq<PackedView> {
    v.map_values(|p: Packed| p@)
}

/// Whether a chapter can be packed, `readable` of its chunks from the first on
/// being readable: all of them, and there are some.
pub open spec fn packable(c: ChapterView, readable: usize) -> bool {
    c.chunks.len() > 0 && readable >= c.chunks.len()
}

/// The chapters of the first `n` of a plan that can be packed.
pub open spec fn packed_upto(plan: Seq<ChapterView>, readable: Seq<usize>, n: nat) -> Seq<PackedView>
    decreases n,
{
    if n == 0 || n > plan.len() {
        Seq::empty()
    } else {
        let c = plan[n - 1];
        let before = packed_upto(plan, readable, (n - 1) as nat);
        if packable(c, readable[n - 1]) {
            before.push(
                PackedView {
                    index: c.index,
                    title: shown_title(c),
                    pieces: pieces_upto(c, c.chunks.len()),
                },
            )
        } else {
            before
        }
    }
}

/// The titles of the others.
pub open spec fn missing_upto(plan: Seq<ChapterView>, readable: Seq<usize>, n: nat) -> Seq<
    Seq<char>,
>
    decreases n,
{
    if n == 0 || n > plan.len() {
        Seq::empty()
    } else {
        let before = missing_upto(plan, readable, (n - 1) as nat);
        if packable(plan[n - 1], readable[n - 1]) {
            before
        } else {
            before.push(shown_title(plan[n - 1]))
        }
    }
}

fn pieces(c: &Chapter) -> (r: Vec<Piece>)
    ensures
        r@ == pieces_upto(c@, c.chunks@.len()),
        r@.len() == if c.chunks@.len() == 0 {
            0
        } else {
            2 * c.chunks@.len() - 1
        },
        forall|i: int| 0 <= i < c.chunks@.len() ==> #[trigger] chunk_placed(r@, i),
        forall|i: int| 0 < i < c.chunks@.len() ==> #[trigger] silence_placed(c@, r@, i),
{
    let mut r: Vec<Piece> = Vec::new();
    let mut k: usize = 0;
    while k < c.chunks.len()
        invariant
            k <= c.chunks@.len(),
            r@ == pieces_upto(c@, k as nat),
        decreases c.chunks@.len() - k,
    {
        assert(c@.chunks[k as int] == c.chunks@[k as int]@);
        if k > 0 {
            assert(c@.chunks[k - 1] == c.chunks@[k - 1]@);
            if c.chunks[k].para != c.chunks[k - 1].para {
                r.push(Piece::ParaGap);
            } else {
                r.push(Piece::Gap);
            }
        }
        r.push(Piece::Chunk(k));
        k += 1;
    }
    proof {
        law_every_chunk_has_its_place(c@);
    }
    r
}

/// Which chapters of the plan go into the book, and the titles of those that do
/// not. `readable` says, for each chapter, how many of its chunks from the first
/// on can be read: with one missing a chapter cannot be packed, because every
/// mark after the hole would be wrong.
pub fn collect(plan: &[Chapter], readable: &Vec<usize>) -> (r: (Vec<Packed>, Vec<String>))
    requires
        readable@.len() == plan@.len(),
        forall|i: int| 0 <= i < plan@.len() ==> (#[trigger] plan@[i]).index < u64::MAX,
    ensures
        packed_views(r.0@) == packed_upto(chapter_views(plan@), readable@, plan@.len()),
        texts(r.1@) == missing_upto(chapter_views(plan@), readable@, plan@.len()),
{
    let ghost pv = chapter_views(plan@);
    let mut have: Vec<Packed> = Vec::new();
    let mut gone: Vec<String> = Vec::new();
    let mut k: usize = 0;
    assert(packed_views(have@) =~= Seq::<PackedView>::empty());
    assert(texts(gone@) =~= Seq::<Seq<char>>::empty());
    while k < plan.len()
        invariant
            k <= plan@.len(),
            readable@.len() == plan@.len(),
            pv == chapter_views(plan@),
            forall|i: int| 0 <= i < plan@.len() ==> (#[trigger] plan@[i]).index < u64::MAX,
            packed_views(have@) == packed_upto(pv, readable@, k as nat),
            texts(gone@) == missing_upto(pv, readable@, k as nat),
        decreases plan@.len() - k,
    {
        let c = &plan[k];
        assert(pv[k as int] == c@);
        if c.chunks.len() > 0 && readable[k] >= c.chunks.len() {
            let ghost before = packed_views(have@);
            let p = Packed { index: c.index, title: c.display_title(), pieces: pieces(c) };
            have.push(p);
            assert(packed_views(have@) =~= before.push(p@));
        } else {
            let ghost before = texts(gone@);
            gone.push(c.display_title());
            assert(texts(gone@) =~= before.push(shown_title(c@)));
        }
        k += 1;
    }
    (have, gone)
}

/// The first eight of `missing`, the first forty characters of each.
pub open spec fn some_names(missing: Seq<Seq<char>>) -> Seq<char> {
    join(
        Seq::new(
            if missing.len() <= 8 {
                missing.len()
            } else {
                8
            },
            |i: int| first(missing[i], 40),
        ),
        ", "@,
    )
}

/// Whether the book can be packed at all: a book with holes is refused unless
/// that was asked for, and so is one of which nothing is complete.
pub fn refusal(missing: &Vec<String>, partial: bool, complete: usize, dir: &str) -> (r: Option<
    ExportError,
>)
    ensures
        match r {
            Some(ExportError::Incomplete(n, names)) => missing@.len() > 0 && !partial && n
                == missing@.len() && names@ == some_names(texts(missing@)),
            Some(ExportError::NothingComplete(d)) => (missing@.len() == 0 || partial) && complete
                == 0 && d@ == dir@,
            Some(_) => false,
            None => (missing@.len() == 0 || partial) && complete > 0,
        },
{
    if missing.len() > 0 && !partial {
        let ghost ts = texts(missing@);
        let n: usize = if missing.len() <= 8 {
            missing.len()
        } else {
            8
        };
        let ghost all = Seq::new(n as nat, |i: int| first(ts[i], 40));
        let mut names: Vec<Vec<char>> = Vec::new();
        let mut i: usize = 0;
        while i < n
            invariant
                i <= n <= missing@.len(),
                ts == texts(missing@),
                all == Seq::new(n as nat, |i: int| first(ts[i], 40)),
                spelled(names@) == all.take(i as int),
            decreases n - i,
        {
            let ghost before = spelled(names@);
            let t = crate::cache::take_first(&chars_of(missing[i].as_str()), 40);
            assert(ts[i as int] == missing@[i as int]@);
            assert(t@ == all[i as int]);
            names.push(t);
            assert(spelled(names@) =~= before.push(t@));
            assert(all.take(i + 1) =~= all.take(i as int).push(t@));
            i += 1;
        }
        assert(all.take(i as int) =~= all);
        return Some(
            ExportError::Incomplete(
                missing.len(),
                text_of(&join_chars(&names, &chars_of(", "))),
            ),
        );
    }
    if complete == 0 {
        return Some(ExportError::NothingComplete(dir.to_owned()));
    }
    None
}

/// The book's title: as asked for, as the book has it, the name of its file, or
/// `audiobook`.
pub fn choose_title(asked: Option<String>, epub: Option<String>, stem: Option<String>) -> (r:
    String)
    ensures
        r@ == match (opt_text(asked), opt_text(epub), opt_text(stem)) {
            (Some(t), _, _) => t,
            (None, Some(t), _) => t,
            (None, None, Some(t)) => t,
            _ => "audiobook"@,
        },
{
    match (asked, epub, stem) {
        (Some(t), _, _) => t,
        (None, Some(t), _) => t,
        (None, None, Some(t)) => t,
        _ => "audiobook".to_owned(),
    }
}

/// A metadata entry as the book has it, trimmed; nothing where that leaves
/// nothing.
pub fn epub_entry(value: Option<String>) -> (r: Option<String>)
    ensures
        opt_text(r) == match value {
            Some(v) if trim_of(v@).len() > 0 => Some(trim_of(v@)),
            _ => None,
        },
{
    match value {
        Some(v) => {
            let t = trim_chars(&chars_of(v.as_str()));
            if t.len() > 0 {
                Some(text_of(&t))
            } else {
                None
            }
        },
        None => None,
    }
}

/// The extension for a cover of type `mime`.
pub fn cover_ext(mime: &str) -> (r: String)
    ensures
        r@ == if mime@ == "image/png"@ {
            "png"@
        } else if mime@ == "image/webp"@ {
            "webp"@
        } else {
            "jpg"@
        },
{
    if same_text(mime, "image/png") {
        "png".to_owned()
    } else if same_text(mime, "image/webp") {
        "webp".to_owned()
    } else {
        "jpg".to_owned()
    }
}

// --------------------------------------------------------------------- metadata

/// `c` as it is written in metadata: the delimiters carry a backslash.
pub open spec fn escaped_char(c: char) -> Seq<char> {
    if c == '=' || c == ';' || c == '#' || c == '\\' || c == '\n' {
        seq!['\\', c]
    } else {
        seq![c]
    }
}

/// The first `n` characters of `s` as they are written in metadata.
pub open spec fn escaped_upto(s: Seq<char>, n: nat) -> Seq<char>
    decreases n,
{
    if n == 0 || n > s.len() {
        Seq::empty()
    } else {
        escaped_upto(s, (n - 1) as nat) + escaped_char(s[n - 1])
    }
}

/// `s` as it is written in metadata.
pub open spec fn escaped(s: Seq<char>) -> Seq<char> {
    escaped_upto(s, s.len())
}

/// `v` as it is written in metadata.
pub fn ffmeta_escape(v: &str) -> (r: String)
    ensures
        r@ == escaped(v@),
{
    let c = chars_of(v);
    let mut out: Vec<char> = Vec::new();
    let mut i: usize = 0;
    while i < c.len()
        invariant
            i <= c@.len(),
            out@ == escaped_upto(c@, i as nat),
        decreases c@.len() - i,
    {
        let ghost before = out@;
        if matches!(c[i], '=' | ';' | '#' | '\\' | '\n') {
            out.push('\\');
        }
        out.push(c[i]);
        assert(out@ =~= before + escaped_char(c@[i as int]));
        i += 1;
    }
    text_of(&out)
}

/// What metadata escaping is undone to, from `i` on: a backslash stands for the
/// character after it.
pub open spec fn unescaped(s: Seq<char>, i: int) -> Seq<char>
    decreases s.len() - i,
{
    if i < 0 || i >= s.len() {
        Seq::empty()
    } else if s[i] == '\\' && i + 1 < s.len() {
        seq![s[i + 1]] + unescaped(s, i + 2)
    } else {
        seq![s[i]] + unescaped(s, i + 1)
    }
}

proof fn lemma_unescape(s: Seq<char>, n: nat, tail: Seq<char>)
    requires
        n <= s.len(),
    ensures
        unescaped(escaped_upto(s, n) + tail, 0) == s.take(n as int) + unescaped(tail, 0),
    decreases n,
{
    if n == 0 {
        assert(escaped_upto(s, n) + tail =~= tail);
        assert(s.take(0) + unescaped(tail, 0) =~= unescaped(tail, 0));
    } else {
        let c = s[n - 1];
        let more = escaped_char(c) + tail;
        lemma_unescape(s, (n - 1) as nat, more);
        assert(escaped_upto(s, n) + tail =~= escaped_upto(s, (n - 1) as nat) + more);
        lemma_unescape_one(c, tail);
        assert(s.take(n as int) =~= s.take(n - 1).push(c));
        assert(s.take(n - 1) + (seq![c] + unescaped(tail, 0)) =~= s.take(n as int) + unescaped(
            tail,
            0,
        ));
    }
}

proof fn lemma_unescape_one(c: char, tail: Seq<char>)
    ensures
        unescaped(escaped_char(c) + tail, 0) == seq![c] + unescaped(tail, 0),
{
    let s = escaped_char(c) + tail;
    let k = escaped_char(c).len() as int;
    lemma_unescape_shift(s, tail, k, 0);
    assert(unescaped(s, 0) == seq![c] + unescaped(s, k));
}

proof fn lemma_unescape_shift(s: Seq<char>, tail: Seq<char>, k: int, i: int)
    requires
        0 <= k,
        0 <= i,
        s.len() == k + tail.len(),
        forall|m: int| 0 <= m < tail.len() ==> s[k + m] == #[trigger] tail[m],
    ensures
        unescaped(s, k + i) == unescaped(tail, i),
    decreases tail.len() - i,
{
    if i < tail.len() {
        assert(s[k + i] == tail[i]);
        if tail[i] == '\\' && i + 1 < tail.len() {
            assert(s[k + (i + 1)] == tail[i + 1]);
            lemma_unescape_shift(s, tail, k, i + 2);
        } else {
            lemma_unescape_shift(s, tail, k, i + 1);
        }
    }
}

/// Escaping loses nothing: read back, it gives the text.
pub proof fn law_escaping_reads_back(s: Seq<char>)
    ensures
        unescaped(escaped(s), 0) == s,
{
    lemma_unescape(s, s.len(), Seq::empty());
    assert(escaped(s) + Seq::<char>::empty() =~= escaped(s));
    assert(s.take(s.len() as int) + Seq::<char>::empty() =~= s);
    assert(unescaped(Seq::empty(), 0) =~= Seq::<char>::empty());
}

/// The characters that some filesystem does not take in a name.
pub open spec fn unsafe_char(c: char) -> bool {
    c == '/' || c == '\\' || c == ':' || c == '*' || c == '?' || c == '"' || c == '<' || c == '>'
        || c == '|' || c == '\0'
}

/// A file name for `title` that any filesystem takes.
pub open spec fn safe_name_of(title: Seq<char>) -> Seq<char> {
    let t = trim_of(
        title.map_values(
            |c: char|
                if unsafe_char(c) {
                    '-'
                } else {
                    c
                },
        ),
    );
    if t.len() == 0 {
        "audiobook"@
    } else {
        t
    }
}

/// A file name for `title` that any filesystem takes.
pub fn safe_name(title: &str) -> (r: String)
    ensures
        r@ == safe_name_of(title@),
{
    let v = chars_of(title);
    let ghost all = title@.map_values(
        |c: char|
            if unsafe_char(c) {
                '-'
            } else {
                c
            },
    );
    let mut s: Vec<char> = Vec::new();
    let mut i: usize = 0;
    while i < v.len()
        invariant
            i <= v@.len(),
            v@ == title@,
            all == title@.map_values(
                |c: char|
                    if unsafe_char(c) {
                        '-'
                    } else {
                        c
                    },
            ),
            s@ == all.take(i as int),
        decreases v@.len() - i,
    {
        let c = v[i];
        if matches!(c, '/' | '\\' | ':' | '*' | '?' | '"' | '<' | '>' | '|' | '\0') {
            s.push('-');
        } else {
            s.push(c);
        }
        i += 1;
        assert(s@ =~= all.take(i as int));
    }
    assert(all.take(i as int) =~= all);
    let t = trim_chars(&s);
    if t.len() == 0 {
        "audiobook".to_owned()
    } else {
        text_of(&t)
    }
}

/// A chapter's mark: its title, and where it starts and ends in milliseconds.
#[derive(Debug, Clone, PartialEq)]
pub struct Mark {
    pub title: String,
    pub start_ms: i64,
    pub end_ms: i64,
}

/// The lines that say who wrote the book, where that is known.
pub open spec fn author_lines(author: Option<Seq<char>>) -> Seq<Seq<char>> {
    match author {
        Some(a) => seq!["artist="@ + escaped(a), "album_artist="@ + escaped(a)],
        None => Seq::empty(),
    }
}

/// The lines of one chapter's mark.
pub open spec fn mark_lines(m: Mark) -> Seq<Seq<char>> {
    seq![
        "[CHAPTER]"@,
        "TIMEBASE=1/1000"@,
        "START="@ + signed_decimal(m.start_ms as int),
        "END="@ + signed_decimal(m.end_ms as int),
        "title="@ + escaped(m.title@),
    ]
}

/// The lines of the first `n` marks.
pub open spec fn marks_upto(marks: Seq<Mark>, n: nat) -> Seq<Seq<char>>
    decreases n,
{
    if n == 0 || n > marks.len() {
        Seq::empty()
    } else {
        marks_upto(marks, (n - 1) as nat) + mark_lines(marks[n - 1])
    }
}

/// The book's metadata.
pub open spec fn metadata_of(title: Seq<char>, author: Option<Seq<char>>, marks: Seq<Mark>) -> Seq<
    char,
> {
    join(
        seq![
            ";FFMETADATA1"@,
            "title="@ + escaped(title),
            "album="@ + escaped(title),
            "genre=Audiobook"@,
        ] + author_lines(author) + marks_upto(marks, marks.len()),
        "\n"@,
    ) + "\n"@
}

fn push_line(lines: &mut Vec<Vec<char>>, a: &str, b: &[char])
    ensures
        spelled(final(lines)@) == spelled(old(lines)@).push(a@ + b@),
{
    let mut v = chars_of(a);
    append(&mut v, b);
    lines.push(v);
    assert(spelled(lines@) =~= spelled(old(lines)@).push(a@ + b@));
}

/// The book's metadata: its title and author, and a mark for each chapter.
pub fn metadata(title: &str, author: Option<String>, marks: &Vec<Mark>) -> (r: String)
    ensures
        r@ == metadata_of(title@, opt_text(author), marks@),
{
    let t = chars_of(ffmeta_escape(title).as_str());
    let nothing: Vec<char> = Vec::new();
    let mut lines: Vec<Vec<char>> = Vec::new();
    push_line(&mut lines, ";FFMETADATA1", &nothing);
    push_line(&mut lines, "title=", &t);
    push_line(&mut lines, "album=", &t);
    push_line(&mut lines, "genre=Audiobook", &nothing);
    let ghost head = seq![
        ";FFMETADATA1"@,
        "title="@ + escaped(title@),
        "album="@ + escaped(title@),
        "genre=Audiobook"@,
    ];
    assert(";FFMETADATA1"@ + nothing@ =~= ";FFMETADATA1"@);
    assert("genre=Audiobook"@ + nothing@ =~= "genre=Audiobook"@);
    assert(spelled(lines@) =~= head);
    let ghost who = opt_text(author);
    if let Some(a) = author {
        let e = chars_of(ffmeta_escape(a.as_str()).as_str());
        push_line(&mut lines, "artist=", &e);
        push_line(&mut lines, "album_artist=", &e);
    }
    let ghost start = head + author_lines(who);
    assert(spelled(lines@) =~= start);
    let mut i: usize = 0;
    assert(start + marks_upto(marks@, 0) =~= start);
    while i < marks.len()
        invariant
            i <= marks@.len(),
            nothing@.len() == 0,
            spelled(lines@) == start + marks_upto(marks@, i as nat),
        decreases marks@.len() - i,
    {
        let ghost before = spelled(lines@);
        let m = &marks[i];
        push_line(&mut lines, "[CHAPTER]", &nothing);
        push_line(&mut lines, "TIMEBASE=1/1000", &nothing);
        push_line(&mut lines, "START=", &signed_chars(m.start_ms));
        push_line(&mut lines, "END=", &signed_chars(m.end_ms));
        push_line(&mut lines, "title=", &chars_of(ffmeta_escape(m.title.as_str()).as_str()));
        assert("[CHAPTER]"@ + nothing@ =~= "[CHAPTER]"@);
        assert("TIMEBASE=1/1000"@ + nothing@ =~= "TIMEBASE=1/1000"@);
        assert(spelled(lines@) =~= before + mark_lines(*m));
        assert(start + marks_upto(marks@, i as nat) + mark_lines(*m) =~= start + (marks_upto(
            marks@,
            i as nat,
        ) + mark_lines(*m)));
        i += 1;
    }
    let mut all = join_chars(&lines, &chars_of("\n"));
    append(&mut all, &chars_of("\n"));
    text_of(&all)
}

// ------------------------------------------------------------------- the encoder

/// The lines that join a chapter's files.
pub open spec fn file_lines(files: Seq<String>) -> Seq<Seq<char>> {
    files.map_values(|f: String| concat_line_of(f@))
}

/// The lines that join the first `n` of the `chapters`, the silence `between`
/// after each of them but the book's last.
pub open spec fn join_lines_upto(chapters: Seq<Vec<String>>, between: Seq<char>, n: nat) -> Seq<
    Seq<char>,
>
    decreases n,
{
    if n == 0 || n > chapters.len() {
        Seq::empty()
    } else {
        let before = join_lines_upto(chapters, between, (n - 1) as nat) + file_lines(
            chapters[n - 1]@,
        );
        if n < chapters.len() {
            before.push(concat_line_of(between))
        } else {
            before
        }
    }
}

/// The list that joins the files of the chapters, with the silence `between`
/// each two chapters.
pub fn join_list(chapters: &Vec<Vec<String>>, between: &str) -> (r: String)
    ensures
        r@ == join(join_lines_upto(chapters@, between@, chapters@.len()), "\n"@) + "\n"@,
{
    let mut lines: Vec<Vec<char>> = Vec::new();
    let mut k: usize = 0;
    assert(spelled(lines@) =~= Seq::<Seq<char>>::empty());
    while k < chapters.len()
        invariant
            k <= chapters@.len(),
            spelled(lines@) == join_lines_upto(chapters@, between@, k as nat),
        decreases chapters@.len() - k,
    {
        let files = &chapters[k];
        let ghost before = spelled(lines@);
        let ghost own = file_lines(files@);
        let mut i: usize = 0;
        while i < files.len()
            invariant
                i <= files@.len(),
                own == file_lines(files@),
                spelled(lines@) == before + own.take(i as int),
            decreases files@.len() - i,
        {
            let ghost sofar = spelled(lines@);
            let line = chars_of(crate::chapters::concat_line(files[i].as_str()).as_str());
            lines.push(line);
            assert(own[i as int] == line@);
            assert(spelled(lines@) =~= sofar.push(line@));
            assert(before + own.take(i + 1) =~= (before + own.take(i as int)).push(line@));
            i += 1;
        }
        assert(own.take(i as int) =~= own);
        if k + 1 < chapters.len() {
            let ghost sofar = spelled(lines@);
            lines.push(chars_of(crate::chapters::concat_line(between).as_str()));
            assert(spelled(lines@) =~= sofar.push(concat_line_of(between@)));
        }
        k += 1;
    }
    let mut all = join_chars(&lines, &chars_of("\n"));
    append(&mut all, &chars_of("\n"));
    text_of(&all)
}

/// The arguments that encode a book: the list of its files, its metadata, and
/// its cover where it has one.
pub open spec fn encode_args_of(
    list: Seq<char>,
    meta: Seq<char>,
    cover: Option<Seq<char>>,
    bitrate: Seq<char>,
    out: Seq<char>,
) -> Seq<Seq<char>> {
    let input = seq![
        "-v"@,
        "error"@,
        "-y"@,
        "-f"@,
        "concat"@,
        "-safe"@,
        "0"@,
        "-i"@,
        list,
        "-i"@,
        meta,
    ];
    let picture = match cover {
        Some(c) => seq!["-i"@, c],
        None => Seq::empty(),
    };
    let attach = match cover {
        Some(c) => seq![
            "-map"@,
            "2:v"@,
            "-c:v"@,
            "mjpeg"@,
            "-disposition:v:0"@,
            "attached_pic"@,
        ],
        None => Seq::empty(),
    };
    input + picture + seq!["-map"@, "0:a"@, "-map_metadata"@, "1"@] + attach + seq![
        "-c:a"@,
        "aac"@,
        "-b:a"@,
        bitrate,
        "-ac"@,
        "1"@,
        "-movflags"@,
        "+faststart"@,
        "-f"@,
        "ipod"@,
        out,
    ]
}

fn push_texts(args: &mut Vec<String>, more: Vec<String>)
    ensures
        texts(final(args)@) == texts(old(args)@) + texts(more@),
{
    let ghost ms = texts(more@);
    let mut i: usize = 0;
    assert(texts(args@) + ms.take(0) =~= texts(args@));
    while i < more.len()
        invariant
            i <= more@.len(),
            ms == texts(more@),
            texts(args@) == texts(old(args)@) + ms.take(i as int),
        decreases more@.len() - i,
    {
        let ghost before = texts(args@);
        args.push(more[i].clone());
        assert(texts(args@) =~= before.push(more@[i as int]@));
        assert(ms.take(i + 1) =~= ms.take(i as int).push(ms[i as int]));
        i += 1;
    }
    assert(ms.take(i as int) =~= ms);
}

/// The arguments that encode a book.
pub fn encode_args(
    list: &str,
    meta: &str,
    cover: Option<String>,
    bitrate: &str,
    out: &str,
) -> (r: Vec<String>)
    ensures
        texts(r@) == encode_args_of(list@, meta@, opt_text(cover), bitrate@, out@),
{
    let ghost cv = opt_text(cover);
    let mut args: Vec<String> = vec![
        "-v".to_owned(),
        "error".to_owned(),
        "-y".to_owned(),
        "-f".to_owned(),
        "concat".to_owned(),
        "-safe".to_owned(),
        "0".to_owned(),
        "-i".to_owned(),
        list.to_owned(),
        "-i".to_owned(),
        meta.to_owned(),
    ];
    assert(texts(args@) =~= encode_args_of(list@, meta@, None, bitrate@, out@).take(11));
    let pictured = cover.is_some();
    if let Some(c) = cover {
        push_texts(&mut args, vec!["-i".to_owned(), c]);
    }
    push_texts(
        &mut args,
        vec!["-map".to_owned(), "0:a".to_owned(), "-map_metadata".to_owned(), "1".to_owned()],
    );
    if pictured {
        push_texts(
            &mut args,
            vec![
                "-map".to_owned(),
                "2:v".to_owned(),
                "-c:v".to_owned(),
                "mjpeg".to_owned(),
                "-disposition:v:0".to_owned(),
                "attached_pic".to_owned(),
            ],
        );
    }
    push_texts(
        &mut args,
        vec![
            "-c:a".to_owned(),
            "aac".to_owned(),
            "-b:a".to_owned(),
            bitrate.to_owned(),
            "-ac".to_owned(),
            "1".to_owned(),
            "-movflags".to_owned(),
            "+faststart".to_owned(),
            "-f".to_owned(),
            "ipod".to_owned(),
            out.to_owned(),
        ],
    );
    assert(texts(args@) =~= encode_args_of(list@, meta@, cv, bitrate@, out@));
    args
}

} // verus!
