//! Packed chapters: one small audio file for each chapter whose chunks are all
//! rendered, and beside it the manifest that keeps chunk indices meaningful in
//! it.

use vstd::prelude::*;
use crate::book::{closers, is_closer, is_listed_abbreviation, listed_abbreviation, chunk_views, Chunk, ChunkView};
use crate::cache::{chapter_name, chapter_tag, chunk_file, chunk_name, missing_chunks, missing_upto};
use crate::chars::{append, cat, chars_of, decimal, find_run_start, found_at, is_digit, join, join_chars, lower_chars, lowered_text, part, replace_all, replaced, run_start, same, same_text, spelled, split_at_char, split_char, stands_at, text_of, texts, trim_chars, trim_of, unsigned_word, parse_word, uppercase, white_space};
use crate::err::PackError;
use crate::paths::{file_name, file_stem, join_path, joined, name_of, parent, parent_of, stem_of};

verus! {

// -------------------------------------------------------------------- the layout

/// Where a book's packed chapters are kept.
pub open spec fn book_dir_of(work: Seq<char>, key: Seq<char>) -> Seq<char> {
    joined(joined(work, "chapters"@), key)
}

/// Where a book's packed chapters are kept.
pub fn book_dir(work: &str, key: &str) -> (r: String)
    ensures
        r@ == book_dir_of(work@, key@),
{
    join_path(join_path(work, "chapters").as_str(), key)
}

/// A packed chapter's audio and its manifest.
pub fn chapter_files(work: &str, key: &str, ci: usize) -> (r: (String, String))
    ensures
        r.0@ == joined(book_dir_of(work@, key@), chapter_name(ci as nat) + ".m4a"@),
        r.1@ == joined(book_dir_of(work@, key@), chapter_name(ci as nat) + ".json"@),
{
    let d = book_dir(work, key);
    let tag = chapter_tag(ci);
    (
        join_path(d.as_str(), cat(tag.as_str(), ".m4a").as_str()),
        join_path(d.as_str(), cat(tag.as_str(), ".json").as_str()),
    )
}

/// Where a chapter's streaming segments are kept.
pub open spec fn hls_dir_of(work: Seq<char>, key: Seq<char>, ci: nat) -> Seq<char> {
    joined(joined(joined(work, "hls"@), key), chapter_name(ci))
}

/// Where a chapter's streaming segments are kept.
pub fn hls_dir(work: &str, key: &str, ci: usize) -> (r: String)
    ensures
        r@ == hls_dir_of(work@, key@, ci as nat),
{
    join_path(join_path(join_path(work, "hls").as_str(), key).as_str(), chapter_tag(ci).as_str())
}

/// Whether a chapter of `n` chunks is packed: its audio is there, and its
/// manifest, where it can be read, is of this very chunking.
pub fn chapter_packed(audio: bool, manifest_chunks: Option<usize>, n: usize) -> (r: bool)
    ensures
        r == (audio && manifest_chunks == Some(n)),
{
    audio && match manifest_chunks {
        Some(m) => m == n,
        None => false,
    }
}

// ------------------------------------------------------------------------ pauses

/// What separates two chunks.
#[derive(Debug, Clone, Copy, PartialEq, Eq, Structural)]
pub enum Gap {
    /// A new paragraph.
    Para,
    /// One sentence to the next.
    Sentence,
    /// The middle of a sentence.
    Phrase,
}

/// `s` up to `lo` without the characters satisfying `p` at its end.
pub open spec fn end_trimmed(s: Seq<char>, p: spec_fn(char) -> bool) -> Seq<char> {
    s.take(run_start(s, p, 0, s.len() as int))
}

/// Where a word can start, reading back: after white space, an opening quote or
/// an opening bracket.
pub open spec fn inside_word() -> spec_fn(char) -> bool {
    |c: char| !(white_space(c) || c == '\u{201C}' || c == '(')
}

fn is_inside_word(c: char) -> (r: bool)
    ensures
        r == !(white_space(c) || c == '\u{201C}' || c == '('),
{
    !(c.is_whitespace() || c == '\u{201C}' || c == '(')
}

/// Whether the word before a full stop is an abbreviation or an initial.
pub open spec fn abbreviated(head: Seq<char>) -> bool {
    let w = head.skip(run_start(head, inside_word(), 0, head.len() as int));
    (w.len() == 1 && uppercase(w[0])) || listed_abbreviation(w)
}

/// Whether `text` finishes a sentence, closing quotes and brackets aside. An
/// abbreviation's full stop does not.
pub open spec fn finishes_sentence(text: Seq<char>) -> bool {
    let t = end_trimmed(end_trimmed(text, crate::chars::whites()), closers());
    t.len() > 0 && (t.last() == '!' || t.last() == '?' || t.last() == '\u{2026}' || (t.last() == '.'
        && !abbreviated(t.drop_last())))
}

fn trim_end(v: &[char]) -> (r: Vec<char>)
    ensures
        r@ == end_trimmed(v@, crate::chars::whites()),
{
    let e = find_run_start(v, crate::chars::is_white, 0, v.len(), Ghost(crate::chars::whites()));
    let r = part(v, 0, e);
    assert(r@ =~= v@.take(e as int));
    r
}

fn ends_a_sentence(text: &str) -> (r: bool)
    ensures
        r == finishes_sentence(text@),
{
    let a = trim_end(&chars_of(text));
    let e = find_run_start(&a, is_closer, 0, a.len(), Ghost(closers()));
    let t = part(&a, 0, e);
    assert(t@ =~= a@.take(e as int));
    if t.len() == 0 {
        return false;
    }
    let last = t[t.len() - 1];
    if last == '!' || last == '?' || last == '\u{2026}' {
        return true;
    }
    if last != '.' {
        return false;
    }
    let head = part(&t, 0, t.len() - 1);
    assert(head@ =~= t@.drop_last());
    let s = find_run_start(&head, is_inside_word, 0, head.len(), Ghost(inside_word()));
    let w = part(&head, s, head.len());
    assert(w@ =~= head@.skip(s as int));
    !((w.len() == 1 && w[0].is_uppercase()) || is_listed_abbreviation(&w))
}

/// What separates `prev` from `next`.
pub open spec fn gap_between(prev: ChunkView, next: ChunkView) -> Gap {
    if prev.para != next.para {
        Gap::Para
    } else if finishes_sentence(prev.text) {
        Gap::Sentence
    } else {
        Gap::Phrase
    }
}

impl Gap {
    /// What separates `prev` from `next`.
    pub fn between(prev: &Chunk, next: &Chunk) -> (r: Self)
        ensures
            r == gap_between(prev@, next@),
    {
        if prev.para != next.para {
            Gap::Para
        } else if ends_a_sentence(prev.text.as_str()) {
            Gap::Sentence
        } else {
            Gap::Phrase
        }
    }
}

/// What separates each chunk of a chapter from the one before it.
pub open spec fn gaps_of(chunks: Seq<ChunkView>) -> Seq<Gap> {
    Seq::new(
        if chunks.len() == 0 {
            0
        } else {
            (chunks.len() - 1) as nat
        },
        |i: int| gap_between(chunks[i], chunks[i + 1]),
    )
}

/// What separates each chunk of a chapter from the one before it.
pub fn gaps(chunks: &[Chunk]) -> (r: Vec<Gap>)
    ensures
        r@ == gaps_of(chunk_views(chunks@)),
{
    let ghost cs = chunk_views(chunks@);
    let mut r: Vec<Gap> = Vec::new();
    let mut i: usize = 1;
    while i < chunks.len()
        invariant
            1 <= i,
            chunks@.len() > 0 ==> i <= chunks@.len(),
            chunks@.len() == 0 ==> i == 1,
            cs == chunk_views(chunks@),
            r@.len() == i - 1,
            forall|k: int| 0 <= k < i - 1 ==> #[trigger] r@[k] == gap_between(cs[k], cs[k + 1]),
        decreases chunks@.len() - i,
    {
        let g = Gap::between(&chunks[i - 1], &chunks[i]);
        assert(cs[i - 1] == chunks@[i - 1]@);
        assert(cs[i as int] == chunks@[i as int]@);
        r.push(g);
        i += 1;
    }
    assert(r@ =~= gaps_of(cs));
    r
}

// ----------------------------------------------------------------------- packing

/// The line that names `path` in a list of files to join, quoted.
pub open spec fn concat_line_of(path: Seq<char>) -> Seq<char> {
    "file '"@ + replaced(path, "'"@, "'\\''"@) + "'"@
}

/// The line that names `path` in a list of files to join, quoted.
pub fn concat_line(path: &str) -> (r: String)
    ensures
        r@ == concat_line_of(path@),
{
    proof {
        reveal_strlit("'");
    }
    let mut v = chars_of("file '");
    append(&mut v, &replace_all(&chars_of(path), &chars_of("'"), &chars_of("'\\''")));
    append(&mut v, &chars_of("'"));
    text_of(&v)
}

/// The silences that a chapter is joined with, by the pause they make.
pub struct Silences {
    pub para: String,
    pub sentence: String,
    pub phrase: String,
}

impl Silences {
    /// The silence for a pause.
    pub open spec fn for_gap(self, g: Gap) -> Seq<char> {
        match g {
            Gap::Para => self.para@,
            Gap::Sentence => self.sentence@,
            Gap::Phrase => self.phrase@,
        }
    }
}

/// The first `n` lines of the list that joins `paths`: each chunk, and the
/// silence before each but the first.
pub open spec fn concat_lines_upto(
    paths: Seq<Seq<char>>,
    gaps: Seq<Gap>,
    silences: Silences,
    n: nat,
) -> Seq<Seq<char>>
    decreases n,
{
    if n == 0 || n > paths.len() {
        Seq::empty()
    } else {
        let before = concat_lines_upto(paths, gaps, silences, (n - 1) as nat);
        let own = concat_line_of(paths[n - 1]);
        if n == 1 {
            before.push(own)
        } else {
            before.push(concat_line_of(silences.for_gap(gaps[n - 2]))).push(own)
        }
    }
}

/// The list that joins `paths` with the silences between them.
pub open spec fn concat_list_of(paths: Seq<Seq<char>>, gaps: Seq<Gap>, silences: Silences) -> Seq<
    char,
> {
    join(concat_lines_upto(paths, gaps, silences, paths.len()), "\n"@) + "\n"@
}

/// The list that joins `paths` with the silences between them. There is one
/// pause fewer than there are paths.
pub fn concat_list(paths: &Vec<String>, gaps: &Vec<Gap>, silences: &Silences) -> (r: String)
    requires
        paths@.len() == 0 || gaps@.len() == paths@.len() - 1,
    ensures
        r@ == concat_list_of(texts(paths@), gaps@, *silences),
{
    let ghost ps = texts(paths@);
    let mut lines: Vec<Vec<char>> = Vec::new();
    let mut i: usize = 0;
    assert(spelled(lines@) =~= Seq::<Seq<char>>::empty());
    while i < paths.len()
        invariant
            i <= paths@.len(),
            ps == texts(paths@),
            paths@.len() == 0 || gaps@.len() == paths@.len() - 1,
            spelled(lines@) == concat_lines_upto(ps, gaps@, *silences, i as nat),
        decreases paths@.len() - i,
    {
        let ghost before = spelled(lines@);
        if i > 0 {
            let quiet = match gaps[i - 1] {
                Gap::Para => &silences.para,
                Gap::Sentence => &silences.sentence,
                Gap::Phrase => &silences.phrase,
            };
            lines.push(chars_of(concat_line(quiet.as_str()).as_str()));
            assert(spelled(lines@) =~= before.push(
                concat_line_of(silences.for_gap(gaps@[i - 1])),
            ));
        }
        let ghost middle = spelled(lines@);
        assert(ps[i as int] == paths@[i as int]@);
        lines.push(chars_of(concat_line(paths[i].as_str()).as_str()));
        assert(spelled(lines@) =~= middle.push(concat_line_of(ps[i as int])));
        i += 1;
    }
    let mut all = join_chars(&lines, &chars_of("\n"));
    append(&mut all, &chars_of("\n"));
    text_of(&all)
}

/// The files of the first `n` chunks of a chapter, in order.
pub open spec fn chunk_paths_of(dir: Seq<char>, n: nat) -> Seq<Seq<char>> {
    Seq::new(n, |i: int| joined(dir, chunk_name(i as nat)))
}

/// What packing a chapter needs: the files of its chunks in order, and what
/// separates each from the one before it.
pub struct PackPlan {
    pub paths: Vec<String>,
    pub gaps: Vec<Gap>,
}

/// What packing chapter `ci` needs. A chapter with a hole is refused, and so is
/// one without chunks: a missing chunk would shift everything after it. `names`
/// are the files that the chapter's directory `dir` holds.
pub fn pack_plan(ci: usize, chunks: &[Chunk], dir: &str, names: &Vec<String>) -> (r: Result<
    PackPlan,
    PackError,
>)
    ensures
        ({
            let gone = missing_upto(texts(names@), chunks@.len());
            match r {
                Ok(p) => {
                    &&& gone.len() == 0
                    &&& chunks@.len() > 0
                    &&& texts(p.paths@) == chunk_paths_of(dir@, chunks@.len())
                    &&& p.gaps@ == gaps_of(chunk_views(chunks@))
                },
                Err(PackError::Incomplete(c, n)) => gone.len() > 0 && c == ci && n == gone.len(),
                Err(PackError::Empty(c)) => gone.len() == 0 && chunks@.len() == 0 && c == ci,
                Err(_) => false,
            }
        }),
{
    let gone = missing_chunks(names, chunks.len());
    if gone.len() > 0 {
        return Err(PackError::Incomplete(ci, gone.len()));
    }
    if chunks.len() == 0 {
        return Err(PackError::Empty(ci));
    }
    let mut paths: Vec<String> = Vec::new();
    let mut i: usize = 0;
    while i < chunks.len()
        invariant
            i <= chunks@.len(),
            texts(paths@) == chunk_paths_of(dir@, i as nat),
        decreases chunks@.len() - i,
    {
        let ghost before = texts(paths@);
        paths.push(join_path(dir, chunk_file(i).as_str()));
        assert(texts(paths@) =~= before.push(joined(dir@, chunk_name(i as nat))));
        i += 1;
        assert(texts(paths@) =~= chunk_paths_of(dir@, i as nat));
    }
    Ok(PackPlan { paths, gaps: gaps(chunks) })
}

/// The metadata arguments for `what`, where there is any.
pub open spec fn metadata_args(name: Seq<char>, what: Seq<char>) -> Seq<Seq<char>> {
    if what.len() == 0 {
        Seq::empty()
    } else {
        seq!["-metadata"@, name + what]
    }
}

/// The arguments that encode the list at `list` into `out`.
pub open spec fn pack_args_of(
    list: Seq<char>,
    bitrate: Seq<char>,
    book_title: Seq<char>,
    title: Seq<char>,
    out: Seq<char>,
) -> Seq<Seq<char>> {
    seq![
        "-v"@,
        "error"@,
        "-y"@,
        "-f"@,
        "concat"@,
        "-safe"@,
        "0"@,
        "-i"@,
        list,
        "-c:a"@,
        "aac"@,
        "-b:a"@,
        bitrate,
        "-ac"@,
        "1"@,
        "-movflags"@,
        "+faststart"@,
    ] + metadata_args("album="@, book_title) + metadata_args("title="@, title) + seq![
        "-f"@,
        "ipod"@,
        out,
    ]
}

fn push_metadata(args: &mut Vec<String>, name: &str, what: &str)
    ensures
        texts(final(args)@) == texts(old(args)@) + metadata_args(name@, what@),
{
    if !what.is_empty() {
        args.push("-metadata".to_owned());
        args.push(cat(name, what));
    }
    assert(texts(args@) =~= texts(old(args)@) + metadata_args(name@, what@));
}

/// The arguments that encode the list at `list` into `out`. The container is
/// named because the output's name does not give it away.
pub fn pack_args(list: &str, bitrate: &str, book_title: &str, title: &str, out: &str) -> (r: Vec<
    String,
>)
    ensures
        texts(r@) == pack_args_of(list@, bitrate@, book_title@, title@, out@),
{
    let mut args = vec![
        "-v".to_owned(),
        "error".to_owned(),
        "-y".to_owned(),
        "-f".to_owned(),
        "concat".to_owned(),
        "-safe".to_owned(),
        "0".to_owned(),
        "-i".to_owned(),
        list.to_owned(),
        "-c:a".to_owned(),
        "aac".to_owned(),
        "-b:a".to_owned(),
        bitrate.to_owned(),
        "-ac".to_owned(),
        "1".to_owned(),
        "-movflags".to_owned(),
        "+faststart".to_owned(),
    ];
    let ghost head = texts(args@);
    push_metadata(&mut args, "album=", book_title);
    push_metadata(&mut args, "title=", title);
    let ghost middle = texts(args@);
    args.push("-f".to_owned());
    args.push("ipod".to_owned());
    args.push(out.to_owned());
    assert(texts(args@) =~= middle + seq!["-f"@, "ipod"@, out@]);
    assert(head =~= pack_args_of(list@, bitrate@, ""@, ""@, out@).take(17));
    assert(texts(args@) =~= pack_args_of(list@, bitrate@, book_title@, title@, out@));
    args
}

/// The last line of what a failing encoder printed.
pub open spec fn last_line(printed: Seq<char>) -> Seq<char> {
    let t = trim_of(printed);
    if t.len() == 0 {
        "ffmpeg failed"@
    } else {
        split_at_char(t, '\n').last()
    }
}

/// The last line of what a failing encoder printed.
pub fn complaint(printed: &str) -> (r: String)
    ensures
        r@ == last_line(printed@),
{
    let t = trim_chars(&chars_of(printed));
    if t.len() == 0 {
        return "ffmpeg failed".to_owned();
    }
    let lines = split_char(&t, '\n');
    proof {
        crate::chars::lemma_split_nonempty(t@, '\n', 0);
        assert(spelled(lines@).last() == lines@[lines@.len() - 1]@);
    }
    text_of(&lines[lines.len() - 1])
}

/// The silences of a chapter's list stand between its chunks: one before each
/// chunk but the first, and never two together.
pub proof fn law_one_silence_between_chunks(
    paths: Seq<Seq<char>>,
    gaps: Seq<Gap>,
    silences: Silences,
    n: nat,
)
    requires
        n <= paths.len(),
    ensures
        ({
            let lines = concat_lines_upto(paths, gaps, silences, n);
            &&& lines.len() == if n == 0 {
                0
            } else {
                2 * n - 1
            }
            &&& forall|i: int| 0 <= i < n ==> lines[2 * i] == concat_line_of(#[trigger] paths[i])
            &&& forall|i: int|
                0 <= i < n - 1 ==> lines[2 * i + 1] == concat_line_of(
                    silences.for_gap(#[trigger] gaps[i]),
                )
        }),
    decreases n,
{
    if n > 0 {
        law_one_silence_between_chunks(paths, gaps, silences, (n - 1) as nat);
    }
}

// --------------------------------------------------------------------- streaming

/// The arguments that cut the packed chapter `audio` into segments in `dir`,
/// each `segment_s` seconds long, named under `base_url`.
pub fn hls_args(audio: &str, segment_s: &str, base_url: &str, dir: &str) -> (r: Vec<String>)
    ensures
        texts(r@) == seq![
            "-v"@,
            "error"@,
            "-y"@,
            "-i"@,
            audio@,
            "-c:a"@,
            "copy"@,
            "-f"@,
            "hls"@,
            "-hls_time"@,
            segment_s@,
            "-hls_playlist_type"@,
            "vod"@,
            "-hls_segment_type"@,
            "fmp4"@,
            "-hls_fmp4_init_filename"@,
            "init.mp4"@,
            "-hls_base_url"@,
            base_url@,
            "-hls_segment_filename"@,
            joined(dir@, "seg%05d.m4s"@),
            joined(dir@, "index.m3u8"@),
        ],
{
    let r = vec![
        "-v".to_owned(),
        "error".to_owned(),
        "-y".to_owned(),
        "-i".to_owned(),
        audio.to_owned(),
        "-c:a".to_owned(),
        "copy".to_owned(),
        "-f".to_owned(),
        "hls".to_owned(),
        "-hls_time".to_owned(),
        segment_s.to_owned(),
        "-hls_playlist_type".to_owned(),
        "vod".to_owned(),
        "-hls_segment_type".to_owned(),
        "fmp4".to_owned(),
        "-hls_fmp4_init_filename".to_owned(),
        "init.mp4".to_owned(),
        "-hls_base_url".to_owned(),
        base_url.to_owned(),
        "-hls_segment_filename".to_owned(),
        join_path(dir, "seg%05d.m4s"),
        join_path(dir, "index.m3u8"),
    ];
    assert(texts(r@) =~= seq![
        "-v"@,
        "error"@,
        "-y"@,
        "-i"@,
        audio@,
        "-c:a"@,
        "copy"@,
        "-f"@,
        "hls"@,
        "-hls_time"@,
        segment_s@,
        "-hls_playlist_type"@,
        "vod"@,
        "-hls_segment_type"@,
        "fmp4"@,
        "-hls_fmp4_init_filename"@,
        "init.mp4"@,
        "-hls_base_url"@,
        base_url@,
        "-hls_segment_filename"@,
        joined(dir@, "seg%05d.m4s"@),
        joined(dir@, "index.m3u8"@),
    ]);
    r
}

/// A playlist whose first segment is named under `base_url` like the others;
/// the segmenter names that one without it.
pub fn fix_playlist(playlist: &str, base_url: &str) -> (r: String)
    ensures
        r@ == replaced(
            playlist@,
            "#EXT-X-MAP:URI=\"init.mp4\""@,
            "#EXT-X-MAP:URI=\""@ + base_url@ + "init.mp4\""@,
        ),
{
    proof {
        reveal_strlit("#EXT-X-MAP:URI=\"init.mp4\"");
    }
    let mut to = chars_of("#EXT-X-MAP:URI=\"");
    append(&mut to, &chars_of(base_url));
    append(&mut to, &chars_of("init.mp4\""));
    text_of(
        &replace_all(&chars_of(playlist), &chars_of("#EXT-X-MAP:URI=\"init.mp4\""), &to),
    )
}

/// What asking for a chapter's playlist comes to.
#[derive(Debug, Clone, PartialEq)]
pub enum HlsStep {
    /// There is no packed chapter to cut.
    Refuse(PackError),
    /// The playlist is there.
    Serve,
    /// It has to be cut.
    Cut,
}

/// What asking for chapter `ci`'s playlist comes to. Asked once before waiting
/// for whoever may be cutting it, and once after.
pub fn hls_step(ci: usize, audio: bool, playlist: bool) -> (r: HlsStep)
    ensures
        r == if !audio {
            HlsStep::Refuse(PackError::Incomplete(ci, 0))
        } else if playlist {
            HlsStep::Serve
        } else {
            HlsStep::Cut
        },
{
    if !audio {
        HlsStep::Refuse(PackError::Incomplete(ci, 0))
    } else if playlist {
        HlsStep::Serve
    } else {
        HlsStep::Cut
    }
}

// --------------------------------------------------------------- what is building

/// The chapters being packed right now, each once.
pub struct Building {
    pub chapters: Vec<(String, usize)>,
}

/// A chapter of a book.
pub type ChapterId = (Seq<char>, usize);

/// What a vector of chapters names.
pub open spec fn chapter_ids(v: Seq<(String, usize)>) -> Seq<ChapterId> {
    v.map_values(|c: (String, usize)| (c.0@, c.1))
}

/// The name that `gc` knows a packed chapter by.
pub open spec fn tag_of(key: Seq<char>, ci: nat) -> Seq<char> {
    key + "/"@ + chapter_name(ci)
}

/// The name that `gc` knows a packed chapter by.
pub fn chapter_gc_tag(key: &str, ci: usize) -> (r: String)
    ensures
        r@ == tag_of(key@, ci as nat),
{
    cat(cat(key, "/").as_str(), chapter_tag(ci).as_str())
}

impl Building {
    /// No chapter is held twice.
    pub open spec fn wf(self) -> bool {
        chapter_ids(self.chapters@).no_duplicates()
    }

    /// Whether the chapter is being packed.
    pub open spec fn has(self, key: Seq<char>, ci: usize) -> bool {
        chapter_ids(self.chapters@).contains((key, ci))
    }

    /// Nothing is being packed.
    pub fn new() -> (r: Self)
        ensures
            r.wf(),
            r.chapters@.len() == 0,
    {
        Building { chapters: Vec::new() }
    }

    fn find(&self, key: &str, ci: usize) -> (r: Option<usize>)
        ensures
            match r {
                Some(i) => i < self.chapters@.len() && chapter_ids(self.chapters@)[i as int] == (
                    key@,
                    ci,
                ),
                None => !self.has(key@, ci),
            },
    {
        let mut i: usize = 0;
        while i < self.chapters.len()
            invariant
                i <= self.chapters@.len(),
                forall|k: int|
                    0 <= k < i ==> #[trigger] chapter_ids(self.chapters@)[k] != (key@, ci),
            decreases self.chapters@.len() - i,
        {
            let c = &self.chapters[i];
            assert(chapter_ids(self.chapters@)[i as int] == (c.0@, c.1));
            if c.1 == ci && same_text(c.0.as_str(), key) {
                return Some(i);
            }
            i += 1;
        }
        None
    }

    /// The packing of a chapter starts.
    pub fn insert(&mut self, key: &str, ci: usize)
        requires
            old(self).wf(),
        ensures
            final(self).wf(),
            forall|k: Seq<char>, c: usize|
                #[trigger] final(self).has(k, c) <==> (k == key@ && c == ci) || old(self).has(
                    k,
                    c,
                ),
    {
        if self.find(key, ci).is_none() {
            let ghost before = chapter_ids(self.chapters@);
            self.chapters.push((key.to_owned(), ci));
            let ghost after = chapter_ids(self.chapters@);
            proof {
                assert(after =~= before.push((key@, ci)));
                assert forall|k: Seq<char>, c: usize| #[trigger] self.has(k, c) <==> (k == key@
                    && c == ci) || before.contains((k, c)) by {
                    if before.contains((k, c)) {
                        let w = choose|w: int| 0 <= w < before.len() && before[w] == (k, c);
                        assert(after[w] == (k, c));
                    }
                    assert(after[before.len() as int] == (key@, ci));
                }
            }
        }
    }

    /// The packing of a chapter ends.
    pub fn remove(&mut self, key: &str, ci: usize)
        requires
            old(self).wf(),
        ensures
            final(self).wf(),
            forall|k: Seq<char>, c: usize|
                #[trigger] final(self).has(k, c) <==> !(k == key@ && c == ci) && old(self).has(
                    k,
                    c,
                ),
    {
        if let Some(i) = self.find(key, ci) {
            let ghost before = chapter_ids(self.chapters@);
            let _gone = self.chapters.remove(i);
            let ghost after = chapter_ids(self.chapters@);
            proof {
                assert(after =~= before.remove(i as int));
                assert forall|k: Seq<char>, c: usize| #[trigger] self.has(k, c) <==> !(k == key@
                    && c == ci) && before.contains((k, c)) by {
                    if before.contains((k, c)) && !(k == key@ && c == ci) {
                        let w = choose|w: int| 0 <= w < before.len() && before[w] == (k, c);
                        if w < i {
                            assert(after[w] == (k, c));
                        } else {
                            assert(after[w - 1] == (k, c));
                        }
                    }
                    if after.contains((k, c)) {
                        let w = choose|w: int| 0 <= w < after.len() && after[w] == (k, c);
                        let v = if w < i {
                            w
                        } else {
                            w + 1
                        };
                        assert(before[v] == (k, c));
                        assert(before[i as int] == (key@, ci));
                    }
                }
            }
        }
    }

    /// The names that `gc` knows them by.
    pub fn tags(&self) -> (r: Vec<String>)
        ensures
            texts(r@) == chapter_ids(self.chapters@).map_values(
                |c: ChapterId| tag_of(c.0, c.1 as nat),
            ),
    {
        let ghost all = chapter_ids(self.chapters@).map_values(
            |c: ChapterId| tag_of(c.0, c.1 as nat),
        );
        let mut r: Vec<String> = Vec::new();
        let mut i: usize = 0;
        while i < self.chapters.len()
            invariant
                i <= self.chapters@.len(),
                all == chapter_ids(self.chapters@).map_values(
                    |c: ChapterId| tag_of(c.0, c.1 as nat),
                ),
                texts(r@) == all.take(i as int),
            decreases self.chapters@.len() - i,
        {
            let ghost before = texts(r@);
            let c = &self.chapters[i];
            r.push(chapter_gc_tag(c.0.as_str(), c.1));
            assert(chapter_ids(self.chapters@)[i as int] == (c.0@, c.1));
            assert(texts(r@) =~= before.push(all[i as int]));
            assert(all.take(i + 1) =~= all.take(i as int).push(all[i as int]));
            i += 1;
        }
        assert(all.take(i as int) =~= all);
        r
    }
}

// ------------------------------------------------------------------ making room

/// Whether `v` holds the text `t`.
pub open spec fn listed(v: Seq<String>, t: Seq<char>) -> bool {
    exists|i: int| 0 <= i < v.len() && (#[trigger] v[i])@ == t
}

fn is_listed(v: &Vec<String>, t: &str) -> (r: bool)
    ensures
        r == listed(v@, t@),
{
    let mut i: usize = 0;
    while i < v.len()
        invariant
            i <= v@.len(),
            forall|k: int| 0 <= k < i ==> (#[trigger] v@[k])@ != t@,
        decreases v@.len() - i,
    {
        if same_text(v[i].as_str(), t) {
            return true;
        }
        i += 1;
    }
    false
}

/// Whether a chunk at `path` must stay: it is in one of the directories `keep`.
pub fn chunk_guarded(path: &str, keep: &Vec<String>) -> (r: bool)
    ensures
        r == match parent_of(path@) {
            Some(d) => listed(keep@, d),
            None => false,
        },
{
    match parent(path) {
        Some(d) => is_listed(keep, d.as_str()),
        None => false,
    }
}

/// The tag of the packed chapter at `path`: its directory's name and its stem.
pub open spec fn path_tag(path: Seq<char>) -> Option<Seq<char>> {
    match (parent_of(path), stem_of(path)) {
        (Some(d), Some(s)) => match name_of(d) {
            Some(n) => Some(n + "/"@ + s),
            None => None,
        },
        _ => None,
    }
}

/// The tag of the packed chapter at `path`.
pub fn tag_at_path(path: &str) -> (r: Option<String>)
    ensures
        match r {
            Some(t) => path_tag(path@) == Some(t@),
            None => path_tag(path@) is None,
        },
{
    match (parent(path), file_stem(path)) {
        (Some(d), Some(s)) => match file_name(d.as_str()) {
            Some(n) => Some(cat(cat(n.as_str(), "/").as_str(), s.as_str())),
            None => None,
        },
        _ => None,
    }
}

/// Whether a packed chapter at `path` must stay: it is being packed, it is kept,
/// or it is not a chapter's file at all.
pub fn chapter_guarded(path: &str, busy: &Vec<String>, keep: &Vec<String>) -> (r: bool)
    ensures
        r == match path_tag(path@) {
            Some(t) => listed(busy@, t) || listed(keep@, t),
            None => true,
        },
{
    match tag_at_path(path) {
        Some(t) => is_listed(busy, t.as_str()) || is_listed(keep, t.as_str()),
        None => true,
    }
}

/// Where the first `pat` in `s` at or after `i` starts.
pub open spec fn first_found(s: Seq<char>, pat: Seq<char>, i: int) -> Option<int>
    decreases s.len() + 1 - i,
{
    if i < 0 || i > s.len() {
        None
    } else if found_at(s, pat, i) {
        Some(i)
    } else {
        first_found(s, pat, i + 1)
    }
}

fn find_first(v: &[char], pat: &[char]) -> (r: Option<usize>)
    ensures
        match r {
            Some(i) => first_found(v@, pat@, 0) == Some(i as int) && i + pat@.len() <= v.len(),
            None => first_found(v@, pat@, 0) is None,
        },
{
    let mut i: usize = 0;
    loop
        invariant
            i <= v@.len(),
            first_found(v@, pat@, 0) == first_found(v@, pat@, i as int),
        decreases v@.len() - i,
    {
        if stands_at(v, pat, i) {
            return Some(i);
        }
        if i == v.len() {
            assert(first_found(v@, pat@, i + 1) is None);
            return None;
        }
        i += 1;
    }
}

/// The chapter that a tag names.
pub open spec fn chapter_of_tag(tag: Seq<char>) -> Option<(Seq<char>, usize)> {
    match first_found(tag, "/ch"@, 0) {
        Some(i) => match unsigned_word(tag.skip(i + 3)) {
            Some(ci) => Some((tag.take(i), ci)),
            None => None,
        },
        None => None,
    }
}

/// The chapter whose segments go when the packed chapter tagged `tag` goes: they
/// are a copy of that very file.
pub fn segments_of_tag(tag: &str) -> (r: Option<(String, usize)>)
    ensures
        match r {
            Some((k, ci)) => chapter_of_tag(tag@) == Some((k@, ci)),
            None => chapter_of_tag(tag@) is None,
        },
{
    let v = chars_of(tag);
    let pat = chars_of("/ch");
    proof {
        reveal_strlit("/ch");
    }
    match find_first(&v, &pat) {
        Some(i) => {
            let digits = part(&v, i + 3, v.len());
            assert(digits@ =~= tag@.skip(i + 3));
            match parse_word(&digits) {
                Some(ci) => {
                    let k = part(&v, 0, i);
                    assert(k@ =~= tag@.take(i as int));
                    Some((text_of(&k), ci))
                },
                None => None,
            }
        },
        None => None,
    }
}

proof fn lemma_first_found(s: Seq<char>, pat: Seq<char>, i: int, at: int)
    requires
        0 <= i <= at,
        found_at(s, pat, at),
        forall|k: int| i <= k < at ==> !found_at(s, pat, k),
    ensures
        first_found(s, pat, i) == Some(at),
    decreases at - i,
{
    if i < at {
        lemma_first_found(s, pat, i + 1, at);
    }
}

/// The tag of a packed chapter names that chapter, so the segments that go with
/// it are its own.
pub proof fn law_tags_name_their_chapter(key: Seq<char>, ci: usize)
    requires
        forall|i: int| 0 <= i < key.len() ==> #[trigger] key[i] != '/',
    ensures
        chapter_of_tag(tag_of(key, ci as nat)) == Some((key, ci)),
{
    let t = tag_of(key, ci as nat);
    let d = crate::chars::padded(decimal(ci as nat), 3);
    reveal_strlit("/ch");
    reveal_strlit("/");
    reveal_strlit("ch");
    crate::chars::lemma_padded(ci as nat, 3);
    let n = key.len() as int;
    assert(t.subrange(n, n + 3) =~= "/ch"@);
    assert forall|k: int| 0 <= k < n implies !found_at(t, "/ch"@, k) by {
        if found_at(t, "/ch"@, k) {
            assert(t.subrange(k, k + 3)[0] == '/');
            assert(t[k] == key[k]);
        }
    }
    lemma_first_found(t, "/ch"@, 0, n);
    assert(t.skip(n + 3) =~= d);
    assert(t.take(n) =~= key);
    assert(is_digit(d[0]));
}

// --------------------------------------------------------------------- positions

/// How many of the first starts lie at or before `at`, found by bisection.
fn starts_before(starts: &[i64], at: i64) -> (r: usize)
    ensures
        r <= starts@.len(),
        r > 0 ==> starts@[r - 1] <= at,
        r < starts@.len() ==> starts@[r as int] > at,
{
    let mut lo: usize = 0;
    let mut hi: usize = starts.len();
    while lo < hi
        invariant
            lo <= hi <= starts@.len(),
            lo > 0 ==> starts@[lo - 1] <= at,
            hi < starts@.len() ==> starts@[hi as int] > at,
        decreases hi - lo,
    {
        let mid: usize = lo + (hi - lo) / 2;
        if starts[mid] <= at {
            lo = mid + 1;
        } else {
            hi = mid;
        }
    }
    lo
}

/// Whether starts never fall.
pub open spec fn rising(starts: Seq<i64>) -> bool {
    forall|i: int, j: int| 0 <= i <= j < starts.len() ==> #[trigger] starts[i] <= #[trigger] starts[j]
}

/// Whether `r` is the chunk playing at `at`: the last to start by then, or the
/// first where none has.
pub open spec fn playing_at(starts: Seq<i64>, at: i64, r: int) -> bool {
    &&& starts.len() > 0 ==> 0 <= r < starts.len()
    &&& starts.len() == 0 ==> r == 0
    &&& 0 < r < starts.len() ==> starts[r] <= at
    &&& forall|k: int| r < k < starts.len() ==> #[trigger] starts[k] > at
}

/// The chunk playing at `at`, the inverse of a manifest's starts. Both are in
/// whatever unit the caller keeps, as long as it is the same one.
pub fn chunk_at(starts: &[i64], at: i64) -> (r: usize)
    ensures
        starts@.len() == 0 ==> r == 0,
        starts@.len() > 0 ==> r < starts@.len(),
        r > 0 ==> starts@[r as int] <= at,
        r + 1 < starts@.len() ==> starts@[r + 1] > at || (r == 0 && starts@[0] > at),
        rising(starts@) ==> playing_at(starts@, at, r as int),
{
    let n = starts_before(starts, at);
    let r: usize = if n == 0 {
        0
    } else {
        n - 1
    };
    r
}

/// A chunk plays at its own start, where no two chunks start together.
pub proof fn law_a_start_finds_its_chunk(starts: Seq<i64>, i: int, r: int)
    requires
        0 <= i < starts.len(),
        forall|a: int, b: int|
            0 <= a < b < starts.len() ==> #[trigger] starts[a] < #[trigger] starts[b],
        playing_at(starts, starts[i], r),
    ensures
        r == i,
{
    if r < i {
        assert(starts[i] > starts[i]);
    }
}

// ----------------------------------------------------------------------- bitrate

/// `s` without the suffix `x`, where it has it.
pub open spec fn ends_with(s: Seq<char>, x: Seq<char>) -> bool {
    s.len() >= x.len() && s.skip(s.len() - x.len()) == x
}

fn has_suffix(v: &[char], x: &[char]) -> (r: bool)
    ensures
        r == ends_with(v@, x@),
{
    if v.len() < x.len() {
        return false;
    }
    let tail = part(v, v.len() - x.len(), v.len());
    assert(tail@ =~= v@.skip(v@.len() - x@.len()));
    same(&tail, x)
}

/// The spellings of "bits per second" that a bitrate may end in.
pub open spec fn unit_len(s: Seq<char>) -> int {
    if ends_with(s, "bit/s"@) {
        "bit/s"@.len() as int
    } else if ends_with(s, "bits"@) {
        "bits"@.len() as int
    } else if ends_with(s, "bps"@) {
        "bps"@.len() as int
    } else if ends_with(s, "bit"@) {
        "bit"@.len() as int
    } else {
        0
    }
}

/// A bitrate's numeral and what it is multiplied by, as an encoder spells it: a
/// bare number of bits, or one with a `k` or an `m`.
pub open spec fn bitrate_parts_of(spec: Seq<char>) -> (Seq<char>, u64) {
    let low = lowered_text(trim_of(spec));
    let s = trim_of(low.take(low.len() - unit_len(low)));
    if s.len() > 0 && s.last() == 'k' {
        (trim_of(s.drop_last()), 1_000)
    } else if s.len() > 0 && s.last() == 'm' {
        (trim_of(s.drop_last()), 1_000_000)
    } else {
        (trim_of(s), 1)
    }
}

/// The bitrate that a spelling that cannot be read stands for.
pub const DEFAULT_BITRATE: u64 = 64_000;

/// A bitrate's numeral and what it is multiplied by.
pub fn bitrate_parts(spec: &str) -> (r: (String, u64))
    ensures
        (r.0@, r.1) == bitrate_parts_of(spec@),
{
    let low = lower_chars(&trim_chars(&chars_of(spec)));
    let u1 = chars_of("bit/s");
    let u2 = chars_of("bits");
    let u3 = chars_of("bps");
    let u4 = chars_of("bit");
    let cut: usize = if has_suffix(&low, &u1) {
        u1.len()
    } else if has_suffix(&low, &u2) {
        u2.len()
    } else if has_suffix(&low, &u3) {
        u3.len()
    } else if has_suffix(&low, &u4) {
        u4.len()
    } else {
        0
    };
    let bare = part(&low, 0, low.len() - cut);
    assert(bare@ =~= low@.take(low@.len() - unit_len(low@)));
    let s = trim_chars(&bare);
    if s.len() > 0 && (s[s.len() - 1] == 'k' || s[s.len() - 1] == 'm') {
        let mult: u64 = if s[s.len() - 1] == 'k' {
            1_000
        } else {
            1_000_000
        };
        let n = part(&s, 0, s.len() - 1);
        assert(n@ =~= s@.drop_last());
        (text_of(&trim_chars(&n)), mult)
    } else {
        (text_of(&trim_chars(&s)), 1)
    }
}

} // verus!
