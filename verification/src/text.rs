//! A book as text: a small index, and shards of whole chapters kept within a
//! budget of bytes.

use vstd::prelude::*;
use crate::book::{chapter_views, shown_title, Chapter, ChapterView, ChunkView};
use crate::chars::{append, cat, chars_of, decimal, found_at, padded, padded_chars, stands_at, text_of, texts};
use crate::paths::{join_path, joined};

verus! {

/// Where a book's text is kept.
pub fn text_dir(work: &str, key: &str) -> (r: String)
    ensures
        r@ == joined(joined(work@, "text"@), key@),
{
    join_path(join_path(work, "text").as_str(), key)
}

/// The compressed file beside `p`. The suffix is added, so that the plain file
/// can always be named.
pub fn gz_path(p: &str) -> (r: String)
    ensures
        r@ == p@ + ".gz"@,
{
    cat(p, ".gz")
}

/// The file of shard `si`: at least three digits and `.json`.
pub open spec fn shard_name(si: nat) -> Seq<char> {
    padded(decimal(si), 3) + ".json"@
}

/// The file of shard `si`.
pub fn shard_file(si: usize) -> (r: String)
    ensures
        r@ == shard_name(si as nat),
{
    let mut v = padded_chars(si as u64, 3);
    append(&mut v, &chars_of(".json"));
    text_of(&v)
}

/// `data`, compressed; nothing where that failed.
pub uninterp spec fn gzipped(data: Seq<u8>) -> Option<Seq<u8>>;

/// `flate2::GzBuilder` with no modification time, writing into memory at the
/// highest compression: the same bytes in give the same bytes out. What the
/// compressed form looks like is not restated here.
#[verifier::external_body]
fn gzip(data: &[u8]) -> (r: Option<Vec<u8>>)
    ensures
        match r {
            Some(v) => gzipped(data@) == Some(v@),
            None => gzipped(data@) is None,
        },
{
    let mut enc = flate2::GzBuilder::new().mtime(0).write(Vec::new(), flate2::Compression::new(9));
    std::io::Write::write_all(&mut enc, data).ok()?;
    enc.finish().ok()
}

/// What is written for the document `data` at `p`: the document itself, first,
/// and then its compressed form beside it. Nothing where it cannot be
/// compressed.
pub fn json_and_gz(p: &str, data: &[u8]) -> (r: Option<(String, Vec<u8>)>)
    ensures
        match r {
            Some((gz, bytes)) => gz@ == p@ + ".gz"@ && gzipped(data@) == Some(bytes@),
            None => gzipped(data@) is None,
        },
{
    match gzip(data) {
        Some(v) => Some((gz_path(p), v)),
        None => None,
    }
}

// ------------------------------------------------------------------------ shards

/// A chapter's words.
#[derive(Debug, Clone, PartialEq)]
pub struct ShardChapter {
    pub i: usize,
    pub paras: Vec<usize>,
    pub chunks: Vec<String>,
}

/// What a [`ShardChapter`] holds.
#[verifier::ext_equal]
pub struct ShardChapterView {
    pub i: nat,
    pub paras: Seq<usize>,
    pub chunks: Seq<Seq<char>>,
}

impl View for ShardChapter {
    type V = ShardChapterView;

    open spec fn view(&self) -> ShardChapterView {
        ShardChapterView { i: self.i as nat, paras: self.paras@, chunks: texts(self.chunks@) }
    }
}

/// What a vector of chapters' words holds.
pub open spec fn shard_views(v: Seq<ShardChapter>) -> Seq<ShardChapterView> {
    v.map_values(|c: ShardChapter| c@)
}

/// What a vector of such vectors holds.
pub open spec fn shards_views(v: Seq<Vec<ShardChapter>>) -> Seq<Seq<ShardChapterView>> {
    v.map_values(|s: Vec<ShardChapter>| shard_views(s@))
}

/// A chapter's words, out of its plan.
pub open spec fn words_of(c: ChapterView) -> ShardChapterView {
    ShardChapterView {
        i: c.index,
        paras: c.chunks.map_values(|k: ChunkView| k.para as usize),
        chunks: c.chunks.map_values(|k: ChunkView| k.text),
    }
}

/// How many bytes the first `n` chunks are counted as.
pub open spec fn bytes_upto(chunks: Seq<ChunkView>, n: nat) -> nat
    decreases n,
{
    if n == 0 || n > chunks.len() {
        0
    } else {
        bytes_upto(chunks, (n - 1) as nat) + vstd::utf8::encode_utf8(chunks[n - 1].text).len() + 12
    }
}

/// How many bytes a chapter is counted as: its text, and an allowance for what
/// the text is wrapped in.
pub open spec fn weight(c: ChapterView) -> nat {
    bytes_upto(c.chunks, c.chunks.len()) + 40
}

/// Shards that are finished, the one being filled, and its bytes.
pub struct Shards {
    pub done: Seq<Seq<ShardChapterView>>,
    pub cur: Seq<ShardChapterView>,
    pub bytes: nat,
}

/// Add a chapter to the shard being filled, where it stays within the budget
/// and the cap; otherwise start the next one with it.
pub open spec fn add_chapter(s: Shards, c: ChapterView, budget: nat, cap: nat) -> Shards {
    if s.cur.len() > 0 && (s.bytes + weight(c) > budget || s.cur.len() >= cap) {
        Shards { done: s.done.push(s.cur), cur: seq![words_of(c)], bytes: weight(c) }
    } else {
        Shards { done: s.done, cur: s.cur.push(words_of(c)), bytes: s.bytes + weight(c) }
    }
}

/// What the first `n` chapters of a plan are put into.
pub open spec fn shards_upto(plan: Seq<ChapterView>, n: nat, budget: nat, cap: nat) -> Shards
    decreases n,
{
    if n == 0 || n > plan.len() {
        Shards { done: Seq::empty(), cur: Seq::empty(), bytes: 0 }
    } else {
        add_chapter(shards_upto(plan, (n - 1) as nat, budget, cap), plan[n - 1], budget, cap)
    }
}

/// The shards of a plan.
pub open spec fn shards_of(plan: Seq<ChapterView>, budget: nat, cap: nat) -> Seq<
    Seq<ShardChapterView>,
> {
    let s = shards_upto(plan, plan.len(), budget, cap);
    if s.cur.len() > 0 {
        s.done.push(s.cur)
    } else {
        s.done
    }
}

/// Whether `x` stands for `n`: as a number, or as more than 64 bits hold.
spec fn stands_for(x: Option<u64>, n: nat) -> bool {
    match x {
        Some(v) => v == n,
        None => n > u64::MAX,
    }
}

fn plus(a: Option<u64>, b: Option<u64>, Ghost(m): Ghost<nat>, Ghost(n): Ghost<nat>) -> (r: Option<
    u64,
>)
    requires
        stands_for(a, m),
        stands_for(b, n),
    ensures
        stands_for(r, m + n),
{
    match (a, b) {
        (Some(x), Some(y)) => if x <= u64::MAX - y {
            Some(x + y)
        } else {
            None
        },
        _ => None,
    }
}

fn weigh(c: &Chapter) -> (r: Option<u64>)
    ensures
        stands_for(r, weight(c@)),
{
    let ghost cs = c@.chunks;
    let mut t: Option<u64> = Some(0);
    let mut i: usize = 0;
    while i < c.chunks.len()
        invariant
            i <= c.chunks@.len(),
            cs == c@.chunks,
            stands_for(t, bytes_upto(cs, i as nat)),
        decreases c.chunks@.len() - i,
    {
        let text = c.chunks[i].text.as_str();
        assert(cs[i as int].text == text@);
        let b = text.as_bytes();
        let n: u64 = b.len() as u64;
        let ghost len = vstd::utf8::encode_utf8(text@).len();
        t = plus(
            t,
            plus(Some(n), Some(12), Ghost(len), Ghost(12)),
            Ghost(bytes_upto(cs, i as nat)),
            Ghost(len + 12),
        );
        i += 1;
    }
    plus(t, Some(40), Ghost(bytes_upto(cs, cs.len())), Ghost(40))
}

fn words(c: &Chapter) -> (r: ShardChapter)
    ensures
        r@ == words_of(c@),
{
    let mut paras: Vec<usize> = Vec::new();
    let mut chunks: Vec<String> = Vec::new();
    let mut i: usize = 0;
    while i < c.chunks.len()
        invariant
            i <= c.chunks@.len(),
            paras@ == words_of(c@).paras.take(i as int),
            texts(chunks@) == words_of(c@).chunks.take(i as int),
        decreases c.chunks@.len() - i,
    {
        let k = &c.chunks[i];
        assert(c@.chunks[i as int] == k@);
        let ghost before = texts(chunks@);
        paras.push(k.para);
        chunks.push(k.text.clone());
        assert(texts(chunks@) =~= before.push(k.text@));
        assert(words_of(c@).chunks.take(i + 1) =~= words_of(c@).chunks.take(i as int).push(
            k.text@,
        ));
        assert(words_of(c@).paras.take(i + 1) =~= words_of(c@).paras.take(i as int).push(k.para));
        i += 1;
    }
    assert(words_of(c@).chunks.take(i as int) =~= words_of(c@).chunks);
    assert(words_of(c@).paras.take(i as int) =~= words_of(c@).paras);
    ShardChapter { i: c.index, paras, chunks }
}

/// The chapters of a plan, in order, in shards within a budget of bytes and a
/// cap on their number.
pub fn build_shards(plan: &[Chapter], budget: usize, cap: usize) -> (r: Vec<Vec<ShardChapter>>)
    ensures
        shards_views(r@) == shards_of(chapter_views(plan@), budget as nat, cap as nat),
{
    let ghost pv = chapter_views(plan@);
    let mut done: Vec<Vec<ShardChapter>> = Vec::new();
    let mut cur: Vec<ShardChapter> = Vec::new();
    let mut bytes: Option<u64> = Some(0);
    let mut i: usize = 0;
    assert(shards_views(done@) =~= Seq::<Seq<ShardChapterView>>::empty());
    assert(shard_views(cur@) =~= Seq::<ShardChapterView>::empty());
    while i < plan.len()
        invariant
            i <= plan@.len(),
            pv == chapter_views(plan@),
            ({
                let s = shards_upto(pv, i as nat, budget as nat, cap as nat);
                &&& shards_views(done@) == s.done
                &&& shard_views(cur@) == s.cur
                &&& stands_for(bytes, s.bytes)
            }),
        decreases plan@.len() - i,
    {
        let c = &plan[i];
        let ghost s = shards_upto(pv, i as nat, budget as nat, cap as nat);
        assert(pv[i as int] == c@);
        let body = words(c);
        let size = weigh(c);
        let sum = plus(bytes, size, Ghost(s.bytes), Ghost(weight(c@)));
        let over = match sum {
            Some(t) => t > budget as u64,
            None => true,
        };
        if cur.len() > 0 && (over || cur.len() >= cap) {
            let ghost before = shards_views(done@);
            let ghost full = shard_views(cur@);
            done.push(cur);
            assert(shards_views(done@) =~= before.push(full));
            cur = Vec::new();
            cur.push(body);
            assert(shard_views(cur@) =~= seq![body@]);
            bytes = size;
        } else {
            let ghost before = shard_views(cur@);
            cur.push(body);
            assert(shard_views(cur@) =~= before.push(body@));
            bytes = sum;
        }
        i += 1;
    }
    if cur.len() > 0 {
        let ghost before = shards_views(done@);
        let ghost full = shard_views(cur@);
        done.push(cur);
        assert(shards_views(done@) =~= before.push(full));
    }
    done
}

// ------------------------------------------------------------------- the bundle

/// A run of whole chapters.
#[derive(Debug, Clone, PartialEq)]
pub struct TextShard {
    pub shard: usize,
    pub from: usize,
    pub to: usize,
    pub chapters: Vec<ShardChapter>,
}

/// A chapter in the index: its title, how many chunks it has, and which shard
/// holds its words.
#[derive(Debug, Clone, PartialEq)]
pub struct ChapMeta {
    pub i: usize,
    pub title: String,
    pub n: usize,
    pub shard: Option<usize>,
}

/// What a [`ChapMeta`] holds.
pub struct ChapMetaView {
    pub i: nat,
    pub title: Seq<char>,
    pub n: nat,
    pub shard: Option<usize>,
}

impl View for ChapMeta {
    type V = ChapMetaView;

    open spec fn view(&self) -> ChapMetaView {
        ChapMetaView { i: self.i as nat, title: self.title@, n: self.n as nat, shard: self.shard }
    }
}

/// The index of a book's text.
#[derive(Debug, Clone, PartialEq)]
pub struct BookIndex {
    pub key: String,
    pub name: String,
    pub title: String,
    pub shards: usize,
    pub text_bytes: u64,
    pub chapters: Vec<ChapMeta>,
}

/// Shard `si`, with the first and the last chapter that it holds.
pub open spec fn is_shard(t: TextShard, si: nat, words: Seq<ShardChapterView>) -> bool {
    &&& t.shard == si
    &&& shard_views(t.chapters@) == words
    &&& t.from == if words.len() > 0 {
        words[0].i
    } else {
        0
    }
    &&& t.to == if words.len() > 0 {
        words.last().i
    } else {
        0
    }
}

/// Shard `si`, with the first and the last chapter that it holds.
pub fn text_shard(si: usize, chapters: Vec<ShardChapter>) -> (r: TextShard)
    ensures
        is_shard(r, si as nat, shard_views(chapters@)),
{
    let n = chapters.len();
    let from: usize = if n > 0 {
        chapters[0].i
    } else {
        0
    };
    let to: usize = if n > 0 {
        chapters[n - 1].i
    } else {
        0
    };
    assert(n > 0 ==> shard_views(chapters@)[0] == chapters@[0]@);
    assert(n > 0 ==> shard_views(chapters@).last() == chapters@[n - 1]@);
    TextShard { shard: si, from, to, chapters }
}

/// Whether a run of chapters holds chapter `i`.
pub open spec fn shard_has(words: Seq<ShardChapterView>, i: nat) -> bool {
    exists|k: int| 0 <= k < words.len() && (#[trigger] words[k]).i == i
}

/// The last of the first `n` shards that holds chapter `i`.
pub open spec fn shard_of_upto(shards: Seq<Seq<ShardChapterView>>, i: nat, n: nat) -> Option<usize>
    decreases n,
{
    if n == 0 || n > shards.len() {
        None
    } else if shard_has(shards[n - 1], i) {
        Some((n - 1) as usize)
    } else {
        shard_of_upto(shards, i, (n - 1) as nat)
    }
}

/// A chapter's entry in the index.
pub open spec fn meta_of(c: ChapterView, shards: Seq<Seq<ShardChapterView>>) -> ChapMetaView {
    ChapMetaView {
        i: c.index,
        title: shown_title(c),
        n: c.chunks.len(),
        shard: shard_of_upto(shards, c.index, shards.len()),
    }
}

fn find_shard(shards: &Vec<Vec<ShardChapter>>, i: usize) -> (r: Option<usize>)
    ensures
        r == shard_of_upto(shards_views(shards@), i as nat, shards@.len()),
{
    let ghost sv = shards_views(shards@);
    let mut n: usize = shards.len();
    while n > 0
        invariant
            n <= shards@.len(),
            sv == shards_views(shards@),
            shard_of_upto(sv, i as nat, shards@.len()) == shard_of_upto(sv, i as nat, n as nat),
        decreases n,
    {
        let run = &shards[n - 1];
        assert(sv[n - 1] == shard_views(run@));
        let mut k: usize = 0;
        while k < run.len()
            invariant
                k <= run@.len(),
                n > 0,
                n <= shards@.len(),
                sv == shards_views(shards@),
                sv[n - 1] == shard_views(run@),
                shard_of_upto(sv, i as nat, shards@.len()) == shard_of_upto(
                    sv,
                    i as nat,
                    n as nat,
                ),
                forall|m: int| 0 <= m < k ==> (#[trigger] shard_views(run@)[m]).i != i,
            decreases run@.len() - k,
        {
            assert(shard_views(run@)[k as int] == run@[k as int]@);
            if run[k].i == i {
                return Some(n - 1);
            }
            k += 1;
        }
        n -= 1;
    }
    None
}

/// What a vector of index entries holds.
pub open spec fn meta_views(v: Seq<ChapMeta>) -> Seq<ChapMetaView> {
    v.map_values(|m: ChapMeta| m@)
}

/// The index entries of a plan.
pub open spec fn metas_of(plan: Seq<ChapterView>, shards: Seq<Seq<ShardChapterView>>) -> Seq<
    ChapMetaView,
> {
    plan.map_values(|c: ChapterView| meta_of(c, shards))
}

/// The index entries of a plan whose words are in `shards`.
pub fn index_entries(plan: &[Chapter], shards: &Vec<Vec<ShardChapter>>) -> (r: Vec<ChapMeta>)
    requires
        forall|i: int| 0 <= i < plan@.len() ==> (#[trigger] plan@[i]).index < u64::MAX,
    ensures
        meta_views(r@) == metas_of(chapter_views(plan@), shards_views(shards@)),
{
    let ghost all = metas_of(chapter_views(plan@), shards_views(shards@));
    let mut r: Vec<ChapMeta> = Vec::new();
    let mut i: usize = 0;
    while i < plan.len()
        invariant
            i <= plan@.len(),
            forall|k: int| 0 <= k < plan@.len() ==> (#[trigger] plan@[k]).index < u64::MAX,
            all == metas_of(chapter_views(plan@), shards_views(shards@)),
            meta_views(r@) == all.take(i as int),
        decreases plan@.len() - i,
    {
        let c = &plan[i];
        let m = ChapMeta {
            i: c.index,
            title: c.display_title(),
            n: c.chunks.len(),
            shard: find_shard(shards, c.index),
        };
        let ghost before = meta_views(r@);
        assert(chapter_views(plan@)[i as int] == c@);
        assert(m@ == all[i as int]);
        r.push(m);
        assert(meta_views(r@) =~= before.push(m@));
        assert(all.take(i + 1) =~= all.take(i as int).push(m@));
        i += 1;
    }
    assert(all.take(i as int) =~= all);
    r
}

/// The first entry for chapter `i`.
pub open spec fn entry_from(metas: Seq<ChapMetaView>, i: nat, k: int) -> Option<int>
    decreases metas.len() - k,
{
    if k < 0 || k >= metas.len() {
        None
    } else if metas[k].i == i {
        Some(k)
    } else {
        entry_from(metas, i, k + 1)
    }
}

/// The first of a run's chapters that is chapter `i`.
pub open spec fn chapter_from(words: Seq<ShardChapterView>, i: nat, k: int) -> Option<int>
    decreases words.len() - k,
{
    if k < 0 || k >= words.len() {
        None
    } else if words[k].i == i {
        Some(k)
    } else {
        chapter_from(words, i, k + 1)
    }
}

fn find_entry(index: &BookIndex, ci: usize) -> (r: Option<usize>)
    ensures
        match r {
            Some(k) => entry_from(meta_views(index.chapters@), ci as nat, 0) == Some(k as int) && k
                < index.chapters@.len(),
            None => entry_from(meta_views(index.chapters@), ci as nat, 0) is None,
        },
{
    let ghost ms = meta_views(index.chapters@);
    let mut k: usize = 0;
    while k < index.chapters.len()
        invariant
            k <= index.chapters@.len(),
            ms == meta_views(index.chapters@),
            entry_from(ms, ci as nat, 0) == entry_from(ms, ci as nat, k as int),
        decreases index.chapters@.len() - k,
    {
        assert(ms[k as int] == index.chapters@[k as int]@);
        if index.chapters[k].i == ci {
            return Some(k);
        }
        k += 1;
    }
    None
}

fn find_words(shard: &TextShard, ci: usize) -> (r: Option<usize>)
    ensures
        match r {
            Some(k) => chapter_from(shard_views(shard.chapters@), ci as nat, 0) == Some(k as int)
                && k < shard.chapters@.len(),
            None => chapter_from(shard_views(shard.chapters@), ci as nat, 0) is None,
        },
{
    let ghost ws = shard_views(shard.chapters@);
    let mut k: usize = 0;
    while k < shard.chapters.len()
        invariant
            k <= shard.chapters@.len(),
            ws == shard_views(shard.chapters@),
            chapter_from(ws, ci as nat, 0) == chapter_from(ws, ci as nat, k as int),
        decreases shard.chapters@.len() - k,
    {
        assert(ws[k as int] == shard.chapters@[k as int]@);
        if shard.chapters[k].i == ci {
            return Some(k);
        }
        k += 1;
    }
    None
}

/// The shard that holds chapter `ci`, by the index of the book under `key`.
pub open spec fn shard_wanted(key: Seq<char>, metas: Seq<ChapMetaView>, ci: nat) -> Option<usize> {
    if key.len() == 0 {
        None
    } else {
        match entry_from(metas, ci, 0) {
            Some(k) => metas[k].shard,
            None => None,
        }
    }
}

/// The shard to read for chapter `ci` of the book under `key`.
pub fn shard_for(key: &str, index: &BookIndex, ci: usize) -> (r: Option<usize>)
    ensures
        r == shard_wanted(key@, meta_views(index.chapters@), ci as nat),
{
    if key.is_empty() {
        return None;
    }
    match find_entry(index, ci) {
        Some(k) => index.chapters[k].shard,
        None => None,
    }
}

/// A chapter read back: its title and its words.
pub open spec fn read_back(
    metas: Seq<ChapMetaView>,
    words: Seq<ShardChapterView>,
    ci: nat,
) -> Option<(Seq<char>, ShardChapterView)> {
    match (entry_from(metas, ci, 0), chapter_from(words, ci, 0)) {
        (Some(m), Some(w)) => Some((metas[m].title, words[w])),
        _ => None,
    }
}

/// Chapter `ci` out of a book's index and the shard that [`shard_for`] names: its
/// title, the paragraph of each chunk, and the chunks.
pub fn chapter_from_bundle(index: &BookIndex, shard: &TextShard, ci: usize) -> (r: Option<
    (String, Vec<usize>, Vec<String>),
>)
    ensures
        ({
            let back = read_back(
                meta_views(index.chapters@),
                shard_views(shard.chapters@),
                ci as nat,
            );
            match r {
                Some((title, paras, chunks)) => back matches Some((t, w)) && title@ == t && paras@
                    == w.paras && texts(chunks@) == w.chunks,
                None => back is None,
            }
        }),
{
    match (find_entry(index, ci), find_words(shard, ci)) {
        (Some(m), Some(w)) => {
            let c = &shard.chapters[w];
            assert(meta_views(index.chapters@)[m as int] == index.chapters@[m as int]@);
            assert(shard_views(shard.chapters@)[w as int] == c@);
            Some((index.chapters[m].title.clone(), copy_words(&c.paras), copy_texts(&c.chunks)))
        },
        _ => None,
    }
}

fn copy_words(v: &Vec<usize>) -> (r: Vec<usize>)
    ensures
        r@ == v@,
{
    let mut r: Vec<usize> = Vec::new();
    let mut i: usize = 0;
    while i < v.len()
        invariant
            i <= v@.len(),
            r@ == v@.take(i as int),
        decreases v@.len() - i,
    {
        r.push(v[i]);
        i += 1;
    }
    assert(v@.take(i as int) =~= v@);
    r
}

/// A vector of the same texts.
pub fn copy_texts(v: &Vec<String>) -> (r: Vec<String>)
    ensures
        r@ == v@,
{
    let mut r: Vec<String> = Vec::new();
    let mut i: usize = 0;
    while i < v.len()
        invariant
            i <= v@.len(),
            r@ == v@.take(i as int),
        decreases v@.len() - i,
    {
        r.push(v[i].clone());
        i += 1;
    }
    assert(v@.take(i as int) =~= v@);
    r
}

/// What a voice memo on chapter `ci` needs of the book: its title, its file, the
/// chapter's title and its chunks.
pub fn note_chapter(index: &BookIndex, shard: &TextShard, ci: usize) -> (r: Option<
    (String, String, String, Vec<String>),
>)
    ensures
        ({
            let back = read_back(
                meta_views(index.chapters@),
                shard_views(shard.chapters@),
                ci as nat,
            );
            match r {
                Some((book, name, title, chunks)) => back matches Some((t, w)) && book@
                    == index.title@ && name@ == index.name@ && title@ == t && texts(chunks@)
                    == w.chunks,
                None => back is None,
            }
        }),
{
    match chapter_from_bundle(index, shard, ci) {
        Some((title, _paras, chunks)) => Some(
            (index.title.clone(), index.name.clone(), title, chunks),
        ),
        None => None,
    }
}

// --------------------------------------------------------------------- the swap

/// What is left of an interrupted build of the book under `key`.
pub open spec fn leftover(key: Seq<char>, name: Seq<char>) -> bool {
    found_at(name, "."@ + key + ".building-"@, 0) || found_at(name, "."@ + key + ".old-"@, 0)
}

/// Whether the directory named `name` was left by an interrupted build of the
/// book under `key`.
pub fn is_leftover(key: &str, name: &str) -> (r: bool)
    ensures
        r == leftover(key@, name@),
{
    let v = chars_of(name);
    let dotted = cat(".", key);
    stands_at(&v, &chars_of(cat(dotted.as_str(), ".building-").as_str()), 0) || stands_at(
        &v,
        &chars_of(cat(dotted.as_str(), ".old-").as_str()),
        0,
    )
}

/// What became of moving the live bundle aside.
#[derive(Debug, Clone, Copy, PartialEq, Eq, Structural)]
pub enum Aside {
    Moved,
    Absent,
    Failed,
}

/// What is done next when a new bundle is put in place of the live one.
#[derive(Debug, Clone, Copy, PartialEq, Eq, Structural)]
pub enum Swap {
    /// Move the live bundle aside.
    StepAside,
    /// Move the new one in; `had_old` says whether there was a live one.
    MoveIn { had_old: bool },
    /// It is in place: the old one goes, where there was one.
    Done { drop_old: bool },
    /// It failed: the old one comes back, where there was one, and the new one
    /// goes.
    Fail { restore_old: bool },
}

/// After the new bundle was built, or was not.
pub fn after_build(built: bool) -> (r: Swap)
    ensures
        r == if built {
            Swap::StepAside
        } else {
            Swap::Fail { restore_old: false }
        },
{
    if built {
        Swap::StepAside
    } else {
        Swap::Fail { restore_old: false }
    }
}

/// After the live bundle was to be moved aside.
pub fn after_aside(a: Aside) -> (r: Swap)
    ensures
        r == match a {
            Aside::Moved => Swap::MoveIn { had_old: true },
            Aside::Absent => Swap::MoveIn { had_old: false },
            Aside::Failed => Swap::Fail { restore_old: false },
        },
{
    match a {
        Aside::Moved => Swap::MoveIn { had_old: true },
        Aside::Absent => Swap::MoveIn { had_old: false },
        Aside::Failed => Swap::Fail { restore_old: false },
    }
}

/// After the new bundle was to be moved in: a book that had its words before has
/// them after, whatever failed.
pub fn after_move_in(had_old: bool, moved: bool) -> (r: Swap)
    ensures
        r == if moved {
            Swap::Done { drop_old: had_old }
        } else {
            Swap::Fail { restore_old: had_old }
        },
{
    if moved {
        Swap::Done { drop_old: had_old }
    } else {
        Swap::Fail { restore_old: had_old }
    }
}

// -------------------------------------------------------------------------- laws

/// The chapters of `shards`, one after the other.
pub open spec fn all_words(plan: Seq<ChapterView>) -> Seq<ShardChapterView> {
    plan.map_values(|c: ChapterView| words_of(c))
}

/// How many bytes the plan's chapters from `a` to `b` are counted as.
pub open spec fn weight_between(plan: Seq<ChapterView>, a: int, b: int) -> nat
    decreases b - a,
{
    if a >= b || a < 0 || b > plan.len() {
        0
    } else {
        weight_between(plan, a, b - 1) + weight(plan[b - 1])
    }
}

/// Whether a run of chapters is a fair shard of the plan, starting at `a`.
pub open spec fn fair_shard(
    plan: Seq<ChapterView>,
    a: int,
    run: Seq<ShardChapterView>,
    budget: nat,
    cap: nat,
) -> bool {
    &&& run.len() > 0
    &&& 0 <= a && a + run.len() <= plan.len()
    &&& run == all_words(plan).subrange(a, a + run.len())
    &&& run.len() > 1 ==> weight_between(plan, a, a + run.len()) <= budget
    &&& run.len() > 1 ==> run.len() <= cap
}

spec fn shards_inv(plan: Seq<ChapterView>, s: Shards, n: nat, budget: nat, cap: nat) -> bool {
    let k = s.done.flatten().len() as int;
    &&& s.done.flatten() == all_words(plan).take(k)
    &&& k + s.cur.len() == n
    &&& forall|j: int|
        0 <= j < s.done.len() ==> fair_shard(
            plan,
            s.done.take(j).flatten().len() as int,
            #[trigger] s.done[j],
            budget,
            cap,
        )
    &&& s.cur.len() > 0 ==> fair_shard(plan, k, s.cur, budget, cap)
    &&& n > 0 ==> s.cur.len() > 0
    &&& s.bytes == weight_between(plan, k, n as int)
}

proof fn lemma_shards_inv(plan: Seq<ChapterView>, n: nat, budget: nat, cap: nat)
    requires
        n <= plan.len(),
    ensures
        shards_inv(plan, shards_upto(plan, n, budget, cap), n, budget, cap),
    decreases n,
{
    let s = shards_upto(plan, n, budget, cap);
    let all = all_words(plan);
    if n == 0 {
        assert(s.done.flatten() =~= all.take(0));
    } else {
        let b = shards_upto(plan, (n - 1) as nat, budget, cap);
        let c = plan[n - 1];
        lemma_shards_inv(plan, (n - 1) as nat, budget, cap);
        let k = b.done.flatten().len() as int;
        assert(all[n - 1] == words_of(c));
        if b.cur.len() > 0 && (b.bytes + weight(c) > budget || b.cur.len() >= cap) {
            b.done.lemma_flatten_push(b.cur);
            assert(s.done.flatten() =~= all.take(n - 1));
            assert(s.cur =~= all.subrange(n - 1, n as int));
            assert forall|j: int| 0 <= j < s.done.len() implies fair_shard(
                plan,
                s.done.take(j).flatten().len() as int,
                #[trigger] s.done[j],
                budget,
                cap,
            ) by {
                assert(s.done.take(j) =~= b.done.take(j));
                if j < b.done.len() {
                    assert(s.done[j] == b.done[j]);
                } else {
                    assert(b.done.take(j) =~= b.done);
                }
            }
            assert(weight_between(plan, n - 1, n - 1) == 0);
            assert(weight_between(plan, n - 1, n as int) == weight(c));
        } else {
            assert(s.cur =~= all.subrange(k, n as int));
            assert(s.cur.len() > 1 ==> b.cur.len() > 0);
            assert forall|j: int| 0 <= j < s.done.len() implies fair_shard(
                plan,
                s.done.take(j).flatten().len() as int,
                #[trigger] s.done[j],
                budget,
                cap,
            ) by {}
        }
    }
}

/// The shards of a plan hold its chapters in order, every one and no other; each
/// holds at least one chapter, and more than one only within the budget and the
/// cap.
pub proof fn law_shards_partition_the_plan(plan: Seq<ChapterView>, budget: nat, cap: nat)
    ensures
        ({
            let shards = shards_of(plan, budget, cap);
            &&& shards.flatten() == all_words(plan)
            &&& forall|j: int|
                0 <= j < shards.len() ==> fair_shard(
                    plan,
                    shards.take(j).flatten().len() as int,
                    #[trigger] shards[j],
                    budget,
                    cap,
                )
        }),
{
    let n = plan.len();
    let s = shards_upto(plan, n, budget, cap);
    let all = all_words(plan);
    let shards = shards_of(plan, budget, cap);
    lemma_shards_inv(plan, n, budget, cap);
    let k = s.done.flatten().len() as int;
    if s.cur.len() > 0 {
        s.done.lemma_flatten_push(s.cur);
        assert(shards.flatten() =~= all);
        assert forall|j: int| 0 <= j < shards.len() implies fair_shard(
            plan,
            shards.take(j).flatten().len() as int,
            #[trigger] shards[j],
            budget,
            cap,
        ) by {
            assert(shards.take(j) =~= s.done.take(j));
            if j < s.done.len() {
                assert(shards[j] == s.done[j]);
            } else {
                assert(s.done.take(j) =~= s.done);
            }
        }
    } else {
        assert(all.take(k) =~= all);
    }
}

proof fn lemma_in_some_run(runs: Seq<Seq<ShardChapterView>>, k: int) -> (at: int)
    requires
        0 <= k < runs.flatten().len(),
    ensures
        0 <= at < runs.len(),
        shard_has(runs[at], runs.flatten()[k].i),
    decreases runs.len(),
{
    let first = runs.first();
    let rest = runs.drop_first();
    assert(runs.flatten() == first + rest.flatten());
    if k < first.len() {
        assert(runs.flatten()[k] == first[k]);
        assert(shard_has(runs[0], runs.flatten()[k].i));
        0
    } else {
        assert(runs.flatten()[k] == rest.flatten()[k - first.len()]);
        let at = lemma_in_some_run(rest, k - first.len());
        assert(rest[at] == runs[at + 1]);
        at + 1
    }
}

proof fn lemma_shard_of_upto(runs: Seq<Seq<ShardChapterView>>, i: nat, n: nat, at: int)
    requires
        0 <= at < n <= runs.len(),
        runs.len() <= usize::MAX,
        shard_has(runs[at], i),
    ensures
        shard_of_upto(runs, i, n) is Some,
        shard_of_upto(runs, i, n)->0 < n,
        shard_has(runs[shard_of_upto(runs, i, n)->0 as int], i),
    decreases n,
{
    if !shard_has(runs[n - 1], i) {
        lemma_shard_of_upto(runs, i, (n - 1) as nat, at);
    }
}

proof fn lemma_chapter_from(words: Seq<ShardChapterView>, i: nat, k: int)
    requires
        0 <= k,
        exists|m: int| k <= m < words.len() && (#[trigger] words[m]).i == i,
    ensures
        chapter_from(words, i, k) is Some,
        k <= chapter_from(words, i, k)->0 < words.len(),
        words[chapter_from(words, i, k)->0].i == i,
    decreases words.len() - k,
{
    let m = choose|m: int| k <= m < words.len() && (#[trigger] words[m]).i == i;
    if words[k].i != i {
        assert(k + 1 <= m);
        lemma_chapter_from(words, i, k + 1);
    }
}

proof fn lemma_entry_from(metas: Seq<ChapMetaView>, i: nat, k: int, at: int)
    requires
        0 <= k <= at < metas.len(),
        metas[at].i == i,
        forall|m: int| 0 <= m < at ==> (#[trigger] metas[m]).i != i,
    ensures
        entry_from(metas, i, k) == Some(at),
    decreases at - k,
{
    if k < at {
        lemma_entry_from(metas, i, k + 1, at);
    }
}

proof fn lemma_no_entry(metas: Seq<ChapMetaView>, i: nat, k: int)
    requires
        0 <= k,
        forall|m: int| 0 <= m < metas.len() ==> (#[trigger] metas[m]).i != i,
    ensures
        entry_from(metas, i, k) is None,
    decreases metas.len() - k,
{
    if k < metas.len() {
        lemma_no_entry(metas, i, k + 1);
    }
}

/// What was put into a bundle is read back out of it. The index names the shard
/// that holds a chapter, and that shard gives back the chapter's title and its
/// words, for every chapter of a plan whose chapters are told apart by index. A
/// number that no chapter of the plan has names no shard, and gives nothing from any.
pub proof fn law_a_chapter_reads_back(
    plan: Seq<ChapterView>,
    budget: nat,
    cap: nat,
    key: Seq<char>,
    ci: nat,
)
    requires
        key.len() > 0,
        plan.len() <= usize::MAX,
        forall|a: int, b: int|
            0 <= a < b < plan.len() ==> (#[trigger] plan[a]).index != (#[trigger] plan[b]).index,
    ensures
        ({
            let shards = shards_of(plan, budget, cap);
            let metas = metas_of(plan, shards);
            &&& forall|k: int|
                0 <= k < plan.len() && (#[trigger] plan[k]).index == ci ==> {
                    &&& shard_wanted(key, metas, ci) is Some
                    &&& shard_wanted(key, metas, ci)->0 < shards.len()
                    &&& read_back(metas, shards[shard_wanted(key, metas, ci)->0 as int], ci)
                        == Some((shown_title(plan[k]), words_of(plan[k])))
                }
            &&& (forall|k: int| 0 <= k < plan.len() ==> (#[trigger] plan[k]).index != ci)
                ==> shard_wanted(key, metas, ci) is None && forall|words: Seq<
                ShardChapterView,
            >| (#[trigger] read_back(metas, words, ci)) is None
        }),
{
    let shards = shards_of(plan, budget, cap);
    let metas = metas_of(plan, shards);
    assert forall|k: int| 0 <= k < plan.len() && (#[trigger] plan[k]).index == ci implies {
        &&& shard_wanted(key, metas, ci) is Some
        &&& shard_wanted(key, metas, ci)->0 < shards.len()
        &&& read_back(metas, shards[shard_wanted(key, metas, ci)->0 as int], ci) == Some(
            (shown_title(plan[k]), words_of(plan[k])),
        )
    } by {
        lemma_reads_back(plan, budget, cap, key, k);
    }
    if forall|k: int| 0 <= k < plan.len() ==> (#[trigger] plan[k]).index != ci {
        assert forall|m: int| 0 <= m < metas.len() implies (#[trigger] metas[m]).i != ci by {
            assert(metas[m].i == plan[m].index);
        }
        lemma_no_entry(metas, ci, 0);
    }
}

proof fn lemma_reads_back(
    plan: Seq<ChapterView>,
    budget: nat,
    cap: nat,
    key: Seq<char>,
    k: int,
)
    requires
        0 <= k < plan.len(),
        key.len() > 0,
        plan.len() <= usize::MAX,
        forall|a: int, b: int|
            0 <= a < b < plan.len() ==> (#[trigger] plan[a]).index != (#[trigger] plan[b]).index,
    ensures
        ({
            let shards = shards_of(plan, budget, cap);
            let metas = metas_of(plan, shards);
            let ci = plan[k].index;
            &&& shard_wanted(key, metas, ci) is Some
            &&& shard_wanted(key, metas, ci)->0 < shards.len()
            &&& read_back(metas, shards[shard_wanted(key, metas, ci)->0 as int], ci) == Some(
                (shown_title(plan[k]), words_of(plan[k])),
            )
        }),
{
    let shards = shards_of(plan, budget, cap);
    let metas = metas_of(plan, shards);
    let all = all_words(plan);
    let ci = plan[k].index;
    law_shards_partition_the_plan(plan, budget, cap);
    assert(shards.flatten()[k] == words_of(plan[k]));
    let at = lemma_in_some_run(shards, k);
    lemma_shards_fit(plan, budget, cap);
    lemma_shard_of_upto(shards, ci, shards.len(), at);
    assert forall|m: int| 0 <= m < k implies (#[trigger] metas[m]).i != ci by {
        assert(metas[m].i == plan[m].index);
        assert(plan[m].index != plan[k].index);
    }
    lemma_entry_from(metas, ci, 0, k);
    let si = shard_of_upto(shards, ci, shards.len())->0 as int;
    let run = shards[si];
    lemma_chapter_from(run, ci, 0);
    let p = chapter_from(run, ci, 0)->0;
    let a = shards.take(si).flatten().len() as int;
    assert(fair_shard(plan, a, run, budget, cap));
    assert(run[p] == all[a + p]);
    assert(all[a + p] == words_of(plan[a + p]));
    if a + p < k {
        assert(plan[a + p].index != plan[k].index);
    } else if a + p > k {
        assert(plan[k].index != plan[a + p].index);
    }
}

proof fn lemma_shards_fit(plan: Seq<ChapterView>, budget: nat, cap: nat)
    ensures
        shards_of(plan, budget, cap).len() <= plan.len(),
{
    lemma_done_fit(plan, plan.len(), budget, cap);
}

proof fn lemma_done_fit(plan: Seq<ChapterView>, n: nat, budget: nat, cap: nat)
    requires
        n <= plan.len(),
    ensures
        ({
            let s = shards_upto(plan, n, budget, cap);
            s.done.len() + (if s.cur.len() > 0 {
                1int
            } else {
                0
            }) <= n
        }),
    decreases n,
{
    if n > 0 {
        lemma_done_fit(plan, (n - 1) as nat, budget, cap);
    }
}

} // verus!
