//! That the words of a book are put away whole and tightly, and what each byte and each
//! gap comes to.

use vstd::prelude::*;
use crate::api::notes::queue::{fnv128_upto, hex_of};
use crate::book::{ChapterView, ChunkView};
use crate::cache::chunk_name;
use crate::chapters::{chunk_paths_of, gap_between, gaps_of};
use crate::paths::joined;
use crate::text::{shards_of, shards_upto, weight, weight_between, words_of, Shards};
use crate::tts::g2p::{asked_from, questions_of, segments_from, PieceView, SegmentView};
use crate::tts::kokoro::fnv1a_upto;
use crate::tts::numbers::rewritten;
use crate::chars::{trim_of, white_space};

verus! {

// ------------------------------------------------------------------------- shards

/// Whether the shard of the chapters from `a` to `b` could not have taken the next one
/// too: it has as many as one may, or the next would take it over its budget.
pub open spec fn shard_is_full(plan: Seq<ChapterView>, a: int, b: int, budget: nat, cap: nat) -> bool {
    weight_between(plan, a, b) + weight(plan[b]) > budget || b - a >= cap
}

spec fn tight(plan: Seq<ChapterView>, s: Shards, n: int, budget: nat, cap: nat) -> bool {
    let k = s.done.flatten().len() as int;
    &&& k + s.cur.len() == n
    &&& s.bytes == weight_between(plan, k, n)
    &&& n > 0 ==> s.cur.len() > 0
    &&& forall|j: int|
        0 <= j < s.done.len() ==> {
            let a = s.done.take(j).flatten().len() as int;
            shard_is_full(plan, a, a + (#[trigger] s.done[j]).len(), budget, cap)
        }
}

proof fn lemma_tight(plan: Seq<ChapterView>, n: nat, budget: nat, cap: nat)
    requires
        n <= plan.len(),
    ensures
        tight(plan, shards_upto(plan, n, budget, cap), n as int, budget, cap),
    decreases n,
{
    let s = shards_upto(plan, n, budget, cap);
    if n > 0 {
        lemma_tight(plan, (n - 1) as nat, budget, cap);
        let b = shards_upto(plan, (n - 1) as nat, budget, cap);
        let c = plan[n - 1];
        let k = b.done.flatten().len() as int;
        if b.cur.len() > 0 && (b.bytes + weight(c) > budget || b.cur.len() >= cap) {
            b.done.lemma_flatten_push(b.cur);
            assert(s.done.flatten().len() == n - 1);
            assert(weight_between(plan, n - 1, n - 1) == 0);
            assert forall|j: int| 0 <= j < s.done.len() implies ({
                let a = s.done.take(j).flatten().len() as int;
                shard_is_full(plan, a, a + (#[trigger] s.done[j]).len(), budget, cap)
            }) by {
                assert(s.done.take(j) =~= b.done.take(j));
                if j < b.done.len() {
                    assert(s.done[j] == b.done[j]);
                } else {
                    assert(b.done.take(j) =~= b.done);
                }
            }
        }
    }
}

/// Every shard but the last is full: the next chapter would not have gone into it.
pub proof fn law_shards_are_full(plan: Seq<ChapterView>, budget: nat, cap: nat, j: int)
    requires
        0 <= j < shards_of(plan, budget, cap).len() - 1,
    ensures
        ({
            let shards = shards_of(plan, budget, cap);
            let a = shards.take(j).flatten().len() as int;
            shard_is_full(plan, a, a + shards[j].len(), budget, cap)
        }),
{
    let shards = shards_of(plan, budget, cap);
    let s = shards_upto(plan, plan.len(), budget, cap);
    lemma_tight(plan, plan.len(), budget, cap);
    assert(j < s.done.len());
    assert(shards.take(j) =~= s.done.take(j));
    assert(shards[j] == s.done[j]);
}

/// The words of a chapter are those of its chunks, each chunk's text and paragraph, all
/// of them and in order, under the chapter's own number.
pub proof fn law_a_chapter_keeps_its_words(c: ChapterView)
    requires
        forall|i: int| 0 <= i < c.chunks.len() ==> (#[trigger] c.chunks[i]).para <= usize::MAX,
    ensures
        ({
            let w = words_of(c);
            &&& w.i == c.index
            &&& w.chunks.len() == c.chunks.len()
            &&& w.paras.len() == c.chunks.len()
            &&& forall|i: int|
                0 <= i < c.chunks.len() ==> w.chunks[i] == (#[trigger] c.chunks[i]).text
                    && w.paras[i] == c.chunks[i].para
        }),
{
}

/// So are the words of a chapter that a reader is shown.
pub proof fn law_a_reader_is_shown_every_word(i: usize, c: ChapterView)
    requires
        forall|k: int| 0 <= k < c.chunks.len() ==> (#[trigger] c.chunks[k]).para <= usize::MAX,
    ensures
        ({
            let w = crate::api::session::words_of(i, c);
            &&& w.i == i
            &&& w.title == c.title
            &&& w.chunks.len() == c.chunks.len()
            &&& w.paras.len() == c.chunks.len()
            &&& forall|k: int|
                0 <= k < c.chunks.len() ==> w.chunks[k] == (#[trigger] c.chunks[k]).text
                    && w.paras[k] == c.chunks[k].para
        }),
{
}

// --------------------------------------------------------------------------- gaps

/// There is one gap between each two chunks that follow one another, and it is the one
/// that those two call for.
pub proof fn law_every_two_chunks_have_their_gap(chunks: Seq<ChunkView>)
    ensures
        chunks.len() == 0 ==> gaps_of(chunks).len() == 0,
        chunks.len() > 0 ==> gaps_of(chunks).len() == chunks.len() - 1,
        forall|i: int, j: int|
            0 <= i < j < chunks.len() && j == i + 1 ==> gaps_of(chunks)[i] == gap_between(
                #[trigger] chunks[i],
                #[trigger] chunks[j],
            ),
{
}

/// A chapter of `n` chunks has a file for each of them, in order, under its own name.
pub proof fn law_every_chunk_has_its_file(dir: Seq<char>, n: nat)
    ensures
        chunk_paths_of(dir, n).len() == n,
        forall|i: int|
            0 <= i < n ==> #[trigger] chunk_paths_of(dir, n)[i] == joined(
                dir,
                chunk_name(i as nat),
            ),
{
}

/// Every part of a text is asked about or kept: a mark is kept, words are asked about
/// with their overrides, and of words that are only white space nothing is asked; and
/// white space at the ends of words is noted.
pub proof fn law_every_part_is_asked_about(text: Seq<char>)
    ensures
        ({
            let parts = segments_from(rewritten(text, 0), 0, 0);
            let asked = questions_of(text);
            &&& asked.len() == parts.len()
            &&& forall|k: int|
                0 <= k < parts.len() ==> match #[trigger] parts[k] {
                    SegmentView::Mark(c) => asked[k] == PieceView::Mark(c),
                    SegmentView::Words(w) => asked[k] is Say && asked[k]->before == (w.len() > 0
                        && white_space(w[0])) && asked[k]->after == (w.len() > 0 && white_space(
                        w.last(),
                    )) && asked[k]->ask == if trim_of(w).len() > 0 {
                        Some(asked_from(w, 0))
                    } else {
                        None
                    },
                }
        }),
{
}

// ------------------------------------------------------------------------- hashes

proof fn lemma_fnv1a_prefix(b: Seq<u8>, x: u8, n: nat)
    requires
        n <= b.len(),
    ensures
        fnv1a_upto(b.push(x), n) == fnv1a_upto(b, n),
    decreases n,
{
    if n > 0 {
        lemma_fnv1a_prefix(b, x, (n - 1) as nat);
        assert(b.push(x)[n - 1] == b[n - 1]);
    }
}

proof fn lemma_fnv128_prefix(b: Seq<u8>, x: u8, n: nat)
    requires
        n <= b.len(),
    ensures
        fnv128_upto(b.push(x), n) == fnv128_upto(b, n),
    decreases n,
{
    if n > 0 {
        lemma_fnv128_prefix(b, x, (n - 1) as nat);
        assert(b.push(x)[n - 1] == b[n - 1]);
    }
}

/// Every byte goes into a hash: one more is mixed into the hash of those before it, and
/// the hash of none is where it starts.
pub proof fn law_every_byte_is_hashed(b: Seq<u8>, x: u8)
    ensures
        fnv1a_upto(Seq::empty(), 0) == 0xcbf2_9ce4_8422_2325,
        fnv1a_upto(b.push(x), b.len() + 1) == ((((fnv1a_upto(b, b.len()) ^ (x as u64)) as nat)
            * 0x1000_0000_01b3) % 0x1_0000_0000_0000_0000) as u64,
        fnv128_upto(Seq::empty(), 0) == 0x6c62_272e_07bb_0142_62b8_2175_6295_c58d,
        fnv128_upto(b.push(x), b.len() + 1) == ((((fnv128_upto(b, b.len()) ^ (x as u128)) as nat)
            * 0x0000_0000_0100_0000_0000_0000_0000_013b) % (u128::MAX as nat + 1)) as u128,
{
    lemma_fnv1a_prefix(b, x, b.len());
    lemma_fnv128_prefix(b, x, b.len());
    assert(b.push(x)[b.len() as int] == x);
}

/// What the digits of a number to the base of sixteen stand for.
pub open spec fn hex_worth(s: Seq<char>) -> nat
    decreases s.len(),
{
    if s.len() == 0 {
        0
    } else {
        let c = s.last();
        16 * hex_worth(s.drop_last()) + if '0' <= c <= '9' {
            (c as nat - 0x30) as nat
        } else {
            (c as nat - 0x61 + 10) as nat
        }
    }
}

/// A number written to the base of sixteen stands for itself, and has no zero in front.
pub proof fn law_hex_reads_back(n: nat)
    ensures
        hex_worth(hex_of(n)) == n,
        hex_of(n).len() > 0,
        n > 0 ==> hex_of(n)[0] != '0',
    decreases n,
{
    reveal_with_fuel(hex_worth, 2);
    if n < 16 {
        let one = hex_of(n);
        assert(one.drop_last() =~= Seq::<char>::empty());
        lemma_hex_digit(n);
    } else {
        law_hex_reads_back(n / 16);
        lemma_hex_digit(n % 16);
        let s = hex_of(n);
        assert(s.drop_last() =~= hex_of(n / 16));
        assert(s[0] == hex_of(n / 16)[0]);
    }
}

proof fn lemma_hex_digit(d: nat)
    requires
        d < 16,
    ensures
        ({
            let c = crate::api::notes::queue::hex_char(d);
            &&& d < 10 ==> '0' <= c <= '9' && c as nat == 0x30 + d
            &&& d >= 10 ==> !('0' <= c <= '9') && c as nat == 0x61 + d - 10
            &&& d > 0 ==> c != '0'
        }),
{
}

} // verus!
