//! What the speech model is handed: phonemes as numbered tokens.

use vstd::prelude::*;
use crate::chars::chars_of;

verus! {

/// Samples per second of what the model renders.
pub const SR: u32 = 24_000;

/// A voice holds this many style vectors, one for each phoneme count; it is
/// also the most phonemes the model takes.
pub const MAX_PHONEMES: usize = 510;

/// How many numbers there are in a style vector.
pub const STYLE_DIM: usize = 256;

/// The model's phoneme vocabulary. It is part of what the model is, and no file
/// can change how a book is pronounced.
pub const VOCAB: [(char, i64); 115] = [
    ('$', 0),
    (';', 1),
    (':', 2),
    (',', 3),
    ('.', 4),
    ('!', 5),
    ('?', 6),
    ('\u{2014}', 9),
    ('\u{2026}', 10),
    ('"', 11),
    ('(', 12),
    (')', 13),
    ('\u{201C}', 14),
    ('\u{201D}', 15),
    (' ', 16),
    ('\u{303}', 17),
    ('\u{2A3}', 18),
    ('\u{2A5}', 19),
    ('\u{2A6}', 20),
    ('\u{2A8}', 21),
    ('\u{1D5D}', 22),
    ('\u{AB67}', 23),
    ('A', 24),
    ('I', 25),
    ('O', 31),
    ('Q', 33),
    ('S', 35),
    ('T', 36),
    ('W', 39),
    ('Y', 41),
    ('\u{1D4A}', 42),
    ('a', 43),
    ('b', 44),
    ('c', 45),
    ('d', 46),
    ('e', 47),
    ('f', 48),
    ('h', 50),
    ('i', 51),
    ('j', 52),
    ('k', 53),
    ('l', 54),
    ('m', 55),
    ('n', 56),
    ('o', 57),
    ('p', 58),
    ('q', 59),
    ('r', 60),
    ('s', 61),
    ('t', 62),
    ('u', 63),
    ('v', 64),
    ('w', 65),
    ('x', 66),
    ('y', 67),
    ('z', 68),
    ('\u{251}', 69),
    ('\u{250}', 70),
    ('\u{252}', 71),
    ('\u{E6}', 72),
    ('\u{3B2}', 75),
    ('\u{254}', 76),
    ('\u{255}', 77),
    ('\u{E7}', 78),
    ('\u{256}', 80),
    ('\u{F0}', 81),
    ('\u{2A4}', 82),
    ('\u{259}', 83),
    ('\u{25A}', 85),
    ('\u{25B}', 86),
    ('\u{25C}', 87),
    ('\u{25F}', 90),
    ('\u{261}', 92),
    ('\u{265}', 99),
    ('\u{268}', 101),
    ('\u{26A}', 102),
    ('\u{29D}', 103),
    ('\u{26F}', 110),
    ('\u{270}', 111),
    ('\u{14B}', 112),
    ('\u{273}', 113),
    ('\u{272}', 114),
    ('\u{274}', 115),
    ('\u{F8}', 116),
    ('\u{278}', 118),
    ('\u{3B8}', 119),
    ('\u{153}', 120),
    ('\u{279}', 123),
    ('\u{27E}', 125),
    ('\u{27B}', 126),
    ('\u{281}', 128),
    ('\u{27D}', 129),
    ('\u{282}', 130),
    ('\u{283}', 131),
    ('\u{288}', 132),
    ('\u{2A7}', 133),
    ('\u{28A}', 135),
    ('\u{28B}', 136),
    ('\u{28C}', 138),
    ('\u{263}', 139),
    ('\u{264}', 140),
    ('\u{3C7}', 142),
    ('\u{28E}', 143),
    ('\u{292}', 147),
    ('\u{294}', 148),
    ('\u{2C8}', 156),
    ('\u{2CC}', 157),
    ('\u{2D0}', 158),
    ('\u{2B0}', 162),
    ('\u{2B2}', 164),
    ('\u{2193}', 169),
    ('\u{2192}', 171),
    ('\u{2197}', 172),
    ('\u{2198}', 173),
    ('\u{1D7B}', 177),
];

/// The token of `c` among the first `n` entries of the vocabulary.
pub open spec fn token_upto(c: char, n: nat) -> Option<i64>
    decreases n,
{
    if n == 0 || n > VOCAB@.len() {
        None
    } else {
        match token_upto(c, (n - 1) as nat) {
            Some(t) => Some(t),
            None => {
                let (k, v) = VOCAB@[n - 1];
                if k == c {
                    Some(v)
                } else {
                    None
                }
            },
        }
    }
}

/// The token of `c`, where the model has a symbol for it.
pub open spec fn token_of(c: char) -> Option<i64> {
    token_upto(c, VOCAB@.len())
}

/// The token of `c`, where the model has a symbol for it.
pub fn token_id(c: char) -> (r: Option<i64>)
    ensures
        r == token_of(c),
{
    let mut i: usize = 0;
    while i < VOCAB.len()
        invariant
            i <= VOCAB@.len(),
            token_upto(c, i as nat) is None,
        decreases VOCAB@.len() - i,
    {
        let (k, v) = VOCAB[i];
        i += 1;
        if k == c {
            proof {
                lemma_token_found(c, i as nat, VOCAB@.len());
            }
            return Some(v);
        }
    }
    None
}

proof fn lemma_token_found(c: char, n: nat, m: nat)
    requires
        n <= m <= VOCAB@.len(),
        token_upto(c, n) is Some,
    ensures
        token_upto(c, m) == token_upto(c, n),
    decreases m,
{
    if n < m {
        lemma_token_found(c, n, (m - 1) as nat);
    }
}

/// The tokens of the first `n` characters of `s`; what the model has no symbol
/// for is dropped.
pub open spec fn tokens_upto(s: Seq<char>, n: nat) -> Seq<i64>
    decreases n,
{
    if n == 0 || n > s.len() {
        Seq::empty()
    } else {
        let before = tokens_upto(s, (n - 1) as nat);
        match token_of(s[n - 1]) {
            Some(t) => before.push(t),
            None => before,
        }
    }
}

/// The tokens of `s`, as many as the model takes.
pub open spec fn tokens_of(s: Seq<char>) -> Seq<i64> {
    let all = tokens_upto(s, s.len());
    if all.len() <= MAX_PHONEMES {
        all
    } else {
        all.take(MAX_PHONEMES as int)
    }
}

/// The tokens of a phoneme string. A character that cannot be mapped is dropped
/// rather than refused, and what the model cannot take is cut off.
pub fn tokenize(phonemes: &str) -> (r: Vec<i64>)
    ensures
        r@ == tokens_of(phonemes@),
        r@.len() <= MAX_PHONEMES,
{
    let v = chars_of(phonemes);
    let mut r: Vec<i64> = Vec::new();
    let mut i: usize = 0;
    while i < v.len() && r.len() < MAX_PHONEMES
        invariant
            i <= v@.len(),
            r@.len() <= MAX_PHONEMES,
            r@ == tokens_upto(v@, i as nat),
        decreases v@.len() - i,
    {
        if let Some(t) = token_id(v[i]) {
            r.push(t);
        }
        i += 1;
    }
    proof {
        lemma_tokens_prefix(v@, i as nat, v@.len());
        let all = tokens_upto(v@, v@.len());
        assert(r@ =~= all.take(r@.len() as int));
        assert(all.len() <= MAX_PHONEMES ==> all =~= all.take(all.len() as int));
    }
    r
}

proof fn lemma_tokens_prefix(s: Seq<char>, n: nat, m: nat)
    requires
        n <= m <= s.len(),
    ensures
        tokens_upto(s, n).len() <= tokens_upto(s, m).len(),
        tokens_upto(s, n) == tokens_upto(s, m).take(tokens_upto(s, n).len() as int),
    decreases m,
{
    if n < m {
        lemma_tokens_prefix(s, n, (m - 1) as nat);
        assert(tokens_upto(s, n) =~= tokens_upto(s, m).take(tokens_upto(s, n).len() as int));
    } else {
        assert(tokens_upto(s, n) =~= tokens_upto(s, m).take(tokens_upto(s, n).len() as int));
    }
}

/// What the model is handed for a phoneme string: the tokens between two
/// boundary tokens, and which style vector of the voice goes with them. Nothing
/// where there is nothing to say.
pub fn model_input(phonemes: &str) -> (r: Option<(Vec<i64>, usize)>)
    ensures
        match r {
            Some((ids, style)) => {
                let t = tokens_of(phonemes@);
                &&& t.len() > 0
                &&& ids@ == seq![0i64] + t + seq![0i64]
                &&& style == if t.len() < MAX_PHONEMES { t.len() as int } else { MAX_PHONEMES - 1 }
            },
            None => tokens_of(phonemes@).len() == 0,
        },
{
    let tokens = tokenize(phonemes);
    if tokens.len() == 0 {
        return None;
    }
    let mut ids: Vec<i64> = vec![0];
    let mut i: usize = 0;
    while i < tokens.len()
        invariant
            i <= tokens@.len(),
            ids@ =~= seq![0i64] + tokens@.take(i as int),
        decreases tokens@.len() - i,
    {
        ids.push(tokens[i]);
        i += 1;
    }
    ids.push(0);
    assert(ids@ =~= seq![0i64] + tokens@ + seq![0i64]);
    let style: usize = if tokens.len() < MAX_PHONEMES {
        tokens.len()
    } else {
        MAX_PHONEMES - 1
    };
    Some((ids, style))
}

/// How many bytes a voice file holds.
pub const VOICE_BYTES: usize = 522_240;

/// Whether a file of `len` bytes is a voice: the style vectors of one, four
/// bytes to a number.
pub fn is_voice_size(len: usize) -> (r: bool)
    ensures
        r == (len == MAX_PHONEMES * STYLE_DIM * 4),
{
    len == VOICE_BYTES
}

// ----------------------------------------------------------------------- pitch

/// The 64-bit FNV-1a hash of the first `n` of `b`.
pub open spec fn fnv1a_upto(b: Seq<u8>, n: nat) -> u64
    decreases n,
{
    if n == 0 || n > b.len() {
        0xcbf2_9ce4_8422_2325
    } else {
        ((((fnv1a_upto(b, (n - 1) as nat) ^ (b[n - 1] as u64)) as nat) * 0x1000_0000_01b3)
            % 0x1_0000_0000_0000_0000) as u64
    }
}

/// The 64-bit FNV-1a hash of the text's UTF-8 bytes; it picks the pitch of the
/// stand-in voice.
pub fn fnv1a(s: &str) -> (h: u64)
    ensures
        h == fnv1a_upto(vstd::utf8::encode_utf8(s@), vstd::utf8::encode_utf8(s@).len()),
{
    let b = s.as_bytes();
    let mut h: u64 = 0xcbf2_9ce4_8422_2325;
    let mut i: usize = 0;
    while i < b.len()
        invariant
            i <= b@.len(),
            b@ == vstd::utf8::encode_utf8(s@),
            h == fnv1a_upto(b@, i as nat),
        decreases b@.len() - i,
    {
        h = h ^ (b[i] as u64);
        h = h.wrapping_mul(0x1000_0000_01b3);
        i += 1;
    }
    h
}

} // verus!
