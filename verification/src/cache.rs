//! The chunk audio cache: `work/audio/<key>/chNNN/IIIII.wav`.
//!
//! Where a chunk lives follows from the book, the chapter and the chunk's index,
//! and what is rendered is what is on disk.

use vstd::prelude::*;
use crate::chars::{is_digit, chars_of, decimal, padded, padded_chars, part, same, swap_char, swapped, text_of, texts, trim_chars, trim_of, unsigned_word, parse_word, find_run_start, run_start, append};
use crate::err::PackError;
use crate::paths::{extension, file_stem, join_path, joined, split_name, stem, stem_of};

verus! {

/// Samples per second of a cached chunk.
pub const SR: u32 = 24_000;

/// How long a book's key may be.
pub const KEY_LEN: usize = 50;

/// The first `n` characters of `s`.
pub open spec fn first(s: Seq<char>, n: nat) -> Seq<char> {
    if s.len() <= n {
        s
    } else {
        s.take(n as int)
    }
}

/// The first `n` characters of `v`.
pub fn take_first(v: &[char], n: usize) -> (r: Vec<char>)
    ensures
        r@ == first(v@, n as nat),
{
    let e: usize = if v.len() <= n {
        v.len()
    } else {
        n
    };
    let r = part(v, 0, e);
    assert(r@ =~= first(v@, n as nat));
    r
}

/// The key of the book at `path`.
pub open spec fn key_of(path: Seq<char>) -> Seq<char> {
    match stem_of(path) {
        Some(s) => first(s, KEY_LEN as nat),
        None => "x"@,
    }
}

/// The name under which a book's audio is kept: its file's stem, at most fifty
/// characters of it.
pub fn book_key(book_path: &str) -> (r: String)
    ensures
        r@ == key_of(book_path@),
{
    match file_stem(book_path) {
        Some(s) => text_of(&take_first(&chars_of(s.as_str()), KEY_LEN)),
        None => "x".to_owned(),
    }
}

/// The part of a requested key after its last separator, trimmed.
pub open spec fn last_segment(k: Seq<char>) -> Seq<char> {
    let s = swapped(k, '\\', '/');
    trim_of(s.skip(run_start(s, crate::paths::non_slashes(), 0, s.len() as int)))
}

/// The key that a request names: never a path, and nothing where it names no
/// directory of its own.
pub open spec fn safe_key_of(k: Seq<char>) -> Seq<char> {
    let t = last_segment(k);
    if t.len() == 0 || t == "."@ || t == ".."@ {
        Seq::empty()
    } else {
        first(t, KEY_LEN as nat)
    }
}

/// The key that a request names: one directory, never a path.
pub fn safe_key(k: &str) -> (r: String)
    ensures
        r@ == safe_key_of(k@),
{
    let s = swap_char(&chars_of(k), '\\', '/');
    let a = find_run_start(
        &s,
        crate::paths::is_non_slash,
        0,
        s.len(),
        Ghost(crate::paths::non_slashes()),
    );
    let tail = part(&s, a, s.len());
    assert(tail@ =~= s@.skip(a as int));
    let t = trim_chars(&tail);
    if t.len() == 0 || same(&t, &chars_of(".")) || same(&t, &chars_of("..")) {
        String::new()
    } else {
        text_of(&take_first(&t, KEY_LEN))
    }
}

/// A key that a request names holds no separator, is at most fifty characters
/// long, and names neither a directory itself nor the one above it.
pub proof fn law_safe_keys_are_names(k: Seq<char>)
    ensures
        ({
            let r = safe_key_of(k);
            &&& r.len() <= KEY_LEN
            &&& r != "."@ && r != ".."@
            &&& forall|i: int| 0 <= i < r.len() ==> #[trigger] r[i] != '/' && r[i] != '\\'
        }),
{
    let s = swapped(k, '\\', '/');
    let n = s.len() as int;
    crate::chars::lemma_run_start(s, crate::paths::non_slashes(), 0, n);
    let a = run_start(s, crate::paths::non_slashes(), 0, n);
    let tail = s.skip(a);
    crate::chars::lemma_run_end(tail, crate::chars::whites(), 0);
    let b = crate::chars::run_end(tail, crate::chars::whites(), 0);
    crate::chars::lemma_run_start(tail, crate::chars::whites(), b, tail.len() as int);
    let r = safe_key_of(k);
    reveal_strlit(".");
    reveal_strlit("..");
    assert forall|i: int| 0 <= i < r.len() implies #[trigger] r[i] != '/' && r[i] != '\\' by {
        assert(r[i] == s[a + b + i]);
        assert(crate::paths::non_slashes()(s[a + b + i]));
        assert(s[a + b + i] != '\\');
    }
}

// -------------------------------------------------------------------- the layout

/// Where all audio is kept.
pub open spec fn audio_root_of(work: Seq<char>) -> Seq<char> {
    joined(work, "audio"@)
}

/// Where a book's audio is kept.
pub open spec fn book_dir_of(work: Seq<char>, key: Seq<char>) -> Seq<char> {
    joined(audio_root_of(work), key)
}

/// The name of a chapter's directory: `ch` and at least three digits.
pub open spec fn chapter_name(ci: nat) -> Seq<char> {
    "ch"@ + padded(decimal(ci), 3)
}

/// Where a chapter's audio is kept.
pub open spec fn chapter_dir_of(work: Seq<char>, key: Seq<char>, ci: nat) -> Seq<char> {
    joined(book_dir_of(work, key), chapter_name(ci))
}

/// The name of a chunk's file: at least five digits and `.wav`.
pub open spec fn chunk_name(i: nat) -> Seq<char> {
    padded(decimal(i), 5) + ".wav"@
}

/// Where a chunk's audio is kept.
pub open spec fn chunk_path_of(work: Seq<char>, key: Seq<char>, ci: nat, i: nat) -> Seq<char> {
    joined(chapter_dir_of(work, key, ci), chunk_name(i))
}

/// Where all audio is kept.
pub fn audio_root(work: &str) -> (r: String)
    ensures
        r@ == audio_root_of(work@),
{
    join_path(work, "audio")
}

/// Where a book's audio is kept.
pub fn book_dir(work: &str, key: &str) -> (r: String)
    ensures
        r@ == book_dir_of(work@, key@),
{
    join_path(audio_root(work).as_str(), key)
}

/// The name of a chapter's directory.
pub fn chapter_tag(ci: usize) -> (r: String)
    ensures
        r@ == chapter_name(ci as nat),
{
    let mut v = chars_of("ch");
    append(&mut v, &padded_chars(ci as u64, 3));
    text_of(&v)
}

/// Where a chapter's audio is kept.
pub fn chapter_dir(work: &str, key: &str, ci: usize) -> (r: String)
    ensures
        r@ == chapter_dir_of(work@, key@, ci as nat),
{
    join_path(book_dir(work, key).as_str(), chapter_tag(ci).as_str())
}

/// The name of a chunk's file.
pub fn chunk_file(i: usize) -> (r: String)
    ensures
        r@ == chunk_name(i as nat),
{
    let mut v = padded_chars(i as u64, 5);
    append(&mut v, &chars_of(".wav"));
    text_of(&v)
}

/// Where a chunk's audio is kept.
pub fn chunk_path(work: &str, key: &str, ci: usize, i: usize) -> (r: String)
    ensures
        r@ == chunk_path_of(work@, key@, ci as nat, i as nat),
{
    join_path(chapter_dir(work, key, ci).as_str(), chunk_file(i).as_str())
}

/// Where a book's plan is kept.
pub fn plan_path(work: &str, key: &str) -> (r: String)
    ensures
        r@ == joined(book_dir_of(work@, key@), "plan.json"@),
{
    join_path(book_dir(work, key).as_str(), "plan.json")
}

// ---------------------------------------------------------------- what is there

/// The chunk that the file named `name` is the audio of.
pub open spec fn chunk_of_name(name: Seq<char>) -> Option<usize> {
    if extension(name) == Some("wav"@) {
        unsigned_word(stem(name))
    } else {
        None
    }
}

/// The chunk that the file named `name` is the audio of.
pub fn chunk_index(name: &str) -> (r: Option<usize>)
    ensures
        r == chunk_of_name(name@),
{
    let (s, x) = split_name(&chars_of(name));
    match x {
        Some(x) => if same(&x, &chars_of("wav")) {
            parse_word(&s)
        } else {
            None
        },
        None => None,
    }
}

/// The file written for a chunk is found again as that chunk's.
pub proof fn law_chunk_files_read_back(i: usize)
    ensures
        chunk_of_name(chunk_name(i as nat)) == Some(i),
{
    let d = padded(decimal(i as nat), 5);
    let n = chunk_name(i as nat);
    crate::chars::lemma_padded(i as nat, 5);
    reveal_strlit(".wav");
    reveal_strlit("wav");
    let k = n.len() as int;
    assert(k == d.len() + 4);
    assert(n[k - 4] == '.' && n[k - 3] == 'w' && n[k - 2] == 'a' && n[k - 1] == 'v');
    let p = crate::paths::non_stops();
    assert(run_start(n, p, 0, k - 3) == k - 3);
    assert(run_start(n, p, 0, k - 2) == k - 3);
    assert(run_start(n, p, 0, k - 1) == k - 3);
    assert(run_start(n, p, 0, k) == k - 3);
    assert(n.skip(k - 3) =~= "wav"@);
    assert(n.take(k - 4) =~= d);
    assert(is_digit(d[0]));
}

/// No two chapters share a directory's name, and no two chunks a file's.
pub proof fn law_names_tell_chunks_apart(a: nat, b: nat)
    ensures
        chapter_name(a) == chapter_name(b) ==> a == b,
        chunk_name(a) == chunk_name(b) ==> a == b,
{
    crate::chars::lemma_padded(a, 3);
    crate::chars::lemma_padded(b, 3);
    crate::chars::lemma_padded(a, 5);
    crate::chars::lemma_padded(b, 5);
    reveal_strlit("ch");
    reveal_strlit(".wav");
    let (x, y) = (padded(decimal(a), 3), padded(decimal(b), 3));
    if chapter_name(a) == chapter_name(b) {
        assert(chapter_name(a).skip(2) =~= x);
        assert(chapter_name(b).skip(2) =~= y);
    }
    let (u, v) = (padded(decimal(a), 5), padded(decimal(b), 5));
    if chunk_name(a) == chunk_name(b) {
        assert(chunk_name(a).take(chunk_name(a).len() - 4) =~= u);
        assert(chunk_name(b).take(chunk_name(b).len() - 4) =~= v);
    }
}

/// Whether a directory that holds `names` holds the audio of chunk `i`.
pub open spec fn holds(names: Seq<Seq<char>>, i: nat) -> bool {
    exists|k: int|
        0 <= k < names.len() && chunk_of_name(#[trigger] names[k]) is Some && chunk_of_name(
            names[k],
        )->0 == i
}

/// The chunks below `n` that a directory does not hold, in order.
pub open spec fn missing_upto(names: Seq<Seq<char>>, n: nat) -> Seq<usize>
    decreases n,
{
    if n == 0 {
        Seq::empty()
    } else {
        let k = (n - 1) as nat;
        if holds(names, k) {
            missing_upto(names, k)
        } else {
            missing_upto(names, k).push(k as usize)
        }
    }
}

/// Which of the first `n` chunks a directory that holds `names` has.
fn present(names: &Vec<String>, n: usize) -> (have: Vec<bool>)
    ensures
        have@.len() == n,
        forall|i: int| 0 <= i < n ==> #[trigger] have@[i] == holds(texts(names@), i as nat),
{
    let ghost ts = texts(names@);
    let mut have: Vec<bool> = Vec::new();
    let mut i: usize = 0;
    while i < n
        invariant
            i <= n,
            have@.len() == i,
            forall|m: int| 0 <= m < i ==> #[trigger] have@[m] == false,
        decreases n - i,
    {
        have.push(false);
        i += 1;
    }
    let mut k: usize = 0;
    assert(ts.take(0) =~= Seq::<Seq<char>>::empty());
    while k < names.len()
        invariant
            k <= names@.len(),
            ts == texts(names@),
            have@.len() == n,
            forall|m: int|
                0 <= m < n ==> #[trigger] have@[m] == holds(ts.take(k as int), m as nat),
        decreases names@.len() - k,
    {
        let found = chunk_index(names[k].as_str());
        let ghost before = have@;
        let ghost upto = ts.take(k as int);
        let ghost next = ts.take(k + 1);
        if let Some(c) = found {
            if c < n {
                have.set(c, true);
            }
        }
        proof {
            assert(ts[k as int] == names@[k as int]@);
            assert(next[k as int] == ts[k as int]);
            assert forall|m: int| 0 <= m < n implies #[trigger] have@[m] == holds(
                next,
                m as nat,
            ) by {
                assert(before[m] == holds(upto, m as nat));
                if holds(upto, m as nat) {
                    let w = choose|w: int|
                        0 <= w < upto.len() && chunk_of_name(#[trigger] upto[w]) is Some
                            && chunk_of_name(upto[w])->0 == m as nat;
                    assert(next[w] == upto[w]);
                }
                if holds(next, m as nat) {
                    let w = choose|w: int|
                        0 <= w < next.len() && chunk_of_name(#[trigger] next[w]) is Some
                            && chunk_of_name(next[w])->0 == m as nat;
                    if w < k {
                        assert(next[w] == upto[w]);
                    }
                }
            }
        }
        k += 1;
    }
    assert(ts.take(k as int) =~= ts);
    have
}

/// The chunks below `n` that are not rendered, in order. `names` are the files
/// that the chapter's directory holds.
pub fn missing_chunks(names: &Vec<String>, n: usize) -> (r: Vec<usize>)
    ensures
        r@ == missing_upto(texts(names@), n as nat),
{
    let have = present(names, n);
    let mut r: Vec<usize> = Vec::new();
    let mut i: usize = 0;
    while i < n
        invariant
            i <= n,
            have@.len() == n,
            forall|m: int| 0 <= m < n ==> #[trigger] have@[m] == holds(texts(names@), m as nat),
            r@ == missing_upto(texts(names@), i as nat),
        decreases n - i,
    {
        if !have[i] {
            r.push(i);
        }
        i += 1;
    }
    r
}

/// What is missing is exactly what is not there, each chunk once and in order.
pub proof fn law_missing_is_what_is_not_there(names: Seq<Seq<char>>, n: usize)
    ensures
        forall|i: usize|
            #[trigger] missing_upto(names, n as nat).contains(i) <==> i < n && !holds(
                names,
                i as nat,
            ),
        forall|a: int, b: int|
            0 <= a < b < missing_upto(names, n as nat).len() ==> #[trigger] missing_upto(
                names,
                n as nat,
            )[a] < #[trigger] missing_upto(names, n as nat)[b],
    decreases n,
{
    let m = missing_upto(names, n as nat);
    if n > 0 {
        let k = (n - 1) as usize;
        law_missing_is_what_is_not_there(names, k);
        let before = missing_upto(names, k as nat);
        assert forall|a: int| 0 <= a < before.len() implies #[trigger] before[a] < k by {
            assert(before.contains(before[a]));
        }
        assert forall|i: usize| #[trigger] m.contains(i) <==> i < n && !holds(
            names,
            i as nat,
        ) by {
            if before.contains(i) {
                let w = choose|w: int| 0 <= w < before.len() && before[w] == i;
                assert(m[w] == i);
            }
            if m.contains(i) {
                let w = choose|w: int| 0 <= w < m.len() && m[w] == i;
                if w < before.len() {
                    assert(before[w] == i);
                }
            }
            if i == k && !holds(names, k as nat) {
                assert(m[before.len() as int] == k);
            }
        }
    }
}

/// How many of `names` are the audio of a chunk below `n`.
pub open spec fn rendered_of(names: Seq<Seq<char>>, n: nat) -> nat
    decreases names.len(),
{
    if names.len() == 0 {
        0
    } else {
        let rest = rendered_of(names.drop_last(), n);
        match chunk_of_name(names.last()) {
            Some(i) if i < n => rest + 1,
            _ => rest,
        }
    }
}

/// How many of a chapter's first `n` chunks are on disk. `names` are the files
/// that the chapter's directory holds.
pub fn rendered_count(names: &Vec<String>, n: usize) -> (r: usize)
    ensures
        r == rendered_of(texts(names@), n as nat),
{
    let ghost ts = texts(names@);
    let mut r: usize = 0;
    let mut k: usize = 0;
    while k < names.len()
        invariant
            k <= names@.len(),
            r <= k,
            ts == texts(names@),
            r == rendered_of(ts.take(k as int), n as nat),
        decreases names@.len() - k,
    {
        assert(ts.take(k + 1).drop_last() =~= ts.take(k as int));
        assert(ts[k as int] == names@[k as int]@);
        if let Some(i) = chunk_index(names[k].as_str()) {
            if i < n {
                r += 1;
            }
        }
        k += 1;
    }
    assert(ts.take(k as int) =~= ts);
    r
}

// ------------------------------------------------------------------------- wav

/// What a wav file's header says. A second of it is `byte_rate` bytes of the
/// `data` bytes that it holds.
#[derive(Debug, Clone, Copy, PartialEq, Eq, Structural)]
pub struct WavInfo {
    pub channels: u16,
    pub rate: u32,
    pub width: u16,
    pub data: u32,
    pub byte_rate: u32,
}

/// The format that a `fmt ` chunk gives.
#[derive(Debug, Clone, Copy, PartialEq, Eq, Structural)]
pub struct WavFormat {
    pub channels: u16,
    pub rate: u32,
    pub bits: u16,
    pub byte_rate: u32,
}

/// The little-endian number in the two bytes at `i`.
pub open spec fn le16(b: Seq<u8>, i: int) -> int {
    b[i] + 256 * b[i + 1]
}

/// The little-endian number in the four bytes at `i`.
pub open spec fn le32(b: Seq<u8>, i: int) -> int {
    le16(b, i) + 65536 * le16(b, i + 2)
}

/// Whether the four bytes at `i` are `a`, `c`, `d` and `e`.
pub open spec fn tag_at(b: Seq<u8>, i: int, a: u8, c: u8, d: u8, e: u8) -> bool {
    b[i] == a && b[i + 1] == c && b[i + 2] == d && b[i + 3] == e
}

/// Where the chunk after the one whose header stands at `i` starts. Chunks
/// start on even bytes.
pub open spec fn after_chunk(b: Seq<u8>, i: int) -> int {
    let size = le32(b, i + 4);
    i + 8 + size + size % 2
}

/// What the chunks from `i` on say, `f` being the format known so far: what the
/// first `data` chunk behind a format holds.
pub open spec fn wav_chunks(b: Seq<u8>, i: int, f: WavFormat) -> Option<WavInfo>
    decreases
            (if i < b.len() {
                b.len() - i
            } else {
                0
            }),
{
    if i < 0 || b.len() - i < 8 {
        None
    } else {
        let size = le32(b, i + 4);
        if tag_at(b, i, 0x66, 0x6d, 0x74, 0x20) {
            if b.len() - i - 8 < size || size < 16 {
                None
            } else {
                wav_chunks(
                    b,
                    after_chunk(b, i),
                    WavFormat {
                        channels: le16(b, i + 10) as u16,
                        rate: le32(b, i + 12) as u32,
                        bits: le16(b, i + 22) as u16,
                        byte_rate: le32(b, i + 16) as u32,
                    },
                )
            }
        } else if tag_at(b, i, 0x64, 0x61, 0x74, 0x61) && f.byte_rate != 0 {
            Some(
                WavInfo {
                    channels: f.channels,
                    rate: f.rate,
                    width: f.bits / 8,
                    data: size as u32,
                    byte_rate: f.byte_rate,
                },
            )
        } else {
            wav_chunks(b, after_chunk(b, i), f)
        }
    }
}

/// What the wav file that holds `b` says of itself.
pub open spec fn wav_of(b: Seq<u8>) -> Option<WavInfo> {
    if b.len() < 12 || !tag_at(b, 0, 0x52, 0x49, 0x46, 0x46) || !tag_at(
        b,
        8,
        0x57,
        0x41,
        0x56,
        0x45,
    ) {
        None
    } else {
        wav_chunks(b, 12, WavFormat { channels: 0, rate: 0, bits: 0, byte_rate: 0 })
    }
}

fn read16(b: &[u8], i: usize) -> (r: u16)
    requires
        i + 2 <= b.len(),
    ensures
        r == le16(b@, i as int),
{
    b[i] as u16 + 256 * (b[i + 1] as u16)
}

fn read32(b: &[u8], i: usize) -> (r: u32)
    requires
        i + 4 <= b.len(),
    ensures
        r == le32(b@, i as int),
{
    read16(b, i) as u32 + 65536 * (read16(b, i + 2) as u32)
}

fn is_tag(b: &[u8], i: usize, a: u8, c: u8, d: u8, e: u8) -> (r: bool)
    requires
        i + 4 <= b.len(),
    ensures
        r == tag_at(b@, i as int, a, c, d, e),
{
    b[i] == a && b[i + 1] == c && b[i + 2] == d && b[i + 3] == e
}

/// What the wav file at `path`, which holds `b`, says of itself.
pub fn wav_info(path: &str, b: &[u8]) -> (r: Result<WavInfo, PackError>)
    ensures
        match r {
            Ok(w) => wav_of(b@) == Some(w),
            Err(PackError::NotWav(p)) => wav_of(b@) is None && p@ == path@,
            Err(_) => false,
        },
{
    if b.len() < 12 || !is_tag(b, 0, 0x52, 0x49, 0x46, 0x46) || !is_tag(
        b,
        8,
        0x57,
        0x41,
        0x56,
        0x45,
    ) {
        return Err(PackError::NotWav(path.to_owned()));
    }
    let mut f = WavFormat { channels: 0, rate: 0, bits: 0, byte_rate: 0 };
    let mut i: usize = 12;
    while b.len() - i >= 8
        invariant
            i <= b.len(),
            wav_of(b@) == wav_chunks(b@, i as int, f),
        decreases b@.len() - i,
    {
        let size: u32 = read32(b, i + 4);
        if is_tag(b, i, 0x66, 0x6d, 0x74, 0x20) {
            if ((b.len() - i - 8) as u64) < size as u64 || size < 16 {
                return Err(PackError::NotWav(path.to_owned()));
            }
            f = WavFormat {
                channels: read16(b, i + 10),
                rate: read32(b, i + 12),
                bits: read16(b, i + 22),
                byte_rate: read32(b, i + 16),
            };
        } else if is_tag(b, i, 0x64, 0x61, 0x74, 0x61) && f.byte_rate != 0 {
            return Ok(
                WavInfo {
                    channels: f.channels,
                    rate: f.rate,
                    width: f.bits / 8,
                    data: size,
                    byte_rate: f.byte_rate,
                },
            );
        }
        let step: u64 = 8 + size as u64 + (size % 2) as u64;
        assert(wav_of(b@) == wav_chunks(b@, i + step, f));
        if step > (b.len() - i) as u64 {
            return Err(PackError::NotWav(path.to_owned()));
        }
        i = i + step as usize;
    }
    Err(PackError::NotWav(path.to_owned()))
}

} // verus!
