//! What names, paths and files tell, said of how they are made up.

use vstd::prelude::*;
use crate::book::{ChapterView, ChunkView};
use crate::cache::{after_chunk, chunk_of_name, key_of, le16, le32, rendered_of, safe_key_of, tag_at, wav_chunks, wav_of, WavFormat, WavInfo};
use crate::chars::{run_start, swapped, trim_of, white_space, whites};
use crate::config::{var_from, var_of, Vars};
use crate::gc::{by_age, law_age_orders, total_of, Entry};
use crate::order::{law_sorted, sorted};
use crate::paths::{extension, joined, last_part, name_of, non_slashes, non_stops, parent_of, path_le, slashes, stem};
use crate::text::{bytes_upto, weight};
use crate::text_laws::law_trimming_takes_the_ends;

verus! {

// -------------------------------------------------------------------------- paths

proof fn lemma_run_start_at(s: Seq<char>, p: spec_fn(char) -> bool, j: int, a: int)
    requires
        0 <= a <= j <= s.len(),
        forall|k: int| a <= k < j ==> p(#[trigger] s[k]),
        a > 0 ==> !p(s[a - 1]),
    ensures
        run_start(s, p, 0, j) == a,
    decreases j - a,
{
    if a < j {
        lemma_run_start_at(s, p, j - 1, a);
    }
}

/// A name put into a folder is the name of the path, and the folder is its parent.
pub proof fn law_a_path_has_its_name_and_folder(dir: Seq<char>, name: Seq<char>)
    requires
        dir.len() > 0,
        dir.last() != '/',
        name.len() > 0,
        !name.contains('/'),
        name != "."@,
        name != ".."@,
    ensures
        name_of(joined(dir, name)) == Some(name),
        parent_of(joined(dir, name)) == Some(dir),
        name_of(name) == Some(name),
{
    reveal_strlit("/");
    let p = joined(dir, name);
    let d = dir.len() as int;
    let n = p.len() as int;
    assert(name.contains(name[0]));
    assert(p =~= dir + seq!['/'] + name);
    assert forall|k: int| d + 1 <= k < n implies p[k] != '/' by {
        assert(name.contains(name[k - d - 1]));
    }
    assert(p[d] == '/');
    assert(p[n - 1] != '/');
    lemma_run_start_at(p, slashes(), n, n);
    lemma_run_start_at(p, non_slashes(), n, d + 1);
    assert(p.subrange(d + 1, n) =~= name);
    assert(last_part(p, n) == Some((d + 1, n)));
    assert(p[d - 1] == dir.last());
    assert forall|k: int| d <= k < d + 1 implies slashes()(#[trigger] p[k]) by {}
    lemma_run_start_at(p, slashes(), d + 1, d);
    assert(p.take(d) =~= dir);
    let m = name.len() as int;
    assert forall|k: int| 0 <= k < m implies name[k] != '/' by {
        assert(name.contains(name[k]));
    }
    lemma_run_start_at(name, slashes(), m, m);
    lemma_run_start_at(name, non_slashes(), m, 0);
    assert(name.subrange(0, m) =~= name);
}

/// A name is cut at its last stop: what is before it is its stem, what is behind it its
/// extension. A name without a stop, or with none but at its front, has no extension.
pub proof fn law_a_name_has_its_extension(a: Seq<char>, x: Seq<char>)
    requires
        !x.contains('.'),
    ensures
        a.len() > 0 ==> stem(a + seq!['.'] + x) == a && extension(a + seq!['.'] + x) == Some(x),
        stem(x) == x,
        extension(x) is None,
        stem(seq!['.'] + x) == seq!['.'] + x,
        extension(seq!['.'] + x) is None,
{
    let n = a + seq!['.'] + x;
    let k = a.len() + 1;
    assert forall|i: int| 0 <= i < x.len() implies x[i] != '.' by {
        assert(x.contains(x[i]));
    }
    assert(n[k - 1] == '.');
    assert forall|i: int| k <= i < n.len() implies non_stops()(#[trigger] n[i]) by {
        assert(n[i] == x[i - k]);
    }
    lemma_run_start_at(n, non_stops(), n.len() as int, k as int);
    assert(n.take(k - 1) =~= a);
    assert(n.skip(k as int) =~= x);
    lemma_run_start_at(x, non_stops(), x.len() as int, 0);
    let m = seq!['.'] + x;
    assert(m[0] == '.');
    assert forall|i: int| 1 <= i < m.len() implies non_stops()(#[trigger] m[i]) by {
        assert(m[i] == x[i - 1]);
    }
    lemma_run_start_at(m, non_stops(), m.len() as int, 1);
}

/// Slashes at the end of a path change neither its name nor its folder.
pub proof fn law_slashes_at_the_end_do_not_count(dir: Seq<char>, name: Seq<char>, n: nat)
    requires
        dir.len() > 0,
        dir.last() != '/',
        name.len() > 0,
        !name.contains('/'),
        name != "."@,
        name != ".."@,
    ensures
        ({
            let p = joined(dir, name) + Seq::new(n, |i: int| '/');
            name_of(p) == Some(name) && parent_of(p) == Some(dir)
        }),
{
    reveal_strlit("/");
    let bar = Seq::new(n, |i: int| '/');
    let p = joined(dir, name) + bar;
    let d = dir.len() as int;
    let e = d + 1 + name.len();
    assert(name.contains(name[0]));
    assert(name.contains(name[name.len() - 1]));
    assert(joined(dir, name) =~= dir + seq!['/'] + name);
    assert forall|k: int| d + 1 <= k < e implies non_slashes()(#[trigger] p[k]) by {
        assert(p[k] == name[k - d - 1]);
        assert(name.contains(name[k - d - 1]));
    }
    assert forall|k: int| e <= k < p.len() implies slashes()(#[trigger] p[k]) by {
        assert(p[k] == bar[k - e]);
    }
    assert(p[e - 1] == name[name.len() - 1]);
    assert(p[d] == '/');
    lemma_run_start_at(p, slashes(), p.len() as int, e as int);
    lemma_run_start_at(p, non_slashes(), e as int, d + 1);
    assert(p.subrange(d + 1, e as int) =~= name);
    assert(last_part(p, p.len() as int) == Some((d + 1, e as int)));
    assert(p[d - 1] == dir.last());
    lemma_run_start_at(p, slashes(), d + 1, d);
    assert(p.take(d) =~= dir);
}

/// The key of a book is the first fifty characters of its file's stem.
pub proof fn law_a_key_is_the_start_of_the_stem(dir: Seq<char>, a: Seq<char>, x: Seq<char>)
    requires
        dir.len() > 0,
        dir.last() != '/',
        a.len() > 0,
        !a.contains('/'),
        !x.contains('/'),
        !x.contains('.'),
        x.len() > 0,
    ensures
        key_of(joined(dir, a + seq!['.'] + x)) == if a.len() <= 50 {
            a
        } else {
            a.take(50)
        },
{
    reveal_strlit(".");
    reveal_strlit("..");
    let name = a + seq!['.'] + x;
    assert(!name.contains('/')) by {
        assert forall|i: int| 0 <= i < name.len() implies name[i] != '/' by {
            if i < a.len() {
                assert(a.contains(a[i]));
            } else if i > a.len() {
                assert(x.contains(x[i - a.len() - 1]));
            }
        }
    }
    assert(name != "."@ && name != ".."@) by {
        assert(name.len() >= 3);
        assert("."@.len() == 1 && ".."@.len() == 2);
    }
    law_a_path_has_its_name_and_folder(dir, name);
    law_a_name_has_its_extension(a, x);
}

/// A key that is asked for is the last part of what is said, the first fifty characters
/// of it: a name that is a safe one is taken as it is, whatever stands before it.
pub proof fn law_a_key_is_the_last_part(front: Seq<char>, bar: char, name: Seq<char>)
    requires
        bar == '/' || bar == '\\',
        name.len() > 0,
        !name.contains('/'),
        !name.contains('\\'),
        !white_space(name[0]),
        !white_space(name.last()),
        name != "."@,
        name != ".."@,
    ensures
        safe_key_of(front + seq![bar] + name) == if name.len() <= 50 {
            name
        } else {
            name.take(50)
        },
        safe_key_of(name) == if name.len() <= 50 {
            name
        } else {
            name.take(50)
        },
        safe_key_of(front + seq![bar] + "."@).len() == 0,
        safe_key_of(front + seq![bar] + ".."@).len() == 0,
{
    reveal_strlit(".");
    reveal_strlit("..");
    lemma_last_said(front + seq![bar], name);
    lemma_last_said(Seq::empty(), name);
    assert(Seq::<char>::empty() + name =~= name);
    lemma_last_said(front + seq![bar], "."@);
    lemma_last_said(front + seq![bar], ".."@);
}

proof fn lemma_last_said(front: Seq<char>, name: Seq<char>)
    requires
        front.len() > 0 ==> front.last() == '/' || front.last() == '\\',
        name.len() > 0,
        !name.contains('/'),
        !name.contains('\\'),
        !white_space(name[0]),
        !white_space(name.last()),
    ensures
        crate::cache::last_segment(front + name) == name,
{
    let k = front + name;
    let s = swapped(k, '\\', '/');
    let p = non_slashes();
    let f = front.len() as int;
    assert forall|i: int| f <= i < s.len() implies p(#[trigger] s[i]) && s[i] == name[i - f] by {
        assert(k[i] == name[i - f]);
        assert(name.contains(name[i - f]));
    }
    if f > 0 {
        assert(k[f - 1] == front.last());
        assert(s[f - 1] == '/');
    }
    lemma_run_start_at(s, p, s.len() as int, f);
    assert(s.skip(f) =~= name);
    let ends = law_trimming_takes_the_ends(name, whites());
    assert(ends.0 == 0 && ends.1 == name.len());
    assert(trim_of(name) =~= name);
}

/// What is cleared first is the oldest; of what is as old the smallest; and of that the
/// one whose path comes first.
pub proof fn law_the_oldest_goes_first(files: Seq<Entry>)
    ensures
        ({
            let list = sorted(files, by_age());
            &&& list.to_multiset() == files.to_multiset()
            &&& forall|i: int, j: int|
                0 <= i <= j < list.len() ==> {
                    &&& (#[trigger] list[i]).modified <= (#[trigger] list[j]).modified
                    &&& list[i].modified == list[j].modified ==> list[i].size <= list[j].size
                    &&& list[i].modified == list[j].modified && list[i].size == list[j].size
                        ==> path_le(list[i].path@, list[j].path@)
                }
        }),
{
    law_age_orders();
    law_sorted(files, by_age());
    let list = sorted(files, by_age());
    assert forall|i: int, j: int| 0 <= i <= j < list.len() implies {
        &&& (#[trigger] list[i]).modified <= (#[trigger] list[j]).modified
        &&& list[i].modified == list[j].modified ==> list[i].size <= list[j].size
        &&& list[i].modified == list[j].modified && list[i].size == list[j].size ==> path_le(
            list[i].path@,
            list[j].path@,
        )
    } by {
        assert(by_age()(list[i], list[j]));
    }
}

// --------------------------------------------------------------------------- cache

/// As many chunks are rendered as there are files named after one that the chapter has.
pub proof fn law_every_chunk_file_counts(names: Seq<Seq<char>>, n: nat)
    ensures
        rendered_of(names, n) == names.filter(
            |name: Seq<char>| chunk_of_name(name) is Some && chunk_of_name(name)->0 < n,
        ).len(),
    decreases names.len(),
{
    let p = |name: Seq<char>| chunk_of_name(name) is Some && chunk_of_name(name)->0 < n;
    reveal(Seq::filter);
    if names.len() > 0 {
        law_every_chunk_file_counts(names.drop_last(), n);
    }
}

/// The header of a recording reads as it is written: what it says of its channels, its
/// rate, its bits and its bytes a second, and the size of what follows. So it does with
/// one more part of any name between the format and the data, which is passed over,
/// with the byte behind it where its size is odd.
pub proof fn law_a_header_reads_as_written(b: Seq<u8>, extra: bool)
    requires
        b.len() >= 44,
        tag_at(b, 0, 0x52, 0x49, 0x46, 0x46),
        tag_at(b, 8, 0x57, 0x41, 0x56, 0x45),
        tag_at(b, 12, 0x66, 0x6d, 0x74, 0x20),
        le32(b, 16) == 16,
        0 < le32(b, 28) <= u32::MAX,
        0 <= le16(b, 22) <= u16::MAX,
        0 <= le32(b, 24) <= u32::MAX,
        0 <= le16(b, 34) <= u16::MAX,
        extra ==> !tag_at(b, 36, 0x64, 0x61, 0x74, 0x61) && !tag_at(b, 36, 0x66, 0x6d, 0x74, 0x20)
            && 0 <= le32(b, 40),
        ({
            let at = if extra {
                44 + le32(b, 40) + le32(b, 40) % 2
            } else {
                36
            };
            at + 8 <= b.len() && tag_at(b, at, 0x64, 0x61, 0x74, 0x61)
        }),
    ensures
        ({
            let at = if extra {
                44 + le32(b, 40) + le32(b, 40) % 2
            } else {
                36
            };
            wav_of(b) == Some(
                WavInfo {
                    channels: le16(b, 22) as u16,
                    rate: le32(b, 24) as u32,
                    width: le16(b, 34) as u16 / 8,
                    data: le32(b, at + 4) as u32,
                    byte_rate: le32(b, 28) as u32,
                },
            )
        }),
{
    let f = WavFormat {
        channels: le16(b, 22) as u16,
        rate: le32(b, 24) as u32,
        bits: le16(b, 34) as u16,
        byte_rate: le32(b, 28) as u32,
    };
    assert(after_chunk(b, 12) == 36);
    assert(wav_of(b) == wav_chunks(b, 36, f));
    if extra {
        let at = 44 + le32(b, 40) + le32(b, 40) % 2;
        assert(after_chunk(b, 36) == at);
        assert(wav_chunks(b, 36, f) == wav_chunks(b, at, f));
    }
}

// ------------------------------------------------------------------------ clearing

/// The bytes of two lists of files are those of the one and those of the other, and
/// those of one file are its size.
pub proof fn law_bytes_add_up(a: Seq<Entry>, b: Seq<Entry>, one: Entry)
    ensures
        total_of(a + b) == total_of(a) + total_of(b),
        total_of(seq![one]) == one.size,
    decreases b.len(),
{
    assert(seq![one].drop_last() =~= Seq::<Entry>::empty());
    assert(total_of(seq![one].drop_last()) == 0);
    if b.len() == 0 {
        assert(a + b =~= a);
    } else {
        law_bytes_add_up(a, b.drop_last(), one);
        assert((a + b).drop_last() =~= a + b.drop_last());
        assert((a + b).last() == b.last());
    }
}

// ----------------------------------------------------------------------- the weight

proof fn lemma_bytes_prefix(a: Seq<ChunkView>, b: Seq<ChunkView>, n: nat)
    requires
        n <= a.len(),
    ensures
        bytes_upto(a + b, n) == bytes_upto(a, n),
    decreases n,
{
    if n > 0 {
        lemma_bytes_prefix(a, b, (n - 1) as nat);
        assert((a + b)[n - 1] == a[n - 1]);
    }
}

proof fn lemma_bytes_on(a: Seq<ChunkView>, b: Seq<ChunkView>, n: nat)
    requires
        n <= b.len(),
    ensures
        bytes_upto(a + b, a.len() + n) == bytes_upto(a, a.len()) + bytes_upto(b, n),
    decreases n,
{
    if n == 0 {
        lemma_bytes_prefix(a, b, a.len());
    } else {
        lemma_bytes_on(a, b, (n - 1) as nat);
        assert((a + b)[a.len() + n - 1] == b[n - 1]);
    }
}

/// A chapter weighs what its chunks weigh, each of them its bytes and twelve more, and
/// forty on top: two chapters made one weigh what both do, less one forty.
pub proof fn law_a_chapter_weighs_its_chunks(a: ChapterView, b: ChapterView, both: ChapterView, c: ChunkView)
    requires
        both.chunks == a.chunks + b.chunks,
    ensures
        weight(both) + 40 == weight(a) + weight(b),
        weight(ChapterView { chunks: seq![c], ..a }) == vstd::utf8::encode_utf8(c.text).len() + 52,
        weight(ChapterView { chunks: Seq::empty(), ..a }) == 40,
{
    lemma_bytes_on(a.chunks, b.chunks, b.chunks.len());
    assert(seq![c][0] == c);
    assert(bytes_upto(seq![c], 0) == 0);
}

// ----------------------------------------------------------------- the environment

/// A setting is what the environment first says of it, and there is none only where it
/// says nothing, or says nothing of it; an empty one counts as none.
pub proof fn law_the_first_setting_counts(vars: Vars, key: Seq<char>, k: int)
    requires
        0 <= k <= vars.len(),
        forall|m: int| 0 <= m < k ==> (#[trigger] vars[m]).0 != key,
        k < vars.len() ==> vars[k].0 == key,
    ensures
        var_from(vars, key, 0) == if k < vars.len() {
            Some(vars[k].1)
        } else {
            None
        },
        var_of(vars, key) == if k < vars.len() && vars[k].1.len() > 0 {
            Some(vars[k].1)
        } else {
            None
        },
{
    lemma_setting(vars, key, 0, k);
}

proof fn lemma_setting(vars: Vars, key: Seq<char>, i: int, k: int)
    requires
        0 <= i <= k <= vars.len(),
        forall|m: int| 0 <= m < k ==> (#[trigger] vars[m]).0 != key,
        k < vars.len() ==> vars[k].0 == key,
    ensures
        var_from(vars, key, i) == if k < vars.len() {
            Some(vars[k].1)
        } else {
            None
        },
    decreases k - i,
{
    if i < k {
        lemma_setting(vars, key, i + 1, k);
        assert(vars[i].0 != key);
    }
}

} // verus!
