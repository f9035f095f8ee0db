//! Which books the library finds, said of what is on the disk.

use vstd::prelude::*;
use crate::cache::key_of;
use crate::library::{book_names, epub_from, strangers_upto, CacheEntry};
use crate::rows::{lemma_keep_push, lemma_pick_none, lemma_pick_push};
use crate::store::BookRowView;

verus! {

/// Every folder of the cache that holds a plan is a book, and nothing else is.
pub proof fn law_every_folder_with_a_plan_is_a_book(all: Seq<CacheEntry>)
    ensures
        book_names(all, all.len() as int) == all.filter(
            |e: CacheEntry| e.is_dir && e.has_plan,
        ).map_values(|e: CacheEntry| e.name@),
{
    lemma_book_names(all, all.len() as int);
    lemma_pick_none(all, |e: CacheEntry| e.is_dir && e.has_plan, |e: CacheEntry| e.name@);
}

proof fn lemma_book_names(all: Seq<CacheEntry>, n: int)
    requires
        0 <= n <= all.len(),
    ensures
        book_names(all, n) == all.take(n).filter(
            |e: CacheEntry| e.is_dir && e.has_plan,
        ).map_values(|e: CacheEntry| e.name@),
    decreases n,
{
    let p = |e: CacheEntry| e.is_dir && e.has_plan;
    let f = |e: CacheEntry| e.name@;
    lemma_pick_none(all, p, f);
    if n > 0 {
        lemma_book_names(all, n - 1);
        lemma_pick_push(all, n, p, f);
    }
}

/// A stranger is a book on the disk that no row has the key of; every one is found, in
/// the order of the disk.
pub proof fn law_every_stranger_is_found(known: Seq<BookRowView>, on_disk: Seq<Seq<char>>)
    ensures
        strangers_upto(known, on_disk, on_disk.len() as int) == on_disk.filter(
            |k: Seq<char>| !known.map_values(|b: BookRowView| b.key).contains(k),
        ),
{
    lemma_strangers(known, on_disk, on_disk.len() as int);
    lemma_keep_push(
        on_disk,
        0,
        |k: Seq<char>| !known.map_values(|b: BookRowView| b.key).contains(k),
    );
}

proof fn lemma_strangers(known: Seq<BookRowView>, on_disk: Seq<Seq<char>>, n: int)
    requires
        0 <= n <= on_disk.len(),
    ensures
        strangers_upto(known, on_disk, n) == on_disk.take(n).filter(
            |k: Seq<char>| !known.map_values(|b: BookRowView| b.key).contains(k),
        ),
    decreases n,
{
    let keys = known.map_values(|b: BookRowView| b.key);
    let p = |k: Seq<char>| !known.map_values(|b: BookRowView| b.key).contains(k);
    lemma_keep_push(on_disk, n, p);
    if n > 0 {
        lemma_strangers(known, on_disk, n - 1);
        let k = on_disk[n - 1];
        if crate::library::known_key(known, k) {
            let i = choose|i: int| 0 <= i < known.len() && (#[trigger] known[i]).key == k;
            assert(keys[i] == k);
        }
        if keys.contains(k) {
            let i = keys.index_of(k);
            assert(known[i].key == k);
        }
    }
}

/// The file of a book is the first that was found with its key, and there is none only
/// where none has it.
pub proof fn law_the_first_file_with_the_key(found: Seq<Seq<char>>, key: Seq<char>)
    ensures
        match epub_from(found, key, 0) {
            Some(p) => key_of(p) == key && exists|k: int|
                0 <= k < found.len() && #[trigger] found[k] == p && forall|m: int|
                    0 <= m < k ==> key_of(#[trigger] found[m]) != key,
            None => forall|m: int| 0 <= m < found.len() ==> key_of(#[trigger] found[m]) != key,
        },
{
    lemma_epub_from(found, key, 0);
}

proof fn lemma_epub_from(found: Seq<Seq<char>>, key: Seq<char>, i: int)
    requires
        0 <= i <= found.len(),
    ensures
        match epub_from(found, key, i) {
            Some(p) => key_of(p) == key && exists|k: int|
                i <= k < found.len() && #[trigger] found[k] == p && forall|m: int|
                    i <= m < k ==> key_of(#[trigger] found[m]) != key,
            None => forall|m: int| i <= m < found.len() ==> key_of(#[trigger] found[m]) != key,
        },
    decreases found.len() - i,
{
    if i < found.len() {
        lemma_epub_from(found, key, i + 1);
        if key_of(found[i]) == key {
            assert(found[i] == found[i]);
        } else if let Some(p) = epub_from(found, key, i + 1) {
            let k = choose|k: int|
                i + 1 <= k < found.len() && #[trigger] found[k] == p && forall|m: int|
                    i + 1 <= m < k ==> key_of(#[trigger] found[m]) != key;
            assert(found[k] == p);
            assert forall|m: int| i <= m < k implies key_of(#[trigger] found[m]) != key by {}
        }
    }
}

} // verus!
