//! Whether a plan that was made before still holds.
//!
//! A plan is made of a file, by a chunker, in one size of chunk. While none of
//! these has changed it is read back; when one has, it is made again.

use vstd::prelude::*;
use crate::book::Chapter;
use crate::cache::{book_dir, book_dir_of};
use crate::chars::same_text;
use crate::library::usable_plan;
use crate::paths::{join_path, joined};

verus! {

/// The version of the chunker. Another one makes other plans.
pub const FORMAT: u32 = 1;

/// What a plan was made of.
#[derive(Debug, Clone, PartialEq)]
pub struct Stamp {
    pub format: u32,
    pub path: String,
    pub size: u64,
    /// When the file was last written, in nanoseconds since the epoch.
    pub mtime_ns: i128,
    pub max_chars: usize,
}

/// What a [`Stamp`] holds.
#[verifier::ext_equal]
pub struct StampView {
    pub format: u32,
    pub path: Seq<char>,
    pub size: u64,
    pub mtime_ns: i128,
    pub max_chars: usize,
}

impl View for Stamp {
    type V = StampView;

    open spec fn view(&self) -> StampView {
        StampView {
            format: self.format,
            path: self.path@,
            size: self.size,
            mtime_ns: self.mtime_ns,
            max_chars: self.max_chars,
        }
    }
}

/// The stamp of a plan made now, of a file like this.
pub fn stamp(path: &str, size: u64, mtime_ns: i128, max_chars: usize) -> (r: Stamp)
    ensures
        r@ == (StampView { format: FORMAT, path: path@, size, mtime_ns, max_chars }),
{
    Stamp { format: FORMAT, path: path.to_owned(), size, mtime_ns, max_chars }
}

/// Where the stamp of a book's plan is kept.
pub fn stamp_path(work: &str, key: &str) -> (r: String)
    ensures
        r@ == joined(book_dir_of(work@, key@), "parse.json"@),
{
    join_path(book_dir(work, key).as_str(), "parse.json")
}

/// Whether a plan made under the stamp `have` is the one that is wanted now. One
/// whose stamp cannot be read is not.
pub fn still_holds(have: Option<&Stamp>, want: &Stamp) -> (r: bool)
    ensures
        r == match have {
            Some(h) => h@ == want@,
            None => false,
        },
{
    match have {
        Some(h) => h.format == want.format && h.size == want.size && h.mtime_ns == want.mtime_ns
            && h.max_chars == want.max_chars && same_text(h.path.as_str(), want.path.as_str()),
        None => false,
    }
}

/// The plan of a book, where the one that was kept still holds and can be used.
/// Nothing else is an error: it means that the plan is made again.
pub fn load(have: Option<&Stamp>, want: &Stamp, kept: Option<Vec<Chapter>>) -> (r: Option<
    Vec<Chapter>,
>)
    ensures
        r == match (have, kept) {
            (Some(h), Some(p)) if h@ == want@ && p@.len() > 0 => Some(p),
            _ => None,
        },
{
    if still_holds(have, want) {
        usable_plan(kept)
    } else {
        None
    }
}

/// A plan is used again only where its file, its chunker and its size of chunk
/// are what they were.
pub proof fn law_any_change_is_a_new_plan(h: StampView, w: StampView)
    requires
        h != w,
    ensures
        h.path != w.path || h.size != w.size || h.mtime_ns != w.mtime_ns || h.max_chars
            != w.max_chars || h.format != w.format,
{
    if h.path == w.path && h.size == w.size && h.mtime_ns == w.mtime_ns && h.max_chars
        == w.max_chars && h.format == w.format {
        assert(h =~= w);
    }
}

} // verus!
