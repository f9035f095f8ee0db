//! Audio off the disk: one chunk, one packed chapter, its manifest, its segments.

use vstd::prelude::*;
use crate::cache::{safe_key, safe_key_of};
use crate::chars::{all_digits, before_suffix, cat, chars_of, cut_at_last, decimal, decimal_text, found_at, is_digit, opt_text, parse_word, rsplit_once, same_text, stands_at, strip_suffix, text_of, unsigned_word};

verus! {

/// Which book is meant, by its key. Without one it is the loaded book.
#[derive(Debug, Clone, PartialEq, Eq)]
pub struct BookQuery {
    pub book: Option<String>,
}

/// The key a request means, `loaded` being that of the loaded book.
pub open spec fn key_meant(book: Option<Seq<char>>, loaded: Seq<char>) -> Seq<char> {
    match book {
        Some(b) if safe_key_of(b).len() > 0 => safe_key_of(b),
        _ => loaded,
    }
}

/// The key a request means: always one path segment.
pub fn key_for(q: &BookQuery, loaded: &str) -> (r: String)
    ensures
        r@ == key_meant(opt_text(q.book), loaded@),
{
    match &q.book {
        Some(b) => {
            let given = safe_key(b.as_str());
            if given.as_str().is_empty() {
                loaded.to_owned()
            } else {
                given
            }
        },
        None => loaded.to_owned(),
    }
}

/// The number that a file name writes before its extension.
pub open spec fn number_before(name: Seq<char>, ext: Seq<char>) -> Option<usize> {
    match before_suffix(name, ext) {
        Some(n) => unsigned_word(n),
        None => None,
    }
}

/// The number that a file name writes before its extension.
pub fn numbered(name: &str, ext: &str) -> (r: Option<usize>)
    ensures
        r == number_before(name@, ext@),
{
    match strip_suffix(&chars_of(name), ext) {
        Some(n) => parse_word(&n),
        None => None,
    }
}

/// The names that a chapter's stream is made of: `init.mp4`, and `seg`, five
/// digits and `.m4s`.
pub open spec fn segment_name(name: Seq<char>) -> bool {
    ||| name == "init.mp4"@
    ||| {
        &&& name.len() == 12
        &&& found_at(name, "seg"@, 0)
        &&& found_at(name, ".m4s"@, 8)
        &&& forall|i: int| 3 <= i < 8 ==> is_digit(#[trigger] name[i])
    }
}

/// Whether a name is one that a chapter's stream is made of.
pub fn valid_segment(name: &str) -> (r: bool)
    ensures
        r == segment_name(name@),
{
    if same_text(name, "init.mp4") {
        return true;
    }
    let v = chars_of(name);
    v.len() == 12 && stands_at(&v, &chars_of("seg"), 0) && stands_at(&v, &chars_of(".m4s"), 8)
        && all_digits(&v, 3, 8)
}

/// No segment name leads out of its directory.
pub proof fn law_segments_stay_in_their_directory(name: Seq<char>, i: int)
    requires
        segment_name(name),
        0 <= i < name.len(),
    ensures
        name[i] != '/',
{
    reveal_strlit("init.mp4");
    reveal_strlit("seg");
    reveal_strlit(".m4s");
    if name != "init.mp4"@ {
        if i < 3 {
            assert(name.subrange(0, 3)[i] == name[i]);
        } else if i >= 8 {
            assert(name.subrange(8, 12)[i - 8] == name[i]);
        } else {
            assert(is_digit(name[i]));
        }
    }
}

/// What a request for a file of a chapter asks for.
#[derive(Debug, Clone, Copy, PartialEq, Eq, Structural)]
pub enum ChapterFile {
    Audio(usize),
    Manifest(usize),
    Playlist(usize),
    /// There is no such file.
    Missing,
}

/// What a request for a file of a chapter asks for, by its extension.
pub open spec fn chapter_file_of(name: Seq<char>) -> ChapterFile {
    match cut_at_last(name, '.') {
        None => ChapterFile::Missing,
        Some((stem, ext)) => match unsigned_word(stem) {
            None => ChapterFile::Missing,
            Some(ci) => if ext == "m4a"@ {
                ChapterFile::Audio(ci)
            } else if ext == "json"@ {
                ChapterFile::Manifest(ci)
            } else if ext == "m3u8"@ {
                ChapterFile::Playlist(ci)
            } else {
                ChapterFile::Missing
            },
        },
    }
}

/// What a request for a file of a chapter asks for.
pub fn chapter_file(name: &str) -> (r: ChapterFile)
    ensures
        r == chapter_file_of(name@),
{
    match rsplit_once(&chars_of(name), '.') {
        None => ChapterFile::Missing,
        Some((stem, ext)) => {
            let ext = text_of(&ext);
            match parse_word(&stem) {
                None => ChapterFile::Missing,
                Some(ci) => if same_text(ext.as_str(), "m4a") {
                    ChapterFile::Audio(ci)
                } else if same_text(ext.as_str(), "json") {
                    ChapterFile::Manifest(ci)
                } else if same_text(ext.as_str(), "m3u8") {
                    ChapterFile::Playlist(ci)
                } else {
                    ChapterFile::Missing
                },
            }
        },
    }
}

// ---------------------------------------------------------------- the stream URL

/// The hexadecimal digit for `d`.
pub open spec fn hex_digit(d: int) -> char {
    if d < 10 {
        (0x30 + d) as char
    } else {
        (0x41 + d - 10) as char
    }
}

/// One byte of a text in a URL: itself where it is an ASCII letter or digit, `%`
/// and two hexadecimal digits where it is not.
pub open spec fn url_byte(b: u8) -> Seq<char> {
    if (0x30 <= b <= 0x39) || (0x41 <= b <= 0x5a) || (0x61 <= b <= 0x7a) {
        seq![b as char]
    } else {
        seq!['%', hex_digit(b as int / 16), hex_digit(b as int % 16)]
    }
}

/// Bytes of a text in a URL.
pub open spec fn url_bytes(b: Seq<u8>) -> Seq<char>
    decreases b.len(),
{
    if b.len() == 0 {
        Seq::empty()
    } else {
        url_bytes(b.drop_last()) + url_byte(b.last())
    }
}

/// Write a text for a URL, by `percent_encoding::utf8_percent_encode` with its
/// `NON_ALPHANUMERIC`: every byte that is no ASCII letter or digit becomes `%`
/// and its two hexadecimal digits.
#[verifier::external_body]
pub(crate) fn percent_encode(s: &str) -> (r: String)
    ensures
        r@ == url_bytes(vstd::utf8::encode_utf8(s@)),
{
    percent_encoding::utf8_percent_encode(s, percent_encoding::NON_ALPHANUMERIC).to_string()
}

/// Where the segments of a chapter are served from.
pub fn hls_base(key: &str, ci: usize) -> (r: String)
    ensures
        r@ == "/api/hls/"@ + url_bytes(vstd::utf8::encode_utf8(key@)) + "/"@ + decimal(ci as nat)
            + "/"@,
{
    let a = cat(cat("/api/hls/", percent_encode(key).as_str()).as_str(), "/");
    cat(cat(a.as_str(), decimal_text(ci as u64).as_str()).as_str(), "/")
}

} // verus!
