//! What the HTTP API decides, apart from the sending.

pub mod answer_laws;
pub mod chapter_laws;
pub mod chapters;
pub mod device;
pub mod health;
pub mod library;
pub mod media;
pub mod notes;
pub mod session;

use vstd::prelude::*;
use crate::api::device::in_id;
use crate::chars::{after_prefix, all_digits, cat, chars_of, cut_at, cut_at_last, decimal, decimal_text, is_digit, is_numeral, lower_chars, lowered_text, opt_text, parse_u64, rsplit_once, same, split_at_char, split_char, split_once, strip_prefix, text_of, trim_chars, trim_of, value};

verus! {

/// Every error body of the API.
#[derive(Debug, Clone, PartialEq, Eq)]
pub struct ApiError {
    pub error: String,
}

/// `{"ok": true}`.
#[derive(Debug, Clone, PartialEq, Eq)]
pub struct Ok2 {
    pub ok: bool,
}

/// The document that describes the API.
#[derive(Debug)]
pub struct ApiDoc;

/// That it went well.
pub fn ok() -> (r: Ok2)
    ensures
        r.ok,
{
    Ok2 { ok: true }
}

/// The largest body that `/api/note` takes.
pub const NOTE_BODY_LIMIT: usize = 67_108_864;

// ----------------------------------------------------------------------- ranges

/// The number that the digits of `s` write, 0 where there are none or it does
/// not fit in 64 bits.
pub open spec fn number_or_zero(s: Seq<char>) -> u64 {
    if is_numeral(s) && value(s) <= u64::MAX {
        value(s) as u64
    } else {
        0
    }
}

fn read_number(v: &[char]) -> (r: u64)
    ensures
        r == number_or_zero(v@),
{
    match parse_u64(v) {
        Some(n) => n,
        None => 0,
    }
}

/// Digits and nothing else, or nothing at all.
pub open spec fn digits_only(s: Seq<char>) -> bool {
    forall|i: int| 0 <= i < s.len() ==> is_digit(#[trigger] s[i])
}

/// `a - b`, or 0.
pub open spec fn less(a: u64, b: u64) -> u64 {
    if a > b {
        (a - b) as u64
    } else {
        0
    }
}

/// The window that the two ends of a byte range name in a file of `size` bytes,
/// if there is one. An empty first end asks for the last bytes.
pub open spec fn window_of(lo: Seq<char>, hi: Seq<char>, size: u64) -> Result<(u64, u64), ()> {
    if lo.len() == 0 {
        Ok((less(size, number_or_zero(hi)), less(size, 1)))
    } else {
        let start = number_or_zero(lo);
        let end = if hi.len() == 0 {
            less(size, 1)
        } else {
            number_or_zero(hi)
        };
        if start >= size || start > end {
            Err(())
        } else {
            Ok((
                start,
                if end < less(size, 1) {
                    end
                } else {
                    less(size, 1)
                },
            ))
        }
    }
}

/// The two ends of a byte range.
pub open spec fn range_ends(raw: Seq<char>) -> Option<(Seq<char>, Seq<char>)> {
    match after_prefix(trim_of(raw), "bytes="@) {
        None => None,
        Some(rest) => match cut_at(rest, '-') {
            None => None,
            Some((a, b)) => {
                let (lo, hi) = (trim_of(a), trim_of(b));
                if digits_only(lo) && digits_only(hi) {
                    Some((lo, hi))
                } else {
                    None
                }
            },
        },
    }
}

/// The window of a file that a range header asks for. Nothing where the header
/// is not one of bytes, and an error where no byte of the file lies in it.
pub fn parse_range(raw: &str, size: u64) -> (r: Option<Result<(u64, u64), ()>>)
    ensures
        r == match range_ends(raw@) {
            None => None,
            Some((lo, hi)) => Some(window_of(lo, hi, size)),
        },
{
    let trimmed = trim_chars(&chars_of(raw));
    let rest = match strip_prefix(&trimmed, "bytes=") {
        Some(rest) => rest,
        None => {
            return None;
        },
    };
    let (lo, hi) = match split_once(&rest, '-') {
        Some((lo, hi)) => (trim_chars(&lo), trim_chars(&hi)),
        None => {
            return None;
        },
    };
    if !all_digits(&lo, 0, lo.len()) || !all_digits(&hi, 0, hi.len()) {
        return None;
    }
    let last: u64 = if size > 1 {
        size - 1
    } else {
        0
    };
    if lo.len() == 0 {
        let n = read_number(&hi);
        let start: u64 = if size > n {
            size - n
        } else {
            0
        };
        return Some(Ok((start, last)));
    }
    let start = read_number(&lo);
    let end: u64 = if hi.len() == 0 {
        last
    } else {
        read_number(&hi)
    };
    if start >= size || start > end {
        return Some(Err(()));
    }
    Some(
        Ok(
            (
                start,
                if end < last {
                    end
                } else {
                    last
                },
            ),
        ),
    )
}

/// A window ends within the file, and starts no later than it ends; but for a
/// request of the last no bytes, which starts where the file ends.
pub proof fn law_a_window_lies_in_the_file(lo: Seq<char>, hi: Seq<char>, size: u64)
    requires
        size > 0,
    ensures
        window_of(lo, hi, size) matches Ok((start, end)) ==> end < size && start <= size && (start
            <= end || (lo.len() == 0 && number_or_zero(hi) == 0)),
{
}

/// How a file is answered for.
#[derive(Debug)]
pub struct Ranged {
    /// The status: 200, 206 or 416.
    pub status: u16,
    /// The first byte sent, and how many of them.
    pub start: u64,
    pub len: u64,
    /// The `Content-Range`.
    pub content_range: Option<String>,
    /// The `Content-Length`.
    pub content_length: Option<u64>,
    /// Whether any byte is sent.
    pub body: bool,
}

/// What a [`Ranged`] holds.
#[verifier::ext_equal]
pub struct RangedView {
    pub status: u16,
    pub start: u64,
    pub len: u64,
    pub content_range: Option<Seq<char>>,
    pub content_length: Option<u64>,
    pub body: bool,
}

impl View for Ranged {
    type V = RangedView;

    open spec fn view(&self) -> RangedView {
        RangedView {
            status: self.status,
            start: self.start,
            len: self.len,
            content_range: opt_text(self.content_range),
            content_length: self.content_length,
            body: self.body,
        }
    }
}

/// How many bytes lie from `start` to `end`, at least one.
pub open spec fn span_of(start: u64, end: u64) -> u64 {
    let n = less(end, start) + 1;
    if n > u64::MAX {
        u64::MAX
    } else {
        n as u64
    }
}

/// The answer for a file of `size` bytes, `range` being the header that asks for
/// part of it.
pub open spec fn ranged_of(size: u64, is_head: bool, range: Seq<char>) -> RangedView {
    let whole = RangedView {
        status: 200,
        start: 0,
        len: span_of(0, less(size, 1)),
        content_range: None,
        content_length: Some(span_of(0, less(size, 1))),
        body: true,
    };
    if is_head {
        RangedView { len: 0, content_length: Some(size), body: false, ..whole }
    } else {
        match range_ends(range) {
            None => whole,
            Some((lo, hi)) => match window_of(lo, hi, size) {
                Err(_) => RangedView {
                    status: 416,
                    start: 0,
                    len: 0,
                    content_range: Some("bytes */"@ + decimal(size as nat)),
                    content_length: None,
                    body: false,
                },
                Ok((start, end)) => RangedView {
                    status: 206,
                    start,
                    len: span_of(start, end),
                    content_range: Some(
                        "bytes "@ + decimal(start as nat) + "-"@ + decimal(end as nat) + "/"@
                            + decimal(size as nat),
                    ),
                    content_length: Some(span_of(start, end)),
                    body: true,
                },
            },
        }
    }
}

fn span(start: u64, end: u64) -> (r: u64)
    ensures
        r == span_of(start, end),
{
    let n: u64 = if end > start {
        end - start
    } else {
        0
    };
    if n == u64::MAX {
        n
    } else {
        n + 1
    }
}

/// How a file of `size` bytes is answered for. A range that is not of bytes is
/// ignored; one that no byte lies in is refused.
pub fn ranged(size: u64, is_head: bool, range: &str) -> (r: Ranged)
    ensures
        r@ == ranged_of(size, is_head, range@),
{
    let last: u64 = if size > 1 {
        size - 1
    } else {
        0
    };
    let whole: u64 = span(0, last);
    if is_head {
        return Ranged {
            status: 200,
            start: 0,
            len: 0,
            content_range: None,
            content_length: Some(size),
            body: false,
        };
    }
    match parse_range(range, size) {
        None => Ranged {
            status: 200,
            start: 0,
            len: whole,
            content_range: None,
            content_length: Some(whole),
            body: true,
        },
        Some(Err(_)) => {
            let said = cat("bytes */", decimal_text(size).as_str());
            Ranged {
                status: 416,
                start: 0,
                len: 0,
                content_range: Some(said),
                content_length: None,
                body: false,
            }
        },
        Some(Ok((start, end))) => {
            let a = cat(cat("bytes ", decimal_text(start).as_str()).as_str(), "-");
            let b = cat(cat(a.as_str(), decimal_text(end).as_str()).as_str(), "/");
            let said = cat(b.as_str(), decimal_text(size).as_str());
            let n: u64 = span(start, end);
            Ranged {
                status: 206,
                start,
                len: n,
                content_range: Some(said),
                content_length: Some(n),
                body: true,
            }
        },
    }
}

/// A range that is no range of bytes is answered with the whole file.
pub proof fn law_an_unknown_range_is_ignored(size: u64, range: Seq<char>)
    requires
        after_prefix(trim_of(range), "bytes="@) is None,
    ensures
        ranged_of(size, false, range).status == 200,
        ranged_of(size, false, range).content_range is None,
        size > 0 ==> ranged_of(size, false, range).len == size,
{
}

// ---------------------------------------------------------------- what is taken

/// What a client says of a compressed answer.
#[derive(Debug, PartialEq, Eq)]
pub enum Offer {
    /// It does not offer to take one.
    Nothing,
    /// It takes one.
    Taken,
    /// It takes one at this weight, as it wrote it.
    Weighed(String),
}

/// The coding that one part of the header names, and its weight as written.
pub open spec fn coding_of(p: Seq<char>) -> (Seq<char>, Option<Seq<char>>) {
    match cut_at(p, ';') {
        Some((n, q)) => (trim_of(n), after_prefix(trim_of(q), "q="@)),
        None => (trim_of(p), None),
    }
}

/// The weight that the last of the first `n` parts naming `coding` gives it.
pub open spec fn weight_of(parts: Seq<Seq<char>>, coding: Seq<char>, n: int) -> Option<
    Option<Seq<char>>,
>
    decreases n,
{
    if n <= 0 {
        None
    } else if coding_of(parts[n - 1]).0 == coding {
        Some(coding_of(parts[n - 1]).1)
    } else {
        weight_of(parts, coding, n - 1)
    }
}

/// The weight that governs a gzipped answer: that of `gzip`, or that of `*`.
pub open spec fn gzip_weight(raw: Seq<char>) -> Option<Option<Seq<char>>> {
    let parts = split_at_char(lowered_text(raw), ',');
    let n = parts.len() as int;
    match weight_of(parts, "gzip"@, n) {
        Some(q) => Some(q),
        None => weight_of(parts, "*"@, n),
    }
}

fn split_coding(p: &[char]) -> (r: (Vec<char>, Option<Vec<char>>))
    ensures
        r.0@ == coding_of(p@).0,
        match r.1 {
            Some(q) => coding_of(p@).1 == Some(q@),
            None => coding_of(p@).1 is None,
        },
{
    match split_once(p, ';') {
        Some((n, q)) => (trim_chars(&n), strip_prefix(&trim_chars(&q), "q=")),
        None => (trim_chars(p), None),
    }
}

fn find_weight(parts: &Vec<Vec<char>>, coding: &str) -> (r: Option<Option<Vec<char>>>)
    ensures
        match r {
            Some(Some(q)) => weight_of(
                crate::chars::spelled(parts@),
                coding@,
                parts@.len() as int,
            ) == Some(Some(q@)),
            Some(None) => weight_of(crate::chars::spelled(parts@), coding@, parts@.len() as int)
                == Some(None::<Seq<char>>),
            None => weight_of(crate::chars::spelled(parts@), coding@, parts@.len() as int) is None,
        },
{
    let wanted = chars_of(coding);
    let ghost all = crate::chars::spelled(parts@);
    let mut i: usize = parts.len();
    while i > 0
        invariant
            i <= parts@.len(),
            wanted@ == coding@,
            all == crate::chars::spelled(parts@),
            weight_of(all, coding@, parts@.len() as int) == weight_of(all, coding@, i as int),
        decreases i,
    {
        let p = &parts[i - 1];
        assert(all[i - 1] == p@);
        let (name, q) = split_coding(p);
        if same(&name, &wanted) {
            return Some(q);
        }
        i -= 1;
    }
    None
}

/// What an `Accept-Encoding` header says of a gzipped answer. Its weight, where
/// it has one, is left as it was written.
pub fn accepts_gzip(raw: &str) -> (r: Offer)
    ensures
        match gzip_weight(raw@) {
            None => r == Offer::Nothing,
            Some(None) => r == Offer::Taken,
            Some(Some(q)) => r matches Offer::Weighed(s) && s@ == q,
        },
{
    let parts = split_char(&lower_chars(&chars_of(raw)), ',');
    let found = match find_weight(&parts, "gzip") {
        Some(q) => Some(q),
        None => find_weight(&parts, "*"),
    };
    match found {
        None => Offer::Nothing,
        Some(None) => Offer::Taken,
        Some(Some(q)) => Offer::Weighed(text_of(&q)),
    }
}

// ------------------------------------------------------------------- the reader

/// What stands behind the last `/`.
pub open spec fn last_of(p: Seq<char>) -> Seq<char> {
    match cut_at_last(p, '/') {
        Some((_, n)) => n,
        None => p,
    }
}

/// Whether a name ends in `-` and eight characters of a content hash.
pub open spec fn ends_in_hash(s: Seq<char>) -> bool {
    &&& s.len() >= 9
    &&& s[s.len() - 9] == '-'
    &&& forall|i: int| s.len() - 8 <= i < s.len() ==> in_id(#[trigger] s[i])
}

/// Whether a path is that of a build asset whose name changes with its content:
/// `/assets/`, a name, `-`, eight characters of hash, and an extension.
pub open spec fn hashed_asset(path: Seq<char>) -> bool {
    match after_prefix(path, "/assets/"@) {
        None => false,
        Some(rest) => match cut_at_last(last_of(rest), '.') {
            None => false,
            Some((stem, ext)) => ext.len() > 0 && ends_in_hash(stem),
        },
    }
}

fn is_ending_in_hash(s: &[char]) -> (r: bool)
    ensures
        r == ends_in_hash(s@),
{
    if s.len() < 9 || s[s.len() - 9] != '-' {
        return false;
    }
    let mut i: usize = s.len() - 8;
    while i < s.len()
        invariant
            9 <= s@.len(),
            s@.len() - 8 <= i <= s@.len(),
            forall|k: int| s@.len() - 8 <= k < i ==> in_id(#[trigger] s@[k]),
        decreases s@.len() - i,
    {
        if !crate::api::device::is_in_id(s[i]) {
            return false;
        }
        i += 1;
    }
    true
}

/// Whether a path is that of a build asset whose name changes with its content.
/// An asset that is not recognised is merely asked for again.
pub fn is_hashed_asset(path: &str) -> (r: bool)
    ensures
        r == hashed_asset(path@),
{
    let rest = match strip_prefix(&chars_of(path), "/assets/") {
        Some(rest) => rest,
        None => {
            return false;
        },
    };
    let name = match rsplit_once(&rest, '/') {
        Some((_, n)) => n,
        None => rest,
    };
    match rsplit_once(&name, '.') {
        Some((stem, ext)) => ext.len() > 0 && is_ending_in_hash(&stem),
        None => false,
    }
}

/// The `Cache-Control` of a path of the reader: a year for what is named after
/// its content, and a question each time for everything else.
pub fn web_cache_control(path: &str) -> (r: &'static str)
    ensures
        r@ == if hashed_asset(path@) {
            "public, max-age=31536000, immutable"@
        } else {
            "no-cache"@
        },
{
    if is_hashed_asset(path) {
        "public, max-age=31536000, immutable"
    } else {
        "no-cache"
    }
}

} // verus!
