//! Who is asking.
//!
//! A device says who it is in a header, or in the query where it cannot set one.
//! A client that says nothing is a device too: the one whose id is empty.

use vstd::prelude::*;
use crate::cache::{first, take_first};
use crate::chars::{chars_of, cut_at, opt_text, part, same, same_text, split_at_char, split_char, split_once, swap_char, swapped, text_of, trim_chars, trim_of};
use crate::order::sorted;
use crate::rows::{drop_where, find_where, first_where, lemma_first_where, put_row, put_where, remove_where, row_where, select_where, sort_rows, views, Row};

verus! {

pub const DEVICE_HEADER: &'static str = "x-narrator-device";

pub const DEVICE_NAME_HEADER: &'static str = "x-narrator-device-name";

/// The names of the same two in a query.
pub const DEVICE_QUERY: &'static str = "device";

pub const DEVICE_NAME_QUERY: &'static str = "device_name";

/// The longest id that is kept.
pub const MAX_ID: usize = 64;

/// The longest label that is kept. It is shown, never compared.
pub const MAX_NAME: usize = 40;

/// The device behind a request.
#[derive(Debug, Clone, PartialEq, Eq)]
pub struct Device {
    pub id: String,
    pub name: String,
}

/// What a [`Device`] holds.
#[verifier::ext_equal]
pub struct DeviceView {
    pub id: Seq<char>,
    pub name: Seq<char>,
}

impl View for Device {
    type V = DeviceView;

    open spec fn view(&self) -> DeviceView {
        DeviceView { id: self.id@, name: self.name@ }
    }
}

// ----------------------------------------------------------------- the spelling

/// A character that an id may hold: an ASCII letter or digit, `-` or `_`.
pub open spec fn in_id(c: char) -> bool {
    ('a' <= c <= 'z') || ('A' <= c <= 'Z') || ('0' <= c <= '9') || c == '-' || c == '_'
}

/// Whether an id may hold `c`.
pub fn is_in_id(c: char) -> (r: bool)
    ensures
        r == in_id(c),
{
    ('a' <= c && c <= 'z') || ('A' <= c && c <= 'Z') || ('0' <= c && c <= '9') || c == '-' || c
        == '_'
}

/// A control character.
pub open spec fn control(c: char) -> bool {
    (c as u32) < 0x20 || 0x7f <= (c as u32) < 0xa0
}

/// Whether `c` is no control character.
pub fn is_printed(c: char) -> (r: bool)
    ensures
        r == !control(c),
{
    let n: u32 = c as u32;
    !(n < 0x20 || (0x7f <= n && n < 0xa0))
}

/// The characters of `v` that `f` accepts.
pub fn keep_chars<F: Fn(char) -> bool>(
    v: &[char],
    f: F,
    Ghost(p): Ghost<spec_fn(char) -> bool>,
) -> (r: Vec<char>)
    requires
        forall|c: char| call_requires(f, (c,)),
        forall|c: char, b: bool| call_ensures(f, (c,), b) ==> b == p(c),
    ensures
        r@ == v@.filter(p),
{
    let mut r: Vec<char> = Vec::new();
    let mut i: usize = 0;
    proof {
        reveal(Seq::filter);
        assert(r@ =~= v@.take(0).filter(p));
    }
    while i < v.len()
        invariant
            i <= v@.len(),
            forall|c: char| call_requires(f, (c,)),
            forall|c: char, b: bool| call_ensures(f, (c,), b) ==> b == p(c),
            r@ == v@.take(i as int).filter(p),
        decreases v@.len() - i,
    {
        let c = v[i];
        proof {
            v@.take(i as int).lemma_filter_push(c, p);
            assert(v@.take(i + 1) =~= v@.take(i as int).push(c));
        }
        if f(c) {
            r.push(c);
        }
        i += 1;
    }
    assert(v@.take(i as int) =~= v@);
    r
}

/// The characters that an id may hold.
pub open spec fn id_chars() -> spec_fn(char) -> bool {
    |c: char| in_id(c)
}

/// The characters that a label may hold.
pub open spec fn name_chars() -> spec_fn(char) -> bool {
    |c: char| !control(c)
}

/// What is kept of an id.
pub open spec fn clean_id_of(raw: Seq<char>) -> Seq<char> {
    first(raw.filter(id_chars()), MAX_ID as nat)
}

/// Keep an id to characters that are safe in a key, in JSON and in a log line.
/// What is not is dropped, and the device is not refused for it.
pub fn clean_id(raw: &str) -> (r: String)
    ensures
        r@ == clean_id_of(raw@),
{
    let kept = keep_chars(&chars_of(raw), is_in_id, Ghost(id_chars()));
    text_of(&take_first(&kept, MAX_ID))
}

/// What is kept of a label.
pub open spec fn clean_name_of(raw: Seq<char>) -> Seq<char> {
    trim_of(first(raw.filter(name_chars()), MAX_NAME as nat))
}

/// Keep a label to what does not break a line.
pub fn clean_name(raw: &str) -> (r: String)
    ensures
        r@ == clean_name_of(raw@),
{
    let kept = keep_chars(&chars_of(raw), is_printed, Ghost(name_chars()));
    text_of(&trim_chars(&take_first(&kept, MAX_NAME)))
}

/// An id keeps only what an id may hold, and never more than [`MAX_ID`] of it;
/// what it already is, it stays.
pub proof fn law_a_clean_id_is_safe(raw: Seq<char>)
    ensures
        clean_id_of(raw).len() <= MAX_ID,
        forall|i: int| 0 <= i < clean_id_of(raw).len() ==> in_id(#[trigger] clean_id_of(raw)[i]),
        (raw.len() <= MAX_ID && forall|i: int| 0 <= i < raw.len() ==> in_id(#[trigger] raw[i]))
            ==> clean_id_of(raw) == raw,
{
    let p = id_chars();
    let kept = raw.filter(p);
    raw.lemma_filter_len(p);
    assert forall|i: int| 0 <= i < clean_id_of(raw).len() implies in_id(
        #[trigger] clean_id_of(raw)[i],
    ) by {
        assert(clean_id_of(raw)[i] == kept[i]);
        raw.lemma_filter_pred(p, i);
        assert(p(kept[i]));
    }
    if raw.len() <= MAX_ID && forall|i: int| 0 <= i < raw.len() ==> in_id(#[trigger] raw[i]) {
        lemma_all_kept(raw, p);
        assert(kept == raw);
        assert(first(raw, MAX_ID as nat) =~= raw);
    }
}

proof fn lemma_all_kept(s: Seq<char>, p: spec_fn(char) -> bool)
    requires
        forall|i: int| 0 <= i < s.len() ==> p(#[trigger] s[i]),
    ensures
        s.filter(p) == s,
    decreases s.len(),
{
    reveal(Seq::filter);
    if s.len() > 0 {
        lemma_all_kept(s.drop_last(), p);
        assert(p(s[s.len() - 1]));
        assert(s.filter(p) =~= s.drop_last().push(s.last()));
        assert(s.drop_last().push(s.last()) =~= s);
    } else {
        assert(s.filter(p) =~= s);
    }
}

// -------------------------------------------------------------------- the query

/// The value of a hexadecimal digit.
pub open spec fn hex_value(b: u8) -> Option<int> {
    if 0x30 <= b <= 0x39 {
        Some(b - 0x30)
    } else if 0x41 <= b <= 0x46 {
        Some(b - 0x41 + 10)
    } else if 0x61 <= b <= 0x66 {
        Some(b - 0x61 + 10)
    } else {
        None
    }
}

/// Bytes with each `%` and the two hexadecimal digits behind it read as one
/// byte. A `%` without them stands for itself.
pub open spec fn percent_bytes(b: Seq<u8>) -> Seq<u8>
    decreases b.len(),
{
    if b.len() == 0 {
        b
    } else if b[0] == 0x25 && b.len() > 2 && hex_value(b[1]) is Some && hex_value(b[2]) is Some {
        seq![(hex_value(b[1]).unwrap() * 16 + hex_value(b[2]).unwrap()) as u8] + percent_bytes(
            b.skip(3),
        )
    } else {
        seq![b[0]] + percent_bytes(b.skip(1))
    }
}

/// What `percent_encoding::percent_decode_str` and its `decode_utf8_lossy` make
/// of a text.
pub uninterp spec fn percent_decoded(s: Seq<char>) -> Seq<char>;

/// Read the `%` sequences of a text, by `percent_encoding::percent_decode_str`
/// and the `decode_utf8_lossy` of what it gives. Where the bytes that come out
/// spell a text it is that text. Nothing is said of what stands in the place of
/// bytes that spell none, but that it rests on the text alone.
#[verifier::external_body]
pub(crate) fn percent_decode(s: &str) -> (r: String)
    ensures
        r@ == percent_decoded(s@),
        forall|t: Seq<char>|
            #[trigger] vstd::utf8::encode_utf8(t) == percent_bytes(vstd::utf8::encode_utf8(s@))
                ==> r@ == t,
{
    percent_encoding::percent_decode_str(s).decode_utf8_lossy().into_owned()
}

/// The name and the value of one pair of a query, before they are read.
pub open spec fn pair_of(p: Seq<char>) -> (Seq<char>, Seq<char>) {
    match cut_at(p, '=') {
        Some(nv) => nv,
        None => (p, Seq::empty()),
    }
}

fn split_pair(p: &[char]) -> (r: (Vec<char>, Vec<char>))
    ensures
        (r.0@, r.1@) == pair_of(p@),
{
    match split_once(p, '=') {
        Some(nv) => nv,
        None => {
            let all = part(p, 0, p.len());
            assert(all@ =~= p@);
            (all, Vec::new())
        },
    }
}

/// The value of the first pair from the one at `i` on that is named `key`.
pub open spec fn value_from(pairs: Seq<Seq<char>>, key: Seq<char>, i: int) -> Option<Seq<char>>
    decreases pairs.len() - i,
{
    if i < 0 || i >= pairs.len() {
        None
    } else if pair_of(pairs[i]).0 == key {
        Some(pair_of(pairs[i]).1)
    } else {
        value_from(pairs, key, i + 1)
    }
}

/// The value of `key` in a query, nothing where it has none.
pub open spec fn query_value_of(query: Seq<char>, key: Seq<char>) -> Seq<char> {
    match value_from(split_at_char(query, '&'), key, 0) {
        Some(v) => swapped(percent_decoded(v), '+', ' '),
        None => Seq::empty(),
    }
}

fn find_value(query: &str, key: &str) -> (r: Option<String>)
    ensures
        opt_text(r) == value_from(split_at_char(query@, '&'), key@, 0),
{
    let pairs = split_char(&chars_of(query), '&');
    let wanted = chars_of(key);
    let ghost all = split_at_char(query@, '&');
    let mut i: usize = 0;
    while i < pairs.len()
        invariant
            i <= pairs@.len(),
            wanted@ == key@,
            all == split_at_char(query@, '&'),
            crate::chars::spelled(pairs@) == all,
            value_from(all, key@, 0) == value_from(all, key@, i as int),
        decreases pairs@.len() - i,
    {
        let p = &pairs[i];
        assert(all[i as int] == p@);
        let (name, v) = split_pair(p);
        if same(&name, &wanted) {
            return Some(text_of(&v));
        }
        i += 1;
    }
    None
}

/// Take one key out of a query. A key that nothing here knows costs nothing.
pub fn query_value(query: &str, key: &str) -> (r: String)
    ensures
        r@ == query_value_of(query@, key@),
{
    match find_value(query, key) {
        Some(v) => {
            let d = percent_decode(v.as_str());
            text_of(&swap_char(&chars_of(d.as_str()), '+', ' '))
        },
        None => {
            let none = String::new();
            assert(none@ =~= query_value_of(query@, key@));
            none
        },
    }
}

// ------------------------------------------------------------------- the device

/// `a`, or `b` where it is empty.
pub open spec fn or_else(a: Seq<char>, b: Seq<char>) -> Seq<char> {
    if a.len() > 0 {
        a
    } else {
        b
    }
}

/// What a header holds, nothing where it is not there.
pub open spec fn held(h: Option<&str>) -> Seq<char> {
    match h {
        Some(s) => s@,
        None => Seq::empty(),
    }
}

/// The device that two headers and a query name.
pub open spec fn device_of(id: Option<&str>, name: Option<&str>, query: Option<&str>) -> DeviceView {
    DeviceView {
        id: or_else(
            clean_id_of(held(id)),
            clean_id_of(query_value_of(held(query), DEVICE_QUERY@)),
        ),
        name: or_else(
            clean_name_of(held(name)),
            clean_name_of(query_value_of(held(query), DEVICE_NAME_QUERY@)),
        ),
    }
}

fn given(h: Option<&str>) -> (r: String)
    ensures
        r@ == held(h),
{
    match h {
        Some(s) => s.to_owned(),
        None => {
            let none = String::new();
            assert(none@ =~= held(h));
            none
        },
    }
}

impl Device {
    /// The client that does not say who it is.
    pub fn legacy() -> (r: Self)
        ensures
            r@.id.len() == 0,
            r@.name.len() == 0,
    {
        Device { id: String::new(), name: String::new() }
    }

    /// Whether the device said who it is.
    pub fn known(&self) -> (r: bool)
        ensures
            r == (self@.id.len() > 0),
    {
        !self.id.as_str().is_empty()
    }

    /// The device that the two headers name.
    pub fn from_headers(id: Option<&str>, name: Option<&str>) -> (r: Self)
        ensures
            r@ == device_of(id, name, None),
    {
        Device::from_parts(id, name, None)
    }

    /// The device that the headers name, or the query where they do not.
    pub fn from_parts(id: Option<&str>, name: Option<&str>, query: Option<&str>) -> (r: Self)
        ensures
            r@ == device_of(id, name, query),
    {
        let q = given(query);
        let head = clean_id(given(id).as_str());
        let id = if head.as_str().is_empty() {
            clean_id(query_value(q.as_str(), DEVICE_QUERY).as_str())
        } else {
            head
        };
        let head = clean_name(given(name).as_str());
        let name = if head.as_str().is_empty() {
            clean_name(query_value(q.as_str(), DEVICE_NAME_QUERY).as_str())
        } else {
            head
        };
        Device { id, name }
    }
}

// ------------------------------------------------------------------- the roster

/// One device that is here, for as long as its event stream is open. The times
/// are of a clock that never goes back.
#[derive(Debug, Clone)]
pub struct Presence {
    pub name: String,
    pub since: u64,
    pub last_seen: u64,
    /// The book the device last said it was on, by file name.
    pub book: Option<String>,
}

/// What a [`Presence`] holds.
pub struct PresenceView {
    pub name: Seq<char>,
    pub since: u64,
    pub last_seen: u64,
    pub book: Option<Seq<char>>,
}

impl View for Presence {
    type V = PresenceView;

    open spec fn view(&self) -> PresenceView {
        PresenceView {
            name: self.name@,
            since: self.since,
            last_seen: self.last_seen,
            book: opt_text(self.book),
        }
    }
}

/// A device on the roster, by its id.
pub type Here = (Seq<char>, PresenceView);

impl Row for (String, Presence) {
    fn copied(&self) -> (r: Self) {
        let p = &self.1;
        let book = match &p.book {
            Some(b) => Some(b.clone()),
            None => None,
        };
        let q = Presence { name: p.name.clone(), since: p.since, last_seen: p.last_seen, book };
        assert(q@ == p@);
        (self.0.clone(), q)
    }
}

/// Everyone who is here. This is never written down: it holds for as long as a
/// connection does.
pub struct Roster {
    pub devices: Vec<(String, Presence)>,
}

impl View for Roster {
    type V = Seq<Here>;

    open spec fn view(&self) -> Seq<Here> {
        views(self.devices@)
    }
}

/// The device whose id is `id`.
pub open spec fn with_id(id: Seq<char>) -> spec_fn(Here) -> bool {
    |h: Here| h.0 == id
}

/// Whether a device is on the roster.
pub open spec fn is_here(s: Seq<Here>, id: Seq<char>) -> bool {
    exists|i: int| 0 <= i < s.len() && (#[trigger] s[i]).0 == id
}

/// Every device on a roster says who it is, and is on it once.
pub open spec fn roster_wf(s: Seq<Here>) -> bool {
    &&& forall|i: int| 0 <= i < s.len() ==> (#[trigger] s[i]).0.len() > 0
    &&& forall|i: int, j: int|
        0 <= i < j < s.len() ==> (#[trigger] s[i]).0 != (#[trigger] s[j]).0
}

/// What is known of a device that did something at `now`, `was` being what was
/// known of it before.
pub open spec fn noted(
    was: Option<Here>,
    dev: DeviceView,
    book: Option<Seq<char>>,
    now: u64,
) -> PresenceView {
    match was {
        Some(h) => PresenceView {
            name: or_else(dev.name, h.1.name),
            since: h.1.since,
            last_seen: now,
            book: if book is Some {
                book
            } else {
                h.1.book
            },
        },
        None => PresenceView { name: dev.name, since: now, last_seen: now, book },
    }
}

/// A roster after a device did something.
pub open spec fn touched(
    s: Seq<Here>,
    dev: DeviceView,
    book: Option<Seq<char>>,
    now: u64,
) -> Seq<Here> {
    if dev.id.len() == 0 {
        s
    } else {
        put_where(
            s,
            with_id(dev.id),
            (dev.id, noted(row_where(s, with_id(dev.id)), dev, book, now)),
        )
    }
}

/// The devices heard from within `window` before `now`.
pub open spec fn heard_within(window: u64, now: u64) -> spec_fn(Here) -> bool {
    |h: Here| now - h.1.last_seen <= window
}

/// The order from the device heard from last on.
pub open spec fn later_first() -> spec_fn(Here, Here) -> bool {
    |a: Here, b: Here| b.1.last_seen <= a.1.last_seen
}

impl Roster {
    /// Nobody is here.
    pub fn new() -> (r: Self)
        ensures
            r@.len() == 0,
            roster_wf(r@),
    {
        Roster { devices: Vec::new() }
    }

    fn find(&self, id: &str) -> (r: Option<usize>)
        ensures
            match r {
                Some(i) => first_where(self@, with_id(id@), 0) == Some(i as int) && i
                    < self.devices@.len(),
                None => first_where(self@, with_id(id@), 0) is None,
            },
    {
        let f = |h: &(String, Presence)| -> (b: bool)
            ensures
                b == (h@.0 == id@),
            { same_text(h.0.as_str(), id) };
        find_where(&self.devices, f, Ghost(with_id(id@)))
    }

    /// Note that a device did something. One that does not say who it is could
    /// never be taken off again, and is not put on.
    pub fn touch(&mut self, dev: &Device, book: Option<String>, now: u64)
        ensures
            final(self)@ == touched(old(self)@, dev@, opt_text(book), now),
            roster_wf(old(self)@) ==> roster_wf(final(self)@),
    {
        proof {
            law_a_roster_stays_one(self@, dev@, opt_text(book), now);
        }
        if !dev.known() {
            return;
        }
        let at = self.find(dev.id.as_str());
        let row = match at {
            Some(i) => {
                let h = &self.devices[i];
                assert(self@[i as int] == h@);
                let name = if dev.name.as_str().is_empty() {
                    h.1.name.clone()
                } else {
                    dev.name.clone()
                };
                let kept = match book {
                    Some(b) => Some(b),
                    None => match &h.1.book {
                        Some(b) => Some(b.clone()),
                        None => None,
                    },
                };
                Presence { name, since: h.1.since, last_seen: now, book: kept }
            },
            None => Presence { name: dev.name.clone(), since: now, last_seen: now, book },
        };
        assert(row@ == noted(
            row_where(self@, with_id(dev@.id)),
            dev@,
            opt_text(book),
            now,
        ));
        put_row(&mut self.devices, at, (dev.id.clone(), row));
    }

    /// Take a device off the roster.
    pub fn drop_device(&mut self, id: &str)
        ensures
            final(self)@ == drop_where(old(self)@, with_id(id@)),
    {
        let f = |h: &(String, Presence)| -> (b: bool)
            ensures
                b == (h@.0 == id@),
            { same_text(h.0.as_str(), id) };
        let _gone: usize = remove_where(&mut self.devices, f, Ghost(with_id(id@)));
    }

    /// Everyone heard from within `window`, the last heard from first. A device
    /// that has been silent for longer counts as gone, whatever its connection.
    pub fn active(&self, window: u64, now: u64) -> (r: Vec<(String, Presence)>)
        ensures
            views(r@) == sorted(self@.filter(heard_within(window, now)), later_first()),
    {
        let f = |h: &(String, Presence)| -> (b: bool)
            ensures
                b == (now - h@.1.last_seen <= window),
            { h.1.last_seen >= now || now - h.1.last_seen <= window };
        let near = select_where(&self.devices, f, Ghost(heard_within(window, now)));
        let g = |a: &(String, Presence), b: &(String, Presence)| -> (c: bool)
            ensures
                c == (b@.1.last_seen <= a@.1.last_seen),
            { b.1.last_seen <= a.1.last_seen };
        sort_rows(near, g, Ghost(later_first()))
    }

    /// How many devices are here.
    pub fn len(&self) -> (r: usize)
        ensures
            r == self@.len(),
    {
        self.devices.len()
    }

    /// Whether nobody is here.
    pub fn is_empty(&self) -> (r: bool)
        ensures
            r == (self@.len() == 0),
    {
        self.devices.len() == 0
    }
}

/// A device that is on a roster for the life of its event stream.
pub struct Connected {
    pub id: String,
}

impl Connected {
    /// Put a device on the roster, if it says who it is.
    pub fn new(roster: &mut Roster, dev: &Device, book: Option<String>, now: u64) -> (r: Option<Self>)
        ensures
            final(roster)@ == touched(old(roster)@, dev@, opt_text(book), now),
            roster_wf(old(roster)@) ==> roster_wf(final(roster)@),
            match r {
                Some(c) => dev@.id.len() > 0 && c.id@ == dev@.id,
                None => dev@.id.len() == 0,
            },
    {
        roster.touch(dev, book, now);
        if !dev.known() {
            return None;
        }
        Some(Connected { id: dev.id.clone() })
    }

    /// The stream has ended, however it did.
    pub fn leave(self, roster: &mut Roster)
        ensures
            final(roster)@ == drop_where(old(roster)@, with_id(self.id@)),
    {
        roster.drop_device(self.id.as_str());
    }
}

/// Noting a device keeps every entry named and single.
pub proof fn law_a_roster_stays_one(
    s: Seq<Here>,
    dev: DeviceView,
    book: Option<Seq<char>>,
    now: u64,
)
    ensures
        roster_wf(s) ==> roster_wf(touched(s, dev, book, now)),
{
    lemma_first_where(s, with_id(dev.id), 0);
    let t = touched(s, dev, book, now);
    if roster_wf(s) && dev.id.len() > 0 {
        match first_where(s, with_id(dev.id), 0) {
            Some(k) => {
                assert forall|i: int, j: int| 0 <= i < j < t.len() implies (#[trigger] t[i]).0 != (
                #[trigger] t[j]).0 by {
                    assert(s[i].0 != s[j].0);
                }
            },
            None => {
                assert forall|i: int, j: int| 0 <= i < j < t.len() implies (#[trigger] t[i]).0 != (
                #[trigger] t[j]).0 by {
                    if j < s.len() {
                        assert(s[i].0 != s[j].0);
                    } else {
                        assert(!with_id(dev.id)(s[i]));
                    }
                }
            },
        }
    }
}

/// A stream puts its device on the roster, and its end takes it off and nobody
/// else. A device without an id never is on it.
pub proof fn law_a_stream_holds_its_device(
    s: Seq<Here>,
    dev: DeviceView,
    book: Option<Seq<char>>,
    now: u64,
    other: Seq<char>,
)
    requires
        roster_wf(s),
    ensures
        is_here(touched(s, dev, book, now), dev.id) == (dev.id.len() > 0),
        !is_here(drop_where(touched(s, dev, book, now), with_id(dev.id)), dev.id),
        other != dev.id ==> is_here(
            drop_where(touched(s, dev, book, now), with_id(dev.id)),
            other,
        ) == is_here(s, other),
{
    let p = with_id(dev.id);
    let keep = |h: Here| !p(h);
    let t = touched(s, dev, book, now);
    let u = drop_where(t, p);
    lemma_first_where(s, p, 0);
    law_a_roster_stays_one(s, dev, book, now);
    if dev.id.len() > 0 {
        match first_where(s, p, 0) {
            Some(k) => {
                assert(t[k].0 == dev.id);
            },
            None => {
                assert(t[s.len() as int].0 == dev.id);
            },
        }
        assert(is_here(t, dev.id));
    }
    if is_here(u, dev.id) {
        let i = choose|i: int| 0 <= i < u.len() && (#[trigger] u[i]).0 == dev.id;
        t.lemma_filter_pred(keep, i);
        assert(keep(u[i]));
    }
    if other != dev.id {
        if is_here(u, other) {
            let i = choose|i: int| 0 <= i < u.len() && (#[trigger] u[i]).0 == other;
            t.lemma_filter_contains_rev(keep, u[i]);
            let j = choose|j: int| 0 <= j < t.len() && t[j] == u[i];
            assert(s[j].0 == other);
        }
        if is_here(s, other) {
            let i = choose|i: int| 0 <= i < s.len() && (#[trigger] s[i]).0 == other;
            assert(t[i].0 == other);
            assert(keep(t[i]));
            t.lemma_filter_contains(keep, i);
            let j = choose|j: int| 0 <= j < u.len() && u[j] == t[i];
            assert(u[j].0 == other);
        }
    }
}

/// A device that does something without naming a book stays on the one it was on.
pub proof fn law_a_book_is_kept(
    s: Seq<Here>,
    dev: DeviceView,
    book: Seq<char>,
    then: u64,
    now: u64,
)
    requires
        dev.id.len() > 0,
    ensures
        ({
            let t = touched(touched(s, dev, Some(book), then), dev, None, now);
            match row_where(t, with_id(dev.id)) {
                Some(h) => h.1.book == Some(book) && h.1.last_seen == now,
                None => false,
            }
        }),
{
    let p = with_id(dev.id);
    let t = touched(s, dev, Some(book), then);
    let u = touched(t, dev, None, now);
    lemma_first_where(s, p, 0);
    lemma_first_where(t, p, 0);
    lemma_first_where(u, p, 0);
    match first_where(s, p, 0) {
        Some(k) => {
            assert(p(t[k]));
        },
        None => {
            assert(p(t[s.len() as int]));
        },
    }
    let a = first_where(t, p, 0).unwrap();
    match first_where(s, p, 0) {
        Some(k) => {
            if a < k {
                assert(!p(s[a]));
            }
            assert(a == k);
        },
        None => {
            if a < s.len() {
                assert(!p(s[a]));
            }
            assert(a == s.len());
        },
    }
    assert(p(u[a]));
    let b = first_where(u, p, 0).unwrap();
    if b < a {
        assert(!p(t[b]));
    }
    assert(b == a);
}

} // verus!
