//! The memo queue: one note per memo, whatever happens to anything else.
//!
//! What is on record of a memo says what is owed. A memo that is filed is answered
//! with the note it became; one that is being worked on is waited for; and a
//! failure is not recorded, so that the memo stays owed.

use vstd::prelude::*;
use crate::api::device::in_id;
use crate::chars::{cat, chars_of, has_text, opt_text, same_text, text_of, texts, trim_chars, trim_of};
use crate::order::sorted;
use crate::paths::{extension, file_name, join_path, joined, name_of, split_name};
use crate::rows::{sort_rows, views};

verus! {

/// How often a start takes up a memo before it leaves it to the next request.
pub const MAX_RESUMES: u32 = 5;

/// The longest id of a client's that is used.
pub const ID_MAX: usize = 64;

/// The note that a memo became.
#[derive(Debug, Clone, PartialEq, Eq)]
pub struct Filed {
    pub file: String,
    pub text: String,
    pub language: String,
}

/// What a [`Filed`] says.
#[verifier::ext_equal]
pub struct FiledView {
    pub file: Seq<char>,
    pub text: Seq<char>,
    pub language: Seq<char>,
}

impl View for Filed {
    type V = FiledView;

    open spec fn view(&self) -> FiledView {
        FiledView { file: self.file@, text: self.text@, language: self.language@ }
    }
}

impl Filed {
    /// The same note.
    pub fn copied(&self) -> (r: Self)
        ensures
            r@ == self@,
    {
        Filed {
            file: self.file.clone(),
            text: self.text.clone(),
            language: self.language.clone(),
        }
    }
}

/// Everything that a note needs to say, but for what was recorded.
#[derive(Debug, Clone, PartialEq, Eq)]
pub struct Pending {
    /// When the memo arrived, in milliseconds since the epoch.
    pub stamp_ms: i64,
    pub prompt: String,
    pub title: String,
    pub name: String,
    pub ctitle: String,
    pub ctx: String,
    pub ci: usize,
    pub i: usize,
    pub n: usize,
}

/// What a [`Pending`] says.
#[verifier::ext_equal]
pub struct PendingView {
    pub stamp_ms: i64,
    pub prompt: Seq<char>,
    pub title: Seq<char>,
    pub name: Seq<char>,
    pub ctitle: Seq<char>,
    pub ctx: Seq<char>,
    pub ci: usize,
    pub i: usize,
    pub n: usize,
}

impl View for Pending {
    type V = PendingView;

    open spec fn view(&self) -> PendingView {
        PendingView {
            stamp_ms: self.stamp_ms,
            prompt: self.prompt@,
            title: self.title@,
            name: self.name@,
            ctitle: self.ctitle@,
            ctx: self.ctx@,
            ci: self.ci,
            i: self.i,
            n: self.n,
        }
    }
}

impl Pending {
    /// The same again.
    pub fn copied(&self) -> (r: Self)
        ensures
            r@ == self@,
    {
        Pending {
            stamp_ms: self.stamp_ms,
            prompt: self.prompt.clone(),
            title: self.title.clone(),
            name: self.name.clone(),
            ctitle: self.ctitle.clone(),
            ctx: self.ctx.clone(),
            ci: self.ci,
            i: self.i,
            n: self.n,
        }
    }
}

/// Why a memo was not filed, for everyone who waits for it.
#[derive(Debug, Clone, PartialEq, Eq)]
pub struct Failed {
    pub status: u16,
    pub message: String,
}

impl Failed {
    /// A failure to be answered with `status`.
    pub fn new(status: u16, message: &str) -> (r: Self)
        ensures
            r.status == status,
            r.message@ == message@,
    {
        Failed { status, message: message.to_owned() }
    }
}

/// What became of a memo.
pub type Outcome = Result<Filed, Failed>;

/// What whoever waits for a memo is told: what became of it, or that the one who was
/// on it ended without saying.
pub fn told(out: Option<Outcome>) -> (r: Outcome)
    ensures
        match out {
            Some(o) => r == o,
            None => r matches Err(f) && f.status == 500 && f.message@
                == "the note task ended without a result"@,
        },
{
    match out {
        Some(o) => o,
        None => Err(Failed::new(500, "the note task ended without a result")),
    }
}

// ------------------------------------------------------------------- its identity

/// A character that an id of a client's may hold.
pub open spec fn in_file_name(c: char) -> bool {
    in_id(c) || c == '.'
}

/// Whether an id can be the name of a file.
pub open spec fn safe_id(s: Seq<char>) -> bool {
    &&& 0 < s.len() <= ID_MAX
    &&& s != "."@
    &&& s != ".."@
    &&& forall|i: int| 0 <= i < s.len() ==> in_file_name(#[trigger] s[i])
}

/// Whether an id can be the name of a file.
pub fn is_safe_id(s: &str) -> (r: bool)
    ensures
        r == safe_id(s@),
{
    let v = chars_of(s);
    if v.len() == 0 || v.len() > ID_MAX || same_text(s, ".") || same_text(s, "..") {
        return false;
    }
    let mut i: usize = 0;
    while i < v.len()
        invariant
            v@ == s@,
            i <= v@.len(),
            forall|k: int| 0 <= k < i ==> in_file_name(#[trigger] s@[k]),
        decreases v@.len() - i,
    {
        let c = v[i];
        if !crate::api::device::is_in_id(c) && c != '.' {
            assert(!in_file_name(s@[i as int]));
            return false;
        }
        i += 1;
    }
    true
}

/// The id that a client's stands for, where it can be the name of a file.
pub open spec fn client_id_of(supplied: Seq<char>) -> Option<Seq<char>> {
    if safe_id(trim_of(supplied)) {
        Some("c-"@ + trim_of(supplied))
    } else {
        None
    }
}

/// The id that a client's stands for. One that cannot be the name of a file is
/// not mended; the memo is then known by what was recorded.
pub fn client_id(supplied: &str) -> (r: Option<String>)
    ensures
        opt_text(r) == client_id_of(supplied@),
{
    let s = text_of(&trim_chars(&chars_of(supplied)));
    if is_safe_id(s.as_str()) {
        Some(cat("c-", s.as_str()))
    } else {
        None
    }
}

/// A digit of a number to the base 16.
pub open spec fn hex_char(d: nat) -> char {
    if d < 10 {
        (0x30 + d) as char
    } else {
        (0x61 + d - 10) as char
    }
}

/// A number to the base 16.
pub open spec fn hex_of(n: nat) -> Seq<char>
    decreases n,
{
    if n < 16 {
        seq![hex_char(n)]
    } else {
        hex_of(n / 16).push(hex_char(n % 16))
    }
}

fn hex_digit(d: u128) -> (r: char)
    requires
        d < 16,
    ensures
        r == hex_char(d as nat),
{
    if d < 10 {
        (0x30u8 + d as u8) as char
    } else {
        (0x61u8 + (d - 10) as u8) as char
    }
}

fn hex_chars(n: u128) -> (r: Vec<char>)
    ensures
        r@ == hex_of(n as nat),
    decreases n,
{
    if n < 16 {
        let v = vec![hex_digit(n)];
        assert(v@ =~= hex_of(n as nat));
        v
    } else {
        let mut v = hex_chars(n / 16);
        v.push(hex_digit(n % 16));
        v
    }
}

/// The 128-bit FNV-1a hash of the first `n` of `b`.
pub open spec fn fnv128_upto(b: Seq<u8>, n: nat) -> u128
    decreases n,
{
    if n == 0 || n > b.len() {
        0x6c62_272e_07bb_0142_62b8_2175_6295_c58d
    } else {
        ((((fnv128_upto(b, (n - 1) as nat) ^ (b[n - 1] as u128)) as nat)
            * 0x0000_0000_0100_0000_0000_0000_0000_013b)
            % (u128::MAX as nat + 1)) as u128
    }
}

/// What a recording is known by: its hash to 32 digits, and its length.
pub open spec fn hash_of(b: Seq<u8>) -> Seq<char> {
    crate::chars::padded(hex_of(fnv128_upto(b, b.len()) as nat), 32) + "-"@ + hex_of(b.len())
}

fn padded_hex(n: u128, width: usize) -> (r: Vec<char>)
    ensures
        r@ == crate::chars::padded(hex_of(n as nat), width as nat),
{
    let d = hex_chars(n);
    let mut v: Vec<char> = Vec::new();
    if d.len() < width {
        let zeros: usize = width - d.len();
        let mut i: usize = 0;
        while i < zeros
            invariant
                i <= zeros,
                v@ == Seq::new(i as nat, |k: int| '0'),
            decreases zeros - i,
        {
            v.push('0');
            i += 1;
            assert(v@ =~= Seq::new(i as nat, |k: int| '0'));
        }
    }
    crate::chars::append(&mut v, &d);
    assert(v@ =~= crate::chars::padded(hex_of(n as nat), width as nat));
    v
}

/// What a recording is known by.
pub fn hash128(bytes: &[u8]) -> (r: String)
    ensures
        r@ == hash_of(bytes@),
{
    let mut h: u128 = 0x6c62_272e_07bb_0142_62b8_2175_6295_c58d;
    let mut i: usize = 0;
    while i < bytes.len()
        invariant
            i <= bytes@.len(),
            h == fnv128_upto(bytes@, i as nat),
        decreases bytes@.len() - i,
    {
        h = h ^ (bytes[i] as u128);
        h = h.wrapping_mul(0x0000_0000_0100_0000_0000_0000_0000_013b);
        i += 1;
    }
    let hash = text_of(&padded_hex(h, 32));
    let len = text_of(&hex_chars(bytes.len() as u128));
    cat(cat(hash.as_str(), "-").as_str(), len.as_str())
}

/// What a memo is known by: the client's id, or what was recorded.
pub open spec fn memo_id_of(supplied: Option<Seq<char>>, audio: Seq<u8>) -> Seq<char> {
    match supplied {
        Some(s) if safe_id(trim_of(s)) => "c-"@ + trim_of(s),
        _ => "h-"@ + hash_of(audio),
    }
}

/// What a memo is known by: the client's id where it can be the name of a file,
/// and what was recorded where not.
pub fn memo_id(supplied: Option<&str>, audio: &[u8]) -> (r: String)
    ensures
        r@ == memo_id_of(
            match supplied {
                Some(s) => Some(s@),
                None => None,
            },
            audio@,
        ),
{
    if let Some(s) = supplied {
        if let Some(id) = client_id(s) {
            return id;
        }
    }
    cat("h-", hash128(audio).as_str())
}

proof fn lemma_hex_safe(n: nat)
    ensures
        hex_of(n).len() > 0,
        forall|i: int| 0 <= i < hex_of(n).len() ==> in_file_name(#[trigger] hex_of(n)[i]),
    decreases n,
{
    if n >= 16 {
        lemma_hex_safe(n / 16);
        lemma_hex_char((n % 16) as nat);
        let d = hex_of(n / 16);
        assert forall|i: int| 0 <= i < hex_of(n).len() implies in_file_name(
            #[trigger] hex_of(n)[i],
        ) by {
            if i < d.len() {
                assert(hex_of(n)[i] == d[i]);
            }
        }
    } else {
        lemma_hex_char(n);
    }
}

proof fn lemma_hex_char(d: nat)
    requires
        d < 16,
    ensures
        in_file_name(hex_char(d)),
{
    if d < 10 {
        assert('0' <= hex_char(d) <= '9');
    } else {
        assert('a' <= hex_char(d) <= 'z');
    }
}

/// What a memo is known by is the name of a file and nothing else: it holds no
/// separator, and it is neither empty nor a directory of its own.
pub proof fn law_a_memo_id_is_a_file_name(supplied: Option<Seq<char>>, audio: Seq<u8>)
    ensures
        memo_id_of(supplied, audio).len() > 2,
        forall|i: int|
            0 <= i < memo_id_of(supplied, audio).len() ==> in_file_name(
                #[trigger] memo_id_of(supplied, audio)[i],
            ),
{
    reveal_strlit("c-");
    reveal_strlit("h-");
    reveal_strlit("-");
    let id = memo_id_of(supplied, audio);
    let h = hex_of(fnv128_upto(audio, audio.len()) as nat);
    let p = crate::chars::padded(h, 32);
    lemma_hex_safe(fnv128_upto(audio, audio.len()) as nat);
    lemma_hex_safe(audio.len());
    assert forall|i: int| 0 <= i < p.len() implies in_file_name(#[trigger] p[i]) by {
        if i >= p.len() - h.len() {
            assert(p[i] == h[i - (p.len() - h.len())]);
        } else {
            assert(p[i] == '0');
        }
    }
    let hh = hash_of(audio);
    assert forall|i: int| 0 <= i < hh.len() implies in_file_name(#[trigger] hh[i]) by {
        if i < p.len() {
            assert(hh[i] == p[i]);
        } else if i == p.len() {
            assert(hh[i] == '-');
        } else {
            assert(hh[i] == hex_of(audio.len())[i - p.len() - 1]);
        }
    }
    assert forall|i: int| 0 <= i < id.len() implies in_file_name(#[trigger] id[i]) by {
        if i >= 2 {
            match supplied {
                Some(s) if safe_id(trim_of(s)) => {
                    assert(id[i] == trim_of(s)[i - 2]);
                },
                _ => {
                    assert(id[i] == hh[i - 2]);
                },
            }
        }
    }
}

/// A client's id is the same memo whenever it is sent again, whatever was
/// recorded; and without one the same recording is the same memo.
pub proof fn law_a_retry_is_the_same_memo(s: Seq<char>, a: Seq<u8>, b: Seq<u8>)
    ensures
        safe_id(trim_of(s)) ==> memo_id_of(Some(s), a) == memo_id_of(Some(s), b),
        !safe_id(trim_of(s)) ==> memo_id_of(Some(s), a) == memo_id_of(None, a),
{
}

// -------------------------------------------------------------------- its records

/// Where records of memos are kept.
pub open spec fn dir_of(work: Seq<char>) -> Seq<char> {
    joined(work, "notes-idem"@)
}

/// Where records of memos are kept.
pub fn dir(work: &str) -> (r: String)
    ensures
        r@ == dir_of(work@),
{
    join_path(work, "notes-idem")
}

/// Where the record of one memo is kept.
pub open spec fn record_path_of(work: Seq<char>, id: Seq<char>) -> Seq<char> {
    joined(dir_of(work), id + ".json"@)
}

/// Where the record of one memo is kept.
pub fn record_path(work: &str, id: &str) -> (r: String)
    ensures
        r@ == record_path_of(work@, id@),
{
    join_path(dir(work).as_str(), cat(id, ".json").as_str())
}

/// Where recordings are kept.
pub fn audio_dir(work: &str) -> (r: String)
    ensures
        r@ == joined(work@, "notes-audio"@),
{
    join_path(work, "notes-audio")
}

/// The name that a file has while it is being written.
pub fn part_name(name: Option<&str>) -> (r: String)
    ensures
        r@ == match name {
            Some(n) => n@,
            None => "tmp"@,
        } + ".part"@,
{
    match name {
        Some(n) => cat(n, ".part"),
        None => cat("tmp", ".part"),
    }
}

/// What is on record of a memo.
#[derive(Debug, Clone)]
pub struct Record {
    pub id: String,
    /// The file name of the recording, once all of it is there.
    pub audio: Option<String>,
    /// What is owed.
    pub pending: Option<Pending>,
    /// How often a start has taken it up.
    pub resumes: u32,
    /// The note, once it is written. Only this ends a memo.
    pub filed: Option<Filed>,
}

/// What a [`Record`] says.
#[verifier::ext_equal]
pub struct RecordView {
    pub id: Seq<char>,
    pub audio: Option<Seq<char>>,
    pub pending: Option<PendingView>,
    pub resumes: u32,
    pub filed: Option<FiledView>,
}

/// What an optional work order says.
pub open spec fn opt_pending(o: Option<Pending>) -> Option<PendingView> {
    match o {
        Some(p) => Some(p@),
        None => None,
    }
}

/// What an optional note says.
pub open spec fn opt_filed(o: Option<Filed>) -> Option<FiledView> {
    match o {
        Some(f) => Some(f@),
        None => None,
    }
}

impl View for Record {
    type V = RecordView;

    open spec fn view(&self) -> RecordView {
        RecordView {
            id: self.id@,
            audio: opt_text(self.audio),
            pending: opt_pending(self.pending),
            resumes: self.resumes,
            filed: opt_filed(self.filed),
        }
    }
}

/// The record of a memo that nothing is known of.
pub open spec fn fresh(id: Seq<char>) -> RecordView {
    RecordView { id, audio: None, pending: None, resumes: 0, filed: None }
}

/// What an optional record says.
pub open spec fn opt_record(o: Option<Record>) -> Option<RecordView> {
    match o {
        Some(r) => Some(r@),
        None => None,
    }
}

/// A record after the memo it is of came to something: a note is recorded, and a
/// failure is not.
pub open spec fn finished(r: RecordView, out: Result<FiledView, Failed>) -> RecordView {
    match out {
        Ok(f) => RecordView { filed: Some(f), pending: None, ..r },
        Err(_) => r,
    }
}

/// What an outcome says.
pub open spec fn outcome_of(out: Outcome) -> Result<FiledView, Failed> {
    match out {
        Ok(f) => Ok(f@),
        Err(e) => Err(e),
    }
}

impl Record {
    /// Write down what the note must say, before the recording is there.
    pub fn accept(&mut self, audio: &str, pending: Pending)
        ensures
            final(self)@ == (RecordView {
                audio: name_of(audio@),
                pending: Some(pending@),
                ..old(self)@
            }),
    {
        self.audio = file_name(audio);
        self.pending = Some(pending);
        assert(self@ =~= (RecordView {
            audio: name_of(audio@),
            pending: Some(pending@),
            ..old(self)@
        }));
    }

    /// Count one more start that took the memo up.
    pub fn resuming(&mut self) -> (r: u32)
        ensures
            r == if old(self)@.resumes == u32::MAX {
                u32::MAX as int
            } else {
                old(self)@.resumes + 1
            },
            final(self)@ == (RecordView { resumes: r, ..old(self)@ }),
    {
        if self.resumes < u32::MAX {
            self.resumes = self.resumes + 1;
        }
        assert(self@ =~= (RecordView { resumes: self.resumes, ..old(self)@ }));
        self.resumes
    }

    /// The memo came to something; say whether the record is to be written.
    pub fn finish(&mut self, out: &Outcome) -> (r: bool)
        ensures
            final(self)@ == finished(old(self)@, outcome_of(*out)),
            r == out is Ok,
    {
        match out {
            Ok(f) => {
                self.filed = Some(f.copied());
                self.pending = None;
                assert(self@ =~= finished(old(self)@, outcome_of(*out)));
                true
            },
            Err(_) => false,
        }
    }

    /// Where a recording that an earlier attempt saved would be.
    pub fn audio_path(&self, work: &str) -> (r: Option<String>)
        ensures
            opt_text(r) == match self@.audio {
                Some(a) => Some(joined(joined(work@, "notes-audio"@), a)),
                None => None,
            },
    {
        match &self.audio {
            Some(a) => Some(join_path(audio_dir(work).as_str(), a.as_str())),
            None => None,
        }
    }

    /// The recording that an earlier attempt saved, where it is among those that are
    /// still there. Using it again keeps a memo that is sent twice from being saved
    /// twice.
    pub fn audio(&self, work: &str, there: &Vec<String>) -> (r: Option<String>)
        ensures
            opt_text(r) == match self@.audio {
                Some(a) => if texts(there@).contains(a) {
                    Some(joined(joined(work@, "notes-audio"@), a))
                } else {
                    None
                },
                None => None,
            },
    {
        match &self.audio {
            Some(a) => if has_text(there, a.as_str()) {
                self.audio_path(work)
            } else {
                None
            },
            None => None,
        }
    }
}

/// The note of a memo, where it is filed.
pub fn filed(record: Option<&Record>) -> (r: Option<Filed>)
    ensures
        opt_filed(r) == match record {
            Some(rec) => rec@.filed,
            None => None,
        },
{
    match record {
        Some(rec) => match &rec.filed {
            Some(f) => Some(f.copied()),
            None => None,
        },
        None => None,
    }
}

// --------------------------------------------------------------------- the claims

/// What may be done about a memo.
#[derive(Debug)]
pub enum Claim {
    /// It is filed: answer with its note.
    Done(Filed),
    /// Somebody is on it: wait for them.
    Attach,
    /// Nobody is: it is the asker's, with what is on record.
    Mine(Record),
}

/// The memos that somebody is on, by the paths of their records.
#[derive(Debug)]
pub struct Jobs {
    pub running: Vec<String>,
}

/// Whether somebody is on a memo.
pub open spec fn runs(running: Seq<Seq<char>>, key: Seq<char>) -> bool {
    running.contains(key)
}

/// Every path but `key`.
pub open spec fn not_path(key: Seq<char>) -> spec_fn(Seq<char>) -> bool {
    |k: Seq<char>| k != key
}

impl View for Jobs {
    type V = Seq<Seq<char>>;

    open spec fn view(&self) -> Seq<Seq<char>> {
        views(self.running@)
    }
}

impl Jobs {
    /// Nobody is on any memo.
    pub fn new() -> (r: Self)
        ensures
            r@.len() == 0,
    {
        Jobs { running: Vec::new() }
    }

    /// Whether somebody is on a memo.
    pub fn has(&self, key: &str) -> (r: bool)
        ensures
            r == runs(self@, key@),
    {
        let mut i: usize = 0;
        while i < self.running.len()
            invariant
                i <= self.running@.len(),
                forall|k: int| 0 <= k < i ==> #[trigger] self@[k] != key@,
            decreases self.running@.len() - i,
        {
            assert(self@[i as int] == self.running@[i as int]@);
            if same_text(self.running[i].as_str(), key) {
                assert(self@[i as int] == key@);
                return true;
            }
            i += 1;
        }
        false
    }

    /// Decide what is done about a memo, `record` being what is on record of it.
    /// A memo becomes the asker's only where nobody is on it and it is not filed.
    pub fn claim(&mut self, work: &str, id: &str, record: Option<Record>) -> (r: Claim)
        ensures
            ({
                let key = record_path_of(work@, id@);
                let rec = match opt_record(record) {
                    Some(rec) => rec,
                    None => fresh(id@),
                };
                match r {
                    Claim::Attach => runs(old(self)@, key) && final(self)@ == old(self)@,
                    Claim::Done(f) => !runs(old(self)@, key) && rec.filed == Some(f@)
                        && final(self)@ == old(self)@,
                    Claim::Mine(m) => {
                        &&& !runs(old(self)@, key)
                        &&& rec.filed is None
                        &&& m@ == rec
                        &&& final(self)@ == old(self)@.push(key)
                    },
                }
            }),
    {
        let key = record_path(work, id);
        if self.has(key.as_str()) {
            return Claim::Attach;
        }
        let rec = match record {
            Some(rec) => rec,
            None => Record {
                id: id.to_owned(),
                audio: None,
                pending: None,
                resumes: 0,
                filed: None,
            },
        };
        if let Some(f) = &rec.filed {
            return Claim::Done(f.copied());
        }
        let ghost before = self@;
        self.running.push(key);
        assert(self@ =~= before.push(key@));
        Claim::Mine(rec)
    }

    /// Nobody is on a memo any more, however that ended.
    pub fn release(&mut self, key: &str)
        ensures
            final(self)@ == old(self)@.filter(not_path(key@)),
    {
        let ghost p = not_path(key@);
        let ghost all = self@;
        let mut r: Vec<String> = Vec::new();
        let mut i: usize = 0;
        proof {
            reveal(Seq::filter);
            assert(views(r@) =~= all.take(0).filter(p));
        }
        while i < self.running.len()
            invariant
                i <= self.running@.len(),
                p == not_path(key@),
                all == self@,
                *self == *old(self),
                views(r@) == all.take(i as int).filter(p),
            decreases self.running@.len() - i,
        {
            let x = &self.running[i];
            proof {
                assert(all[i as int] == x@);
                all.take(i as int).lemma_filter_push(x@, p);
                assert(all.take(i + 1) =~= all.take(i as int).push(x@));
            }
            if !same_text(x.as_str(), key) {
                let ghost before = views(r@);
                r.push(x.clone());
                assert(views(r@) =~= before.push(x@));
            }
            i += 1;
        }
        assert(all.take(i as int) =~= all);
        self.running = r;
    }
}

/// A memo is never worked on twice at once: while one is on it the next attaches.
/// When it is let go of it can be claimed again, and every other memo is as it
/// was.
pub proof fn law_one_job_per_memo(running: Seq<Seq<char>>, key: Seq<char>, other: Seq<char>)
    requires
        !runs(running, key),
        other != key,
    ensures
        runs(running.push(key), key),
        !runs(running.push(key).filter(not_path(key)), key),
        runs(running.push(key), other) == runs(running, other),
        runs(running.push(key).filter(not_path(key)), other) == runs(running, other),
{
    let t = running.push(key);
    let p = not_path(key);
    let f = t.filter(p);
    assert(t[running.len() as int] == key);
    if runs(running, other) {
        let i = choose|i: int| 0 <= i < running.len() && running[i] == other;
        assert(t[i] == other);
        assert(p(t[i]));
        t.lemma_filter_contains(p, i);
    }
    if runs(t, other) {
        let i = choose|i: int| 0 <= i < t.len() && t[i] == other;
        assert(running[i] == other);
    }
    if f.contains(key) {
        let i = choose|i: int| 0 <= i < f.len() && f[i] == key;
        t.lemma_filter_pred(p, i);
        assert(p(f[i]));
    }
    if f.contains(other) {
        t.lemma_filter_contains_rev(p, other);
    }
}

/// A memo that is filed stays filed and is answered with its note, whatever a
/// later attempt comes to; and a memo that failed is owed exactly as before.
pub proof fn law_only_a_note_ends_a_memo(r: RecordView, f: FiledView, later: Failed)
    ensures
        finished(r, Ok(f)).filed == Some(f),
        finished(r, Ok(f)).pending is None,
        finished(finished(r, Ok(f)), Err(later)).filed == Some(f),
        finished(r, Err(later)) == r,
{
}

// ---------------------------------------------------------------- what is still owed

/// What was found of a memo.
#[derive(Debug)]
pub struct FoundRecord {
    /// The file name of the record.
    pub name: String,
    /// What it says, where it can be read.
    pub record: Option<Record>,
    /// Whether the recording it names is there.
    pub has_audio: bool,
}

/// A memo whose recording is there and whose note is not.
#[derive(Debug)]
pub struct Unfiled {
    pub id: String,
    /// Where the recording is.
    pub audio: String,
    pub pending: Pending,
}

/// What an [`Unfiled`] says.
#[verifier::ext_equal]
pub struct UnfiledView {
    pub id: Seq<char>,
    pub audio: Seq<char>,
    pub pending: PendingView,
}

impl View for Unfiled {
    type V = UnfiledView;

    open spec fn view(&self) -> UnfiledView {
        UnfiledView { id: self.id@, audio: self.audio@, pending: self.pending@ }
    }
}

/// Whether a file is a record, by its name.
pub open spec fn is_record_name(name: Seq<char>) -> bool {
    extension(name) == Some("json"@)
}

/// What is owed by what was found.
pub open spec fn owed(work: Seq<char>, f: FoundRecord) -> Option<UnfiledView> {
    match opt_record(f.record) {
        Some(rec) => match (rec.filed, rec.audio, rec.pending) {
            (None, Some(audio), Some(pending)) => if is_record_name(f.name@) && f.has_audio
                && rec.resumes < MAX_RESUMES {
                Some(
                    UnfiledView {
                        id: rec.id,
                        audio: joined(joined(work, "notes-audio"@), audio),
                        pending,
                    },
                )
            } else {
                None
            },
            _ => None,
        },
        None => None,
    }
}

/// What is owed by the first `n` of what was found.
pub open spec fn owed_upto(work: Seq<char>, found: Seq<FoundRecord>, n: int) -> Seq<UnfiledView>
    decreases n,
{
    if n <= 0 {
        Seq::empty()
    } else {
        match owed(work, found[n - 1]) {
            Some(u) => owed_upto(work, found, n - 1).push(u),
            None => owed_upto(work, found, n - 1),
        }
    }
}

/// The order from the memo that has waited longest.
pub open spec fn by_stamp() -> spec_fn(UnfiledView, UnfiledView) -> bool {
    |a: UnfiledView, b: UnfiledView| a.pending.stamp_ms <= b.pending.stamp_ms
}

fn waited_longer(a: &Unfiled, b: &Unfiled) -> (r: bool)
    ensures
        r == (a@.pending.stamp_ms <= b@.pending.stamp_ms),
{
    a.pending.stamp_ms <= b.pending.stamp_ms
}

fn owed_by(work: &str, f: &FoundRecord) -> (r: Option<Unfiled>)
    ensures
        match r {
            Some(u) => owed(work@, *f) == Some(u@),
            None => owed(work@, *f) is None,
        },
{
    let (_, x) = split_name(&chars_of(f.name.as_str()));
    let json = match x {
        Some(x) => crate::chars::same(&x, &chars_of("json")),
        None => false,
    };
    match &f.record {
        Some(rec) => {
            if rec.filed.is_some() || !json || !f.has_audio || rec.resumes >= MAX_RESUMES {
                return None;
            }
            match (rec.audio_path(work), &rec.pending) {
                (Some(audio), Some(pending)) => Some(
                    Unfiled { id: rec.id.clone(), audio, pending: pending.copied() },
                ),
                _ => None,
            }
        },
        None => None,
    }
}

/// Every memo whose recording is there and whose note is not, the one that has
/// waited longest first. One that several starts have taken up in vain is left
/// out, though nothing of it is removed.
pub fn unfiled(work: &str, found: &Vec<FoundRecord>) -> (r: Vec<Unfiled>)
    ensures
        views(r@) == sorted(owed_upto(work@, found@, found@.len() as int), by_stamp()),
{
    let mut out: Vec<Unfiled> = Vec::new();
    let mut i: usize = 0;
    assert(views(out@) =~= Seq::<UnfiledView>::empty());
    while i < found.len()
        invariant
            i <= found@.len(),
            views(out@) == owed_upto(work@, found@, i as int),
        decreases found@.len() - i,
    {
        if let Some(u) = owed_by(work, &found[i]) {
            let ghost before = views(out@);
            out.push(u);
            assert(views(out@) =~= before.push(u@));
        }
        i += 1;
    }
    sort_rows(out, waited_longer, Ghost(by_stamp()))
}

} // verus!
