//! What the server remembers: devices, positions, standing orders, holdings.
//!
//! The store is a record of intent and identity. It never decides whether a
//! chunk is rendered: that is what the disk says.

use vstd::prelude::*;
use crate::chars::{chars_of, parse_unsigned, same_text, trim_chars, trim_of, unsigned_64};
use crate::order::{sorted, text_before, text_le};
use crate::rows::{drop_where, find_where, first_where, put_row, put_where, remove_where, row_where, select_where, sort_rows, views, Row};

verus! {

/// The schema this build writes and reads.
pub const SCHEMA_VERSION: u32 = 1;

// ---------------------------------------------------------------- small helpers

/// Whether `new` lies further on than `old`: a later chapter, or a later chunk
/// of the same one. Standing still is not moving.
pub open spec fn is_further(new: (i64, i64), old: (i64, i64)) -> bool {
    new.0 > old.0 || (new.0 == old.0 && new.1 > old.1)
}

/// Whether `new` lies further on than `old`.
pub fn further(new: (i64, i64), old: (i64, i64)) -> (r: bool)
    ensures
        r == is_further(new, old),
{
    new.0 > old.0 || (new.0 == old.0 && new.1 > old.1)
}

/// Where a device's mark stands after it was asked to move to `new`: at the
/// further of the two, so it never goes back.
pub open spec fn mark_after(old: Option<(i64, i64)>, new: (i64, i64)) -> (i64, i64) {
    match old {
        Some(o) => if is_further(new, o) {
            new
        } else {
            o
        },
        None => new,
    }
}

/// `v` as a signed number, the largest there is where it does not fit.
pub open spec fn signed(v: int) -> i64 {
    if v > i64::MAX {
        i64::MAX
    } else {
        v as i64
    }
}

/// `v` as a signed number; the database has no others.
pub fn as_i64(v: u64) -> (r: i64)
    ensures
        r == signed(v as int),
{
    if v > i64::MAX as u64 {
        i64::MAX
    } else {
        v as i64
    }
}

/// And back. A negative value is no count.
pub fn as_u64(v: i64) -> (r: u64)
    ensures
        r == if v < 0 {
            0
        } else {
            v as int
        },
{
    if v < 0 {
        0
    } else {
        v as u64
    }
}

/// And back, as a count of this machine.
pub fn as_usize(v: i64) -> (r: usize)
    ensures
        v < 0 ==> r == 0,
        0 <= v <= usize::MAX ==> r == v,
{
    as_u64(v) as usize
}

/// What is written as a signed number reads back, as far as it fits.
pub proof fn law_counts_read_back(v: u64)
    requires
        v <= i64::MAX,
    ensures
        signed(v as int) == v,
        signed(v as int) >= 0,
{
}

/// The bounds of a window of chapters, both within it; nothing where its ends
/// are the wrong way round.
pub fn window_bounds(from: usize, to: usize) -> (r: Option<(i64, i64)>)
    ensures
        r == if from > to {
            None
        } else {
            Some((signed(from as int), signed(to as int)))
        },
{
    if from > to {
        return None;
    }
    Some((as_i64(from as u64), as_i64(to as u64)))
}

/// A counter read back as text, white space around it or not.
pub fn meta_u64(v: &str) -> (r: Option<u64>)
    ensures
        r == unsigned_64(trim_of(v@)),
{
    parse_unsigned(&trim_chars(&chars_of(v)))
}

/// What opening a database of some schema version comes to.
#[derive(Debug, Clone, PartialEq)]
pub enum SchemaStep {
    /// Nothing to do.
    Current,
    /// Create the tables, and then write this version.
    Create(u32),
    /// The version cannot be read.
    Corrupt,
    /// The database is newer than this build, and is left alone.
    FromTheFuture(u32),
}

/// What opening a database comes to, `version` being what it says of itself, if
/// anything. Versions are only walked forward.
pub fn schema_step(version: Option<&str>) -> (r: SchemaStep)
    ensures
        r == match version {
            None => SchemaStep::Create(SCHEMA_VERSION),
            Some(v) => match unsigned_64(trim_of(v@)) {
                None => SchemaStep::Corrupt,
                Some(n) => {
                    let have = n as u32;
                    if have > SCHEMA_VERSION {
                        SchemaStep::FromTheFuture(have)
                    } else if have < SCHEMA_VERSION {
                        SchemaStep::Create(SCHEMA_VERSION)
                    } else {
                        SchemaStep::Current
                    }
                },
            },
        },
{
    match version {
        None => SchemaStep::Create(SCHEMA_VERSION),
        Some(v) => match meta_u64(v) {
            None => SchemaStep::Corrupt,
            Some(n) => {
                let have: u32 = n as u32;
                if have > SCHEMA_VERSION {
                    SchemaStep::FromTheFuture(have)
                } else if have < SCHEMA_VERSION {
                    SchemaStep::Create(SCHEMA_VERSION)
                } else {
                    SchemaStep::Current
                }
            },
        },
    }
}

// --------------------------------------------------------------------- the rows

/// A device that has ever talked to this server. One without an id is a client that
/// does not say which it is; it is a device all the same.
#[derive(Debug, Clone, PartialEq)]
pub struct DeviceRow {
    pub id: String,
    pub name: String,
    pub first_seen: i64,
    pub last_seen: i64,
}

/// What a [`DeviceRow`] holds.
pub struct DeviceRowView {
    pub id: Seq<char>,
    pub name: Seq<char>,
    pub first_seen: i64,
    pub last_seen: i64,
}

impl View for DeviceRow {
    type V = DeviceRowView;

    open spec fn view(&self) -> DeviceRowView {
        DeviceRowView {
            id: self.id@,
            name: self.name@,
            first_seen: self.first_seen,
            last_seen: self.last_seen,
        }
    }
}

impl Row for DeviceRow {
    fn copied(&self) -> (r: Self) {
        DeviceRow {
            id: self.id.clone(),
            name: self.name.clone(),
            first_seen: self.first_seen,
            last_seen: self.last_seen,
        }
    }
}

/// Where one device is in one book.
#[derive(Debug, Clone, PartialEq)]
pub struct PositionRow {
    pub chapter: i64,
    pub chunk: i64,
    pub chapter_title: String,
    pub chunks_total: i64,
    pub chapters_total: i64,
    /// When it was written; the order between devices.
    pub updated_ms: i64,
    /// The order within one millisecond. The store sets it.
    pub seq: u64,
}

/// What a [`PositionRow`] holds.
pub struct PositionRowView {
    pub chapter: i64,
    pub chunk: i64,
    pub chapter_title: Seq<char>,
    pub chunks_total: i64,
    pub chapters_total: i64,
    pub updated_ms: i64,
    pub seq: u64,
}

impl View for PositionRow {
    type V = PositionRowView;

    open spec fn view(&self) -> PositionRowView {
        PositionRowView {
            chapter: self.chapter,
            chunk: self.chunk,
            chapter_title: self.chapter_title@,
            chunks_total: self.chunks_total,
            chapters_total: self.chapters_total,
            updated_ms: self.updated_ms,
            seq: self.seq,
        }
    }
}

impl Row for PositionRow {
    fn copied(&self) -> (r: Self) {
        PositionRow {
            chapter: self.chapter,
            chunk: self.chunk,
            chapter_title: self.chapter_title.clone(),
            chunks_total: self.chunks_total,
            chapters_total: self.chapters_total,
            updated_ms: self.updated_ms,
            seq: self.seq,
        }
    }
}

/// A position under its book and its device.
#[derive(Debug, Clone, PartialEq)]
pub struct PositionEntry {
    pub book: String,
    pub device: String,
    pub row: PositionRow,
}

/// What a [`PositionEntry`] holds.
pub struct PositionEntryView {
    pub book: Seq<char>,
    pub device: Seq<char>,
    pub row: PositionRowView,
}

impl View for PositionEntry {
    type V = PositionEntryView;

    open spec fn view(&self) -> PositionEntryView {
        PositionEntryView {
            book: self.book@,
            device: self.device@,
            row: self.row@,
        }
    }
}

impl Row for PositionEntry {
    fn copied(&self) -> (r: Self) {
        PositionEntry {
            book: self.book.clone(),
            device: self.device.clone(),
            row: self.row.copied(),
        }
    }
}

/// How far a device has ever reached in a book.
#[derive(Debug, Clone, Copy, PartialEq, Eq, Structural)]
pub struct FurthestRow {
    pub chapter: i64,
    pub chunk: i64,
    pub updated_ms: i64,
}

/// That, under its book and its device.
#[derive(Debug, Clone, PartialEq)]
pub struct FurthestEntry {
    pub book: String,
    pub device: String,
    pub row: FurthestRow,
}

/// What a [`FurthestEntry`] holds.
pub struct FurthestEntryView {
    pub book: Seq<char>,
    pub device: Seq<char>,
    pub row: FurthestRow,
}

impl View for FurthestEntry {
    type V = FurthestEntryView;

    open spec fn view(&self) -> FurthestEntryView {
        FurthestEntryView { book: self.book@, device: self.device@, row: self.row }
    }
}

/// A chapter that somebody asked for.
#[derive(Debug, Clone, PartialEq)]
pub struct IntentRow {
    /// The book's cache key.
    pub book: String,
    pub chapter: usize,
    /// Who asked.
    pub device: String,
    /// Whether it is packed once it is rendered.
    pub pack: bool,
    /// The order asked, over all books.
    pub seq: u64,
    /// How often it was picked up without a chunk of it landing.
    pub tries: u32,
    pub created_ms: i64,
}

/// What a [`IntentRow`] holds.
pub struct IntentRowView {
    pub book: Seq<char>,
    pub chapter: usize,
    pub device: Seq<char>,
    pub pack: bool,
    pub seq: u64,
    pub tries: u32,
    pub created_ms: i64,
}

impl View for IntentRow {
    type V = IntentRowView;

    open spec fn view(&self) -> IntentRowView {
        IntentRowView {
            book: self.book@,
            chapter: self.chapter,
            device: self.device@,
            pack: self.pack,
            seq: self.seq,
            tries: self.tries,
            created_ms: self.created_ms,
        }
    }
}

impl Row for IntentRow {
    fn copied(&self) -> (r: Self) {
        IntentRow {
            book: self.book.clone(),
            chapter: self.chapter,
            device: self.device.clone(),
            pack: self.pack,
            seq: self.seq,
            tries: self.tries,
            created_ms: self.created_ms,
        }
    }
}

/// A chapter that a device holds.
#[derive(Debug, Clone, PartialEq)]
pub struct InventoryRow {
    pub device: String,
    pub book: String,
    pub chapter: usize,
    /// What it weighs, where the device said.
    pub bytes: Option<u64>,
    pub stored_ms: i64,
}

/// What a [`InventoryRow`] holds.
pub struct InventoryRowView {
    pub device: Seq<char>,
    pub book: Seq<char>,
    pub chapter: usize,
    pub bytes: Option<u64>,
    pub stored_ms: i64,
}

impl View for InventoryRow {
    type V = InventoryRowView;

    open spec fn view(&self) -> InventoryRowView {
        InventoryRowView {
            device: self.device@,
            book: self.book@,
            chapter: self.chapter,
            bytes: self.bytes,
            stored_ms: self.stored_ms,
        }
    }
}

impl Row for InventoryRow {
    fn copied(&self) -> (r: Self) {
        InventoryRow {
            device: self.device.clone(),
            book: self.book.clone(),
            chapter: self.chapter,
            bytes: self.bytes,
            stored_ms: self.stored_ms,
        }
    }
}

/// What a look at the disk showed of one chapter. It is out of date as soon as
/// anything changes there, and decides nothing.
#[derive(Debug, Clone, PartialEq)]
pub struct ChapterIndexRow {
    pub chapter: usize,
    pub n: usize,
    pub rendered: usize,
    pub m4a: bool,
    pub bytes: Option<u64>,
    /// The bits of its length in seconds.
    pub duration_bits: Option<u64>,
    pub title: String,
    /// The bits of its estimated length in seconds.
    pub est_bits: Option<u64>,
    pub scanned_ms: i64,
}

/// What a [`ChapterIndexRow`] holds.
pub struct ChapterIndexRowView {
    pub chapter: usize,
    pub n: usize,
    pub rendered: usize,
    pub m4a: bool,
    pub bytes: Option<u64>,
    pub duration_bits: Option<u64>,
    pub title: Seq<char>,
    pub est_bits: Option<u64>,
    pub scanned_ms: i64,
}

impl View for ChapterIndexRow {
    type V = ChapterIndexRowView;

    open spec fn view(&self) -> ChapterIndexRowView {
        ChapterIndexRowView {
            chapter: self.chapter,
            n: self.n,
            rendered: self.rendered,
            m4a: self.m4a,
            bytes: self.bytes,
            duration_bits: self.duration_bits,
            title: self.title@,
            est_bits: self.est_bits,
            scanned_ms: self.scanned_ms,
        }
    }
}

impl Row for ChapterIndexRow {
    fn copied(&self) -> (r: Self) {
        ChapterIndexRow {
            chapter: self.chapter,
            n: self.n,
            rendered: self.rendered,
            m4a: self.m4a,
            bytes: self.bytes,
            duration_bits: self.duration_bits,
            title: self.title.clone(),
            est_bits: self.est_bits,
            scanned_ms: self.scanned_ms,
        }
    }
}

/// Such a look, under its book.
#[derive(Debug, Clone, PartialEq)]
pub struct IndexEntry {
    pub book: String,
    pub row: ChapterIndexRow,
}

/// What a [`IndexEntry`] holds.
pub struct IndexEntryView {
    pub book: Seq<char>,
    pub row: ChapterIndexRowView,
}

impl View for IndexEntry {
    type V = IndexEntryView;

    open spec fn view(&self) -> IndexEntryView {
        IndexEntryView {
            book: self.book@,
            row: self.row@,
        }
    }
}

impl Row for IndexEntry {
    fn copied(&self) -> (r: Self) {
        IndexEntry {
            book: self.book.clone(),
            row: self.row.copied(),
        }
    }
}

/// A book that this server knows.
#[derive(Debug, Clone, PartialEq)]
pub struct BookRow {
    /// The name of its cache directory.
    pub key: String,
    /// The name of its file.
    pub name: String,
    pub path: String,
    pub title: String,
    pub chapters: usize,
    /// When it was last opened, if ever.
    pub last_open_ms: Option<i64>,
    pub scanned_ms: Option<i64>,
}

/// What a [`BookRow`] holds.
pub struct BookRowView {
    pub key: Seq<char>,
    pub name: Seq<char>,
    pub path: Seq<char>,
    pub title: Seq<char>,
    pub chapters: usize,
    pub last_open_ms: Option<i64>,
    pub scanned_ms: Option<i64>,
}

impl View for BookRow {
    type V = BookRowView;

    open spec fn view(&self) -> BookRowView {
        BookRowView {
            key: self.key@,
            name: self.name@,
            path: self.path@,
            title: self.title@,
            chapters: self.chapters,
            last_open_ms: self.last_open_ms,
            scanned_ms: self.scanned_ms,
        }
    }
}

impl Row for BookRow {
    fn copied(&self) -> (r: Self) {
        BookRow {
            key: self.key.clone(),
            name: self.name.clone(),
            path: self.path.clone(),
            title: self.title.clone(),
            chapters: self.chapters,
            last_open_ms: self.last_open_ms,
            scanned_ms: self.scanned_ms,
        }
    }
}

// -------------------------------------------------------------------- the store

/// Everything that is remembered.
pub struct Store {
    /// The last sequence number given out.
    pub seq: u64,
    pub devices: Vec<DeviceRow>,
    pub positions: Vec<PositionEntry>,
    pub furthest: Vec<FurthestEntry>,
    pub intents: Vec<IntentRow>,
    pub inventory: Vec<InventoryRow>,
    pub index: Vec<IndexEntry>,
    pub books: Vec<BookRow>,
}

/// What a [`Store`] holds.
#[verifier::ext_equal]
pub struct StoreView {
    pub seq: u64,
    pub devices: Seq<DeviceRowView>,
    pub positions: Seq<PositionEntryView>,
    pub furthest: Seq<FurthestEntryView>,
    pub intents: Seq<IntentRowView>,
    pub inventory: Seq<InventoryRowView>,
    pub index: Seq<IndexEntryView>,
    pub books: Seq<BookRowView>,
}

impl View for Store {
    type V = StoreView;

    open spec fn view(&self) -> StoreView {
        StoreView {
            seq: self.seq,
            devices: views(self.devices@),
            positions: views(self.positions@),
            furthest: views(self.furthest@),
            intents: views(self.intents@),
            inventory: views(self.inventory@),
            index: views(self.index@),
            books: views(self.books@),
        }
    }
}

/// The device with this id.
pub open spec fn is_device(id: Seq<char>) -> spec_fn(DeviceRowView) -> bool {
    |d: DeviceRowView| d.id == id
}

/// The position of this device in this book.
pub open spec fn is_position(book: Seq<char>, device: Seq<char>) -> spec_fn(
    PositionEntryView,
) -> bool {
    |p: PositionEntryView| p.book == book && p.device == device
}

/// How far this device reached in this book.
pub open spec fn is_furthest(book: Seq<char>, device: Seq<char>) -> spec_fn(
    FurthestEntryView,
) -> bool {
    |p: FurthestEntryView| p.book == book && p.device == device
}

/// The order for this chapter of this book.
pub open spec fn is_intent(book: Seq<char>, chapter: usize) -> spec_fn(IntentRowView) -> bool {
    |r: IntentRowView| r.book == book && r.chapter == chapter
}

/// This device's copy of this chapter.
pub open spec fn is_held(device: Seq<char>, book: Seq<char>, chapter: usize) -> spec_fn(
    InventoryRowView,
) -> bool {
    |r: InventoryRowView| r.device == device && r.book == book && r.chapter == chapter
}

/// The look at this chapter of this book.
pub open spec fn is_indexed(book: Seq<char>, chapter: usize) -> spec_fn(IndexEntryView) -> bool {
    |r: IndexEntryView| r.book == book && r.row.chapter == chapter
}

/// The book under this key.
pub open spec fn is_book(key: Seq<char>) -> spec_fn(BookRowView) -> bool {
    |b: BookRowView| b.key == key
}

/// What a device's row becomes when the device is seen: its first sight stays,
/// and a name is only replaced by a name.
pub open spec fn seen(old: Option<DeviceRowView>, id: Seq<char>, name: Seq<char>, now: i64) ->
    DeviceRowView {
    match old {
        Some(d) => DeviceRowView {
            id: d.id,
            name: if name.len() == 0 {
                d.name
            } else {
                name
            },
            first_seen: d.first_seen,
            last_seen: now,
        },
        None => DeviceRowView { id, name, first_seen: now, last_seen: now },
    }
}

/// What an order becomes when it is placed again: its place and its date stay, a
/// wish to pack stays, and the count of attempts starts over.
pub open spec fn ordered_again(
    old: Option<IntentRowView>,
    book: Seq<char>,
    chapter: usize,
    device: Seq<char>,
    pack: bool,
    seq: u64,
    now: i64,
) -> IntentRowView {
    match old {
        Some(r) => IntentRowView { device, pack: r.pack || pack, tries: 0, ..r },
        None => IntentRowView { book, chapter, device, pack, seq, tries: 0, created_ms: now },
    }
}

/// What a holding becomes when it is reported again.
pub open spec fn held_again(
    old: Option<InventoryRowView>,
    device: Seq<char>,
    book: Seq<char>,
    chapter: usize,
    bytes: Option<u64>,
    now: i64,
) -> InventoryRowView {
    InventoryRowView {
        device,
        book,
        chapter,
        bytes: match (bytes, old) {
            (Some(b), _) => Some(b),
            (None, Some(r)) => r.bytes,
            (None, None) => None,
        },
        stored_ms: now,
    }
}

/// What a book's row becomes when the book is seen again: a date that is not
/// known does not replace one that is.
pub open spec fn book_again(old: Option<BookRowView>, new: BookRowView) -> BookRowView {
    match old {
        Some(b) => BookRowView {
            last_open_ms: if new.last_open_ms is Some {
                new.last_open_ms
            } else {
                b.last_open_ms
            },
            scanned_ms: if new.scanned_ms is Some {
                new.scanned_ms
            } else {
                b.scanned_ms
            },
            ..new
        },
        None => new,
    }
}

fn find_device(v: &Vec<DeviceRow>, id: &str) -> (r: Option<usize>)
    ensures
        match r {
            Some(i) => first_where(views(v@), is_device(id@), 0) == Some(i as int) && i < v@.len(),
            None => first_where(views(v@), is_device(id@), 0) is None,
        },
{
    let f = |d: &DeviceRow| -> (b: bool)
        ensures
            b == (d@.id == id@),
        { same_text(d.id.as_str(), id) };
    find_where(v, f, Ghost(is_device(id@)))
}

fn find_position(v: &Vec<PositionEntry>, book: &str, device: &str) -> (r: Option<usize>)
    ensures
        match r {
            Some(i) => first_where(views(v@), is_position(book@, device@), 0) == Some(i as int) && i
                < v@.len(),
            None => first_where(views(v@), is_position(book@, device@), 0) is None,
        },
{
    let f = |d: &PositionEntry| -> (b: bool)
        ensures
            b == (d@.book == book@ && d@.device == device@),
        { same_text(d.book.as_str(), book) && same_text(d.device.as_str(), device) };
    find_where(v, f, Ghost(is_position(book@, device@)))
}

fn find_furthest(v: &Vec<FurthestEntry>, book: &str, device: &str) -> (r: Option<usize>)
    ensures
        match r {
            Some(i) => first_where(views(v@), is_furthest(book@, device@), 0) == Some(i as int) && i
                < v@.len(),
            None => first_where(views(v@), is_furthest(book@, device@), 0) is None,
        },
{
    let f = |d: &FurthestEntry| -> (b: bool)
        ensures
            b == (d@.book == book@ && d@.device == device@),
        { same_text(d.book.as_str(), book) && same_text(d.device.as_str(), device) };
    find_where(v, f, Ghost(is_furthest(book@, device@)))
}

fn find_intent(v: &Vec<IntentRow>, book: &str, chapter: usize) -> (r: Option<usize>)
    ensures
        match r {
            Some(i) => first_where(views(v@), is_intent(book@, chapter), 0) == Some(i as int) && i
                < v@.len(),
            None => first_where(views(v@), is_intent(book@, chapter), 0) is None,
        },
{
    let f = |d: &IntentRow| -> (b: bool)
        ensures
            b == (d@.book == book@ && d@.chapter == chapter),
        { d.chapter == chapter && same_text(d.book.as_str(), book) };
    find_where(v, f, Ghost(is_intent(book@, chapter)))
}

fn find_held(v: &Vec<InventoryRow>, device: &str, book: &str, chapter: usize) -> (r: Option<usize>)
    ensures
        match r {
            Some(i) => first_where(views(v@), is_held(device@, book@, chapter), 0) == Some(i as int)
                && i < v@.len(),
            None => first_where(views(v@), is_held(device@, book@, chapter), 0) is None,
        },
{
    let f = |d: &InventoryRow| -> (b: bool)
        ensures
            b == (d@.device == device@ && d@.book == book@ && d@.chapter == chapter),
        {
            d.chapter == chapter && same_text(d.book.as_str(), book) && same_text(
                d.device.as_str(),
                device,
            )
        };
    find_where(v, f, Ghost(is_held(device@, book@, chapter)))
}

fn find_indexed(v: &Vec<IndexEntry>, book: &str, chapter: usize) -> (r: Option<usize>)
    ensures
        match r {
            Some(i) => first_where(views(v@), is_indexed(book@, chapter), 0) == Some(i as int) && i
                < v@.len(),
            None => first_where(views(v@), is_indexed(book@, chapter), 0) is None,
        },
{
    let f = |d: &IndexEntry| -> (b: bool)
        ensures
            b == (d@.book == book@ && d@.row.chapter == chapter),
        { d.row.chapter == chapter && same_text(d.book.as_str(), book) };
    find_where(v, f, Ghost(is_indexed(book@, chapter)))
}

fn find_book(v: &Vec<BookRow>, key: &str) -> (r: Option<usize>)
    ensures
        match r {
            Some(i) => first_where(views(v@), is_book(key@), 0) == Some(i as int) && i < v@.len(),
            None => first_where(views(v@), is_book(key@), 0) is None,
        },
{
    let f = |d: &BookRow| -> (b: bool)
        ensures
            b == (d@.key == key@),
        { same_text(d.key.as_str(), key) };
    find_where(v, f, Ghost(is_book(key@)))
}

impl Store {
    /// Nothing remembered.
    pub fn new() -> (r: Self)
        ensures
            r@ == empty_store(),
    {
        let r = Store {
            seq: 0,
            devices: Vec::new(),
            positions: Vec::new(),
            furthest: Vec::new(),
            intents: Vec::new(),
            inventory: Vec::new(),
            index: Vec::new(),
            books: Vec::new(),
        };
        assert(r@ =~= empty_store());
        r
    }

    /// The next sequence number. It is kept, so that none is ever given twice.
    pub fn next_seq(&mut self) -> (r: u64)
        requires
            old(self)@.seq < u64::MAX,
        ensures
            r == old(self)@.seq + 1,
            final(self)@ == (StoreView { seq: r, ..old(self)@ }),
    {
        self.seq = self.seq + 1;
        self.seq
    }

    /// Record that a device is here.
    pub fn touch_device(&mut self, id: &str, name: &str, now_ms: i64)
        ensures
            final(self)@ == (StoreView {
                devices: put_where(
                    old(self)@.devices,
                    is_device(id@),
                    seen(row_where(old(self)@.devices, is_device(id@)), id@, name@, now_ms),
                ),
                ..old(self)@
            }),
    {
        let at = find_device(&self.devices, id);
        let row = match at {
            Some(i) => {
                let d = &self.devices[i];
                assert(views(self.devices@)[i as int] == d@);
                DeviceRow {
                    id: d.id.clone(),
                    name: if name.is_empty() {
                        d.name.clone()
                    } else {
                        name.to_owned()
                    },
                    first_seen: d.first_seen,
                    last_seen: now_ms,
                }
            },
            None => DeviceRow {
                id: id.to_owned(),
                name: name.to_owned(),
                first_seen: now_ms,
                last_seen: now_ms,
            },
        };
        put_row(&mut self.devices, at, row);
    }

    /// Write where a device is in a book, and give the number it was written
    /// under. The number in `row` is not read.
    pub fn put_position(&mut self, book: &str, device: &str, row: PositionRow) -> (r: u64)
        requires
            old(self)@.seq < u64::MAX,
        ensures
            r == old(self)@.seq + 1,
            final(self)@ == (StoreView {
                seq: r,
                positions: put_where(
                    old(self)@.positions,
                    is_position(book@, device@),
                    PositionEntryView {
                        book: book@,
                        device: device@,
                        row: PositionRowView { seq: r, ..row@ },
                    },
                ),
                ..old(self)@
            }),
    {
        let seq = self.next_seq();
        let at = find_position(&self.positions, book, device);
        let mut row = row;
        row.seq = seq;
        put_row(
            &mut self.positions,
            at,
            PositionEntry { book: book.to_owned(), device: device.to_owned(), row },
        );
        seq
    }

    /// Where a device is in a book.
    pub fn position(&self, book: &str, device: &str) -> (r: Option<PositionRow>)
        ensures
            match r {
                Some(p) => row_where(self@.positions, is_position(book@, device@)) matches Some(e)
                    && e.row == p@,
                None => row_where(self@.positions, is_position(book@, device@)) is None,
            },
    {
        match find_position(&self.positions, book, device) {
            Some(i) => {
                assert(views(self.positions@)[i as int] == self.positions@[i as int]@);
                Some(self.positions[i].row.copied())
            },
            None => None,
        }
    }

    /// Move the mark of how far a device has reached, where this is further, and
    /// say whether it moved.
    pub fn bump_furthest(
        &mut self,
        book: &str,
        device: &str,
        chapter: usize,
        chunk: usize,
        now_ms: i64,
    ) -> (moved: bool)
        ensures
            ({
                let new = (signed(chapter as int), signed(chunk as int));
                let old_row = row_where(old(self)@.furthest, is_furthest(book@, device@));
                &&& moved == match old_row {
                    Some(e) => is_further(new, (e.row.chapter, e.row.chunk)),
                    None => true,
                }
                &&& final(self)@ == if moved {
                    StoreView {
                        furthest: put_where(
                            old(self)@.furthest,
                            is_furthest(book@, device@),
                            FurthestEntryView {
                                book: book@,
                                device: device@,
                                row: FurthestRow {
                                    chapter: new.0,
                                    chunk: new.1,
                                    updated_ms: now_ms,
                                },
                            },
                        ),
                        ..old(self)@
                    }
                } else {
                    old(self)@
                }
                &&& row_where(final(self)@.furthest, is_furthest(book@, device@)) matches Some(e)
                    && (e.row.chapter, e.row.chunk) == mark_after(
                    match old_row {
                        Some(o) => Some((o.row.chapter, o.row.chunk)),
                        None => None,
                    },
                    new,
                )
            }),
    {
        let at = find_furthest(&self.furthest, book, device);
        let new = (as_i64(chapter as u64), as_i64(chunk as u64));
        let moved = match at {
            Some(i) => {
                let r = self.furthest[i].row;
                assert(views(self.furthest@)[i as int] == self.furthest@[i as int]@);
                further(new, (r.chapter, r.chunk))
            },
            None => true,
        };
        if moved {
            let entry = FurthestEntry {
                book: book.to_owned(),
                device: device.to_owned(),
                row: FurthestRow { chapter: new.0, chunk: new.1, updated_ms: now_ms },
            };
            proof {
                crate::store_laws::law_rows_read_back(
                    views(self.furthest@),
                    is_furthest(book@, device@),
                    entry@,
                );
            }
            put_row(&mut self.furthest, at, entry);
        }
        moved
    }

    /// How far a device has ever reached in a book.
    pub fn furthest(&self, book: &str, device: &str) -> (r: Option<FurthestRow>)
        ensures
            match r {
                Some(p) => row_where(self@.furthest, is_furthest(book@, device@)) matches Some(e)
                    && e.row == p,
                None => row_where(self@.furthest, is_furthest(book@, device@)) is None,
            },
    {
        match find_furthest(&self.furthest, book, device) {
            Some(i) => {
                assert(views(self.furthest@)[i as int] == self.furthest@[i as int]@);
                Some(self.furthest[i].row)
            },
            None => None,
        }
    }
}

/// A store that remembers nothing.
pub open spec fn empty_store() -> StoreView {
    StoreView {
        seq: 0,
        devices: Seq::empty(),
        positions: Seq::empty(),
        furthest: Seq::empty(),
        intents: Seq::empty(),
        inventory: Seq::empty(),
        index: Seq::empty(),
        books: Seq::empty(),
    }
}

// ------------------------------------------------------------------------ orders

/// The store after the first `n` of `chapters` were ordered.
pub open spec fn ordered_upto(
    s: StoreView,
    book: Seq<char>,
    chapters: Seq<usize>,
    n: nat,
    device: Seq<char>,
    pack: bool,
    now: i64,
) -> StoreView
    decreases n,
{
    if n == 0 || n > chapters.len() {
        s
    } else {
        let b = ordered_upto(s, book, chapters, (n - 1) as nat, device, pack, now);
        let c = chapters[n - 1];
        let seq = (b.seq + 1) as u64;
        StoreView {
            seq,
            intents: put_where(
                b.intents,
                is_intent(book, c),
                ordered_again(
                    row_where(b.intents, is_intent(book, c)),
                    book,
                    c,
                    device,
                    pack,
                    seq,
                    now,
                ),
            ),
            ..b
        }
    }
}

/// The order of the queue.
pub open spec fn by_seq() -> spec_fn(IntentRowView, IntentRowView) -> bool {
    |a: IntentRowView, b: IntentRowView| a.seq <= b.seq
}

fn is_asked_before(a: &IntentRow, b: &IntentRow) -> (r: bool)
    ensures
        r == (a@.seq <= b@.seq),
{
    a.seq <= b.seq
}

/// The orders for one book.
pub open spec fn intents_for(book: Seq<char>) -> spec_fn(IntentRowView) -> bool {
    |r: IntentRowView| r.book == book
}

impl Store {
    /// Order these chapters, in this order. One that is ordered already keeps its
    /// place.
    pub fn add_intent(
        &mut self,
        book: &str,
        chapters: &Vec<usize>,
        device: &str,
        pack: bool,
        now_ms: i64,
    )
        requires
            old(self)@.seq + chapters@.len() <= u64::MAX,
        ensures
            final(self)@ == ordered_upto(
                old(self)@,
                book@,
                chapters@,
                chapters@.len(),
                device@,
                pack,
                now_ms,
            ),
            final(self)@.seq == old(self)@.seq + chapters@.len(),
    {
        let ghost was = self@;
        let mut k: usize = 0;
        while k < chapters.len()
            invariant
                k <= chapters@.len(),
                was.seq + chapters@.len() <= u64::MAX,
                self@ == ordered_upto(was, book@, chapters@, k as nat, device@, pack, now_ms),
                self@.seq == was.seq + k,
            decreases chapters@.len() - k,
        {
            let ghost b = self@;
            let c = chapters[k];
            let seq = self.next_seq();
            let at = find_intent(&self.intents, book, c);
            let row = match at {
                Some(i) => {
                    let r = &self.intents[i];
                    assert(views(self.intents@)[i as int] == r@);
                    IntentRow {
                        book: r.book.clone(),
                        chapter: r.chapter,
                        device: device.to_owned(),
                        pack: r.pack || pack,
                        seq: r.seq,
                        tries: 0,
                        created_ms: r.created_ms,
                    }
                },
                None => IntentRow {
                    book: book.to_owned(),
                    chapter: c,
                    device: device.to_owned(),
                    pack,
                    seq,
                    tries: 0,
                    created_ms: now_ms,
                },
            };
            put_row(&mut self.intents, at, row);
            k += 1;
        }
    }

    /// One book's orders, in the order asked.
    pub fn intents(&self, book: &str) -> (r: Vec<IntentRow>)
        ensures
            views(r@) == sorted(self@.intents.filter(intents_for(book@)), by_seq()),
    {
        let f = |d: &IntentRow| -> (b: bool)
            ensures
                b == (d@.book == book@),
            { same_text(d.book.as_str(), book) };
        let some = select_where(&self.intents, f, Ghost(intents_for(book@)));
        sort_rows(some, is_asked_before, Ghost(by_seq()))
    }

    /// Every book's orders, in the order asked.
    pub fn all_intents(&self) -> (r: Vec<IntentRow>)
        ensures
            views(r@) == sorted(self@.intents, by_seq()),
    {
        let some = copy_rows(&self.intents);
        sort_rows(some, is_asked_before, Ghost(by_seq()))
    }

    /// Forget the order for one chapter, and say whether there was one.
    pub fn drop_intent(&mut self, book: &str, chapter: usize) -> (r: bool)
        ensures
            final(self)@ == (StoreView {
                intents: drop_where(old(self)@.intents, is_intent(book@, chapter)),
                ..old(self)@
            }),
            r == (final(self)@.intents.len() < old(self)@.intents.len()),
    {
        let f = |d: &IntentRow| -> (b: bool)
            ensures
                b == (d@.book == book@ && d@.chapter == chapter),
            { d.chapter == chapter && same_text(d.book.as_str(), book) };
        let n = remove_where(&mut self.intents, f, Ghost(is_intent(book@, chapter)));
        n > 0
    }

    /// Forget a book's orders, and say how many there were.
    pub fn drop_intents_for_book(&mut self, book: &str) -> (r: usize)
        ensures
            final(self)@ == (StoreView {
                intents: drop_where(old(self)@.intents, intents_for(book@)),
                ..old(self)@
            }),
            r == old(self)@.intents.len() - final(self)@.intents.len(),
    {
        let f = |d: &IntentRow| -> (b: bool)
            ensures
                b == (d@.book == book@),
            { same_text(d.book.as_str(), book) };
        remove_where(&mut self.intents, f, Ghost(intents_for(book@)))
    }

    /// Count one more attempt at a chapter, and give the count. A chapter that
    /// nobody ordered has none.
    pub fn bump_tries(&mut self, book: &str, chapter: usize) -> (r: u32)
        ensures
            match row_where(old(self)@.intents, is_intent(book@, chapter)) {
                Some(row) => {
                    &&& r == if row.tries < u32::MAX {
                        row.tries + 1
                    } else {
                        u32::MAX as int
                    }
                    &&& final(self)@ == (StoreView {
                        intents: put_where(
                            old(self)@.intents,
                            is_intent(book@, chapter),
                            IntentRowView { tries: r, ..row },
                        ),
                        ..old(self)@
                    })
                },
                None => r == 0 && final(self)@ == old(self)@,
            },
    {
        match find_intent(&self.intents, book, chapter) {
            Some(i) => {
                assert(views(self.intents@)[i as int] == self.intents@[i as int]@);
                let mut row = self.intents[i].copied();
                if row.tries < u32::MAX {
                    row.tries = row.tries + 1;
                }
                let n: u32 = row.tries;
                put_row(&mut self.intents, Some(i), row);
                n
            },
            None => 0,
        }
    }

    /// A chunk landed: the attempts so far do not count.
    pub fn reset_tries(&mut self, book: &str, chapter: usize)
        ensures
            match row_where(old(self)@.intents, is_intent(book@, chapter)) {
                Some(row) => final(self)@ == (StoreView {
                    intents: put_where(
                        old(self)@.intents,
                        is_intent(book@, chapter),
                        IntentRowView { tries: 0, ..row },
                    ),
                    ..old(self)@
                }),
                None => final(self)@ == old(self)@,
            },
    {
        match find_intent(&self.intents, book, chapter) {
            Some(i) => {
                assert(views(self.intents@)[i as int] == self.intents@[i as int]@);
                let mut row = self.intents[i].copied();
                row.tries = 0;
                put_row(&mut self.intents, Some(i), row);
            },
            None => {},
        }
    }
}

fn copy_rows<T: Row>(v: &Vec<T>) -> (r: Vec<T>)
    ensures
        views(r@) == views(v@),
{
    let mut r: Vec<T> = Vec::new();
    let mut i: usize = 0;
    while i < v.len()
        invariant
            i <= v@.len(),
            views(r@) == views(v@).take(i as int),
        decreases v@.len() - i,
    {
        let ghost before = views(r@);
        let c = v[i].copied();
        r.push(c);
        assert(views(r@) =~= before.push(c@));
        assert(views(v@).take(i + 1) =~= views(v@).take(i as int).push(views(v@)[i as int]));
        i += 1;
    }
    assert(views(v@).take(i as int) =~= views(v@));
    r
}

// --------------------------------------------------------------------- inventory

/// Whether `v` holds `c`.
pub open spec fn wanted(v: Seq<usize>, c: usize) -> bool {
    exists|i: int| 0 <= i < v.len() && #[trigger] v[i] == c
}

/// A copy of a chapter of this book on this device that is not in `keep`.
pub open spec fn not_kept(device: Seq<char>, book: Seq<char>, keep: Seq<usize>) -> spec_fn(
    InventoryRowView,
) -> bool {
    |r: InventoryRowView| r.device == device && r.book == book && !wanted(keep, r.chapter)
}

/// The holdings after the first `n` of `chapters` were added, as far as they
/// were not there.
pub open spec fn added_upto(
    rows: Seq<InventoryRowView>,
    device: Seq<char>,
    book: Seq<char>,
    chapters: Seq<usize>,
    n: nat,
    now: i64,
) -> Seq<InventoryRowView>
    decreases n,
{
    if n == 0 || n > chapters.len() {
        rows
    } else {
        let before = added_upto(rows, device, book, chapters, (n - 1) as nat, now);
        let c = chapters[n - 1];
        if first_where(before, is_held(device, book, c), 0) is Some {
            before
        } else {
            before.push(
                InventoryRowView { device, book, chapter: c, bytes: None, stored_ms: now },
            )
        }
    }
}

fn is_wanted(v: &Vec<usize>, c: usize) -> (r: bool)
    ensures
        r == wanted(v@, c),
{
    let mut i: usize = 0;
    while i < v.len()
        invariant
            i <= v@.len(),
            forall|k: int| 0 <= k < i ==> #[trigger] v@[k] != c,
        decreases v@.len() - i,
    {
        if v[i] == c {
            return true;
        }
        i += 1;
    }
    false
}

/// The holdings of this book.
pub open spec fn held_of(book: Seq<char>) -> spec_fn(InventoryRowView) -> bool {
    |r: InventoryRowView| r.book == book
}

/// By device, and then by chapter.
pub open spec fn by_device() -> spec_fn(InventoryRowView, InventoryRowView) -> bool {
    |a: InventoryRowView, b: InventoryRowView|
        if a.device == b.device {
            a.chapter <= b.chapter
        } else {
            text_le(a.device, b.device)
        }
}

fn is_device_before(a: &InventoryRow, b: &InventoryRow) -> (r: bool)
    ensures
        r == if a@.device == b@.device {
            a@.chapter <= b@.chapter
        } else {
            text_le(a@.device, b@.device)
        },
{
    if same_text(a.device.as_str(), b.device.as_str()) {
        a.chapter <= b.chapter
    } else {
        text_before(a.device.as_str(), b.device.as_str())
    }
}

impl Store {
    /// A device holds a chapter.
    pub fn put_inventory(
        &mut self,
        device: &str,
        book: &str,
        chapter: usize,
        bytes: Option<u64>,
        now_ms: i64,
    )
        ensures
            final(self)@ == (StoreView {
                inventory: put_where(
                    old(self)@.inventory,
                    is_held(device@, book@, chapter),
                    held_again(
                        row_where(old(self)@.inventory, is_held(device@, book@, chapter)),
                        device@,
                        book@,
                        chapter,
                        bytes,
                        now_ms,
                    ),
                ),
                ..old(self)@
            }),
    {
        let at = find_held(&self.inventory, device, book, chapter);
        let known = match at {
            Some(i) => {
                assert(views(self.inventory@)[i as int] == self.inventory@[i as int]@);
                self.inventory[i].bytes
            },
            None => None,
        };
        let bytes = match bytes {
            Some(b) => Some(b),
            None => known,
        };
        put_row(
            &mut self.inventory,
            at,
            InventoryRow {
                device: device.to_owned(),
                book: book.to_owned(),
                chapter,
                bytes,
                stored_ms: now_ms,
            },
        );
    }

    /// A device gave a chapter back; say whether it was known to hold it.
    pub fn drop_inventory(&mut self, device: &str, book: &str, chapter: usize) -> (r: bool)
        ensures
            final(self)@ == (StoreView {
                inventory: drop_where(old(self)@.inventory, is_held(device@, book@, chapter)),
                ..old(self)@
            }),
            r == (final(self)@.inventory.len() < old(self)@.inventory.len()),
    {
        let f = |d: &InventoryRow| -> (b: bool)
            ensures
                b == (d@.device == device@ && d@.book == book@ && d@.chapter == chapter),
            {
                d.chapter == chapter && same_text(d.book.as_str(), book) && same_text(
                    d.device.as_str(),
                    device,
                )
            };
        let n = remove_where(&mut self.inventory, f, Ghost(is_held(device@, book@, chapter)));
        n > 0
    }

    /// Who holds what of a book.
    pub fn inventory_for_book(&self, book: &str) -> (r: Vec<InventoryRow>)
        ensures
            views(r@) == sorted(self@.inventory.filter(held_of(book@)), by_device()),
    {
        let f = |d: &InventoryRow| -> (b: bool)
            ensures
                b == (d@.book == book@),
            { same_text(d.book.as_str(), book) };
        let some = select_where(&self.inventory, f, Ghost(held_of(book@)));
        sort_rows(some, is_device_before, Ghost(by_device()))
    }

    /// Set what a device holds of a book: these chapters and no others. What it
    /// held before and still holds stays as it was.
    pub fn replace_inventory(
        &mut self,
        device: &str,
        book: &str,
        chapters: &Vec<usize>,
        now_ms: i64,
    )
        ensures
            final(self)@ == (StoreView {
                inventory: added_upto(
                    drop_where(old(self)@.inventory, not_kept(device@, book@, chapters@)),
                    device@,
                    book@,
                    chapters@,
                    chapters@.len(),
                    now_ms,
                ),
                ..old(self)@
            }),
    {
        let f = |d: &InventoryRow| -> (b: bool)
            ensures
                b == (d@.device == device@ && d@.book == book@ && !wanted(
                    chapters@,
                    d@.chapter,
                )),
            {
                same_text(d.book.as_str(), book) && same_text(d.device.as_str(), device)
                    && !is_wanted(chapters, d.chapter)
            };
        let ghost was = self@;
        let _n = remove_where(
            &mut self.inventory,
            f,
            Ghost(not_kept(device@, book@, chapters@)),
        );
        let ghost left = views(self.inventory@);
        let mut k: usize = 0;
        while k < chapters.len()
            invariant
                k <= chapters@.len(),
                views(self.inventory@) == added_upto(
                    left,
                    device@,
                    book@,
                    chapters@,
                    k as nat,
                    now_ms,
                ),
                self@ == (StoreView { inventory: views(self.inventory@), ..was }),
            decreases chapters@.len() - k,
        {
            let c = chapters[k];
            let at = find_held(&self.inventory, device, book, c);
            if at.is_none() {
                put_row(
                    &mut self.inventory,
                    None,
                    InventoryRow {
                        device: device.to_owned(),
                        book: book.to_owned(),
                        chapter: c,
                        bytes: None,
                        stored_ms: now_ms,
                    },
                );
            }
            k += 1;
        }
    }
}

// ----------------------------------------------------------------------- queries

/// Most recently seen first, and then by id.
pub open spec fn by_sight() -> spec_fn(DeviceRowView, DeviceRowView) -> bool {
    |a: DeviceRowView, b: DeviceRowView|
        if a.last_seen == b.last_seen {
            text_le(a.id, b.id)
        } else {
            a.last_seen > b.last_seen
        }
}

fn is_seen_later(a: &DeviceRow, b: &DeviceRow) -> (r: bool)
    ensures
        r == if a@.last_seen == b@.last_seen {
            text_le(a@.id, b@.id)
        } else {
            a@.last_seen > b@.last_seen
        },
{
    if a.last_seen == b.last_seen {
        text_before(a.id.as_str(), b.id.as_str())
    } else {
        a.last_seen > b.last_seen
    }
}

/// The devices seen at or after `since`.
pub open spec fn seen_since(since: i64) -> spec_fn(DeviceRowView) -> bool {
    |d: DeviceRowView| d.last_seen >= since
}

/// The positions in this book.
pub open spec fn positions_in(book: Seq<char>) -> spec_fn(PositionEntryView) -> bool {
    |p: PositionEntryView| p.book == book
}

/// Whether `a` was written after `b`: later, or in the same millisecond and
/// under a higher number.
pub open spec fn written_after(a: PositionRowView, b: PositionRowView) -> bool {
    a.updated_ms > b.updated_ms || (a.updated_ms == b.updated_ms && a.seq >= b.seq)
}

/// Newest first.
pub open spec fn by_newest() -> spec_fn(PositionEntryView, PositionEntryView) -> bool {
    |a: PositionEntryView, b: PositionEntryView| written_after(a.row, b.row)
}

fn is_newer(a: &PositionEntry, b: &PositionEntry) -> (r: bool)
    ensures
        r == written_after(a@.row, b@.row),
{
    a.row.updated_ms > b.row.updated_ms || (a.row.updated_ms == b.row.updated_ms && a.row.seq
        >= b.row.seq)
}

/// The positions in a book, newest first.
pub open spec fn newest_first(rows: Seq<PositionEntryView>, book: Seq<char>) -> Seq<
    PositionEntryView,
> {
    sorted(rows.filter(positions_in(book)), by_newest())
}

/// By book.
pub open spec fn by_name() -> spec_fn(PositionEntryView, PositionEntryView) -> bool {
    |a: PositionEntryView, b: PositionEntryView| text_le(a.book, b.book)
}

fn is_named_before(a: &PositionEntry, b: &PositionEntry) -> (r: bool)
    ensures
        r == text_le(a@.book, b@.book),
{
    text_before(a.book.as_str(), b.book.as_str())
}

/// The positions that are the newest in their book.
pub open spec fn leading(rows: Seq<PositionEntryView>) -> spec_fn(PositionEntryView) -> bool {
    |p: PositionEntryView|
        newest_first(rows, p.book).len() > 0 && newest_first(rows, p.book)[0].row.seq == p.row.seq
}

/// The chapters of this book, from `lo` to `hi`.
pub open spec fn indexed_within(book: Seq<char>, lo: i64, hi: i64) -> spec_fn(
    IndexEntryView,
) -> bool {
    |r: IndexEntryView| r.book == book && lo <= r.row.chapter <= hi
}

/// The chapters of this book.
pub open spec fn indexed_in(book: Seq<char>) -> spec_fn(IndexEntryView) -> bool {
    |r: IndexEntryView| r.book == book
}

/// By chapter.
pub open spec fn by_chapter() -> spec_fn(IndexEntryView, IndexEntryView) -> bool {
    |a: IndexEntryView, b: IndexEntryView| a.row.chapter <= b.row.chapter
}

fn is_chapter_before(a: &IndexEntry, b: &IndexEntry) -> (r: bool)
    ensures
        r == (a@.row.chapter <= b@.row.chapter),
{
    a.row.chapter <= b.row.chapter
}

/// The looks after the first `n` of `rows` were recorded.
pub open spec fn indexed_upto(
    s: Seq<IndexEntryView>,
    book: Seq<char>,
    rows: Seq<ChapterIndexRowView>,
    n: nat,
) -> Seq<IndexEntryView>
    decreases n,
{
    if n == 0 || n > rows.len() {
        s
    } else {
        let r = rows[n - 1];
        put_where(
            indexed_upto(s, book, rows, (n - 1) as nat),
            is_indexed(book, r.chapter),
            IndexEntryView { book, row: r },
        )
    }
}

/// By key.
pub open spec fn by_key() -> spec_fn(BookRowView, BookRowView) -> bool {
    |a: BookRowView, b: BookRowView| text_le(a.key, b.key)
}

fn is_key_before(a: &BookRow, b: &BookRow) -> (r: bool)
    ensures
        r == text_le(a@.key, b@.key),
{
    text_before(a.key.as_str(), b.key.as_str())
}

/// Whether `a` was opened after `b`, the ones never opened last, and then by
/// key.
pub open spec fn opened_after(a: BookRowView, b: BookRowView) -> bool {
    match (a.last_open_ms, b.last_open_ms) {
        (Some(x), Some(y)) => if x == y {
            text_le(a.key, b.key)
        } else {
            x > y
        },
        (Some(_), None) => true,
        (None, Some(_)) => false,
        (None, None) => text_le(a.key, b.key),
    }
}

/// [`opened_after`] as a relation value.
pub open spec fn by_opening() -> spec_fn(BookRowView, BookRowView) -> bool {
    |a: BookRowView, b: BookRowView| opened_after(a, b)
}

fn is_opened_after(a: &BookRow, b: &BookRow) -> (r: bool)
    ensures
        r == opened_after(a@, b@),
{
    match (a.last_open_ms, b.last_open_ms) {
        (Some(x), Some(y)) => if x == y {
            text_before(a.key.as_str(), b.key.as_str())
        } else {
            x > y
        },
        (Some(_), None) => true,
        (None, Some(_)) => false,
        (None, None) => text_before(a.key.as_str(), b.key.as_str()),
    }
}

impl Store {
    /// Every device ever seen, the most recent first.
    pub fn devices(&self) -> (r: Vec<DeviceRow>)
        ensures
            views(r@) == sorted(self@.devices, by_sight()),
    {
        let all = copy_rows(&self.devices);
        sort_rows(all, is_seen_later, Ghost(by_sight()))
    }

    /// The devices seen at or after `since_ms`, the most recent first.
    pub fn active_devices(&self, since_ms: i64) -> (r: Vec<DeviceRow>)
        ensures
            views(r@) == sorted(self@.devices.filter(seen_since(since_ms)), by_sight()),
    {
        let f = |d: &DeviceRow| -> (b: bool)
            ensures
                b == (d@.last_seen >= since_ms),
            { d.last_seen >= since_ms };
        let some = select_where(&self.devices, f, Ghost(seen_since(since_ms)));
        sort_rows(some, is_seen_later, Ghost(by_sight()))
    }

    /// Every device's position in a book, newest first.
    pub fn positions_for_book(&self, book: &str) -> (r: Vec<PositionEntry>)
        ensures
            views(r@) == newest_first(self@.positions, book@),
    {
        let f = |d: &PositionEntry| -> (b: bool)
            ensures
                b == (d@.book == book@),
            { same_text(d.book.as_str(), book) };
        let some = select_where(&self.positions, f, Ghost(positions_in(book@)));
        sort_rows(some, is_newer, Ghost(by_newest()))
    }

    /// The newest position in a book: the one to show where there is room for
    /// one.
    pub fn newest_position(&self, book: &str) -> (r: Option<PositionEntry>)
        ensures
            match r {
                Some(p) => newest_first(self@.positions, book@).len() > 0 && newest_first(
                    self@.positions,
                    book@,
                )[0] == p@,
                None => newest_first(self@.positions, book@).len() == 0,
            },
    {
        let all = self.positions_for_book(book);
        if all.len() == 0 {
            None
        } else {
            assert(views(all@)[0] == all@[0]@);
            Some(all[0].copied())
        }
    }

    /// The newest position in each book, by book.
    pub fn all_newest_positions(&self) -> (r: Vec<PositionEntry>)
        ensures
            views(r@) == sorted(self@.positions.filter(leading(self@.positions)), by_name()),
    {
        let f = |d: &PositionEntry| -> (b: bool)
            ensures
                b == leading(self@.positions)(d@),
            {
                match self.newest_position(d.book.as_str()) {
                    Some(p) => p.row.seq == d.row.seq,
                    None => false,
                }
            };
        let some = select_where(&self.positions, f, Ghost(leading(self@.positions)));
        sort_rows(some, is_named_before, Ghost(by_name()))
    }

    /// Record a look at a book's chapters.
    pub fn put_chapter_index(&mut self, book: &str, rows: &Vec<ChapterIndexRow>)
        ensures
            final(self)@ == (StoreView {
                index: indexed_upto(old(self)@.index, book@, views(rows@), rows@.len()),
                ..old(self)@
            }),
    {
        let ghost was = self@;
        let ghost rv = views(rows@);
        let mut k: usize = 0;
        while k < rows.len()
            invariant
                k <= rows@.len(),
                rv == views(rows@),
                views(self.index@) == indexed_upto(was.index, book@, rv, k as nat),
                self@ == (StoreView { index: views(self.index@), ..was }),
            decreases rows@.len() - k,
        {
            let row = rows[k].copied();
            assert(rv[k as int] == row@);
            let at = find_indexed(&self.index, book, row.chapter);
            put_row(&mut self.index, at, IndexEntry { book: book.to_owned(), row });
            k += 1;
        }
    }

    /// What was seen of a book's chapters, in their order.
    pub fn chapter_index(&self, book: &str) -> (r: Vec<IndexEntry>)
        ensures
            views(r@) == sorted(self@.index.filter(indexed_in(book@)), by_chapter()),
    {
        let f = |d: &IndexEntry| -> (b: bool)
            ensures
                b == (d@.book == book@),
            { same_text(d.book.as_str(), book) };
        let some = select_where(&self.index, f, Ghost(indexed_in(book@)));
        sort_rows(some, is_chapter_before, Ghost(by_chapter()))
    }

    /// A window of it, both ends within it.
    pub fn chapter_index_window(&self, book: &str, from: usize, to: usize) -> (r: Vec<IndexEntry>)
        ensures
            views(r@) == if from > to {
                Seq::empty()
            } else {
                sorted(
                    self@.index.filter(
                        indexed_within(book@, signed(from as int), signed(to as int)),
                    ),
                    by_chapter(),
                )
            },
    {
        match window_bounds(from, to) {
            Some((lo, hi)) => {
                let f = |d: &IndexEntry| -> (b: bool)
                    ensures
                        b == (d@.book == book@ && lo <= d@.row.chapter <= hi),
                    {
                        lo >= 0 && hi >= 0 && same_text(d.book.as_str(), book) && lo as u64
                            <= d.row.chapter as u64 && d.row.chapter as u64 <= hi as u64
                    };
                let some = select_where(&self.index, f, Ghost(indexed_within(book@, lo, hi)));
                sort_rows(some, is_chapter_before, Ghost(by_chapter()))
            },
            None => {
                let none: Vec<IndexEntry> = Vec::new();
                assert(views(none@) =~= Seq::<IndexEntryView>::empty());
                none
            },
        }
    }

    /// Remember a book, or what is now known of it.
    pub fn put_book(&mut self, row: &BookRow)
        ensures
            final(self)@ == (StoreView {
                books: put_where(
                    old(self)@.books,
                    is_book(row@.key),
                    book_again(row_where(old(self)@.books, is_book(row@.key)), row@),
                ),
                ..old(self)@
            }),
    {
        let at = find_book(&self.books, row.key.as_str());
        let mut new = row.copied();
        if let Some(i) = at {
            assert(views(self.books@)[i as int] == self.books@[i as int]@);
            if new.last_open_ms.is_none() {
                new.last_open_ms = self.books[i].last_open_ms;
            }
            if new.scanned_ms.is_none() {
                new.scanned_ms = self.books[i].scanned_ms;
            }
        }
        put_row(&mut self.books, at, new);
    }

    /// Every book, by key.
    pub fn books(&self) -> (r: Vec<BookRow>)
        ensures
            views(r@) == sorted(self@.books, by_key()),
    {
        let all = copy_rows(&self.books);
        sort_rows(all, is_key_before, Ghost(by_key()))
    }

    /// The book under a key.
    pub fn book(&self, key: &str) -> (r: Option<BookRow>)
        ensures
            match r {
                Some(b) => row_where(self@.books, is_book(key@)) == Some(b@),
                None => row_where(self@.books, is_book(key@)) is None,
            },
    {
        match find_book(&self.books, key) {
            Some(i) => {
                assert(views(self.books@)[i as int] == self.books@[i as int]@);
                Some(self.books[i].copied())
            },
            None => None,
        }
    }

    /// A book was opened. One that is not known is left alone.
    pub fn touch_book_open(&mut self, key: &str, now_ms: i64)
        ensures
            match row_where(old(self)@.books, is_book(key@)) {
                Some(b) => final(self)@ == (StoreView {
                    books: put_where(
                        old(self)@.books,
                        is_book(key@),
                        BookRowView { last_open_ms: Some(now_ms), ..b },
                    ),
                    ..old(self)@
                }),
                None => final(self)@ == old(self)@,
            },
    {
        match find_book(&self.books, key) {
            Some(i) => {
                assert(views(self.books@)[i as int] == self.books@[i as int]@);
                let mut b = self.books[i].copied();
                b.last_open_ms = Some(now_ms);
                put_row(&mut self.books, Some(i), b);
            },
            None => {},
        }
    }

    /// The most recently opened books, the ones never opened last.
    pub fn recent_books(&self, limit: usize) -> (r: Vec<BookRow>)
        ensures
            ({
                let all = sorted(self@.books, by_opening());
                views(r@) == if all.len() <= limit {
                    all
                } else {
                    all.take(limit as int)
                }
            }),
    {
        let all = copy_rows(&self.books);
        let mut r = sort_rows(all, is_opened_after, Ghost(by_opening()));
        let ghost full = views(r@);
        if r.len() > limit {
            r.truncate(limit);
            assert(views(r@) =~= full.take(limit as int));
        }
        r
    }
}

} // verus!
