//! What is kept, and who does what next.

use narrator::api::chapters::{
    asked, build_chapters, build_elsewhere, cancel_chapters, cancel_elsewhere, chapters_list, look_serves, order_elsewhere,
    queue_chapters, wanted, ChapterSetBody, ChaptersQuery, LOOK_GOOD_FOR,
};
use narrator::api::device::Device;
use narrator::api::health::{health_status, is_healthy, problems, threads, wants_rendering, Facts};
use narrator::api::library::{collect, totals, LibraryQuery};
use narrator::api::session::{
    after_load, books, boot, chapter_words, chunk_size, plan_for, position, position_due, record_position,
    register_loaded, renderer, session_position, wrong_book, yes, BootStep, LoadBody, Noted, OpenBody, PlayheadBody,
    PositionBody, RendererBody, Words, POSITION_EVERY,
};
use narrator::book::{Chapter, Chunk, DEFAULT_MAX_CHARS};
use narrator::config;
use narrator::config::{flag, num, short, Config};
use narrator::err::{BookError, PackError, TtsError};
use narrator::events::{comment, lagged, retry, sse, Bus};
use narrator::pack::{
    after_chunk, autopack, autopack_due, pack_outcome, packer_turn, worker_turn, Job, Plans, Standing, Turn,
    WorkerTurn, PACK_HOLD_MAX, PLANS_HELD,
};
use narrator::render::{
    first_hole, first_missing, next_elsewhere, next_idle, next_queued, next_task, resume_chapter, retire,
    room_to_speculate, Backoff, Idling, Leaving, Place, Retire, Spare, Target, Task, BACKOFF_MAX,
};
use narrator::state::{gc_keep, Gate, Order, Orders, Session, Stall, Stamps, Waiting};
use narrator::store::{
    as_i64, as_u64, as_usize, further, meta_u64, schema_step, window_bounds, BookRow, ChapterIndexRow, IntentRow,
    PositionRow, SchemaStep, Store, SCHEMA_VERSION,
};
use narrator::stt::{
    decode_args, decoded, missing_model, model_path, transcript, Decoder, SttError, SttGate, DECODE_TIMEOUT_S,
};
use narrator::tts::engine::Engine;
use narrator::tts::g2p::{after_look, answer, assemble, map_ipa, questions, Look, Phonemizer, Piece, Wait};
use narrator::tts::kokoro::{fnv1a, is_voice_size, model_input, tokenize, VOICE_BYTES};
use narrator::wishlist::{all_outstanding, outstanding, parked, MAX_ATTEMPTS};
use narrator::worker::{command, is_behind, render_event, render_step, Ahead, Command, RenderStep, Thread};
use std::cell::Cell;
use std::sync::Arc;

const SECOND: u64 = 1_000_000_000;
const MS: u64 = 1_000_000;

fn s(v: &[&str]) -> Vec<String> {
    v.iter().map(|t| t.to_string()).collect()
}

fn book(sizes: &[usize]) -> Vec<Chapter> {
    sizes
        .iter()
        .enumerate()
        .map(|(i, n)| Chapter {
            index: i,
            id: format!("c{i}"),
            title: format!("T{i}"),
            chunks: (0..*n)
                .map(|k| Chunk { text: format!("Sentence {k}."), para: k, silent: k == 9 })
                .collect(),
        })
        .collect()
}

fn loaded(sizes: &[usize]) -> Session {
    let mut st = Session::new();
    st.load("/books/K.epub", Arc::new(book(sizes)));
    st
}

// ------------------------------------------------------------------------ numbers

#[test]
fn further_is_lexicographic_and_strict() {
    assert!(further((1, 0), (0, 999)), "a chapter forward always counts");
    assert!(further((0, 5), (0, 4)));
    assert!(!further((0, 4), (0, 4)), "standing still is not moving");
    assert!(!further((0, 3), (0, 4)));
    assert!(!further((0, 999), (1, 0)), "a chapter back is still back");
}

#[test]
fn a_window_with_its_ends_the_wrong_way_round_is_empty() {
    assert_eq!(window_bounds(0, 0), Some((0, 0)));
    assert_eq!(window_bounds(3, 7), Some((3, 7)));
    assert_eq!(window_bounds(7, 3), None);
}

#[test]
fn a_meta_counter_that_is_not_a_number_has_no_value() {
    assert_eq!(meta_u64("41"), Some(41));
    assert_eq!(meta_u64(" 41 "), Some(41), "casts pad nothing, but");
    assert_eq!(meta_u64(""), None);
    assert_eq!(meta_u64("-1"), None);
    assert_eq!(meta_u64("seventeen"), None);
}

#[test]
fn the_unsigned_round_trip_saturates_rather_than_wrapping() {
    assert_eq!(as_i64(7), 7);
    assert_eq!(as_i64(u64::MAX), i64::MAX);
    assert_eq!(as_u64(7), 7);
    assert_eq!(as_u64(-3), 0);
    assert_eq!(as_usize(-3), 0);
}

// ---------------------------------------------------------------------- the store

fn at(chapter: i64, chunk: i64, ms: i64) -> PositionRow {
    PositionRow {
        chapter,
        chunk,
        chapter_title: "T".to_string(),
        chunks_total: 10,
        chapters_total: 3,
        updated_ms: ms,
        seq: 0,
    }
}

#[test]
fn a_store_reads_back_what_it_was_given() {
    let mut st = Store::new();
    st.touch_device("d", "Phone", 5);
    st.touch_device("d", "", 9);
    let d = &st.devices()[0];
    assert_eq!((d.name.as_str(), d.first_seen, d.last_seen), ("Phone", 5, 9));
    assert_eq!(st.active_devices(9).len(), 1);
    assert!(st.active_devices(10).is_empty());

    let one = st.put_position("B", "d", at(1, 2, 100));
    let two = st.put_position("B", "e", at(0, 4, 100));
    assert!(two > one, "every report is numbered");
    assert_eq!(st.position("B", "d").map(|p| (p.chapter, p.chunk)), Some((1, 2)));
    assert_eq!(st.position("B", "x"), None);
    assert_eq!(st.newest_position("B").map(|p| p.device), Some("e".to_string()));
    assert_eq!(st.positions_for_book("B").len(), 2);
    assert_eq!(st.all_newest_positions().len(), 1);
}

#[test]
fn the_furthest_mark_never_goes_back() {
    let mut st = Store::new();
    assert!(st.bump_furthest("B", "d", 1, 5, 1));
    assert!(!st.bump_furthest("B", "d", 0, 99, 2));
    assert!(!st.bump_furthest("B", "d", 1, 5, 3));
    assert!(st.bump_furthest("B", "d", 1, 6, 4));
    assert_eq!(st.furthest("B", "d").map(|f| (f.chapter, f.chunk, f.updated_ms)), Some((1, 6, 4)));
}

#[test]
fn ordering_again_keeps_the_place_in_the_line() {
    let mut st = Store::new();
    st.add_intent("B", &vec![3, 1], "d", false, 1);
    st.add_intent("B", &vec![3, 2], "e", true, 2);
    let all: Vec<(usize, bool)> = st.intents("B").iter().map(|i| (i.chapter, i.pack)).collect();
    assert_eq!(all, vec![(3, true), (1, false), (2, true)]);
    assert_eq!(st.bump_tries("B", 3), 1);
    assert_eq!(st.bump_tries("B", 3), 2);
    st.reset_tries("B", 3);
    assert_eq!(st.bump_tries("B", 3), 1);
    assert!(st.drop_intent("B", 1));
    assert!(!st.drop_intent("B", 1));
    assert_eq!(st.drop_intents_for_book("B"), 2);
    assert!(st.all_intents().is_empty());
}

#[test]
fn what_a_device_holds_is_what_it_said() {
    let mut st = Store::new();
    st.put_inventory("d", "B", 1, Some(10), 1);
    st.put_inventory("d", "B", 2, None, 1);
    st.replace_inventory("d", "B", &vec![2, 3], 5);
    let held: Vec<usize> = st.inventory_for_book("B").iter().map(|r| r.chapter).collect();
    assert_eq!(held, vec![2, 3]);
    let kept: Vec<(Option<u64>, i64)> = st.inventory_for_book("B").iter().map(|r| (r.bytes, r.stored_ms)).collect();
    assert_eq!(kept, vec![(None, 1), (None, 5)], "what is new was stored now");
    assert!(st.drop_inventory("d", "B", 3));
    assert!(!st.drop_inventory("d", "B", 3));
}

fn index_row(chapter: usize, n: usize, rendered: usize, m4a: bool) -> ChapterIndexRow {
    ChapterIndexRow {
        chapter,
        n,
        rendered,
        m4a,
        bytes: if m4a { Some(1000) } else { None },
        duration_bits: None,
        title: format!("T{chapter}"),
        est_bits: None,
        scanned_ms: 40 + chapter as i64,
    }
}

fn book_row(key: &str, opened: Option<i64>) -> BookRow {
    BookRow {
        key: key.to_string(),
        name: format!("{key}.epub"),
        path: format!("/books/{key}.epub"),
        title: key.to_string(),
        chapters: 2,
        last_open_ms: opened,
        scanned_ms: Some(1),
    }
}

#[test]
fn a_shelf_is_indexed_by_chapter() {
    let mut st = Store::new();
    st.put_chapter_index("B", &vec![index_row(0, 3, 3, true), index_row(1, 2, 0, false), index_row(2, 2, 1, false)]);
    assert_eq!(st.chapter_index("B").len(), 3);
    let window: Vec<usize> = st.chapter_index_window("B", 1, 2).iter().map(|e| e.row.chapter).collect();
    assert_eq!(window, vec![1, 2]);
    assert!(st.chapter_index_window("B", 2, 1).is_empty());
    st.put_book(&book_row("A", None));
    st.put_book(&book_row("B", None));
    st.touch_book_open("B", 9);
    assert_eq!(st.book("B").and_then(|b| b.last_open_ms), Some(9));
    let recent: Vec<String> = st.recent_books(5).iter().map(|b| b.key.clone()).collect();
    assert_eq!(recent[0], "B");
    assert_eq!(st.books().len(), 2);
    assert_eq!(st.recent_books(1).len(), 1);
}

#[test]
fn a_schema_from_the_future_is_not_touched() {
    assert_eq!(schema_step(Some("1")), SchemaStep::Current);
    assert_eq!(schema_step(None), SchemaStep::Create(SCHEMA_VERSION));
    assert_eq!(schema_step(Some("2")), SchemaStep::FromTheFuture(2));
    assert_eq!(schema_step(Some("x")), SchemaStep::Corrupt);
}

// ------------------------------------------------------------------ configuration

fn vars(v: &[(&str, &str)]) -> Vec<(String, String)> {
    v.iter().map(|(a, b)| (a.to_string(), b.to_string())).collect()
}

#[test]
fn a_bad_number_falls_back_rather_than_failing() {
    let v = vars(&[("NARRATOR_TEST_NUM", "not-a-number")]);
    assert_eq!(short(&v, "NARRATOR_TEST_NUM", 7u16), 7);
    assert_eq!(num(&v, "NARRATOR_TEST_NUM", 7), 7);
}

#[test]
fn a_variable_is_read_or_left() {
    let v = vars(&[("A", "12"), ("B", ""), ("C", "no"), ("D", "70000")]);
    assert_eq!(num(&v, "A", 7), 12);
    assert_eq!(short(&v, "D", 7), 7);
    assert_eq!(config::env(&v, "A"), Some("12".to_string()));
    assert_eq!(config::env(&v, "Z"), None);
    assert!(!flag(&v, "C", true));
    assert!(flag(&v, "Z", true));
    let c = Config::from_env(&vars(&[("NARRATOR_PORT", "9000")]), false, 4);
    assert_eq!(c.port, 9000);
    let d = Config::from_env(&Vec::new(), false, 4);
    assert_eq!(d.port, 7870);
    let t = d.for_test("/root");
    assert!(t.work.starts_with("/root"), "{}", t.work);
    assert!(t.fake_tts);
}

// ------------------------------------------------------------------------- events

#[test]
fn the_wire_format_is_the_python_one() {
    let mut m = serde_json::Map::new();
    m.insert("book".to_string(), serde_json::Value::String("a.epub".to_string()));
    let data = serde_json::Value::Object(m).to_string();
    assert_eq!(
        sse("position", &data, Some(7)),
        "id: 7\nevent: position\ndata: {\"book\":\"a.epub\"}\n\n"
    );
    assert_eq!(comment("ping"), ": ping\n\n");
    assert_eq!(retry(3000), "retry: 3000\n\n");
}

#[test]
fn progress_is_coalesced_but_edges_are_not() {
    let mut bus = Bus::new(60 * SECOND);
    assert!(bus.emit_render("progress", 1, 1).is_some());
    assert!(bus.emit_render("progress", 1, 2).is_none());
    assert!(bus.emit_render("complete", 1, 3).is_some());
    assert!(bus.emit_render("packed", 1, 4).is_some());
}

#[test]
fn emitting_with_nobody_listening_costs_nothing() {
    let mut bus = Bus::new(0);
    assert!(bus.emit(0).is_none());
}

#[test]
fn every_event_has_a_number_of_its_own() {
    let mut bus = Bus::new(0);
    let a = bus.emit(1).expect("sent");
    let b = bus.emit(1).expect("sent");
    assert!(b > a);
    assert!(lagged(3).contains('3'));
    assert!(sse("x", "1", None).starts_with("event: x\n"));
}

// ------------------------------------------------------------------------ waiting

#[test]
fn a_gate_wakes_a_waiter() {
    let mut g = Gate::new();
    assert_eq!(g.wait(0, 5 * SECOND), Waiting::Sleep(5 * SECOND));
    g.set();
    assert_eq!(g.wait(20 * MS, 5 * SECOND), Waiting::Done(true));
}

#[test]
fn a_gate_times_out_without_blocking_forever() {
    let g = Gate::new();
    assert_eq!(g.wait(0, 10 * MS), Waiting::Sleep(10 * MS));
    assert_eq!(g.wait(10 * MS, 10 * MS), Waiting::Done(false));
}

#[test]
fn the_gate_is_clear_until_something_claims_it() {
    let mut g = SttGate::new();
    assert!(!g.held());
    assert_eq!(g.wait_clear(0, MS), Waiting::Done(true), "nothing to wait for");
    let a = g.enter();
    assert!(g.held());
    // A second memo queued behind the first keeps it held, so the renderer does
    // not wake up in the gap between them.
    let b = g.enter();
    assert!(g.held());
    assert_eq!(g.wait_clear(20 * MS, 20 * MS), Waiting::Done(false), "still busy");
    g.leave(b);
    assert!(g.held());
    g.leave(a);
    assert!(!g.held(), "both have let go");
    assert_eq!(g.wait_clear(0, MS), Waiting::Done(true));
}

#[test]
fn stamps_only_rise() {
    let mut t = Stamps::new();
    let a = t.next_seq();
    t.seed_seq(100);
    let b = t.next_seq();
    assert!(b > a && b > 100 || b == 100 && a < 100);
    t.seed_seq(5);
    assert!(t.next_seq() > b);
    let mut stall = Stall::new();
    assert_eq!(stall.stalled_for(9), 0);
    stall.set_stalled(true, 10);
    stall.set_stalled(true, 15);
    assert_eq!(stall.stalled_for(30), 20);
    stall.set_stalled(false, 31);
    assert_eq!(stall.stalled_for(40), 0);
}

#[test]
fn a_bare_model_name_resolves_under_the_models_dir() {
    let m = "/models";
    assert_eq!(
        model_path("large-v3-turbo-q5_0", m),
        "/models/whisper/ggml-large-v3-turbo-q5_0.bin"
    );
    assert_eq!(model_path("small", m), "/models/whisper/ggml-small.bin");
    assert_eq!(model_path("/opt/w/ggml-tiny.bin", m), "/opt/w/ggml-tiny.bin");
}

#[test]
fn a_recording_that_will_not_decode_says_why() {
    assert!(matches!(
        decoded("ffmpeg", DECODE_TIMEOUT_S, &Decoder::NotRun("gone".to_string())),
        Err(SttError::Decode(_))
    ));
    match decoded("ffmpeg", 3, &Decoder::TimedOut) {
        Err(SttError::Decode(m)) => assert!(m.contains("killed"), "{m}"),
        other => panic!("{other:?}"),
    }
    assert!(decoded("ffmpeg", 3, &Decoder::Failed("bad".to_string())).is_err());
    assert_eq!(decoded("ffmpeg", 3, &Decoder::Wrote(3200)), Ok(800));
    assert!(decode_args("/m.webm").contains(&"/m.webm".to_string()));
    assert!(matches!(missing_model("/m.bin"), SttError::Unavailable(_)));
    let t = transcript(&s(&[" one ", "two"]), Some("en"));
    assert_eq!((t.text.as_str(), t.language.as_str()), ("one two", "en"));
}

// ---------------------------------------------------------------------- the engine

#[test]
fn a_failed_load_is_retried_and_heals() {
    let mut e = Engine::new(false);
    assert!(e.load_failure().is_none(), "nothing tried yet is not a failure");
    e.retry_every = 50 * MS;
    let tries = Cell::new(0);
    let fail = || {
        tries.set(tries.get() + 1);
        Err("model not there yet".to_string())
    };
    assert!(!e.load_via(0, fail));
    assert_eq!(e.load_failure().as_deref(), Some("model not there yet"));
    // Inside the floor, nobody tries again.
    assert!(!e.load_via(10 * MS, fail));
    assert_eq!(tries.get(), 1);
    // Past it, the load is attempted again, and this time it works.
    assert!(e.load_via(60 * MS, || Ok(())));
    assert!(e.ready());
    assert!(e.load_failure().is_none());
    assert!(e.error().is_none(), "a healed engine has no error to report");
}

#[test]
fn the_fake_never_reports_a_load_failure() {
    let e = Engine::new(true);
    assert!(e.load_failure().is_none());
}

#[test]
fn what_is_not_loaded_cannot_speak() {
    let mut e = Engine::new(false);
    assert!(!e.load_via(0, || Err("no weights".to_string())));
    assert!(matches!(e.unavailable(), TtsError::Model(_)));
}

#[test]
fn failures_are_put_in_words() {
    assert_eq!(TtsError::Model("x".to_string()).message(), "kokoro model: x");
    assert_eq!(
        TtsError::Voice("v".to_string(), "x".to_string()).message(),
        "voice v: x"
    );
    assert_eq!(TtsError::Espeak("x".to_string()).message(), "espeak-ng: x");
    assert_eq!(TtsError::Infer("x".to_string()).message(), "inference: x");
    assert_eq!(BookError::NotEpub("x".to_string()).message(), "not an epub: x");
    assert_eq!(BookError::Epub("x".to_string()).message(), "epub: x");
    assert!(PackError::Ffmpeg("boom".to_string()).message().contains("boom"));
    assert!(!SttError::Failed("x".to_string()).message().is_empty());
}

#[test]
fn a_voice_asks_for_words_and_keeps_the_marks() {
    let q = questions("Hello, world.");
    assert_eq!(asks("Hello, world."), s(&["Hello", " world"]));
    let ipas: Vec<String> = q.iter().map(|_| "a".to_string()).collect();
    let said = assemble(&q, &ipas);
    assert!(said.contains(',') && said.ends_with('.'), "{said}");
    assert_eq!(answer(true, "exit 0", " həlˈO \n", ""), Ok("həlˈO".to_string()));
    assert!(answer(false, "exit 1", "", "boom").is_err());
    let p = Phonemizer::new("en-us", &Vec::new(), None);
    assert!(p.arguments("hi").contains(&"en-us".to_string()));
    assert_eq!(after_look(Look::Ended, 1, 10, 250), Wait::Take);
    assert_eq!(after_look(Look::Running, 10, 10, 250), Wait::Kill);
    assert!(matches!(after_look(Look::Running, 0, 1_000_000, 250), Wait::Nap { .. }));
}

/// What would be asked of the voice for a text.
fn asks(text: &str) -> Vec<String> {
    questions(text)
        .iter()
        .filter_map(|p| match p {
            Piece::Say { ask, .. } => ask.clone(),
            Piece::Mark(_) => None,
        })
        .collect()
}

#[test]
fn a_number_is_asked_for_whole() {
    assert_eq!(asks("1,000"), s(&["1,000"]));
    assert_eq!(asks("1.8"), s(&["1.8"]));
    // A stressed pronoun keeps its stress at the head of a sentence.
    assert!(asks("I think it is fine.")[0].starts_with("[["));
    // A reduced vowel reaches the model as a symbol of its own.
    let before = map_ipa("b\u{1D7B}f\u{2C8}o\u{2D0}\u{279}");
    assert!(before.contains('\u{1D7B}'), "{before}");
    assert_eq!(tokenize(&before).len(), before.chars().count(), "{before} lost a symbol");
    // A mark does not glue the words either side of it together.
    let q = questions("hello there, judge.");
    let said = assemble(&q, &q.iter().map(|_| "ba".to_string()).collect());
    assert_eq!(said, "ba, ba.");
}

#[test]
fn a_model_is_given_tokens_between_pads() {
    let (tokens, style) = model_input("ab").expect("tokens");
    assert_eq!(tokens.first(), Some(&0));
    assert_eq!(tokens.last(), Some(&0));
    assert_eq!(tokens.len(), style + 2);
    assert_eq!(model_input("\u{4e00}"), None);
    assert!(is_voice_size(VOICE_BYTES));
    assert!(!is_voice_size(VOICE_BYTES - 1));
    assert_eq!(fnv1a(""), 0xcbf2_9ce4_8422_2325);
    assert_eq!(fnv1a("a"), 0xaf74d84c8601ec8c);
}

// ------------------------------------------------------------------- the renderer

#[test]
fn the_chunk_under_the_reader_comes_first() {
    let plan = book(&[5, 5, 5]);
    let none = |_: &str, _: usize, _: usize| false;
    let at = Place { chapter: 0, playhead: 2, hint: 2, lookahead: 3, span: 1 };
    assert_eq!(
        next_task("K", &plan, at, &none, || None, || None),
        Task::Playhead(2)
    );
    // With that one there, what the reader asked for, then what may come.
    let first = |_: &str, c: usize, i: usize| c == 0 && i == 2;
    assert_eq!(
        next_task("K", &plan, at, &first, || None, || None),
        Task::Lookahead(3)
    );
    let chapter = |_: &str, c: usize, _: usize| c == 0;
    assert_eq!(
        next_task("K", &plan, at, &chapter, || Some((2, 1)), || None),
        Task::Queued(2, 1)
    );
    assert_eq!(
        next_task("K", &plan, at, &chapter, || None, || None),
        Task::Ahead(1, 0)
    );
    let t = Target { key: "L".to_string(), chapter: 0, chunk: 0 };
    assert_eq!(
        next_task("K", &plan, at, &chapter, || None, || Some(t.clone())),
        Task::Elsewhere(t)
    );
    let all = |_: &str, _: usize, _: usize| true;
    assert_eq!(next_task("K", &plan, at, &all, || None, || None), Task::Spare);
    assert_eq!(first_missing("K", 0, 0, 5, &first), Some(0));
    assert_eq!(first_missing("K", 0, 0, 5, &all), None);
    assert_eq!(first_hole("K", &plan, 0, 3, &chapter), Some((1, 0)));
}

#[test]
fn a_queue_ends_where_the_disk_says() {
    let plan = book(&[2, 2]);
    let zero = |_: &str, c: usize, _: usize| c == 0;
    let p = next_queued("K", &plan, &vec![0, 7, 1], &zero);
    assert_eq!(p.target, Some((1, 0)));
    assert_eq!(
        p.left,
        vec![
            Leaving { chapter: 0, complete: Some(2) },
            Leaving { chapter: 7, complete: None },
        ]
    );
}

#[test]
fn an_order_for_another_book_ends_on_the_disk() {
    let orders = vec![Orders {
        key: "L".to_string(),
        items: vec![
            Order { chapter: 0, parked: false, pack: true },
            Order { chapter: 1, parked: false, pack: false },
        ],
    }];
    let plans = |_: &str| Some(Arc::new(book(&[2, 2])));
    let zero = |_: &str, c: usize, _: usize| c == 0;
    let p = next_elsewhere("K", &orders, &plans, &zero);
    assert_eq!(p.target, Some(Target { key: "L".to_string(), chapter: 1, chunk: 0 }));
    assert_eq!(p.retired.len(), 1);
    assert!(p.retired[0].pack && p.retired[0].chapter == 0);
    assert_eq!(retire(true, false), Retire::Pack);
    assert_eq!(retire(true, true), Retire::Drop);
    assert_eq!(retire(false, false), Retire::Drop);
    let here = vec![Orders { key: "K".to_string(), items: orders[0].items.clone() }];
    assert_eq!(next_elsewhere("K", &here, &plans, &zero).target, None);
}

#[test]
fn spare_time_goes_to_the_book_at_hand_first() {
    let plan = book(&[2, 2]);
    let none = |_: &str, _: usize, _: usize| false;
    let books = vec![book_row("K", Some(2)), book_row("L", Some(1))];
    let plans = |_: &str| Some(Arc::new(book(&[1])));
    let start = |_: &str| 0u64;
    assert_eq!(
        next_idle("K", &plan, 1, &books, &plans, &start, &none),
        Some(Target { key: "K".to_string(), chapter: 1, chunk: 0 })
    );
    let here = |k: &str, _: usize, _: usize| k == "K";
    assert_eq!(
        next_idle("K", &plan, 1, &books, &plans, &start, &here),
        Some(Target { key: "L".to_string(), chapter: 0, chunk: 0 })
    );
    assert_eq!(resume_chapter(Some(3), Some(5)), 3);
    assert_eq!(resume_chapter(None, Some(5)), 5);
    assert_eq!(resume_chapter(None, None), 0);
    assert!(!room_to_speculate(false, None, 0));
    assert!(room_to_speculate(true, None, 5));
    assert!(!room_to_speculate(true, Some(5), 5));
    let mut i = Idling::new();
    assert!(i.measure(0));
    assert!(!i.measure(1));
    assert_eq!(i.next(0, "K", 0, 0, true), Spare::Look);
    i.found(false, 0, "K", 0, 0);
    assert_eq!(i.next(1, "K", 0, 0, true), Spare::Rest);
    assert_eq!(i.next(2, "K", 0, 1, true), Spare::Look);
    assert!(matches!(i.next(3, "K", 0, 1, false), Spare::Full(true)));
    assert!(matches!(i.next(4, "K", 0, 1, false), Spare::Full(false)));
}

#[test]
fn a_failing_voice_is_asked_less_and_less() {
    let mut b = Backoff::new();
    assert!(b.ready(0));
    b.record(false, 0);
    assert!(!b.ready(0));
    for _ in 0..40 {
        b.record(false, 0);
    }
    assert!(b.ready(BACKOFF_MAX));
    b.record(true, 1);
    assert!(b.ready(1));
}

#[test]
fn what_a_chunk_takes_and_what_is_said_of_it() {
    let p = book(&[10]);
    assert_eq!(render_step(&p[0].chunks, 0, true), RenderStep::There);
    assert_eq!(render_step(&p[0].chunks, 10, false), RenderStep::NoChunk);
    assert_eq!(render_step(&p[0].chunks, 9, false), RenderStep::Silence);
    assert_eq!(render_step(&p[0].chunks, 0, false), RenderStep::Speak);
    let e = render_event(&Task::Lookahead(9), 4, 10, 10).expect("an event");
    assert!(e.complete && e.chapter == 4 && e.status == "rendering" && e.key.is_none());
    let e = render_event(&Task::Queued(7, 2), 4, 0, 10).expect("an event");
    assert_eq!((e.chapter, e.render_idx, e.status.as_str()), (7, 3, "queued"));
    assert!(render_event(&Task::Spare, 4, 0, 10).is_none());
    assert!(is_behind(&Task::Playhead(0)) && !is_behind(&Task::Ahead(0, 0)));
    let mut a = Ahead::new();
    let swept: Vec<bool> = (0..25).map(|_| a.count(&Task::Ahead(0, 0))).collect();
    assert_eq!(swept.iter().filter(|x| **x).count(), 1);
    assert!(swept[24]);
    assert!(!a.count(&Task::Playhead(0)));
    let mut st = loaded(&[3]);
    st.begin(&Task::Queued(2, 0));
    assert_eq!((st.status.as_str(), st.prerender), ("queued", Some(2)));
    st.begin(&Task::Playhead(0));
    assert_eq!((st.status.as_str(), st.prerender), ("rendering", Some(2)));
    st.idle(&None);
    assert_eq!((st.status.as_str(), st.prerender), ("ready", None));
}

#[test]
fn a_program_is_called_for_one_thing() {
    assert_eq!(command(&s(&[])), Command::Serve);
    assert_eq!(command(&s(&["export", "--book"])), Command::Export);
    assert_eq!(command(&s(&["migrate"])), Command::Migrate);
    assert_eq!(command(&s(&["retrim"])), Command::Retrim);
    assert_eq!(command(&s(&["x", "--healthcheck"])), Command::Healthcheck);
    assert_eq!(command(&s(&["export", "--openapi"])), Command::OpenApi);
}

// -------------------------------------------------------------------- the packer

#[test]
fn a_job_is_taken_and_ended_once() {
    let mut st = loaded(&[2, 2]);
    st.enqueue_build(1);
    st.enqueue_build(1);
    assert_eq!(st.pack_queue, vec![1]);
    st.enqueue_build_elsewhere("L", 3);
    let first = st.next_job();
    assert_eq!(first, Job::Loaded("K".to_string(), 1));
    assert_eq!(st.building, Some(1));
    let done = st.finish_job("K", 1, None);
    assert!(done.loaded);
    assert_eq!(done.keep.as_deref(), Some("K/ch000"), "the chapter being read is spared");
    assert_eq!(st.building, None);
    assert_eq!(st.next_job(), Job::Elsewhere("L".to_string(), 3));
    st.start_elsewhere("L", 3);
    assert_eq!(st.packing, Some(("L".to_string(), 3)));
    let ended = st.finish_job("L", 3, Some("boom".to_string()));
    assert!(!ended.loaded);
    assert_eq!(st.packing, None);
    assert_eq!(pack_outcome(1, true, Ok(5)), Ok(5));
    assert!(pack_outcome(1, false, Ok(5)).is_err());
}

#[test]
fn the_packer_stands_aside_but_not_forever() {
    assert_eq!(packer_turn(false, 0, true), Turn::Park);
    assert_eq!(packer_turn(true, 1, true), Turn::Hold);
    assert_eq!(packer_turn(true, PACK_HOLD_MAX, true), Turn::Work);
    assert_eq!(packer_turn(true, 0, true), Turn::Work);
    let mut w = Standing::new();
    assert!(w.enter(5));
    assert!(!w.enter(6));
    assert_eq!(w.leave(9), Some(4));
    assert_eq!(w.leave(9), None);
    assert_eq!(worker_turn(true, true, true, true, true), WorkerTurn::Stop);
    assert_eq!(worker_turn(false, false, true, true, true), WorkerTurn::Again);
    assert_eq!(worker_turn(false, true, false, true, true), WorkerTurn::Park);
    assert_eq!(worker_turn(false, true, true, false, true), WorkerTurn::NoBook);
    assert_eq!(worker_turn(false, true, true, true, false), WorkerTurn::BackOff);
    assert_eq!(worker_turn(false, true, true, true, true), WorkerTurn::Look);
    assert_eq!(after_chunk(3, 3).0, true);
    assert_eq!(after_chunk(1, 3).0, false);
}

#[test]
fn a_whole_chapter_is_packed_unasked() {
    let st = loaded(&[2, 2]);
    let all = |_: &str, _: usize, _: usize| true;
    let none = |_: &str, _: usize, _: usize| false;
    assert_eq!(autopack(&st, &|c: usize| c == 0, &all), Some(1));
    assert_eq!(autopack(&st, &|_: usize| false, &none), None);
    assert!(!autopack_due(false, true, None, 0, 10));
    assert!(autopack_due(true, true, Some(0), 1, 10));
    assert!(!autopack_due(true, false, Some(0), 9, 10));
    assert!(autopack_due(true, false, Some(0), 10, 10));
}

#[test]
fn a_few_plans_are_held() {
    let mut p = Plans::new();
    for i in 0..PLANS_HELD + 1 {
        p.keep(&format!("k{i}"), Some(1), 5, Arc::new(book(&[1])));
    }
    assert!(p.get("k8", Some(1), 5).is_some());
    assert!(p.get("k8", Some(2), 5).is_none(), "the file has changed");
    assert!(p.get("k8", Some(1), 6).is_none());
    assert!(p.held.len() <= PLANS_HELD);
    p.keep("other", None, 7, Arc::new(book(&[3, 3])));
    assert_eq!(p.get("k8", Some(1), 5).map(|b| b.len()), Some(1), "the others are as they were");
    p.keep("k8", Some(2), 5, Arc::new(book(&[1, 1])));
    assert!(p.get("k8", Some(1), 5).is_none());
    assert_eq!(p.get("other", None, 7).map(|b| b.len()), Some(2));
}

// ------------------------------------------------------------------------ sessions

#[test]
fn a_book_is_loaded_from_its_beginning() {
    let mut st = loaded(&[3, 3]);
    assert_eq!(st.key(), Some("K".to_string()));
    assert_eq!(st.book_name(), Some("K.epub".to_string()));
    assert_eq!((st.chapter, st.playhead, st.render_idx), (0, 0, 0));
    st.open(&OpenBody { chapter: 1, chunk: 2, book: None });
    assert_eq!((st.chapter, st.playhead, st.render_idx), (1, 2, 2));
    st.play(&PlayheadBody { chunk: 1, book: None });
    assert_eq!(st.playhead, 1);
    assert_eq!(wrong_book(&st, Some("K")), None);
    assert_eq!(wrong_book(&st, Some("")), None);
    assert_eq!(
        wrong_book(&st, Some("Other")).map(|e| e.error),
        Some("the session holds K, not Other".to_string())
    );
    assert_eq!(wrong_book(&st, None), None);
    let mut run = Gate::new();
    st.resume(&mut run);
    assert!(run.is_set());
    assert!(st.pause(&mut run, true).still_rendering);
    assert!(!st.pause(&mut run, false).still_rendering);
    assert!(!run.is_set());
    assert!(renderer(&mut run, &RendererBody { on: true }).rendering);
    assert!(yes());
    assert_eq!(Session::new().key_or_x(), "x");
}

#[test]
fn a_restart_lands_where_the_reader_was() {
    let mut st = Session::new();
    st.restore("/books/K.epub", Arc::new(book(&[3, 3])), Some((1, 2)));
    assert_eq!((st.chapter, st.playhead), (1, 2));
    st.restore("/books/K.epub", Arc::new(book(&[3, 3])), Some((9, 9)));
    assert!(st.chapter < 2);
    let mut step = boot(None);
    let mut seen = vec![step];
    while step != BootStep::Serve {
        step = boot(Some(step));
        seen.push(step);
    }
    assert_eq!(
        seen,
        vec![
            BootStep::Stamps,
            BootStep::Prerender,
            BootStep::Session,
            BootStep::Queue,
            BootStep::Scanner,
            BootStep::Serve
        ]
    );
}

#[test]
fn a_report_keeps_what_it_does_not_name() {
    let body = PositionBody {
        book: "K.epub".to_string(),
        chapter: Some(2),
        chunk: Some(5),
        chapter_title: None,
        chunks_total: None,
        chapters_total: None,
    };
    let was = Noted {
        chapter: Some(1),
        chunk: Some(1),
        chapter_title: Some("Old".to_string()),
        chunks_total: Some(40),
        chapters_total: Some(12),
    };
    let (book, p) = position(&body, &was, "now").expect("a position");
    assert_eq!(book, "K.epub");
    assert_eq!((p.chapter, p.chunk, p.chunks_total), (2, 5, 40));
    let mut none = body.clone();
    none.book = "  ".to_string();
    assert!(position(&none, &was, "now").is_err());
    let mut st = Store::new();
    let dev = Device { id: "d".to_string(), name: "Phone".to_string() };
    record_position(&mut st, "K", &p, &dev, 7, 8);
    assert_eq!(st.position("K", "d").map(|r| (r.chapter, r.chunk)), Some((2, 5)));
    assert_eq!(st.furthest("K", "d").map(|r| (r.chapter, r.chunk)), Some((2, 5)));
    assert!(position_due(true, Some(0), 1));
    assert!(!position_due(false, Some(0), 1));
    assert!(position_due(false, Some(0), POSITION_EVERY));
    let (name, here) = session_position(&loaded(&[3]), "now").expect("a position");
    assert_eq!((name.as_str(), here.chapters_total, here.chunks_total), ("K.epub", 1, 3));
    assert!(session_position(&Session::new(), "now").is_none());
}

#[test]
fn a_loaded_book_is_on_the_shelf() {
    let mut st = Session::new();
    let l = st.load("/books/K.epub", Arc::new(book(&[2])));
    let mut store = Store::new();
    register_loaded(&mut store, &l, "/books/K.epub", 1, &vec![index_row(0, 2, 0, false)], 5);
    assert_eq!(store.book("K").map(|b| (b.chapters, b.last_open_ms)), Some((1, Some(5))));
    assert_eq!(store.chapter_index("K").len(), 1);
    assert_eq!(chunk_size(&LoadBody { path: "x".to_string(), max_chars: None }), DEFAULT_MAX_CHARS);
    assert_eq!(after_load(true, true, true, true).1, false);
    assert!(matches!(plan_for(None, || Err("bad".to_string())), Err(_)));
    assert!(plan_for(Some(book(&[1])), || Err("bad".to_string())).is_ok());
    match chapter_words(&st, None, 0) {
        Words::Loaded(t) => assert_eq!(t.chunks.len(), 2),
        _ => panic!("the loaded book has its words"),
    }
    assert!(matches!(chapter_words(&st, Some("Other"), 0), Words::Bundle(_)));
    assert!(matches!(chapter_words(&st, None, 9), Words::Missing));
    let found = books(&vec![s(&["/b/B.epub", "/b/A.epub"]), s(&["/vault/A.epub"])]);
    let names: Vec<&str> = found.iter().map(|f| f.name.as_str()).collect();
    assert_eq!(names, vec!["A.epub", "B.epub"]);
}

// ------------------------------------------------------------------------ chapters

fn set(chapters: &[i64]) -> ChapterSetBody {
    ChapterSetBody { chapters: Some(chapters.to_vec()), pack: None, force: None, book: None }
}

#[test]
fn only_chapters_of_the_book_are_wanted() {
    assert_eq!(wanted(&set(&[2, -1, 0, 2, 9]), 3), vec![2, 0]);
    assert!(wanted(&ChapterSetBody { chapters: None, pack: None, force: None, book: None }, 3).is_empty());
    assert_eq!(asked(&set(&[2, 9])), vec![2, 9]);
}

#[test]
fn a_chapter_is_rendered_and_packed_on_request() {
    let rows = vec![index_row(0, 2, 2, false), index_row(1, 2, 0, false), index_row(2, 2, 2, true)];
    let mut st = loaded(&[2, 2, 2]);
    let r = queue_chapters(&mut st, &rows, &set(&[1, 0])).expect("queued");
    assert!(r.ok);
    assert_eq!(r.queue, vec![1, 0]);
    let mut st = loaded(&[2, 2, 2]);
    let mut packed = set(&[1, 0]);
    packed.pack = Some(true);
    let r = queue_chapters(&mut st, &rows, &packed).expect("queued");
    assert_eq!((r.queue, r.packing), (vec![1], vec![0]), "what is whole is packed at once");
    let mut st = loaded(&[2, 2, 2]);
    let b = build_chapters(&mut st, &rows, &set(&[0, 1, 2])).expect("built");
    assert_eq!(b.building, vec![0]);
    assert_eq!(b.built, vec![2]);
    assert_eq!(b.rendering, vec![1]);
    let why: Vec<(usize, &str, usize, usize)> =
        b.refused.iter().map(|r| (r.chapter, r.reason.as_str(), r.rendered, r.n)).collect();
    assert_eq!(why, vec![(1, "not_rendered", 0, 2)]);
    let out = build_chapters(&mut loaded(&[2, 2, 2]), &rows, &set(&[-4, 9])).expect("built");
    assert!(out.refused.iter().all(|r| r.reason == "out_of_range"));
    assert_eq!(out.refused.len(), 2);
    let (c, dropped) = cancel_chapters(&mut st, &set(&[0, 1]));
    assert!(c.ok && !st.pack_queue.contains(&0) && !st.queue.contains(&1));
    assert_eq!(dropped, Some(vec![0, 1]));
    assert!(queue_chapters(&mut Session::new(), &Vec::new(), &set(&[0])).is_err());
}

#[test]
fn another_book_is_ordered_through_the_store() {
    let mut store = Store::new();
    let mut st = loaded(&[2]);
    let plan = book(&[2, 2]);
    let r = order_elsewhere(&mut store, &mut st, "L", &plan, &set(&[1, 0]), "d", false, 5, &|c: usize| c == 0, &|_| false)
        .expect("ordered");
    assert!(r.ok);
    assert!(store.intents("L").iter().any(|i| i.chapter == 1));
    cancel_elsewhere(&mut store, &mut st, "L", Some(2), &set(&[0, 1]));
    assert!(store.intents("L").is_empty());
}

#[test]
fn a_list_is_a_window() {
    let rows: Vec<ChapterIndexRow> = (0..5).map(|i| index_row(i, 2, 0, false)).collect();
    let mut st = loaded(&[2, 2, 2, 2, 2]);
    st.queue = vec![2];
    let q = ChaptersQuery { from: Some(1), to: Some(3), book: None };
    let l = chapters_list(&rows, &st, &vec![3], &q);
    assert_eq!((l.from, l.to, l.total), (1, 3, 5));
    let shown: Vec<(usize, bool, bool)> =
        l.chapters.iter().map(|c| (c.row.chapter, c.queued, c.parked)).collect();
    assert_eq!(shown, vec![(1, false, false), (2, true, false), (3, false, true)]);
    assert!(look_serves(Some((0, "K")), "K", LOOK_GOOD_FOR - 1));
    assert!(!look_serves(Some((0, "K")), "L", 1));
    assert!(!look_serves(None, "K", 1));
}

#[test]
fn a_shelf_is_counted() {
    let rows = vec![index_row(0, 3, 3, true), index_row(1, 2, 1, false)];
    let t = totals(&rows);
    assert_eq!((t.rendered_chapters, t.packed_chapters, t.packed_bytes), (1, 1, 1000));
    assert_eq!((t.total_chunks, t.rendered_chunks, t.oldest_ms), (5, 4, Some(40)));
    let all = collect(&vec![book_row("A", None), book_row("B", None)], &vec![rows, Vec::new()], Some("B"));
    assert_eq!(all.books.len(), 2);
    assert!(all.books.iter().any(|b| b.loaded && b.book.key == "B"));
    let q = LibraryQuery { book: Some("../A".to_string()), chapters: Some(true) };
    assert_eq!(q.wanted(), (Some("A".to_string()), true));
}

#[test]
fn what_is_kept_is_what_is_wanted() {
    let mut st = loaded(&[1, 1, 1, 1]);
    st.chapter = 1;
    let keep = st.gc_keep("/w", 1);
    assert!(keep.contains(&"/w/audio/K/ch001".to_string()));
    assert!(keep.contains(&"/w/audio/K/ch002".to_string()));
    assert!(!keep.contains(&"/w/audio/K/ch003".to_string()));
    let orders = vec![Orders {
        key: "L".to_string(),
        items: vec![Order { chapter: 4, parked: false, pack: false }],
    }];
    assert!(gc_keep(&st, "/w", 1, &orders).contains(&"/w/audio/L/ch004".to_string()));
}

#[test]
fn health_names_what_is_wrong() {
    let mut f = Facts {
        status: "ready".to_string(),
        error: None,
        run: true,
        want: true,
        render_alive: true,
        overdue: false,
        since_s: 0,
        work_error: None,
        positions_dir: "/p".to_string(),
        positions_error: None,
    };
    assert!(problems(&f).is_empty());
    f.render_alive = false;
    f.work_error = Some("read-only".to_string());
    assert_eq!(problems(&f).len(), 2);
    assert_eq!(health_status(0), 200);
    assert_eq!(health_status(2), 503);
    assert_eq!(threads(true, false).len(), 1);
    assert!(!wants_rendering(&Session::new()));
    assert!(is_healthy(b"HTTP/1.1 200 OK\r\n"));
    assert!(!is_healthy(b"HTTP/1.1 503 No\r\n"));
    assert!(!is_healthy(b"HTTP/1.1"));
}

fn intent(book: &str, chapter: usize, tries: u32, pack: bool) -> IntentRow {
    IntentRow {
        book: book.to_string(),
        chapter,
        device: "d".to_string(),
        pack,
        seq: 1,
        tries,
        created_ms: 0,
    }
}

#[test]
fn orders_stand_book_by_book_and_come_back() {
    let rows = vec![
        intent("b", 3, 0, true),
        intent("a", 1, MAX_ATTEMPTS, false),
        intent("b", 0, 2, false),
        intent("a", 0, 0, false),
        intent("b", 9, 0, true),
    ];
    let all = all_outstanding(&rows);
    let keys: Vec<&str> = all.iter().map(|o| o.key.as_str()).collect();
    assert_eq!(keys, vec!["b", "a"]);
    assert_eq!(
        all[0].items,
        vec![
            Order { chapter: 3, parked: false, pack: true },
            Order { chapter: 0, parked: false, pack: false },
            Order { chapter: 9, parked: false, pack: true },
        ]
    );
    assert_eq!(outstanding(&rows, "b"), all[0].items);
    assert_eq!(outstanding(&rows, "a"), all[1].items);
    assert!(outstanding(&rows, "c").is_empty());
    assert_eq!(parked(&all[1].items), vec![1]);
    assert!(parked(&all[0].items).is_empty());

    let mut l = Session::new();
    l.plan = Arc::new(book(&[2, 2, 2, 2]));
    l.queue = vec![0];
    assert_eq!(l.adopt(&all[0].items), vec![3, 0]);
    assert_eq!(l.queue, vec![0, 3]);
    assert!(l.build_want.contains(&3) && !l.build_want.contains(&0) && !l.build_want.contains(&9));
    assert_eq!(l.adopt(&all[1].items), vec![0]);
    assert_eq!(l.queue, vec![0, 3]);
}

#[test]
fn a_build_elsewhere_answers_for_every_chapter() {
    let mut store = Store::new();
    let mut st = loaded(&[2]);
    let rows = vec![
        index_row(0, 2, 2, true),
        index_row(1, 2, 2, false),
        index_row(2, 2, 1, false),
        index_row(3, 0, 0, false),
    ];
    let body = set(&[0, 1, 2, 3, 9]);
    let r = build_elsewhere(&mut store, &mut st, "L", 4, &rows, &body, "d", 5).expect("ordered");
    assert_eq!((r.built, r.building, r.rendering), (vec![0], vec![1], vec![2]));
    let why: Vec<(usize, &str, usize, usize)> =
        r.refused.iter().map(|x| (x.chapter, x.reason.as_str(), x.rendered, x.n)).collect();
    assert_eq!(why, vec![(9, "out_of_range", 0, 0), (2, "not_rendered", 1, 2), (3, "no_chunks", 0, 0)]);
    assert_eq!(st.pack_elsewhere, vec![("L".to_string(), 1)]);
    assert!(st.pack_queue.is_empty() && st.queue.is_empty());
    let ordered: Vec<(usize, bool)> = store.intents("L").iter().map(|i| (i.chapter, i.pack)).collect();
    assert_eq!(ordered, vec![(0, true), (1, true), (2, true), (3, true)]);

    let forced = ChapterSetBody { force: Some(true), ..set(&[0]) };
    let r = build_elsewhere(&mut store, &mut st, "L", 4, &rows, &forced, "d", 5).expect("ordered");
    assert_eq!(r.building, vec![0]);
    let e = build_elsewhere(&mut store, &mut st, "L", 4, &rows, &set(&[9]), "d", 5);
    assert_eq!(e.err().map(|e| e.error), Some("no chapters in range for that book".to_string()));
}

#[test]
fn a_thread_is_started_once_and_again_when_it_ended() {
    let mut t = Thread::new();
    assert!(t.ensure());
    assert!(!t.ensure());
    assert!(!t.turned(worker_turn(false, true, true, true, true)));
    assert!(t.started);
    assert!(t.turned(worker_turn(true, true, true, true, true)));
    assert!(t.ensure());
}
