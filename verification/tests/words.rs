//! The words of a book: the bundle, the kept plan, the export and the migration.

use narrator::book::{Chapter, Chunk};
use narrator::chapters::concat_line;
use narrator::export;
use narrator::export::{
    choose_title, collect, cover_ext, encode_args, epub_entry, ffmeta_escape, first_wav, join_list, metadata,
    refusal, safe_name, writes_number, ExportArgs, ExportError, Mark, Piece,
};
use narrator::library::{
    adopt, cached_keys, epub_for, is_epub, look_at, scan_book, scan_order, scanner_turn, strangers, usable_plan,
    CacheEntry, ScanReport, ScanTurn, Seen, HOLD_MAX, SLICE,
};
use narrator::migrate;
use narrator::migrate::{
    apply_position_fixes, apply_step, book_line, chunks_total_after, diff_chapters, first_stage, fix_line, is_source, next_stage,
    position_fixes, wants_help, ApplyStep, BookPlan, PositionFix, Stage, StoredPosition, TrimCounts,
};
use narrator::plancache::{load, stamp, stamp_path, still_holds, FORMAT};
use narrator::text::{
    after_aside, after_build, after_move_in, build_shards, chapter_from_bundle, gz_path, index_entries, is_leftover,
    json_and_gz, note_chapter, shard_file, shard_for, text_dir, text_shard, Aside, BookIndex, ShardChapter, Swap,
    TextShard,
};
use std::collections::BTreeMap;
use std::io::Read;

fn s(v: &[&str]) -> Vec<String> {
    v.iter().map(|t| t.to_string()).collect()
}

// ------------------------------------------------------------------- the bundle

fn plan(n_chapters: usize, chunks_each: usize, chars: usize) -> Vec<Chapter> {
    (0..n_chapters)
        .map(|i| Chapter {
            index: i,
            id: format!("c{i}.xhtml"),
            title: String::new(),
            chunks: (0..chunks_each)
                .map(|j| Chunk { text: "x".repeat(chars), para: j, silent: false })
                .collect(),
        })
        .collect()
}

/// The bundle of a plan, as it would be written.
fn bundle(p: &[Chapter], budget: usize, cap: usize, key: &str, name: &str, title: &str) -> (BookIndex, Vec<TextShard>) {
    let shards: Vec<Vec<ShardChapter>> = build_shards(p, budget, cap);
    let chapters = index_entries(p, &shards);
    let index = BookIndex {
        key: key.to_string(),
        name: name.to_string(),
        title: title.to_string(),
        shards: shards.len(),
        text_bytes: 0,
        chapters,
    };
    let files = shards.into_iter().enumerate().map(|(i, c)| text_shard(i, c)).collect();
    (index, files)
}

/// A chapter, read out of a bundle.
fn read(b: &(BookIndex, Vec<TextShard>), key: &str, ci: usize) -> Option<(String, Vec<usize>, Vec<String>)> {
    let si = shard_for(key, &b.0, ci)?;
    chapter_from_bundle(&b.0, &b.1[si], ci)
}

#[test]
fn shards_respect_the_byte_budget_and_the_chapter_cap() {
    let p = plan(6, 4, 100); // ~452 bytes a chapter
    let (idx, _) = bundle(&p, 500, 200, "K", "k.epub", "K");
    assert_eq!(idx.shards, 6, "one chapter per shard at this budget");
    assert_eq!(idx.chapters[3].shard, Some(3));
}

#[test]
fn the_chapter_cap_wins_when_the_budget_does_not() {
    let p = plan(5, 1, 10);
    let (idx, _) = bundle(&p, 10_000_000, 2, "K", "k.epub", "K");
    assert_eq!(idx.shards, 3);
    assert_eq!(idx.chapters[4].shard, Some(2));
}

#[test]
fn a_chapter_reads_back_out_of_its_own_shard() {
    let p = plan(5, 3, 20);
    let b = bundle(&p, 10_000_000, 2, "K", "k.epub", "K");
    let (title, paras, chunks) = read(&b, "K", 4).expect("chapter 4");
    assert_eq!(title, "Section 5");
    assert_eq!(paras, vec![0, 1, 2]);
    assert_eq!(chunks.len(), 3);
    assert!(read(&b, "K", 99).is_none());
    assert!(read(&b, "", 0).is_none());
}

#[test]
fn a_voice_memo_can_name_a_book_the_session_does_not_hold() {
    // Everything a note needs, out of the bundle, with no session and no plan in
    // memory.
    let b = bundle(&plan(5, 3, 20), 10_000_000, 2, "Other Book (2019)", "Other Book (2019).epub", "Other Book");
    let si = shard_for("Other Book (2019)", &b.0, 3).expect("a shard");
    let (title, name, ctitle, chunks) = note_chapter(&b.0, &b.1[si], 3).expect("chapter 3");
    assert_eq!(title, "Other Book");
    assert_eq!(name, "Other Book (2019).epub");
    assert_eq!(ctitle, "Section 4");
    assert_eq!(chunks, vec!["x".repeat(20); 3]);
    // A chapter that the book does not have, and no book at all.
    assert!(shard_for("Other Book (2019)", &b.0, 99).is_none());
    assert!(note_chapter(&b.0, &b.1[si], 99).is_none());
    assert!(shard_for("", &b.0, 0).is_none());
}

#[test]
fn a_rebuild_removes_stale_shards() {
    // The new bundle is put in place whole: no shard of it is one of the old.
    let old = bundle(&plan(4, 1, 10), 10_000_000, 1, "K", "k.epub", "K");
    assert_eq!(old.0.shards, 4);
    let new = bundle(&plan(2, 1, 10), 10_000_000, 1, "K", "k.epub", "K");
    assert_eq!(new.0.shards, 2);
    assert_eq!(new.1.len(), 2);
    assert_eq!(after_aside(Aside::Moved), Swap::MoveIn { had_old: true });
    assert_eq!(after_move_in(true, true), Swap::Done { drop_old: true });
}

#[test]
fn a_bundle_is_swapped_whole_or_not_at_all() {
    assert_eq!(after_build(true), Swap::StepAside);
    assert_eq!(after_build(false), Swap::Fail { restore_old: false });
    assert_eq!(after_aside(Aside::Absent), Swap::MoveIn { had_old: false });
    assert_eq!(after_aside(Aside::Failed), Swap::Fail { restore_old: false });
    assert_eq!(after_move_in(true, false), Swap::Fail { restore_old: true });
    assert_eq!(after_move_in(false, false), Swap::Fail { restore_old: false });
    assert!(is_leftover("K", ".K.building-1-2"));
    assert!(!is_leftover("K", "K"));
    assert!(!is_leftover("K", ".L.building-1-2"));
}

#[test]
fn every_written_file_has_a_deterministic_gz_beside_it() {
    let plain = "{\"a\":1}".repeat(50).into_bytes();
    let (path, raw) = json_and_gz("/t/000.json", &plain).expect("gzip");
    assert_eq!(path, "/t/000.json.gz");
    assert_eq!(path, gz_path("/t/000.json"));
    assert_ne!(raw, plain);
    let mut out = Vec::new();
    flate2::read::GzDecoder::new(&raw[..]).read_to_end(&mut out).expect("gzip");
    assert_eq!(out, plain);
    // Written again from the same input, byte for byte.
    assert_eq!(json_and_gz("/t/000.json", &plain), Some((path, raw)));
    assert_eq!(shard_file(7), "007.json");
    assert_eq!(text_dir("/w", "K"), "/w/text/K");
}

#[test]
fn every_chapter_is_in_one_shard() {
    let p = plan(7, 2, 30);
    let shards = build_shards(&p, 100, 3);
    let all: Vec<usize> = shards.iter().flatten().map(|c| c.i).collect();
    assert_eq!(all, (0..7).collect::<Vec<usize>>());
    assert!(shards.iter().all(|c| !c.is_empty() && c.len() <= 3));
}

// ------------------------------------------------------------------ the kept plan

fn kept() -> Vec<Chapter> {
    vec![Chapter {
        index: 0,
        id: "a.xhtml".into(),
        title: "A".into(),
        chunks: vec![Chunk { text: "hello".into(), para: 0, silent: false }],
    }]
}

#[test]
fn a_matching_stamp_reads_the_plan_back() {
    let st = stamp("/b.epub", 7, 1_000, 300);
    assert_eq!(load(Some(&st), &st, Some(kept())).map(|p| p.len()), Some(1));
    assert_eq!(stamp_path("/w", "B"), "/w/audio/B/parse.json");
    assert_eq!(st.format, FORMAT);
}

#[test]
fn a_changed_file_invalidates_the_plan() {
    let st = stamp("/b.epub", 7, 1_000, 300);
    let s2 = stamp("/b.epub", 24, 2_000, 300);
    assert!(load(Some(&st), &s2, Some(kept())).is_none(), "size changed");
    // And a different chunking is a different plan, whatever the file says.
    let mut s3 = st.clone();
    s3.max_chars = 200;
    assert!(load(Some(&st), &s3, Some(kept())).is_none());
}

#[test]
fn a_missing_or_corrupt_cache_is_simply_a_miss() {
    let st = stamp("/b.epub", 1, 1_000, 300);
    assert!(load(None, &st, None).is_none());
    assert!(load(None, &st, Some(kept())).is_none());
    assert!(load(Some(&st), &st, None).is_none());
}

#[test]
fn any_change_is_a_new_plan() {
    let st = stamp("/b.epub", 7, 1_000, 300);
    assert!(still_holds(Some(&st), &st));
    assert!(!still_holds(Some(&stamp("/c.epub", 7, 1_000, 300)), &st));
    assert!(!still_holds(Some(&stamp("/b.epub", 8, 1_000, 300)), &st));
    assert!(!still_holds(Some(&stamp("/b.epub", 7, 1_001, 300)), &st));
    assert!(!still_holds(Some(&stamp("/b.epub", 7, 1_000, 301)), &st));
    let mut old = st.clone();
    old.format = FORMAT - 1;
    assert!(!still_holds(Some(&old), &st));
}

// ------------------------------------------------------------------------ export

fn book(chapters: &[(&str, usize)]) -> Vec<Chapter> {
    chapters
        .iter()
        .enumerate()
        .map(|(i, (title, n))| Chapter {
            index: i,
            id: format!("c{i}.xhtml"),
            title: (*title).to_string(),
            // Two chunks to a paragraph, so both gap widths occur.
            chunks: (0..*n)
                .map(|k| Chunk { text: format!("Sentence {k}."), para: k / 2, silent: false })
                .collect(),
        })
        .collect()
}

#[test]
fn metadata_and_paths_are_escaped_the_way_ffmpeg_reads_them() {
    assert_eq!(ffmeta_escape("A = B; #1"), "A \\= B\\; \\#1");
    assert_eq!(ffmeta_escape("back\\slash"), "back\\\\slash");
    assert_eq!(concat_line("/a/it's here.wav"), "file '/a/it'\\''s here.wav'");
    assert_eq!(safe_name("A/B: C?"), "A-B- C-");
    assert_eq!(safe_name("   "), "audiobook");
}

#[test]
fn a_complete_chapter_is_gathered_with_both_gap_widths() {
    let p = book(&[("One", 4)]);
    let (have, missing) = collect(&p, &vec![4]);
    assert!(missing.is_empty());
    assert_eq!(have.len(), 1);
    // 4 chunks, 3 joins: chunk-gap, para-gap, chunk-gap.
    assert_eq!(have[0].pieces.len(), 7);
    let secs = |x: &Piece| match x {
        Piece::Chunk(_) => 0.2,
        Piece::Gap => 0.3,
        Piece::ParaGap => 0.6,
    };
    let gap_widths: Vec<f64> = have[0]
        .pieces
        .iter()
        .filter(|x| !matches!(x, Piece::Chunk(_)))
        .map(secs)
        .collect();
    assert_eq!(gap_widths, vec![0.3, 0.6, 0.3]);
    let total: f64 = have[0].pieces.iter().map(secs).sum();
    assert!((total - (4.0 * 0.2 + 0.3 + 0.6 + 0.3)).abs() < 1e-6);
}

#[test]
fn a_chapter_with_a_hole_is_left_out_rather_than_shortened() {
    let p = book(&[("One", 3), ("Two", 3)]);
    let (have, missing) = collect(&p, &vec![3, 1]);
    assert_eq!(have.len(), 1);
    assert_eq!(missing, vec!["Two".to_string()]);
}

#[test]
fn a_book_with_holes_is_refused_unless_partial_is_asked_for() {
    let p = book(&[("One", 2), ("Two", 2)]);
    let (have, missing) = collect(&p, &vec![2, 0]);
    match refusal(&missing, false, have.len(), "/d") {
        Some(ExportError::Incomplete(1, names)) => assert!(names.contains("Two")),
        other => panic!("expected a refusal, got {other:?}"),
    }
    assert_eq!(refusal(&missing, true, have.len(), "/d"), None);
    assert_eq!(have.len(), 1);
    assert_eq!(missing, vec!["Two".to_string()]);
    assert_eq!(
        refusal(&missing, true, 0, "/d"),
        Some(ExportError::NothingComplete("/d".to_string()))
    );
}

#[test]
fn the_argument_list_is_the_python_scripts() {
    let work = "/w";
    let a = export::args_from(
        &[
            "--epub".into(),
            "/b/x.epub".into(),
            "--partial".into(),
            "--bitrate".into(),
            "96k".into(),
            "--chapter-gap".into(),
            "2.5".into(),
            "--title".into(),
            "Renamed".into(),
        ],
        work,
    )
    .expect("args");
    assert_eq!(a.book, "/b/x.epub");
    assert!(a.partial);
    assert_eq!(a.bitrate, "96k");
    assert_eq!(a.chapter_gap_s.parse::<f64>(), Ok(2.5));
    assert_eq!(a.title.as_deref(), Some("Renamed"));
    assert_eq!(a.work, work);

    // And every way of getting it wrong is a message, not a panic.
    assert!(export::args_from(&[], "/w").is_err());
    assert!(export::args_from(&["--book".into()], "/w").is_err());
    assert!(export::args_from(
        &["--book".into(), "b".into(), "--gap".into(), "soon".into()],
        "/w"
    )
    .is_err());
    assert!(export::args_from(&["--wat".into()], "/w").is_err());
}

#[test]
fn the_defaults_of_an_export() {
    let a = ExportArgs::new("/b/x.epub", "/w");
    assert_eq!((a.bitrate.as_str(), a.partial, a.dir.as_deref()), ("64k", false, None));
    assert_eq!(a.gap_s.parse::<f64>(), Ok(0.30));
    assert_eq!(a.para_gap_s.parse::<f64>(), Ok(0.60));
    assert_eq!(a.chapter_gap_s.parse::<f64>(), Ok(1.0));
}

#[test]
fn a_pause_is_written_as_a_number() {
    for t in ["1", "2.5", "-3", "+4.", ".5", "1e3", "1E-3", "inf", "NaN", "Infinity"] {
        assert!(writes_number(t), "{t}");
        assert!(t.parse::<f64>().is_ok(), "{t}");
    }
    for t in ["", "soon", "1e", ".", "1.2.3", " 1", "e5", "--1", "+"] {
        assert!(!writes_number(t), "{t}");
        assert!(t.parse::<f64>().is_err(), "{t}");
    }
}

#[test]
fn a_refused_argument_is_quoted() {
    match export::args_from(&["--book".into(), "b".into(), "--gap".into(), "so\"on".into()], "/w") {
        Err(ExportError::Usage(m)) => assert!(m.contains("\"so\\\"on\""), "{m}"),
        other => panic!("expected a refusal, got {other:?}"),
    }
}

#[test]
fn an_export_says_what_went_wrong() {
    assert_eq!(
        ExportError::Incomplete(2, "A, B".to_string()).message(),
        "2 chapter(s) are not fully rendered (A, B) \u{2014} finish the render, or pass --partial"
    );
    assert_eq!(ExportError::NoAudio("/d".to_string()).message(), "no rendered audio under /d");
    assert_eq!(ExportError::BadPlan("/d".to_string()).message(), "plan.json in /d will not parse");
    assert_eq!(ExportError::Usage("x".to_string()).message(), "x");
}

#[test]
fn an_export_is_marked_chapter_by_chapter() {
    let m = metadata(
        "T",
        Some("A".to_string()),
        &vec![
            Mark { title: "One".to_string(), start_ms: 0, end_ms: 1500 },
            Mark { title: "Two".to_string(), start_ms: 1500, end_ms: 3000 },
        ],
    );
    assert!(m.starts_with(";FFMETADATA1\n"), "{m}");
    assert!(m.contains("START=1500\nEND=3000\n"), "{m}");
    assert!(m.contains("title=Two\n"), "{m}");
    let list = join_list(&vec![s(&["/a.wav", "/b.wav"]), s(&["/c.wav"])], "/gap.wav");
    let lines: Vec<&str> = list.lines().filter(|l| !l.is_empty()).collect();
    assert_eq!(
        lines,
        vec!["file '/a.wav'", "file '/b.wav'", "file '/gap.wav'", "file '/c.wav'"]
    );
    let e = encode_args("/l", "/m", Some("/c.jpg".to_string()), "64k", "/o.m4b");
    assert_eq!(e.last().map(String::as_str), Some("/o.m4b"));
    assert!(e.contains(&"/c.jpg".to_string()));
    assert!(!encode_args("/l", "/m", None, "64k", "/o.m4b").contains(&"/c.jpg".to_string()));
    assert_eq!(cover_ext("image/png"), "png");
}

#[test]
fn a_title_is_the_best_there_is() {
    let t = |v: &str| Some(v.to_string());
    assert_eq!(choose_title(t("Asked"), t("Epub"), t("Stem")), "Asked");
    assert_eq!(choose_title(None, t("Epub"), t("Stem")), "Epub");
    assert_eq!(choose_title(None, None, t("Stem")), "Stem");
    assert_eq!(epub_entry(t("  ")), None);
    assert_eq!(epub_entry(t(" A ")), t("A"));
    let p = book(&[("One", 2), ("Two", 2)]);
    assert_eq!(first_wav(&p, |c, i| c == 1 && i == 1), Some((1, 1)));
    assert_eq!(first_wav(&p, |_, _| false), None);
}

// --------------------------------------------------------------------- migration

fn chap(index: usize, texts: &[&str]) -> Chapter {
    Chapter {
        index,
        id: format!("c{index}"),
        title: format!("Chapter {index}"),
        chunks: texts
            .iter()
            .map(|t| Chunk { text: (*t).to_string(), para: 0, silent: false })
            .collect(),
    }
}

#[test]
fn an_unchanged_chapter_is_not_in_the_diff_at_all() {
    let a = vec![chap(0, &["one", "two", "three"])];
    assert!(diff_chapters(&a, &a).is_empty());
}

#[test]
fn the_diff_is_the_first_chunk_whose_text_moved() {
    let old = vec![chap(0, &["one", "two", "three", "four"])];
    let new = vec![chap(0, &["one", "two", "CHANGED", "four"])];
    assert_eq!(diff_chapters(&old, &new), BTreeMap::from([(0, 2)]));
}

#[test]
fn a_chapter_that_lost_a_chunk_changes_from_where_they_stop_agreeing() {
    // Two sentences merge, so a chunk disappears and everything after it shifts
    // down one.
    let old = vec![chap(0, &["a", "Mr.", "Franky came.", "b"])];
    let new = vec![chap(0, &["a", "Mr. Franky came.", "b"])];
    assert_eq!(diff_chapters(&old, &new), BTreeMap::from([(0, 1)]));
    // And one that only grew at the end.
    let old = vec![chap(0, &["a", "b"])];
    let new = vec![chap(0, &["a", "b", "c"])];
    assert_eq!(diff_chapters(&old, &new), BTreeMap::from([(0, 2)]));
}

#[test]
fn only_the_chapters_that_moved_are_listed() {
    let old = vec![chap(0, &["a"]), chap(1, &["b", "c"]), chap(2, &["d"])];
    let new = vec![chap(0, &["a"]), chap(1, &["b", "CHANGED"]), chap(2, &["d"])];
    assert_eq!(diff_chapters(&old, &new), BTreeMap::from([(1, 1)]));
}

fn book_with(changed: &[(usize, usize)], plan: Vec<Chapter>) -> BookPlan {
    BookPlan {
        key: "Book".into(),
        source: String::new(),
        changed: changed.iter().copied().collect(),
        chapters_total: 0,
        chunks_before: 0,
        chunks_after: 0,
        wavs: Vec::new(),
        derived: Vec::new(),
        plan,
    }
}

fn positions(book: &str, chapter: i64, chunk: i64) -> Vec<StoredPosition> {
    vec![StoredPosition { book: book.to_string(), chapter: Some(chapter), chunk: Some(chunk) }]
}

#[test]
fn a_position_before_the_first_change_does_not_move() {
    let p = positions("Book.epub", 3, 4);
    let b = book_with(&[(3, 9)], vec![]);
    assert!(position_fixes(&p, &[b]).is_empty());
}

#[test]
fn a_position_in_an_untouched_chapter_does_not_move() {
    let p = positions("Book.epub", 3, 40);
    let b = book_with(&[(7, 0)], vec![]);
    assert!(position_fixes(&p, &[b]).is_empty());
}

#[test]
fn a_position_past_the_first_change_is_pulled_back_to_it() {
    let p = positions("Book.epub", 3, 40);
    let b = book_with(&[(3, 9)], vec![]);
    let f = position_fixes(&p, &[b]);
    assert_eq!(
        f,
        vec![PositionFix { book: "Book.epub".into(), chapter: 3, from: 40, to: 9 }]
    );
    // Backwards, always: never past where the two chunkings agree.
    assert!(f[0].to <= f[0].from);
}

#[test]
fn a_position_for_another_book_is_left_alone() {
    let p = positions("Other.epub", 3, 40);
    let b = book_with(&[(3, 0)], vec![]);
    assert!(position_fixes(&p, &[b]).is_empty());
}

#[test]
fn a_plan_between_two_chunkings_says_what_goes() {
    let old = vec![chap(0, &["a", "b", "c"]), chap(1, &["d"])];
    let new = vec![chap(0, &["a", "B c"]), chap(1, &["d"])];
    let p = BookPlan::between("K", "/b/K.epub", &old, new);
    assert_eq!(p.changed, BTreeMap::from([(0, 1)]));
    assert!(!p.is_noop());
    assert_eq!((p.chunks_before, p.chunks_after, p.chapters_total), (4, 3, 2));
    assert_eq!(p.deletions(&old, 0), Some((1, 3)));
    assert_eq!(p.deletions(&old, 1), None);
    assert!(book_line(&p).contains('K'));
    let same = vec![chap(0, &["a"])];
    assert!(BookPlan::between("K", "", &same, same.clone()).is_noop());
    let f = PositionFix { book: "K.epub".into(), chapter: 0, from: 2, to: 1 };
    assert_eq!(chunks_total_after(&f, &[p]), Some(2));
    assert!(fix_line(&f).contains("K.epub"));
    assert!(is_source("/b/K.epub", "K"));
    assert!(!is_source("/b/L.epub", "K"));
}

#[test]
fn every_book_is_planned_before_any_is_touched() {
    let noop = vec![false, true];
    let mut st = first_stage(2);
    let mut seen = Vec::new();
    while let Stage::Planning(k) = st {
        seen.push(k);
        st = next_stage(st, true, 2, &noop, true, true);
    }
    assert_eq!(seen, vec![0, 1]);
    assert_eq!(st, Stage::Applying(0));
    // One that cannot be planned ends it, with nothing touched.
    assert!(matches!(
        next_stage(Stage::Planning(1), false, 2, &noop, true, true),
        Stage::Done(c) if c != 0
    ));
    assert_eq!(apply_step(1, 1, 0), Some(ApplyStep::Wav(0)));
    assert_eq!(apply_step(1, 1, 1), Some(ApplyStep::Derived(0)));
    assert_eq!(apply_step(1, 1, 2), Some(ApplyStep::WritePlan));
    assert_eq!(apply_step(1, 1, 3), None);
}

#[test]
fn a_migration_is_asked_for_in_words() {
    let a = migrate::args_from(&s(&["--apply"]), "/w", s(&["/books"]), "/p.json").expect("args");
    assert!(a.apply);
    assert_eq!(a.work, "/w");
    assert!(migrate::args_from(&s(&["--wat"]), "/w", Vec::new(), "").is_err());
    assert!(wants_help(&s(&["--help"])));
    assert!(!wants_help(&s(&["--apply"])));
    let mut t = TrimCounts::new();
    t.count(true, true, false);
    t.count(false, false, false);
    assert_eq!((t.examined, t.trimmed, t.failed), (2, 1, 1));
    assert_eq!(t.exit_code(), 0);
    let mut bad = TrimCounts::new();
    bad.count(false, false, false);
    assert_eq!(bad.exit_code(), 1, "nothing could be read");
}

// -------------------------------------------------------------------- the library

fn untouched(names: &[&str], est: f64) -> Seen {
    Seen { names: s(names), bytes: None, manifest: None, est_bits: est.to_bits() }
}

#[test]
fn a_scan_counts_the_wavs_that_are_actually_there() {
    let p = book(&[("One", 3), ("Two", 2)]);
    // Chapter 0 half rendered, chapter 1 untouched.
    let seen = vec![untouched(&["00000.wav", "00001.wav"], 1.5), untouched(&[], 1.0)];
    let rows = scan_book(&p, &seen, 77);
    assert_eq!(rows.len(), 2);
    assert_eq!((rows[0].n, rows[0].rendered), (3, 2));
    assert_eq!((rows[1].n, rows[1].rendered), (2, 0));
    assert!(!rows[0].m4a && rows[0].bytes.is_none());
    assert_eq!(rows[0].title, "One");
    assert!(rows[0].est_bits.map(f64::from_bits).unwrap_or(0.0) > 0.0);
    // One observation, one moment.
    assert_eq!(rows[0].scanned_ms, rows[1].scanned_ms);
}

#[test]
fn a_chapter_with_no_untitled_entry_is_named_the_way_the_ui_names_it() {
    let rows = scan_book(&book(&[("", 1)]), &vec![untouched(&[], 1.0)], 7);
    assert_eq!(rows[0].title, "Section 1");
}

#[test]
fn only_a_directory_with_a_plan_counts_as_a_book() {
    let e = |name: &str, is_dir: bool, has_plan: bool| CacheEntry { name: name.to_string(), is_dir, has_plan };
    let all = vec![e("Has", true, true), e("HasNot", true, false), e("loose.txt", false, false)];
    assert_eq!(cached_keys(&all), vec!["Has".to_string()]);
}

#[test]
fn a_plan_that_will_not_parse_is_simply_no_plan() {
    assert!(usable_plan(None).is_none(), "no file, or not json");
    assert!(usable_plan(Some(Vec::new())).is_none(), "an empty plan is no plan");
    assert!(usable_plan(Some(kept())).is_some());
}

#[test]
fn an_adopted_book_with_no_epub_still_gets_a_row() {
    let orphan = adopt("Key", 4, None, 7);
    assert_eq!(orphan.name, "Key", "so the position lookup misses, quietly");
    assert_eq!(orphan.path, "");
    assert_eq!((orphan.chapters, orphan.scanned_ms), (4, Some(7)));
    assert_eq!(orphan.last_open_ms, None, "this pass knows nothing about it");

    let found = adopt("Key", 4, Some("/books/Some Title (2016).epub"), 7);
    assert_eq!(found.name, "Some Title (2016).epub");
    assert_eq!(found.title, "Some Title (2016)");
    assert_eq!(found.path, "/books/Some Title (2016).epub");
}

#[test]
fn a_stranger_is_registered_once() {
    let known = vec![adopt("A", 1, None, 1)];
    let on_disk = s(&["A", "B"]);
    let strange = strangers(&known, &on_disk);
    assert_eq!(strange, s(&["B"]));
    assert_eq!(scan_order(&known, &strange), s(&["A", "B"]));
    let (row, new) = look_at(&known, "B", 3, None, 9);
    assert!(new && row.key == "B" && row.chapters == 3);
    let (row, new) = look_at(&known, "A", 5, None, 9);
    assert!(!new && row.chapters == 5 && row.scanned_ms == Some(9));
    assert!(is_epub("/b/X.EPUB") && is_epub("x.epub") && !is_epub("x.txt"));
    assert_eq!(epub_for(&s(&["/b/A.epub", "/b/B.epub"]), "B"), Some("/b/B.epub".to_string()));
    let mut r = ScanReport::new();
    r.count(5, true);
    r.count(3, false);
    assert_eq!((r.books, r.chapters, r.registered), (2, 8, 1));
}

#[test]
fn a_scan_stands_aside_but_not_forever() {
    assert!(matches!(scanner_turn(0, 10 * SLICE, true, 0), ScanTurn::Sleep(_)));
    assert_eq!(scanner_turn(10, 10, false, 0), ScanTurn::Park);
    assert_eq!(scanner_turn(10, 10, true, 0), ScanTurn::Scan);
    assert_eq!(scanner_turn(10, 10, true, 1), ScanTurn::Hold);
    assert_eq!(scanner_turn(10, 10, true, HOLD_MAX), ScanTurn::Scan);
}

#[test]
fn a_moved_position_changes_its_record_and_makes_none() {
    let old = vec![chap(0, &["a", "b", "c"])];
    let p = [BookPlan::between("K", "/b/K.epub", &old, vec![chap(0, &["a", "B c"])])];
    let fixes = [
        PositionFix { book: "K.epub".into(), chapter: 0, from: 2, to: 1 },
        PositionFix { book: "L.epub".into(), chapter: 0, from: 2, to: 1 },
        PositionFix { book: "K.epub".into(), chapter: 7, from: 3, to: 0 },
    ];
    let r = apply_position_fixes(&fixes, &vec!["K.epub".to_string()], &p);
    let got: Vec<(&str, i64, Option<usize>)> =
        r.iter().map(|c| (c.book.as_str(), c.chunk, c.chunks_total)).collect();
    assert_eq!(got, vec![("K.epub", 1, Some(2)), ("K.epub", 0, None)]);
}
