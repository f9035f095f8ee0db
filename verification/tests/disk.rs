//! Where things lie on the disk, what is packed, and what is swept away.

use narrator::api::media::{chapter_file, hls_base, key_for, numbered, valid_segment, BookQuery, ChapterFile};
use narrator::book::Chunk;
use narrator::cache::{
    audio_root, book_key, chapter_dir, chunk_file, chunk_index, chunk_path, missing_chunks, plan_path,
    rendered_count, safe_key, wav_info, SR,
};
use narrator::chapters::{
    bitrate_parts, chapter_files, chapter_gc_tag, chapter_guarded, chapter_packed, chunk_at, chunk_guarded,
    complaint, concat_line, concat_list, fix_playlist, gaps, hls_args, hls_dir, hls_step, pack_args, pack_plan,
    segments_of_tag, tag_at_path, Building, Gap, HlsStep, Silences, DEFAULT_BITRATE,
};
use narrator::err::PackError;
use narrator::gc::{total_bytes, Entry, Sweep};
use narrator::paths::{file_name, file_stem, join_path, parent, path_before};

fn s(v: &[&str]) -> Vec<String> {
    v.iter().map(|t| t.to_string()).collect()
}

fn ck(text: &str, para: usize) -> Chunk {
    Chunk { text: text.to_string(), para, silent: false }
}

// ------------------------------------------------------------------------ names

#[test]
fn keys_are_stems_truncated_to_fifty() {
    assert_eq!(
        book_key("/books/The Mom Test (2013).epub"),
        "The Mom Test (2013)"
    );
    let long = format!("/books/{}.epub", "x".repeat(80));
    assert_eq!(book_key(&long).len(), 50);
}

#[test]
fn safe_key_refuses_traversal() {
    assert_eq!(safe_key("../../etc/passwd"), "passwd");
    assert_eq!(safe_key(".."), "");
    assert_eq!(safe_key(""), "");
    assert_eq!(safe_key("a/b"), "b");
    assert_eq!(safe_key("Book (2013)"), "Book (2013)");
}

#[test]
fn paths_match_the_python_layout() {
    let w = "/work";
    assert_eq!(chunk_path(w, "Book", 7, 42), "/work/audio/Book/ch007/00042.wav");
    assert_eq!(chapter_dir(w, "Book", 1433), "/work/audio/Book/ch1433");
}

#[test]
fn a_safe_key_is_a_name_or_nothing() {
    for k in ["a/b/c", "../x", "x/..", ".", "/", "//", "tail/"] {
        let got = safe_key(k);
        assert!(!got.contains('/'), "{k} -> {got}");
        assert_ne!(got, "..");
    }
    assert_eq!(safe_key("tail/"), "");
    assert_eq!(safe_key(" a\\b "), "b");
}

#[test]
fn a_key_is_counted_in_characters() {
    let long = format!("/b/{}.epub", "\u{e9}".repeat(60));
    assert_eq!(book_key(&long).chars().count(), 50);
}

#[test]
fn paths_split_where_they_should() {
    assert_eq!(join_path("/a", "b"), "/a/b");
    assert_eq!(join_path("/a", "/b"), "/b");
    assert_eq!(file_name("/a/b.epub"), Some("b.epub".to_string()));
    assert_eq!(file_name("/a/.."), None);
    assert_eq!(file_stem("/a/b.c.epub"), Some("b.c".to_string()));
    assert_eq!(file_stem("/a/.hidden"), Some(".hidden".to_string()));
    assert_eq!(parent("/a/b"), Some("/a".to_string()));
    assert_eq!(parent("/"), None);
    assert!(path_before("/a/b", "/a/c"));
    assert!(!path_before("/a/c", "/a/b"));
    assert!(path_before("/a/b", "/a/b"));
}

#[test]
fn a_chunk_file_reads_back() {
    for i in [0usize, 7, 42, 99_999, 100_000, 1_234_567] {
        assert_eq!(chunk_index(&chunk_file(i)), Some(i));
    }
    assert_eq!(chunk_file(42), "00042.wav");
    assert_eq!(chunk_index("00042.tmp"), None);
    assert_eq!(chunk_index("x.wav"), None);
    assert_eq!(chunk_index(".wav"), None);
    assert_eq!(audio_root("/w"), "/w/audio");
    assert_eq!(plan_path("/w", "K"), "/w/audio/K/plan.json");
}

#[test]
fn what_is_not_there_is_missing() {
    let names = s(&["00000.wav", "00002.wav", "00009.wav", "junk", "00001.wav.tmp"]);
    assert_eq!(missing_chunks(&names, 4), vec![1, 3]);
    assert_eq!(rendered_count(&names, 4), 2);
    assert_eq!(missing_chunks(&Vec::new(), 3), vec![0, 1, 2]);
    assert_eq!(missing_chunks(&names, 0), Vec::<usize>::new());
}

// ------------------------------------------------------------------------- wavs

fn wav(rate: u32, samples: u32) -> Vec<u8> {
    let data = samples * 2;
    let mut b: Vec<u8> = Vec::new();
    b.extend_from_slice(b"RIFF");
    b.extend_from_slice(&(36 + data).to_le_bytes());
    b.extend_from_slice(b"WAVE");
    b.extend_from_slice(b"fmt ");
    b.extend_from_slice(&16u32.to_le_bytes());
    b.extend_from_slice(&1u16.to_le_bytes());
    b.extend_from_slice(&1u16.to_le_bytes());
    b.extend_from_slice(&rate.to_le_bytes());
    b.extend_from_slice(&(rate * 2).to_le_bytes());
    b.extend_from_slice(&2u16.to_le_bytes());
    b.extend_from_slice(&16u16.to_le_bytes());
    b.extend_from_slice(b"data");
    b.extend_from_slice(&data.to_le_bytes());
    b.extend(std::iter::repeat(0u8).take(data as usize));
    b
}

#[test]
fn wav_roundtrip_reports_its_own_duration() {
    let i = wav_info("a.wav", &wav(SR, SR)).expect("info");
    assert_eq!((i.channels, i.rate, i.width), (1, SR, 2));
    let secs = i.data as f64 / i.byte_rate as f64;
    assert!((secs - 1.0).abs() < 1e-9, "{secs}");
}

#[test]
fn what_is_no_wav_is_refused() {
    assert_eq!(wav_info("p", b"not audio"), Err(PackError::NotWav("p".to_string())));
    let mut b = wav(SR, 10);
    b.truncate(20);
    assert_eq!(wav_info("p", &b), Err(PackError::NotWav("p".to_string())));
    let mut odd = wav(SR, 10);
    odd[8] = b'X';
    assert!(wav_info("p", &odd).is_err());
}

#[test]
fn a_wav_may_hold_more_than_its_sound() {
    // An odd chunk is followed by a byte that belongs to nobody.
    let plain = wav(SR, 10);
    let mut b = plain[..36].to_vec();
    b.extend_from_slice(b"LIST");
    b.extend_from_slice(&3u32.to_le_bytes());
    b.extend_from_slice(&[1, 2, 3, 0]);
    b.extend_from_slice(&plain[36..]);
    let i = wav_info("p", &b).expect("info");
    assert_eq!((i.data, i.rate), (20, SR));
}

// --------------------------------------------------------------------- the sweep

#[test]
fn gc_never_evicts_a_kept_chapter() {
    let w = "/work";
    let keep = vec![chapter_dir(w, "B", 1)];
    let mut files = Vec::new();
    for ci in 0..3usize {
        for i in 0..4usize {
            let path = chunk_path(w, "B", ci, i);
            let guarded = chunk_guarded(&path, &keep);
            files.push(Entry { modified: (ci * 4 + i) as i128, size: 48_044, path, guarded });
        }
    }
    let mut left: Vec<String> = files.iter().map(|e| e.path.clone()).collect();
    // A cap far below what is there: everything evictable must go.
    let mut sweep = Sweep::start(files, 100, 90);
    while let Some(i) = sweep.victim() {
        let gone = sweep.files[i].path.clone();
        left.retain(|p| *p != gone);
        sweep.removed(i, true);
    }
    let names = |ci: usize| -> Vec<String> {
        let d = chapter_dir(w, "B", ci);
        left.iter()
            .filter(|p| parent(p) == Some(d.clone()))
            .map(|p| file_name(p).expect("name"))
            .collect()
    };
    assert_eq!(missing_chunks(&names(1), 4).len(), 0);
    assert_eq!(missing_chunks(&names(0), 4).len(), 4);
}

#[test]
fn a_sweep_takes_the_oldest_and_stops_at_the_floor() {
    let e = |modified: i128, path: &str, guarded: bool| Entry {
        modified,
        size: 10,
        path: path.to_string(),
        guarded,
    };
    let files = vec![e(3, "c", false), e(1, "a", false), e(2, "b", true), e(4, "d", false)];
    assert_eq!(total_bytes(&files), 40);
    let mut sweep = Sweep::start(files, 35, 25);
    let mut gone = Vec::new();
    while let Some(i) = sweep.victim() {
        gone.push(sweep.files[i].path.clone());
        sweep.removed(i, true);
    }
    assert_eq!(gone, vec!["a", "c"]);
    assert_eq!(sweep.total, 20);
    // Under the cap nothing goes.
    let mut idle = Sweep::start(vec![e(1, "a", false)], 35, 25);
    assert_eq!(idle.victim(), None);
    // What would not go still counts.
    let mut stuck = Sweep::start(vec![e(1, "a", false), e(2, "b", false)], 5, 0);
    let i = stuck.victim().expect("a victim");
    stuck.removed(i, false);
    assert_eq!(stuck.total, 20);
}

// ----------------------------------------------------------------------- pauses

#[test]
fn a_boundary_inside_a_sentence_gets_a_shorter_pause() {
    // A new paragraph is still a paragraph.
    assert_eq!(Gap::between(&ck("Done.", 0), &ck("Next.", 1)), Gap::Para);
    // One sentence to the next.
    assert_eq!(Gap::between(&ck("Done.", 0), &ck("Next.", 0)), Gap::Sentence);
    assert_eq!(Gap::between(&ck("Really?", 0), &ck("Yes.", 0)), Gap::Sentence);
    assert_eq!(
        Gap::between(&ck("\u{201C}Go.\u{201D}", 0), &ck("He left.", 0)),
        Gap::Sentence
    );
    // The two that sound like stopping mid-thought: a clause split out of an
    // over-long sentence, and an abbreviation.
    assert_eq!(
        Gap::between(&ck("an Admiralty,", 0), &ck("a ship-building committee,", 0)),
        Gap::Phrase
    );
    assert_eq!(
        Gap::between(&ck("If the water gushed too loudly, Mr.", 0), &ck("Franky would", 0)),
        Gap::Phrase
    );
    assert_eq!(
        Gap::between(&ck("interactions with Mr. A.", 0), &ck("The Beyonders", 0)),
        Gap::Phrase
    );
    assert_eq!(
        Gap::between(&ck("Down by the river, etc.", 0), &ck("Later on.", 0)),
        Gap::Phrase
    );
    // A word that merely ends in an abbreviation's letters is a sentence.
    assert_eq!(
        Gap::between(&ck("He was a sir.", 0), &ck("Then he left.", 0)),
        Gap::Sentence
    );
}

#[test]
fn chunk_at_bisects_like_python() {
    let m: Vec<i64> = vec![0, 1500, 3000, 10_000];
    assert_eq!(chunk_at(&m, 0), 0);
    assert_eq!(chunk_at(&m, 1400), 0);
    assert_eq!(chunk_at(&m, 1500), 1);
    assert_eq!(chunk_at(&m, 9900), 2);
    assert_eq!(chunk_at(&m, 1_000_000_000_000), 3);
    assert_eq!(chunk_at(&m, -5000), 0);
}

#[test]
fn every_start_finds_its_chunk() {
    let m: Vec<i64> = vec![0, 10, 20, 30, 40];
    for (i, at) in m.iter().enumerate() {
        assert_eq!(chunk_at(&m, *at), i);
    }
    assert_eq!(chunk_at(&[], 7), 0);
}

#[test]
fn a_bitrate_is_a_number_and_a_unit() {
    assert_eq!(bitrate_parts("64k"), ("64".to_string(), 1000));
    assert_eq!(bitrate_parts("128K"), ("128".to_string(), 1000));
    assert_eq!(bitrate_parts("96kbit"), ("96".to_string(), 1000));
    assert_eq!(bitrate_parts("48000"), ("48000".to_string(), 1));
    assert_eq!(bitrate_parts("1m"), ("1".to_string(), 1_000_000));
    assert_eq!(bitrate_parts(" 64k "), ("64".to_string(), 1000));
    assert_eq!(DEFAULT_BITRATE, 64_000);
}

#[test]
fn concat_quoting_survives_an_apostrophe() {
    assert_eq!(concat_line("/a/it's here.wav"), "file '/a/it'\\''s here.wav'");
}

#[test]
fn one_silence_stands_between_two_chunks() {
    let chunks = vec![ck("One.", 0), ck("Two,", 0), ck("three.", 0), ck("Four.", 1)];
    assert_eq!(gaps(&chunks), vec![Gap::Sentence, Gap::Phrase, Gap::Para]);
    let silences = Silences {
        para: "/p.wav".to_string(),
        sentence: "/s.wav".to_string(),
        phrase: "/f.wav".to_string(),
    };
    let list = concat_list(&s(&["/0.wav", "/1.wav", "/2.wav", "/3.wav"]), &gaps(&chunks), &silences);
    let lines: Vec<&str> = list.trim_end().lines().collect();
    assert_eq!(
        lines,
        vec![
            "file '/0.wav'",
            "file '/s.wav'",
            "file '/1.wav'",
            "file '/f.wav'",
            "file '/2.wav'",
            "file '/p.wav'",
            "file '/3.wav'",
        ]
    );
}

// ---------------------------------------------------------------------- packing

#[test]
fn only_a_whole_chapter_is_packed() {
    let chunks = vec![ck("One.", 0), ck("Two.", 0)];
    let whole = pack_plan(3, &chunks, "/d", &s(&["00000.wav", "00001.wav"])).expect("plan");
    assert_eq!(whole.paths, vec!["/d/00000.wav", "/d/00001.wav"]);
    assert_eq!(whole.gaps, vec![Gap::Sentence]);
    match pack_plan(3, &chunks, "/d", &s(&["00000.wav"])) {
        Err(e) => assert_eq!(e, PackError::Incomplete(3, 1)),
        Ok(_) => panic!("a hole was packed"),
    }
    match pack_plan(3, &[], "/d", &Vec::new()) {
        Err(e) => assert_eq!(e, PackError::Empty(3)),
        Ok(_) => panic!("nothing was packed"),
    }
}

#[test]
fn a_pack_is_current_while_the_chapter_is_as_long() {
    assert!(chapter_packed(true, Some(4), 4));
    assert!(!chapter_packed(true, Some(3), 4));
    assert!(!chapter_packed(true, None, 4));
    assert!(!chapter_packed(false, Some(4), 4));
}

#[test]
fn the_packer_is_told_what_to_write() {
    let a = pack_args("/l.txt", "64k", "Book", "One", "/o.m4a");
    assert!(a.windows(2).any(|w| w[0] == "-b:a" && w[1] == "64k"));
    assert!(a.windows(2).any(|w| w[0] == "-i" && w[1] == "/l.txt"));
    assert_eq!(a.last().map(String::as_str), Some("/o.m4a"));
    assert!(a.contains(&"title=One".to_string()));
    assert!(a.contains(&"album=Book".to_string()));
    let h = hls_args("/a.m4a", "10", "/base/", "/d");
    assert!(h.windows(2).any(|w| w[0] == "-i" && w[1] == "/a.m4a"));
    assert!(h.windows(2).any(|w| w[0] == "-hls_time" && w[1] == "10"));
}

#[test]
fn a_complaint_is_the_last_line() {
    assert_eq!(complaint("first\nsecond\n"), "second");
    assert_eq!(complaint("  bad input\n"), "bad input");
    assert_eq!(complaint(" \n"), "ffmpeg failed");
}

#[test]
fn a_playlist_is_cut_once() {
    assert_eq!(hls_step(2, true, true), HlsStep::Serve);
    assert_eq!(hls_step(2, true, false), HlsStep::Cut);
    assert!(matches!(hls_step(2, false, true), HlsStep::Refuse(_)));
    let fixed = fix_playlist("#EXT-X-MAP:URI=\"init.mp4\"\nseg00000.m4s\n", "/b/");
    assert!(fixed.contains("URI=\"/b/init.mp4\""), "{fixed}");
}

#[test]
fn a_chapter_that_is_being_built_is_spared() {
    let mut b = Building::new();
    b.insert("K", 3);
    b.insert("K", 3);
    assert_eq!(b.tags().len(), 1);
    let tag = chapter_gc_tag("K", 3);
    assert_eq!(b.tags(), vec![tag.clone()]);
    let (audio, _) = chapter_files("/w", "K", 3);
    assert_eq!(tag_at_path(&audio), Some(tag.clone()));
    assert!(chapter_guarded(&audio, &b.tags(), &Vec::new()));
    assert!(chapter_guarded(&audio, &Vec::new(), &vec![tag.clone()]));
    b.remove("K", 3);
    assert!(!chapter_guarded(&audio, &b.tags(), &Vec::new()));
    assert_eq!(segments_of_tag(&tag), Some(("K".to_string(), 3)));
    assert_eq!(hls_dir("/w", "K", 3), "/w/hls/K/ch003");
}

// ---------------------------------------------------------------------- serving

#[test]
fn only_the_two_segment_shapes_are_served() {
    assert!(valid_segment("init.mp4"));
    assert!(valid_segment("seg00000.m4s"));
    assert!(valid_segment("seg12345.m4s"));
    assert!(!valid_segment("seg1.m4s"));
    assert!(!valid_segment("seg00000.m4a"));
    assert!(!valid_segment("../init.mp4"));
    assert!(!valid_segment("segabcde.m4s"));
    assert!(!valid_segment(""));
}

#[test]
fn a_chapter_is_asked_for_by_number() {
    assert_eq!(numbered("12.wav", ".wav"), Some(12));
    assert_eq!(numbered("12.mp3", ".wav"), None);
    assert_eq!(numbered("x.wav", ".wav"), None);
    assert_eq!(chapter_file("3.m4a"), ChapterFile::Audio(3));
    assert_eq!(chapter_file("3.json"), ChapterFile::Manifest(3));
    assert_eq!(chapter_file("3.m3u8"), ChapterFile::Playlist(3));
    assert_eq!(chapter_file("3.exe"), ChapterFile::Missing);
    assert_eq!(chapter_file("3"), ChapterFile::Missing);
}

#[test]
fn a_named_book_is_a_safe_key() {
    assert_eq!(key_for(&BookQuery { book: Some("../x/K".to_string()) }, "L"), "K");
    assert_eq!(key_for(&BookQuery { book: None }, "L"), "L");
}

#[test]
fn a_playlist_names_its_book_in_an_address() {
    let base = hls_base("Caf\u{e9} (2019)", 3);
    assert_eq!(base, "/api/hls/Caf%C3%A9%20%282019%29/3/");
}
