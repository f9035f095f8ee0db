//! Voice memos: one note for one recording, whatever happens on the way.

use narrator::api::notes::queue::{
    audio_dir, filed, hash128, memo_id, part_name, record_path, told, unfiled, Claim, Failed, Filed, FoundRecord, Jobs,
    Pending, Record, MAX_RESUMES,
};
use narrator::api::notes::{
    failed, fake_transcript, filing, heard, passage_loaded, passage_named, prompt, recorded_at, recording,
    recording_name, respond, Answer, NoteBody, Quotes, Written,
};
use narrator::book::{Chapter, Chunk};
use narrator::paths::join_path;
use narrator::state::Session;
use narrator::stt::Transcript;
use std::sync::Arc;

const WORK: &str = "/work";

fn filed_note(file: &str) -> Filed {
    Filed { file: file.to_string(), text: "a thought".to_string(), language: "en".to_string() }
}

fn pending() -> Pending {
    Pending {
        stamp_ms: 1_757_628_000_000,
        prompt: "A Book. Chapter 3.".to_string(),
        title: "A Book".to_string(),
        name: "A Book.epub".to_string(),
        ctitle: "Chapter 3".to_string(),
        ctx: "the words around it".to_string(),
        ci: 2,
        i: 14,
        n: 40,
    }
}

/// What a claim gives where the memo is nobody's yet.
fn mine(c: Claim) -> Record {
    match c {
        Claim::Mine(r) => r,
        Claim::Done(_) => panic!("expected a job, got a replay"),
        Claim::Attach => panic!("expected a job, got an attach"),
    }
}

/// What the work directory holds of one memo.
fn found(r: &Record, has_audio: bool) -> Vec<FoundRecord> {
    vec![FoundRecord { name: format!("{}.json", r.id), record: Some(r.clone()), has_audio }]
}

#[test]
fn a_client_id_is_used_when_it_is_a_safe_file_name_and_ignored_when_it_is_not() {
    let audio = b"some webm".as_slice();
    assert_eq!(memo_id(Some("9f3b-4c"), audio), "c-9f3b-4c");
    assert_eq!(memo_id(Some(" 9f3b-4c "), audio), "c-9f3b-4c");
    // Anything that is not a plain file name falls back to the hash rather than
    // being repaired into a neighbouring id.
    for bad in [
        "../../etc/passwd",
        "a/b",
        "a\\b",
        "",
        "  ",
        ".",
        "..",
        "id with spaces",
        "id\u{7}",
        &"x".repeat(65),
    ] {
        let id = memo_id(Some(bad), audio);
        assert!(id.starts_with("h-"), "{bad:?} -> {id}");
        assert!(!id.contains('/') && !id.contains('\\'), "{id}");
    }
}

#[test]
fn the_hash_identifies_the_recording_itself() {
    // No id from the client still dedups, because the bytes are the memo.
    assert_eq!(memo_id(None, b"aaa"), memo_id(None, b"aaa"));
    assert_ne!(memo_id(None, b"aaa"), memo_id(None, b"aab"));
    assert_ne!(memo_id(None, b"aaa"), memo_id(None, b"aaaa"));
    assert_ne!(memo_id(None, b""), memo_id(None, b"a"));
}

#[test]
fn a_hash_is_written_in_full() {
    assert_eq!(hash128(b""), "6c62272e07bb014262b821756295c58d-0");
    assert_eq!(hash128(b"aaa"), "a68d622af68b5822836dbc7977ae9922-3");
    assert_eq!(hash128(&[7u8; 300]), "a67faa0b9caaff1ea1d35fa9ad5dce61-12c");
}

#[test]
fn a_filed_memo_replays_instead_of_transcribing_again() {
    let mut jobs = Jobs::new();
    let id = memo_id(None, b"a recording");
    let mut record = mine(jobs.claim(WORK, &id, None));
    let out = Ok(filed_note("202609112201 a thought.md"));
    assert!(record.finish(&out), "a filed note is written down");
    jobs.release(&record_path(WORK, &id));

    // The retry that never saw the answer: same note, no second job.
    match jobs.claim(WORK, &id, Some(record.clone())) {
        Claim::Done(f) => assert_eq!(f, filed_note("202609112201 a thought.md")),
        _ => panic!("a filed memo must replay"),
    }
    // And the cheap probe says the same without claiming anything.
    assert_eq!(
        filed(Some(&record)).map(|f| f.file).as_deref(),
        Some("202609112201 a thought.md")
    );
    assert_eq!(filed(None), None);
}

#[test]
fn a_filed_record_outlives_the_process() {
    // The registry is memory; the record is not.
    let mut jobs = Jobs::new();
    let id = memo_id(Some("restart-me"), b"x");
    let mut record = mine(jobs.claim(WORK, &id, None));
    record.finish(&Ok(filed_note("note.md")));

    // A restart: nothing in the registry, and the same work directory.
    let mut jobs = Jobs::new();
    match jobs.claim(WORK, &id, Some(record)) {
        Claim::Done(f) => assert_eq!(f.file, "note.md"),
        _ => panic!("the record is the durable half"),
    }
}

#[test]
fn a_second_post_attaches_to_the_running_job_rather_than_starting_one() {
    let mut jobs = Jobs::new();
    let id = memo_id(None, b"one memo");
    let mut record = mine(jobs.claim(WORK, &id, None));
    // While it runs, the id is taken: no second run, no second note.
    assert!(
        matches!(jobs.claim(WORK, &id, None), Claim::Attach),
        "an in-flight id must not start a second job"
    );
    record.finish(&Ok(filed_note("once.md")));
    jobs.release(&record_path(WORK, &id));
    match jobs.claim(WORK, &id, Some(record)) {
        Claim::Done(f) => assert_eq!(f, filed_note("once.md")),
        _ => panic!("a filed memo must replay"),
    }
}

#[test]
fn a_memo_the_process_died_on_is_owed_and_says_what_it_owes() {
    // Killed between accepting the recording and writing the note. The record is
    // a work order, so the next process can finish it with no client anywhere.
    let recording = join_path(&audio_dir(WORK), "20260911220000.webm");
    let mut record = mine(Jobs::new().claim(WORK, "c-crashed", None));
    record.accept(&recording, pending());

    let owed = unfiled(WORK, &found(&record, true));
    assert_eq!(owed.len(), 1);
    assert_eq!(owed[0].id, "c-crashed");
    assert_eq!(owed[0].audio, recording);
    assert_eq!(owed[0].pending, pending());

    // Finishing it clears the debt.
    let mut again = mine(Jobs::new().claim(WORK, "c-crashed", Some(record)));
    assert_eq!(again.audio_path(WORK), Some(recording));
    assert_eq!(again.resuming(), 1);
    let out = Ok(filed_note("finally.md"));
    again.finish(&out);
    assert_eq!(out.map(|f| f.file), Ok::<String, Failed>("finally.md".into()));
    assert!(
        unfiled(WORK, &found(&again, true)).is_empty(),
        "nothing is owed once it is filed"
    );
}

#[test]
fn a_memo_nothing_can_transcribe_stops_being_swept_but_is_never_deleted() {
    let recording = join_path(&audio_dir(WORK), "20260911221500.webm");
    let mut record = mine(Jobs::new().claim(WORK, "c-hopeless", None));
    record.accept(&recording, pending());
    for n in 1..=MAX_RESUMES {
        assert_eq!(record.resuming(), n);
    }
    assert!(
        unfiled(WORK, &found(&record, true)).is_empty(),
        "a restart does not spend another core on it"
    );
    // Everything it would need is still there, and a request still starts it.
    assert_eq!(record.audio_path(WORK), Some(recording));
    assert!(matches!(
        Jobs::new().claim(WORK, "c-hopeless", Some(record)),
        Claim::Mine(_)
    ));
}

#[test]
fn a_record_with_no_recording_behind_it_is_not_swept() {
    // The process died between the record and the bytes. There is nothing to
    // transcribe, and the phone still holds the only copy.
    let mut record = mine(Jobs::new().claim(WORK, "c-no-bytes", None));
    record.accept(&join_path(&audio_dir(WORK), "20260911220000.webm"), pending());
    assert!(unfiled(WORK, &found(&record, false)).is_empty());
    let again = mine(Jobs::new().claim(WORK, "c-no-bytes", Some(record)));
    assert_eq!(again.audio(WORK, &Vec::new()), None);
}

#[test]
fn an_abandoned_job_frees_its_id_and_never_hangs_a_waiter() {
    let mut jobs = Jobs::new();
    let _job = mine(jobs.claim(WORK, "c-abandoned", None));
    assert!(matches!(jobs.claim(WORK, "c-abandoned", None), Claim::Attach));
    jobs.release(&record_path(WORK, "c-abandoned"));
    let out = told(None);
    assert_eq!(out.err().map(|f| f.status), Some(500));
    assert!(matches!(jobs.claim(WORK, "c-abandoned", None), Claim::Mine(_)));
}

#[test]
fn a_failure_is_not_recorded_and_is_tried_again() {
    // Only a filed note short-circuits.
    let mut jobs = Jobs::new();
    let recording = join_path(&audio_dir(WORK), "20260911223000.webm");
    let mut record = mine(jobs.claim(WORK, "c-failed", None));
    record.accept(&recording, pending());
    let out = Err(Failed::new(500, "transcription failed"));
    assert!(!record.finish(&out), "a failure is not written down");
    assert_eq!(out.err().map(|f: Failed| f.status), Some(500));
    jobs.release(&record_path(WORK, "c-failed"));
    assert!(matches!(
        jobs.claim(WORK, "c-failed", Some(record.clone())),
        Claim::Mine(_)
    ));
    assert_eq!(unfiled(WORK, &found(&record, true)).len(), 1, "still owed");
}

#[test]
fn what_is_not_a_record_is_passed_over() {
    let junk = vec![
        FoundRecord { name: "c-x.json".to_string(), record: None, has_audio: true },
    ];
    assert!(unfiled(WORK, &junk).is_empty());
    assert_eq!(part_name(Some("note.json")), "note.json.part");
}

// ------------------------------------------------------------------- the request

fn body(audio: &str) -> NoteBody {
    NoteBody {
        audio: audio.to_string(),
        mime: None,
        chapter: None,
        chunk: None,
        book: None,
        id: None,
    }
}

#[test]
fn a_recording_is_read_out_of_its_envelope() {
    assert_eq!(recording(&body("aGVsbG8=")), Ok(b"hello".to_vec()));
    assert_eq!(recording(&body("SGk=")), Ok(b"Hi".to_vec()));
    assert_eq!(recording(&body("not base64!")).err().map(|f| f.status), Some(400));
    assert_eq!(recording(&body("aGVsbG8")).err().map(|f| f.status), Some(400), "unpadded");
    assert_eq!(recording(&body("")).err().map(|f| f.status), Some(400));
}

#[test]
fn a_recording_is_named_by_its_moment_and_its_kind() {
    assert!(recording_name("20260911", Some("audio/mp4")).starts_with("20260911"));
    assert_ne!(recording_name("s", Some("audio/mp4")), recording_name("s", Some("audio/webm")));
}

fn book(chunks: &[&str]) -> Session {
    let mut s = Session::new();
    s.book = Some("/books/A Book.epub".to_string());
    s.title = Some("A Book".to_string());
    s.plan = Arc::new(vec![Chapter {
        index: 0,
        id: "c0".to_string(),
        title: "One".to_string(),
        chunks: chunks
            .iter()
            .map(|t| Chunk { text: t.to_string(), para: 0, silent: false })
            .collect(),
    }]);
    s
}

#[test]
fn a_note_quotes_the_chunk_and_its_neighbours() {
    let s = book(&["a", "b", "c", "d"]);
    let p = passage_loaded(&s, 0, 1).expect("a passage");
    assert!(p.ctx.contains('a') && p.ctx.contains('b') && p.ctx.contains('c'), "{}", p.ctx);
    assert_eq!((p.title.as_str(), p.ctitle.as_str(), p.n), ("A Book", "One", 4));
    let beyond = passage_loaded(&s, 5, 0).expect("a passage");
    assert_eq!((beyond.ctitle.as_str(), beyond.ctx.as_str(), beyond.n), ("Section 6", "", 0));
    assert_eq!(passage_loaded(&Session::new(), 0, 0).err().map(|f| f.status), Some(400));

    let w = Written {
        title: "Other".to_string(),
        name: "Other.epub".to_string(),
        ctitle: "Two".to_string(),
        chunks: vec!["x".to_string(), "y".to_string()],
    };
    let q = passage_named("Other", Some(&w), 0).expect("a passage");
    assert_eq!((q.title.as_str(), q.name.as_str(), q.n), ("Other", "Other.epub", 2));
    assert_eq!(passage_named("Other", None, 0).err().map(|f| f.status), Some(404));
}

#[test]
fn a_memo_names_its_place_or_takes_the_readers() {
    let mut s = book(&["a", "b"]);
    s.playhead = 1;
    assert_eq!(recorded_at(&body(""), &s), (Quotes::Loaded, 0, 1));
    let mut named = body("");
    named.book = Some("Other".to_string());
    named.chapter = Some(4);
    named.chunk = Some(2);
    assert_eq!(recorded_at(&named, &s), (Quotes::Named("Other".to_string()), 4, 2));
}

#[test]
fn an_outcome_is_answered() {
    let t = Transcript { text: "words".to_string(), language: "en".to_string() };
    let out = filing(t.clone(), Ok("n.md".to_string()));
    match respond(out) {
        Answer::Filed(r) => assert_eq!((r.ok, r.file.as_str(), r.text.as_str()), (true, "n.md", "words")),
        Answer::Refused(_, _) => panic!("a filed note was refused"),
    }
    match respond(filing(t, Err("disk full".to_string()))) {
        Answer::Refused(500, m) => assert!(m.contains("disk full"), "{m}"),
        _ => panic!("a note that was not written was filed"),
    }
    assert!(heard(Err("no".to_string())).is_err());
    assert_eq!(failed(404, "no").status, 404);
    assert!(!fake_transcript("x.webm").text.is_empty());
    assert!(prompt("Standing.", "A Book", "One").contains("A Book"));
}

#[test]
fn a_recording_that_is_still_there_is_used_again() {
    let mut record = mine(Jobs::new().claim(WORK, "c-again", None));
    let recording = join_path(&audio_dir(WORK), "20260911220000.webm");
    record.accept(&recording, pending());
    let there = vec!["x.webm".to_string(), "20260911220000.webm".to_string()];
    assert_eq!(record.audio(WORK, &there), Some(recording));
    assert_eq!(record.audio(WORK, &vec!["x.webm".to_string()]), None);
    let said = told(Some(Ok(filed_note("n.md"))));
    assert_eq!(said.ok().map(|f| f.file), Some("n.md".to_string()));
}
