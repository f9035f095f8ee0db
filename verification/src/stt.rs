//! Voice memos to text: whose turn the machine is, and what comes of one.
//!
//! A memo exists on one phone until it is filed, and a rendered chunk can be made
//! again. So while a memo is being transcribed, or waits to be, the renderer and
//! the packer stand down.

use vstd::prelude::*;
use crate::chapters::{complaint, ends_with, last_line};
use crate::chars::{cat, chars_of, decimal, decimal_text, find_char, join, join_chars, spelled, stands_at, text_of, texts, trim_chars, trim_of, white_space, whites};
use crate::paths::{join_path, joined};
use crate::state::Waiting;
use crate::text_laws::law_trimming_takes_the_ends;

verus! {

// ---------------------------------------------------------------------- who is waiting

/// How many memos are being transcribed, or wait to be.
#[derive(Debug, Clone, Copy, PartialEq, Eq, Structural)]
pub struct SttGate {
    pub n: usize,
}

/// The claim of one memo on the machine. It is given back once, by
/// [`SttGate::leave`].
#[derive(Debug)]
pub struct SttGuard {
    pub claimed: bool,
}

impl SttGate {
    /// Nobody has claimed the machine.
    pub fn new() -> (r: Self)
        ensures
            r.n == 0,
    {
        SttGate { n: 0 }
    }

    /// Claim the machine for a memo.
    pub fn enter(&mut self) -> (r: SttGuard)
        requires
            old(self).n < usize::MAX,
        ensures
            final(self).n == old(self).n + 1,
            r.claimed,
    {
        self.n = self.n + 1;
        SttGuard { claimed: true }
    }

    /// Give the machine back, however the transcription ended.
    pub fn leave(&mut self, guard: SttGuard)
        ensures
            final(self).n == if guard.claimed && old(self).n > 0 {
                old(self).n - 1
            } else {
                old(self).n as int
            },
    {
        if guard.claimed && self.n > 0 {
            self.n = self.n - 1;
        }
    }

    /// How many memos have claimed the machine.
    pub fn count(&self) -> (r: usize)
        ensures
            r == self.n,
    {
        self.n
    }

    /// Whether any memo has claimed the machine.
    pub fn held(&self) -> (r: bool)
        ensures
            r == (self.n > 0),
    {
        self.n > 0
    }

    /// What one who has waited for `waited` for the machine to be free does, and
    /// was to wait for `timeout`.
    pub fn wait_clear(&self, waited: u64, timeout: u64) -> (r: Waiting)
        ensures
            r == if self.n == 0 {
                Waiting::Done(true)
            } else if waited >= timeout {
                Waiting::Done(false)
            } else {
                Waiting::Sleep((timeout - waited) as u64)
            },
    {
        if self.n == 0 {
            Waiting::Done(true)
        } else if waited >= timeout {
            Waiting::Done(false)
        } else {
            Waiting::Sleep(timeout - waited)
        }
    }
}

/// How many claims are open after some memos came and went.
pub open spec fn claims_after(n: int, events: Seq<bool>) -> int
    decreases events.len(),
{
    if events.len() == 0 {
        n
    } else {
        let was = claims_after(n, events.drop_last());
        if events.last() {
            was + 1
        } else if was > 0 {
            was - 1
        } else {
            0
        }
    }
}

/// The machine is free again when as many memos have gone as came, each having
/// come before it went.
pub proof fn law_the_last_memo_frees_the_machine(n: int, events: Seq<bool>)
    requires
        0 <= n,
        forall|k: int| 0 <= k <= events.len() ==> n + arrivals(#[trigger] events.take(k)) >= 0,
    ensures
        claims_after(n, events) == n + arrivals(events),
    decreases events.len(),
{
    if events.len() > 0 {
        let front = events.drop_last();
        assert forall|k: int| 0 <= k <= front.len() implies n + arrivals(#[trigger] front.take(k))
            >= 0 by {
            assert(front.take(k) =~= events.take(k));
        }
        law_the_last_memo_frees_the_machine(n, front);
        assert(events.take(events.len() as int) =~= events);
    }
}

/// How many more memos came than went.
pub open spec fn arrivals(events: Seq<bool>) -> int
    decreases events.len(),
{
    if events.len() == 0 {
        0
    } else {
        arrivals(events.drop_last()) + if events.last() {
            1int
        } else {
            -1
        }
    }
}

// --------------------------------------------------------------------- the errors

/// A memo could not be transcribed.
#[derive(Debug, Clone, PartialEq)]
pub enum SttError {
    /// There is nothing to transcribe with, now.
    Unavailable(String),
    /// The recording could not be decoded.
    Decode(String),
    /// The transcription itself failed.
    Failed(String),
}

impl SttError {
    /// What is shown of the failure.
    pub fn message(&self) -> (r: String)
        ensures
            r@ == match *self {
                SttError::Unavailable(e) => "no transcriber: "@ + e@,
                SttError::Decode(e) => "decode: "@ + e@,
                SttError::Failed(e) => "transcription failed: "@ + e@,
            },
    {
        match self {
            SttError::Unavailable(e) => cat("no transcriber: ", e.as_str()),
            SttError::Decode(e) => cat("decode: ", e.as_str()),
            SttError::Failed(e) => cat("transcription failed: ", e.as_str()),
        }
    }
}

// ---------------------------------------------------------------------- the model

/// Whether a model is named by its path.
pub open spec fn names_a_path(spec: Seq<char>) -> bool {
    spec.contains('/') || ends_with(spec, ".bin"@)
}

/// Where a model is: at the path it is named by, or under its name where models
/// are kept.
pub open spec fn model_path_of(spec: Seq<char>, models: Seq<char>) -> Seq<char> {
    if names_a_path(spec) {
        spec
    } else {
        joined(joined(models, "whisper"@), "ggml-"@ + spec + ".bin"@)
    }
}

/// Where a model is.
pub fn model_path(spec: &str, models_dir: &str) -> (r: String)
    ensures
        r@ == model_path_of(spec@, models_dir@),
{
    let v = chars_of(spec);
    let at: usize = find_char(&v, '/', 0);
    let tail = chars_of(".bin");
    let is_bin = tail.len() <= v.len() && stands_at(&v, &tail, v.len() - tail.len());
    proof {
        assert(spec@.contains('/') <==> at < v@.len()) by {
            if at < v@.len() {
                assert(spec@[at as int] == '/');
            }
        }
    }
    if at < v.len() || is_bin {
        return spec.to_owned();
    }
    let name = cat(cat("ggml-", spec).as_str(), ".bin");
    join_path(join_path(models_dir, "whisper").as_str(), name.as_str())
}

/// What is said where there is no model.
pub fn missing_model(model: &str) -> (r: SttError)
    ensures
        r matches SttError::Unavailable(e) && e@ == model@ + " is missing"@,
{
    SttError::Unavailable(cat(model, " is missing"))
}

// ----------------------------------------------------------------------- decoding

/// How long a recording may take to decode, in seconds.
pub const DECODE_TIMEOUT_S: u64 = 120;

/// What the decoder is called with.
pub fn decode_args(path: &str) -> (r: Vec<String>)
    ensures
        texts(r@) == seq![
            "-nostdin"@,
            "-v"@,
            "error"@,
            "-i"@,
            path@,
            "-f"@,
            "f32le"@,
            "-acodec"@,
            "pcm_f32le"@,
            "-ac"@,
            "1"@,
            "-ar"@,
            "16000"@,
            "-"@,
        ],
{
    let mut r: Vec<String> = Vec::new();
    r.push("-nostdin".to_owned());
    r.push("-v".to_owned());
    r.push("error".to_owned());
    r.push("-i".to_owned());
    r.push(path.to_owned());
    r.push("-f".to_owned());
    r.push("f32le".to_owned());
    r.push("-acodec".to_owned());
    r.push("pcm_f32le".to_owned());
    r.push("-ac".to_owned());
    r.push("1".to_owned());
    r.push("-ar".to_owned());
    r.push("16000".to_owned());
    r.push("-".to_owned());
    assert(texts(r@) =~= seq![
        "-nostdin"@,
        "-v"@,
        "error"@,
        "-i"@,
        path@,
        "-f"@,
        "f32le"@,
        "-acodec"@,
        "pcm_f32le"@,
        "-ac"@,
        "1"@,
        "-ar"@,
        "16000"@,
        "-"@,
    ]);
    r
}

/// How a decoder ended.
#[derive(Debug, Clone, PartialEq)]
pub enum Decoder {
    /// It could not be run.
    NotRun(String),
    /// It was killed when its time was up.
    TimedOut,
    /// It failed, and printed this.
    Failed(String),
    /// It is done, and wrote so many bytes.
    Wrote(usize),
}

/// How many samples a recording has, or why it has none.
pub fn decoded(program: &str, timeout_s: u64, end: &Decoder) -> (r: Result<usize, SttError>)
    ensures
        match *end {
            Decoder::NotRun(e) => r matches Err(SttError::Decode(m)) && m@ == program@ + ": "@
                + e@,
            Decoder::TimedOut => r matches Err(SttError::Decode(m)) && m@ == program@
                + " did not finish within "@ + decimal(timeout_s as nat) + "s; killed"@,
            Decoder::Failed(printed) => r matches Err(SttError::Decode(m)) && m@ == last_line(
                printed@,
            ),
            Decoder::Wrote(n) => if n < 4 {
                r matches Err(SttError::Decode(m)) && m@ == "no audio in the recording"@
            } else {
                r == Ok::<usize, SttError>((n / 4) as usize)
            },
        },
{
    match end {
        Decoder::NotRun(e) => Err(
            SttError::Decode(cat(cat(program, ": ").as_str(), e.as_str())),
        ),
        Decoder::TimedOut => {
            let a = cat(program, " did not finish within ");
            let b = cat(a.as_str(), decimal_text(timeout_s).as_str());
            Err(SttError::Decode(cat(b.as_str(), "s; killed")))
        },
        Decoder::Failed(printed) => Err(SttError::Decode(complaint(printed.as_str()))),
        Decoder::Wrote(n) => if *n < 4 {
            Err(SttError::Decode("no audio in the recording".to_owned()))
        } else {
            Ok(*n / 4)
        },
    }
}

// ------------------------------------------------------------------ the transcript

/// What was said, and in which language.
#[derive(Debug, Clone, PartialEq, Eq)]
pub struct Transcript {
    pub text: String,
    pub language: String,
}

/// The first `n` segments, trimmed, without those that say nothing.
pub open spec fn said_upto(segments: Seq<Seq<char>>, n: int) -> Seq<Seq<char>>
    decreases n,
{
    if n <= 0 {
        Seq::empty()
    } else if trim_of(segments[n - 1]).len() == 0 {
        said_upto(segments, n - 1)
    } else {
        said_upto(segments, n - 1).push(trim_of(segments[n - 1]))
    }
}

/// The text of a transcript: what its segments say, one space between them.
pub open spec fn transcript_text(segments: Seq<Seq<char>>) -> Seq<char> {
    trim_of(join(said_upto(segments, segments.len() as int), " "@))
}

/// A transcript of what was heard, in English where the language is not known.
pub fn transcript(segments: &Vec<String>, language: Option<&str>) -> (r: Transcript)
    ensures
        r.text@ == transcript_text(texts(segments@)),
        r.text@ == join(
            texts(segments@).map_values(|s: Seq<char>| trim_of(s)).filter(
                |s: Seq<char>| s.len() > 0,
            ),
            " "@,
        ),
        r.language@ == match language {
            Some(l) => l@,
            None => "en"@,
        },
{
    let ghost all = texts(segments@);
    let mut said: Vec<Vec<char>> = Vec::new();
    let mut i: usize = 0;
    assert(spelled(said@) =~= Seq::<Seq<char>>::empty());
    while i < segments.len()
        invariant
            i <= segments@.len(),
            all == texts(segments@),
            spelled(said@) == said_upto(all, i as int),
        decreases segments@.len() - i,
    {
        assert(all[i as int] == segments@[i as int]@);
        let t = trim_chars(&chars_of(segments[i].as_str()));
        if t.len() > 0 {
            let ghost before = spelled(said@);
            said.push(t);
            assert(spelled(said@) =~= before.push(t@));
        }
        i += 1;
    }
    proof {
        law_every_segment_is_heard(all);
    }
    let joined = join_chars(&said, &chars_of(" "));
    let text = text_of(&trim_chars(&joined));
    let language = match language {
        Some(l) => l.to_owned(),
        None => "en".to_owned(),
    };
    Transcript { text, language }
}

/// A join of texts that have no white space at their ends has none at its own.
proof fn lemma_join_ends(parts: Seq<Seq<char>>)
    requires
        parts.len() > 0,
        forall|i: int|
            0 <= i < parts.len() ==> (#[trigger] parts[i]).len() > 0 && !white_space(parts[i][0])
                && !white_space(parts[i].last()),
    ensures
        ({
            let s = join(parts, " "@);
            s.len() > 0 && !white_space(s[0]) && !white_space(s.last())
        }),
    decreases parts.len(),
{
    if parts.len() == 1 {
        assert(join(parts, " "@) == parts[0]);
    } else {
        let before = parts.drop_last();
        assert forall|i: int| 0 <= i < before.len() implies (#[trigger] before[i]).len() > 0
            && !white_space(before[i][0]) && !white_space(before[i].last()) by {
            assert(before[i] == parts[i]);
        }
        lemma_join_ends(before);
        let s = join(parts, " "@);
        assert(s == join(before, " "@) + " "@ + parts.last());
        assert(s[0] == join(before, " "@)[0]);
        assert(parts.last() == parts[parts.len() - 1]);
        assert(s.last() == parts.last().last());
    }
}

/// Every segment that says something is in the text, and nothing else is: the text is
/// what is left of the segments without the white space at their ends, those left out
/// of which nothing is left, in their order and with one space between each two. There
/// are as many parts as segments that say something.
pub proof fn law_every_segment_is_heard(segments: Seq<Seq<char>>)
    ensures
        ({
            let said = segments.map_values(|s: Seq<char>| trim_of(s)).filter(
                |s: Seq<char>| s.len() > 0,
            );
            &&& transcript_text(segments) == join(said, " "@)
            &&& said.len() == segments.filter(|s: Seq<char>| trim_of(s).len() > 0).len()
        }),
{
    let f = |s: Seq<char>| trim_of(s);
    let p = |s: Seq<char>| s.len() > 0;
    let q = |s: Seq<char>| trim_of(s).len() > 0;
    lemma_said(segments, segments.len() as int);
    assert(segments.take(segments.len() as int) =~= segments);
    let said = segments.map_values(f).filter(p);
    assert forall|i: int| 0 <= i < said.len() implies (#[trigger] said[i]).len() > 0
        && !white_space(said[i][0]) && !white_space(said[i].last()) by {
        segments.map_values(f).lemma_filter_pred(p, i);
        assert(said.contains(said[i]));
        segments.map_values(f).lemma_filter_contains_rev(p, said[i]);
        let k = choose|k: int|
            0 <= k < segments.len() && #[trigger] segments.map_values(f)[k] == said[i];
        law_trimming_takes_the_ends(segments[k], whites());
    }
    let s = join(said, " "@);
    let ends = law_trimming_takes_the_ends(s, whites());
    if said.len() > 0 {
        lemma_join_ends(said);
        assert(ends.0 == 0);
        assert(ends.1 == s.len());
        assert(trim_of(s) =~= s);
    } else {
        assert(trim_of(s) =~= s);
    }
}

proof fn lemma_said(segments: Seq<Seq<char>>, n: int)
    requires
        0 <= n <= segments.len(),
    ensures
        said_upto(segments, n) == segments.take(n).map_values(|s: Seq<char>| trim_of(s)).filter(
            |s: Seq<char>| s.len() > 0,
        ),
        said_upto(segments, n).len() == segments.take(n).filter(
            |s: Seq<char>| trim_of(s).len() > 0,
        ).len(),
    decreases n,
{
    let f = |s: Seq<char>| trim_of(s);
    let p = |s: Seq<char>| s.len() > 0;
    let q = |s: Seq<char>| trim_of(s).len() > 0;
    reveal(Seq::filter);
    if n > 0 {
        lemma_said(segments, n - 1);
        let before = segments.take(n - 1);
        let a = segments[n - 1];
        assert(segments.take(n) =~= before.push(a));
        assert(segments.take(n).map_values(f) =~= before.map_values(f).push(f(a)));
        before.map_values(f).lemma_filter_push(f(a), p);
        before.lemma_filter_push(a, q);
    }
}

} // verus!
