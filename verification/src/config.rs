//! How the server is set up, from the environment it is started in.
//!
//! A value that cannot be read is replaced by its default: a slip in a variable is
//! no reason not to start.

use vstd::prelude::*;
use crate::chars::{chars_of, opt_text, parse_unsigned, parse_word, same_text, texts, unsigned_64, unsigned_word};
use crate::export::{is_number_text, writes_number};
use crate::paths::{join_path, joined};
use crate::stt::{model_path, model_path_of};

verus! {

/// How the server is set up.
#[derive(Debug, Clone)]
pub struct Config {
    pub port: u16,
    /// Where everything that is made is kept.
    pub work: String,
    pub books: Vec<String>,
    pub web: String,
    /// The vault that notes are filed in, where there is one.
    pub vault: Option<String>,
    pub notes_dir: String,
    pub positions_dir: String,
    /// How many chunks past the playhead are rendered.
    pub lookahead: usize,
    pub prefetch_while_paused: bool,
    pub prerender_chapters: usize,
    /// As every number that need not be whole, this one is kept as it is written.
    pub max_audio_gb: String,
    pub max_chapter_gb: String,
    pub silence_s: String,
    pub kokoro_voice: String,
    pub kokoro_speed: String,
    /// What every chunk is multiplied by.
    pub kokoro_gain: String,
    pub kokoro_model: String,
    pub kokoro_voices_dir: String,
    pub fake_tts: bool,
    pub models: String,
    pub whisper_model: String,
    pub whisper_vad_model: String,
    pub whisper_prompt: String,
    /// How many threads one transcription may use.
    pub whisper_threads: usize,
    pub chapter_bitrate: String,
    pub chapter_gap_s: String,
    pub chapter_para_gap_s: String,
    pub hls_segment_s: String,
    pub text_shard_bytes: usize,
    pub text_shard_chapters: usize,
    pub health_stall_s: String,
    pub autopack: bool,
    pub autopack_every_s: String,
    pub watch_books: bool,
    pub sse_heartbeat_s: String,
    pub sse_queue: usize,
    pub sse_render_min_s: String,
    pub sse_retry_ms: u64,
}

/// What a [`Config`] holds.
#[verifier::ext_equal]
pub struct ConfigView {
    pub port: u16,
    pub work: Seq<char>,
    pub books: Seq<Seq<char>>,
    pub web: Seq<char>,
    pub vault: Option<Seq<char>>,
    pub notes_dir: Seq<char>,
    pub positions_dir: Seq<char>,
    pub lookahead: usize,
    pub prefetch_while_paused: bool,
    pub prerender_chapters: usize,
    pub max_audio_gb: Seq<char>,
    pub max_chapter_gb: Seq<char>,
    pub silence_s: Seq<char>,
    pub kokoro_voice: Seq<char>,
    pub kokoro_speed: Seq<char>,
    pub kokoro_gain: Seq<char>,
    pub kokoro_model: Seq<char>,
    pub kokoro_voices_dir: Seq<char>,
    pub fake_tts: bool,
    pub models: Seq<char>,
    pub whisper_model: Seq<char>,
    pub whisper_vad_model: Seq<char>,
    pub whisper_prompt: Seq<char>,
    pub whisper_threads: usize,
    pub chapter_bitrate: Seq<char>,
    pub chapter_gap_s: Seq<char>,
    pub chapter_para_gap_s: Seq<char>,
    pub hls_segment_s: Seq<char>,
    pub text_shard_bytes: usize,
    pub text_shard_chapters: usize,
    pub health_stall_s: Seq<char>,
    pub autopack: bool,
    pub autopack_every_s: Seq<char>,
    pub watch_books: bool,
    pub sse_heartbeat_s: Seq<char>,
    pub sse_queue: usize,
    pub sse_render_min_s: Seq<char>,
    pub sse_retry_ms: u64,
}

impl View for Config {
    type V = ConfigView;

    open spec fn view(&self) -> ConfigView {
        ConfigView {
            port: self.port,
            work: self.work@,
            books: texts(self.books@),
            web: self.web@,
            vault: opt_text(self.vault),
            notes_dir: self.notes_dir@,
            positions_dir: self.positions_dir@,
            lookahead: self.lookahead,
            prefetch_while_paused: self.prefetch_while_paused,
            prerender_chapters: self.prerender_chapters,
            max_audio_gb: self.max_audio_gb@,
            max_chapter_gb: self.max_chapter_gb@,
            silence_s: self.silence_s@,
            kokoro_voice: self.kokoro_voice@,
            kokoro_speed: self.kokoro_speed@,
            kokoro_gain: self.kokoro_gain@,
            kokoro_model: self.kokoro_model@,
            kokoro_voices_dir: self.kokoro_voices_dir@,
            fake_tts: self.fake_tts,
            models: self.models@,
            whisper_model: self.whisper_model@,
            whisper_vad_model: self.whisper_vad_model@,
            whisper_prompt: self.whisper_prompt@,
            whisper_threads: self.whisper_threads,
            chapter_bitrate: self.chapter_bitrate@,
            chapter_gap_s: self.chapter_gap_s@,
            chapter_para_gap_s: self.chapter_para_gap_s@,
            hls_segment_s: self.hls_segment_s@,
            text_shard_bytes: self.text_shard_bytes,
            text_shard_chapters: self.text_shard_chapters,
            health_stall_s: self.health_stall_s@,
            autopack: self.autopack,
            autopack_every_s: self.autopack_every_s@,
            watch_books: self.watch_books,
            sse_heartbeat_s: self.sse_heartbeat_s@,
            sse_queue: self.sse_queue,
            sse_render_min_s: self.sse_render_min_s@,
            sse_retry_ms: self.sse_retry_ms,
        }
    }
}

// ------------------------------------------------------------------- reading it

/// The variables of an environment.
pub type Vars = Seq<(Seq<char>, Seq<char>)>;

/// What an environment holds.
pub open spec fn vars_of(env: Seq<(String, String)>) -> Vars {
    env.map_values(|p: (String, String)| (p.0@, p.1@))
}

/// The value of the first variable from `i` on that is named `key`.
pub open spec fn var_from(vars: Vars, key: Seq<char>, i: int) -> Option<Seq<char>>
    decreases vars.len() - i,
{
    if i < 0 || i >= vars.len() {
        None
    } else if vars[i].0 == key {
        Some(vars[i].1)
    } else {
        var_from(vars, key, i + 1)
    }
}

/// The value of a variable. An empty one counts as none.
pub open spec fn var_of(vars: Vars, key: Seq<char>) -> Option<Seq<char>> {
    match var_from(vars, key, 0) {
        Some(v) if v.len() > 0 => Some(v),
        _ => None,
    }
}

/// The value of a variable, empty or not.
pub fn var(vars: &Vec<(String, String)>, key: &str) -> (r: Option<String>)
    ensures
        opt_text(r) == var_from(vars_of(vars@), key@, 0),
{
    let ghost vs = vars_of(vars@);
    let mut i: usize = 0;
    while i < vars.len()
        invariant
            i <= vars@.len(),
            vs == vars_of(vars@),
            var_from(vs, key@, 0) == var_from(vs, key@, i as int),
        decreases vars@.len() - i,
    {
        let p = &vars[i];
        assert(vs[i as int] == (p.0@, p.1@));
        if same_text(p.0.as_str(), key) {
            return Some(p.1.clone());
        }
        i += 1;
    }
    None
}

/// The value of a variable. An empty one counts as none.
pub fn env(vars: &Vec<(String, String)>, key: &str) -> (r: Option<String>)
    ensures
        opt_text(r) == var_of(vars_of(vars@), key@),
{
    match var(vars, key) {
        Some(v) => if v.as_str().is_empty() {
            None
        } else {
            Some(v)
        },
        None => None,
    }
}

/// The text of a variable, or `default`.
pub open spec fn text_or(vars: Vars, key: Seq<char>, default: Seq<char>) -> Seq<char> {
    match var_of(vars, key) {
        Some(v) => v,
        None => default,
    }
}

fn text(vars: &Vec<(String, String)>, key: &str, default: &str) -> (r: String)
    ensures
        r@ == text_or(vars_of(vars@), key@, default@),
{
    match env(vars, key) {
        Some(v) => v,
        None => default.to_owned(),
    }
}

/// The path that a variable names, or `name` under `dir`.
pub open spec fn path_or(vars: Vars, key: Seq<char>, dir: Seq<char>, name: Seq<char>) -> Seq<char> {
    match var_of(vars, key) {
        Some(v) => v,
        None => joined(dir, name),
    }
}

fn path(vars: &Vec<(String, String)>, key: &str, dir: &str, name: &str) -> (r: String)
    ensures
        r@ == path_or(vars_of(vars@), key@, dir@, name@),
{
    match env(vars, key) {
        Some(v) => v,
        None => join_path(dir, name),
    }
}

/// The whole number of a variable, or `default` where it holds none.
pub open spec fn word_or(vars: Vars, key: Seq<char>, default: usize) -> usize {
    match var_of(vars, key) {
        Some(v) => match unsigned_word(v) {
            Some(n) => n,
            None => default,
        },
        None => default,
    }
}

/// The whole number of a variable, or `default` where it holds none.
pub fn num(vars: &Vec<(String, String)>, key: &str, default: usize) -> (r: usize)
    ensures
        r == word_or(vars_of(vars@), key@, default),
{
    match env(vars, key) {
        Some(v) => match parse_word(&chars_of(v.as_str())) {
            Some(n) => n,
            None => default,
        },
        None => default,
    }
}

/// The whole number of a variable that fits in 64 bits, or `default`.
pub open spec fn long_or(vars: Vars, key: Seq<char>, default: u64) -> u64 {
    match var_of(vars, key) {
        Some(v) => match unsigned_64(v) {
            Some(n) => n,
            None => default,
        },
        None => default,
    }
}

fn long(vars: &Vec<(String, String)>, key: &str, default: u64) -> (r: u64)
    ensures
        r == long_or(vars_of(vars@), key@, default),
{
    match env(vars, key) {
        Some(v) => match parse_unsigned(&chars_of(v.as_str())) {
            Some(n) => n,
            None => default,
        },
        None => default,
    }
}

/// The whole number of a variable that fits in 16 bits, or `default`.
pub open spec fn short_or(vars: Vars, key: Seq<char>, default: u16) -> u16 {
    match var_of(vars, key) {
        Some(v) => match unsigned_64(v) {
            Some(n) if n <= u16::MAX => n as u16,
            _ => default,
        },
        None => default,
    }
}

/// The whole number of a variable that fits in 16 bits, or `default`.
pub fn short(vars: &Vec<(String, String)>, key: &str, default: u16) -> (r: u16)
    ensures
        r == short_or(vars_of(vars@), key@, default),
{
    match env(vars, key) {
        Some(v) => match parse_unsigned(&chars_of(v.as_str())) {
            Some(n) => if n <= 65_535 {
                n as u16
            } else {
                default
            },
            None => default,
        },
        None => default,
    }
}

/// The number of a variable as it is written, or `default` where it writes none.
pub open spec fn measure_or(vars: Vars, key: Seq<char>, default: Seq<char>) -> Seq<char> {
    match var_of(vars, key) {
        Some(v) if is_number_text(v) => v,
        _ => default,
    }
}

fn measure(vars: &Vec<(String, String)>, key: &str, default: &str) -> (r: String)
    ensures
        r@ == measure_or(vars_of(vars@), key@, default@),
{
    match env(vars, key) {
        Some(v) => if writes_number(v.as_str()) {
            v
        } else {
            default.to_owned()
        },
        None => default.to_owned(),
    }
}

/// Whether a variable says 1; `default` where there is none.
pub open spec fn flag_or(vars: Vars, key: Seq<char>, default: bool) -> bool {
    match var_of(vars, key) {
        Some(v) => v == "1"@,
        None => default,
    }
}

/// Whether a variable says 1; `default` where there is none.
pub fn flag(vars: &Vec<(String, String)>, key: &str, default: bool) -> (r: bool)
    ensures
        r == flag_or(vars_of(vars@), key@, default),
{
    match env(vars, key) {
        Some(v) => same_text(v.as_str(), "1"),
        None => default,
    }
}

// ---------------------------------------------------------------- the whole of it

/// The vault: what is named as one, where it is a directory.
pub open spec fn vault_of(vars: Vars, is_dir: bool) -> Option<Seq<char>> {
    if is_dir {
        var_of(vars, "NARRATOR_VAULT"@)
    } else {
        None
    }
}

/// A directory of the vault, or `other` where there is no vault.
pub open spec fn in_vault(vars: Vars, vault: Option<Seq<char>>, key: Seq<char>, default: Seq<char>, other: Seq<char>) -> Seq<char> {
    match vault {
        Some(v) => joined(v, text_or(vars, key, default)),
        None => other,
    }
}

/// At least one.
pub open spec fn one_at_least(n: usize) -> usize {
    if n == 0 {
        1
    } else {
        n
    }
}

/// How the server is set up, in an environment of these variables, on a machine
/// with so many cores; `vault_is_dir` says whether what is named as the vault is
/// a directory.
pub open spec fn config_of(vars: Vars, vault_is_dir: bool, cores: usize) -> ConfigView {
    let vault = vault_of(vars, vault_is_dir);
    let work = text_or(vars, "NARRATOR_WORK"@, "/work"@);
    let models = text_or(vars, "NARRATOR_MODELS"@, "/models"@);
    let books = seq![text_or(vars, "NARRATOR_BOOKS"@, "/books"@)];
    ConfigView {
        port: short_or(vars, "NARRATOR_PORT"@, 7870),
        work,
        books: match vault {
            Some(v) => books.push(
                joined(v, text_or(vars, "BOOKS_SUBDIR"@, "03 - Resources/Books"@)),
            ),
            None => books,
        },
        web: text_or(vars, "NARRATOR_WEB"@, "/web"@),
        vault,
        notes_dir: in_vault(vars, vault, "NOTES_SUBDIR"@, "05 - Fleeting"@, joined(work, "notes"@)),
        positions_dir: in_vault(vars, vault, "POSITIONS_SUBDIR"@, "02 - Studies"@, work),
        lookahead: word_or(vars, "LOOKAHEAD"@, 80),
        prefetch_while_paused: flag_or(vars, "PREFETCH_WHILE_PAUSED"@, true),
        prerender_chapters: word_or(vars, "PRERENDER_CHAPTERS"@, 2),
        max_audio_gb: measure_or(vars, "MAX_AUDIO_GB"@, "5.0"@),
        max_chapter_gb: measure_or(vars, "MAX_CHAPTER_GB"@, "20.0"@),
        silence_s: measure_or(vars, "SILENCE_S"@, "0.5"@),
        kokoro_voice: text_or(vars, "KOKORO_VOICE"@, "af_heart"@),
        kokoro_speed: measure_or(vars, "KOKORO_SPEED"@, "1.0"@),
        kokoro_gain: measure_or(vars, "KOKORO_GAIN"@, "1.0"@),
        kokoro_model: path_or(vars, "KOKORO_MODEL"@, models, "kokoro/model.onnx"@),
        kokoro_voices_dir: path_or(vars, "KOKORO_VOICES"@, models, "kokoro/voices"@),
        fake_tts: flag_or(vars, "NARRATOR_FAKE_TTS"@, false),
        models,
        whisper_model: model_path_of(text_or(vars, "WHISPER_MODEL"@, "large-v3-turbo-q5_0"@), models),
        whisper_vad_model: path_or(vars, "WHISPER_VAD_MODEL"@, models, "whisper/ggml-silero-v5.1.2.bin"@),
        whisper_prompt: text_or(vars, "WHISPER_PROMPT"@, ""@),
        whisper_threads: one_at_least(word_or(vars, "WHISPER_THREADS"@, cores)),
        chapter_bitrate: text_or(vars, "CHAPTER_BITRATE"@, "64k"@),
        chapter_gap_s: measure_or(vars, "CHAPTER_GAP_S"@, "0.30"@),
        chapter_para_gap_s: measure_or(vars, "CHAPTER_PARA_GAP_S"@, "0.60"@),
        hls_segment_s: measure_or(vars, "HLS_SEGMENT_S"@, "6.0"@),
        text_shard_bytes: word_or(vars, "TEXT_SHARD_BYTES"@, 1_500_000),
        text_shard_chapters: word_or(vars, "TEXT_SHARD_CHAPTERS"@, 200),
        health_stall_s: measure_or(vars, "HEALTH_STALL_S"@, "300.0"@),
        autopack: flag_or(vars, "AUTOPACK"@, true),
        autopack_every_s: measure_or(vars, "AUTOPACK_EVERY_S"@, "5.0"@),
        watch_books: flag_or(vars, "NARRATOR_WATCH_BOOKS"@, true),
        sse_heartbeat_s: measure_or(vars, "SSE_HEARTBEAT_S"@, "15.0"@),
        sse_queue: word_or(vars, "SSE_QUEUE"@, 64),
        sse_render_min_s: measure_or(vars, "SSE_RENDER_MIN_S"@, "1.0"@),
        sse_retry_ms: long_or(vars, "SSE_RETRY_MS"@, 3000),
    }
}

impl Config {
    /// How the server is set up, in an environment of these variables.
    pub fn from_env(vars: &Vec<(String, String)>, vault_is_dir: bool, cores: usize) -> (r: Self)
        ensures
            r@ == config_of(vars_of(vars@), vault_is_dir, cores),
    {
        let ghost vs = vars_of(vars@);
        let work = text(vars, "NARRATOR_WORK", "/work");
        let models = text(vars, "NARRATOR_MODELS", "/models");
        let vault = if vault_is_dir {
            env(vars, "NARRATOR_VAULT")
        } else {
            None
        };
        let mut books: Vec<String> = Vec::new();
        books.push(text(vars, "NARRATOR_BOOKS", "/books"));
        assert(texts(books@) =~= seq![text_or(vs, "NARRATOR_BOOKS"@, "/books"@)]);
        let notes_dir = match &vault {
            Some(v) => join_path(v.as_str(), text(vars, "NOTES_SUBDIR", "05 - Fleeting").as_str()),
            None => join_path(work.as_str(), "notes"),
        };
        let positions_dir = match &vault {
            Some(v) => join_path(v.as_str(), text(vars, "POSITIONS_SUBDIR", "02 - Studies").as_str()),
            None => work.clone(),
        };
        if let Some(v) = &vault {
            let more = join_path(
                v.as_str(),
                text(vars, "BOOKS_SUBDIR", "03 - Resources/Books").as_str(),
            );
            let ghost before = texts(books@);
            books.push(more);
            assert(texts(books@) =~= before.push(more@));
        }
        let named = text(vars, "WHISPER_MODEL", "large-v3-turbo-q5_0");
        let whisper_model = model_path(named.as_str(), models.as_str());
        let threads: usize = num(vars, "WHISPER_THREADS", cores);
        let whisper_threads: usize = if threads == 0 {
            1
        } else {
            threads
        };
        let r = Config {
            port: short(vars, "NARRATOR_PORT", 7870),
            books,
            web: text(vars, "NARRATOR_WEB", "/web"),
            vault,
            notes_dir,
            positions_dir,
            lookahead: num(vars, "LOOKAHEAD", 80),
            prefetch_while_paused: flag(vars, "PREFETCH_WHILE_PAUSED", true),
            prerender_chapters: num(vars, "PRERENDER_CHAPTERS", 2),
            max_audio_gb: measure(vars, "MAX_AUDIO_GB", "5.0"),
            max_chapter_gb: measure(vars, "MAX_CHAPTER_GB", "20.0"),
            silence_s: measure(vars, "SILENCE_S", "0.5"),
            kokoro_voice: text(vars, "KOKORO_VOICE", "af_heart"),
            kokoro_speed: measure(vars, "KOKORO_SPEED", "1.0"),
            kokoro_gain: measure(vars, "KOKORO_GAIN", "1.0"),
            kokoro_model: path(vars, "KOKORO_MODEL", models.as_str(), "kokoro/model.onnx"),
            kokoro_voices_dir: path(vars, "KOKORO_VOICES", models.as_str(), "kokoro/voices"),
            fake_tts: flag(vars, "NARRATOR_FAKE_TTS", false),
            whisper_model,
            whisper_vad_model: path(vars, "WHISPER_VAD_MODEL", models.as_str(), "whisper/ggml-silero-v5.1.2.bin"),
            whisper_prompt: text(vars, "WHISPER_PROMPT", ""),
            whisper_threads,
            chapter_bitrate: text(vars, "CHAPTER_BITRATE", "64k"),
            chapter_gap_s: measure(vars, "CHAPTER_GAP_S", "0.30"),
            chapter_para_gap_s: measure(vars, "CHAPTER_PARA_GAP_S", "0.60"),
            hls_segment_s: measure(vars, "HLS_SEGMENT_S", "6.0"),
            text_shard_bytes: num(vars, "TEXT_SHARD_BYTES", 1_500_000),
            text_shard_chapters: num(vars, "TEXT_SHARD_CHAPTERS", 200),
            health_stall_s: measure(vars, "HEALTH_STALL_S", "300.0"),
            autopack: flag(vars, "AUTOPACK", true),
            autopack_every_s: measure(vars, "AUTOPACK_EVERY_S", "5.0"),
            watch_books: flag(vars, "NARRATOR_WATCH_BOOKS", true),
            sse_heartbeat_s: measure(vars, "SSE_HEARTBEAT_S", "15.0"),
            sse_queue: num(vars, "SSE_QUEUE", 64),
            sse_render_min_s: measure(vars, "SSE_RENDER_MIN_S", "1.0"),
            sse_retry_ms: long(vars, "SSE_RETRY_MS", 3000),
            work,
            models,
        };
        assert(r@ =~= config_of(vs, vault_is_dir, cores));
        r
    }

    /// The same for trying things out: everything under one directory, with no
    /// weights, no vault, and nothing that works by itself.
    pub fn for_test(self, root: &str) -> (r: Self)
        ensures
            r@ == (ConfigView {
                work: joined(root@, "work"@),
                books: seq![joined(root@, "books"@)],
                web: joined(root@, "web"@),
                vault: None,
                notes_dir: joined(joined(root@, "work"@), "notes"@),
                positions_dir: joined(root@, "work"@),
                fake_tts: true,
                watch_books: false,
                autopack: false,
                ..self@
            }),
    {
        let work = join_path(root, "work");
        let mut books: Vec<String> = Vec::new();
        books.push(join_path(root, "books"));
        let mut c = self;
        c.notes_dir = join_path(work.as_str(), "notes");
        c.positions_dir = work.clone();
        c.work = work;
        c.web = join_path(root, "web");
        c.vault = None;
        c.fake_tts = true;
        c.watch_books = false;
        c.autopack = false;
        assert(texts(books@) =~= seq![joined(root@, "books"@)]);
        c.books = books;
        c
    }
}

} // verus!
