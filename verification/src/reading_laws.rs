//! What short texts are read as, said of how they are written.

use vstd::prelude::*;
use crate::api::device::{clean_id_of, clean_name_of, control, device_of, held, name_chars, query_value_of};
use crate::api::media::{chapter_file_of, number_before, segment_name, ChapterFile};
use crate::book::{blank, blanks, closer, closers, strip, stripped, ChunkView};
use crate::cache::first;
use crate::chapters::{abbreviated, bitrate_parts_of, end_trimmed, ends_with, gap_between, Gap};
use crate::chars::{cut_at_last, decimal, is_digit, is_numeral, join, lemma_decimal, lemma_run_end, lemma_run_start, lowered, lowered_text, other_than, run_end, run_start, trim_of, unsigned_word, white_space, whites, words_from};
use crate::epub::element_text;
use crate::export::{escaped, escaped_upto, exponent_end, is_number_text, sign_len};
use crate::text_laws::{law_cuts_join_back, law_ends_come_off, law_joins_add_up, law_trimming_takes_the_ends, law_words_add_up};
use crate::tts::numbers::digits;

verus! {

// ----------------------------------------------------------------------- escaping

proof fn lemma_escaped_prefix(a: Seq<char>, b: Seq<char>, n: nat)
    requires
        n <= a.len(),
    ensures
        escaped_upto(a + b, n) == escaped_upto(a, n),
    decreases n,
{
    if n > 0 {
        lemma_escaped_prefix(a, b, (n - 1) as nat);
        assert((a + b)[n - 1] == a[n - 1]);
    }
}

proof fn lemma_escaped_on(a: Seq<char>, b: Seq<char>, n: nat)
    requires
        n <= b.len(),
    ensures
        escaped_upto(a + b, a.len() + n) == escaped(a) + escaped_upto(b, n),
    decreases n,
{
    if n == 0 {
        lemma_escaped_prefix(a, b, a.len());
        assert(escaped(a) + escaped_upto(b, 0) =~= escaped(a));
    } else {
        lemma_escaped_on(a, b, (n - 1) as nat);
        assert((a + b)[a.len() + n - 1] == b[n - 1]);
        let x = escaped_upto(b, (n - 1) as nat);
        let y = crate::export::escaped_char(b[n - 1]);
        assert((escaped(a) + x) + y =~= escaped(a) + (x + y));
    }
}

/// A text is escaped character by character: a backslash goes before each that means
/// something to the reader of the metadata, and every other stays as it is.
pub proof fn law_escaping_goes_by_characters(a: Seq<char>, b: Seq<char>, c: char)
    ensures
        escaped(a + b) == escaped(a) + escaped(b),
        escaped(seq![c]) == if c == '=' || c == ';' || c == '#' || c == '\\' || c == '\n' {
            seq!['\\', c]
        } else {
            seq![c]
        },
{
    lemma_escaped_on(a, b, b.len());
    let one = seq![c];
    assert(one[0] == c);
    assert(escaped_upto(one, 0) =~= Seq::<char>::empty());
    assert(escaped(one) =~= crate::export::escaped_char(c));
}

// ------------------------------------------------------------------------ the gaps

proof fn lemma_end_trimmed(s: Seq<char>, tail: Seq<char>, p: spec_fn(char) -> bool)
    requires
        s.len() > 0 ==> !p(s.last()),
        forall|i: int| 0 <= i < tail.len() ==> p(#[trigger] tail[i]),
    ensures
        end_trimmed(s + tail, p) == s,
{
    let all = s + tail;
    lemma_run_start(all, p, 0, all.len() as int);
    let k = run_start(all, p, 0, all.len() as int);
    assert(k == s.len()) by {
        if k < s.len() {
            assert(p(all[s.len() - 1]));
        } else if k > s.len() {
            assert(all[k - 1] == tail[k - 1 - s.len()]);
        }
    }
    assert(all.take(k) =~= s);
}

/// How long a silence is between two chunks. The longest is between two paragraphs. In
/// one paragraph it goes by how the first chunk ends, whatever closing quotes and white
/// space stand behind that: with an exclamation mark, a question mark or an ellipsis a
/// sentence is over, with a stop it is unless that is of an abbreviation, and with
/// anything else it is not.
pub proof fn law_silences_go_by_the_end(
    body: Seq<char>,
    mark: char,
    closing: Seq<char>,
    behind: Seq<char>,
    prev: ChunkView,
    next: ChunkView,
)
    requires
        prev.text == body.push(mark) + closing + behind,
        !closer(mark),
        !white_space(mark),
        forall|i: int| 0 <= i < closing.len() ==> closer(#[trigger] closing[i]),
        forall|i: int| 0 <= i < behind.len() ==> white_space(#[trigger] behind[i]),
    ensures
        gap_between(prev, next) == if prev.para != next.para {
            Gap::Para
        } else if mark == '!' || mark == '?' || mark == '\u{2026}' || (mark == '.' && !abbreviated(
            body,
        )) {
            Gap::Sentence
        } else {
            Gap::Phrase
        },
{
    let s = body.push(mark);
    let t = s + closing;
    assert(t.len() > 0 && !white_space(t.last())) by {
        if closing.len() > 0 {
            assert(t.last() == closing[closing.len() - 1]);
            assert(closer(closing[closing.len() - 1]));
        } else {
            assert(t.last() == mark);
        }
    }
    lemma_end_trimmed(t, behind, whites());
    assert(s.last() == mark);
    lemma_end_trimmed(s, closing, closers());
    assert(s.drop_last() =~= body);
}

// ----------------------------------------------------------------------- the words

/// The words of some strings, one after the other.
pub open spec fn words_in(strings: Seq<Seq<char>>) -> Seq<Seq<char>> {
    strings.map_values(|s: Seq<char>| words_from(s, blanks(), 0)).flatten_alt()
}

/// The text of an element is every word of its strings, in order, with one space
/// between each two.
pub proof fn law_an_element_says_every_word(strings: Seq<Seq<char>>)
    ensures
        element_text(strings) == join(words_in(strings), " "@),
{
    lemma_words_joined(strings);
}

proof fn lemma_words_joined(strings: Seq<Seq<char>>)
    ensures
        words_from(join(stripped(strings), " "@), blanks(), 0) == words_in(strings),
    decreases strings.len(),
{
    reveal_strlit(" ");
    let f = |s: Seq<char>| words_from(s, blanks(), 0);
    let g = |p: Seq<char>| strip(p);
    let keep = |p: Seq<char>| p.len() > 0;
    let none = Seq::<char>::empty();
    law_words_add_up(none, none, ' ', blanks());
    reveal(Seq::filter);
    if strings.len() == 0 {
        assert(strings.map_values(g) =~= Seq::<Seq<char>>::empty());
        assert(stripped(strings) =~= Seq::<Seq<char>>::empty());
        assert(strings.map_values(f) =~= Seq::<Seq<Seq<char>>>::empty());
        assert(join(stripped(strings), " "@) =~= none);
    } else {
        let before = strings.drop_last();
        let s = strings.last();
        lemma_words_joined(before);
        lemma_words_stripped(s);
        assert(strings.map_values(g) =~= before.map_values(g).push(strip(s)));
        before.map_values(g).lemma_filter_push(strip(s), keep);
        assert(strings.map_values(f).drop_last() =~= before.map_values(f));
        assert(words_in(strings) == words_in(before) + f(s));
        let parts = stripped(before);
        if strip(s).len() > 0 {
            assert(stripped(strings) == parts.push(strip(s)));
            let one = seq![strip(s)];
            assert(parts.push(strip(s)) =~= parts + one);
            law_joins_add_up(parts, one, strip(s), " "@);
            if parts.len() > 0 {
                assert(" "@ =~= seq![' ']);
                law_words_add_up(join(parts, " "@), strip(s), ' ', blanks());
            } else {
                assert(parts + one =~= one);
                assert(join(parts, " "@) =~= none);
                assert(words_in(before) =~= Seq::<Seq<char>>::empty());
                assert(words_in(before) + f(s) =~= f(s));
            }
        } else {
            assert(strip(s) =~= none);
            assert(f(s) =~= Seq::<Seq<char>>::empty());
            assert(words_in(before) + f(s) =~= words_in(before));
        }
    }
}

/// Blanks at the ends of a text are no words of it.
proof fn lemma_words_stripped(s: Seq<char>)
    ensures
        words_from(strip(s), blanks(), 0) == words_from(s, blanks(), 0),
{
    let ends = law_trimming_takes_the_ends(s, blanks());
    let a = s.take(ends.0);
    let m = s.subrange(ends.0, ends.1);
    let b = s.skip(ends.1);
    assert(s =~= a + m + b);
    lemma_words_behind(m, b);
    lemma_words_before(a, m + b);
    assert(a + (m + b) =~= s);
}

proof fn lemma_words_behind(m: Seq<char>, b: Seq<char>)
    requires
        forall|k: int| 0 <= k < b.len() ==> blank(#[trigger] b[k]),
    ensures
        words_from(m + b, blanks(), 0) == words_from(m, blanks(), 0),
    decreases b.len(),
{
    let none = Seq::<char>::empty();
    if b.len() == 0 {
        assert(m + b =~= m);
    } else {
        let rest = b.drop_last();
        assert forall|k: int| 0 <= k < rest.len() implies blank(#[trigger] rest[k]) by {
            assert(rest[k] == b[k]);
        }
        lemma_words_behind(m, rest);
        let c = b[b.len() - 1];
        law_words_add_up(m + rest, none, c, blanks());
        law_words_add_up(none, none, c, blanks());
        assert(m + rest + seq![c] + none =~= m + b);
        assert(words_from(m + rest, blanks(), 0) + words_from(none, blanks(), 0) =~= words_from(
            m + rest,
            blanks(),
            0,
        ));
    }
}

proof fn lemma_words_before(a: Seq<char>, m: Seq<char>)
    requires
        forall|k: int| 0 <= k < a.len() ==> blank(#[trigger] a[k]),
    ensures
        words_from(a + m, blanks(), 0) == words_from(m, blanks(), 0),
    decreases a.len(),
{
    let none = Seq::<char>::empty();
    if a.len() == 0 {
        assert(a + m =~= m);
    } else {
        let rest = a.drop_first();
        assert forall|k: int| 0 <= k < rest.len() implies blank(#[trigger] rest[k]) by {
            assert(rest[k] == a[k + 1]);
        }
        lemma_words_before(rest, m);
        let c = a[0];
        law_words_add_up(none, rest + m, c, blanks());
        law_words_add_up(none, none, c, blanks());
        assert(none + seq![c] + (rest + m) =~= a + m);
        assert(words_from(none, blanks(), 0) + words_from(rest + m, blanks(), 0) =~= words_from(
            rest + m,
            blanks(),
            0,
        ));
    }
}

// ---------------------------------------------------------------------- the numbers

/// Digits, and nothing else.
pub open spec fn only_digits(d: Seq<char>) -> bool {
    forall|i: int| 0 <= i < d.len() ==> '0' <= #[trigger] d[i] <= '9'
}

/// A sign, or none.
pub open spec fn signs(g: Seq<char>) -> bool {
    g.len() == 0 || g == seq!['+'] || g == seq!['-']
}

proof fn lemma_digits_run(s: Seq<char>, a: int, e: int)
    requires
        0 <= a <= e <= s.len(),
        forall|k: int| a <= k < e ==> '0' <= #[trigger] s[k] <= '9',
        e < s.len() ==> !('0' <= s[e] <= '9'),
    ensures
        run_end(s, digits(), a) == e,
    decreases e - a,
{
    if a < e {
        lemma_digits_run(s, a + 1, e);
    }
}

/// What writes a number: a sign or none, digits, a stop or none with digits behind it,
/// some digit before or behind it, and an exponent or none, which has a sign or none
/// and digits.
pub proof fn law_how_a_number_is_written(
    g: Seq<char>,
    d: Seq<char>,
    point: bool,
    f: Seq<char>,
    exponent: bool,
    h: Seq<char>,
    x: Seq<char>,
)
    requires
        signs(g),
        signs(h),
        only_digits(d),
        only_digits(f),
        only_digits(x),
        !point ==> f.len() == 0,
        !exponent ==> h.len() == 0 && x.len() == 0,
        d.len() + f.len() > 0,
        exponent ==> x.len() > 0,
    ensures
        is_number_text(
            g + d + (if point {
                seq!['.'] + f
            } else {
                f
            }) + (if exponent {
                seq!['e'] + h + x
            } else {
                x
            }),
        ),
{
    let dot = if point {
        seq!['.'] + f
    } else {
        f
    };
    let tail = if exponent {
        seq!['e'] + h + x
    } else {
        x
    };
    let s = g + d + dot + tail;
    let i = g.len() as int;
    let a = i + d.len();
    assert forall|k: int| i <= k < a implies '0' <= #[trigger] s[k] <= '9' by {
        assert(s[k] == d[k - i]);
    }
    if a < s.len() {
        if point {
            assert(s[a] == '.');
        } else if exponent {
            assert(s[a] == 'e');
        }
    }
    if g.len() > 0 {
        assert(s[0] == g[0]);
    } else if s.len() > 0 {
        if d.len() > 0 {
            assert(s[0] == d[0]);
        } else {
            assert(s[0] == '.');
        }
    }
    assert(sign_len(s, 0) == i);
    lemma_digits_run(s, i, a);
    let b = if point {
        a + 1 + f.len()
    } else {
        a
    };
    if point {
        assert(s[a] == '.');
        assert forall|k: int| a + 1 <= k < b implies '0' <= #[trigger] s[k] <= '9' by {
            assert(s[k] == f[k - a - 1]);
        }
        if b < s.len() {
            assert(s[b] == 'e');
        }
        lemma_digits_run(s, a + 1, b);
    }
    if exponent {
        assert(s[b] == 'e');
        let c = b + 1 + h.len();
        if h.len() > 0 {
            assert(s[b + 1] == h[0]);
        } else {
            assert(s[b + 1] == x[0]);
        }
        assert(sign_len(s, b + 1) == h.len());
        assert forall|k: int| c <= k < s.len() implies '0' <= #[trigger] s[k] <= '9' by {
            assert(s[k] == x[k - c]);
        }
        lemma_digits_run(s, c, s.len() as int);
        assert(exponent_end(s, b) == Some(s.len() as int));
    } else {
        assert(s.len() == b);
        assert(exponent_end(s, b) == Some(s.len() as int));
    }
}

/// And what writes a number is written so, or is one of the words for what is no number
/// or has no end, with a sign or none: the parts of it are its sign, its digits, whether
/// it has a stop and the digits behind that, and whether it has an exponent and the sign
/// and the digits of that.
pub proof fn law_a_number_comes_apart(s: Seq<char>) -> (r: (
    Seq<char>,
    Seq<char>,
    Seq<char>,
    Seq<char>,
))
    requires
        is_number_text(s),
    ensures
        ({
            let (g, d, f, x) = r;
            &&& signs(g)
            &&& s == g + d + f + x
            &&& {
                ||| lowered_text(d) == "inf"@ || lowered_text(d) == "infinity"@ || lowered_text(d)
                    == "nan"@
                ||| {
                    &&& only_digits(d)
                    &&& f.len() == 0 || (f[0] == '.' && only_digits(f.skip(1)))
                    &&& d.len() > 0 || f.len() > 1
                    &&& x.len() == 0 || {
                        &&& x[0] == 'e' || x[0] == 'E'
                        &&& ({
                            let rest = x.skip(1);
                            let more = if rest.len() > 0 && (rest[0] == '+' || rest[0] == '-') {
                                rest.skip(1)
                            } else {
                                rest
                            };
                            more.len() > 0 && only_digits(more)
                        })
                    }
                }
            }
        }),
{
    let i = sign_len(s, 0);
    let g = s.take(i);
    assert(signs(g)) by {
        if i == 1 {
            assert(g =~= seq![s[0]]);
        }
    }
    let none = Seq::<char>::empty();
    let word = s.skip(i);
    if lowered_text(word) == "inf"@ || lowered_text(word) == "infinity"@ || lowered_text(word)
        == "nan"@ {
        assert(s =~= g + word + none + none);
        (g, word, none, none)
    } else {
        lemma_run_end(s, digits(), i);
        let a = run_end(s, digits(), i);
        let point = a < s.len() && s[a] == '.';
        if point {
            lemma_run_end(s, digits(), a + 1);
        }
        let b = if point {
            run_end(s, digits(), a + 1)
        } else {
            a
        };
        let d = s.subrange(i, a);
        let f = s.subrange(a, b);
        let x = s.skip(b);
        assert(s =~= g + d + f + x);
        assert forall|k: int| 0 <= k < d.len() implies '0' <= #[trigger] d[k] <= '9' by {
            assert(digits()(s[i + k]));
        }
        if point {
            assert(f[0] == '.');
            let behind = f.skip(1);
            assert forall|k: int| 0 <= k < behind.len() implies '0' <= #[trigger] behind[k]
                <= '9' by {
                assert(behind[k] == s[a + 1 + k]);
                assert(digits()(s[a + 1 + k]));
            }
        }
        if x.len() > 0 {
            assert(x[0] == s[b]);
            assert(s[b] == 'e' || s[b] == 'E');
            let h = sign_len(s, b + 1);
            let c = b + 1 + h;
            lemma_run_end(s, digits(), c);
            let rest = x.skip(1);
            if rest.len() > 0 {
                assert(rest[0] == s[b + 1]);
            }
            let more = if rest.len() > 0 && (rest[0] == '+' || rest[0] == '-') {
                rest.skip(1)
            } else {
                rest
            };
            assert(more =~= s.skip(c));
            assert forall|k: int| 0 <= k < more.len() implies '0' <= #[trigger] more[k] <= '9' by {
                assert(more[k] == s[c + k]);
                assert(digits()(s[c + k]));
            }
        }
        (g, d, f, x)
    }
}

/// What writes no number: nothing, a sign alone, and anything that starts with neither
/// a digit nor a stop, behind its sign, and is none of the words for what is no number.
pub proof fn law_what_is_no_number(g: Seq<char>, rest: Seq<char>)
    requires
        signs(g),
        rest.len() > 0 ==> !('0' <= rest[0] <= '9') && rest[0] != '.' && !(g.len() == 0 && (rest[0]
            == '+' || rest[0] == '-')),
        lowered_text(rest) != "inf"@,
        lowered_text(rest) != "infinity"@,
        lowered_text(rest) != "nan"@,
    ensures
        !is_number_text(g + rest),
{
    let s = g + rest;
    let i = g.len() as int;
    if g.len() > 0 {
        assert(s[0] == g[0]);
    } else if rest.len() > 0 {
        assert(s[0] == rest[0]);
    }
    assert(sign_len(s, 0) == i);
    assert(s.skip(i) =~= rest);
    if rest.len() > 0 {
        assert(s[i] == rest[0]);
    }
    lemma_digits_run(s, i, i);
}

// --------------------------------------------------------------------- the bit rates

/// A rate in digits is read as it is, in thousands with a `k` behind it and in millions
/// with an `m`.
pub proof fn law_rates_are_read_in_their_unit(d: Seq<char>)
    requires
        is_numeral(d),
    ensures
        bitrate_parts_of(d) == (d, 1u64),
        bitrate_parts_of(d.push('k')) == (d, 1_000u64),
        bitrate_parts_of(d.push('m')) == (d, 1_000_000u64),
{
    lemma_rate(d, d);
    lemma_rate(d.push('k'), d);
    lemma_rate(d.push('m'), d);
    lemma_rate_trim(d);
    assert(is_digit(d[d.len() - 1]));
    assert(d.push('k').drop_last() =~= d);
    assert(d.push('m').drop_last() =~= d);
}

proof fn lemma_rate_trim(s: Seq<char>)
    requires
        s.len() > 0,
        !white_space(s[0]),
        !white_space(s.last()),
    ensures
        trim_of(s) == s,
{
    let ends = law_trimming_takes_the_ends(s, whites());
    assert(ends.0 == 0 && ends.1 == s.len());
    assert(trim_of(s) =~= s);
}

proof fn lemma_rate(s: Seq<char>, d: Seq<char>)
    requires
        is_numeral(d),
        s == d || s == d.push('k') || s == d.push('m'),
    ensures
        trim_of(s) == s,
        lowered_text(s) == s,
        crate::chapters::unit_len(s) == 0,
        s.take(s.len() as int) == s,
{
    reveal_strlit("bit/s");
    reveal_strlit("bits");
    reveal_strlit("bps");
    reveal_strlit("bit");
    assert(is_digit(d[0]));
    assert(s[0] == d[0]);
    let z = s.last();
    assert(z == 'k' || z == 'm' || is_digit(z)) by {
        if s == d {
            assert(is_digit(d[d.len() - 1]));
        }
    }
    lemma_rate_trim(s);
    assert(lowered_text(s) =~= s) by {
        assert forall|i: int| 0 <= i < s.len() implies lowered(#[trigger] s[i]) == s[i] by {
            if i < d.len() {
                assert(s[i] == d[i]);
                assert(is_digit(d[i]));
            }
        }
    }
    lemma_other_end(s, "bit/s"@);
    lemma_other_end(s, "bits"@);
    lemma_other_end(s, "bps"@);
    lemma_other_end(s, "bit"@);
    assert(s.take(s.len() as int) =~= s);
}

proof fn lemma_other_end(s: Seq<char>, x: Seq<char>)
    requires
        s.len() > 0,
        x.len() > 0,
        s.last() != x.last(),
    ensures
        !ends_with(s, x),
{
    if ends_with(s, x) {
        let t = s.skip(s.len() - x.len());
        assert(t[x.len() - 1] == s[s.len() - 1]);
    }
}

// ----------------------------------------------------------------------- the files

/// The files of a chapter are read by their number and their kind: its audio, its
/// manifest and its playlist.
pub proof fn law_chapter_files_read_back(ci: usize)
    ensures
        chapter_file_of(decimal(ci as nat) + ".m4a"@) == ChapterFile::Audio(ci),
        chapter_file_of(decimal(ci as nat) + ".json"@) == ChapterFile::Manifest(ci),
        chapter_file_of(decimal(ci as nat) + ".m3u8"@) == ChapterFile::Playlist(ci),
{
    reveal_strlit(".m4a");
    reveal_strlit(".json");
    reveal_strlit(".m3u8");
    reveal_strlit("m4a");
    reveal_strlit("json");
    reveal_strlit("m3u8");
    lemma_number_file(ci, "m4a"@);
    lemma_number_file(ci, "json"@);
    lemma_number_file(ci, "m3u8"@);
    let d = decimal(ci as nat);
    assert(d + seq!['.'] + "m4a"@ =~= d + ".m4a"@);
    assert(d + seq!['.'] + "json"@ =~= d + ".json"@);
    assert(d + seq!['.'] + "m3u8"@ =~= d + ".m3u8"@);
    assert("json"@ != "m4a"@) by {
        assert("json"@.len() == 4 && "m4a"@.len() == 3);
    }
    assert("m3u8"@ != "m4a"@ && "m3u8"@ != "json"@) by {
        assert("m3u8"@.len() == 4 && "m4a"@.len() == 3);
        assert("m3u8"@[0] == 'm' && "json"@[0] == 'j');
    }
}

proof fn lemma_number_file(ci: usize, x: Seq<char>)
    requires
        !x.contains('.'),
    ensures
        cut_at_last(decimal(ci as nat) + seq!['.'] + x, '.') == Some((decimal(ci as nat), x)),
        unsigned_word(decimal(ci as nat)) == Some(ci),
{
    let d = decimal(ci as nat);
    let n = d + seq!['.'] + x;
    lemma_decimal(ci as nat);
    assert(is_digit(d[0]));
    let p = other_than('.');
    lemma_run_start(n, p, 0, n.len() as int);
    let k = run_start(n, p, 0, n.len() as int);
    assert(n[d.len() as int] == '.');
    assert(k == d.len() + 1) by {
        if k <= d.len() {
            assert(p(n[d.len() as int]));
        } else if k > d.len() + 1 {
            assert(n[k - 1] == x[k - 1 - d.len() - 1]);
            assert(x.contains(x[k - 1 - d.len() - 1]));
        }
    }
    assert(n.take(k - 1) =~= d);
    assert(n.skip(k) =~= x);
}

/// And nothing else is a chapter's file: what is read as one is a number, a stop and the
/// name of its kind.
pub proof fn law_only_chapter_files_are_read(name: Seq<char>) -> (stem: Seq<char>)
    ensures
        chapter_file_of(name) matches ChapterFile::Audio(ci) ==> name == stem + ".m4a"@
            && unsigned_word(stem) == Some(ci),
        chapter_file_of(name) matches ChapterFile::Manifest(ci) ==> name == stem + ".json"@
            && unsigned_word(stem) == Some(ci),
        chapter_file_of(name) matches ChapterFile::Playlist(ci) ==> name == stem + ".m3u8"@
            && unsigned_word(stem) == Some(ci),
{
    law_cuts_join_back(name, '.');
    reveal_strlit(".m4a");
    reveal_strlit(".json");
    reveal_strlit(".m3u8");
    reveal_strlit("m4a");
    reveal_strlit("json");
    reveal_strlit("m3u8");
    match cut_at_last(name, '.') {
        Some((stem, ext)) => {
            assert(ext == "m4a"@ ==> name =~= stem + ".m4a"@);
            assert(ext == "json"@ ==> name =~= stem + ".json"@);
            assert(ext == "m3u8"@ ==> name =~= stem + ".m3u8"@);
            stem
        },
        None => name,
    }
}

/// A file named by a number, whatever its end, is read as that number, and not where it
/// ends otherwise.
pub proof fn law_numbered_files_read_back(n: usize, ext: Seq<char>, other: Seq<char>)
    ensures
        number_before(decimal(n as nat) + ext, ext) == Some(n),
        (forall|r: Seq<char>| other != #[trigger] (r + ext)) ==> number_before(other, ext) is None,
{
    let d = decimal(n as nat);
    lemma_decimal(n as nat);
    assert(is_digit(d[0]));
    let s = d + ext;
    assert(s.subrange(d.len() as int, s.len() as int) =~= ext);
    assert(s.take(s.len() - ext.len()) =~= d);
    law_ends_come_off(other, ext);
}

/// A segment of a stream is named by its number in five digits, and every such name is
/// one of a segment; so is that of what comes before them all, and no other name is.
pub proof fn law_segments_have_five_digits(d: Seq<char>, name: Seq<char>)
    requires
        d.len() == 5,
        only_digits(d),
    ensures
        segment_name("seg"@ + d + ".m4s"@),
        segment_name("init.mp4"@),
        segment_name(name) && name != "init.mp4"@ ==> name.len() == 12 && name == "seg"@
            + name.subrange(3, 8) + ".m4s"@ && only_digits(name.subrange(3, 8)),
{
    if segment_name(name) && name != "init.mp4"@ {
        reveal_strlit("seg");
        reveal_strlit(".m4s");
        let m = name.subrange(3, 8);
        assert(name.subrange(0, 3) == "seg"@);
        assert(name.subrange(8, 12) == ".m4s"@);
        assert(name =~= name.subrange(0, 3) + m + name.subrange(8, 12));
        assert forall|i: int| 0 <= i < m.len() implies '0' <= #[trigger] m[i] <= '9' by {
            assert(m[i] == name[3 + i]);
            assert(is_digit(name[3 + i]));
        }
    }
    reveal_strlit("seg");
    reveal_strlit(".m4s");
    let n = "seg"@ + d + ".m4s"@;
    assert(n.subrange(0, 3) =~= "seg"@);
    assert(n.subrange(8, 12) =~= ".m4s"@);
    assert forall|i: int| 3 <= i < 8 implies is_digit(#[trigger] n[i]) by {
        assert(n[i] == d[i - 3]);
    }
}

// --------------------------------------------------------------------- the devices

/// A device goes by what its headers say, cleaned, and by what the query says only where
/// they say nothing.
pub proof fn law_headers_come_before_the_query(
    id: Option<&str>,
    name: Option<&str>,
    query: Option<&str>,
)
    ensures
        ({
            let d = device_of(id, name, query);
            &&& d.id == if clean_id_of(held(id)).len() > 0 {
                clean_id_of(held(id))
            } else {
                clean_id_of(query_value_of(held(query), "device"@))
            }
            &&& d.name == if clean_name_of(held(name)).len() > 0 {
                clean_name_of(held(name))
            } else {
                clean_name_of(query_value_of(held(query), "device_name"@))
            }
        }),
{
}

/// What is kept of a device's number are its letters, digits, dashes and underscores,
/// in order and the first sixty-four of them; what is kept of its name is all that is
/// printed, the first forty characters of it, without the white space at the ends.
pub proof fn law_what_is_kept_of_a_device(raw: Seq<char>)
    ensures
        ({
            let id = raw.filter(
                |c: char|
                    ('a' <= c <= 'z') || ('A' <= c <= 'Z') || ('0' <= c <= '9') || c == '-' || c
                        == '_',
            );
            clean_id_of(raw) == if id.len() <= 64 {
                id
            } else {
                id.take(64)
            }
        }),
        ({
            let name = raw.filter(|c: char| !((c as u32) < 0x20 || 0x7f <= (c as u32) < 0xa0));
            clean_name_of(raw) == trim_of(
                if name.len() <= 40 {
                    name
                } else {
                    name.take(40)
                },
            )
        }),
{
    assert(crate::api::device::id_chars() =~= (|c: char|
        ('a' <= c <= 'z') || ('A' <= c <= 'Z') || ('0' <= c <= '9') || c == '-' || c == '_'));
    assert(name_chars() =~= (|c: char| !((c as u32) < 0x20 || 0x7f <= (c as u32) < 0xa0)));
}

/// A device's name holds nothing that is not printed, has no white space at its ends and
/// at most forty characters; and a name that is so already is kept.
pub proof fn law_names_are_clean(raw: Seq<char>)
    ensures
        ({
            let n = clean_name_of(raw);
            &&& n.len() <= 40
            &&& forall|i: int| 0 <= i < n.len() ==> !control(#[trigger] n[i])
            &&& n.len() > 0 ==> !white_space(n[0]) && !white_space(n.last())
            &&& raw.len() <= 40 && (forall|i: int| 0 <= i < raw.len() ==> !control(#[trigger] raw[i]))
                && (raw.len() > 0 ==> !white_space(raw[0]) && !white_space(raw.last())) ==> n == raw
        }),
{
    let p = name_chars();
    let kept = raw.filter(p);
    let f = first(kept, 40);
    let ends = law_trimming_takes_the_ends(f, whites());
    let n = clean_name_of(raw);
    assert forall|i: int| 0 <= i < n.len() implies !control(#[trigger] n[i]) by {
        assert(n[i] == f[ends.0 + i]);
        assert(f[ends.0 + i] == kept[ends.0 + i]);
        raw.lemma_filter_pred(p, ends.0 + i);
    }
    if n.len() > 0 {
        assert(n[0] == f[ends.0]);
        assert(n.last() == f[ends.1 - 1]);
    }
    if raw.len() <= 40 && (forall|i: int| 0 <= i < raw.len() ==> !control(#[trigger] raw[i])) && (
    raw.len() > 0 ==> !white_space(raw[0]) && !white_space(raw.last())) {
        lemma_all_stay(raw, p);
        if raw.len() > 0 {
            assert(ends.0 == 0 && ends.1 == raw.len());
        }
        assert(n =~= raw);
    }
}

proof fn lemma_all_stay(s: Seq<char>, p: spec_fn(char) -> bool)
    requires
        forall|i: int| 0 <= i < s.len() ==> p(#[trigger] s[i]),
    ensures
        s.filter(p) == s,
    decreases s.len(),
{
    reveal(Seq::filter);
    if s.len() > 0 {
        let d = s.drop_last();
        assert forall|i: int| 0 <= i < d.len() implies p(#[trigger] d[i]) by {
            assert(d[i] == s[i]);
        }
        lemma_all_stay(d, p);
        assert(p(s[s.len() - 1]));
        assert(d.push(s.last()) =~= s);
    }
}

} // verus!
