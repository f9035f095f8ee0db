//! Reading a book: sentences, chunks, numbers, symbols.

use narrator::book::{chunk_paragraph, is_speakable, sentences, sentences_with, Guards};
use narrator::epub::paragraphs;
use narrator::tts::g2p::{apply_overrides, map_ipa, split_punctuation, syllabic, Phonemizer, Segment, E2M};
use narrator::tts::kokoro::{tokenize, MAX_PHONEMES, VOCAB};
use narrator::tts::numbers::{normalize, year};
use std::borrow::Cow;
use std::time::Duration;

fn n(s: &str) -> String {
    normalize(s).into_owned()
}

fn rendered(text: &str) -> String {
    split_punctuation(text)
        .iter()
        .map(|s| match s {
            Segment::Words(w) => (*w).to_string(),
            Segment::Mark(c) => format!("<{c}>"),
        })
        .collect()
}

#[test]
fn abbreviation_guards_actually_guard() {
    assert_eq!(
        sentences("Dr. Smith went home."),
        vec!["Dr. Smith went home."]
    );
    assert_eq!(sentences("e.g. this thing."), vec!["e.g. this thing."]);
    assert_eq!(
        sentences("If the water gushed, Mr. Franky would ignore it. Then he left."),
        vec![
            "If the water gushed, Mr. Franky would ignore it.",
            "Then he left."
        ]
    );
    // A lone capital is an initial, not the end of a sentence.
    assert_eq!(sentences("Mr. A. Smith came."), vec!["Mr. A. Smith came."]);
    // Every guard needs its word boundary: `sir.` is not `Sr.`, and a word
    // merely ending in an abbreviation's letters still ends its sentence.
    assert_eq!(
        sentences("He was a sir. Then he left."),
        vec!["He was a sir.", "Then he left."]
    );
    assert_eq!(
        sentences("He bought cars. Then he left."),
        vec!["He bought cars.", "Then he left."]
    );
    // `!` and `?` are never an abbreviation's.
    assert_eq!(
        sentences("Really? Yes! Fine."),
        vec!["Really?", "Yes!", "Fine."]
    );
}

#[test]
fn the_split_eats_a_closing_quote() {
    assert_eq!(
        sentences("He said \"go.\" Then left."),
        vec!["He said \"go.", "Then left."]
    );
}

#[test]
fn empty_and_blank_paragraphs_produce_nothing() {
    assert!(sentences("").is_empty());
    assert!(sentences("   \n\t ").is_empty());
    assert!(chunk_paragraph("", 300).is_empty());
}

#[test]
fn sentences_are_grouped_up_to_max_chars() {
    let p = "One. Two. Three.";
    assert_eq!(chunk_paragraph(p, 300), vec!["One. Two. Three."]);
    // 4 + 4 + 1 > 8, so each sentence stands alone.
    assert_eq!(chunk_paragraph(p, 8), vec!["One.", "Two.", "Three."]);
    assert_eq!(chunk_paragraph(p, 9), vec!["One. Two.", "Three."]);
}

#[test]
fn an_overlong_sentence_splits_on_clauses() {
    let s = format!(
        "{}, {}, {}.",
        "a".repeat(40),
        "b".repeat(40),
        "c".repeat(40)
    );
    let out = chunk_paragraph(&s, 50);
    assert!(out.len() > 1, "{out:?}");
    assert!(out.iter().all(|c| c.chars().count() <= 90));
}

#[test]
fn speakable_follows_python_isalnum() {
    assert!(!is_speakable("\u{2026}"));
    assert!(!is_speakable("\u{201C}\u{2026}\u{201D}"));
    assert!(is_speakable("a"));
    assert!(is_speakable("\u{4E2D}"));
    // Superscript two is No: it is pronounced, though no alphanumeric character.
    assert!(is_speakable("\u{B2}"));
}

#[test]
fn char_lengths_not_byte_lengths() {
    // Six em-dashes: 6 chars, 18 bytes. With max_chars 6 this is one chunk.
    let p = "\u{2014}\u{2014}\u{2014}\u{2014}\u{2014}\u{2014}";
    assert_eq!(chunk_paragraph(p, 6), vec![p]);
}

#[test]
fn blockquote_nesting_duplicates_text() {
    let out = paragraphs("<html><body><blockquote><p>hi</p></blockquote></body></html>");
    assert_eq!(out, vec!["hi", "hi"]);
}

#[test]
fn noise_subtrees_are_dropped() {
    let out = paragraphs(
        "<html><body><nav><p>toc</p></nav><header><p>h</p></header><p>real</p></body></html>",
    );
    assert_eq!(out, vec!["real"]);
}

#[test]
fn currency_puts_the_unit_where_english_puts_it() {
    assert_eq!(n("It cost $5."), "It cost 5 dollars.");
    assert_eq!(n("It cost $1."), "It cost 1 dollar.");
    assert_eq!(n("$1,500.50 a year"), "1500 dollars and 50 cents a year");
    assert_eq!(n("£20.00 exactly"), "20 pounds exactly");
    assert_eq!(n("£1.50"), "1 pound and 50 pence");
    assert_eq!(n("€30.99"), "30 euros and 99 cents");
    // A zero half is dropped rather than spoken.
    assert_eq!(n("$0.50"), "50 cents");
    assert_eq!(n("$0.01"), "1 cent");
    // A scale word moves the unit to the end.
    assert_eq!(
        n("worth $1.5 million today"),
        "worth 1.5 million dollars today"
    );
    assert_eq!(n("$3 BILLION"), "3 BILLION dollars");
    // A no-break space is a space.
    assert_eq!(n("$5\u{a0}million"), "5 million dollars");
    assert_eq!(n("$5\u{202f}million"), "5 million dollars");
}

#[test]
fn an_amount_that_is_not_hundredths_is_still_an_amount() {
    // Consumed verbatim, `$1.5` was "dollar one point five".
    assert_eq!(n("It was $1.5."), "It was 1.5 dollars.");
    assert_eq!(n("$2.5 each"), "2.5 dollars each");
    assert_eq!(n("£1.005"), "1.005 pounds");
    assert_eq!(n("$1.0"), "1.0 dollars");
}

#[test]
fn a_rewrite_never_starts_inside_a_number() {
    for same in [
        "pi is 3.1415 or so",
        "0.1234 of it",
        "1.2000 exactly",
        "12,1990 of them",
        "on 25.12.2016",
        "12,345,1990",
    ] {
        assert_eq!(n(same), same, "{same}");
    }
}

#[test]
fn a_whole_thousand_pluralises_the_way_people_say_it() {
    assert_eq!(n("1000s of people"), "thousands of people");
    assert_eq!(n("the 2000s"), "the two thousands");
    assert_eq!(n("the 1100s"), "the eleven hundreds");
}

#[test]
fn a_span_of_years_reads_the_same_whichever_dash_joins_it() {
    let span = "the nineteen fourteen to nineteen eighteen war";
    assert_eq!(n("the 1914-1918 war"), span);
    assert_eq!(n("the 1914\u{2013}1918 war"), span);
    assert_eq!(
        n("(1939-1945)."),
        "(nineteen thirty-nine to nineteen forty-five)."
    );
    assert_eq!(n("1066-1066"), "ten sixty-six to ten sixty-six");
    // Not a span: backwards, abbreviated, three groups, out of range, or
    // part of something with more digits in it.
    for same in [
        "1918-1914",
        "1914-18",
        "1914-1918-1939",
        "12-1914-1918",
        "1914-1918s",
        "1914-1918.5",
        "0999-1066",
        "1990-2100",
        "555\u{2013}1066",
    ] {
        assert_eq!(n(same), same, "{same}");
    }
}

#[test]
fn a_four_digit_number_is_a_year() {
    assert_eq!(n("born in 1066"), "born in ten sixty-six");
    assert_eq!(n("In 2016, it changed."), "In twenty sixteen, it changed.");
    assert_eq!(n("1985"), "nineteen eighty-five");
    assert_eq!(n("1805 was cold"), "eighteen oh-five was cold");
    assert_eq!(n("the 1990s"), "the nineteen nineties");
    assert_eq!(n("the 1900s"), "the nineteen hundreds");
}

#[test]
fn everything_espeak_already_reads_correctly_is_left_alone() {
    for same in [
        "There were 1,000 of them",
        "He was 1.8 meters tall",
        "It was 3:45",
        "the 1st of May",
        "22nd Street",
        "50% of it",
        "chapter 7",
        "a 12345 line file",
        "9999 of them",
        "5000 men",
        "COVID19 and mp3 and H2O",
        "no digits here at all",
    ] {
        assert_eq!(n(same), same, "{same}");
    }
    // Nothing to do is the borrowed path.
    assert!(matches!(normalize("plain words"), Cow::Borrowed(_)));
}

#[test]
fn a_four_digit_group_of_something_bigger_is_not_a_year() {
    for same in [
        "call 555-1066",
        "the 1066-1050 ledger",
        "12/1066 in the ledger",
        "10:1066",
        "$1990s",
        "$20k",
    ] {
        assert_eq!(n(same), same, "{same}");
    }
    // But an ordinary sentence boundary is not a joiner.
    assert_eq!(
        n("Born in 1066, died in 1120."),
        "Born in ten sixty-six, died in eleven twenty."
    );
    assert_eq!(n("It was 1066."), "It was ten sixty-six.");
    assert_eq!(n("(2016)"), "(twenty sixteen)");
}

#[test]
fn the_year_range_is_where_years_are() {
    assert_eq!(year("1000", ""), Some("one thousand".into()));
    assert_eq!(year("2099", ""), Some("twenty ninety-nine".into()));
    // Outside it espeak-ng's cardinal is both right and human.
    assert_eq!(year("2100", ""), None);
    assert_eq!(year("999", ""), None);
    assert_eq!(year("1990", "th"), None);
}

#[test]
fn vocab_has_no_duplicate_symbols() {
    let mut seen = std::collections::HashSet::new();
    for (c, _) in VOCAB {
        assert!(seen.insert(c), "duplicate symbol {c:?}");
    }
}

#[test]
fn unknown_symbols_are_dropped_not_fatal() {
    assert_eq!(tokenize("a\u{1F600}b"), vec![43, 44]);
}

#[test]
fn tokens_are_capped_at_the_style_pack_size() {
    let long = "a".repeat(MAX_PHONEMES + 50);
    assert_eq!(tokenize(&long).len(), MAX_PHONEMES);
}

#[test]
fn punctuation_is_preserved_in_place() {
    let segs = split_punctuation("a, b. c");
    let rendered: String = segs
        .iter()
        .map(|s| match s {
            Segment::Words(w) => (*w).to_string(),
            Segment::Mark(c) => c.to_string(),
        })
        .collect();
    assert_eq!(rendered, "a, b. c");
}

#[test]
fn a_separator_between_two_digits_is_part_of_the_number() {
    // The bug: each of these went to espeak-ng in halves, so `1,000` was
    // read "one, zero zero zero" and `1.8` was read "one. eight".
    assert_eq!(
        rendered("There were 1,000 of them"),
        "There were 1,000 of them"
    );
    assert_eq!(rendered("He was 1.8 meters"), "He was 1.8 meters");
    assert_eq!(rendered("It was 3:45"), "It was 3:45");
    assert_eq!(rendered("$1,500.50 a year"), "$1,500.50 a year");
    assert_eq!(rendered("1,000,000"), "1,000,000");
}

#[test]
fn a_separator_that_is_not_between_two_digits_still_splits() {
    assert_eq!(rendered("In 2016."), "In 2016<.>");
    assert_eq!(rendered("page 12, line 3"), "page 12<,> line 3");
    assert_eq!(rendered("Chapter 1. The start"), "Chapter 1<.> The start");
    assert_eq!(
        rendered("He turned 40. 5 minutes on"),
        "He turned 40<.> 5 minutes on"
    );
    assert_eq!(rendered("a, b. c"), "a<,> b<.> c");
    // Not every mark is a number separator.
    assert_eq!(rendered("1;2"), "1<;>2");
}

#[test]
fn overrides_only_match_whole_words() {
    assert_eq!(apply_overrides("I think"), "[['aI]] think");
    assert_eq!(apply_overrides("so I think"), "so [['aI]] think");
    assert_eq!(
        apply_overrides("But I saw, and I knew"),
        "But [['aI]] saw, and [['aI]] knew"
    );
    // `[['aI]]'m` is read "I em", and there is no `I` inside `It` or `aIr`.
    for untouched in ["I'm sure", "It is fine", "an Idea", "hI", "I\u{2019}ll go"] {
        assert_eq!(apply_overrides(untouched), untouched);
    }
    // Nothing to do is the borrowed path.
    assert!(matches!(
        apply_overrides("nothing here"),
        std::borrow::Cow::Borrowed(_)
    ));
}

#[test]
fn the_mapping_table_is_longest_key_first() {
    let lens: Vec<usize> = E2M.iter().map(|(k, _)| k.chars().count()).collect();
    assert!(lens.windows(2).all(|w| w[0] >= w[1]), "{lens:?}");
}

#[test]
fn syllabic_mark_becomes_schwa_plus_consonant() {
    assert_eq!(syllabic("bʌtn\u{329}"), "bʌtᵊn");
}

#[test]
fn the_timeout_is_readable_and_adjustable() {
    let g = Phonemizer::new("en-us", &Vec::new(), None);
    assert_eq!(g.timeout(), Duration::from_secs(15).as_nanos());
    assert_eq!(
        g.with_timeout(Duration::from_secs(2).as_nanos()).timeout(),
        Duration::from_secs(2).as_nanos()
    );
}

#[test]
fn ties_and_diphthongs_map_to_kokoro_symbols() {
    // "boy" -> bˈɔ͡ɪ -> bˈY
    assert_eq!(map_ipa("b\u{2C8}\u{254}\u{361}\u{26A}"), "b\u{2C8}Y");
    // "judge" -> d͡ʒˈʌd͡ʒ -> ʤˈʌʤ
    assert_eq!(
        map_ipa("d\u{361}\u{292}\u{2C8}\u{28C}d\u{361}\u{292}"),
        "\u{2A4}\u{2C8}\u{28C}\u{2A4}"
    );
}

#[test]
fn what_is_read_right_comes_back_borrowed() {
    for t in ["chapter 12", "1,000", "1.8", "3:45", "1st", "50%", "9999", "COVID19", "$ 5"] {
        assert!(matches!(normalize(t), Cow::Borrowed(b) if b == t), "{t}");
    }
    assert!(matches!(normalize("in 1066"), Cow::Owned(_)));
    assert!(matches!(normalize("$5"), Cow::Owned(_)));
}

#[test]
fn the_guard_only_joins() {
    let t = "  Mr. A. Smith went, etc. He left! Dr. No stayed.  ";
    let on = sentences_with(t, Guards::On);
    let inert = sentences_with(t, Guards::Inert);
    assert_eq!(on, vec!["Mr. A. Smith went, etc. He left!", "Dr. No stayed."]);
    assert_eq!(inert, vec!["Mr.", "A.", "Smith went, etc.", "He left!", "Dr.", "No stayed."]);
    assert!(inert.iter().all(|s| !s.is_empty() && s.trim() == s));
}

#[test]
fn chunks_are_whole_sentences_and_full() {
    let p = "Aa bb. Cc. Dd ee ff. Gg. Hh.";
    let chunks = chunk_paragraph(p, 12);
    assert_eq!(chunks, vec!["Aa bb. Cc.", "Dd ee ff.", "Gg. Hh."]);
    assert_eq!(chunks.join(" "), sentences(p).join(" "));
}

#[test]
fn the_environment_names_the_synthesiser() {
    let set = |k: &str, v: &str| (k.to_string(), v.to_string());
    let vars = vec![set("ESPEAK_VOICE", "en-gb"), set("ESPEAK_BIN", "/opt/espeak")];
    let half = Duration::from_micros(500).as_nanos();
    let g = Phonemizer::new("en-us", &vars, Some(half));
    assert_eq!((g.binary.as_str(), g.voice.as_str(), g.timeout()), ("/opt/espeak", "en-us", half));
    let g = Phonemizer::configured(&vars, None);
    assert_eq!((g.binary.as_str(), g.voice.as_str()), ("/opt/espeak", "en-gb"));
    assert_eq!(g.timeout(), Duration::from_secs(15).as_nanos());
    let g = Phonemizer::configured(&vec![set("ESPEAK_BIN", "")], None);
    assert_eq!((g.binary.as_str(), g.voice.as_str()), ("", "en-us"), "set to nothing is set");
}

#[test]
fn no_chunk_has_a_blank_at_either_end() {
    let long = "  One clause,   two clauses;\u{A0} three: and a fourth one \u{2014}  the end.  Short. ";
    for max in [1, 5, 12, 20, 300] {
        for c in chunk_paragraph(long, max) {
            assert!(!c.is_empty() && c.trim() == c, "{max}: {c:?}");
        }
    }
}
