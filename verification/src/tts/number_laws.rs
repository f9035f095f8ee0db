//! What is said of a price or a year, in terms of what is written.

use vstd::prelude::*;
use crate::chars::{alphabetic, alphanumeric, decimal, index_of, is_digit, is_numeral, lemma_run_end, lowered_text, other_than, run_end, value, without};
use crate::tts::numbers::{digit_at, digits, gaps, lemma_rewrite_moves_on, letter_at, letters, number_end, rewrite_of, rewritten, stops, suffix_end, suffix_of, suffix_start, year_words};

verus! {

// --------------------------------------------------------------- where it stands

/// Whether nothing before `i` makes what starts there a part of something longer.
pub open spec fn starts_fresh(s: Seq<char>, i: int) -> bool {
    &&& i > 0 ==> !alphanumeric(s[i - 1])
    &&& i > 1 ==> !((s[i - 1] == '.' || s[i - 1] == ',') && '0' <= s[i - 2] <= '9')
}

/// Whether a number stands from `a` to `e`: digits, with stops and commas that each
/// have a digit behind them, a digit first, and no more of it behind.
pub open spec fn number_at(s: Seq<char>, a: int, e: int) -> bool {
    &&& 0 <= a < e <= s.len()
    &&& '0' <= s[a] <= '9'
    &&& forall|k: int|
        a <= k < e ==> '0' <= #[trigger] s[k] <= '9' || ((s[k] == ',' || s[k] == '.') && digit_at(
            s,
            k + 1,
        ))
    &&& e < s.len() ==> !('0' <= s[e] <= '9') && !((s[e] == ',' || s[e] == '.') && digit_at(
        s,
        e + 1,
    ))
}

/// Whether no letters are stuck to what ends at `e`.
pub open spec fn ends_clean(s: Seq<char>, e: int) -> bool {
    e < s.len() ==> !alphabetic(s[e]) && !(s[e] == '\'' && letter_at(s, e + 1))
}

/// Whether the word behind `e` stands from `a` to `b`, with spaces of one kind or
/// another before it.
pub open spec fn word_behind(s: Seq<char>, e: int, a: int, b: int) -> bool {
    &&& e <= a <= b <= s.len()
    &&& forall|k: int|
        e <= k < a ==> #[trigger] s[k] == ' ' || s[k] == '\u{a0}' || s[k] == '\u{202f}'
    &&& a < s.len() ==> !(s[a] == ' ' || s[a] == '\u{a0}' || s[a] == '\u{202f}')
    &&& forall|k: int| a <= k < b ==> alphabetic(#[trigger] s[k])
    &&& b < s.len() ==> !alphabetic(s[b])
}

/// Whether `w` is one of the words that scale a price.
pub open spec fn scales(w: Seq<char>) -> bool {
    lowered_text(w) == "thousand"@ || lowered_text(w) == "million"@ || lowered_text(w)
        == "billion"@ || lowered_text(w) == "trillion"@
}

/// What a mark of money stands for, and what a hundredth of it is called.
pub open spec fn money_mark(c: char, unit: Seq<char>, sub: Seq<char>) -> bool {
    ||| c == '$' && unit == "dollar"@ && sub == "cent"@
    ||| c == '\u{A3}' && unit == "pound"@ && sub == "pence"@
    ||| c == '\u{20AC}' && unit == "euro"@ && sub == "cent"@
}

/// The name of a unit as it goes with a number.
pub open spec fn named(unit: Seq<char>, n: nat) -> Seq<char> {
    if n == 1 || unit == "pence"@ {
        unit
    } else {
        unit + "s"@
    }
}

proof fn lemma_number_end_at(s: Seq<char>, a: int, e: int, k: int)
    requires
        number_at(s, a, e),
        a <= k <= e,
    ensures
        number_end(s, k) == e,
    decreases e - k,
{
    if k < e {
        lemma_number_end_at(s, a, e, k + 1);
        assert(s[k] == s[k]);
    }
}

proof fn lemma_run_end_at(s: Seq<char>, p: spec_fn(char) -> bool, k: int, e: int)
    requires
        0 <= k <= e <= s.len(),
        forall|j: int| k <= j < e ==> p(#[trigger] s[j]),
        e < s.len() ==> !p(s[e]),
    ensures
        run_end(s, p, k) == e,
    decreases e - k,
{
    if k < e {
        lemma_run_end_at(s, p, k + 1, e);
    }
}

proof fn lemma_no_suffix(s: Seq<char>, e: int)
    requires
        0 <= e <= s.len(),
        ends_clean(s, e),
    ensures
        suffix_start(s, e) == e,
        suffix_end(s, e) == e,
        suffix_of(s, e).len() == 0,
{
    assert(s.subrange(e, e).len() == 0);
}

proof fn lemma_word_behind(s: Seq<char>, e: int, a: int, b: int)
    requires
        0 <= e <= s.len(),
        word_behind(s, e, a, b),
    ensures
        run_end(s, gaps(), e) == a,
        run_end(s, letters(), a) == b,
{
    lemma_run_end_at(s, gaps(), e, a);
    lemma_run_end_at(s, letters(), a, b);
}

/// A text without stops has none to count.
proof fn lemma_no_stops(w: Seq<char>)
    requires
        !w.contains('.'),
    ensures
        w.filter(|c: char| c == '.') == Seq::<char>::empty(),
    decreases w.len(),
{
    reveal(Seq::filter);
    if w.len() > 0 {
        assert(w.contains(w.last()));
        assert forall|k: int| 0 <= k < w.drop_last().len() implies w.drop_last()[k] != '.' by {
            assert(w.contains(w[k]));
        }
        lemma_no_stops(w.drop_last());
    }
}

/// A numeral stays as it is without its commas: it has none.
proof fn lemma_no_commas(w: Seq<char>)
    requires
        forall|k: int| 0 <= k < w.len() ==> is_digit(#[trigger] w[k]),
    ensures
        without(w, ',') == w,
    decreases w.len(),
{
    reveal(Seq::filter);
    if w.len() > 0 {
        lemma_no_commas(w.drop_last());
        assert(w.drop_last().push(w.last()) =~= w);
        assert(is_digit(w[w.len() - 1]));
    }
}

/// What is left of digits and commas without the commas are the digits.
proof fn lemma_bare_digits(w: Seq<char>)
    requires
        forall|k: int| 0 <= k < w.len() ==> is_digit(#[trigger] w[k]) || w[k] == ',',
    ensures
        forall|k: int| 0 <= k < without(w, ',').len() ==> is_digit(#[trigger] without(w, ',')[k]),
        w.len() > 0 && is_digit(w[0]) ==> without(w, ',').len() > 0,
        !w.contains('.'),
{
    let keep = other_than(',');
    assert forall|k: int| 0 <= k < without(w, ',').len() implies is_digit(
        #[trigger] without(w, ',')[k],
    ) by {
        w.lemma_filter_pred(keep, k);
        let x = without(w, ',')[k];
        assert(w.filter(keep).contains(x));
        w.lemma_filter_contains_rev(keep, x);
    }
    if w.len() > 0 && is_digit(w[0]) {
        w.lemma_filter_contains(keep, 0);
    }
}

/// What a rewrite starts with, where it stands on a mark of money.
proof fn lemma_on_a_price(
    s: Seq<char>,
    i: int,
    e: int,
    unit: Seq<char>,
    sub: Seq<char>,
)
    requires
        0 <= i,
        starts_fresh(s, i),
        number_at(s, i + 1, e),
        money_mark(s[i], unit, sub),
    ensures
        number_end(s, i + 1) == e,
        digit_at(s, i + 1),
        crate::tts::numbers::currency_of(s[i]) == Some((unit, sub)),
{
    lemma_number_end_at(s, i + 1, e, i + 1);
}

// -------------------------------------------------------------------- whole prices

/// The amount that is said is the amount that is written. A price without a fraction
/// and without a scale is said as all its digits, the commas left out, and the name of
/// its unit: so the words start with a numeral, and it stands for the written number.
/// It ends where the number does. One too great to be counted is left as it is.
pub proof fn law_a_price_is_said_in_full(
    s: Seq<char>,
    i: int,
    e: int,
    a: int,
    b: int,
    unit: Seq<char>,
    sub: Seq<char>,
)
    requires
        0 <= i,
        starts_fresh(s, i),
        number_at(s, i + 1, e),
        ends_clean(s, e),
        money_mark(s[i], unit, sub),
        !s.subrange(i + 1, e).contains('.'),
        word_behind(s, e, a, b),
        a == e || !scales(s.subrange(a, b)),
    ensures
        ({
            let written = s.subrange(i + 1, e).filter(|c: char| c != ',');
            &&& is_numeral(written)
            &&& value(written) <= u64::MAX ==> rewrite_of(s, i) == Some(
                (e, written + " "@ + named(unit, value(written))),
            )
            &&& value(written) > u64::MAX ==> rewrite_of(s, i) == Some((e, s.subrange(i, e)))
        }),
{
    let amount = s.subrange(i + 1, e);
    let written = amount.filter(|c: char| c != ',');
    assert(other_than(',') =~= (|c: char| c != ','));
    let bare = without(amount, ',');
    assert forall|k: int| 0 <= k < amount.len() implies is_digit(#[trigger] amount[k]) || amount[k]
        == ',' by {
        assert(amount[k] == s[i + 1 + k]);
        assert(amount.contains(amount[k]));
    }
    lemma_on_a_price(s, i, e, unit, sub);
    lemma_no_suffix(s, e);
    lemma_word_behind(s, e, a, b);
    lemma_bare_digits(amount);
    lemma_no_stops(amount);
    lemma_run_end_at(bare, other_than('.'), 0, bare.len() as int);
    assert(bare.take(bare.len() as int) =~= bare);
    assert(!(a > e && crate::tts::numbers::scale_word(lowered_text(s.subrange(a, b)))));
}

// ---------------------------------------------------------------------- fractions

/// The amount `w` with the fraction `c`: what is left of it without the commas, and
/// where the stop is in that.
proof fn lemma_with_fraction(w: Seq<char>, c: Seq<char>)
    requires
        w.len() > 0,
        is_digit(w[0]),
        forall|k: int| 0 <= k < w.len() ==> is_digit(#[trigger] w[k]) || w[k] == ',',
        forall|k: int| 0 <= k < c.len() ==> is_digit(#[trigger] c[k]),
    ensures
        ({
            let amount = w + seq!['.'] + c;
            let whole = without(w, ',');
            let bare = without(amount, ',');
            &&& stops(amount) == 1
            &&& bare == whole + seq!['.'] + c
            &&& index_of(bare, '.', 0) == whole.len()
            &&& bare.take(whole.len() as int) == whole
            &&& bare.skip(whole.len() as int + 1) == c
            &&& is_numeral(whole)
        }),
{
    let dot = seq!['.'];
    let amount = w + dot + c;
    let keep = other_than(',');
    let point = |x: char| x == '.';
    let whole = without(w, ',');
    let bare = without(amount, ',');
    lemma_bare_digits(w);
    lemma_no_commas(c);
    Seq::filter_distributes_over_add(w + dot, c, keep);
    Seq::filter_distributes_over_add(w, dot, keep);
    Seq::filter_distributes_over_add(w + dot, c, point);
    Seq::filter_distributes_over_add(w, dot, point);
    assert(!c.contains('.')) by {
        assert forall|k: int| 0 <= k < c.len() implies c[k] != '.' by {
            assert(is_digit(c[k]));
        }
    }
    lemma_no_stops(w);
    lemma_no_stops(c);
    reveal_with_fuel(Seq::filter, 2);
    assert(dot.drop_last() =~= Seq::<char>::empty());
    assert(dot.filter(keep) =~= dot);
    assert(dot.filter(point) =~= dot);
    assert(amount.filter(point) =~= dot);
    assert(bare =~= whole + dot + c);
    assert forall|k: int| 0 <= k < whole.len() implies other_than('.')(#[trigger] bare[k]) by {
        assert(bare[k] == whole[k]);
        assert(is_digit(whole[k]));
    }
    assert(bare[whole.len() as int] == '.');
    lemma_run_end_at(bare, other_than('.'), 0, whole.len() as int);
    assert(bare.take(whole.len() as int) =~= whole);
    assert(bare.skip(whole.len() as int + 1) =~= c);
}

/// A price with two digits behind the stop is said in units and hundredths, each with
/// its own number and name: none of either where it is nothing, but the units where
/// both are. So what is said is worth what is written.
pub proof fn law_hundredths_are_said(
    s: Seq<char>,
    i: int,
    e: int,
    a: int,
    b: int,
    unit: Seq<char>,
    sub: Seq<char>,
)
    requires
        0 <= i,
        starts_fresh(s, i),
        number_at(s, i + 1, e),
        ends_clean(s, e),
        money_mark(s[i], unit, sub),
        e - 3 > i,
        s[e - 3] == '.',
        '0' <= s[e - 2] <= '9',
        '0' <= s[e - 1] <= '9',
        !s.subrange(i + 1, e - 3).contains('.'),
        word_behind(s, e, a, b),
        a == e || !scales(s.subrange(a, b)),
    ensures
        ({
            let whole = s.subrange(i + 1, e - 3).filter(|c: char| c != ',');
            let cents = value(s.subrange(e - 2, e));
            let units = whole + " "@ + named(unit, value(whole));
            let hundredths = decimal(cents) + " "@ + named(sub, cents);
            &&& is_numeral(whole)
            &&& value(whole) <= u64::MAX ==> rewrite_of(s, i) == Some(
                (
                    e,
                    if cents == 0 {
                        units
                    } else if value(whole) == 0 {
                        hundredths
                    } else {
                        units + " and "@ + hundredths
                    },
                ),
            )
        }),
{
    let w = s.subrange(i + 1, e - 3);
    let c = s.subrange(e - 2, e);
    let amount = s.subrange(i + 1, e);
    assert(amount =~= w + seq!['.'] + c);
    assert(other_than(',') =~= (|c: char| c != ','));
    lemma_on_a_price(s, i, e, unit, sub);
    lemma_no_suffix(s, e);
    lemma_word_behind(s, e, a, b);
    assert(w.len() > 0) by {
        assert('0' <= s[i + 1] <= '9');
    }
    assert(w[0] == s[i + 1]);
    assert forall|k: int| 0 <= k < w.len() implies is_digit(#[trigger] w[k]) || w[k] == ',' by {
        assert(w[k] == s[i + 1 + k]);
        assert(w.contains(w[k]));
    }
    assert(c[0] == s[e - 2] && c[1] == s[e - 1]);
    assert(is_numeral(c));
    lemma_with_fraction(w, c);
    assert(!(a > e && crate::tts::numbers::scale_word(lowered_text(s.subrange(a, b)))));
}

/// A price with any other fraction is said as it is written, the commas left out, with
/// the name of many units.
pub proof fn law_other_fractions_are_said_as_written(
    s: Seq<char>,
    i: int,
    m: int,
    e: int,
    a: int,
    b: int,
    unit: Seq<char>,
    sub: Seq<char>,
)
    requires
        0 <= i < m < e,
        starts_fresh(s, i),
        number_at(s, i + 1, e),
        ends_clean(s, e),
        money_mark(s[i], unit, sub),
        s[m] == '.',
        e - m != 3,
        !s.subrange(i + 1, m).contains('.'),
        forall|k: int| m < k < e ==> '0' <= #[trigger] s[k] <= '9',
        word_behind(s, e, a, b),
        a == e || !scales(s.subrange(a, b)),
    ensures
        rewrite_of(s, i) == Some(
            (e, s.subrange(i + 1, e).filter(|c: char| c != ',') + " "@ + named(unit, 2)),
        ),
{
    let w = s.subrange(i + 1, m);
    let c = s.subrange(m + 1, e);
    let amount = s.subrange(i + 1, e);
    assert(amount =~= w + seq!['.'] + c);
    assert(other_than(',') =~= (|c: char| c != ','));
    lemma_on_a_price(s, i, e, unit, sub);
    lemma_no_suffix(s, e);
    lemma_word_behind(s, e, a, b);
    assert(w.len() > 0) by {
        assert('0' <= s[i + 1] <= '9');
    }
    assert(w[0] == s[i + 1]);
    assert forall|k: int| 0 <= k < w.len() implies is_digit(#[trigger] w[k]) || w[k] == ',' by {
        assert(w[k] == s[i + 1 + k]);
        assert(w.contains(w[k]));
    }
    assert forall|k: int| 0 <= k < c.len() implies is_digit(#[trigger] c[k]) by {
        assert(c[k] == s[m + 1 + k]);
    }
    lemma_with_fraction(w, c);
    assert(!(a > e && crate::tts::numbers::scale_word(lowered_text(s.subrange(a, b)))));
    lemma_marks_are_not_pence();
}

proof fn lemma_marks_are_not_pence()
    ensures
        "dollar"@ != "pence"@,
        "pound"@ != "pence"@,
        "euro"@ != "pence"@,
{
    reveal_strlit("dollar");
    reveal_strlit("pound");
    reveal_strlit("euro");
    reveal_strlit("pence");
    assert("pound"@[1] == 'o' && "pence"@[1] == 'e');
    assert("dollar"@.len() == 6 && "pence"@.len() == 5 && "euro"@.len() == 4);
}

// -------------------------------------------------------------------------- scales

/// A scale behind a price is said before the name of the unit, which is that of many:
/// the amount as it is written, the commas left out, the scale as it is written, the
/// unit. It ends where the scale does.
pub proof fn law_a_scale_comes_before_the_unit(
    s: Seq<char>,
    i: int,
    e: int,
    a: int,
    b: int,
    unit: Seq<char>,
    sub: Seq<char>,
)
    requires
        0 <= i,
        starts_fresh(s, i),
        number_at(s, i + 1, e),
        ends_clean(s, e),
        money_mark(s[i], unit, sub),
        s.subrange(i + 1, e).filter(|c: char| c == '.').len() <= 1,
        word_behind(s, e, a, b),
        a > e,
        scales(s.subrange(a, b)),
    ensures
        rewrite_of(s, i) == Some(
            (
                b,
                s.subrange(i + 1, e).filter(|c: char| c != ',') + " "@ + s.subrange(a, b) + " "@
                    + named(unit, 2),
            ),
        ),
{
    assert(other_than(',') =~= (|c: char| c != ','));
    lemma_on_a_price(s, i, e, unit, sub);
    lemma_no_suffix(s, e);
    lemma_word_behind(s, e, a, b);
    lemma_marks_are_not_pence();
}

/// A price with letters stuck to it, or with two stops in it, is no price: it is left
/// as it is written, letters and all.
pub proof fn law_no_price_is_left_alone(s: Seq<char>, i: int, e: int, unit: Seq<char>, sub: Seq<char>)
    requires
        0 <= i,
        starts_fresh(s, i),
        number_at(s, i + 1, e),
        money_mark(s[i], unit, sub),
        letter_at(s, e) || s.subrange(i + 1, e).filter(|c: char| c == '.').len() > 1,
    ensures
        rewrite_of(s, i) matches Some((next, words)) && e <= next <= s.len() && words
            == s.subrange(i, next),
{
    lemma_on_a_price(s, i, e, unit, sub);
    let a = suffix_start(s, e);
    lemma_run_end(s, letters(), a);
    if letter_at(s, e) {
        assert(a == e);
        assert(letters()(s[e]));
        assert(run_end(s, letters(), e) > e) by {
            lemma_run_end(s, letters(), e + 1);
        }
        assert(s.subrange(a, suffix_end(s, e)).len() > 0);
    }
}

// --------------------------------------------------------------------------- years

/// Whether four digits from `i` on are a year.
pub open spec fn year_from(s: Seq<char>, i: int) -> bool {
    &&& 0 <= i <= s.len() - 4
    &&& forall|k: int| i <= k < i + 4 ==> '0' <= #[trigger] s[k] <= '9'
    &&& 1000 <= value(s.subrange(i, i + 4)) <= 2099
}

/// Whether a dash, a slash or a colon ties what ends before `k` to what comes behind.
pub open spec fn tie(c: char) -> bool {
    c == '-' || c == '\u{2013}' || c == '/' || c == ':'
}

/// Whether nothing ties what starts at `i` to a number before it.
pub open spec fn loose_before(s: Seq<char>, i: int) -> bool {
    !(i >= 2 && tie(s[i - 1]) && '0' <= s[i - 2] <= '9')
}

/// Whether nothing ties what ends at `e` to a number behind it.
pub open spec fn loose_behind(s: Seq<char>, e: int) -> bool {
    !(e < s.len() && tie(s[e]) && digit_at(s, e + 1))
}

proof fn lemma_year_from(s: Seq<char>, i: int)
    requires
        year_from(s, i),
    ensures
        crate::tts::numbers::is_year(s.subrange(i, i + 4)),
        digit_at(s, i),
        crate::tts::numbers::currency_of(s[i]) is None,
{
    let d = s.subrange(i, i + 4);
    assert forall|k: int| 0 <= k < d.len() implies is_digit(#[trigger] d[k]) by {
        assert(d[k] == s[i + k]);
    }
    assert('0' <= s[i] <= '9');
}

/// A year that stands alone is said as a year: four digits with nothing stuck or tied
/// to them, from a thousand to two thousand ninety-nine. Where it has no words as a
/// year, it is left as it is.
pub proof fn law_a_year_is_said_as_one(s: Seq<char>, i: int)
    requires
        starts_fresh(s, i),
        year_from(s, i),
        number_at(s, i, i + 4),
        ends_clean(s, i + 4),
        loose_before(s, i),
        loose_behind(s, i + 4),
    ensures
        rewrite_of(s, i) == match year_words(value(s.subrange(i, i + 4))) {
            Some(w) => Some((i + 4, w)),
            None => None,
        },
{
    lemma_year_from(s, i);
    lemma_number_end_at(s, i, i + 4, i);
    lemma_no_suffix(s, i + 4);
    reveal_strlit("");
    assert(suffix_of(s, i + 4) =~= ""@);
}

/// A decade is said as the words of its year in the plural: the same words with an `s`,
/// or with `ies` for the `y` at the end; and the first of all is the thousands. The `s`
/// behind the year, and the apostrophe before it where there is one, are taken in.
pub proof fn law_a_decade_is_said_in_the_plural(s: Seq<char>, i: int, e: int)
    requires
        starts_fresh(s, i),
        year_from(s, i),
        number_at(s, i, i + 4),
        e == i + 5 || (e == i + 6 && s[i + 4] == '\''),
        e <= s.len(),
        s[e - 1] == 's',
        e < s.len() ==> !alphabetic(s[e]),
        loose_before(s, i),
        loose_behind(s, e),
    ensures
        ({
            let n = value(s.subrange(i, i + 4));
            match year_words(n) {
                None => rewrite_of(s, i) is None,
                Some(w) => rewrite_of(s, i) matches Some((next, words)) && next == e && (if n
                    == 1000 {
                    words == "thousands"@
                } else if w.len() > 0 && w.last() == 'y' {
                    words == w.drop_last() + "ies"@
                } else {
                    words == w + "s"@
                }),
            }
        }),
{
    lemma_year_from(s, i);
    lemma_number_end_at(s, i, i + 4, i);
    reveal_strlit("s");
    reveal_strlit("");
    assert(alphabetic('s'));
    if e == i + 6 {
        assert(letter_at(s, i + 5));
    }
    assert(suffix_start(s, i + 4) == e - 1);
    lemma_run_end_at(s, letters(), e - 1, e);
    assert(suffix_of(s, i + 4) =~= "s"@);
}

/// Two years with a dash between them are said with a `to`, where the first is not the
/// later one and nothing else is tied to either.
pub proof fn law_a_span_of_years_is_said_with_to(s: Seq<char>, i: int)
    requires
        starts_fresh(s, i),
        year_from(s, i),
        year_from(s, i + 5),
        s[i + 4] == '-' || s[i + 4] == '\u{2013}',
        loose_before(s, i),
        i + 9 < s.len() ==> !alphanumeric(s[i + 9]) && !('0' <= s[i + 9] <= '9') && !((tie(s[i + 9])
            || s[i + 9] == '.' || s[i + 9] == ',') && digit_at(s, i + 10)),
        value(s.subrange(i, i + 4)) <= value(s.subrange(i + 5, i + 9)),
        !alphabetic(s[i + 4]),
    ensures
        rewrite_of(s, i) == match (
            year_words(value(s.subrange(i, i + 4))),
            year_words(value(s.subrange(i + 5, i + 9))),
        ) {
            (Some(x), Some(y)) => Some((i + 9, x + " to "@ + y)),
            _ => None,
        },
{
    lemma_year_from(s, i);
    lemma_year_from(s, i + 5);
    assert(number_at(s, i, i + 4));
    lemma_number_end_at(s, i, i + 4, i);
    lemma_no_suffix(s, i + 4);
    reveal_strlit("");
    assert(suffix_of(s, i + 4) =~= ""@);
    lemma_run_end_at(s, digits(), i + 5, i + 9);
}

/// Nothing is said otherwise than it is written but what starts afresh with a digit, or
/// with a mark of money and a digit behind it.
pub proof fn law_only_numbers_are_said_otherwise(s: Seq<char>, i: int)
    requires
        0 <= i < s.len(),
        rewrite_of(s, i) is Some,
    ensures
        starts_fresh(s, i),
        '0' <= s[i] <= '9' || ((s[i] == '$' || s[i] == '\u{A3}' || s[i] == '\u{20AC}') && digit_at(
            s,
            i + 1,
        )),
{
}

/// A number that is no price is said otherwise only where it is a year; alone, as one of
/// a decade, or as the first of a span with one that is not before it.
pub proof fn law_only_years_are_said_otherwise(s: Seq<char>, i: int, e: int)
    requires
        number_at(s, i, e),
        rewrite_of(s, i) is Some,
    ensures
        e == i + 4,
        year_from(s, i),
        loose_before(s, i),
        ends_clean(s, e) || suffix_of(s, e) == "s"@,
        !loose_behind(s, e) && !alphabetic(s[e]) ==> (s[e] == '-' || s[e] == '\u{2013}')
            && year_from(s, e + 1) && value(s.subrange(i, e)) <= value(s.subrange(e + 1, e + 5)),
{
    lemma_number_end_at(s, i, e, i);
    assert('0' <= s[i] <= '9');
    assert(crate::tts::numbers::currency_of(s[i]) is None);
    let after = suffix_end(s, e);
    let number = s.subrange(i, e);
    let suffix = suffix_of(s, e);
    lemma_run_end(s, letters(), suffix_start(s, e));
    reveal_strlit("");
    reveal_strlit("s");
    assert(crate::tts::numbers::is_year(number));
    assert forall|k: int| i <= k < i + 4 implies '0' <= #[trigger] s[k] <= '9' by {
        assert(is_digit(number[k - i]));
    }
    assert(number =~= s.subrange(i, i + 4));
    if !ends_clean(s, e) {
        let a = suffix_start(s, e);
        if s[e] == '\'' && letter_at(s, e + 1) {
            assert(a == e + 1);
        } else {
            assert(a == e);
        }
        assert(letters()(s[a]));
        lemma_run_end(s, letters(), a + 1);
        assert(after > a);
        assert(suffix.len() > 0);
    } else {
        lemma_no_suffix(s, e);
    }
    if !loose_behind(s, e) {
        lemma_tied(s, i, e);
    }
}

/// A year that is tied to a number behind it is said otherwise only in a span.
proof fn lemma_tied(s: Seq<char>, i: int, e: int)
    requires
        number_at(s, i, e),
        rewrite_of(s, i) is Some,
        !loose_behind(s, e),
    ensures
        ends_clean(s, e) ==> (s[e] == '-' || s[e] == '\u{2013}') && year_from(s, e + 1) && value(
            s.subrange(i, e),
        ) <= value(s.subrange(e + 1, e + 5)),
{
    lemma_number_end_at(s, i, e, i);
    assert('0' <= s[i] <= '9');
    assert(crate::tts::numbers::currency_of(s[i]) is None);
    if ends_clean(s, e) {
        lemma_no_suffix(s, e);
        let b = run_end(s, digits(), e + 1);
        lemma_run_end(s, digits(), e + 1);
        let second = s.subrange(e + 1, b);
        assert(crate::tts::numbers::is_year(second));
        assert(b == e + 5);
        assert forall|k: int| e + 1 <= k < e + 5 implies '0' <= #[trigger] s[k] <= '9' by {
            assert(is_digit(second[k - e - 1]));
        }
    }
}

// ---------------------------------------------------------------------- the whole

/// The text goes on as it is written to the next thing that is said otherwise; there
/// stand its words, and what is behind it follows in the same way.
pub proof fn law_the_rest_stays_as_written(s: Seq<char>, i: int, k: int)
    requires
        0 <= i <= k <= s.len(),
        forall|j: int| i <= j < k ==> (#[trigger] rewrite_of(s, j)) is None,
        k < s.len() ==> rewrite_of(s, k) is Some,
    ensures
        rewritten(s, i) == s.subrange(i, k) + if k == s.len() {
            Seq::empty()
        } else {
            let (next, words) = rewrite_of(s, k)->0;
            words + rewritten(s, next)
        },
    decreases k - i,
{
    if i < k {
        law_the_rest_stays_as_written(s, i + 1, k);
        assert(rewrite_of(s, i) is None);
        assert(s.subrange(i, k) =~= seq![s[i]] + s.subrange(i + 1, k));
        assert(rewritten(s, i) == seq![s[i]] + rewritten(s, i + 1));
    } else {
        assert(s.subrange(i, k) =~= Seq::<char>::empty());
        if k < s.len() {
            lemma_rewrite_moves_on(s, k);
        }
    }
}

} // verus!
