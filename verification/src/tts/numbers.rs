//! Numbers in prose, put the way they are read aloud.
//!
//! A speech synthesiser reads most numbers correctly by itself, and those are
//! left alone. Two readings it gets wrong: it says a currency symbol where it
//! stands, and it reads a year as a cardinal. Both are rewritten as text: the
//! unit goes where English puts it, and a four-digit number in the range where
//! years are becomes two pairs.

use std::borrow::Cow;
use vstd::prelude::*;
use crate::chars::{alphabetic, alphanumeric, append, ascii_digit, chars_of, decimal, decimal_chars, find_char, find_run_end, index_of, is_digit, is_numeral, lemma_run_end, lower_chars, lowered_text, parse_u64, part, remove_char, run_end, same, text_of, value, without};

verus! {

/// The words for the year `n`, such as "nineteen eighty-five".
pub uninterp spec fn year_words(n: nat) -> Option<Seq<char>>;

/// `num2words::Num2Words::new(n).year().to_words()`: what it says depends on
/// the number alone. Which words a year is read as is not restated here.
#[verifier::external_body]
fn words_for_year(n: u64) -> (r: Option<String>)
    requires
        1000 <= n <= 2099,
    ensures
        match r {
            Some(w) => year_words(n as nat) == Some(w@),
            None => year_words(n as nat) is None,
        },
{
    num2words::Num2Words::new(n).year().to_words().ok()
}

// ---------------------------------------------------------------- small pieces

/// Whether there is a digit at `i`.
pub open spec fn digit_at(s: Seq<char>, i: int) -> bool {
    0 <= i < s.len() && is_digit(s[i])
}

fn has_digit_at(v: &[char], i: usize) -> (r: bool)
    ensures
        r == digit_at(v@, i as int),
{
    i < v.len() && ascii_digit(v[i])
}

/// Whether there is a letter at `i`.
pub open spec fn letter_at(s: Seq<char>, i: int) -> bool {
    0 <= i < s.len() && alphabetic(s[i])
}

/// Letters, as a predicate value.
pub open spec fn letters() -> spec_fn(char) -> bool {
    |c: char| alphabetic(c)
}

fn is_letter(c: char) -> (r: bool)
    ensures
        r == alphabetic(c),
{
    c.is_alphabetic()
}

/// Digits, as a predicate value.
pub open spec fn digits() -> spec_fn(char) -> bool {
    |c: char| is_digit(c)
}

/// What may join a four-digit group to more digits.
pub open spec fn joiner(c: char) -> bool {
    c == '-' || c == '\u{2013}' || c == '/' || c == ':'
}

fn is_joiner(c: char) -> (r: bool)
    ensures
        r == joiner(c),
{
    matches!(c, '-' | '\u{2013}' | '/' | ':')
}

/// The unit and the hundredth of a currency, by its symbol.
pub open spec fn currency_of(c: char) -> Option<(Seq<char>, Seq<char>)> {
    if c == '$' {
        Some(("dollar"@, "cent"@))
    } else if c == '\u{A3}' {
        Some(("pound"@, "pence"@))
    } else if c == '\u{20AC}' {
        Some(("euro"@, "cent"@))
    } else {
        None
    }
}

fn find_currency(c: char) -> (r: Option<(Vec<char>, Vec<char>)>)
    ensures
        match r {
            Some((u, s)) => currency_of(c) == Some((u@, s@)),
            None => currency_of(c) is None,
        },
{
    if c == '$' {
        Some((chars_of("dollar"), chars_of("cent")))
    } else if c == '\u{A3}' {
        Some((chars_of("pound"), chars_of("pence")))
    } else if c == '\u{20AC}' {
        Some((chars_of("euro"), chars_of("cent")))
    } else {
        None
    }
}

/// The plural of a unit. Pence is one already.
pub open spec fn plural_of(unit: Seq<char>) -> Seq<char> {
    if unit == "pence"@ {
        unit
    } else {
        unit + "s"@
    }
}

/// The form a unit takes beside the number `n`.
pub open spec fn unit_for(unit: Seq<char>, n: nat) -> Seq<char> {
    if n == 1 {
        unit
    } else {
        plural_of(unit)
    }
}

fn plural(unit: &[char]) -> (r: Vec<char>)
    ensures
        r@ == plural_of(unit@),
{
    let mut r = part(unit, 0, unit.len());
    assert(r@ =~= unit@);
    if !same(unit, &chars_of("pence")) {
        append(&mut r, &chars_of("s"));
    }
    r
}

fn unit_form(unit: &[char], n: u64) -> (r: Vec<char>)
    ensures
        r@ == unit_for(unit@, n as nat),
{
    if n == 1 {
        let r = part(unit, 0, unit.len());
        assert(r@ =~= unit@);
        r
    } else {
        plural(unit)
    }
}

/// `a`, a space and `b`.
pub open spec fn spaced(a: Seq<char>, b: Seq<char>) -> Seq<char> {
    a + " "@ + b
}

fn space_out(a: &[char], b: &[char]) -> (r: Vec<char>)
    ensures
        r@ == spaced(a@, b@),
{
    let mut r = part(a, 0, a.len());
    assert(r@ =~= a@);
    append(&mut r, &chars_of(" "));
    append(&mut r, b);
    r
}

// ----------------------------------------------------------------------- years

/// The decade that starts with a year whose words are `words`: the last word
/// made plural.
pub open spec fn decade_of(n: nat, words: Seq<char>) -> Seq<char> {
    if n == 1000 {
        "thousands"@
    } else if words.len() > 0 && words.last() == 'y' {
        words.drop_last() + "ies"@
    } else {
        words + "s"@
    }
}

/// Whether `d` is a bare four-digit number in the range where years are.
pub open spec fn is_year(d: Seq<char>) -> bool {
    d.len() == 4 && is_numeral(d) && 1000 <= value(d) <= 2099
}

/// A bare four-digit number read as a year, or with an `s` after it as a decade.
pub open spec fn year_of(d: Seq<char>, suffix: Seq<char>) -> Option<Seq<char>> {
    if !is_year(d) {
        None
    } else if suffix == ""@ {
        year_words(value(d))
    } else if suffix == "s"@ {
        match year_words(value(d)) {
            Some(w) => Some(decade_of(value(d), w)),
            None => None,
        }
    } else {
        None
    }
}

/// The decade that starts with the year `n`, whose words are `words`.
pub fn decade(n: u64, words: &str) -> (r: String)
    ensures
        r@ == decade_of(n as nat, words@),
{
    if n == 1000 {
        return text_of(&chars_of("thousands"));
    }
    let w = chars_of(words);
    if w.len() > 0 && w[w.len() - 1] == 'y' {
        let mut r = part(&w, 0, w.len() - 1);
        assert(r@ =~= words@.drop_last());
        append(&mut r, &chars_of("ies"));
        text_of(&r)
    } else {
        let mut r = w;
        append(&mut r, &chars_of("s"));
        text_of(&r)
    }
}

fn year_number(d: &[char]) -> (r: Option<u64>)
    ensures
        match r {
            Some(n) => is_year(d@) && n == value(d@),
            None => !is_year(d@),
        },
{
    if d.len() != 4 {
        return None;
    }
    match parse_u64(d) {
        Some(n) => if 1000 <= n && n <= 2099 {
            Some(n)
        } else {
            None
        },
        None => None,
    }
}

fn year_chars(d: &[char], suffix: &[char]) -> (r: Option<Vec<char>>)
    ensures
        match r {
            Some(w) => year_of(d@, suffix@) == Some(w@),
            None => year_of(d@, suffix@) is None,
        },
{
    let n: u64 = match year_number(d) {
        Some(n) => n,
        None => {
            return None;
        },
    };
    let bare = same(suffix, &chars_of(""));
    if !bare && !same(suffix, &chars_of("s")) {
        return None;
    }
    match words_for_year(n) {
        Some(w) => if bare {
            Some(chars_of(w.as_str()))
        } else {
            Some(chars_of(decade(n, w.as_str()).as_str()))
        },
        None => None,
    }
}

/// A bare four-digit number is a year: `1066` is "ten sixty-six". A trailing
/// `s` makes it a decade: `1990s` is "nineteen nineties".
pub fn year(digits: &str, suffix: &str) -> (r: Option<String>)
    ensures
        match r {
            Some(w) => year_of(digits@, suffix@) == Some(w@),
            None => year_of(digits@, suffix@) is None,
        },
{
    match year_chars(&chars_of(digits), &chars_of(suffix)) {
        Some(w) => Some(text_of(&w)),
        None => None,
    }
}

// ------------------------------------------------------------------- the token

/// Where the number that starts at `i` ends: digits, and any `,` or `.` that
/// has another digit right after it.
pub open spec fn number_end(s: Seq<char>, i: int) -> int
    decreases s.len() - i,
{
    if 0 <= i < s.len() && (is_digit(s[i]) || ((s[i] == ',' || s[i] == '.') && digit_at(
        s,
        i + 1,
    ))) {
        number_end(s, i + 1)
    } else {
        i
    }
}

/// Where the letters right after a number that ends at `e` start: past an
/// apostrophe that a letter follows.
pub open spec fn suffix_start(s: Seq<char>, e: int) -> int {
    if 0 <= e < s.len() && s[e] == '\'' && letter_at(s, e + 1) {
        e + 1
    } else {
        e
    }
}

/// Where they end.
pub open spec fn suffix_end(s: Seq<char>, e: int) -> int {
    run_end(s, letters(), suffix_start(s, e))
}

/// The letters themselves, lowered.
pub open spec fn suffix_of(s: Seq<char>, e: int) -> Seq<char> {
    lowered_text(s.subrange(suffix_start(s, e), suffix_end(s, e)))
}

proof fn lemma_number_end(s: Seq<char>, i: int)
    requires
        0 <= i <= s.len(),
    ensures
        i <= number_end(s, i) <= s.len(),
        digit_at(s, i) ==> i < number_end(s, i),
    decreases s.len() - i,
{
    if i < s.len() {
        lemma_number_end(s, i + 1);
    }
}

proof fn lemma_suffix(s: Seq<char>, e: int)
    requires
        0 <= e <= s.len(),
    ensures
        e <= suffix_start(s, e) <= suffix_end(s, e) <= s.len(),
{
    lemma_run_end(s, letters(), suffix_start(s, e));
}

fn find_number_end(v: &[char], i: usize) -> (r: usize)
    requires
        i <= v@.len(),
    ensures
        r == number_end(v@, i as int),
        i <= r <= v@.len(),
{
    let mut k: usize = i;
    while k < v.len() && (ascii_digit(v[k]) || ((v[k] == ',' || v[k] == '.') && has_digit_at(
        v,
        k + 1,
    )))
        invariant
            i <= k <= v@.len(),
            number_end(v@, i as int) == number_end(v@, k as int),
        decreases v@.len() - k,
    {
        k += 1;
    }
    k
}

fn find_suffix_start(v: &[char], e: usize) -> (r: usize)
    requires
        e <= v@.len(),
    ensures
        r == suffix_start(v@, e as int),
        e <= r <= v@.len(),
{
    if e < v.len() && e + 1 < v.len() && v[e] == '\'' && is_letter(v[e + 1]) {
        e + 1
    } else {
        e
    }
}

// ----------------------------------------------------------------------- money

/// The spaces that may stand between an amount and its scale.
pub open spec fn gaps() -> spec_fn(char) -> bool {
    |c: char| c == ' ' || c == '\u{a0}' || c == '\u{202f}'
}

fn is_gap(c: char) -> (r: bool)
    ensures
        r == (c == ' ' || c == '\u{a0}' || c == '\u{202f}'),
{
    matches!(c, ' ' | '\u{a0}' | '\u{202f}')
}

/// The words that scale an amount.
pub open spec fn scale_word(w: Seq<char>) -> bool {
    w == "thousand"@ || w == "million"@ || w == "billion"@ || w == "trillion"@
}

/// The scale word after `at`, in whatever case it is written, and where it ends.
pub open spec fn scale_after(s: Seq<char>, at: int) -> Option<(int, Seq<char>)> {
    let a = run_end(s, gaps(), at);
    let b = run_end(s, letters(), a);
    if a > at && scale_word(lowered_text(s.subrange(a, b))) {
        Some((b, s.subrange(a, b)))
    } else {
        None
    }
}

fn following_scale(v: &[char], at: usize) -> (r: Option<(usize, Vec<char>)>)
    requires
        at <= v@.len(),
    ensures
        match r {
            Some((e, w)) => scale_after(v@, at as int) == Some((e as int, w@)) && at <= e
                <= v@.len(),
            None => scale_after(v@, at as int) is None,
        },
{
    let a = find_run_end(v, is_gap, at, Ghost(gaps()));
    let b = find_run_end(v, is_letter, a, Ghost(letters()));
    if a == at {
        return None;
    }
    let w = part(v, a, b);
    let l = lower_chars(&w);
    if same(&l, &chars_of("thousand")) || same(&l, &chars_of("million")) || same(
        &l,
        &chars_of("billion"),
    ) || same(&l, &chars_of("trillion")) {
        Some((b, w))
    } else {
        None
    }
}

/// How many full stops `s` holds.
pub open spec fn stops(s: Seq<char>) -> nat {
    s.filter(|c: char| c == '.').len()
}

/// Whole units and hundredths, without the half that is zero.
pub open spec fn whole_and_cents(
    whole: Seq<char>,
    cents: Option<Seq<char>>,
    unit: Seq<char>,
    sub: Seq<char>,
) -> Seq<char> {
    let w = spaced(whole, unit_for(unit, value(whole)));
    match cents {
        Some(c) if value(c) != 0 => {
            let sub_part = spaced(decimal(value(c)), unit_for(sub, value(c)));
            if value(whole) != 0 {
                w + " and "@ + sub_part
            } else {
                sub_part
            }
        },
        _ => w,
    }
}

/// What an amount of money is read as, and where reading goes on: the amount
/// with its unit after it; hundredths apart, where the fraction is exactly two
/// digits; and a scale word before the unit.
pub open spec fn money_of(
    s: Seq<char>,
    after: int,
    amount: Seq<char>,
    suffix: Seq<char>,
    unit: Seq<char>,
    sub: Seq<char>,
) -> Option<(int, Seq<char>)> {
    let bare = without(amount, ',');
    let dot = index_of(bare, '.', 0);
    if suffix.len() > 0 || stops(amount) > 1 {
        None
    } else if scale_after(s, after) is Some {
        let (next, scale) = scale_after(s, after)->0;
        Some((next, spaced(spaced(bare, scale), plural_of(unit))))
    } else if dot < bare.len() && bare.len() - dot != 3 {
        Some((after, spaced(bare, plural_of(unit))))
    } else {
        let whole = bare.take(dot);
        let cents = if dot < bare.len() {
            Some(bare.skip(dot + 1))
        } else {
            None
        };
        if !is_numeral(whole) || value(whole) > u64::MAX || (cents is Some && !is_numeral(
            cents->0,
        )) {
            None
        } else {
            Some((after, whole_and_cents(whole, cents, unit, sub)))
        }
    }
}

fn has_two_stops(v: &[char]) -> (r: bool)
    ensures
        r == (stops(v@) > 1),
{
    let ghost dots = |c: char| c == '.';
    let mut n: usize = 0;
    let mut i: usize = 0;
    proof {
        reveal(Seq::filter);
        assert(v@.take(0).filter(dots) =~= Seq::<char>::empty());
    }
    while i < v.len()
        invariant
            i <= v@.len(),
            n <= i,
            dots == (|c: char| c == '.'),
            n == v@.take(i as int).filter(dots).len(),
        decreases v@.len() - i,
    {
        proof {
            v@.take(i as int).lemma_filter_push(v@[i as int], dots);
            assert(v@.take(i + 1) =~= v@.take(i as int).push(v@[i as int]));
        }
        if v[i] == '.' {
            n += 1;
        }
        i += 1;
    }
    assert(v@.take(i as int) =~= v@);
    n > 1
}

fn money(
    v: &[char],
    after: usize,
    amount: &[char],
    suffix: &[char],
    unit: &[char],
    sub: &[char],
) -> (r: Option<(usize, Vec<char>)>)
    requires
        after <= v@.len(),
    ensures
        match r {
            Some((e, w)) => money_of(v@, after as int, amount@, suffix@, unit@, sub@) == Some(
                (e as int, w@),
            ) && after <= e <= v@.len(),
            None => money_of(v@, after as int, amount@, suffix@, unit@, sub@) is None,
        },
{
    if suffix.len() > 0 || has_two_stops(amount) {
        return None;
    }
    let bare = remove_char(amount, ',');
    match following_scale(v, after) {
        Some((next, scale)) => {
            return Some((next, space_out(&space_out(&bare, &scale), &plural(unit))));
        },
        None => {},
    }
    let dot = find_char(&bare, '.', 0);
    if dot < bare.len() && bare.len() - dot != 3 {
        return Some((after, space_out(&bare, &plural(unit))));
    }
    let whole = part(&bare, 0, dot);
    assert(whole@ =~= bare@.take(dot as int));
    let whole_n: u64 = match parse_u64(&whole) {
        Some(n) => n,
        None => {
            return None;
        },
    };
    let first = space_out(&whole, &unit_form(unit, whole_n));
    if dot == bare.len() {
        return Some((after, first));
    }
    let cents = part(&bare, dot + 1, bare.len());
    assert(cents@ =~= bare@.skip(dot + 1));
    proof {
        lemma_two_digits(cents@);
    }
    let cents_n: u64 = match parse_u64(&cents) {
        Some(n) => n,
        None => {
            return None;
        },
    };
    if cents_n == 0 {
        return Some((after, first));
    }
    let second = space_out(&decimal_chars(cents_n), &unit_form(sub, cents_n));
    if whole_n == 0 {
        return Some((after, second));
    }
    let mut both = first;
    append(&mut both, &chars_of(" and "));
    append(&mut both, &second);
    Some((after, both))
}

proof fn lemma_two_digits(s: Seq<char>)
    requires
        s.len() == 2,
    ensures
        is_numeral(s) ==> value(s) < 100,
{
    reveal_with_fuel(value, 3);
    if is_numeral(s) {
        assert(is_digit(s[0]) && is_digit(s[1]));
        assert(s.drop_last().last() == s[0]);
        assert(s.drop_last().drop_last().len() == 0);
    }
}

// ----------------------------------------------------------------- year ranges

/// Whether the number starting at `i` is joined to a digit on its left.
pub open spec fn joined_left(s: Seq<char>, i: int) -> bool {
    2 <= i <= s.len() && joiner(s[i - 1]) && is_digit(s[i - 2])
}

/// Whether the number ending at `e` is joined to a digit on its right.
pub open spec fn joined_right(s: Seq<char>, e: int) -> bool {
    0 <= e < s.len() && joiner(s[e]) && digit_at(s, e + 1)
}

/// Whether the text at `e`, right after a second year, carries the number on.
pub open spec fn carries_on(s: Seq<char>, e: int) -> bool {
    0 <= e < s.len() && (alphanumeric(s[e]) || ((joiner(s[e]) || s[e] == '.' || s[e] == ',')
        && digit_at(s, e + 1)))
}

/// Two bare years joined by a hyphen or an en dash, the second no earlier than
/// the first, and nothing joined on either end: a span of years.
pub open spec fn span_of(
    s: Seq<char>,
    i: int,
    first: Seq<char>,
    suffix: Seq<char>,
    e: int,
) -> Option<(int, Seq<char>)> {
    let b = run_end(s, digits(), e + 1);
    let second = s.subrange(e + 1, b);
    if suffix.len() == 0 && !joined_left(s, i) && 0 <= e < s.len() && (s[e] == '-' || s[e]
        == '\u{2013}') && !carries_on(s, b) && is_year(first) && is_year(second) && value(first)
        <= value(second) {
        match (year_of(first, ""@), year_of(second, ""@)) {
            (Some(x), Some(y)) => Some((b, x + " to "@ + y)),
            _ => None,
        }
    } else {
        None
    }
}

fn is_joined_left(v: &[char], i: usize) -> (r: bool)
    requires
        i <= v@.len(),
    ensures
        r == joined_left(v@, i as int),
{
    i >= 2 && is_joiner(v[i - 1]) && ascii_digit(v[i - 2])
}

fn is_joined_right(v: &[char], e: usize) -> (r: bool)
    requires
        e <= v@.len(),
    ensures
        r == joined_right(v@, e as int),
{
    e < v.len() && is_joiner(v[e]) && has_digit_at(v, e + 1)
}

fn part_of_a_larger_number(v: &[char], i: usize, e: usize) -> (r: bool)
    requires
        i <= v@.len(),
        e <= v@.len(),
    ensures
        r == (joined_left(v@, i as int) || joined_right(v@, e as int)),
{
    is_joined_left(v, i) || is_joined_right(v, e)
}

fn does_carry_on(v: &[char], e: usize) -> (r: bool)
    requires
        e <= v@.len(),
    ensures
        r == carries_on(v@, e as int),
{
    e < v.len() && (v[e].is_alphanumeric() || ((is_joiner(v[e]) || v[e] == '.' || v[e] == ',')
        && has_digit_at(v, e + 1)))
}

fn year_range(v: &[char], i: usize, first: &[char], suffix: &[char], e: usize) -> (r: Option<
    (usize, Vec<char>),
>)
    requires
        i <= v@.len(),
        e <= v@.len(),
    ensures
        match r {
            Some((b, w)) => span_of(v@, i as int, first@, suffix@, e as int) == Some(
                (b as int, w@),
            ) && e < b <= v@.len(),
            None => span_of(v@, i as int, first@, suffix@, e as int) is None,
        },
{
    if suffix.len() > 0 || is_joined_left(v, i) || e == v.len() || !(v[e] == '-' || v[e]
        == '\u{2013}') {
        return None;
    }
    let b = find_run_end(v, ascii_digit, e + 1, Ghost(digits()));
    if does_carry_on(v, b) {
        return None;
    }
    let second = part(v, e + 1, b);
    match (year_number(first), year_number(&second)) {
        (Some(x), Some(y)) => if y < x {
            return None;
        },
        _ => {
            return None;
        },
    }
    let none = chars_of("");
    match (year_chars(first, &none), year_chars(&second, &none)) {
        (Some(x), Some(y)) => {
            let mut w = x;
            append(&mut w, &chars_of(" to "));
            append(&mut w, &y);
            Some((b, w))
        },
        _ => None,
    }
}

// ------------------------------------------------------------------ the rewrite

/// What stands in place of the number starting at `i`, and where reading goes
/// on; nothing where there is no number there, or none worth rewriting.
///
/// A rewrite starts neither inside a word nor inside a number. An amount of
/// money that cannot be read is passed over whole, so that no part of it is
/// taken for a year.
pub open spec fn rewrite_of(s: Seq<char>, i: int) -> Option<(int, Seq<char>)> {
    let cur = if digit_at(s, i + 1) {
        currency_of(s[i])
    } else {
        None
    };
    let start = if cur is Some {
        i + 1
    } else {
        i
    };
    let e = number_end(s, start);
    let after = suffix_end(s, e);
    let number = s.subrange(start, e);
    let suffix = suffix_of(s, e);
    if i > 0 && alphanumeric(s[i - 1]) {
        None
    } else if i >= 2 && (s[i - 1] == '.' || s[i - 1] == ',') && is_digit(s[i - 2]) {
        None
    } else if !digit_at(s, start) {
        None
    } else if let Some((unit, sub)) = cur {
        match money_of(s, after, number, suffix, unit, sub) {
            Some(r) => Some(r),
            None => Some((after, s.subrange(i, after))),
        }
    } else if joined_left(s, i) || joined_right(s, after) {
        span_of(s, i, number, suffix, after)
    } else {
        match year_of(number, suffix) {
            Some(w) => Some((after, w)),
            None => None,
        }
    }
}

/// A rewrite always moves on, and never past the end.
pub proof fn lemma_rewrite_moves_on(s: Seq<char>, i: int)
    requires
        0 <= i < s.len(),
    ensures
        rewrite_of(s, i) matches Some((next, words)) ==> i < next <= s.len(),
{
    let start = if digit_at(s, i + 1) && currency_of(s[i]) is Some {
        i + 1
    } else {
        i
    };
    if digit_at(s, start) {
        lemma_number_end(s, start);
        let e = number_end(s, start);
        lemma_suffix(s, e);
        let after = suffix_end(s, e);
        lemma_run_end(s, gaps(), after);
        lemma_run_end(s, letters(), run_end(s, gaps(), after));
        if after < s.len() {
            lemma_run_end(s, digits(), after + 1);
        }
    }
}

/// `s` from `i` on, rewritten.
pub open spec fn rewritten(s: Seq<char>, i: int) -> Seq<char>
    decreases s.len() - i,
{
    if i < 0 || i >= s.len() {
        Seq::empty()
    } else {
        proof {
            lemma_rewrite_moves_on(s, i);
        }
        match rewrite_of(s, i) {
            Some((next, words)) => words + rewritten(s, next),
            None => seq![s[i]] + rewritten(s, i + 1),
        }
    }
}

fn rewrite_at(v: &[char], i: usize) -> (r: Option<(usize, Vec<char>)>)
    requires
        i < v@.len(),
    ensures
        match r {
            Some((next, w)) => rewrite_of(v@, i as int) == Some((next as int, w@)) && i < next
                <= v@.len(),
            None => rewrite_of(v@, i as int) is None,
        },
{
    proof {
        lemma_rewrite_moves_on(v@, i as int);
    }
    if i > 0 && v[i - 1].is_alphanumeric() {
        return None;
    }
    if i >= 2 && (v[i - 1] == '.' || v[i - 1] == ',') && ascii_digit(v[i - 2]) {
        return None;
    }
    let cur = if has_digit_at(v, i + 1) {
        find_currency(v[i])
    } else {
        None
    };
    let start: usize = if cur.is_some() {
        i + 1
    } else {
        i
    };
    if !has_digit_at(v, start) {
        return None;
    }
    let e = find_number_end(v, start);
    let tail = find_suffix_start(v, e);
    let after = find_run_end(v, is_letter, tail, Ghost(letters()));
    let suffix = lower_chars(&part(v, tail, after));
    let number = part(v, start, e);
    match cur {
        Some((unit, sub)) => match money(v, after, &number, &suffix, &unit, &sub) {
            Some(r) => Some(r),
            None => Some((after, part(v, i, after))),
        },
        None => if part_of_a_larger_number(v, i, after) {
            year_range(v, i, &number, &suffix, after)
        } else {
            match year_chars(&number, &suffix) {
                Some(w) => Some((after, w)),
                None => None,
            }
        },
    }
}

/// Whether nothing in `s` is rewritten.
pub open spec fn left_alone(s: Seq<char>) -> bool {
    forall|i: int| 0 <= i < s.len() ==> (#[trigger] rewrite_of(s, i)) is None
}

/// Text in which nothing is rewritten stays as it is.
pub proof fn law_left_alone_stays(s: Seq<char>, i: int)
    requires
        left_alone(s),
        0 <= i <= s.len(),
    ensures
        rewritten(s, i) == s.skip(i),
    decreases s.len() - i,
{
    if i < s.len() {
        law_left_alone_stays(s, i + 1);
        assert(rewrite_of(s, i) is None);
        assert(seq![s[i]] + s.skip(i + 1) =~= s.skip(i));
    } else {
        assert(s.skip(i) =~= Seq::<char>::empty());
    }
}

/// Whether a year stands at `a`: four digits, no more, between 1000 and 2099.
pub open spec fn year_at(s: Seq<char>, a: int) -> bool {
    &&& 0 <= a <= s.len() - 4
    &&& is_year(s.subrange(a, a + 4))
    &&& !digit_at(s, a - 1)
    &&& !digit_at(s, a + 4)
}

/// Whether a currency symbol stands at `i` with a digit behind it.
pub open spec fn price_at(s: Seq<char>, i: int) -> bool {
    0 <= i < s.len() && currency_of(s[i]) is Some && digit_at(s, i + 1)
}

proof fn lemma_number_stops(s: Seq<char>, i: int)
    requires
        0 <= i <= s.len(),
    ensures
        !digit_at(s, number_end(s, i)),
    decreases s.len() - i,
{
    if i < s.len() {
        lemma_number_stops(s, i + 1);
    }
}

/// Only prices and years are rewritten: a text with neither is left alone, whatever
/// other numbers are in it.
pub proof fn law_only_prices_and_years(s: Seq<char>)
    requires
        forall|i: int| !#[trigger] price_at(s, i),
        forall|a: int| !#[trigger] year_at(s, a),
    ensures
        left_alone(s),
        rewritten(s, 0) == s,
{
    assert forall|i: int| 0 <= i < s.len() implies (#[trigger] rewrite_of(s, i)) is None by {
        assert(!price_at(s, i));
        assert(!year_at(s, i));
        lemma_number_end(s, i);
        lemma_number_stops(s, i);
        let e = number_end(s, i);
        if i > 0 && digit_at(s, i - 1) {
            assert(alphanumeric(s[i - 1]));
        }
        assert(is_year(s.subrange(i, e)) ==> e == i + 4);
    }
    law_left_alone_stays(s, 0);
    assert(s.skip(0) =~= s);
}

/// `text` with the numbers in it that would be read wrong rewritten. Text with
/// nothing to rewrite comes back borrowed.
pub fn normalize(text: &str) -> (r: Cow<'_, str>)
    ensures
        r@ == rewritten(text@, 0),
        r is Borrowed <==> left_alone(text@),
{
    let v = chars_of(text);
    let mut out: Vec<char> = Vec::new();
    let mut touched = false;
    let mut i: usize = 0;
    assert(v@.take(0) =~= Seq::<char>::empty());
    while i < v.len()
        invariant
            i <= v@.len(),
            v@ == text@,
            rewritten(v@, 0) == out@ + rewritten(v@, i as int),
            !touched ==> out@ == v@.take(i as int),
            touched ==> !left_alone(v@),
            !touched ==> forall|k: int| 0 <= k < i ==> (#[trigger] rewrite_of(v@, k)) is None,
        decreases v@.len() - i,
    {
        match rewrite_at(&v, i) {
            Some((next, words)) => {
                touched = true;
                assert(rewrite_of(v@, i as int) is Some);
                let ghost before = out@;
                append(&mut out, &words);
                assert(before + (words@ + rewritten(v@, next as int)) =~= out@ + rewritten(
                    v@,
                    next as int,
                ));
                i = next;
            },
            None => {
                let ghost before = out@;
                out.push(v[i]);
                assert(before + (seq![v@[i as int]] + rewritten(v@, i + 1)) =~= out@ + rewritten(
                    v@,
                    i + 1,
                ));
                assert(v@.take(i + 1) =~= v@.take(i as int).push(v@[i as int]));
                i += 1;
            },
        }
    }
    assert(rewritten(v@, 0) =~= out@);
    if touched {
        Cow::Owned(text_of(&out))
    } else {
        assert(v@.take(i as int) =~= v@);
        Cow::Borrowed(text)
    }
}

} // verus!
