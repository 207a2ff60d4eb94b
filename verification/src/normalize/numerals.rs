//! Numerals are read as the numbers that they name.

use vstd::prelude::*;
use crate::normalize::hangul::{
    at_least_one, converted, digits_of, goes_on, hangul_steps, has_digit, has_unit, is_sign,
    one_syllable, read_run, run_end, sign_before, sign_from, swallowed, token_at, tokens_from,
    two_syllables, unit_syllable, unit_value, white_before, white_from, NumeralConfig, Token,
};
use crate::span::builder::reading;
use crate::span::steps::{cost_of, dst_of, keeps, lemma_keeps, lemma_of_add, lemma_of_single, Step};
use crate::span::cost::{clamped, law_cost_sum_zero, no_cost, NormalizationCost};
use crate::text::{decimal, is_white};

verus! {

broadcast use crate::text::lemma_text_char_range;

/// The names of the digits. Name 0 is the one used for reading numbers digit by digit; every digit
/// has one more, and some have two.
pub open spec fn name_of(d: int, k: int) -> Seq<char> {
    if d == 0 {
        if k == 0 { seq!['공'] } else if k == 1 { seq!['영'] } else { seq!['빵'] }
    } else if d == 1 {
        if k == 0 { seq!['일'] } else { seq!['하', '나'] }
    } else if d == 2 {
        if k == 0 { seq!['이'] } else { seq!['둘'] }
    } else if d == 3 {
        if k == 0 { seq!['삼'] } else { seq!['셋'] }
    } else if d == 4 {
        if k == 0 { seq!['사'] } else { seq!['넷'] }
    } else if d == 5 {
        if k == 0 { seq!['오'] } else { seq!['다', '섯'] }
    } else if d == 6 {
        if k == 0 { seq!['육'] } else if k == 1 { seq!['여', '섯'] } else { seq!['륙'] }
    } else if d == 7 {
        if k == 0 { seq!['칠'] } else { seq!['일', '곱'] }
    } else if d == 8 {
        if k == 0 { seq!['팔'] } else { seq!['여', '덟'] }
    } else {
        if k == 0 { seq!['구'] } else { seq!['아', '홉'] }
    }
}

/// The names of the units.
pub open spec fn unit_name(u: u64) -> char {
    if u == 10 {
        '십'
    } else if u == 100 {
        '백'
    } else if u == 1_000 {
        '천'
    } else if u == 10_000 {
        '만'
    } else {
        '억'
    }
}

/// A word and which of its names is used.
pub struct Word {
    pub token: Token,
    pub name: int,
}

/// The word is a digit or one of the five units.
pub open spec fn is_word(w: Word) -> bool {
    match w.token {
        Token::Digit(d) => d < 10,
        Token::Unit(u) => u == 10 || u == 100 || u == 1_000 || u == 10_000 || u == 100_000_000,
    }
}

/// The syllables of a word.
pub open spec fn syllables(w: Word) -> Seq<char> {
    match w.token {
        Token::Digit(d) => name_of(d as int, w.name),
        Token::Unit(u) => seq![unit_name(u)],
    }
}

/// Words, written one after the other.
pub open spec fn written(words: Seq<Word>) -> Seq<char>
    decreases words.len(),
{
    if words.len() == 0 {
        Seq::empty()
    } else {
        syllables(words[0]) + written(words.drop_first())
    }
}

/// What the words stand for.
pub open spec fn meant(words: Seq<Word>) -> Seq<Token> {
    words.map_values(|w: Word| w.token)
}

/// Every item is a word.
pub open spec fn are_words(words: Seq<Word>) -> bool {
    forall|i: int| 0 <= i < words.len() ==> is_word(#[trigger] words[i])
}

/// The character goes on a name that the character before it begins.
spec fn is_second(c: char) -> bool {
    c == '나' || c == '섯' || c == '곱' || c == '덟' || c == '홉'
}

/// A numeral is read word by word.
proof fn lemma_words_at(words: Seq<Word>, s: Seq<char>, i: int, e: int)
    requires
        are_words(words),
        0 <= i <= e <= s.len(),
        s.subrange(i, e) == written(words),
        e < s.len() ==> token_at(s, e) is None && !is_second(s[e]),
    ensures
        tokens_from(s, i) == meant(words),
        run_end(s, i) == e,
    decreases words.len(),
{
    if words.len() > 0 {
        let w = words[0];
        let rest = words.drop_first();
        let head = syllables(w);
        let n = head.len() as int;
        let all = written(words);
        assert(is_word(w));
        assert(are_words(rest)) by {
            assert forall|k: int| 0 <= k < rest.len() implies is_word(#[trigger] rest[k]) by {
                assert(is_word(words[k + 1]));
            }
        }
        assert(all == head + written(rest));
        assert(s.subrange(i + n, e) =~= written(rest)) by {
            assert(s.subrange(i, e).skip(n) =~= s.subrange(i + n, e));
            assert(all.skip(n) =~= written(rest));
        }
        lemma_words_at(rest, s, i + n, e);
        assert(s[i] == s.subrange(i, e)[0]);
        if n == 2 {
            assert(s[i + 1] == s.subrange(i, e)[1]);
        } else if i + 1 < s.len() {
            assert(!is_second(s[i + 1])) by {
                if i + 1 < e {
                    assert(rest.len() > 0);
                    assert(is_word(rest[0]));
                    assert(s[i + 1] == s.subrange(i, e)[1]);
                    assert(written(rest) == syllables(rest[0]) + written(rest.drop_first()));
                    assert(all[1] == syllables(rest[0])[0]);
                }
            }
        }
        assert(token_at(s, i) == Some((w.token, n)));
        assert(meant(words) =~= seq![w.token] + meant(rest));
    } else {
        assert(s.subrange(i, e).len() == 0);
        assert(tokens_from(s, i) =~= meant(words));
    }
}

/// The digits that words stand for.
pub open spec fn digits_meant(words: Seq<Word>) -> Seq<char> {
    words.map_values(
        |w: Word| match w.token {
            Token::Digit(d) => ('0' as int + d as int) as char,
            Token::Unit(_) => '0',
        },
    )
}

/// All words are digits.
pub open spec fn all_digit_words(words: Seq<Word>) -> bool {
    forall|i: int| 0 <= i < words.len() ==> (#[trigger] words[i]).token is Digit
}

proof fn lemma_digits_meant(words: Seq<Word>)
    requires
        all_digit_words(words),
    ensures
        digits_of(meant(words)) == digits_meant(words),
        !has_unit(meant(words)),
    decreases words.len(),
{
    let tokens = meant(words);
    if words.len() > 0 {
        let init = words.drop_last();
        assert forall|i: int| 0 <= i < init.len() implies (#[trigger] init[i]).token is Digit by {
            assert(words[i].token is Digit);
        }
        lemma_digits_meant(init);
        assert(tokens.drop_last() =~= meant(init));
        assert(words[words.len() - 1].token is Digit);
        assert(digits_of(tokens) =~= digits_meant(words));
    } else {
        assert(digits_of(tokens) =~= digits_meant(words));
    }
    assert forall|i: int| 0 <= i < tokens.len() implies !((#[trigger] tokens[i]) is Unit) by {
        assert(words[i].token is Digit);
    }
}

/// Whatever names are used, digits spoken one by one are read as those digits, in their order.
pub proof fn law_spoken_digits_are_read(words: Seq<Word>)
    requires
        are_words(words),
        all_digit_words(words),
    ensures
        converted(tokens_from(written(words), 0)) == Some((digits_meant(words), "hangul.digit_reading"@)),
        run_end(written(words), 0) == written(words).len(),
{
    let s = written(words);
    assert(s.subrange(0, s.len() as int) =~= s);
    lemma_words_at(words, s, 0, s.len() as int);
    lemma_digits_meant(words);
}

/// A multiple of a unit in words: nothing for none, and for one the unit alone, if `one` is not
/// said.
pub open spec fn multiple(x: int, u: u64, one: bool) -> Seq<Token> {
    if x == 0 {
        Seq::empty()
    } else if x == 1 && !one {
        seq![Token::Unit(u)]
    } else {
        seq![Token::Digit(x as u8), Token::Unit(u)]
    }
}

/// A number below ten thousand in words.
pub open spec fn small_number(n: int, one: bool) -> Seq<Token> {
    multiple(n / 1000, 1_000, one) + (multiple((n / 100) % 10, 100, one) + (multiple((n / 10) % 10, 10, one) + if n % 10
        == 0 {
        Seq::empty()
    } else {
        seq![Token::Digit((n % 10) as u8)]
    }))
}

/// A multiple of a large unit in words.
pub open spec fn large_multiple(n: int, u: u64, one: bool) -> Seq<Token> {
    if n == 0 {
        Seq::empty()
    } else if n == 1 && !one {
        seq![Token::Unit(u)]
    } else {
        small_number(n, one) + seq![Token::Unit(u)]
    }
}

/// A number in words, as it is said in Korean: by hundreds of millions, ten thousands and ones.
pub open spec fn number_in_words(n: int, one: bool) -> Seq<Token> {
    large_multiple(n / 100_000_000, 100_000_000, one) + (large_multiple((n / 10_000) % 10_000, 10_000, one) + small_number(
        n % 10_000,
        one,
    ))
}

proof fn lemma_unit_step(t: Token, rest: Seq<Token>, total: nat, section: nat, current: nat, digits: nat)
    ensures
        unit_value(seq![t] + rest, total, section, current, digits) == match t {
            Token::Digit(d) => if current != 0 {
                None
            } else {
                unit_value(rest, total, section, d as nat, digits + 1)
            },
            Token::Unit(u) => if digits >= 2 {
                None
            } else if u >= 10_000 {
                unit_value(rest, total + at_least_one(section + current) * (u as nat), 0, 0, 0)
            } else {
                unit_value(rest, total, section + at_least_one(current) * (u as nat), 0, 0)
            },
        },
{
    assert((seq![t] + rest).drop_first() =~= rest);
}

proof fn lemma_multiple_value(x: int, u: u64, one: bool, rest: Seq<Token>, total: nat, section: nat)
    requires
        0 <= x < 10,
        10 <= u < 10_000,
    ensures
        unit_value(multiple(x, u, one) + rest, total, section, 0, 0) == unit_value(
            rest,
            total,
            (section + x * u) as nat,
            0,
            0,
        ),
{
    if x == 0 {
        assert(multiple(x, u, one) + rest =~= rest);
        assert(x * u == 0);
    } else if x == 1 && !one {
        lemma_unit_step(Token::Unit(u), rest, total, section, 0, 0);
        assert(1 * u == u) by (nonlinear_arith);
        assert(at_least_one(0) * (u as nat) == x * u) by (nonlinear_arith)
            requires
                x == 1,
                at_least_one(0) == 1,
        ;
    } else {
        let tail = seq![Token::Unit(u)] + rest;
        assert(multiple(x, u, one) + rest =~= seq![Token::Digit(x as u8)] + tail);
        lemma_unit_step(Token::Digit(x as u8), tail, total, section, 0, 0);
        lemma_unit_step(Token::Unit(u), rest, total, section, x as nat, 1);
        assert(at_least_one(x as nat) * (u as nat) == x * u);
    }
}

/// A number below ten thousand is the sum of its decimal places.
proof fn lemma_places(n: int)
    requires
        0 <= n < 10_000,
    ensures
        0 <= n / 1000 < 10,
        0 <= (n / 100) % 10 < 10,
        0 <= (n / 10) % 10 < 10,
        0 <= n % 10 < 10,
        (n / 1000) * 1000 + ((n / 100) % 10) * 100 + ((n / 10) % 10) * 10 == n - n % 10,
{
    let u = n / 10;
    let v = n / 100;
    let w = n / 1000;
    assert(n == 10 * u + n % 10);
    assert(v == u / 10);
    assert(u == 10 * v + u % 10);
    assert(w == v / 10);
    assert(v == 10 * w + v % 10);
}

/// Behind a number below ten thousand, what was read since the last large unit is that number.
proof fn lemma_small_value(n: int, one: bool, rest: Seq<Token>, total: nat)
    requires
        0 <= n < 10_000,
    ensures
        unit_value(small_number(n, one) + rest, total, 0, 0, 0) == unit_value(
            rest,
            total,
            (n - n % 10) as nat,
            (n % 10) as nat,
            if n % 10 == 0 {
                0
            } else {
                1
            },
        ),
{
    let a = n / 1000;
    let b = (n / 100) % 10;
    let c = (n / 10) % 10;
    let d = n % 10;
    let last = if d == 0 {
        Seq::empty()
    } else {
        seq![Token::Digit(d as u8)]
    };
    let r3 = last + rest;
    let r2 = multiple(c, 10, one) + r3;
    let r1 = multiple(b, 100, one) + r2;
    assert(small_number(n, one) + rest =~= multiple(a, 1_000, one) + r1);
    lemma_places(n);
    lemma_multiple_value(a, 1_000, one, r1, total, 0);
    lemma_multiple_value(b, 100, one, r2, total, (a * 1000) as nat);
    lemma_multiple_value(c, 10, one, r3, total, (a * 1000 + b * 100) as nat);
    if d == 0 {
        assert(r3 =~= rest);
    } else {
        lemma_unit_step(Token::Digit(d as u8), rest, total, (n - d) as nat, 0, 0);
    }
}

proof fn lemma_large_value(n: int, u: u64, one: bool, rest: Seq<Token>, total: nat)
    requires
        0 <= n < 10_000,
        u >= 10_000,
    ensures
        unit_value(large_multiple(n, u, one) + rest, total, 0, 0, 0) == unit_value(rest, (total + n * u) as nat, 0, 0, 0),
{
    if n == 0 {
        assert(large_multiple(n, u, one) + rest =~= rest);
        assert(n * u == 0);
    } else if n == 1 && !one {
        lemma_unit_step(Token::Unit(u), rest, total, 0, 0, 0);
        assert(at_least_one(0) * (u as nat) == n * u) by (nonlinear_arith)
            requires
                n == 1,
                at_least_one(0) == 1,
        ;
    } else {
        let tail = seq![Token::Unit(u)] + rest;
        assert(large_multiple(n, u, one) + rest =~= small_number(n, one) + tail);
        lemma_small_value(n, one, tail, total);
        lemma_unit_step(
            Token::Unit(u),
            rest,
            total,
            (n - n % 10) as nat,
            (n % 10) as nat,
            if n % 10 == 0 {
                0
            } else {
                1
            },
        );
        assert(at_least_one(((n - n % 10) + n % 10) as nat) == n as nat);
        assert(at_least_one(n as nat) * (u as nat) == n * u);
    }
}

/// A number is the sum of its parts of four decimal places.
proof fn lemma_large_places(n: int)
    requires
        0 < n < 1_000_000_000_000,
    ensures
        0 <= n / 100_000_000 < 10_000,
        0 <= (n / 10_000) % 10_000 < 10_000,
        0 <= n % 10_000 < 10_000,
        (n / 100_000_000) * 100_000_000 + ((n / 10_000) % 10_000) * 10_000 + n % 10_000 == n,
{
    let u = n / 10_000;
    let v = n / 100_000_000;
    assert(n == 10_000 * u + n % 10_000);
    assert(v == u / 10_000);
    assert(u == 10_000 * v + u % 10_000);
}

/// A number said in words has the value of the number, whether `one` is said before units or not.
pub proof fn law_numbers_in_words_have_their_value(n: int, one: bool)
    requires
        0 < n < 1_000_000_000_000,
    ensures
        unit_value(number_in_words(n, one), 0, 0, 0, 0) == Some(n as nat),
        has_unit(number_in_words(n, one)) && has_digit(number_in_words(n, one)) ==> converted(number_in_words(n, one))
            == Some((decimal(n as nat), "hangul.unit_reading"@)),
{
    let a = n / 100_000_000;
    let b = (n / 10_000) % 10_000;
    let c = n % 10_000;
    let none = Seq::<Token>::empty();
    let r2 = small_number(c, one);
    let r1 = large_multiple(b, 10_000, one) + r2;
    lemma_large_places(n);
    lemma_large_value(a, 100_000_000, one, r1, 0);
    lemma_large_value(b, 10_000, one, r2, (a * 100_000_000) as nat);
    lemma_small_value(c, one, none, (a * 100_000_000 + b * 10_000) as nat);
    assert(r2 + none =~= r2);
}

/// The words of a number, written in syllables, are read as the number.
pub proof fn law_written_numbers_are_read(n: int, one: bool, words: Seq<Word>)
    requires
        0 < n < 1_000_000_000_000,
        are_words(words),
        meant(words) == number_in_words(n, one),
        has_unit(meant(words)),
        has_digit(meant(words)),
    ensures
        converted(tokens_from(written(words), 0)) == Some((decimal(n as nat), "hangul.unit_reading"@)),
        run_end(written(words), 0) == written(words).len(),
{
    let s = written(words);
    assert(s.subrange(0, s.len() as int) =~= s);
    lemma_words_at(words, s, 0, s.len() as int);
    law_numbers_in_words_have_their_value(n, one);
}

/// Units alone name no number: they are everyday words far more often.
pub proof fn law_units_alone_are_not_read(words: Seq<Word>)
    requires
        are_words(words),
        words.len() > 0,
        forall|i: int| 0 <= i < words.len() ==> (#[trigger] words[i]).token is Unit,
    ensures
        converted(tokens_from(written(words), 0)) is None,
{
    let s = written(words);
    assert(s.subrange(0, s.len() as int) =~= s);
    lemma_words_at(words, s, 0, s.len() as int);
    let tokens = meant(words);
    assert(tokens[0] is Unit) by {
        assert(words[0].token is Unit);
    }
    assert forall|i: int| 0 <= i < tokens.len() implies !((#[trigger] tokens[i]) is Digit) by {
        assert(words[i].token is Unit);
    }
}

/// A sign of numbers: a digit, a hyphen, or one of the counting words.
pub open spec fn counts(c: char) -> bool {
    ('0' <= c <= '9') || c == '-' || c == '년' || c == '월' || c == '일' || c == '번' || c == '호' || c == '생' || c == '세'
        || c == '원' || c == '차' || c == '기' || c == '시' || c == '분' || c == '초'
}

/// Before position `i`, with at most `window` characters of whitespace between and nothing else, a
/// sign of numbers stands.
pub open spec fn counts_before(s: Seq<char>, i: int, window: int) -> bool {
    exists|j: int| 0 <= j < i && i - j - 1 <= window && counts(#[trigger] s[j]) && all_white(s, j + 1, i)
}

/// From position `i` on, behind at most `window` characters of whitespace, a sign of numbers
/// stands.
pub open spec fn counts_from(s: Seq<char>, i: int, window: int) -> bool {
    exists|j: int| i <= j < s.len() && j - i <= window && counts(#[trigger] s[j]) && all_white(s, i, j)
}

/// There is nothing but whitespace between two positions.
pub open spec fn all_white(s: Seq<char>, from: int, to: int) -> bool {
    forall|k: int| from <= k < to ==> is_white(#[trigger] s[k])
}

proof fn lemma_counts_white(c: char)
    requires
        counts(c),
    ensures
        !is_white(c),
        is_sign(c),
{
}

proof fn lemma_white_before_is(s: Seq<char>, i: int, j: int)
    requires
        0 <= j <= i <= s.len(),
        all_white(s, j, i),
        j > 0 ==> !is_white(s[j - 1]),
    ensures
        white_before(s, i) == i - j,
    decreases i - j,
{
    if j < i {
        assert(is_white(s[i - 1]));
        lemma_white_before_is(s, i - 1, j);
    }
}

proof fn lemma_white_from_is(s: Seq<char>, i: int, j: int)
    requires
        0 <= i <= j <= s.len(),
        all_white(s, i, j),
        j < s.len() ==> !is_white(s[j]),
    ensures
        white_from(s, i) == j - i,
    decreases j - i,
{
    if i < j {
        assert(is_white(s[i]));
        lemma_white_from_is(s, i + 1, j);
    }
}

proof fn lemma_white_before_reach(s: Seq<char>, i: int)
    requires
        0 <= i <= s.len(),
    ensures
        0 <= white_before(s, i) <= i,
        all_white(s, i - white_before(s, i), i),
        white_before(s, i) < i ==> !is_white(s[i - white_before(s, i) - 1]),
    decreases i,
{
    if i > 0 && is_white(s[i - 1]) {
        lemma_white_before_reach(s, i - 1);
    }
}

proof fn lemma_white_from_reach(s: Seq<char>, i: int)
    requires
        0 <= i <= s.len(),
    ensures
        0 <= white_from(s, i) <= s.len() - i,
        all_white(s, i, i + white_from(s, i)),
        i + white_from(s, i) < s.len() ==> !is_white(s[i + white_from(s, i)]),
    decreases s.len() - i,
{
    if i < s.len() && is_white(s[i]) {
        lemma_white_from_reach(s, i + 1);
    }
}

proof fn lemma_signs(s: Seq<char>, i: int, f: int, window: int)
    requires
        0 <= i <= f <= s.len(),
        0 <= window,
    ensures
        sign_before(s, i, window) == counts_before(s, i, window),
        sign_from(s, f, window) == counts_from(s, f, window),
{
    lemma_white_before_reach(s, i);
    lemma_white_from_reach(s, f);
    if sign_before(s, i, window) {
        let j = i - white_before(s, i) - 1;
        assert(counts(s[j]));
    }
    if counts_before(s, i, window) {
        let j = choose|j: int| 0 <= j < i && i - j - 1 <= window && counts(#[trigger] s[j]) && all_white(s, j + 1, i);
        lemma_counts_white(s[j]);
        lemma_white_before_is(s, i, j + 1);
    }
    if sign_from(s, f, window) {
        let j = f + white_from(s, f);
        assert(counts(s[j]));
    }
    if counts_from(s, f, window) {
        let j = choose|j: int| f <= j < s.len() && j - f <= window && counts(#[trigger] s[j]) && all_white(s, f, j);
        lemma_counts_white(s[j]);
        lemma_white_from_is(s, f, j);
    }
}

/// How many syllables at the end of a run that ends at `e` belong to a verb ending: `이` in
/// `이래요`, `이에요`, `이예요`, `이요` and `이고`, and `이구` in `이구요`.
pub open spec fn ending_syllables(s: Seq<char>, i: int, e: int) -> int {
    let next = if e < s.len() { s[e] } else { ' ' };
    let second = if e + 1 < s.len() { s[e + 1] } else { ' ' };
    if e - 1 >= i && s[e - 1] == '이' && (next == '요' || next == '고' || ((next == '래' || next == '에' || next == '예') && second
        == '요')) {
        1
    } else if e - 2 >= i && s[e - 2] == '이' && s[e - 1] == '구' && next == '요' {
        2
    } else {
        0
    }
}

proof fn lemma_goes_on(s: Seq<char>, e: int, a: char, b: char)
    requires
        0 <= e <= s.len(),
    ensures
        goes_on(s, e, seq![a]) == (e < s.len() && s[e] == a),
        goes_on(s, e, seq![a, b]) == (e + 1 < s.len() && s[e] == a && s[e + 1] == b),
{
    if goes_on(s, e, seq![a]) {
        assert(s.subrange(e, e + 1)[0] == seq![a][0]);
    }
    if e < s.len() && s[e] == a {
        assert(s.subrange(e, e + 1) =~= seq![a]);
    }
    if goes_on(s, e, seq![a, b]) {
        assert(s.subrange(e, e + 2)[0] == seq![a, b][0]);
        assert(s.subrange(e, e + 2)[1] == seq![a, b][1]);
    }
    if e + 1 < s.len() && s[e] == a && s[e + 1] == b {
        assert(s.subrange(e, e + 2) =~= seq![a, b]);
    }
}

proof fn lemma_endings(s: Seq<char>, i: int, e: int)
    requires
        0 <= i < e <= s.len(),
    ensures
        swallowed(s, i, e) == ending_syllables(s, i, e),
{
    lemma_goes_on(s, e, '래', '요');
    lemma_goes_on(s, e, '에', '요');
    lemma_goes_on(s, e, '예', '요');
    lemma_goes_on(s, e, '요', '요');
    lemma_goes_on(s, e, '고', '요');
}

/// A run from `i` up to `e` is read up to a verb ending, if there is one. It is read if it is a
/// number and has enough digits to stand alone, or enough for a sign of numbers next to it.
pub proof fn law_when_a_run_is_read(s: Seq<char>, i: int, e: int, cfg: NumeralConfig)
    requires
        0 <= i < e <= s.len(),
    ensures
        ({
            let f = e - ending_syllables(s, i, e);
            let number = converted(tokens_from(s.take(f), i));
            let near = counts_before(s, i, cfg.context_window as int) || counts_from(s, f, cfg.context_window as int);
            match read_run(s, i, e, cfg) {
                Some((digits, rule, end)) => f > i && end == f && number == Some((digits, rule)) && (digits.len()
                    >= cfg.min_digits_without_context || (digits.len() >= cfg.min_digits_with_context && near)),
                None => f <= i || number is None || (number.unwrap().0.len() < cfg.min_digits_without_context && (
                number.unwrap().0.len() < cfg.min_digits_with_context || !near)),
            }
        }),
{
    lemma_endings(s, i, e);
    let f = e - swallowed(s, i, e);
    if f > i {
        lemma_signs(s, i, f, cfg.context_window as int);
    }
}

/// A character that no numeral begins with or goes on with.
pub open spec fn is_plain(c: char) -> bool {
    &&& forall|d: int, k: int| #![trigger name_of(d, k)] 0 <= d < 10 ==> !name_of(d, k).contains(c)
    &&& c != '십' && c != '백' && c != '천' && c != '만' && c != '억'
}

/// Every character is plain.
pub open spec fn all_plain(s: Seq<char>) -> bool {
    forall|i: int| 0 <= i < s.len() ==> is_plain(#[trigger] s[i])
}

proof fn lemma_plain(c: char)
    requires
        is_plain(c),
    ensures
        one_syllable(c) is None,
        unit_syllable(c) is None,
        !is_second(c),
        forall|x: char| #[trigger] two_syllables(c, x) is None,
        forall|x: char| #[trigger] two_syllables(x, c) is None,
{
    assert(name_of(0, 0)[0] == '공' && name_of(0, 1)[0] == '영' && name_of(0, 2)[0] == '빵');
    assert(name_of(1, 0)[0] == '일' && name_of(1, 1)[0] == '하' && name_of(1, 1)[1] == '나');
    assert(name_of(2, 0)[0] == '이' && name_of(2, 1)[0] == '둘');
    assert(name_of(3, 0)[0] == '삼' && name_of(3, 1)[0] == '셋');
    assert(name_of(4, 0)[0] == '사' && name_of(4, 1)[0] == '넷');
    assert(name_of(5, 0)[0] == '오' && name_of(5, 1)[0] == '다' && name_of(5, 1)[1] == '섯');
    assert(name_of(6, 0)[0] == '육' && name_of(6, 1)[0] == '여' && name_of(6, 2)[0] == '륙');
    assert(name_of(7, 0)[0] == '칠' && name_of(7, 1)[1] == '곱');
    assert(name_of(8, 0)[0] == '팔' && name_of(8, 1)[1] == '덟');
    assert(name_of(9, 0)[0] == '구' && name_of(9, 1)[0] == '아' && name_of(9, 1)[1] == '홉');
    assert(!name_of(0, 0).contains(c) && !name_of(0, 1).contains(c) && !name_of(0, 2).contains(c));
    assert(!name_of(1, 0).contains(c) && !name_of(1, 1).contains(c));
    assert(!name_of(2, 0).contains(c) && !name_of(2, 1).contains(c));
    assert(!name_of(3, 0).contains(c) && !name_of(3, 1).contains(c));
    assert(!name_of(4, 0).contains(c) && !name_of(4, 1).contains(c));
    assert(!name_of(5, 0).contains(c) && !name_of(5, 1).contains(c));
    assert(!name_of(6, 0).contains(c) && !name_of(6, 1).contains(c) && !name_of(6, 2).contains(c));
    assert(!name_of(7, 0).contains(c) && !name_of(7, 1).contains(c));
    assert(!name_of(8, 0).contains(c) && !name_of(8, 1).contains(c));
    assert(!name_of(9, 0).contains(c) && !name_of(9, 1).contains(c));
}

/// Plain characters are kept, and then the pass goes on.
proof fn lemma_plain_kept(s: Seq<char>, i: int, e: int, cfg: NumeralConfig)
    requires
        0 <= i <= e <= s.len(),
        forall|k: int| i <= k < e ==> is_plain(#[trigger] s[k]),
    ensures
        dst_of(hangul_steps(s, i, cfg)) == s.subrange(i, e) + dst_of(hangul_steps(s, e, cfg)),
        cost_of(hangul_steps(s, i, cfg)) == cost_of(hangul_steps(s, e, cfg)),
    decreases e - i,
{
    if i < e {
        lemma_plain_kept(s, i + 1, e, cfg);
        lemma_plain(s[i]);
        assert(token_at(s, i) is None);
        assert(run_end(s, i) == i);
        let step = Step::Keep { c: s[i] };
        let rest = hangul_steps(s, i + 1, cfg);
        lemma_of_add(seq![step], rest);
        lemma_of_single(step);
        law_cost_sum_zero(cost_of(rest));
        assert(s.subrange(i, e) =~= seq![s[i]] + s.subrange(i + 1, e));
        assert(seq![s[i]] + (s.subrange(i + 1, e) + dst_of(hangul_steps(s, e, cfg))) =~= s.subrange(i, e) + dst_of(
            hangul_steps(s, e, cfg),
        ));
    } else {
        assert(s.subrange(i, e) + dst_of(hangul_steps(s, e, cfg)) =~= dst_of(hangul_steps(s, e, cfg)));
    }
}

/// A text without numerals stays as it is, at no cost.
pub proof fn law_texts_without_numerals_stay(s: Seq<char>, cfg: NumeralConfig)
    requires
        all_plain(s),
    ensures
        dst_of(hangul_steps(s, 0, cfg)) == s,
        cost_of(hangul_steps(s, 0, cfg)) == no_cost(),
{
    let n = s.len() as int;
    assert forall|k: int| 0 <= k < n implies is_plain(#[trigger] s[k]) by {}
    lemma_plain_kept(s, 0, n, cfg);
    assert(hangul_steps(s, n, cfg) =~= Seq::<Step>::empty());
    assert(s.subrange(0, n) + dst_of(hangul_steps(s, n, cfg)) =~= s);
}

/// A numeral in a text without others is read in its place, or stays where it is. What stands
/// before it and behind it does not change. The cost counts the syllables that were read.
pub proof fn law_a_numeral_is_read_in_its_place(a: Seq<char>, words: Seq<Word>, b: Seq<char>, cfg: NumeralConfig)
    requires
        all_plain(a),
        all_plain(b),
        are_words(words),
        words.len() > 0,
    ensures
        ({
            let w = written(words);
            let s = a + w + b;
            let i = a.len() as int;
            let e = (a.len() + w.len()) as int;
            let out = dst_of(hangul_steps(s, 0, cfg));
            let cost = cost_of(hangul_steps(s, 0, cfg));
            match read_run(s, i, e, cfg) {
                Some((digits, rule, f)) => i < f <= e && out == a + digits + s.subrange(f, e) + b && cost == (
                NormalizationCost { expanded_syllables: clamped((f - i) as nat), ..no_cost() }),
                None => out == s && cost == no_cost(),
            }
        }),
{
    let w = written(words);
    let s = a + w + b;
    let n = s.len() as int;
    let i = a.len() as int;
    let e = (a.len() + w.len()) as int;
    assert(is_word(words[0]));
    assert(w == syllables(words[0]) + written(words.drop_first()));
    assert(w.len() > 0);
    assert forall|k: int| 0 <= k < i implies is_plain(#[trigger] s[k]) by {
        assert(is_plain(a[k]));
    }
    assert forall|k: int| e <= k < n implies is_plain(#[trigger] s[k]) by {
        assert(is_plain(b[k - e]));
    }
    lemma_plain_kept(s, 0, i, cfg);
    lemma_plain_kept(s, e, n, cfg);
    assert(hangul_steps(s, n, cfg) =~= Seq::<Step>::empty());
    assert(s.subrange(0, i) =~= a);
    assert(s.subrange(e, n) =~= b);
    assert(s.subrange(i, e) =~= w);
    if e < n {
        assert(is_plain(s[e]));
        lemma_plain(s[e]);
    }
    lemma_words_at(words, s, i, e);
    assert(dst_of(hangul_steps(s, e, cfg)) =~= b);
    lemma_run_in_place(s, i, e, cfg);
    match read_run(s, i, e, cfg) {
        Some((digits, rule, f)) => {
            assert(a + (digits + (s.subrange(f, e) + b)) =~= a + digits + s.subrange(f, e) + b);
        },
        None => {
            assert(a + (w + b) =~= s);
        },
    }
}

/// What the pass gives from a run on: the run read or kept, and what follows it.
proof fn lemma_run_in_place(s: Seq<char>, i: int, e: int, cfg: NumeralConfig)
    requires
        0 <= i < e <= s.len(),
        run_end(s, i) == e,
        cost_of(hangul_steps(s, e, cfg)) == no_cost(),
    ensures
        ({
            let tail = dst_of(hangul_steps(s, e, cfg));
            let out = dst_of(hangul_steps(s, i, cfg));
            let cost = cost_of(hangul_steps(s, i, cfg));
            match read_run(s, i, e, cfg) {
                Some((digits, rule, f)) => i < f <= e && out == digits + (s.subrange(f, e) + tail) && cost == (
                NormalizationCost { expanded_syllables: clamped((f - i) as nat), ..no_cost() }),
                None => out == s.subrange(i, e) + tail && cost == no_cost(),
            }
        }),
{
    let tail = hangul_steps(s, e, cfg);
    law_cost_sum_zero(no_cost());
    match read_run(s, i, e, cfg) {
        Some((digits, rule, f)) => {
            let step = reading(s.subrange(i, f), digits, rule);
            let kept = keeps(s.subrange(f, e));
            lemma_keeps(s.subrange(f, e));
            lemma_of_add(kept, tail);
            lemma_of_add(seq![step], kept + tail);
            lemma_of_single(step);
            law_cost_sum_zero(step.cost());
            assert(s.subrange(i, f).len() == f - i);
        },
        None => {
            lemma_keeps(s.subrange(i, e));
            lemma_of_add(keeps(s.subrange(i, e)), tail);
        },
    }
}

/// Wherever the pass stands, it reads or keeps the run that begins there, or keeps a character that
/// begins none, and goes on behind it in the same way. Costs add up.
pub proof fn law_runs_are_read_one_by_one(s: Seq<char>, i: int, cfg: NumeralConfig)
    requires
        0 <= i < s.len(),
        i <= run_end(s, i) <= s.len(),
    ensures
        ({
            let e = run_end(s, i);
            let out = dst_of(hangul_steps(s, i, cfg));
            let cost = cost_of(hangul_steps(s, i, cfg));
            if e == i {
                &&& out == seq![s[i]] + dst_of(hangul_steps(s, i + 1, cfg))
                &&& cost == cost_of(hangul_steps(s, i + 1, cfg))
            } else {
                let tail = dst_of(hangul_steps(s, e, cfg));
                let rest = cost_of(hangul_steps(s, e, cfg));
                match read_run(s, i, e, cfg) {
                    Some((digits, rule, f)) => i < f <= e && out == digits + (s.subrange(f, e) + tail) && cost
                        == NormalizationCost { expanded_syllables: clamped((f - i) as nat), ..no_cost() }.plus(rest),
                    None => out == s.subrange(i, e) + tail && cost == rest,
                }
            }
        }),
{
    let e = run_end(s, i);
    if e == i {
        let step = Step::Keep { c: s[i] };
        let rest = hangul_steps(s, i + 1, cfg);
        lemma_of_add(seq![step], rest);
        lemma_of_single(step);
        law_cost_sum_zero(cost_of(rest));
    } else {
        let tail = hangul_steps(s, e, cfg);
        law_cost_sum_zero(cost_of(tail));
        match read_run(s, i, e, cfg) {
            Some((digits, rule, f)) => {
                let step = reading(s.subrange(i, f), digits, rule);
                let kept = keeps(s.subrange(f, e));
                lemma_keeps(s.subrange(f, e));
                lemma_of_add(kept, tail);
                lemma_of_add(seq![step], kept + tail);
                lemma_of_single(step);
                assert(s.subrange(i, f).len() == f - i);
            },
            None => {
                lemma_keeps(s.subrange(i, e));
                lemma_of_add(keeps(s.subrange(i, e)), tail);
            },
        }
    }
}

/// What counts as whitespace between a numeral and a sign of numbers: the controls from tab to
/// carriage return, the space, the next line, and the spaces and separators of Unicode.
pub proof fn law_whitespace_is_that_of_unicode(c: char)
    ensures
        is_white(c) <==> c == '\t' || c == '\n' || c as u32 == 11 || c as u32 == 12 || c == '\r' || c == ' ' || c as u32
            == 0x85 || c as u32 == 0xA0 || c as u32 == 0x1680 || c as u32 == 0x2000 || c as u32 == 0x2001 || c as u32
            == 0x2002 || c as u32 == 0x2003 || c as u32 == 0x2004 || c as u32 == 0x2005 || c as u32 == 0x2006 || c as u32
            == 0x2007 || c as u32 == 0x2008 || c as u32 == 0x2009 || c as u32 == 0x200A || c as u32 == 0x2028 || c as u32
            == 0x2029 || c as u32 == 0x202F || c as u32 == 0x205F || c as u32 == 0x3000,
{
}

/// Two digits side by side make no number by units, neither before a unit nor, unless the first is
/// zero, at the end.
pub proof fn law_two_digits_before_a_unit_make_no_number(
    a: u8,
    b: u8,
    u: u64,
    rest: Seq<Token>,
    total: nat,
    section: nat,
)
    ensures
        unit_value(seq![Token::Digit(a), Token::Digit(b), Token::Unit(u)] + rest, total, section, 0, 0) is None,
        a != 0 ==> unit_value(seq![Token::Digit(a), Token::Digit(b)] + rest, total, section, 0, 0) is None,
        a == 0 ==> unit_value(seq![Token::Digit(a), Token::Digit(b)], total, section, 0, 0) == Some(
            total + section + b as nat,
        ),
{
    let none = Seq::<Token>::empty();
    let x = seq![Token::Unit(u)] + rest;
    assert(seq![Token::Digit(a), Token::Digit(b), Token::Unit(u)] + rest =~= seq![Token::Digit(a)] + (seq![
        Token::Digit(b),
    ] + x));
    assert(seq![Token::Digit(a), Token::Digit(b)] + rest =~= seq![Token::Digit(a)] + (seq![Token::Digit(b)] + rest));
    assert(seq![Token::Digit(a), Token::Digit(b)] =~= seq![Token::Digit(a)] + (seq![Token::Digit(b)] + none));
    lemma_unit_step(Token::Digit(a), seq![Token::Digit(b)] + x, total, section, 0, 0);
    lemma_unit_step(Token::Digit(b), x, total, section, 0, 1);
    lemma_unit_step(Token::Unit(u), rest, total, section, b as nat, 2);
    lemma_unit_step(Token::Digit(a), seq![Token::Digit(b)] + rest, total, section, 0, 0);
    lemma_unit_step(Token::Digit(a), seq![Token::Digit(b)] + none, total, section, 0, 0);
    lemma_unit_step(Token::Digit(b), none, total, section, 0, 1);
}

} // verus!
