//! Third pass: reading Hangul numerals as digits.
//!
//! Korean numerals are read in two ways. Digit by digit, one word stands for one digit:
//! `팔팔공일공일` is `880101`. By units, tens up to hundreds of millions are computed: `구십일` is
//! `91`. A run that holds a unit is read by units, any other digit by digit.
//!
//! Numeral syllables also occur in everyday words. So a short run is read only next to a sign of
//! numbers, a run of units alone is never read, and a verb ending that follows a spoken number is
//! not taken for its last digits.

use vstd::prelude::*;
use crate::normalize::walk::{lemma_first_step, lemma_keep_one, lemma_take_step, Walk};
use crate::span::builder::reading;
use crate::span::steps::{
    dst_of, keeps, lemma_keeps, lemma_keeps_index, lemma_of_add, lemma_of_single, productive,
    src_of, valid, Step,
};
use crate::span::{RuleId, SpanMap};
use crate::text::{
    byte_len, char_count, char_width, decimal, digit, digit_char, digit_like, is_digit, is_white,
    lemma_utf8_len_add, lemma_utf8_len_push, lemma_utf8_len_split, push_decimal, to_chars, utf8_len,
    white, width,
};

verus! {

broadcast use crate::text::lemma_text_char_range;

/// Read digit by digit.
pub const RULE_DIGIT: RuleId = "hangul.digit_reading";

/// Read by units.
pub const RULE_UNIT: RuleId = "hangul.unit_reading";

/// When a numeral is read.
#[derive(Debug, Clone, PartialEq, Eq)]
pub struct NumeralConfig {
    /// The number of digits from which on no sign of numbers is needed.
    pub min_digits_without_context: usize,
    /// The number of digits from which on a sign of numbers is enough.
    pub min_digits_with_context: usize,
    /// How much whitespace may lie between a numeral and a sign of numbers.
    pub context_window: usize,
}

impl Default for NumeralConfig {
    fn default() -> (r: Self)
        ensures
            r.min_digits_without_context == 6,
            r.min_digits_with_context == 2,
            r.context_window == 2,
    {
        NumeralConfig { min_digits_without_context: 6, min_digits_with_context: 2, context_window: 2 }
    }
}

/// A word of a numeral.
#[derive(Debug, Clone, Copy, PartialEq, Eq, Structural)]
pub enum Token {
    Digit(u8),
    Unit(u64),
}

/// The native numerals of two syllables.
pub open spec fn two_syllables(a: char, b: char) -> Option<u8> {
    if a == '하' && b == '나' {
        Some(1)
    } else if a == '다' && b == '섯' {
        Some(5)
    } else if a == '여' && b == '섯' {
        Some(6)
    } else if a == '일' && b == '곱' {
        Some(7)
    } else if a == '여' && b == '덟' {
        Some(8)
    } else if a == '아' && b == '홉' {
        Some(9)
    } else {
        None
    }
}

/// The numerals of one syllable.
pub open spec fn one_syllable(c: char) -> Option<u8> {
    if c == '공' || c == '영' || c == '빵' {
        Some(0)
    } else if c == '일' {
        Some(1)
    } else if c == '이' || c == '둘' {
        Some(2)
    } else if c == '삼' || c == '셋' {
        Some(3)
    } else if c == '사' || c == '넷' {
        Some(4)
    } else if c == '오' {
        Some(5)
    } else if c == '육' || c == '륙' {
        Some(6)
    } else if c == '칠' {
        Some(7)
    } else if c == '팔' {
        Some(8)
    } else if c == '구' {
        Some(9)
    } else {
        None
    }
}

/// The units.
pub open spec fn unit_syllable(c: char) -> Option<u64> {
    if c == '십' {
        Some(10)
    } else if c == '백' {
        Some(100)
    } else if c == '천' {
        Some(1_000)
    } else if c == '만' {
        Some(10_000)
    } else if c == '억' {
        Some(100_000_000)
    } else {
        None
    }
}

/// The word that begins at position `i`, and its length. Two syllables come first, so that `일곱`
/// is not cut into `일` and a rest.
pub open spec fn token_at(s: Seq<char>, i: int) -> Option<(Token, int)> {
    if i < 0 || i >= s.len() {
        None
    } else if i + 1 < s.len() && two_syllables(s[i], s[i + 1]) is Some {
        Some((Token::Digit(two_syllables(s[i], s[i + 1]).unwrap()), 2))
    } else if one_syllable(s[i]) is Some {
        Some((Token::Digit(one_syllable(s[i]).unwrap()), 1))
    } else if unit_syllable(s[i]) is Some {
        Some((Token::Unit(unit_syllable(s[i]).unwrap()), 1))
    } else {
        None
    }
}

/// The words that follow each other from position `i` on.
pub open spec fn tokens_from(s: Seq<char>, i: int) -> Seq<Token>
    decreases s.len() - i,
{
    match token_at(s, i) {
        Some((token, n)) => seq![token] + tokens_from(s, i + n),
        None => Seq::empty(),
    }
}

/// Where the words that begin at position `i` end.
pub open spec fn run_end(s: Seq<char>, i: int) -> int
    decreases s.len() - i,
{
    match token_at(s, i) {
        Some((token, n)) => run_end(s, i + n),
        None => i,
    }
}

/// The text goes on with `word` at position `i`.
pub open spec fn goes_on(s: Seq<char>, i: int, word: Seq<char>) -> bool {
    &&& 0 <= i
    &&& i + word.len() <= s.len()
    &&& s.subrange(i, i + word.len()) == word
}

/// How many syllables of a verb ending the run from `i` up to `e` has swallowed: `이` before
/// `래요`, `에요`, `예요`, `요` or `고`, and `이구` before `요`.
pub open spec fn swallowed(s: Seq<char>, i: int, e: int) -> int {
    if e - i >= 1 && s[e - 1] == '이' && (goes_on(s, e, seq!['래', '요']) || goes_on(s, e, seq!['에', '요']) || goes_on(
        s,
        e,
        seq!['예', '요'],
    ) || goes_on(s, e, seq!['요']) || goes_on(s, e, seq!['고'])) {
        1
    } else if e - i >= 2 && s[e - 2] == '이' && s[e - 1] == '구' && goes_on(s, e, seq!['요']) {
        2
    } else {
        0
    }
}

/// At least one, so that a unit without a digit before it counts once.
pub open spec fn at_least_one(n: nat) -> nat {
    if n == 0 {
        1
    } else {
        n
    }
}

/// The value of words read by units, given what was read before: the sum up to the last unit of
/// ten thousand or more, the sum since, the pending digit, and the number of digits since the last
/// unit.
///
/// A digit behind a digit other than zero, and a unit behind two digits or more, make no number.
pub open spec fn unit_value(tokens: Seq<Token>, total: nat, section: nat, current: nat, digits: nat) -> Option<nat>
    decreases tokens.len(),
{
    if tokens.len() == 0 {
        Some(total + section + current)
    } else {
        let rest = tokens.drop_first();
        match tokens[0] {
            Token::Digit(d) => if current != 0 {
                None
            } else {
                unit_value(rest, total, section, d as nat, digits + 1)
            },
            Token::Unit(u) => if digits >= 2 {
                None
            } else if u >= 10_000 {
                unit_value(rest, total + at_least_one(section + current) * (u as nat), 0, 0, 0)
            } else {
                unit_value(rest, total, section + at_least_one(current) * (u as nat), 0, 0)
            },
        }
    }
}

pub open spec fn has_unit(tokens: Seq<Token>) -> bool {
    exists|i: int| 0 <= i < tokens.len() && (#[trigger] tokens[i]) is Unit
}

pub open spec fn has_digit(tokens: Seq<Token>) -> bool {
    exists|i: int| 0 <= i < tokens.len() && (#[trigger] tokens[i]) is Digit
}

/// The digits of words read one by one.
pub open spec fn digits_of(tokens: Seq<Token>) -> Seq<char>
    decreases tokens.len(),
{
    if tokens.len() == 0 {
        Seq::empty()
    } else {
        match tokens.last() {
            Token::Digit(d) => digits_of(tokens.drop_last()).push(digit_char(d as int)),
            Token::Unit(_) => digits_of(tokens.drop_last()),
        }
    }
}

/// What a run of words is read as, and by which rule. A value above 64 bits is not read.
pub open spec fn converted(tokens: Seq<Token>) -> Option<(Seq<char>, Seq<char>)> {
    if has_unit(tokens) {
        if !has_digit(tokens) {
            None
        } else {
            match unit_value(tokens, 0, 0, 0, 0) {
                Some(v) => if v <= u64::MAX {
                    Some((decimal(v), RULE_UNIT@))
                } else {
                    None
                },
                None => None,
            }
        }
    } else {
        Some((digits_of(tokens), RULE_DIGIT@))
    }
}

/// A sign of numbers: a digit, a hyphen or a counting word.
pub open spec fn is_sign(c: char) -> bool {
    ||| is_digit(c)
    ||| c == '-'
    ||| c == '년' || c == '월' || c == '일' || c == '번' || c == '호' || c == '생' || c == '세'
    ||| c == '원' || c == '차' || c == '기' || c == '시' || c == '분' || c == '초'
}

/// The number of whitespace characters right before position `i`.
pub open spec fn white_before(s: Seq<char>, i: int) -> int
    decreases i,
{
    if 0 < i <= s.len() && is_white(s[i - 1]) {
        1 + white_before(s, i - 1)
    } else {
        0
    }
}

/// The number of whitespace characters from position `i` on.
pub open spec fn white_from(s: Seq<char>, i: int) -> int
    decreases s.len() - i,
{
    if 0 <= i < s.len() && is_white(s[i]) {
        1 + white_from(s, i + 1)
    } else {
        0
    }
}

/// A sign of numbers stands before position `i`, at most `window` whitespace characters away.
pub open spec fn sign_before(s: Seq<char>, i: int, window: int) -> bool {
    let n = white_before(s, i);
    n <= window && i - n > 0 && is_sign(s[i - n - 1])
}

/// A sign of numbers stands at position `i` or at most `window` whitespace characters behind it.
pub open spec fn sign_from(s: Seq<char>, i: int, window: int) -> bool {
    let n = white_from(s, i);
    n <= window && i + n < s.len() && is_sign(s[i + n])
}

/// What the run from `i` up to `e` is read as, by which rule, and where the numeral ends.
pub open spec fn read_run(s: Seq<char>, i: int, e: int, cfg: NumeralConfig) -> Option<(Seq<char>, Seq<char>, int)> {
    let f = e - swallowed(s, i, e);
    if f <= i {
        None
    } else {
        match converted(tokens_from(s.take(f), i)) {
            Some((digits, rule)) => if digits.len() >= cfg.min_digits_without_context || (digits.len()
                >= cfg.min_digits_with_context && (sign_before(s, i, cfg.context_window as int) || sign_from(
                s,
                f,
                cfg.context_window as int,
            ))) {
                Some((digits, rule, f))
            } else {
                None
            },
            None => None,
        }
    }
}

/// The steps of the pass from position `i` on.
pub open spec fn hangul_steps(s: Seq<char>, i: int, cfg: NumeralConfig) -> Seq<Step>
    decreases s.len() - i,
{
    if i < 0 || i >= s.len() {
        Seq::empty()
    } else {
        let e = run_end(s, i);
        if e <= i || e > s.len() {
            seq![Step::Keep { c: s[i] }] + hangul_steps(s, i + 1, cfg)
        } else {
            match read_run(s, i, e, cfg) {
                Some((digits, rule, f)) => seq![reading(s.subrange(i, f), digits, rule)] + (keeps(s.subrange(f, e))
                    + hangul_steps(s, e, cfg)),
                None => keeps(s.subrange(i, e)) + hangul_steps(s, e, cfg),
            }
        }
    }
}

/// Digits are digits and units are no less than ten.
pub open spec fn proper(tokens: Seq<Token>) -> bool {
    forall|i: int| 0 <= i < tokens.len() ==> match #[trigger] tokens[i] {
        Token::Digit(d) => d < 10,
        Token::Unit(u) => u >= 10,
    }
}

fn two_syllable_digit(a: char, b: char) -> (r: Option<u8>)
    ensures
        r == two_syllables(a, b),
{
    if a == '하' && b == '나' {
        Some(1)
    } else if a == '다' && b == '섯' {
        Some(5)
    } else if a == '여' && b == '섯' {
        Some(6)
    } else if a == '일' && b == '곱' {
        Some(7)
    } else if a == '여' && b == '덟' {
        Some(8)
    } else if a == '아' && b == '홉' {
        Some(9)
    } else {
        None
    }
}

fn one_syllable_digit(c: char) -> (r: Option<u8>)
    ensures
        r == one_syllable(c),
{
    match c {
        '공' | '영' | '빵' => Some(0),
        '일' => Some(1),
        '이' | '둘' => Some(2),
        '삼' | '셋' => Some(3),
        '사' | '넷' => Some(4),
        '오' => Some(5),
        '육' | '륙' => Some(6),
        '칠' => Some(7),
        '팔' => Some(8),
        '구' => Some(9),
        _ => None,
    }
}

fn unit_of(c: char) -> (r: Option<u64>)
    ensures
        r == unit_syllable(c),
{
    match c {
        '십' => Some(10),
        '백' => Some(100),
        '천' => Some(1_000),
        '만' => Some(10_000),
        '억' => Some(100_000_000),
        _ => None,
    }
}

/// The word that begins at position `i` and ends before `limit`, and its length.
fn next_token(chars: &[char], i: usize, limit: usize) -> (r: Option<(Token, usize)>)
    requires
        i <= limit <= chars@.len(),
    ensures
        r is Some <==> token_at(chars@.take(limit as int), i as int) is Some,
        r matches Some(p) ==> token_at(chars@.take(limit as int), i as int) == Some((p.0, p.1 as int)),
        r matches Some(p) ==> 1 <= p.1 && i + p.1 <= limit && proper(seq![p.0]),
{
    if i >= limit {
        return None;
    }
    if i + 1 < limit {
        if let Some(d) = two_syllable_digit(chars[i], chars[i + 1]) {
            return Some((Token::Digit(d), 2));
        }
    }
    if let Some(d) = one_syllable_digit(chars[i]) {
        return Some((Token::Digit(d), 1));
    }
    if let Some(u) = unit_of(chars[i]) {
        return Some((Token::Unit(u), 1));
    }
    None
}

/// The words that follow each other from position `i` on and end before `limit`, and their end.
fn collect(chars: &[char], i: usize, limit: usize) -> (r: (Vec<Token>, usize))
    requires
        i <= limit <= chars@.len(),
    ensures
        r.0@ == tokens_from(chars@.take(limit as int), i as int),
        r.1 == run_end(chars@.take(limit as int), i as int),
        i <= r.1 <= limit,
        proper(r.0@),
        r.1 > i <==> r.0@.len() > 0,
{
    let ghost s = chars@.take(limit as int);
    let mut tokens: Vec<Token> = Vec::new();
    let mut end: usize = i;
    proof {
        assert(tokens@ + tokens_from(s, i as int) =~= tokens_from(s, i as int));
    }
    loop
        invariant
            i <= end <= limit <= chars@.len(),
            s == chars@.take(limit as int),
            tokens@ + tokens_from(s, end as int) == tokens_from(s, i as int),
            run_end(s, end as int) == run_end(s, i as int),
            proper(tokens@),
            end > i <==> tokens@.len() > 0,
        ensures
            token_at(s, end as int) is None,
        decreases limit - end,
    {
        match next_token(chars, end, limit) {
            Some((token, n)) => {
                let ghost before = tokens@;
                tokens.push(token);
                proof {
                    assert(before + (seq![token] + tokens_from(s, end + n)) =~= tokens@ + tokens_from(s, end + n));
                    assert(seq![token][0] == token);
                }
                end += n;
            },
            None => {
                break;
            },
        }
    }
    proof {
        assert(tokens@ + tokens_from(s, end as int) =~= tokens@);
    }
    (tokens, end)
}

/// What the value is at least.
proof fn lemma_unit_value_grows(tokens: Seq<Token>, total: nat, section: nat, current: nat, digits: nat)
    requires
        proper(tokens),
    ensures
        unit_value(tokens, total, section, current, digits) matches Some(v) ==> v >= total + section + current,
    decreases tokens.len(),
{
    if tokens.len() > 0 {
        let rest = tokens.drop_first();
        assert(proper(rest)) by {
            assert forall|i: int| 0 <= i < rest.len() implies match #[trigger] rest[i] {
                Token::Digit(d) => d < 10,
                Token::Unit(u) => u >= 10,
            } by {
                assert(rest[i] == tokens[i + 1]);
            }
        }
        match tokens[0] {
            Token::Digit(d) => {
                lemma_unit_value_grows(rest, total, section, d as nat, digits + 1);
            },
            Token::Unit(u) => {
                let m = at_least_one(section + current) * (u as nat);
                let n = at_least_one(current) * (u as nat);
                assert(m >= section + current) by (nonlinear_arith)
                    requires
                        m == at_least_one(section + current) * (u as nat),
                        u >= 10,
                        at_least_one(section + current) >= section + current,
                ;
                assert(n >= current) by (nonlinear_arith)
                    requires
                        n == at_least_one(current) * (u as nat),
                        u >= 10,
                        at_least_one(current) >= current,
                ;
                lemma_unit_value_grows(rest, total + m, 0, 0, 0);
                lemma_unit_value_grows(rest, total, section + n, 0, 0);
            },
        }
    }
}

/// The value of a run read by units, unless it makes no number or exceeds 64 bits.
fn eval_unit_reading(tokens: &[Token]) -> (r: Option<u64>)
    requires
        proper(tokens@),
    ensures
        match unit_value(tokens@, 0, 0, 0, 0) {
            Some(v) => if v <= u64::MAX {
                r == Some(v as u64)
            } else {
                r is None
            },
            None => r is None,
        },
{
    let mut total: u64 = 0;
    let mut section: u64 = 0;
    let mut current: u64 = 0;
    let mut digits: usize = 0;
    let mut k: usize = 0;
    assert(tokens@.skip(0) =~= tokens@);
    while k < tokens.len()
        invariant
            k <= tokens@.len(),
            digits <= k,
            proper(tokens@),
            unit_value(tokens@, 0, 0, 0, 0) == unit_value(
                tokens@.skip(k as int),
                total as nat,
                section as nat,
                current as nat,
                digits as nat,
            ),
        decreases tokens@.len() - k,
    {
        let ghost left = tokens@.skip(k as int);
        proof {
            assert(left[0] == tokens@[k as int]);
            assert(left.drop_first() =~= tokens@.skip(k + 1));
            assert(proper(left.drop_first())) by {
                assert forall|i: int| 0 <= i < left.drop_first().len() implies match #[trigger] left.drop_first()[i] {
                    Token::Digit(d) => d < 10,
                    Token::Unit(u) => u >= 10,
                } by {
                    assert(left.drop_first()[i] == tokens@[k + 1 + i]);
                }
            }
        }
        match tokens[k] {
            Token::Digit(d) => {
                if current != 0 {
                    return None;
                }
                current = d as u64;
                digits += 1;
            },
            Token::Unit(u) => {
                if digits >= 2 {
                    return None;
                }
                if u >= 10_000 {
                    let ghost grown = total + at_least_one((section + current) as nat) * (u as nat);
                    proof {
                        lemma_unit_value_grows(left.drop_first(), grown as nat, 0, 0, 0);
                        lemma_product_bounds(section as nat, current as nat, u as nat);
                    }
                    let both: u64 = match section.checked_add(current) {
                        Some(n) => n,
                        None => {
                            return None;
                        },
                    };
                    let factor: u64 = if both == 0 {
                        1
                    } else {
                        both
                    };
                    let product: u64 = match factor.checked_mul(u) {
                        Some(n) => n,
                        None => {
                            return None;
                        },
                    };
                    total = match total.checked_add(product) {
                        Some(n) => n,
                        None => {
                            return None;
                        },
                    };
                    section = 0;
                } else {
                    let ghost grown = section + at_least_one(current as nat) * (u as nat);
                    proof {
                        lemma_unit_value_grows(left.drop_first(), total as nat, grown as nat, 0, 0);
                    }
                    let factor: u64 = if current == 0 {
                        1
                    } else {
                        current
                    };
                    let product: u64 = match factor.checked_mul(u) {
                        Some(n) => n,
                        None => {
                            return None;
                        },
                    };
                    section = match section.checked_add(product) {
                        Some(n) => n,
                        None => {
                            return None;
                        },
                    };
                }
                current = 0;
                digits = 0;
            },
        }
        k += 1;
    }
    let sum: u64 = match total.checked_add(section) {
        Some(n) => n,
        None => {
            return None;
        },
    };
    sum.checked_add(current)
}

proof fn lemma_product_bounds(section: nat, current: nat, u: nat)
    requires
        u >= 1,
    ensures
        at_least_one(section + current) * u >= section + current,
{
    assert(at_least_one(section + current) * u >= section + current) by (nonlinear_arith)
        requires
            u >= 1,
            at_least_one(section + current) >= section + current,
    ;
}

/// What a run of words is read as, and by which rule.
fn convert(tokens: &[Token]) -> (r: Option<(String, RuleId)>)
    requires
        proper(tokens@),
    ensures
        r is Some <==> converted(tokens@) is Some,
        r matches Some(p) ==> converted(tokens@) == Some((p.0@, p.1@)),
{
    let mut unit: bool = false;
    let mut some_digit: bool = false;
    let mut digits: String = String::new();
    let mut k: usize = 0;
    while k < tokens.len()
        invariant
            k <= tokens@.len(),
            proper(tokens@),
            unit == has_unit(tokens@.take(k as int)),
            some_digit == has_digit(tokens@.take(k as int)),
            digits@ == digits_of(tokens@.take(k as int)),
        decreases tokens@.len() - k,
    {
        let ghost head = tokens@.take(k as int);
        let ghost next = tokens@.take(k + 1);
        proof {
            assert(next.drop_last() =~= head);
            assert(next.last() == tokens@[k as int]);
            assert(has_unit(next) == (has_unit(head) || tokens@[k as int] is Unit)) by {
                if has_unit(head) {
                    let i = choose|i: int| 0 <= i < head.len() && (#[trigger] head[i]) is Unit;
                    assert(next[i] is Unit);
                }
                if tokens@[k as int] is Unit {
                    assert(next[k as int] is Unit);
                }
                if has_unit(next) {
                    let i = choose|i: int| 0 <= i < next.len() && (#[trigger] next[i]) is Unit;
                    if i < k {
                        assert(head[i] is Unit);
                    }
                }
            }
            assert(has_digit(next) == (has_digit(head) || tokens@[k as int] is Digit)) by {
                if has_digit(head) {
                    let i = choose|i: int| 0 <= i < head.len() && (#[trigger] head[i]) is Digit;
                    assert(next[i] is Digit);
                }
                if tokens@[k as int] is Digit {
                    assert(next[k as int] is Digit);
                }
                if has_digit(next) {
                    let i = choose|i: int| 0 <= i < next.len() && (#[trigger] next[i]) is Digit;
                    if i < k {
                        assert(head[i] is Digit);
                    }
                }
            }
        }
        match tokens[k] {
            Token::Digit(d) => {
                some_digit = true;
                digits.push(digit(d as u64));
            },
            Token::Unit(_) => {
                unit = true;
            },
        }
        k += 1;
    }
    assert(tokens@.take(k as int) =~= tokens@);
    if !unit {
        return Some((digits, RULE_DIGIT));
    }
    if !some_digit {
        return None;
    }
    match eval_unit_reading(tokens) {
        Some(value) => {
            let mut out = String::new();
            push_decimal(&mut out, value);
            assert(out@ =~= decimal(value as nat));
            Some((out, RULE_UNIT))
        },
        None => None,
    }
}

fn is_numeric_context(c: char) -> (r: bool)
    ensures
        r == is_sign(c),
{
    digit_like(c) || match c {
        '-' | '년' | '월' | '일' | '번' | '호' | '생' | '세' | '원' | '차' | '기' | '시' | '분' | '초' => true,
        _ => false,
    }
}

/// The first character before position `at`, looking over at most `window` whitespace characters.
fn char_before(chars: &[char], at: usize, window: usize) -> (r: Option<char>)
    requires
        at <= chars@.len(),
    ensures
        ({
            let n = white_before(chars@, at as int);
            if n <= window && at - n > 0 {
                r == Some(chars@[at - n - 1])
            } else {
                r is None
            }
        }),
{
    let mut skipped: usize = 0;
    let mut i: usize = at;
    while i > 0 && white(chars[i - 1])
        invariant
            i <= at <= chars@.len(),
            skipped == at - i,
            skipped <= window,
            white_before(chars@, at as int) == skipped + white_before(chars@, i as int),
        decreases i,
    {
        proof {
            lemma_white_before(chars@, i - 1);
        }
        if skipped == window {
            return None;
        }
        skipped += 1;
        i -= 1;
    }
    if i == 0 {
        None
    } else {
        Some(chars[i - 1])
    }
}

/// The first character from position `at` on, looking over at most `window` whitespace characters.
fn char_after(chars: &[char], at: usize, window: usize) -> (r: Option<char>)
    requires
        at <= chars@.len(),
    ensures
        ({
            let n = white_from(chars@, at as int);
            if n <= window && at + n < chars@.len() {
                r == Some(chars@[at + n])
            } else {
                r is None
            }
        }),
{
    let mut skipped: usize = 0;
    let mut i: usize = at;
    while i < chars.len() && white(chars[i])
        invariant
            at <= i <= chars@.len(),
            skipped == i - at,
            skipped <= window,
            white_from(chars@, at as int) == skipped + white_from(chars@, i as int),
        decreases chars@.len() - i,
    {
        proof {
            lemma_white_from(chars@, i + 1);
        }
        if skipped == window {
            return None;
        }
        skipped += 1;
        i += 1;
    }
    if i < chars.len() {
        Some(chars[i])
    } else {
        None
    }
}

proof fn lemma_white_before(s: Seq<char>, i: int)
    ensures
        0 <= white_before(s, i),
    decreases i,
{
    if 0 < i <= s.len() && is_white(s[i - 1]) {
        lemma_white_before(s, i - 1);
    }
}

proof fn lemma_white_from(s: Seq<char>, i: int)
    ensures
        0 <= white_from(s, i),
    decreases s.len() - i,
{
    if 0 <= i < s.len() && is_white(s[i]) {
        lemma_white_from(s, i + 1);
    }
}

/// Whether a sign of numbers stands near the run from `start` up to `end`.
fn has_numeric_context(chars: &[char], start: usize, end: usize, cfg: &NumeralConfig) -> (r: bool)
    requires
        start <= end <= chars@.len(),
    ensures
        r == (sign_before(chars@, start as int, cfg.context_window as int) || sign_from(
            chars@,
            end as int,
            cfg.context_window as int,
        )),
{
    if let Some(c) = char_before(chars, start, cfg.context_window) {
        if is_numeric_context(c) {
            return true;
        }
    }
    if let Some(c) = char_after(chars, end, cfg.context_window) {
        if is_numeric_context(c) {
            return true;
        }
    }
    false
}

/// How many syllables of a verb ending a run has swallowed.
fn swallowed_ending(chars: &[char], i: usize, e: usize) -> (r: usize)
    requires
        i <= e <= chars@.len(),
    ensures
        r == swallowed(chars@, i as int, e as int),
        r <= e - i,
{
    let left: usize = chars.len() - e;
    let c0: char = if left >= 1 {
        chars[e]
    } else {
        ' '
    };
    let c1: char = if left >= 2 {
        chars[e + 1]
    } else {
        ' '
    };
    proof {
        let s = chars@;
        if left >= 1 {
            assert(s.subrange(e as int, e + 1) =~= seq![s[e as int]]);
        }
        if left >= 2 {
            assert(s.subrange(e as int, e + 2) =~= seq![s[e as int], s[e + 1]]);
        }
        lemma_one_char(s, e as int, '요');
        lemma_one_char(s, e as int, '고');
        lemma_two_chars(s, e as int, '래', '요');
        lemma_two_chars(s, e as int, '에', '요');
        lemma_two_chars(s, e as int, '예', '요');
    }
    let follows: bool = c0 == '요' || c0 == '고' || ((c0 == '래' || c0 == '에' || c0 == '예') && c1 == '요');
    if e - i >= 1 && chars[e - 1] == '이' && follows {
        1
    } else if e - i >= 2 && chars[e - 2] == '이' && chars[e - 1] == '구' && c0 == '요' {
        2
    } else {
        0
    }
}

proof fn lemma_one_char(s: Seq<char>, i: int, a: char)
    requires
        0 <= i <= s.len(),
    ensures
        goes_on(s, i, seq![a]) <==> i < s.len() && s[i] == a,
{
    if i < s.len() {
        assert(s.subrange(i, i + 1) =~= seq![s[i]]);
        if goes_on(s, i, seq![a]) {
            assert(s.subrange(i, i + 1)[0] == a);
        }
    }
}

proof fn lemma_two_chars(s: Seq<char>, i: int, a: char, b: char)
    requires
        0 <= i <= s.len(),
    ensures
        goes_on(s, i, seq![a, b]) <==> i + 1 < s.len() && s[i] == a && s[i + 1] == b,
{
    if i + 1 < s.len() {
        assert(s.subrange(i, i + 2) =~= seq![s[i], s[i + 1]]);
        if goes_on(s, i, seq![a, b]) {
            assert(s.subrange(i, i + 2)[0] == a);
            assert(s.subrange(i, i + 2)[1] == b);
        }
    }
}

/// What a run is read as, by which rule, and where the numeral ends.
fn read(chars: &[char], i: usize, e: usize, cfg: &NumeralConfig) -> (r: Option<(String, RuleId, usize)>)
    requires
        i < e <= chars@.len(),
    ensures
        r is Some <==> read_run(chars@, i as int, e as int, *cfg) is Some,
        r matches Some(p) ==> read_run(chars@, i as int, e as int, *cfg) == Some((p.0@, p.1@, p.2 as int)),
        r matches Some(p) ==> i < p.2 <= e,
{
    let f: usize = e - swallowed_ending(chars, i, e);
    if f <= i {
        return None;
    }
    let (tokens, _) = collect(chars, i, f);
    match convert(tokens.as_slice()) {
        Some((digits, rule)) => {
            let n: usize = char_count(digits.as_str());
            if n >= cfg.min_digits_without_context || (n >= cfg.min_digits_with_context && has_numeric_context(
                chars,
                i,
                f,
                cfg,
            )) {
                Some((digits, rule, f))
            } else {
                None
            }
        },
        None => None,
    }
}

/// A run ends inside the text.
proof fn lemma_run_end(s: Seq<char>, i: int)
    requires
        0 <= i <= s.len(),
    ensures
        i <= run_end(s, i) <= s.len(),
        run_end(s, i) > i <==> token_at(s, i) is Some,
    decreases s.len() - i,
{
    if token_at(s, i) is Some {
        lemma_run_end(s, i + token_at(s, i).unwrap().1);
    }
}

/// The pass consumes what is left of the text.
pub proof fn lemma_hangul_steps(s: Seq<char>, i: int, cfg: NumeralConfig)
    requires
        0 <= i <= s.len(),
    ensures
        valid(hangul_steps(s, i, cfg)),
        src_of(hangul_steps(s, i, cfg)) == s.skip(i),
    decreases s.len() - i,
{
    if i < s.len() {
        lemma_run_end(s, i);
        let e = run_end(s, i);
        if e <= i {
            lemma_keep_one(s, i);
            lemma_hangul_steps(s, i + 1, cfg);
            lemma_first_step(s, i, 1, Step::Keep { c: s[i] }, hangul_steps(s, i + 1, cfg));
        } else {
            lemma_hangul_steps(s, e, cfg);
            let tail = hangul_steps(s, e, cfg);
            match read_run(s, i, e, cfg) {
                Some((digits, rule, f)) => {
                    lemma_kept_then(s, f, e, tail);
                    lemma_first_step(s, i, f - i, reading(s.subrange(i, f), digits, rule), keeps(s.subrange(f, e)) + tail);
                },
                None => {
                    lemma_kept_then(s, i, e, tail);
                },
            }
        }
    } else {
        assert(s.skip(i) =~= Seq::<char>::empty());
    }
}

/// A number below a power of ten has no more digits than the power has zeros.
proof fn lemma_decimal_len(n: nat, k: nat, bound: nat)
    requires
        n < bound,
        bound == pow10(k),
        k >= 1,
    ensures
        1 <= decimal(n).len() <= k,
        utf8_len(decimal(n)) == decimal(n).len(),
    decreases n,
{
    reveal_with_fuel(utf8_len, 2);
    if n < 10 {
        assert(decimal(n).drop_last() =~= Seq::<char>::empty());
    } else {
        let d = (n % 10) as int;
        let front = decimal(n / 10);
        if k == 1 {
            reveal_with_fuel(pow10, 2);
        }
        lemma_decimal_len(n / 10, (k - 1) as nat, pow10((k - 1) as nat));
        lemma_utf8_len_push(front, digit_char(d));
    }
}

spec fn pow10(k: nat) -> nat
    decreases k,
{
    if k == 0 {
        1
    } else {
        10 * pow10((k - 1) as nat)
    }
}

/// A run of words takes at least three bytes for each word.
proof fn lemma_tokens_width(s: Seq<char>, i: int)
    requires
        0 <= i <= s.len(),
    ensures
        i <= run_end(s, i) <= s.len(),
        utf8_len(s.subrange(i, run_end(s, i))) >= 3 * tokens_from(s, i).len(),
        proper(tokens_from(s, i)),
    decreases s.len() - i,
{
    lemma_run_end(s, i);
    match token_at(s, i) {
        Some((token, n)) => {
            lemma_tokens_width(s, i + n);
            let e = run_end(s, i);
            let part = s.subrange(i, i + n);
            assert(s.subrange(i, e) =~= part + s.subrange(i + n, e));
            lemma_utf8_len_add(part, s.subrange(i + n, e));
            reveal_with_fuel(utf8_len, 3);
            assert(part.last() == s[i + n - 1]);
            assert(char_width(s[i + n - 1]) == 3);
            let tail = tokens_from(s, i + n);
            let all = tokens_from(s, i);
            assert forall|k: int| 0 <= k < all.len() implies match #[trigger] all[k] {
                Token::Digit(d) => d < 10,
                Token::Unit(u) => u >= 10,
            } by {
                if k > 0 {
                    assert(all[k] == tail[k - 1]);
                }
            }
        },
        None => {},
    }
}

proof fn lemma_digits_len(tokens: Seq<Token>)
    requires
        proper(tokens),
    ensures
        utf8_len(digits_of(tokens)) <= tokens.len(),
    decreases tokens.len(),
{
    if tokens.len() > 0 {
        let init = tokens.drop_last();
        assert(proper(init)) by {
            assert forall|k: int| 0 <= k < init.len() implies match #[trigger] init[k] {
                Token::Digit(d) => d < 10,
                Token::Unit(u) => u >= 10,
            } by {
                assert(init[k] == tokens[k]);
            }
        }
        lemma_digits_len(init);
        match tokens.last() {
            Token::Digit(d) => {
                assert(tokens[tokens.len() - 1] is Digit);
                lemma_utf8_len_push(digits_of(init), digit_char(d as int));
            },
            Token::Unit(_) => {},
        }
    }
}

/// What a run is read as takes at most four times the bytes of the run.
proof fn lemma_reading_growth(s: Seq<char>, i: int, e: int, cfg: NumeralConfig)
    requires
        0 <= i < e <= s.len(),
    ensures
        read_run(s, i, e, cfg) matches Some(p) ==> i < p.2 <= e && utf8_len(p.0) <= 4 * utf8_len(s.subrange(i, p.2)),
{
    if let Some((digits, rule, f)) = read_run(s, i, e, cfg) {
        let cut = s.take(f);
        let tokens = tokens_from(cut, i);
        lemma_tokens_width(cut, i);
        let g = run_end(cut, i);
        assert(cut.subrange(i, g) =~= s.subrange(i, f).take(g - i));
        lemma_utf8_len_split(s.subrange(i, f), g - i, g - i);
        lemma_digits_len(tokens);
        if has_unit(tokens) {
            let a = choose|a: int| 0 <= a < tokens.len() && (#[trigger] tokens[a]) is Unit;
            let b = choose|b: int| 0 <= b < tokens.len() && (#[trigger] tokens[b]) is Digit;
            assert(a != b);
            assert(tokens.len() >= 2);
            let v = unit_value(tokens, 0, 0, 0, 0).unwrap();
            reveal_with_fuel(pow10, 22);
            lemma_decimal_len(v, 20, pow10(20));
        }
    }
}

/// Reading numerals makes a text at most four times as long.
pub proof fn lemma_hangul_growth(s: Seq<char>, i: int, cfg: NumeralConfig)
    requires
        0 <= i <= s.len(),
    ensures
        utf8_len(dst_of(hangul_steps(s, i, cfg))) <= 4 * utf8_len(s.skip(i)),
    decreases s.len() - i,
{
    if i < s.len() {
        lemma_run_end(s, i);
        let e = run_end(s, i);
        if e <= i {
            lemma_keep_one(s, i);
            lemma_hangul_steps(s, i + 1, cfg);
            lemma_hangul_growth(s, i + 1, cfg);
            lemma_first_step(s, i, 1, Step::Keep { c: s[i] }, hangul_steps(s, i + 1, cfg));
        } else {
            lemma_hangul_steps(s, e, cfg);
            lemma_hangul_growth(s, e, cfg);
            let tail = hangul_steps(s, e, cfg);
            match read_run(s, i, e, cfg) {
                Some((digits, rule, f)) => {
                    lemma_reading_growth(s, i, e, cfg);
                    lemma_kept_then(s, f, e, tail);
                    lemma_first_step(s, i, f - i, reading(s.subrange(i, f), digits, rule), keeps(s.subrange(f, e)) + tail);
                    assert(s.skip(f) =~= s.subrange(f, e) + s.skip(e));
                    lemma_utf8_len_add(s.subrange(f, e), s.skip(e));
                },
                None => {
                    lemma_kept_then(s, i, e, tail);
                    assert(s.skip(i) =~= s.subrange(i, e) + s.skip(e));
                    lemma_utf8_len_add(s.subrange(i, e), s.skip(e));
                },
            }
        }
    } else {
        assert(s.skip(i) =~= Seq::<char>::empty());
    }
}

/// Kept text before the steps that follow it.
proof fn lemma_kept_then(s: Seq<char>, f: int, e: int, tail: Seq<Step>)
    requires
        0 <= f <= e <= s.len(),
        valid(tail),
        src_of(tail) == s.skip(e),
    ensures
        valid(keeps(s.subrange(f, e)) + tail),
        src_of(keeps(s.subrange(f, e)) + tail) == s.skip(f),
        utf8_len(dst_of(keeps(s.subrange(f, e)) + tail)) == utf8_len(s.subrange(f, e)) + utf8_len(dst_of(tail)),
{
    let part = s.subrange(f, e);
    lemma_keeps(part);
    lemma_of_add(keeps(part), tail);
    lemma_utf8_len_add(part, dst_of(tail));
    assert(s.skip(f) =~= part + s.skip(e));
}

/// A numeral is read as one digit or more.
proof fn lemma_read_digits(s: Seq<char>, i: int, e: int, cfg: NumeralConfig)
    requires
        0 <= i < e <= s.len(),
        e == run_end(s, i),
    ensures
        read_run(s, i, e, cfg) matches Some(p) ==> p.0.len() >= 1,
{
    if let Some((digits, rule, f)) = read_run(s, i, e, cfg) {
        lemma_run_end(s, i);
        if i + 1 < s.len() && two_syllables(s[i], s[i + 1]) is Some {
            lemma_run_end(s, i + 2);
            assert(f > i + 1);
        }
        let cut = s.take(f);
        let tokens = tokens_from(cut, i);
        assert(token_at(cut, i) is Some);
        assert(tokens.len() >= 1);
        if !has_unit(tokens) {
            assert(!(tokens[tokens.len() - 1] is Unit));
        }
    }
}

/// Every step of the pass gives a character.
pub proof fn lemma_hangul_productive(s: Seq<char>, i: int, cfg: NumeralConfig)
    requires
        0 <= i <= s.len(),
    ensures
        productive(hangul_steps(s, i, cfg)),
    decreases s.len() - i,
{
    if i < s.len() {
        lemma_run_end(s, i);
        let e = run_end(s, i);
        if e <= i {
            lemma_hangul_productive(s, i + 1, cfg);
        } else {
            lemma_hangul_productive(s, e, cfg);
            lemma_read_digits(s, i, e, cfg);
            match read_run(s, i, e, cfg) {
                Some((digits, rule, f)) => lemma_keeps_index(s.subrange(f, e)),
                None => lemma_keeps_index(s.subrange(i, e)),
            }
        }
    }
}

/// The number of bytes from position `i` up to `e`.
fn bytes_between(chars: &[char], i: usize, e: usize) -> (r: u64)
    requires
        i <= e <= chars@.len(),
        utf8_len(chars@) <= u32::MAX,
    ensures
        r == utf8_len(chars@.subrange(i as int, e as int)),
        r <= u32::MAX,
{
    let mut r: u64 = 0;
    let mut k: usize = i;
    proof {
        assert(chars@.subrange(i as int, i as int) =~= Seq::<char>::empty());
    }
    while k < e
        invariant
            i <= k <= e <= chars@.len(),
            utf8_len(chars@) <= u32::MAX,
            r == utf8_len(chars@.subrange(i as int, k as int)),
            r <= u32::MAX,
        decreases e - k,
    {
        proof {
            assert(chars@.subrange(i as int, k + 1) =~= chars@.subrange(i as int, k as int).push(chars@[k as int]));
            lemma_utf8_len_push(chars@.subrange(i as int, k as int), chars@[k as int]);
            lemma_part_len(chars@, i as int, k + 1);
        }
        r += width(chars[k]) as u64;
        k += 1;
    }
    proof {
        lemma_part_len(chars@, i as int, e as int);
    }
    r
}

/// A part of a text has no more bytes than the text.
proof fn lemma_part_len(s: Seq<char>, i: int, e: int)
    requires
        0 <= i <= e <= s.len(),
    ensures
        utf8_len(s.subrange(i, e)) <= utf8_len(s),
{
    lemma_utf8_len_split(s, i, e);
    lemma_utf8_len_split(s, e, s.len() as int);
    assert(s.take(e) =~= s.take(i) + s.subrange(i, e));
    lemma_utf8_len_add(s.take(i), s.subrange(i, e));
    assert(s =~= s.take(e) + s.skip(e));
    lemma_utf8_len_add(s.take(e), s.skip(e));
}

/// How many bytes the text has after the pass.
pub fn output_len(text: &str, cfg: &NumeralConfig) -> (r: u64)
    requires
        utf8_len(text@) <= u32::MAX,
    ensures
        r == utf8_len(dst_of(hangul_steps(text@, 0, *cfg))),
{
    let ghost t = text@;
    let ghost all = utf8_len(dst_of(hangul_steps(t, 0, *cfg)));
    let chars = to_chars(text);
    let n: usize = chars.len();
    let mut sum: u64 = 0;
    let mut i: usize = 0;
    proof {
        assert(t.skip(0) =~= t);
        lemma_hangul_growth(t, 0, *cfg);
        assert(t.take(n as int) =~= t);
    }
    while i < n
        invariant
            chars@ == t,
            n == t.len(),
            i <= n,
            t.take(n as int) == t,
            utf8_len(t) <= u32::MAX,
            all <= 4 * utf8_len(t),
            sum + utf8_len(dst_of(hangul_steps(t, i as int, *cfg))) == all,
        decreases n - i,
    {
        let (tokens, end) = collect(chars.as_slice(), i, n);
        let ghost tail = hangul_steps(t, end as int, *cfg);
        proof {
            lemma_run_end(t, i as int);
        }
        if end == i {
            proof {
                let rest = hangul_steps(t, i + 1, *cfg);
                let step = Step::Keep { c: t[i as int] };
                lemma_of_add(seq![step], rest);
                lemma_of_single(step);
                lemma_utf8_len_add(step.dst(), dst_of(rest));
                lemma_utf8_len_push(Seq::empty(), t[i as int]);
                assert(step.dst() =~= Seq::<char>::empty().push(t[i as int]));
            }
            sum += width(chars[i]) as u64;
            i += 1;
            continue;
        }
        proof {
            lemma_hangul_steps(t, end as int, *cfg);
        }
        match read(chars.as_slice(), i, end, cfg) {
            Some((digits, rule, f)) => {
                proof {
                    let kept = keeps(t.subrange(f as int, end as int)) + tail;
                    let step = reading(t.subrange(i as int, f as int), digits@, rule@);
                    lemma_kept_then(t, f as int, end as int, tail);
                    lemma_of_add(seq![step], kept);
                    lemma_of_single(step);
                    lemma_utf8_len_add(step.dst(), dst_of(kept));
                }
                sum += byte_len(digits.as_str()) as u64;
                sum += bytes_between(chars.as_slice(), f, end);
            },
            None => {
                proof {
                    lemma_kept_then(t, i as int, end as int, tail);
                }
                sum += bytes_between(chars.as_slice(), i, end);
            },
        }
        i = end;
    }
    sum
}

/// Reads the run up to `end`, or keeps it.
fn rewrite_run(walk: &mut Walk, end: usize, cfg: &NumeralConfig, Ghost(t): Ghost<Seq<char>>)
    requires
        old(walk).wf(),
        old(walk).over() == t,
        old(walk).pos() < end <= t.len(),
        end == run_end(t, old(walk).pos()),
        utf8_len(dst_of(old(walk)@ + hangul_steps(t, old(walk).pos(), *cfg))) <= u32::MAX,
    ensures
        final(walk).wf(),
        final(walk).over() == t,
        final(walk).pos() == end,
        final(walk)@ + hangul_steps(t, end as int, *cfg) == old(walk)@ + hangul_steps(t, old(walk).pos(), *cfg),
{
    let ghost before = walk@;
    let i: usize = walk.position();
    let ghost tail = hangul_steps(t, end as int, *cfg);
    match read(walk.chars().as_slice(), i, end, cfg) {
        Some((digits, rule, f)) => {
            let ghost step = reading(t.subrange(i as int, f as int), digits@, rule@);
            let ghost kept = keeps(t.subrange(f as int, end as int));
            proof {
                lemma_take_step(before, step, kept + tail);
            }
            walk.numeral(f - i, digits.as_str(), rule);
            walk.pass(end - f);
            proof {
                assert(before.push(step) + (kept + tail) =~= before.push(step) + kept + tail);
            }
        },
        None => {
            walk.pass(end - i);
            proof {
                let kept = keeps(t.subrange(i as int, end as int));
                assert(before + (kept + tail) =~= before + kept + tail);
            }
        },
    }
}

/// Reads Hangul numerals as digits.
pub fn apply(text: &str, cfg: &NumeralConfig) -> (r: (String, SpanMap))
    requires
        utf8_len(text@) <= u32::MAX,
        utf8_len(dst_of(hangul_steps(text@, 0, *cfg))) <= u32::MAX,
    ensures
        r.0@ == dst_of(hangul_steps(text@, 0, *cfg)),
        r.1.of(hangul_steps(text@, 0, *cfg)),
{
    let ghost t = text@;
    let ghost all = hangul_steps(t, 0, *cfg);
    let mut walk = Walk::new(text);
    proof {
        lemma_hangul_steps(t, 0, *cfg);
        assert(Seq::<Step>::empty() + all =~= all);
    }
    while walk.position() < walk.chars().len()
        invariant
            walk.wf(),
            walk.over() == t,
            all == hangul_steps(t, 0, *cfg),
            walk@ + hangul_steps(t, walk.pos(), *cfg) == all,
            utf8_len(dst_of(all)) <= u32::MAX,
        decreases t.len() - walk.pos(),
    {
        let ghost before = walk@;
        let i: usize = walk.position();
        let n: usize = walk.chars().len();
        let (tokens, end) = collect(walk.chars().as_slice(), i, n);
        proof {
            assert(t.take(n as int) =~= t);
        }
        if end == i {
            proof {
                lemma_keep_one(t, i as int);
                lemma_take_step(before, Step::Keep { c: t[i as int] }, hangul_steps(t, i + 1, *cfg));
            }
            walk.pass(1);
            continue;
        }
        rewrite_run(&mut walk, end, cfg, Ghost(t));
    }
    proof {
        assert(walk@ + hangul_steps(t, walk.pos(), *cfg) =~= walk@);
    }
    walk.finish()
}

} // verus!
