//! The many ways to write one value.

use vstd::prelude::*;
use crate::detect::entity::EntityKind;
use crate::text::{digit_like, is_digit, lemma_char_of, to_chars};

verus! {

broadcast use crate::text::lemma_text_char_range;

/// A way to write a value.
#[derive(Debug, Clone, Copy, PartialEq, Eq, Structural)]
pub enum Variant {
    /// Digits alone: `8801011234568`
    Plain,
    /// Groups with hyphens: `880101-1234568`
    Hyphen,
    /// Groups with spaces: `880101 1234568`
    Space,
    /// Full-width digits.
    Fullwidth,
    /// The first six digits as Hangul numerals: `팔팔공일공일-1234568`
    HangulDigits,
    /// Some inner digits as letters that look alike: `88O1O11234568`
    Lookalike,
    /// The last digits hidden: `8801011******`
    Masked,
    /// All digits as Hangul numerals with a verb ending, as in transcribed speech.
    SentenceEnding,
    /// A value that is written in one way only.
    Literal,
}

impl Variant {
    /// The name of a notation.
    pub open spec fn label_text(self) -> Seq<char> {
        match self {
            Variant::Plain => "숫자만"@,
            Variant::Hyphen => "하이픈"@,
            Variant::Space => "공백"@,
            Variant::Fullwidth => "전각"@,
            Variant::HangulDigits => "한글수사"@,
            Variant::Lookalike => "유사문자"@,
            Variant::Masked => "부분마스킹"@,
            Variant::SentenceEnding => "말끝"@,
            Variant::Literal => "원형"@,
        }
    }

    /// The name of the notation.
    pub fn label(&self) -> (r: &'static str)
        ensures
            r@ == self.label_text(),
    {
        match self {
            Variant::Plain => "숫자만",
            Variant::Hyphen => "하이픈",
            Variant::Space => "공백",
            Variant::Fullwidth => "전각",
            Variant::HangulDigits => "한글수사",
            Variant::Lookalike => "유사문자",
            Variant::Masked => "부분마스킹",
            Variant::SentenceEnding => "말끝",
            Variant::Literal => "원형",
        }
    }
}

/// A separator stands before the character at position `i` of a value with `len` characters.
pub open spec fn is_group_start(entity: EntityKind, len: nat, i: int) -> bool {
    match entity {
        EntityKind::Resident => i == 6,
        EntityKind::ForeignerRegistration => i == 6,
        EntityKind::BusinessRegistration => i == 3 || i == 5,
        EntityKind::CreditCard => i == 4 || i == 8 || i == 12,
        EntityKind::Phone => i == 3 || i == 7,
        EntityKind::DriverLicense => i == 2 || i == 4 || i == 10,
        EntityKind::BirthDate => i == 4 || i == 6,
        EntityKind::BankAccount => i == 3 || i == if len >= 12 {
            9
        } else {
            8int
        },
        EntityKind::Email => false,
        EntityKind::Passport => false,
    }
}

/// The first `n` characters of a value, its groups apart.
pub open spec fn grouped(entity: EntityKind, v: Seq<char>, sep: char, n: int) -> Seq<char>
    decreases n,
{
    if n <= 0 {
        Seq::empty()
    } else {
        let so_far = grouped(entity, v, sep, n - 1);
        if is_group_start(entity, v.len(), n - 1) {
            so_far.push(sep).push(v[n - 1])
        } else {
            so_far.push(v[n - 1])
        }
    }
}

/// The full-width form of a digit. Other characters stay.
pub open spec fn widened(c: char) -> char {
    if is_digit(c) {
        (0xff10 + (c as int - 48)) as char
    } else {
        c
    }
}

/// The Hangul numeral of a digit. Other characters stay.
pub open spec fn spoken(c: char) -> char {
    if c == '0' {
        '공'
    } else if c == '1' {
        '일'
    } else if c == '2' {
        '이'
    } else if c == '3' {
        '삼'
    } else if c == '4' {
        '사'
    } else if c == '5' {
        '오'
    } else if c == '6' {
        '육'
    } else if c == '7' {
        '칠'
    } else if c == '8' {
        '팔'
    } else if c == '9' {
        '구'
    } else {
        c
    }
}

/// The first `n` characters in full width.
pub open spec fn wide(v: Seq<char>, n: int) -> Seq<char>
    decreases n,
{
    if n <= 0 {
        Seq::empty()
    } else {
        wide(v, n - 1).push(widened(v[n - 1]))
    }
}

/// The first `n` characters, of which those before position `count` are spoken.
pub open spec fn spoken_head(v: Seq<char>, count: int, n: int) -> Seq<char>
    decreases n,
{
    if n <= 0 {
        Seq::empty()
    } else {
        spoken_head(v, count, n - 1).push(
            if n - 1 < count {
                spoken(v[n - 1])
            } else {
                v[n - 1]
            },
        )
    }
}

/// The letter that looks like a digit.
pub open spec fn letter_for(c: char) -> Option<char> {
    if c == '0' {
        Some('O')
    } else if c == '1' {
        Some('l')
    } else {
        None
    }
}

/// The character at position `i` becomes a letter: it is neither the first nor the last, the one
/// before it did not, and fewer than `limit` did.
pub open spec fn turns(v: Seq<char>, limit: nat, i: int) -> bool
    decreases i, 1int,
{
    &&& 0 < i < v.len() - 1
    &&& letter_for(v[i]) is Some
    &&& !turns(v, limit, i - 1)
    &&& turned(v, limit, i) < limit
}

/// How many of the first `n` characters become letters.
pub open spec fn turned(v: Seq<char>, limit: nat, n: int) -> nat
    decreases n, 0int,
{
    if n <= 0 {
        0
    } else if turns(v, limit, n - 1) {
        turned(v, limit, n - 1) + 1
    } else {
        turned(v, limit, n - 1)
    }
}

/// The first `n` characters, with letters in place of some digits.
pub open spec fn lettered(v: Seq<char>, limit: nat, n: int) -> Seq<char>
    decreases n,
{
    if n <= 0 {
        Seq::empty()
    } else {
        lettered(v, limit, n - 1).push(
            if turns(v, limit, n - 1) {
                letter_for(v[n - 1]).unwrap()
            } else {
                v[n - 1]
            },
        )
    }
}

/// How many characters stay when the last `count` are hidden: at least one.
pub open spec fn kept_count(total: nat, count: int) -> int {
    if total - count >= 1 {
        total - count
    } else {
        1
    }
}

/// The first `n` characters, hidden from position `keep` on.
pub open spec fn hidden_tail(v: Seq<char>, keep: int, n: int) -> Seq<char>
    decreases n,
{
    if n <= 0 {
        Seq::empty()
    } else {
        hidden_tail(v, keep, n - 1).push(
            if n - 1 < keep {
                v[n - 1]
            } else {
                '*'
            },
        )
    }
}

/// How many digits are hidden. The first ones stay, for they say what a value is.
pub open spec fn hidden_count(entity: EntityKind) -> int {
    match entity {
        EntityKind::CreditCard => 8,
        EntityKind::Resident => 6,
        EntityKind::ForeignerRegistration => 6,
        _ => 4,
    }
}

/// A value in a notation.
pub open spec fn notation(entity: EntityKind, v: Seq<char>, variant: Variant) -> Seq<char> {
    let n = v.len() as int;
    match variant {
        Variant::Plain => v,
        Variant::Literal => v,
        Variant::Hyphen => grouped(entity, v, '-', n),
        Variant::Space => grouped(entity, v, ' ', n),
        Variant::Fullwidth => wide(v, n),
        Variant::Lookalike => lettered(v, 2, n),
        Variant::Masked => hidden_tail(v, kept_count(v.len(), hidden_count(entity)), n),
        Variant::SentenceEnding => spoken_head(v, n, n) + "이래요"@,
        Variant::HangulDigits => {
            let h = spoken_head(v, 6, n);
            let k = if n < 6 {
                n
            } else {
                6
            };
            h.take(k) + "-"@ + h.skip(k)
        },
    }
}

fn group_start(entity: EntityKind, len: usize, i: usize) -> (r: bool)
    ensures
        r == is_group_start(entity, len as nat, i as int),
{
    match entity {
        EntityKind::Resident | EntityKind::ForeignerRegistration => i == 6,
        EntityKind::BusinessRegistration => i == 3 || i == 5,
        EntityKind::CreditCard => i == 4 || i == 8 || i == 12,
        EntityKind::Phone => i == 3 || i == 7,
        EntityKind::DriverLicense => i == 2 || i == 4 || i == 10,
        EntityKind::BirthDate => i == 4 || i == 6,
        EntityKind::BankAccount => if len >= 12 {
            i == 3 || i == 9
        } else {
            i == 3 || i == 8
        },
        // Passport numbers are written without separators.
        EntityKind::Email | EntityKind::Passport => false,
    }
}

fn insert_separator(entity: EntityKind, value: &str, sep: char) -> (r: String)
    ensures
        r@ == grouped(entity, value@, sep, value@.len() as int),
{
    let chars = to_chars(value);
    let mut out = String::new();
    let mut i: usize = 0;
    while i < chars.len()
        invariant
            chars@ == value@,
            i <= chars@.len(),
            out@ == grouped(entity, value@, sep, i as int),
        decreases chars@.len() - i,
    {
        if group_start(entity, chars.len(), i) {
            out.push(sep);
        }
        out.push(chars[i]);
        i += 1;
    }
    out
}

fn to_fullwidth(value: &str) -> (r: String)
    ensures
        r@ == wide(value@, value@.len() as int),
{
    let chars = to_chars(value);
    let mut out = String::new();
    let mut i: usize = 0;
    while i < chars.len()
        invariant
            chars@ == value@,
            i <= chars@.len(),
            out@ == wide(value@, i as int),
        decreases chars@.len() - i,
    {
        let c: char = chars[i];
        if digit_like(c) {
            let code: u32 = 0xff10 + (c as u32 - 48);
            match char::from_u32(code) {
                Some(w) => {
                    proof {
                        lemma_char_of(w, code as int);
                    }
                    out.push(w);
                },
                None => {},
            }
        } else {
            out.push(c);
        }
        i += 1;
    }
    out
}

fn speak(c: char) -> (r: char)
    ensures
        r == spoken(c),
{
    match c {
        '0' => '공',
        '1' => '일',
        '2' => '이',
        '3' => '삼',
        '4' => '사',
        '5' => '오',
        '6' => '육',
        '7' => '칠',
        '8' => '팔',
        '9' => '구',
        _ => c,
    }
}

fn to_hangul_digits(chars: &Vec<char>, count: usize) -> (r: Vec<char>)
    ensures
        r@ == spoken_head(chars@, count as int, chars@.len() as int),
        r@.len() == chars@.len(),
{
    let mut out: Vec<char> = Vec::new();
    let mut i: usize = 0;
    while i < chars.len()
        invariant
            i <= chars@.len(),
            out@ == spoken_head(chars@, count as int, i as int),
            out@.len() == i,
        decreases chars@.len() - i,
    {
        if i < count {
            out.push(speak(chars[i]));
        } else {
            out.push(chars[i]);
        }
        i += 1;
    }
    out
}

/// Writes letters that look alike in place of inner digits, `limit` at most. No two of them stand
/// side by side: neither would then have a digit next to it.
pub fn to_lookalike(value: &str, limit: usize) -> (r: String)
    ensures
        r@ == lettered(value@, limit as nat, value@.len() as int),
{
    let chars = to_chars(value);
    let n: usize = chars.len();
    let mut out = String::new();
    let mut changed: usize = 0;
    let mut previous: bool = false;
    let mut i: usize = 0;
    while i < n
        invariant
            chars@ == value@,
            n == chars@.len(),
            i <= n,
            changed <= i,
            out@ == lettered(value@, limit as nat, i as int),
            changed == turned(value@, limit as nat, i as int),
            previous == turns(value@, limit as nat, i - 1),
        decreases n - i,
    {
        let c: char = chars[i];
        let swapped: Option<char> = match c {
            '0' => Some('O'),
            '1' => Some('l'),
            _ => None,
        };
        assert(swapped == letter_for(value@[i as int]));
        let interior: bool = i > 0 && i < n - 1;
        match swapped {
            Some(letter) => {
                if interior && !previous && changed < limit {
                    assert(turns(value@, limit as nat, i as int));
                    out.push(letter);
                    changed += 1;
                    previous = true;
                } else {
                    assert(!turns(value@, limit as nat, i as int));
                    out.push(c);
                    previous = false;
                }
            },
            None => {
                assert(!turns(value@, limit as nat, i as int));
                out.push(c);
                previous = false;
            },
        }
        i += 1;
    }
    out
}

/// Hides the last `count` characters, but never the first.
fn to_masked(value: &str, count: usize) -> (r: String)
    ensures
        r@ == hidden_tail(value@, kept_count(value@.len(), count as int), value@.len() as int),
{
    let chars = to_chars(value);
    let n: usize = chars.len();
    let keep: usize = if n > count {
        n - count
    } else {
        1
    };
    let mut out = String::new();
    let mut i: usize = 0;
    while i < n
        invariant
            chars@ == value@,
            n == chars@.len(),
            i <= n,
            keep == kept_count(value@.len(), count as int),
            out@ == hidden_tail(value@, keep as int, i as int),
        decreases n - i,
    {
        if i < keep {
            out.push(chars[i]);
        } else {
            out.push('*');
        }
        i += 1;
    }
    out
}

fn masked_tail(entity: EntityKind) -> (r: usize)
    ensures
        r == hidden_count(entity),
{
    match entity {
        EntityKind::CreditCard => 8,
        EntityKind::Resident | EntityKind::ForeignerRegistration => 6,
        _ => 4,
    }
}

/// Writes a value in a notation.
pub fn render(entity: EntityKind, value: &str, variant: Variant) -> (r: String)
    ensures
        r@ == notation(entity, value@, variant),
{
    match variant {
        Variant::Plain | Variant::Literal => value.to_owned(),
        Variant::Hyphen => insert_separator(entity, value, '-'),
        Variant::Space => insert_separator(entity, value, ' '),
        Variant::Fullwidth => to_fullwidth(value),
        Variant::Lookalike => to_lookalike(value, 2),
        Variant::Masked => to_masked(value, masked_tail(entity)),
        Variant::SentenceEnding => {
            let chars = to_chars(value);
            let hangul = to_hangul_digits(&chars, chars.len());
            let mut out = crate::text::from_chars(hangul.as_slice());
            // The first syllable of the ending is also the digit two.
            out.append("이래요");
            out
        },
        Variant::HangulDigits => {
            let chars = to_chars(value);
            let hangul = to_hangul_digits(&chars, 6);
            let k: usize = if hangul.len() < 6 {
                hangul.len()
            } else {
                6
            };
            let head = vstd::slice::slice_subrange(hangul.as_slice(), 0, k);
            let tail = vstd::slice::slice_subrange(hangul.as_slice(), k, hangul.len());
            let mut out = crate::text::from_chars(head);
            out.append("-");
            out.append(crate::text::from_chars(tail).as_str());
            out
        },
    }
}

/// A notation drops no character of a value. It at most doubles the value and adds three
/// characters.
pub proof fn lemma_notation_len(entity: EntityKind, v: Seq<char>, variant: Variant)
    ensures
        v.len() <= notation(entity, v, variant).len(),
        notation(entity, v, variant).len() <= 2 * v.len() + 3,
{
    let n = v.len() as int;
    reveal_strlit("이래요");
    reveal_strlit("-");
    lemma_parts_len(entity, v, '-', n);
    lemma_parts_len(entity, v, ' ', n);
}

proof fn lemma_parts_len(entity: EntityKind, v: Seq<char>, sep: char, n: int)
    requires
        0 <= n <= v.len(),
    ensures
        n <= grouped(entity, v, sep, n).len() <= 2 * n,
        wide(v, n).len() == n,
        lettered(v, 2, n).len() == n,
        forall|keep: int| (#[trigger] hidden_tail(v, keep, n)).len() == n,
        forall|count: int| (#[trigger] spoken_head(v, count, n)).len() == n,
    decreases n,
{
    if n > 0 {
        lemma_parts_len(entity, v, sep, n - 1);
        assert forall|keep: int| (#[trigger] hidden_tail(v, keep, n)).len() == n by {
            assert(hidden_tail(v, keep, n - 1).len() == n - 1);
        }
        assert forall|count: int| (#[trigger] spoken_head(v, count, n)).len() == n by {
            assert(spoken_head(v, count, n - 1).len() == n - 1);
        }
    }
}

} // verus!
