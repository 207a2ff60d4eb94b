//! Words around a value.
//!
//! For kinds such as account numbers the digits alone say nothing. Whether `1234567890` is an
//! account number or an order number shows only in words nearby. Words are looked for in a window
//! around a value, and the nearer a word, the more it weighs.
//!
//! Other words say that a number belongs to a document or a thing and not to a person. They are
//! looked for in the same way.

use vstd::prelude::*;
use crate::span::Span;
use crate::text::{
    lemma_insert_multiset, lemma_lex_irreflexive, lemma_lex_total, lemma_lex_transitive,
    lemma_utf8_len_bounds, lex_less, matches_at, stands_at, text_less, to_chars, utf8_len,
};

verus! {

broadcast use crate::text::lemma_text_char_range;

/// A word and what it weighs right next to a value, in tenths.
#[derive(Debug, Clone, Copy, PartialEq, Eq)]
pub struct Cue {
    /// The word.
    pub word: &'static str,
    /// What it weighs, in tenths.
    pub weight: u8,
}

/// A list of words.
#[derive(Debug, Clone, Copy, PartialEq, Eq, Structural)]
pub enum Dictionary {
    Resident,
    Foreigner,
    Business,
    Card,
    Account,
    Phone,
    DriverLicense,
    Passport,
    BirthDate,
    Exclude,
}

/// Words that speak for a resident registration number.
pub const RESIDENT: Dictionary = Dictionary::Resident;

/// Words that speak for the registration number of a foreigner.
pub const FOREIGNER: Dictionary = Dictionary::Foreigner;

/// Words that speak for a business registration number.
pub const BUSINESS: Dictionary = Dictionary::Business;

/// Words that speak for a card number.
pub const CARD: Dictionary = Dictionary::Card;

/// Words that speak for an account number.
pub const ACCOUNT: Dictionary = Dictionary::Account;

/// Words that speak for a phone number.
pub const PHONE: Dictionary = Dictionary::Phone;

/// Words that speak for the number of a driver's licence.
pub const DRIVER_LICENSE: Dictionary = Dictionary::DriverLicense;

/// Words that speak for a passport number.
pub const PASSPORT: Dictionary = Dictionary::Passport;

/// Words that speak for a date of birth.
pub const BIRTH_DATE: Dictionary = Dictionary::BirthDate;

/// Words that speak for a number that belongs to no person.
pub const EXCLUDE: Dictionary = Dictionary::Exclude;

impl Dictionary {
    /// The words of a dictionary, in order.
    pub open spec fn cue_list(self) -> Seq<Cue> {
        match self {
            Dictionary::Resident => seq![
                Cue { word: "주민등록번호", weight: 10 },
                Cue { word: "주민번호", weight: 10 },
                Cue { word: "주민등록", weight: 8 },
                Cue { word: "본인확인", weight: 4 },
                Cue { word: "실명확인", weight: 4 },
            ],
            Dictionary::Foreigner => seq![
                Cue { word: "외국인등록번호", weight: 10 },
                Cue { word: "외국인등록", weight: 8 },
                Cue { word: "외국인", weight: 5 },
                Cue { word: "체류", weight: 4 },
            ],
            Dictionary::Business => seq![
                Cue { word: "사업자등록번호", weight: 10 },
                Cue { word: "사업자번호", weight: 10 },
                Cue { word: "사업자", weight: 6 },
                Cue { word: "세금계산서", weight: 5 },
                Cue { word: "법인", weight: 3 },
                Cue { word: "상호", weight: 3 },
            ],
            Dictionary::Card => seq![
                Cue { word: "카드번호", weight: 10 },
                Cue { word: "신용카드", weight: 10 },
                Cue { word: "체크카드", weight: 10 },
                Cue { word: "유효기간", weight: 5 },
                Cue { word: "카드", weight: 6 },
                Cue { word: "결제", weight: 4 },
                Cue { word: "승인", weight: 3 },
            ],
            Dictionary::Account => seq![
                Cue { word: "계좌번호", weight: 10 },
                Cue { word: "예금주", weight: 9 },
                Cue { word: "계좌", weight: 8 },
                Cue { word: "입금", weight: 7 },
                Cue { word: "이체", weight: 7 },
                Cue { word: "송금", weight: 7 },
                Cue { word: "은행", weight: 6 },
                Cue { word: "환불", weight: 4 },
            ],
            Dictionary::Phone => seq![
                Cue { word: "전화번호", weight: 10 },
                Cue { word: "휴대전화", weight: 10 },
                Cue { word: "휴대폰", weight: 10 },
                Cue { word: "핸드폰", weight: 10 },
                Cue { word: "연락처", weight: 10 },
                Cue { word: "전화", weight: 6 },
                Cue { word: "문자", weight: 4 },
                Cue { word: "통화", weight: 3 },
            ],
            Dictionary::DriverLicense => seq![
                Cue { word: "운전면허번호", weight: 10 },
                Cue { word: "운전면허", weight: 10 },
                Cue { word: "면허번호", weight: 9 },
                Cue { word: "면허증", weight: 8 },
            ],
            Dictionary::Passport => seq![
                Cue { word: "여권번호", weight: 10 },
                Cue { word: "여권", weight: 8 },
            ],
            Dictionary::BirthDate => seq![
                Cue { word: "생년월일", weight: 10 },
                Cue { word: "출생일", weight: 10 },
                Cue { word: "생일", weight: 8 },
                Cue { word: "출생", weight: 6 },
                Cue { word: "년생", weight: 6 },
            ],
            Dictionary::Exclude => seq![
                Cue { word: "증권번호", weight: 10 },
                Cue { word: "계약번호", weight: 10 },
                Cue { word: "접수번호", weight: 10 },
                Cue { word: "참조번호", weight: 10 },
                Cue { word: "관리번호", weight: 10 },
                Cue { word: "주문번호", weight: 10 },
                Cue { word: "송장번호", weight: 10 },
                Cue { word: "운송장번호", weight: 10 },
                Cue { word: "회원번호", weight: 10 },
                Cue { word: "제품 코드", weight: 10 },
                Cue { word: "제품코드", weight: 10 },
                Cue { word: "상품코드", weight: 10 },
                Cue { word: "모델번호", weight: 10 },
                Cue { word: "부품번호", weight: 10 },
                Cue { word: "고객센터", weight: 10 },
                Cue { word: "콜센터", weight: 10 },
                Cue { word: "대표번호", weight: 10 },
                Cue { word: "ARS", weight: 10 },
                Cue { word: "우편번호", weight: 10 },
                Cue { word: "각주", weight: 8 },
                Cue { word: "공지", weight: 8 },
            ],
        }
    }

    /// The words of the dictionary, in order.
    pub fn cues(self) -> (r: Vec<Cue>)
        ensures
            r@ == self.cue_list(),
    {
        let r: Vec<Cue> = match self {
            Dictionary::Resident => vec![
                Cue { word: "주민등록번호", weight: 10 },
                Cue { word: "주민번호", weight: 10 },
                Cue { word: "주민등록", weight: 8 },
                Cue { word: "본인확인", weight: 4 },
                Cue { word: "실명확인", weight: 4 },
            ],
            Dictionary::Foreigner => vec![
                Cue { word: "외국인등록번호", weight: 10 },
                Cue { word: "외국인등록", weight: 8 },
                Cue { word: "외국인", weight: 5 },
                Cue { word: "체류", weight: 4 },
            ],
            Dictionary::Business => vec![
                Cue { word: "사업자등록번호", weight: 10 },
                Cue { word: "사업자번호", weight: 10 },
                Cue { word: "사업자", weight: 6 },
                Cue { word: "세금계산서", weight: 5 },
                Cue { word: "법인", weight: 3 },
                Cue { word: "상호", weight: 3 },
            ],
            Dictionary::Card => vec![
                Cue { word: "카드번호", weight: 10 },
                Cue { word: "신용카드", weight: 10 },
                Cue { word: "체크카드", weight: 10 },
                Cue { word: "유효기간", weight: 5 },
                Cue { word: "카드", weight: 6 },
                Cue { word: "결제", weight: 4 },
                Cue { word: "승인", weight: 3 },
            ],
            Dictionary::Account => vec![
                Cue { word: "계좌번호", weight: 10 },
                Cue { word: "예금주", weight: 9 },
                Cue { word: "계좌", weight: 8 },
                Cue { word: "입금", weight: 7 },
                Cue { word: "이체", weight: 7 },
                Cue { word: "송금", weight: 7 },
                Cue { word: "은행", weight: 6 },
                Cue { word: "환불", weight: 4 },
            ],
            Dictionary::Phone => vec![
                Cue { word: "전화번호", weight: 10 },
                Cue { word: "휴대전화", weight: 10 },
                Cue { word: "휴대폰", weight: 10 },
                Cue { word: "핸드폰", weight: 10 },
                Cue { word: "연락처", weight: 10 },
                Cue { word: "전화", weight: 6 },
                Cue { word: "문자", weight: 4 },
                Cue { word: "통화", weight: 3 },
            ],
            Dictionary::DriverLicense => vec![
                Cue { word: "운전면허번호", weight: 10 },
                Cue { word: "운전면허", weight: 10 },
                Cue { word: "면허번호", weight: 9 },
                Cue { word: "면허증", weight: 8 },
            ],
            Dictionary::Passport => vec![
                Cue { word: "여권번호", weight: 10 },
                Cue { word: "여권", weight: 8 },
            ],
            Dictionary::BirthDate => vec![
                Cue { word: "생년월일", weight: 10 },
                Cue { word: "출생일", weight: 10 },
                Cue { word: "생일", weight: 8 },
                Cue { word: "출생", weight: 6 },
                Cue { word: "년생", weight: 6 },
            ],
            Dictionary::Exclude => vec![
                Cue { word: "증권번호", weight: 10 },
                Cue { word: "계약번호", weight: 10 },
                Cue { word: "접수번호", weight: 10 },
                Cue { word: "참조번호", weight: 10 },
                Cue { word: "관리번호", weight: 10 },
                Cue { word: "주문번호", weight: 10 },
                Cue { word: "송장번호", weight: 10 },
                Cue { word: "운송장번호", weight: 10 },
                Cue { word: "회원번호", weight: 10 },
                Cue { word: "제품 코드", weight: 10 },
                Cue { word: "제품코드", weight: 10 },
                Cue { word: "상품코드", weight: 10 },
                Cue { word: "모델번호", weight: 10 },
                Cue { word: "부품번호", weight: 10 },
                Cue { word: "고객센터", weight: 10 },
                Cue { word: "콜센터", weight: 10 },
                Cue { word: "대표번호", weight: 10 },
                Cue { word: "ARS", weight: 10 },
                Cue { word: "우편번호", weight: 10 },
                Cue { word: "각주", weight: 8 },
                Cue { word: "공지", weight: 8 },
            ],
        };
        assert(r@ =~= self.cue_list());
        r
    }
}

/// A word found near a value.
#[derive(Debug, Clone, Copy, PartialEq, Eq)]
pub struct CueHit {
    /// The word and its weight.
    pub cue: Cue,
    /// The number of characters between the word and the value.
    pub distance: u32,
}

/// The distance, at least `d`, of the nearest place before position `a` where the word stands,
/// within a window of `w` characters.
pub open spec fn nearest_before(t: Seq<char>, a: int, w: int, word: Seq<char>, d: int) -> Option<int>
    decreases a - d + 1,
{
    if d < 0 || d + word.len() > w || d + word.len() > a {
        None
    } else if stands_at(t, a - d - word.len(), word) {
        Some(d)
    } else {
        nearest_before(t, a, w, word, d + 1)
    }
}

/// The distance, at least `d`, of the nearest place from position `e` on where the word stands,
/// within a window of `w` characters.
pub open spec fn nearest_behind(t: Seq<char>, e: int, w: int, word: Seq<char>, d: int) -> Option<int>
    decreases t.len() - e - d + 1,
{
    if d < 0 || d + word.len() > w || e + d + word.len() > t.len() {
        None
    } else if stands_at(t, e + d, word) {
        Some(d)
    } else {
        nearest_behind(t, e, w, word, d + 1)
    }
}

/// The distance of the nearest place where the word stands, on either side of the stretch from `a`
/// up to `e`.
pub open spec fn nearest(t: Seq<char>, a: int, e: int, w: int, word: Seq<char>) -> Option<int> {
    match (nearest_before(t, a, w, word, 0), nearest_behind(t, e, w, word, 0)) {
        (Some(x), Some(y)) => Some(if x <= y {
            x
        } else {
            y
        }),
        (Some(x), None) => Some(x),
        (None, y) => y,
    }
}

/// The words found near a stretch, in the order of their list.
pub open spec fn hits_of(t: Seq<char>, a: int, e: int, w: int, cues: Seq<Cue>) -> Seq<CueHit>
    decreases cues.len(),
{
    if cues.len() == 0 {
        Seq::empty()
    } else {
        let rest = hits_of(t, a, e, w, cues.drop_last());
        match nearest(t, a, e, w, cues.last().word@) {
            Some(d) => rest.push(CueHit { cue: cues.last(), distance: d as u32 }),
            None => rest,
        }
    }
}

fn find_before(chars: &[char], a: usize, window: u32, word: &Vec<char>) -> (r: Option<u32>)
    requires
        a <= chars@.len(),
        chars@.len() <= u32::MAX,
    ensures
        r is Some <==> nearest_before(chars@, a as int, window as int, word@, 0) is Some,
        r matches Some(d) ==> nearest_before(chars@, a as int, window as int, word@, 0) == Some(d as int),
{
    let n: usize = word.len();
    let limit: usize = if (window as usize) < a {
        window as usize
    } else {
        a
    };
    let mut d: usize = 0;
    while n <= limit && d <= limit - n
        invariant
            a <= chars@.len() <= u32::MAX,
            n == word@.len(),
            limit <= a,
            limit <= window,
            limit == a || limit == window,
            d <= a,
            nearest_before(chars@, a as int, window as int, word@, 0) == nearest_before(
                chars@,
                a as int,
                window as int,
                word@,
                d as int,
            ),
        decreases a - d,
    {
        if matches_at(chars, a - d - n, word.as_slice()) {
            return Some(d as u32);
        }
        assert(n > 0) by {
            if n == 0 {
                assert(chars@.subrange(a - d - n, a - d - n + n) =~= word@);
            }
        }
        d += 1;
    }
    None
}

fn find_behind(chars: &[char], e: usize, window: u32, word: &Vec<char>) -> (r: Option<u32>)
    requires
        e <= chars@.len(),
        chars@.len() <= u32::MAX,
    ensures
        r is Some <==> nearest_behind(chars@, e as int, window as int, word@, 0) is Some,
        r matches Some(d) ==> nearest_behind(chars@, e as int, window as int, word@, 0) == Some(d as int),
{
    let n: usize = word.len();
    let left: usize = chars.len() - e;
    let limit: usize = if (window as usize) < left {
        window as usize
    } else {
        left
    };
    let mut d: usize = 0;
    while n <= limit && d <= limit - n
        invariant
            e <= chars@.len() <= u32::MAX,
            n == word@.len(),
            left == chars@.len() - e,
            limit <= left,
            limit <= window,
            limit == left || limit == window,
            d <= left,
            nearest_behind(chars@, e as int, window as int, word@, 0) == nearest_behind(
                chars@,
                e as int,
                window as int,
                word@,
                d as int,
            ),
        decreases left - d,
    {
        if matches_at(chars, e + d, word.as_slice()) {
            return Some(d as u32);
        }
        assert(n > 0) by {
            if n == 0 {
                assert(chars@.subrange(e + d, e + d + n) =~= word@);
            }
        }
        d += 1;
    }
    None
}

/// Finds words in a window of `window` characters on both sides of a span.
///
/// Of a word that stands there more than once only the nearest place counts. The words come in the
/// order of the list.
pub fn find(text: &str, span: &Span, window: u32, cues: &[Cue]) -> (r: Vec<CueHit>)
    requires
        utf8_len(text@) <= u32::MAX,
        span.within(text@),
    ensures
        r@ == hits_of(text@, span.char.start as int, span.char.end as int, window as int, cues@),
{
    let chars = to_chars(text);
    proof {
        lemma_utf8_len_bounds(text@);
    }
    find_in(chars.as_slice(), span.char.start as usize, span.char.end as usize, window, cues)
}

/// Finds words around the stretch from `a` up to `e`.
pub fn find_in(chars: &[char], a: usize, e: usize, window: u32, cues: &[Cue]) -> (r: Vec<CueHit>)
    requires
        a <= e <= chars@.len(),
        chars@.len() <= u32::MAX,
    ensures
        r@ == hits_of(chars@, a as int, e as int, window as int, cues@),
{
    let mut out: Vec<CueHit> = Vec::new();
    let mut i: usize = 0;
    while i < cues.len()
        invariant
            a <= e <= chars@.len(),
            chars@.len() <= u32::MAX,
            i <= cues@.len(),
            out@ == hits_of(chars@, a as int, e as int, window as int, cues@.take(i as int)),
        decreases cues@.len() - i,
    {
        let cue = cues[i];
        let word = to_chars(cue.word);
        let before = find_before(chars, a, window, &word);
        let behind = find_behind(chars, e, window, &word);
        let best: Option<u32> = match (before, behind) {
            (Some(x), Some(y)) => Some(
                if x <= y {
                    x
                } else {
                    y
                },
            ),
            (Some(x), None) => Some(x),
            (None, y) => y,
        };
        proof {
            let next = cues@.take(i + 1);
            assert(next.drop_last() =~= cues@.take(i as int));
            assert(next.last() == cue);
        }
        if let Some(distance) = best {
            out.push(CueHit { cue, distance });
        }
        i += 1;
    }
    assert(cues@.take(i as int) =~= cues@);
    out
}

/// A real number that is not computed with here, only compared: a greater key stands for a greater
/// number.
#[derive(Debug, Clone, Copy, PartialEq, Eq, Structural)]
pub struct Score {
    /// The place of the number in the order of all numbers.
    pub key: u32,
}

/// A word found near a value, and what it weighs at its distance.
#[derive(Debug, Clone, Copy, PartialEq, Eq)]
pub struct ContextHit {
    /// The word.
    pub cue: &'static str,
    /// The number of characters between the word and the value.
    pub distance: u32,
    /// What it weighs at that distance.
    pub weight: Score,
}

impl ContextHit {
    /// A heavier word comes first; of equally heavy words, the one that is first by code point.
    pub open spec fn precedes(self, other: ContextHit) -> bool {
        self.weight.key > other.weight.key || (self.weight.key == other.weight.key && lex_less(self.cue@, other.cue@))
    }
}

/// Where a hit belongs in a list that is in order: behind all that it does not precede.
pub open spec fn place_of(hits: Seq<ContextHit>, hit: ContextHit) -> int
    decreases hits.len(),
{
    if hits.len() > 0 && hit.precedes(hits.last()) {
        place_of(hits.drop_last(), hit)
    } else {
        hits.len() as int
    }
}

/// The hits in order.
pub open spec fn ranked(hits: Seq<ContextHit>) -> Seq<ContextHit>
    decreases hits.len(),
{
    if hits.len() == 0 {
        Seq::empty()
    } else {
        let rest = ranked(hits.drop_last());
        rest.insert(place_of(rest, hits.last()), hits.last())
    }
}

fn precedes(a: &ContextHit, b: &ContextHit) -> (r: bool)
    ensures
        r == a.precedes(*b),
{
    a.weight.key > b.weight.key || (a.weight.key == b.weight.key && text_less(a.cue, b.cue))
}

proof fn lemma_place_of(hits: Seq<ContextHit>, hit: ContextHit)
    ensures
        0 <= place_of(hits, hit) <= hits.len(),
        forall|i: int| place_of(hits, hit) <= i < hits.len() ==> hit.precedes(#[trigger] hits[i]),
        place_of(hits, hit) > 0 ==> !hit.precedes(hits[place_of(hits, hit) - 1]),
    decreases hits.len(),
{
    if hits.len() > 0 && hit.precedes(hits.last()) {
        let init = hits.drop_last();
        lemma_place_of(init, hit);
        assert forall|i: int| place_of(hits, hit) <= i < hits.len() implies hit.precedes(#[trigger] hits[i]) by {
            if i < init.len() {
                assert(init[i] == hits[i]);
            }
        }
    }
}

/// Brings hits in order: heavier words first, and equally heavy words by code point.
pub fn rank(hits: Vec<ContextHit>) -> (r: Vec<ContextHit>)
    ensures
        r@ == ranked(hits@),
{
    let mut out: Vec<ContextHit> = Vec::new();
    let mut i: usize = 0;
    while i < hits.len()
        invariant
            i <= hits@.len(),
            out@ == ranked(hits@.take(i as int)),
            out@.len() == i,
        decreases hits@.len() - i,
    {
        let hit = hits[i];
        let mut at: usize = out.len();
        assert(out@.take(at as int) =~= out@);
        while at > 0 && precedes(&hit, &out[at - 1])
            invariant
                at <= out@.len(),
                place_of(out@.take(at as int), hit) == place_of(out@, hit),
            decreases at,
        {
            assert(out@.take(at as int).drop_last() =~= out@.take(at - 1));
            at -= 1;
        }
        proof {
            if at > 0 {
                assert(out@.take(at as int).last() == out@[at - 1]);
            }
            let next = hits@.take(i + 1);
            assert(next.drop_last() =~= hits@.take(i as int));
            assert(next.last() == hit);
        }
        out.insert(at, hit);
        i += 1;
    }
    assert(hits@.take(i as int) =~= hits@);
    out
}

/// What comes before something comes before all that does not come before that.
proof fn lemma_precedes_through(a: ContextHit, b: ContextHit, c: ContextHit)
    requires
        a.precedes(b),
        !c.precedes(b),
    ensures
        a.precedes(c),
{
    if a.weight.key == b.weight.key && b.weight.key == c.weight.key {
        lemma_lex_total(c.cue@, b.cue@);
        if lex_less(b.cue@, c.cue@) {
            lemma_lex_transitive(a.cue@, b.cue@, c.cue@);
        }
    }
}

proof fn lemma_precedes_asymmetric(a: ContextHit, b: ContextHit)
    requires
        a.precedes(b),
    ensures
        !b.precedes(a),
{
    if a.weight.key == b.weight.key && lex_less(b.cue@, a.cue@) {
        lemma_lex_transitive(a.cue@, b.cue@, a.cue@);
        lemma_lex_irreflexive(a.cue@);
    }
}

/// Ranking neither drops nor adds a hit, and no hit comes behind one that it precedes.
pub proof fn law_ranking_orders(hits: Seq<ContextHit>)
    ensures
        ranked(hits).len() == hits.len(),
        ranked(hits).to_multiset() == hits.to_multiset(),
        forall|i: int, j: int|
            0 <= i < j < ranked(hits).len() ==> !(#[trigger] ranked(hits)[j]).precedes(#[trigger] ranked(hits)[i]),
    decreases hits.len(),
{
    if hits.len() == 0 {
        assert(ranked(hits) =~= hits);
    } else {
        let init = hits.drop_last();
        let hit = hits.last();
        let rest = ranked(init);
        let at = place_of(rest, hit);
        law_ranking_orders(init);
        lemma_place_of(rest, hit);
        assert(hits =~= init.push(hit));
        lemma_insert_multiset(rest, at, hit);
        lemma_insert_multiset(init, init.len() as int, hit);
        assert(init.insert(init.len() as int, hit) =~= hits);
        let all = ranked(hits);
        assert forall|i: int, j: int| 0 <= i < j < all.len() implies !(#[trigger] all[j]).precedes(#[trigger] all[i]) by {
            if i < at && j == at {
                if hit.precedes(rest[i]) {
                    let k = rest[at - 1];
                    assert(!hit.precedes(k));
                    lemma_precedes_through(hit, rest[i], k);
                    if i < at - 1 {
                        assert(!k.precedes(rest[i]));
                    }
                }
            } else if i == at {
                assert(hit.precedes(rest[j - 1]));
                lemma_precedes_asymmetric(hit, rest[j - 1]);
            } else {
                let a = if i < at {
                    i
                } else {
                    i - 1
                };
                let b = if j < at {
                    j
                } else {
                    j - 1
                };
                assert(all[i] == rest[a]);
                assert(all[j] == rest[b]);
            }
        }
    }
}

} // verus!
