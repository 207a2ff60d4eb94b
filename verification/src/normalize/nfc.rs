//! First pass: composing Hangul jamo.
//!
//! Text from some systems holds Hangul decomposed into conjoining jamo: one syllable arrives as
//! two or three code points. Composition is arithmetic on code points and needs no table. Only
//! Hangul is composed. Compatibility jamo (from U+3131 on) stand for the letters themselves and
//! are left alone.

use vstd::prelude::*;
use crate::normalize::walk::{lemma_first_step, lemma_keep_one, lemma_take_step, Walk};
use crate::span::builder::replacement;
use crate::span::steps::{dst_of, src_of, valid, Step};
use crate::span::{RuleId, SpanMap};
use crate::text::{lemma_char_of, lemma_utf8_len_split, utf8_len};

verus! {

broadcast use crate::text::lemma_text_char_range;

/// Jamo were composed.
pub const RULE_JAMO: RuleId = "nfc.hangul_jamo";

const L_BASE: u32 = 0x1100;

const V_BASE: u32 = 0x1161;

/// One below the first trailing consonant, so that zero stands for none.
const T_BASE: u32 = 0x11A7;

const S_BASE: u32 = 0xAC00;

const V_COUNT: u32 = 21;

const T_COUNT: u32 = 28;

const S_COUNT: u32 = 11172;

/// A conjoining leading consonant.
pub open spec fn is_lead(c: char) -> bool {
    0x1100 <= c as u32 <= 0x1112
}

/// A conjoining vowel.
pub open spec fn is_vowel(c: char) -> bool {
    0x1161 <= c as u32 <= 0x1175
}

/// A conjoining trailing consonant.
pub open spec fn is_trail(c: char) -> bool {
    0x11A8 <= c as u32 <= 0x11C2
}

/// A syllable without trailing consonant.
pub open spec fn is_open_syllable(c: char) -> bool {
    0xAC00 <= c as u32 <= 0xD7A3 && (c as u32 - 0xAC00) % 28 == 0
}

/// The syllable with the given leading consonant, vowel and, unless zero, trailing consonant.
pub open spec fn syllable(l: int, v: int, t: int) -> char {
    (0xAC00 + (l * 21 + v) * 28 + t) as char
}

/// The syllable that begins at position `i`, and the number of characters that it is made of.
pub open spec fn composed(s: Seq<char>, i: int) -> Option<(char, int)> {
    if is_lead(s[i]) && i + 1 < s.len() && is_vowel(s[i + 1]) {
        let l = s[i] as int - 0x1100;
        let v = s[i + 1] as int - 0x1161;
        if i + 2 < s.len() && is_trail(s[i + 2]) {
            Some((syllable(l, v, s[i + 2] as int - 0x11A7), 3))
        } else {
            Some((syllable(l, v, 0), 2))
        }
    } else if is_open_syllable(s[i]) && i + 1 < s.len() && is_trail(s[i + 1]) {
        Some(((s[i] as int + (s[i + 1] as int - 0x11A7)) as char, 2))
    } else {
        None
    }
}

/// The steps of the pass from position `i` on.
pub open spec fn nfc_steps(s: Seq<char>, i: int) -> Seq<Step>
    decreases s.len() - i,
{
    if i < 0 || i >= s.len() {
        Seq::empty()
    } else {
        match composed(s, i) {
            Some((c, n)) => seq![replacement(s.subrange(i, i + n), seq![c], RULE_JAMO@)] + nfc_steps(s, i + n),
            None => seq![Step::Keep { c: s[i] }] + nfc_steps(s, i + 1),
        }
    }
}

/// `char::from_u32` gives the character with a code point, if the code point is a scalar value.
pub assume_specification[ char::from_u32 ](i: u32) -> (r: Option<char>)
    ensures
        r is Some <==> i <= 0xd7ff || 0xe000 <= i <= 0x10ffff,
        r matches Some(c) ==> c as u32 == i,
;

/// The syllable that begins at position `i`, and the number of characters that it is made of.
fn compose_at(cs: &[char], i: usize) -> (r: Option<(char, usize)>)
    requires
        i < cs@.len(),
    ensures
        r is Some <==> composed(cs@, i as int) is Some,
        r matches Some(p) ==> composed(cs@, i as int) == Some((p.0, p.1 as int)),
{
    let c0: u32 = cs[i] as u32;
    let left: usize = cs.len() - i;
    if L_BASE <= c0 && c0 <= 0x1112 {
        if left < 2 {
            return None;
        }
        let c1: u32 = cs[i + 1] as u32;
        if c1 < V_BASE || c1 > 0x1175 {
            return None;
        }
        let l: u32 = c0 - L_BASE;
        let v: u32 = c1 - V_BASE;
        let mut t: u32 = 0;
        let mut consumed: usize = 2;
        if left > 2 {
            let c2: u32 = cs[i + 2] as u32;
            if T_BASE < c2 && c2 <= 0x11C2 {
                t = c2 - T_BASE;
                consumed = 3;
            }
        }
        let s: u32 = S_BASE + (l * V_COUNT + v) * T_COUNT + t;
        return match char::from_u32(s) {
            Some(c) => {
                proof {
                    lemma_char_of(c, s as int);
                }
                Some((c, consumed))
            },
            None => None,
        };
    }
    if S_BASE <= c0 && c0 < S_BASE + S_COUNT && (c0 - S_BASE) % T_COUNT == 0 && left > 1 {
        let c1: u32 = cs[i + 1] as u32;
        if T_BASE < c1 && c1 <= 0x11C2 {
            let s: u32 = c0 + (c1 - T_BASE);
            return match char::from_u32(s) {
                Some(c) => {
                    proof {
                        lemma_char_of(c, s as int);
                    }
                    Some((c, 2))
                },
                None => None,
            };
        }
    }
    None
}

/// The pass consumes what is left of the text, and its output is no longer than that.
pub proof fn lemma_nfc_steps(s: Seq<char>, i: int)
    requires
        0 <= i <= s.len(),
    ensures
        valid(nfc_steps(s, i)),
        src_of(nfc_steps(s, i)) == s.skip(i),
        utf8_len(dst_of(nfc_steps(s, i))) <= utf8_len(s.skip(i)),
    decreases s.len() - i,
{
    if i < s.len() {
        let (step, n) = match composed(s, i) {
            Some((c, n)) => (replacement(s.subrange(i, i + n), seq![c], RULE_JAMO@), n),
            None => (Step::Keep { c: s[i] }, 1int),
        };
        lemma_nfc_steps(s, i + n);
        lemma_keep_one(s, i);
        lemma_first_step(s, i, n, step, nfc_steps(s, i + n));
        reveal_with_fuel(utf8_len, 4);
        let part = s.subrange(i, i + n);
        if n >= 2 {
            lemma_utf8_len_split(part, 2, n);
            assert(part.take(2).drop_last() =~= seq![part[0]]);
        }
    } else {
        assert(s.skip(i) =~= Seq::<char>::empty());
    }
}

/// Composes jamo.
pub fn apply(text: &str) -> (r: (String, SpanMap))
    requires
        utf8_len(text@) <= u32::MAX,
    ensures
        r.0@ == dst_of(nfc_steps(text@, 0)),
        r.1.of(nfc_steps(text@, 0)),
{
    let ghost t = text@;
    let mut walk = Walk::new(text);
    proof {
        lemma_nfc_steps(t, 0);
        assert(t.skip(0) =~= t);
        assert(Seq::<Step>::empty() + nfc_steps(t, 0) =~= nfc_steps(t, 0));
    }
    while walk.position() < walk.chars().len()
        invariant
            walk.wf(),
            walk.over() == t,
            walk@ + nfc_steps(t, walk.pos()) == nfc_steps(t, 0),
            utf8_len(dst_of(nfc_steps(t, 0))) <= u32::MAX,
        decreases t.len() - walk.pos(),
    {
        let ghost before = walk@;
        let i: usize = walk.position();
        match compose_at(walk.chars().as_slice(), i) {
            Some((c, n)) => {
                let mut dst = String::new();
                dst.push(c);
                proof {
                    assert(dst@ =~= seq![c]);
                    lemma_take_step(
                        before,
                        replacement(t.subrange(i as int, i + n), dst@, RULE_JAMO@),
                        nfc_steps(t, i + n),
                    );
                }
                walk.replace(n, dst.as_str(), RULE_JAMO);
            },
            None => {
                walk.pass(1);
                proof {
                    lemma_keep_one(t, i as int);
                    lemma_take_step(before, Step::Keep { c: t[i as int] }, nfc_steps(t, i + 1));
                }
            },
        }
    }
    proof {
        assert(walk@ + nfc_steps(t, walk.pos()) =~= walk@);
    }
    walk.finish()
}

} // verus!
