//! Second pass: folding full-width forms, spaces and dashes.
//!
//! Only different forms of one character are unified. Letters that look like digits are left
//! alone here: replacing them everywhere would turn `POLO` into `P0L0`.
//!
//! Every fold replaces one character by one character and is a step of its own, so that no span
//! of the output ever divides a fold.

use vstd::prelude::*;
use crate::normalize::walk::{lemma_first_step, lemma_keep_one, lemma_take_step, Walk};
use crate::span::builder::replacement;
use crate::span::steps::{dst_of, src_of, valid, Step};
use crate::span::{RuleId, SpanMap};
use crate::text::{char_width, lemma_char_of, utf8_len};

verus! {

broadcast use crate::text::lemma_text_char_range;

/// A full-width letter, digit or sign was folded.
pub const RULE_FULLWIDTH: RuleId = "fold.fullwidth";

/// A space of another width was folded.
pub const RULE_SPACE: RuleId = "fold.space";

/// A dash was folded.
pub const RULE_DASH: RuleId = "fold.dash";

/// The full-width forms of the visible ASCII characters.
pub open spec fn is_fullwidth(c: char) -> bool {
    0xFF01 <= c as u32 <= 0xFF5E
}

/// Spaces of other widths.
pub open spec fn is_wide_space(c: char) -> bool {
    let v = c as u32;
    v == 0x00A0 || 0x2000 <= v <= 0x200A || v == 0x202F || v == 0x205F || v == 0x3000
}

/// Dashes of all kinds.
pub open spec fn is_dash(c: char) -> bool {
    let v = c as u32;
    v == 0x00AD || 0x2010 <= v <= 0x2015 || v == 0x2043 || v == 0x2212 || v == 0xFE58 || v == 0xFE63
}

/// What a character is folded to, and by which rule.
pub open spec fn folded(c: char) -> Option<(char, Seq<char>)> {
    if is_fullwidth(c) {
        Some(((c as int - 0xFEE0) as char, RULE_FULLWIDTH@))
    } else if is_wide_space(c) {
        Some((' ', RULE_SPACE@))
    } else if is_dash(c) {
        Some(('-', RULE_DASH@))
    } else {
        None
    }
}

/// The step that folds one character.
pub open spec fn fold_step(c: char) -> Step {
    match folded(c) {
        Some((d, rule)) => replacement(seq![c], seq![d], rule),
        None => Step::Keep { c },
    }
}

/// The steps of the pass from position `i` on: one for each character.
pub open spec fn fold_steps(s: Seq<char>, i: int) -> Seq<Step>
    decreases s.len() - i,
{
    if i < 0 || i >= s.len() {
        Seq::empty()
    } else {
        seq![fold_step(s[i])] + fold_steps(s, i + 1)
    }
}

fn fold_char(c: char) -> (r: Option<(char, RuleId)>)
    ensures
        r is Some <==> folded(c) is Some,
        r matches Some(p) ==> folded(c) == Some((p.0, p.1@)),
{
    let v: u32 = c as u32;
    if 0xFF01 <= v && v <= 0xFF5E {
        return match char::from_u32(v - 0xFEE0) {
            Some(d) => {
                proof {
                    lemma_char_of(d, v - 0xFEE0);
                }
                Some((d, RULE_FULLWIDTH))
            },
            None => None,
        };
    }
    if v == 0x00A0 || (0x2000 <= v && v <= 0x200A) || v == 0x202F || v == 0x205F || v == 0x3000 {
        return Some((' ', RULE_SPACE));
    }
    if v == 0x00AD || (0x2010 <= v && v <= 0x2015) || v == 0x2043 || v == 0x2212 || v == 0xFE58 || v == 0xFE63 {
        return Some(('-', RULE_DASH));
    }
    None
}

/// The pass consumes what is left of the text, and its output is no longer than that.
pub proof fn lemma_fold_steps(s: Seq<char>, i: int)
    requires
        0 <= i <= s.len(),
    ensures
        valid(fold_steps(s, i)),
        src_of(fold_steps(s, i)) == s.skip(i),
        utf8_len(dst_of(fold_steps(s, i))) <= utf8_len(s.skip(i)),
    decreases s.len() - i,
{
    if i < s.len() {
        let step = fold_step(s[i]);
        lemma_fold_steps(s, i + 1);
        lemma_keep_one(s, i);
        lemma_first_step(s, i, 1, step, fold_steps(s, i + 1));
        reveal_with_fuel(utf8_len, 2);
        lemma_fold_width(s[i]);
        assert(step.dst().drop_last() =~= Seq::<char>::empty());
        assert(step.src().drop_last() =~= Seq::<char>::empty());
    } else {
        assert(s.skip(i) =~= Seq::<char>::empty());
    }
}

proof fn lemma_fold_width(c: char)
    ensures
        fold_step(c).dst().len() == 1,
        fold_step(c).src() == seq![c],
        char_width(fold_step(c).dst()[0]) <= char_width(c),
{
}

/// Folds full-width forms, spaces and dashes.
pub fn apply(text: &str) -> (r: (String, SpanMap))
    requires
        utf8_len(text@) <= u32::MAX,
    ensures
        r.0@ == dst_of(fold_steps(text@, 0)),
        r.1.of(fold_steps(text@, 0)),
{
    let ghost t = text@;
    let mut walk = Walk::new(text);
    proof {
        lemma_fold_steps(t, 0);
        assert(t.skip(0) =~= t);
        assert(Seq::<Step>::empty() + fold_steps(t, 0) =~= fold_steps(t, 0));
    }
    while walk.position() < walk.chars().len()
        invariant
            walk.wf(),
            walk.over() == t,
            walk@ + fold_steps(t, walk.pos()) == fold_steps(t, 0),
            utf8_len(dst_of(fold_steps(t, 0))) <= u32::MAX,
        decreases t.len() - walk.pos(),
    {
        let ghost before = walk@;
        let i: usize = walk.position();
        let c: char = walk.chars()[i];
        proof {
            lemma_keep_one(t, i as int);
            lemma_take_step(before, fold_step(c), fold_steps(t, i + 1));
        }
        match fold_char(c) {
            Some((d, rule)) => {
                let mut dst = String::new();
                dst.push(d);
                assert(dst@ =~= seq![d]);
                walk.replace(1, dst.as_str(), rule);
            },
            None => {
                walk.pass(1);
            },
        }
    }
    proof {
        assert(walk@ + fold_steps(t, walk.pos()) =~= walk@);
    }
    walk.finish()
}

} // verus!
