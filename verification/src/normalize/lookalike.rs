//! Fourth pass: letters that stand in for digits.
//!
//! The `O` in `88O1O1` is a letter written for a zero. It is replaced only where a digit place
//! lies on both sides, so that `POLO` and `50l` stay as they are. Separators are still present
//! when this pass runs, and are looked over: in `88-O1-O1` both letters have digits on both sides.

use vstd::prelude::*;
use crate::normalize::walk::{lemma_first_step, lemma_keep_one, lemma_take_step, Walk};
use crate::span::builder::replacement;
use crate::span::steps::{dst_of, src_of, valid, Step};
use crate::span::{RuleId, SpanMap};
use crate::text::{digit_like, is_digit, utf8_len};

verus! {

broadcast use crate::text::lemma_text_char_range;

/// A letter was read as a digit.
pub const RULE_LOOKALIKE: RuleId = "lookalike.digit";

/// The digit that a letter can stand for.
pub open spec fn meant_digit(c: char) -> Option<char> {
    if c == 'O' || c == 'o' {
        Some('0')
    } else if c == 'l' || c == 'I' {
        Some('1')
    } else {
        None
    }
}

/// A digit, or a character that hides one.
pub open spec fn is_digit_place(c: char) -> bool {
    is_digit(c) || c == '*' || c == 'X' || c == 'x'
}

/// A separator that is looked over.
pub open spec fn is_skipped(c: char) -> bool {
    c == '-' || c == '.' || c == ',' || c == '(' || c == ')' || c == '·' || c == '・' || c == ' ' || c == '\t'
}

/// Before position `i` a digit place comes, with nothing but separators between.
pub open spec fn digit_before(s: Seq<char>, i: int) -> bool {
    exists|j: int| 0 <= j < i && is_digit_place(#[trigger] s[j]) && forall|k: int| j < k < i ==> is_skipped(#[trigger] s[k])
}

/// Behind position `i` a digit place comes, with nothing but separators between.
pub open spec fn digit_behind(s: Seq<char>, i: int) -> bool {
    exists|j: int|
        i < j < s.len() && is_digit_place(#[trigger] s[j]) && forall|k: int| i < k < j ==> is_skipped(#[trigger] s[k])
}

/// The step for position `i`.
pub open spec fn lookalike_step(s: Seq<char>, i: int) -> Step {
    if meant_digit(s[i]) is Some && digit_before(s, i) && digit_behind(s, i) {
        replacement(seq![s[i]], seq![meant_digit(s[i]).unwrap()], RULE_LOOKALIKE@)
    } else {
        Step::Keep { c: s[i] }
    }
}

/// The steps of the pass from position `i` on: one for each character.
pub open spec fn lookalike_steps(s: Seq<char>, i: int) -> Seq<Step>
    decreases s.len() - i,
{
    if i < 0 || i >= s.len() {
        Seq::empty()
    } else {
        seq![lookalike_step(s, i)] + lookalike_steps(s, i + 1)
    }
}

fn lookalike_digit(c: char) -> (r: Option<char>)
    ensures
        r == meant_digit(c),
{
    match c {
        'O' | 'o' => Some('0'),
        'l' | 'I' => Some('1'),
        _ => None,
    }
}

fn is_digit_like(c: char) -> (r: bool)
    ensures
        r == is_digit_place(c),
{
    digit_like(c) || c == '*' || c == 'X' || c == 'x'
}

fn is_skippable(c: char) -> (r: bool)
    ensures
        r == is_skipped(c),
{
    c == '-' || c == '.' || c == ',' || c == '(' || c == ')' || c == '·' || c == '・' || c == ' ' || c == '\t'
}

/// Whether a digit place lies on one side of a position, looking over separators.
fn side_is_digit(chars: &[char], at: usize, forward: bool) -> (r: bool)
    requires
        at < chars@.len(),
    ensures
        r == if forward {
            digit_behind(chars@, at as int)
        } else {
            digit_before(chars@, at as int)
        },
{
    let n: usize = chars.len();
    if forward {
        let mut index: usize = at + 1;
        while index < n
            invariant
                forward,
                n == chars@.len(),
                at < index <= chars@.len(),
                forall|k: int| at < k < index ==> is_skipped(#[trigger] chars@[k]),
            decreases chars@.len() - index,
        {
            let c: char = chars[index];
            if is_digit_like(c) {
                assert(is_digit_place(chars@[index as int]));
                return true;
            }
            if !is_skippable(c) {
                proof {
                    if digit_behind(chars@, at as int) {
                        let j = choose|j: int|
                            at < j < chars@.len() && is_digit_place(#[trigger] chars@[j]) && forall|k: int|
                                at < k < j ==> is_skipped(#[trigger] chars@[k]);
                        if j < index {
                            assert(is_skipped(chars@[j]));
                        } else if j > index {
                            assert(is_skipped(chars@[index as int]));
                        }
                    }
                }
                return false;
            }
            index += 1;
        }
        proof {
            if digit_behind(chars@, at as int) {
                let j = choose|j: int|
                    at < j < chars@.len() && is_digit_place(#[trigger] chars@[j]) && forall|k: int|
                        at < k < j ==> is_skipped(#[trigger] chars@[k]);
                assert(is_skipped(chars@[j]));
            }
        }
        return false;
    }
    let mut index: usize = at;
    while index > 0
        invariant
            !forward,
            0 <= index <= at < chars@.len(),
            forall|k: int| index <= k < at ==> is_skipped(#[trigger] chars@[k]),
        decreases index,
    {
        index -= 1;
        let c: char = chars[index];
        if is_digit_like(c) {
            assert(is_digit_place(chars@[index as int]));
            return true;
        }
        if !is_skippable(c) {
            proof {
                if digit_before(chars@, at as int) {
                    let j = choose|j: int|
                        0 <= j < at && is_digit_place(#[trigger] chars@[j]) && forall|k: int|
                            j < k < at ==> is_skipped(#[trigger] chars@[k]);
                    if j > index {
                        assert(is_skipped(chars@[j]));
                    } else if j < index {
                        assert(is_skipped(chars@[index as int]));
                    }
                }
            }
            return false;
        }
    }
    proof {
        if digit_before(chars@, at as int) {
            let j = choose|j: int|
                0 <= j < at && is_digit_place(#[trigger] chars@[j]) && forall|k: int|
                    j < k < at ==> is_skipped(#[trigger] chars@[k]);
            assert(is_skipped(chars@[j]));
        }
    }
    false
}

/// The pass consumes what is left of the text, and its output is as long as that.
pub proof fn lemma_lookalike_steps(s: Seq<char>, i: int)
    requires
        0 <= i <= s.len(),
    ensures
        valid(lookalike_steps(s, i)),
        src_of(lookalike_steps(s, i)) == s.skip(i),
        utf8_len(dst_of(lookalike_steps(s, i))) == utf8_len(s.skip(i)),
    decreases s.len() - i,
{
    if i < s.len() {
        let step = lookalike_step(s, i);
        lemma_lookalike_steps(s, i + 1);
        lemma_keep_one(s, i);
        lemma_first_step(s, i, 1, step, lookalike_steps(s, i + 1));
        reveal_with_fuel(utf8_len, 2);
        assert(step.dst().drop_last() =~= Seq::<char>::empty());
        assert(step.src().drop_last() =~= Seq::<char>::empty());
    } else {
        assert(s.skip(i) =~= Seq::<char>::empty());
    }
}

/// Reads letters between digits as digits.
pub fn apply(text: &str) -> (r: (String, SpanMap))
    requires
        utf8_len(text@) <= u32::MAX,
    ensures
        r.0@ == dst_of(lookalike_steps(text@, 0)),
        r.1.of(lookalike_steps(text@, 0)),
{
    let ghost t = text@;
    let mut walk = Walk::new(text);
    proof {
        lemma_lookalike_steps(t, 0);
        assert(t.skip(0) =~= t);
        assert(Seq::<Step>::empty() + lookalike_steps(t, 0) =~= lookalike_steps(t, 0));
    }
    while walk.position() < walk.chars().len()
        invariant
            walk.wf(),
            walk.over() == t,
            walk@ + lookalike_steps(t, walk.pos()) == lookalike_steps(t, 0),
            utf8_len(dst_of(lookalike_steps(t, 0))) <= u32::MAX,
        decreases t.len() - walk.pos(),
    {
        let ghost before = walk@;
        let i: usize = walk.position();
        let c: char = walk.chars()[i];
        proof {
            lemma_keep_one(t, i as int);
            lemma_take_step(before, lookalike_step(t, i as int), lookalike_steps(t, i + 1));
        }
        match lookalike_digit(c) {
            Some(d) => {
                if side_is_digit(walk.chars().as_slice(), i, false) && side_is_digit(walk.chars().as_slice(), i, true) {
                    let mut dst = String::new();
                    dst.push(d);
                    assert(dst@ =~= seq![d]);
                    walk.replace(1, dst.as_str(), RULE_LOOKALIKE);
                } else {
                    walk.pass(1);
                }
            },
            None => {
                walk.pass(1);
            },
        }
    }
    proof {
        assert(walk@ + lookalike_steps(t, walk.pos()) =~= walk@);
    }
    walk.finish()
}

} // verus!
