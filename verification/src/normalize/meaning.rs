//! What the passes that look at single characters do to each of them.

use vstd::prelude::*;
use crate::normalize::fold::{fold_step, fold_steps, folded};
use crate::normalize::lookalike::{
    digit_before, digit_behind, is_digit_place, is_skipped, lookalike_step, lookalike_steps,
};
use crate::normalize::separator::{
    between_digits, encloses, group_end, law_enclosed_separators_are_dropped,
    law_only_separators_are_absorbed, lemma_group_end, separator_of, separator_steps,
    without_enclosed, Separator,
};
use crate::span::builder::absorption;
use crate::span::cost::{clamped, NormalizationCost};
use crate::span::steps::{cost_of, dst_of, lemma_of_add, lemma_of_single, Step};

verus! {

broadcast use crate::text::lemma_text_char_range;

/// The full-width form of a visible ASCII character lies this far behind it.
pub open spec fn full_width(c: char) -> char {
    (c as int + 0xFEE0) as char
}

/// A visible ASCII character.
pub open spec fn is_visible_ascii(c: char) -> bool {
    0x21 <= c as u32 <= 0x7E
}

/// Each character of a text, changed or not.
pub open spec fn all_full_width(s: Seq<char>) -> Seq<char> {
    Seq::new(s.len(), |i: int| full_width(s[i]))
}

/// A space that is not the ASCII space: the no-break space, the spaces from en quad to hair space,
/// the narrow no-break space, the mathematical space and the ideographic space.
pub open spec fn is_other_space(c: char) -> bool {
    let v = c as u32;
    v == 0xA0 || v == 0x2000 || v == 0x2001 || v == 0x2002 || v == 0x2003 || v == 0x2004 || v == 0x2005 || v == 0x2006 || v
        == 0x2007 || v == 0x2008 || v == 0x2009 || v == 0x200A || v == 0x202F || v == 0x205F || v == 0x3000
}

/// A dash that is not the ASCII hyphen: the soft hyphen, hyphen, non-breaking hyphen, figure dash,
/// en dash, em dash, horizontal bar, hyphen bullet, minus sign, small em dash and small hyphen.
pub open spec fn is_other_dash(c: char) -> bool {
    let v = c as u32;
    v == 0xAD || v == 0x2010 || v == 0x2011 || v == 0x2012 || v == 0x2013 || v == 0x2014 || v == 0x2015 || v == 0x2043 || v
        == 0x2212 || v == 0xFE58 || v == 0xFE63
}

proof fn lemma_fold_index(s: Seq<char>, i: int)
    requires
        0 <= i <= s.len(),
    ensures
        fold_steps(s, i).len() == s.len() - i,
        forall|k: int| 0 <= k < s.len() - i ==> #[trigger] fold_steps(s, i)[k] == fold_step(s[i + k]),
    decreases s.len() - i,
{
    if i < s.len() {
        lemma_fold_index(s, i + 1);
        let rest = fold_steps(s, i + 1);
        assert forall|k: int| 0 <= k < s.len() - i implies #[trigger] fold_steps(s, i)[k] == fold_step(s[i + k]) by {
            if k > 0 {
                assert(fold_steps(s, i)[k] == rest[k - 1]);
            }
        }
    }
}

/// The output of a run of steps that give one character each.
proof fn lemma_one_each(steps: Seq<Step>, t: Seq<char>)
    requires
        steps.len() == t.len(),
        forall|k: int| 0 <= k < t.len() ==> (#[trigger] steps[k]).dst() == seq![t[k]],
    ensures
        dst_of(steps) == t,
    decreases t.len(),
{
    if t.len() > 0 {
        let init = steps.drop_last();
        let u = t.drop_last();
        assert forall|k: int| 0 <= k < u.len() implies (#[trigger] init[k]).dst() == seq![u[k]] by {
            assert(steps[k].dst() == seq![t[k]]);
        }
        lemma_one_each(init, u);
        assert(steps[steps.len() - 1].dst() == seq![t[t.len() - 1]]);
        assert(dst_of(steps) =~= t);
    } else {
        assert(dst_of(steps) =~= t);
    }
}

/// What folding makes of a text, character by character: full-width forms become the ASCII
/// characters that they are forms of, other spaces the space, other dashes the hyphen, and every
/// other character stays.
pub proof fn law_folding_unifies_forms(s: Seq<char>)
    ensures
        dst_of(fold_steps(s, 0)).len() == s.len(),
        forall|i: int| #![trigger dst_of(fold_steps(s, 0))[i]]
            0 <= i < s.len() ==> {
                let d = dst_of(fold_steps(s, 0))[i];
                &&& 0xFF01 <= s[i] as u32 <= 0xFF5E ==> is_visible_ascii(d) && full_width(d) == s[i]
                &&& is_other_space(s[i]) ==> d == ' '
                &&& is_other_dash(s[i]) ==> d == '-'
                &&& !(0xFF01 <= s[i] as u32 <= 0xFF5E) && !is_other_space(s[i]) && !is_other_dash(s[i]) ==> d == s[i]
            },
{
    lemma_fold_index(s, 0);
    let steps = fold_steps(s, 0);
    let t = Seq::new(s.len(), |i: int| fold_step(s[i]).dst()[0]);
    assert forall|k: int| 0 <= k < s.len() implies (#[trigger] steps[k]).dst() == seq![t[k]] by {
        assert(steps[k] == fold_step(s[0 + k]));
        assert(steps[k].dst() =~= seq![t[k]]);
    }
    lemma_one_each(steps, t);
    assert forall|i: int| #![trigger dst_of(steps)[i]] 0 <= i < s.len() implies {
        let d = dst_of(steps)[i];
        &&& 0xFF01 <= s[i] as u32 <= 0xFF5E ==> is_visible_ascii(d) && full_width(d) == s[i]
        &&& is_other_space(s[i]) ==> d == ' '
        &&& is_other_dash(s[i]) ==> d == '-'
        &&& !(0xFF01 <= s[i] as u32 <= 0xFF5E) && !is_other_space(s[i]) && !is_other_dash(s[i]) ==> d == s[i]
    } by {
        assert(dst_of(steps)[i] == fold_step(s[i]).dst()[0]);
        if 0xFF01 <= s[i] as u32 <= 0xFF5E {
            let d = (s[i] as int - 0xFEE0) as char;
            assert(folded(s[i]).unwrap().0 == d);
            assert(d as int == s[i] as int - 0xFEE0);
            assert((d as int + 0xFEE0) as char == s[i]);
        }
    }
}

/// A text of visible ASCII characters, written in full width, is folded back.
pub proof fn law_full_width_texts_fold_back(s: Seq<char>)
    requires
        forall|i: int| 0 <= i < s.len() ==> is_visible_ascii(#[trigger] s[i]),
    ensures
        dst_of(fold_steps(all_full_width(s), 0)) == s,
{
    let w = all_full_width(s);
    law_folding_unifies_forms(w);
    let r = dst_of(fold_steps(w, 0));
    assert forall|i: int| 0 <= i < s.len() implies r[i] == s[i] by {
        assert(is_visible_ascii(s[i]));
        assert(w[i] == full_width(s[i]));
        assert(w[i] as int == s[i] as int + 0xFEE0);
        let d = r[i];
        assert(is_visible_ascii(d) && full_width(d) == w[i]);
        assert(d as int == s[i] as int);
        crate::text::lemma_code_point_injective(d, s[i]);
    }
    assert(r =~= s);
}

/// Folding a second time changes nothing more.
pub proof fn law_folding_again_changes_nothing(s: Seq<char>)
    ensures
        dst_of(fold_steps(dst_of(fold_steps(s, 0)), 0)) == dst_of(fold_steps(s, 0)),
{
    let t = dst_of(fold_steps(s, 0));
    let u = dst_of(fold_steps(t, 0));
    law_folding_unifies_forms(s);
    law_folding_unifies_forms(t);
    assert forall|i: int| 0 <= i < t.len() implies u[i] == t[i] by {
        assert(t[i] == dst_of(fold_steps(s, 0))[i]);
        assert(u[i] == dst_of(fold_steps(t, 0))[i]);
    }
    assert(u =~= t);
}

proof fn lemma_lookalike_index(s: Seq<char>, i: int)
    requires
        0 <= i <= s.len(),
    ensures
        lookalike_steps(s, i).len() == s.len() - i,
        forall|k: int| 0 <= k < s.len() - i ==> #[trigger] lookalike_steps(s, i)[k] == lookalike_step(s, i + k),
    decreases s.len() - i,
{
    if i < s.len() {
        lemma_lookalike_index(s, i + 1);
        let rest = lookalike_steps(s, i + 1);
        assert forall|k: int| 0 <= k < s.len() - i implies #[trigger] lookalike_steps(s, i)[k] == lookalike_step(s, i + k) by {
            if k > 0 {
                assert(lookalike_steps(s, i)[k] == rest[k - 1]);
            }
        }
    }
}

/// A separator: a space, a tab, a hyphen, a dot, a comma, a round bracket or a middle dot.
pub open spec fn is_separator(c: char) -> bool {
    c == ' ' || c == '\t' || c == '-' || c == '.' || c == ',' || c == '(' || c == ')' || c == '·' || c == '・'
}

/// A digit, or a sign that hides one.
pub open spec fn holds_a_digit(c: char) -> bool {
    '0' <= c <= '9' || c == '*' || c == 'X' || c == 'x'
}

/// Positions `a` and `b` hold digits, position `i` lies between them, and everything else between
/// them is a separator.
pub open spec fn among_digits(s: Seq<char>, a: int, i: int, b: int) -> bool {
    &&& 0 <= a < i < b < s.len()
    &&& holds_a_digit(s[a])
    &&& holds_a_digit(s[b])
    &&& forall|k: int| a < k < b && k != i ==> is_separator(#[trigger] s[k])
}

/// Some digits stand around position `i`.
pub open spec fn is_among_digits(s: Seq<char>, i: int) -> bool {
    exists|a: int, b: int| #[trigger] among_digits(s, a, i, b)
}

proof fn lemma_among_digits(s: Seq<char>, i: int)
    requires
        0 <= i < s.len(),
    ensures
        is_among_digits(s, i) <==> digit_before(s, i) && digit_behind(s, i),
{
    if is_among_digits(s, i) {
        let (a, b) = choose|a: int, b: int| #[trigger] among_digits(s, a, i, b);
        assert(is_digit_place(s[a]));
        assert forall|k: int| a < k < i implies is_skipped(#[trigger] s[k]) by {
            assert(is_separator(s[k]));
        }
        assert(is_digit_place(s[b]));
        assert forall|k: int| i < k < b implies is_skipped(#[trigger] s[k]) by {
            assert(is_separator(s[k]));
        }
    }
    if digit_before(s, i) && digit_behind(s, i) {
        let a = choose|j: int|
            0 <= j < i && is_digit_place(#[trigger] s[j]) && forall|k: int| j < k < i ==> is_skipped(#[trigger] s[k]);
        let b = choose|j: int|
            i < j < s.len() && is_digit_place(#[trigger] s[j]) && forall|k: int| i < k < j ==> is_skipped(#[trigger] s[k]);
        assert forall|k: int| a < k < b && k != i implies is_separator(#[trigger] s[k]) by {
            assert(is_skipped(s[k]));
        }
        assert(among_digits(s, a, i, b));
    }
}

/// Letters that look like digits are read as digits where digits stand around them: `O` and `o` as
/// zero, `l` and `I` as one. Elsewhere, and of all other characters, nothing is changed.
pub proof fn law_letters_among_digits_are_digits(s: Seq<char>)
    ensures
        dst_of(lookalike_steps(s, 0)).len() == s.len(),
        forall|i: int| #![trigger dst_of(lookalike_steps(s, 0))[i]]
            0 <= i < s.len() ==> dst_of(lookalike_steps(s, 0))[i] == if (s[i] == 'O' || s[i] == 'o') && is_among_digits(
                s,
                i,
            ) {
                '0'
            } else if (s[i] == 'l' || s[i] == 'I') && is_among_digits(s, i) {
                '1'
            } else {
                s[i]
            },
{
    lemma_lookalike_index(s, 0);
    let steps = lookalike_steps(s, 0);
    let t = Seq::new(
        s.len(),
        |i: int|
            if (s[i] == 'O' || s[i] == 'o') && is_among_digits(s, i) {
                '0'
            } else if (s[i] == 'l' || s[i] == 'I') && is_among_digits(s, i) {
                '1'
            } else {
                s[i]
            },
    );
    assert forall|k: int| 0 <= k < s.len() implies (#[trigger] steps[k]).dst() == seq![t[k]] by {
        assert(steps[k] == lookalike_step(s, 0 + k));
        lemma_among_digits(s, k);
        assert(steps[k].dst() =~= seq![t[k]]);
    }
    lemma_one_each(steps, t);
}

/// Position `i` lies in a run of separators with an ASCII digit right before it and right behind
/// it.
pub open spec fn joins_digits(s: Seq<char>, a: int, i: int, b: int) -> bool {
    &&& 0 <= a < i < b < s.len()
    &&& '0' <= s[a] <= '9'
    &&& '0' <= s[b] <= '9'
    &&& forall|k: int| a < k < b ==> is_separator(#[trigger] s[k])
}

/// Some digits enclose position `i`.
pub open spec fn is_enclosed(s: Seq<char>, i: int) -> bool {
    exists|a: int, b: int| #[trigger] joins_digits(s, a, i, b)
}

proof fn lemma_is_enclosed(s: Seq<char>, i: int)
    ensures
        is_enclosed(s, i) <==> between_digits(s, i),
{
    if is_enclosed(s, i) {
        let (a, b) = choose|a: int, b: int| #[trigger] joins_digits(s, a, i, b);
        assert forall|k: int| a < k < b implies separator_of(#[trigger] s[k]) is Some by {
            assert(is_separator(s[k]));
        }
        assert(encloses(s, a, i, b));
    }
    if between_digits(s, i) {
        let (a, b) = choose|a: int, b: int| #[trigger] encloses(s, a, i, b);
        assert forall|k: int| a < k < b implies is_separator(#[trigger] s[k]) by {
            assert(separator_of(s[k]) is Some);
        }
        assert(joins_digits(s, a, i, b));
    }
}

/// The first `n` characters without the enclosed separators.
pub open spec fn unenclosed(s: Seq<char>, n: int) -> Seq<char>
    decreases n,
{
    if n <= 0 {
        Seq::empty()
    } else if is_enclosed(s, n - 1) {
        unenclosed(s, n - 1)
    } else {
        unenclosed(s, n - 1).push(s[n - 1])
    }
}

proof fn lemma_unenclosed(s: Seq<char>, i: int)
    requires
        0 <= i <= s.len(),
    ensures
        unenclosed(s, i) + without_enclosed(s, i) == unenclosed(s, s.len() as int),
    decreases s.len() - i,
{
    if i < s.len() {
        lemma_unenclosed(s, i + 1);
        lemma_is_enclosed(s, i);
        if !is_enclosed(s, i) {
            assert(unenclosed(s, i) + (seq![s[i]] + without_enclosed(s, i + 1)) =~= unenclosed(s, i).push(s[i])
                + without_enclosed(s, i + 1));
        }
    } else {
        assert(unenclosed(s, i) + without_enclosed(s, i) =~= unenclosed(s, i));
    }
}

/// Exactly the separators between two digits are dropped, and everything else stays in its order.
pub proof fn law_exactly_separators_between_digits_vanish(s: Seq<char>)
    ensures
        dst_of(separator_steps(s, 0)) == unenclosed(s, s.len() as int),
{
    law_enclosed_separators_are_dropped(s, 0);
    lemma_unenclosed(s, 0);
    assert(unenclosed(s, 0) + without_enclosed(s, 0) =~= without_enclosed(s, 0));
}

/// How many of the characters from `i` on are dropped and are whitespace.
pub open spec fn dropped_whitespace(s: Seq<char>, i: int) -> nat
    decreases s.len() - i,
{
    if i < 0 || i >= s.len() {
        0
    } else if is_enclosed(s, i) && (s[i] == ' ' || s[i] == '\t') {
        1 + dropped_whitespace(s, i + 1)
    } else {
        dropped_whitespace(s, i + 1)
    }
}

/// How many of the characters from `i` on are dropped and are not whitespace.
pub open spec fn dropped_marks(s: Seq<char>, i: int) -> nat
    decreases s.len() - i,
{
    if i < 0 || i >= s.len() {
        0
    } else if is_enclosed(s, i) && !(s[i] == ' ' || s[i] == '\t') {
        1 + dropped_marks(s, i + 1)
    } else {
        dropped_marks(s, i + 1)
    }
}

proof fn lemma_group_counts(s: Seq<char>, i: int, e: int, k: Separator)
    requires
        0 <= i < e <= s.len(),
        between_digits(s, i),
        forall|j: int| i <= j < e ==> separator_of(#[trigger] s[j]) == Some(k),
    ensures
        dropped_whitespace(s, i) == dropped_whitespace(s, e) + if k == Separator::Whitespace {
            (e - i) as nat
        } else {
            0
        },
        dropped_marks(s, i) == dropped_marks(s, e) + if k == Separator::Whitespace {
            0
        } else {
            (e - i) as nat
        },
    decreases e - i,
{
    lemma_is_enclosed(s, i);
    assert(separator_of(s[i]) == Some(k));
    if i + 1 < e {
        let (a, b) = choose|a: int, b: int| #[trigger] encloses(s, a, i, b);
        if b == i + 1 {
            assert(separator_of(s[b]) is Some);
        }
        assert(encloses(s, a, i + 1, b));
        lemma_group_counts(s, i + 1, e, k);
    }
}

proof fn lemma_separator_costs(s: Seq<char>, i: int)
    requires
        0 <= i <= s.len(),
    ensures
        cost_of(separator_steps(s, i)) == (NormalizationCost {
            absorbed_whitespace: clamped(dropped_whitespace(s, i)),
            absorbed_separators: clamped(dropped_marks(s, i)),
            expanded_syllables: 0,
            replaced_chars: 0,
        }),
    decreases s.len() - i,
{
    if i < s.len() {
        lemma_is_enclosed(s, i);
        if between_digits(s, i) {
            law_only_separators_are_absorbed(s, i);
            let k = separator_of(s[i]).unwrap();
            lemma_group_end(s, i + 1, k);
            let e = group_end(s, i + 1, k);
            let step = absorption(s.subrange(i, e), k.rule_name(), k.counted_as());
            lemma_separator_costs(s, e);
            lemma_group_counts(s, i, e, k);
            lemma_of_add(seq![step], separator_steps(s, e));
            lemma_of_single(step);
        } else {
            let step = Step::Keep { c: s[i] };
            lemma_separator_costs(s, i + 1);
            lemma_of_add(seq![step], separator_steps(s, i + 1));
            lemma_of_single(step);
        }
    }
}

/// The cost of the pass counts what was dropped: whitespace and other separators apart, and
/// nothing else.
pub proof fn law_dropped_separators_are_counted(s: Seq<char>)
    ensures
        cost_of(separator_steps(s, 0)) == (NormalizationCost {
            absorbed_whitespace: clamped(dropped_whitespace(s, 0)),
            absorbed_separators: clamped(dropped_marks(s, 0)),
            expanded_syllables: 0,
            replaced_chars: 0,
        }),
{
    lemma_separator_costs(s, 0);
}

/// How many positions from `i` on hold another character in the second text than in the first.
pub open spec fn changes(s: Seq<char>, t: Seq<char>, i: int) -> nat
    decreases s.len() - i,
{
    if i < 0 || i >= s.len() {
        0
    } else if s[i] != t[i] {
        1 + changes(s, t, i + 1)
    } else {
        changes(s, t, i + 1)
    }
}

proof fn lemma_fold_costs(s: Seq<char>, t: Seq<char>, i: int)
    requires
        0 <= i <= s.len(),
        t.len() == s.len(),
        forall|k: int| 0 <= k < s.len() ==> fold_step(#[trigger] s[k]).dst() == seq![t[k]],
    ensures
        cost_of(fold_steps(s, i)) == (NormalizationCost {
            absorbed_whitespace: 0,
            absorbed_separators: 0,
            expanded_syllables: 0,
            replaced_chars: clamped(changes(s, t, i)),
        }),
    decreases s.len() - i,
{
    if i < s.len() {
        lemma_fold_costs(s, t, i + 1);
        let step = fold_step(s[i]);
        assert(step.dst() == seq![t[i]]);
        assert(seq![t[i]][0] == t[i]);
        assert(seq![s[i]][0] == s[i]);
        lemma_of_add(seq![step], fold_steps(s, i + 1));
        lemma_of_single(step);
    }
}

/// The cost of folding counts the characters that became other characters.
pub proof fn law_folded_characters_are_counted(s: Seq<char>)
    ensures
        cost_of(fold_steps(s, 0)) == (NormalizationCost {
            absorbed_whitespace: 0,
            absorbed_separators: 0,
            expanded_syllables: 0,
            replaced_chars: clamped(changes(s, dst_of(fold_steps(s, 0)), 0)),
        }),
{
    lemma_fold_index(s, 0);
    let steps = fold_steps(s, 0);
    let t = Seq::new(s.len(), |i: int| fold_step(s[i]).dst()[0]);
    assert forall|k: int| 0 <= k < s.len() implies (#[trigger] steps[k]).dst() == seq![t[k]] && fold_step(s[k]).dst()
        == seq![t[k]] by {
        assert(steps[k] == fold_step(s[0 + k]));
        assert(steps[k].dst() =~= seq![t[k]]);
    }
    lemma_one_each(steps, t);
    assert forall|k: int| 0 <= k < s.len() implies fold_step(#[trigger] s[k]).dst() == seq![t[k]] by {
        assert(steps[k].dst() == seq![t[k]]);
    }
    lemma_fold_costs(s, t, 0);
}

proof fn lemma_lookalike_costs(s: Seq<char>, t: Seq<char>, i: int)
    requires
        0 <= i <= s.len(),
        t.len() == s.len(),
        forall|k: int| 0 <= k < s.len() ==> (#[trigger] lookalike_step(s, k)).dst() == seq![t[k]],
    ensures
        cost_of(lookalike_steps(s, i)) == (NormalizationCost {
            absorbed_whitespace: 0,
            absorbed_separators: 0,
            expanded_syllables: 0,
            replaced_chars: clamped(changes(s, t, i)),
        }),
    decreases s.len() - i,
{
    if i < s.len() {
        lemma_lookalike_costs(s, t, i + 1);
        let step = lookalike_step(s, i);
        assert(step.dst() == seq![t[i]]);
        assert(seq![t[i]][0] == t[i]);
        assert(step.dst()[0] == t[i]);
        lemma_of_add(seq![step], lookalike_steps(s, i + 1));
        lemma_of_single(step);
    }
}

/// The cost of reading letters as digits counts those letters.
pub proof fn law_letters_read_as_digits_are_counted(s: Seq<char>)
    ensures
        cost_of(lookalike_steps(s, 0)) == (NormalizationCost {
            absorbed_whitespace: 0,
            absorbed_separators: 0,
            expanded_syllables: 0,
            replaced_chars: clamped(changes(s, dst_of(lookalike_steps(s, 0)), 0)),
        }),
{
    lemma_lookalike_index(s, 0);
    let steps = lookalike_steps(s, 0);
    let t = Seq::new(s.len(), |i: int| lookalike_step(s, i).dst()[0]);
    assert forall|k: int| 0 <= k < s.len() implies (#[trigger] steps[k]).dst() == seq![t[k]] by {
        assert(steps[k] == lookalike_step(s, 0 + k));
        assert(steps[k].dst() =~= seq![t[k]]);
    }
    lemma_one_each(steps, t);
    assert forall|k: int| 0 <= k < s.len() implies (#[trigger] lookalike_step(s, k)).dst() == seq![t[k]] by {
        assert(steps[k] == lookalike_step(s, 0 + k));
        assert(steps[k].dst() == seq![t[k]]);
    }
    lemma_lookalike_costs(s, t, 0);
}

/// Every change is recorded under the name of its rule: folds by what was folded, letters read as
/// digits, and absorbed separators by what they are.
pub proof fn law_changes_are_recorded_by_name(s: Seq<char>, i: int)
    requires
        0 <= i < s.len(),
    ensures
        0xFF01 <= s[i] as u32 <= 0xFF5E ==> fold_step(s[i]).rules() == set!["fold.fullwidth"@],
        is_other_space(s[i]) ==> fold_step(s[i]).rules() == set!["fold.space"@],
        is_other_dash(s[i]) ==> fold_step(s[i]).rules() == set!["fold.dash"@],
        lookalike_step(s, i) is Edit ==> lookalike_step(s, i).rules() == set!["lookalike.digit"@],
        separator_of(s[i]) matches Some(k) ==> k.rule_name() == if s[i] == ' ' || s[i] == '\t' {
            "separator.whitespace"@
        } else if s[i] == '-' {
            "separator.hyphen"@
        } else if s[i] == '.' {
            "separator.dot"@
        } else if s[i] == '(' || s[i] == ')' {
            "separator.paren"@
        } else if s[i] == ',' {
            "separator.comma"@
        } else {
            "separator.middot"@
        },
{
}

} // verus!
