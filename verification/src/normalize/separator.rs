//! Fifth pass: absorbing separators between digits.
//!
//! After this pass `880101 - 1234567` and `8801011234567` are the same run of digits. Only
//! separators with a digit on both sides are absorbed: dropping all spaces would turn
//! `제품 1234 수량 5678` into a run of eight digits that was never there. Line breaks are never
//! absorbed, since values on different lines are mostly different values.

use vstd::prelude::*;
use crate::normalize::walk::{lemma_first_step, lemma_keep_one, lemma_take_step, Walk};
use crate::span::builder::absorption;
use crate::span::steps::{
    dst_of, keeps, lemma_keeps, lemma_keeps_parts, lemma_of_add, lemma_of_single, src_of, valid,
    Step,
};
use crate::span::{Absorbed, RuleId, SpanMap};
use crate::text::{digit_like, is_digit, utf8_len};

verus! {

broadcast use crate::text::lemma_text_char_range;

/// Horizontal whitespace was absorbed.
pub const RULE_WHITESPACE: RuleId = "separator.whitespace";

/// A hyphen was absorbed.
pub const RULE_HYPHEN: RuleId = "separator.hyphen";

/// A dot was absorbed.
pub const RULE_DOT: RuleId = "separator.dot";

/// A bracket was absorbed.
pub const RULE_PAREN: RuleId = "separator.paren";

/// A comma was absorbed.
pub const RULE_COMMA: RuleId = "separator.comma";

/// A middle dot was absorbed.
pub const RULE_MIDDOT: RuleId = "separator.middot";

/// The kinds of separators.
#[derive(Debug, Clone, Copy, PartialEq, Eq, Structural)]
pub enum Separator {
    Whitespace,
    Hyphen,
    Dot,
    Paren,
    Comma,
    MidDot,
}

impl Separator {
    /// The rule that absorbs a separator.
    pub open spec fn rule_name(self) -> Seq<char> {
        match self {
            Separator::Whitespace => RULE_WHITESPACE@,
            Separator::Hyphen => RULE_HYPHEN@,
            Separator::Dot => RULE_DOT@,
            Separator::Paren => RULE_PAREN@,
            Separator::Comma => RULE_COMMA@,
            Separator::MidDot => RULE_MIDDOT@,
        }
    }

    /// The class under which a separator is counted.
    pub open spec fn counted_as(self) -> Absorbed {
        match self {
            Separator::Whitespace => Absorbed::Whitespace,
            _ => Absorbed::Separator,
        }
    }

    /// The rule that absorbs the separator.
    pub fn rule(self) -> (r: RuleId)
        ensures
            r@ == self.rule_name(),
    {
        match self {
            Separator::Whitespace => RULE_WHITESPACE,
            Separator::Hyphen => RULE_HYPHEN,
            Separator::Dot => RULE_DOT,
            Separator::Paren => RULE_PAREN,
            Separator::Comma => RULE_COMMA,
            Separator::MidDot => RULE_MIDDOT,
        }
    }

    /// The class under which the separator is counted.
    pub fn class(self) -> (r: Absorbed)
        ensures
            r == self.counted_as(),
    {
        match self {
            Separator::Whitespace => Absorbed::Whitespace,
            _ => Absorbed::Separator,
        }
    }
}

/// Which separator a character is.
pub open spec fn separator_of(c: char) -> Option<Separator> {
    if c == ' ' || c == '\t' {
        Some(Separator::Whitespace)
    } else if c == '-' {
        Some(Separator::Hyphen)
    } else if c == '.' {
        Some(Separator::Dot)
    } else if c == '(' || c == ')' {
        Some(Separator::Paren)
    } else if c == ',' {
        Some(Separator::Comma)
    } else if c == '·' || c == '・' {
        Some(Separator::MidDot)
    } else {
        None
    }
}

/// Position `i` lies in a run of separators with a digit right before it and right behind it.
pub open spec fn between_digits(s: Seq<char>, i: int) -> bool {
    exists|a: int, b: int| #[trigger] encloses(s, a, i, b)
}

/// The digits at `a` and `b` have nothing but separators between them, and `i` among those.
pub open spec fn encloses(s: Seq<char>, a: int, i: int, b: int) -> bool {
    &&& 0 <= a < i < b < s.len()
    &&& is_digit(s[a])
    &&& is_digit(s[b])
    &&& forall|k: int| a < k < b ==> separator_of(#[trigger] s[k]) is Some
}

/// The first position from `i` on that does not hold a separator of kind `k`.
pub open spec fn group_end(s: Seq<char>, i: int, k: Separator) -> int
    decreases s.len() - i,
{
    if 0 <= i < s.len() && separator_of(s[i]) == Some(k) {
        group_end(s, i + 1, k)
    } else {
        i
    }
}

/// The steps of the pass from position `i` on. Adjoining separators of one kind are absorbed
/// together.
pub open spec fn separator_steps(s: Seq<char>, i: int) -> Seq<Step>
    decreases s.len() - i,
{
    if i < 0 || i >= s.len() {
        Seq::empty()
    } else {
        match separator_of(s[i]) {
            Some(k) if between_digits(s, i) && i < group_end(s, i + 1, k) <= s.len() => {
                let e = group_end(s, i + 1, k);
                seq![absorption(s.subrange(i, e), k.rule_name(), k.counted_as())] + separator_steps(s, e)
            },
            _ => seq![Step::Keep { c: s[i] }] + separator_steps(s, i + 1),
        }
    }
}

/// A group ends inside the text, and holds separators of one kind up to there.
pub proof fn lemma_group_end(s: Seq<char>, i: int, k: Separator)
    requires
        0 <= i <= s.len(),
    ensures
        i <= group_end(s, i, k) <= s.len(),
        forall|j: int| i <= j < group_end(s, i, k) ==> separator_of(#[trigger] s[j]) == Some(k),
        group_end(s, i, k) < s.len() ==> separator_of(s[group_end(s, i, k)]) != Some(k),
    decreases s.len() - i,
{
    if i < s.len() && separator_of(s[i]) == Some(k) {
        lemma_group_end(s, i + 1, k);
    }
}

/// A group ends where its kind of separator ends.
proof fn lemma_group_end_is(s: Seq<char>, i: int, k: Separator, e: int)
    requires
        0 <= i <= e <= s.len(),
        forall|j: int| i <= j < e ==> separator_of(#[trigger] s[j]) == Some(k),
        e < s.len() ==> separator_of(s[e]) != Some(k),
    ensures
        group_end(s, i, k) == e,
    decreases e - i,
{
    if i < e {
        lemma_group_end_is(s, i + 1, k, e);
    }
}

/// The pass consumes what is left of the text, and its output is no longer than that.
pub proof fn lemma_separator_steps(s: Seq<char>, i: int)
    requires
        0 <= i <= s.len(),
    ensures
        valid(separator_steps(s, i)),
        src_of(separator_steps(s, i)) == s.skip(i),
        utf8_len(dst_of(separator_steps(s, i))) <= utf8_len(s.skip(i)),
    decreases s.len() - i,
{
    if i < s.len() {
        lemma_keep_one(s, i);
        match separator_of(s[i]) {
            Some(k) if between_digits(s, i) => {
                lemma_group_end(s, i + 1, k);
                let e = group_end(s, i + 1, k);
                lemma_separator_steps(s, e);
                let step = absorption(s.subrange(i, e), k.rule_name(), k.counted_as());
                lemma_first_step(s, i, e - i, step, separator_steps(s, e));
            },
            _ => {
                lemma_separator_steps(s, i + 1);
                lemma_first_step(s, i, 1, Step::Keep { c: s[i] }, separator_steps(s, i + 1));
            },
        }
    } else {
        assert(s.skip(i) =~= Seq::<char>::empty());
    }
}

/// A stretch without enclosed separators is kept.
proof fn lemma_keep_stretch(s: Seq<char>, i: int, e: int)
    requires
        0 <= i <= e <= s.len(),
        forall|j: int| i <= j < e ==> !#[trigger] between_digits(s, j),
    ensures
        separator_steps(s, i) == keeps(s.subrange(i, e)) + separator_steps(s, e),
    decreases e - i,
{
    if i < e {
        lemma_keep_stretch(s, i + 1, e);
        lemma_keep_one(s, i);
        assert(!between_digits(s, i));
        let first = s.subrange(i, i + 1);
        let rest = s.subrange(i + 1, e);
        assert(s.subrange(i, e) =~= first + rest);
        lemma_keeps_parts(s.subrange(i, e), 1);
        assert(s.subrange(i, e).take(1) =~= first);
        assert(s.subrange(i, e).skip(1) =~= rest);
        assert(separator_steps(s, i) =~= keeps(s.subrange(i, e)) + separator_steps(s, e));
    } else {
        assert(s.subrange(i, e) =~= Seq::<char>::empty());
        assert(separator_steps(s, i) =~= keeps(s.subrange(i, e)) + separator_steps(s, e));
    }
}

fn separator_class(c: char) -> (r: Option<Separator>)
    ensures
        r == separator_of(c),
{
    match c {
        ' ' | '\t' => Some(Separator::Whitespace),
        '-' => Some(Separator::Hyphen),
        '.' => Some(Separator::Dot),
        '(' | ')' => Some(Separator::Paren),
        ',' => Some(Separator::Comma),
        '·' | '・' => Some(Separator::MidDot),
        _ => None,
    }
}

/// The position behind the separators that begin at `i`.
fn skip_separators(chars: &[char], i: usize) -> (r: usize)
    requires
        i <= chars@.len(),
    ensures
        i <= r <= chars@.len(),
        forall|k: int| i <= k < r ==> separator_of(#[trigger] chars@[k]) is Some,
        r < chars@.len() ==> separator_of(chars@[r as int]) is None,
{
    let mut end: usize = i;
    while end < chars.len() && separator_class(chars[end]).is_some()
        invariant
            i <= end <= chars@.len(),
            forall|k: int| i <= k < end ==> separator_of(#[trigger] chars@[k]) is Some,
        decreases chars@.len() - end,
    {
        end += 1;
    }
    end
}

/// Absorbs the separators up to `end`, kind by kind.
fn absorb_run(walk: &mut Walk, end: usize, Ghost(t): Ghost<Seq<char>>)
    requires
        old(walk).wf(),
        old(walk).over() == t,
        old(walk).pos() <= end < t.len(),
        separator_of(t[end as int]) is None,
        forall|k: int| old(walk).pos() <= k < end ==> separator_of(#[trigger] t[k]) is Some && between_digits(t, k),
        old(walk)@ + separator_steps(t, old(walk).pos()) == separator_steps(t, 0),
        utf8_len(dst_of(separator_steps(t, 0))) <= u32::MAX,
    ensures
        final(walk).wf(),
        final(walk).over() == t,
        final(walk).pos() == end,
        final(walk)@ + separator_steps(t, end as int) == separator_steps(t, 0),
{
    while walk.position() < end
        invariant
            walk.wf(),
            walk.over() == t,
            old(walk).pos() <= walk.pos() <= end < t.len(),
            separator_of(t[end as int]) is None,
            forall|k: int| old(walk).pos() <= k < end ==> separator_of(#[trigger] t[k]) is Some && between_digits(t, k),
            walk@ + separator_steps(t, walk.pos()) == separator_steps(t, 0),
            utf8_len(dst_of(separator_steps(t, 0))) <= u32::MAX,
        decreases end - walk.pos(),
    {
        let at: usize = walk.position();
        let ghost before = walk@;
        match separator_class(walk.chars()[at]) {
            Some(kind) => {
                let mut group: usize = at + 1;
                while group < end && separator_class(walk.chars()[group]) == Some(kind)
                    invariant
                        walk.wf(),
                        walk.over() == t,
                        at < group <= end < t.len(),
                        forall|k: int| at <= k < group ==> separator_of(#[trigger] t[k]) == Some(kind),
                    decreases end - group,
                {
                    group += 1;
                }
                proof {
                    lemma_group_end_is(t, at + 1, kind, group as int);
                    assert(between_digits(t, at as int));
                    lemma_take_step(
                        before,
                        absorption(t.subrange(at as int, group as int), kind.rule_name(), kind.counted_as()),
                        separator_steps(t, group as int),
                    );
                }
                walk.absorb(group - at, kind.rule(), kind.class());
            },
            None => {
                assert(separator_of(t[at as int]) is Some);
            },
        }
    }
}

/// Absorbs separators between digits.
pub fn apply(text: &str) -> (r: (String, SpanMap))
    requires
        utf8_len(text@) <= u32::MAX,
    ensures
        r.0@ == dst_of(separator_steps(text@, 0)),
        r.1.of(separator_steps(text@, 0)),
{
    let ghost t = text@;
    let mut walk = Walk::new(text);
    proof {
        lemma_separator_steps(t, 0);
        assert(t.skip(0) =~= t);
        assert(Seq::<Step>::empty() + separator_steps(t, 0) =~= separator_steps(t, 0));
    }
    while walk.position() < walk.chars().len()
        invariant
            walk.wf(),
            walk.over() == t,
            walk@ + separator_steps(t, walk.pos()) == separator_steps(t, 0),
            utf8_len(dst_of(separator_steps(t, 0))) <= u32::MAX,
            0 < walk.pos() < t.len() && separator_of(t[walk.pos()]) is Some ==> separator_of(t[walk.pos() - 1]) is None
                || !between_digits(t, walk.pos() - 1),
        decreases t.len() - walk.pos(),
    {
        let ghost before = walk@;
        let i: usize = walk.position();
        let after_digit: bool = i > 0 && digit_like(walk.chars()[i - 1]);
        if separator_class(walk.chars()[i]).is_none() || !after_digit {
            proof {
                lemma_not_enclosed(t, i as int);
                lemma_keep_stretch(t, i as int, i + 1);
                assert(before + (keeps(t.subrange(i as int, i + 1)) + separator_steps(t, i + 1)) =~= before + keeps(
                    t.subrange(i as int, i + 1),
                ) + separator_steps(t, i + 1));
            }
            walk.pass(1);
            continue;
        }
        let end: usize = skip_separators(walk.chars().as_slice(), i);
        if end < walk.chars().len() && digit_like(walk.chars()[end]) {
            proof {
                assert forall|k: int| i <= k < end implies separator_of(#[trigger] t[k]) is Some && between_digits(
                    t,
                    k,
                ) by {
                    assert(encloses(t, i - 1, k, end as int));
                }
            }
            absorb_run(&mut walk, end, Ghost(t));
        } else {
            proof {
                assert forall|j: int| i <= j < end implies !#[trigger] between_digits(t, j) by {
                    lemma_open_run(t, j, end as int);
                }
                lemma_keep_stretch(t, i as int, end as int);
                assert(before + (keeps(t.subrange(i as int, end as int)) + separator_steps(t, end as int)) =~= before
                    + keeps(t.subrange(i as int, end as int)) + separator_steps(t, end as int));
            }
            walk.pass(end - i);
        }
    }
    proof {
        assert(walk@ + separator_steps(t, walk.pos()) =~= walk@);
    }
    walk.finish()
}

/// A position whose predecessor is neither a digit nor enclosed is not enclosed.
proof fn lemma_not_enclosed(s: Seq<char>, i: int)
    requires
        0 <= i < s.len(),
        separator_of(s[i]) is None || i == 0 || (!is_digit(s[i - 1]) && (separator_of(s[i - 1]) is None || !between_digits(
            s,
            i - 1,
        ))),
    ensures
        !between_digits(s, i),
{
    if between_digits(s, i) {
        let (a, b) = choose|a: int, b: int| #[trigger] encloses(s, a, i, b);
        if a < i - 1 {
            assert(encloses(s, a, i - 1, b));
        }
    }
}

/// A run of separators that no digit follows encloses nothing.
proof fn lemma_open_run(s: Seq<char>, j: int, end: int)
    requires
        0 <= j < end <= s.len(),
        forall|k: int| j <= k < end ==> separator_of(#[trigger] s[k]) is Some,
        end < s.len() ==> separator_of(s[end]) is None && !is_digit(s[end]),
    ensures
        !between_digits(s, j),
{
    if between_digits(s, j) {
        let (a, b) = choose|a: int, b: int| #[trigger] encloses(s, a, j, b);
        if b < end {
            assert(separator_of(s[b]) is Some);
        } else if b > end {
            assert(separator_of(s[end]) is Some);
        }
    }
}

/// The text from position `i` on without the separators that lie between digits.
pub open spec fn without_enclosed(s: Seq<char>, i: int) -> Seq<char>
    decreases s.len() - i,
{
    if i < 0 || i >= s.len() {
        Seq::empty()
    } else if between_digits(s, i) {
        without_enclosed(s, i + 1)
    } else {
        seq![s[i]] + without_enclosed(s, i + 1)
    }
}

/// Nothing but a separator is ever absorbed, and never a line break.
pub proof fn law_only_separators_are_absorbed(s: Seq<char>, i: int)
    requires
        between_digits(s, i),
    ensures
        separator_of(s[i]) is Some,
        s[i] != '\n',
        s[i] != '\r',
{
    let (a, b) = choose|a: int, b: int| #[trigger] encloses(s, a, i, b);
    assert(separator_of(s[i]) is Some);
}

/// A group of separators of which the first lies between digits lies between digits as a whole.
proof fn lemma_group_enclosed(s: Seq<char>, i: int, e: int)
    requires
        between_digits(s, i),
        i < e <= s.len(),
        forall|j: int| i <= j < e ==> separator_of(#[trigger] s[j]) is Some,
    ensures
        without_enclosed(s, i) == without_enclosed(s, e),
    decreases e - i,
{
    let (a, b) = choose|a: int, b: int| #[trigger] encloses(s, a, i, b);
    if i + 1 < e {
        if b == i + 1 {
            assert(separator_of(s[b]) is Some);
        }
        assert(encloses(s, a, i + 1, b));
        lemma_group_enclosed(s, i + 1, e);
    }
}

/// The pass drops exactly the separators that lie between digits, and nothing else.
pub proof fn law_enclosed_separators_are_dropped(s: Seq<char>, i: int)
    requires
        0 <= i <= s.len(),
    ensures
        dst_of(separator_steps(s, i)) == without_enclosed(s, i),
    decreases s.len() - i,
{
    if i < s.len() {
        if between_digits(s, i) {
            law_only_separators_are_absorbed(s, i);
            let k = separator_of(s[i]).unwrap();
            lemma_group_end(s, i + 1, k);
            let e = group_end(s, i + 1, k);
            let step = absorption(s.subrange(i, e), k.rule_name(), k.counted_as());
            law_enclosed_separators_are_dropped(s, e);
            lemma_of_add(seq![step], separator_steps(s, e));
            lemma_of_single(step);
            lemma_group_enclosed(s, i, e);
            assert(dst_of(separator_steps(s, i)) =~= without_enclosed(s, i));
        } else {
            let step = Step::Keep { c: s[i] };
            law_enclosed_separators_are_dropped(s, i + 1);
            lemma_of_add(seq![step], separator_steps(s, i + 1));
            lemma_of_single(step);
        }
    }
}

/// The positions from `i` on that do not lie between digits.
spec fn places_left(s: Seq<char>, i: int) -> Seq<int>
    decreases s.len() - i,
{
    if i < 0 || i >= s.len() {
        Seq::empty()
    } else if between_digits(s, i) {
        places_left(s, i + 1)
    } else {
        seq![i] + places_left(s, i + 1)
    }
}

/// What is left are the characters at those positions, in order.
proof fn lemma_places_left(s: Seq<char>, i: int)
    requires
        0 <= i <= s.len(),
    ensures
        places_left(s, i).len() == without_enclosed(s, i).len(),
        forall|j: int|
            0 <= j < places_left(s, i).len() ==> i <= (#[trigger] places_left(s, i)[j]) < s.len() && !between_digits(
                s,
                places_left(s, i)[j],
            ) && without_enclosed(s, i)[j] == s[places_left(s, i)[j]],
        forall|j: int, k: int|
            0 <= j < k < places_left(s, i).len() ==> #[trigger] places_left(s, i)[j] < #[trigger] places_left(s, i)[k],
        forall|p: int| i <= p < s.len() && !between_digits(s, p) ==> #[trigger] places_left(s, i).contains(p),
    decreases s.len() - i,
{
    if i < s.len() {
        lemma_places_left(s, i + 1);
        let rest = places_left(s, i + 1);
        let all = places_left(s, i);
        if between_digits(s, i) {
            assert(all == rest);
        } else {
            assert forall|j: int| 0 <= j < all.len() implies i <= (#[trigger] all[j]) < s.len() && !between_digits(
                s,
                all[j],
            ) && without_enclosed(s, i)[j] == s[all[j]] by {
                if j > 0 {
                    assert(all[j] == rest[j - 1]);
                }
            }
            assert forall|j: int, k: int| 0 <= j < k < all.len() implies #[trigger] all[j] < #[trigger] all[k] by {
                assert(all[k] == rest[k - 1]);
                if j > 0 {
                    assert(all[j] == rest[j - 1]);
                }
            }
            assert forall|p: int| i <= p < s.len() && !between_digits(s, p) implies #[trigger] all.contains(p) by {
                if p == i {
                    assert(all[0] == i);
                } else {
                    assert(rest.contains(p));
                    let j = choose|j: int| 0 <= j < rest.len() && rest[j] == p;
                    assert(all[j + 1] == p);
                }
            }
        }
    }
}

/// Where the separators between digits are gone, none is left between digits.
proof fn lemma_none_enclosed_again(s: Seq<char>, i: int)
    ensures
        !between_digits(without_enclosed(s, 0), i),
{
    let out = without_enclosed(s, 0);
    let at = places_left(s, 0);
    lemma_places_left(s, 0);
    if between_digits(out, i) {
        let (a, b) = choose|a: int, b: int| #[trigger] encloses(out, a, i, b);
        assert(out[a] == s[at[a]] && out[b] == s[at[b]]);
        assert(at[a] < at[i] && at[i] < at[b]);
        assert forall|p: int| at[a] < p < at[b] implies separator_of(#[trigger] s[p]) is Some by {
            if between_digits(s, p) {
                law_only_separators_are_absorbed(s, p);
            } else {
                assert(at.contains(p));
                let j = choose|j: int| 0 <= j < at.len() && at[j] == p;
                assert(a < j) by {
                    if j < a {
                        assert(at[j] < at[a]);
                    }
                }
                assert(j < b) by {
                    if b < j {
                        assert(at[b] < at[j]);
                    }
                }
                assert(out[j] == s[at[j]]);
            }
        }
        assert(encloses(s, at[a], at[i], at[b]));
        assert(!between_digits(s, at[i]));
    }
}

/// Running the pass a second time changes nothing more.
pub proof fn law_absorbing_again_changes_nothing(s: Seq<char>)
    ensures
        ({
            let out = dst_of(separator_steps(s, 0));
            separator_steps(out, 0) == keeps(out) && dst_of(separator_steps(out, 0)) == out
        }),
{
    law_enclosed_separators_are_dropped(s, 0);
    let out = without_enclosed(s, 0);
    let n = out.len() as int;
    assert forall|j: int| 0 <= j < n implies !#[trigger] between_digits(out, j) by {
        lemma_none_enclosed_again(s, j);
    }
    lemma_keep_stretch(out, 0, n);
    assert(out.subrange(0, n) =~= out);
    assert(separator_steps(out, n) =~= Seq::<Step>::empty());
    assert(keeps(out) + separator_steps(out, n) =~= keeps(out));
    lemma_keeps(out);
}

} // verus!
