//! The mathematical model of a normalization: a run of steps from a source text to an output text.
//!
//! A step either keeps one character or rewrites a nonempty run of characters. Steps never
//! reorder, so the source texts of the steps concatenate to the source and their output texts to
//! the output. A [`SpanMap`](crate::span::SpanMap) stores the offsets of such a run.

use vstd::prelude::*;
use crate::span::cost::{law_cost_sum_associative, law_cost_sum_zero, no_cost, NormalizationCost};

verus! {

broadcast use crate::text::lemma_text_char_range;

/// One step of a normalization.
pub enum Step {
    /// A character that passes unchanged.
    Keep { c: char },
    /// A run of characters rewritten as a whole.
    Edit { src: Seq<char>, dst: Seq<char>, rules: Set<Seq<char>>, cost: NormalizationCost },
}

impl Step {
    /// The source characters that the step consumes.
    pub open spec fn src(self) -> Seq<char> {
        match self {
            Step::Keep { c } => seq![c],
            Step::Edit { src, .. } => src,
        }
    }

    /// The output characters that the step produces.
    pub open spec fn dst(self) -> Seq<char> {
        match self {
            Step::Keep { c } => seq![c],
            Step::Edit { dst, .. } => dst,
        }
    }

    /// The rules that produced the step.
    pub open spec fn rules(self) -> Set<Seq<char>> {
        match self {
            Step::Keep { .. } => Set::empty(),
            Step::Edit { rules, .. } => rules,
        }
    }

    /// The cost of the step.
    pub open spec fn cost(self) -> NormalizationCost {
        match self {
            Step::Keep { .. } => no_cost(),
            Step::Edit { cost, .. } => cost,
        }
    }
}

/// No step inserts: each consumes at least one source character.
pub open spec fn valid(steps: Seq<Step>) -> bool {
    forall|i: int| 0 <= i < steps.len() ==> (#[trigger] steps[i]).src().len() >= 1
}

/// Every step gives a character or more.
pub open spec fn productive(steps: Seq<Step>) -> bool {
    forall|i: int| 0 <= i < steps.len() ==> (#[trigger] steps[i]).dst().len() >= 1
}

/// The source text of a run of steps.
pub open spec fn src_of(steps: Seq<Step>) -> Seq<char>
    decreases steps.len(),
{
    if steps.len() == 0 {
        Seq::empty()
    } else {
        src_of(steps.drop_last()) + steps.last().src()
    }
}

/// The output text of a run of steps.
pub open spec fn dst_of(steps: Seq<Step>) -> Seq<char>
    decreases steps.len(),
{
    if steps.len() == 0 {
        Seq::empty()
    } else {
        dst_of(steps.drop_last()) + steps.last().dst()
    }
}

/// All rules that took part in a run of steps.
pub open spec fn rules_of(steps: Seq<Step>) -> Set<Seq<char>>
    decreases steps.len(),
{
    if steps.len() == 0 {
        Set::empty()
    } else {
        rules_of(steps.drop_last()).union(steps.last().rules())
    }
}

/// The summed cost of a run of steps.
pub open spec fn cost_of(steps: Seq<Step>) -> NormalizationCost
    decreases steps.len(),
{
    if steps.len() == 0 {
        no_cost()
    } else {
        cost_of(steps.drop_last()).plus(steps.last().cost())
    }
}

/// The steps that keep every character of a text.
pub open spec fn keeps(text: Seq<char>) -> Seq<Step>
    decreases text.len(),
{
    if text.len() == 0 {
        Seq::empty()
    } else {
        keeps(text.drop_last()).push(Step::Keep { c: text.last() })
    }
}

/// The output of `a` is the source of `b`.
pub open spec fn meets(a: Seq<Step>, b: Seq<Step>) -> bool {
    valid(a) && valid(b) && dst_of(a) == src_of(b)
}

/// How many leading steps of `b` consume exactly `n` source characters, if some number does.
pub open spec fn reach(b: Seq<Step>, n: int) -> Option<int>
    decreases b.len(),
{
    if n == 0 {
        Some(0)
    } else if b.len() == 0 || b[0].src().len() > n {
        None
    } else {
        match reach(b.drop_first(), n - b[0].src().len()) {
            Some(q) => Some(q + 1),
            None => None,
        }
    }
}

/// Whether the output of the first `p` steps of `a` ends between two steps of `b`.
pub open spec fn is_cut(a: Seq<Step>, b: Seq<Step>, p: int) -> bool {
    reach(b, dst_of(a.take(p)).len() as int) is Some
}

/// The first position at or after `p` where both runs can be cut.
pub open spec fn first_cut(a: Seq<Step>, b: Seq<Step>, p: int) -> int
    decreases a.len() - p,
{
    if p >= a.len() || is_cut(a, b, p) {
        p
    } else {
        first_cut(a, b, p + 1)
    }
}

/// One step that does what `x` followed by `y` does.
pub open spec fn merge(x: Seq<Step>, y: Seq<Step>) -> Step {
    if x.len() == 1 && y.len() == 1 && x[0] is Keep && y[0] is Keep {
        x[0]
    } else {
        Step::Edit {
            src: src_of(x),
            dst: dst_of(y),
            rules: rules_of(x).union(rules_of(y)),
            cost: cost_of(x).plus(cost_of(y)),
        }
    }
}

/// `a` followed by `b` as one run of steps, cut wherever neither run forbids it.
pub open spec fn comp(a: Seq<Step>, b: Seq<Step>) -> Seq<Step>
    decreases a.len(),
{
    if a.len() == 0 {
        Seq::empty()
    } else {
        let p = first_cut(a, b, 1);
        let q = reach(b, dst_of(a.take(p)).len() as int).unwrap_or(b.len() as int);
        if p < 1 || p > a.len() {
            Seq::empty()
        } else {
            seq![merge(a.take(p), b.take(q))] + comp(a.skip(p), b.skip(q))
        }
    }
}

// Sums over concatenations.

pub proof fn lemma_of_add(a: Seq<Step>, b: Seq<Step>)
    ensures
        src_of(a + b) == src_of(a) + src_of(b),
        dst_of(a + b) == dst_of(a) + dst_of(b),
        rules_of(a + b) == rules_of(a).union(rules_of(b)),
        cost_of(a + b) == cost_of(a).plus(cost_of(b)),
        valid(a + b) == (valid(a) && valid(b)),
    decreases b.len(),
{
    if b.len() == 0 {
        assert(a + b =~= a);
        assert(src_of(a + b) =~= src_of(a) + src_of(b));
        assert(dst_of(a + b) =~= dst_of(a) + dst_of(b));
        assert(rules_of(a + b) =~= rules_of(a).union(rules_of(b)));
        law_cost_sum_zero(cost_of(a));
    } else {
        let t = b.drop_last();
        assert((a + b).drop_last() =~= a + t);
        assert((a + b).last() == b.last());
        lemma_of_add(a, t);
        assert(src_of(a + b) =~= src_of(a) + src_of(b));
        assert(dst_of(a + b) =~= dst_of(a) + dst_of(b));
        assert(rules_of(a + b) =~= rules_of(a).union(rules_of(b)));
        law_cost_sum_associative(cost_of(a), cost_of(t), b.last().cost());
        assert(valid(a + b) ==> valid(a) && valid(b)) by {
            if valid(a + b) {
                assert forall|i: int| 0 <= i < a.len() implies (#[trigger] a[i]).src().len() >= 1 by {
                    assert((a + b)[i] == a[i]);
                }
                assert forall|i: int| 0 <= i < b.len() implies (#[trigger] b[i]).src().len() >= 1 by {
                    assert((a + b)[i + a.len()] == b[i]);
                }
            }
        }
    }
}

pub proof fn lemma_of_split(a: Seq<Step>, p: int)
    requires
        0 <= p <= a.len(),
    ensures
        src_of(a) == src_of(a.take(p)) + src_of(a.skip(p)),
        dst_of(a) == dst_of(a.take(p)) + dst_of(a.skip(p)),
        rules_of(a) == rules_of(a.take(p)).union(rules_of(a.skip(p))),
        cost_of(a) == cost_of(a.take(p)).plus(cost_of(a.skip(p))),
        valid(a) ==> valid(a.take(p)) && valid(a.skip(p)),
{
    assert(a =~= a.take(p) + a.skip(p));
    lemma_of_add(a.take(p), a.skip(p));
}

pub proof fn lemma_of_single(s: Step)
    ensures
        src_of(seq![s]) == s.src(),
        dst_of(seq![s]) == s.dst(),
        rules_of(seq![s]) == s.rules(),
        cost_of(seq![s]) == s.cost(),
        valid(seq![s]) == (s.src().len() >= 1),
{
    reveal_with_fuel(src_of, 2);
    reveal_with_fuel(dst_of, 2);
    reveal_with_fuel(rules_of, 2);
    reveal_with_fuel(cost_of, 2);
    assert(seq![s].drop_last() =~= Seq::<Step>::empty());
    assert(src_of(seq![s]) =~= s.src());
    assert(dst_of(seq![s]) =~= s.dst());
    assert(rules_of(seq![s]) =~= s.rules());
    law_cost_sum_zero(s.cost());
    assert(seq![s][0] == s);
}

/// The source of the first `q` steps, one step at a time from the front.
proof fn lemma_src_front(b: Seq<Step>, q: int)
    requires
        1 <= q <= b.len(),
    ensures
        src_of(b.take(q)) == b[0].src() + src_of(b.drop_first().take(q - 1)),
{
    assert(b.take(q) =~= seq![b[0]] + b.drop_first().take(q - 1));
    lemma_of_add(seq![b[0]], b.drop_first().take(q - 1));
    lemma_of_single(b[0]);
}

/// Only the empty run has an empty source.
pub proof fn lemma_src_empty(b: Seq<Step>)
    requires
        valid(b),
    ensures
        src_of(b).len() >= b.len(),
    decreases b.len(),
{
    if b.len() > 0 {
        assert(valid(b.drop_last())) by {
            assert forall|i: int| 0 <= i < b.drop_last().len() implies (#[trigger] b.drop_last()[i]).src().len()
                >= 1 by {
                assert(b.drop_last()[i] == b[i]);
            }
        }
        lemma_src_empty(b.drop_last());
        assert(b[b.len() - 1].src().len() >= 1);
    }
}

/// `reach` finds exactly the positions between two steps.
pub proof fn lemma_reach(b: Seq<Step>, n: int)
    requires
        valid(b),
        0 <= n,
    ensures
        reach(b, n) matches Some(q) ==> 0 <= q <= b.len() && src_of(b.take(q)).len() == n,
        reach(b, n) is None ==> forall|q: int| 0 <= q <= b.len() ==> src_of(#[trigger] b.take(q)).len() != n,
    decreases b.len(),
{
    assert(b.take(0) =~= Seq::<Step>::empty());
    if n == 0 {
    } else if b.len() == 0 {
        assert forall|q: int| 0 <= q <= b.len() implies src_of(#[trigger] b.take(q)).len() != n by {
            assert(b.take(q) =~= Seq::<Step>::empty());
        }
    } else {
        let t = b.drop_first();
        assert(b[0].src().len() >= 1);
        lemma_of_split(b, 1);
        assert(b.skip(1) =~= t);
        if b[0].src().len() <= n {
            lemma_reach(t, n - b[0].src().len());
        }
        assert forall|q: int| reach(b, n) is None && 0 <= q <= b.len() implies src_of(#[trigger] b.take(q)).len()
            != n by {
            if q > 0 {
                lemma_src_front(b, q);
                if b[0].src().len() <= n {
                    assert(src_of(t.take(q - 1)).len() != n - b[0].src().len());
                }
            }
        }
        if reach(b, n) is Some {
            lemma_src_front(b, reach(b, n).unwrap());
        }
    }
}

/// Different cut positions of a valid run have different source lengths.
pub proof fn lemma_src_len_strict(b: Seq<Step>, q: int, r: int)
    requires
        valid(b),
        0 <= q <= r <= b.len(),
    ensures
        src_of(b.take(q)).len() + (r - q) <= src_of(b.take(r)).len(),
        src_of(b.take(r)).len() <= src_of(b).len(),
{
    lemma_of_split(b, r);
    let x = b.take(r);
    lemma_of_split(x, q);
    assert(x.take(q) =~= b.take(q));
    lemma_src_empty(x.skip(q));
}

pub proof fn lemma_dst_len_monotone(a: Seq<Step>, p: int, r: int)
    requires
        0 <= p <= r <= a.len(),
    ensures
        dst_of(a.take(p)).len() <= dst_of(a.take(r)).len() <= dst_of(a).len(),
{
    lemma_of_split(a, r);
    let x = a.take(r);
    lemma_of_split(x, p);
    assert(x.take(p) =~= a.take(p));
}

/// `reach` is the inverse of the source length of a prefix.
pub proof fn lemma_reach_at(b: Seq<Step>, q: int)
    requires
        valid(b),
        0 <= q <= b.len(),
    ensures
        reach(b, src_of(b.take(q)).len() as int) == Some(q),
{
    let n = src_of(b.take(q)).len() as int;
    lemma_reach(b, n);
    match reach(b, n) {
        Some(r) => {
            if q < r {
                lemma_src_len_strict(b, q, r);
            } else if r < q {
                lemma_src_len_strict(b, r, q);
            }
        },
        None => {
            assert(src_of(b.take(q)).len() != n);
        },
    }
}

proof fn lemma_first_cut(a: Seq<Step>, b: Seq<Step>, p: int)
    requires
        0 <= p <= a.len(),
    ensures
        p <= first_cut(a, b, p) <= a.len(),
        forall|k: int| p <= k < first_cut(a, b, p) ==> !#[trigger] is_cut(a, b, k),
        first_cut(a, b, p) < a.len() ==> is_cut(a, b, first_cut(a, b, p)),
    decreases a.len() - p,
{
    if p >= a.len() || is_cut(a, b, p) {
    } else {
        lemma_first_cut(a, b, p + 1);
    }
}

/// A cut with no earlier cut is the first one.
proof fn lemma_first_cut_is(a: Seq<Step>, b: Seq<Step>, p: int, r: int)
    requires
        0 <= p <= r <= a.len(),
        is_cut(a, b, r),
        forall|k: int| p <= k < r ==> !#[trigger] is_cut(a, b, k),
    ensures
        first_cut(a, b, p) == r,
{
    lemma_first_cut(a, b, p);
    let f = first_cut(a, b, p);
    if f < r {
        assert(!is_cut(a, b, f));
    }
}

/// `p` steps of `a` and `q` steps of `b` end at the same place of the text between them.
pub open spec fn joint(a: Seq<Step>, b: Seq<Step>, p: int, q: int) -> bool {
    &&& 0 <= p <= a.len()
    &&& 0 <= q <= b.len()
    &&& dst_of(a.take(p)).len() == src_of(b.take(q)).len()
}

pub proof fn lemma_joint_is_cut(a: Seq<Step>, b: Seq<Step>, p: int, q: int)
    requires
        valid(b),
        joint(a, b, p, q),
    ensures
        is_cut(a, b, p),
        reach(b, dst_of(a.take(p)).len() as int) == Some(q),
{
    lemma_reach_at(b, q);
}

pub proof fn lemma_cut_is_joint(a: Seq<Step>, b: Seq<Step>, p: int) -> (q: int)
    requires
        valid(b),
        0 <= p <= a.len(),
        is_cut(a, b, p),
    ensures
        joint(a, b, p, q),
        reach(b, dst_of(a.take(p)).len() as int) == Some(q),
{
    lemma_reach(b, dst_of(a.take(p)).len() as int);
    reach(b, dst_of(a.take(p)).len() as int).unwrap()
}

/// Cutting two runs at a joint position leaves two pairs that meet.
pub proof fn lemma_joint_meets(a: Seq<Step>, b: Seq<Step>, p: int, q: int)
    requires
        meets(a, b),
        joint(a, b, p, q),
    ensures
        meets(a.take(p), b.take(q)),
        meets(a.skip(p), b.skip(q)),
{
    lemma_of_split(a, p);
    lemma_of_split(b, q);
    let n = dst_of(a.take(p)).len() as int;
    assert(dst_of(a).take(n) =~= dst_of(a.take(p)));
    assert(src_of(b).take(n) =~= src_of(b.take(q)));
    assert(dst_of(a).skip(n) =~= dst_of(a.skip(p)));
    assert(src_of(b).skip(n) =~= src_of(b.skip(q)));
}

/// The first group of a composition.
pub proof fn lemma_head(a: Seq<Step>, b: Seq<Step>) -> (pq: (int, int))
    requires
        meets(a, b),
        a.len() > 0,
    ensures
        1 <= pq.0,
        joint(a, b, pq.0, pq.1),
        forall|k: int| 1 <= k < pq.0 ==> !#[trigger] is_cut(a, b, k),
        meets(a.take(pq.0), b.take(pq.1)),
        meets(a.skip(pq.0), b.skip(pq.1)),
        comp(a, b) == seq![merge(a.take(pq.0), b.take(pq.1))] + comp(a.skip(pq.0), b.skip(pq.1)),
        comp(a, b).len() >= 1,
{
    lemma_first_cut(a, b, 1);
    let p = first_cut(a, b, 1);
    assert(a.take(a.len() as int) =~= a);
    assert(b.take(b.len() as int) =~= b);
    lemma_joint_is_cut(a, b, a.len() as int, b.len() as int);
    let q = lemma_cut_is_joint(a, b, p);
    lemma_joint_meets(a, b, p, q);
    (p, q)
}

/// A composition whose first group is known.
pub proof fn lemma_comp_head(a: Seq<Step>, b: Seq<Step>, p: int, q: int)
    requires
        meets(a, b),
        1 <= p,
        joint(a, b, p, q),
        forall|k: int| 1 <= k < p ==> !#[trigger] is_cut(a, b, k),
    ensures
        comp(a, b) == seq![merge(a.take(p), b.take(q))] + comp(a.skip(p), b.skip(q)),
{
    lemma_joint_is_cut(a, b, p, q);
    lemma_first_cut_is(a, b, 1, p);
}

/// The composition joins the source of `a` with the output of `b` and adds up what both did.
pub proof fn lemma_comp_sums(a: Seq<Step>, b: Seq<Step>)
    requires
        meets(a, b),
    ensures
        valid(comp(a, b)),
        src_of(comp(a, b)) == src_of(a),
        dst_of(comp(a, b)) == dst_of(b),
        rules_of(comp(a, b)) == rules_of(a).union(rules_of(b)),
        cost_of(comp(a, b)) == cost_of(a).plus(cost_of(b)),
    decreases a.len(),
{
    if a.len() == 0 {
        lemma_src_empty(b);
        assert(b.len() == 0);
        assert(dst_of(b) =~= Seq::<char>::empty());
        assert(rules_of(a).union(rules_of(b)) =~= Set::<Seq<char>>::empty());
        law_cost_sum_zero(no_cost());
    } else {
        let (p, q) = lemma_head(a, b);
        let m = merge(a.take(p), b.take(q));
        let t = comp(a.skip(p), b.skip(q));
        lemma_comp_sums(a.skip(p), b.skip(q));
        lemma_of_split(a, p);
        lemma_of_split(b, q);
        lemma_of_add(seq![m], t);
        lemma_of_single(m);
        lemma_merge_sums(a.take(p), b.take(q));
        lemma_src_empty(a.take(p));
        assert(m.src().len() >= 1);
        assert(rules_of(comp(a, b)) =~= rules_of(a).union(rules_of(b)));
        lemma_cost_interchange(
            cost_of(a.take(p)),
            cost_of(b.take(q)),
            cost_of(a.skip(p)),
            cost_of(b.skip(q)),
        );
    }
}

proof fn lemma_cost_interchange(a: NormalizationCost, b: NormalizationCost, c: NormalizationCost, d: NormalizationCost)
    ensures
        a.plus(b).plus(c.plus(d)) == a.plus(c).plus(b.plus(d)),
{
}

proof fn lemma_merge_sums(x: Seq<Step>, y: Seq<Step>)
    requires
        meets(x, y),
    ensures
        merge(x, y).src() == src_of(x),
        merge(x, y).dst() == dst_of(y),
        merge(x, y).rules() == rules_of(x).union(rules_of(y)),
        merge(x, y).cost() == cost_of(x).plus(cost_of(y)),
{
    if x.len() == 1 && y.len() == 1 && x[0] is Keep && y[0] is Keep {
        assert(x =~= seq![x[0]]);
        assert(y =~= seq![y[0]]);
        lemma_of_single(x[0]);
        lemma_of_single(y[0]);
        assert(rules_of(x).union(rules_of(y)) =~= Set::<Seq<char>>::empty());
        law_cost_sum_zero(no_cost());
        assert(x[0].dst() == y[0].src());
        assert(x[0].src() == x[0].dst());
    }
}

/// A composition can be cut at any joint position.
pub proof fn lemma_comp_split(a: Seq<Step>, b: Seq<Step>, p: int, q: int)
    requires
        meets(a, b),
        joint(a, b, p, q),
    ensures
        comp(a, b) == comp(a.take(p), b.take(q)) + comp(a.skip(p), b.skip(q)),
    decreases a.len(),
{
    lemma_joint_meets(a, b, p, q);
    if p == 0 {
        assert(a.take(0) =~= Seq::<Step>::empty());
        lemma_src_empty(b.take(q));
        assert(q == 0);
        assert(a.skip(0) =~= a);
        assert(b.skip(0) =~= b);
        assert(comp(a.take(p), b.take(q)) =~= Seq::<Step>::empty());
        assert(comp(a, b) =~= comp(a.take(p), b.take(q)) + comp(a.skip(p), b.skip(q)));
    } else {
        let (p1, q1) = lemma_head(a, b);
        lemma_joint_is_cut(a, b, p, q);
        assert(p1 <= p) by {
            if p < p1 {
                assert(!is_cut(a, b, p));
            }
        }
        lemma_dst_len_monotone(a, p1, p);
        assert(q1 <= q) by {
            if q < q1 {
                lemma_src_len_strict(b, q, q1);
            }
        }
        let at = a.take(p);
        let bt = b.take(q);
        assert(at.take(p1) =~= a.take(p1));
        assert(bt.take(q1) =~= b.take(q1));
        assert(joint(at, bt, p1, q1));
        assert forall|k: int| 1 <= k < p1 implies !#[trigger] is_cut(at, bt, k) by {
            assert(at.take(k) =~= a.take(k));
            assert(!is_cut(a, b, k));
            if is_cut(at, bt, k) {
                let r = lemma_cut_is_joint(at, bt, k);
                assert(bt.take(r) =~= b.take(r));
                lemma_joint_is_cut(a, b, k, r);
            }
        }
        lemma_comp_head(at, bt, p1, q1);
        let asuf = a.skip(p1);
        let bsuf = b.skip(q1);
        lemma_of_split(at, p1);
        lemma_of_split(bt, q1);
        assert(asuf.take(p - p1) =~= at.skip(p1));
        assert(bsuf.take(q - q1) =~= bt.skip(q1));
        assert(asuf.skip(p - p1) =~= a.skip(p));
        assert(bsuf.skip(q - q1) =~= b.skip(q));
        assert(joint(asuf, bsuf, p - p1, q - q1));
        lemma_comp_split(asuf, bsuf, p - p1, q - q1);
        assert(comp(a, b) =~= comp(at, bt) + comp(a.skip(p), b.skip(q)));
    }
}

/// Every cut of a composition comes from a joint cut of its two runs.
pub proof fn lemma_comp_origin(a: Seq<Step>, b: Seq<Step>, k: int) -> (pq: (int, int))
    requires
        meets(a, b),
        0 <= k <= comp(a, b).len(),
    ensures
        joint(a, b, pq.0, pq.1),
        k >= 1 ==> pq.0 >= 1,
        comp(a, b).take(k) == comp(a.take(pq.0), b.take(pq.1)),
        comp(a, b).skip(k) == comp(a.skip(pq.0), b.skip(pq.1)),
    decreases a.len(),
{
    if k == 0 {
        assert(a.take(0) =~= Seq::<Step>::empty());
        assert(b.take(0) =~= Seq::<Step>::empty());
        assert(a.skip(0) =~= a);
        assert(b.skip(0) =~= b);
        assert(comp(a, b).take(0) =~= comp(a.take(0), b.take(0)));
        assert(comp(a, b).skip(0) =~= comp(a, b));
        (0, 0)
    } else {
        assert(a.len() > 0);
        let (p1, q1) = lemma_head(a, b);
        let rest = comp(a.skip(p1), b.skip(q1));
        let (p2, q2) = lemma_comp_origin(a.skip(p1), b.skip(q1), k - 1);
        let p = p1 + p2;
        let q = q1 + q2;
        lemma_joint_extend(a, b, p1, q1, p2, q2);
        lemma_comp_single_group(a, b, p1, q1);
        assert(a.skip(p) =~= a.skip(p1).skip(p2));
        assert(b.skip(q) =~= b.skip(q1).skip(q2));
        let whole = comp(a, b);
        assert(whole.take(k) =~= seq![whole[0]] + rest.take(k - 1));
        assert(whole.skip(k) =~= rest.skip(k - 1));
        (p, q)
    }
}

/// A joint cut of what follows a joint cut is a joint cut of the whole.
pub proof fn lemma_joint_extend(a: Seq<Step>, b: Seq<Step>, p1: int, q1: int, p2: int, q2: int)
    requires
        meets(a, b),
        joint(a, b, p1, q1),
        joint(a.skip(p1), b.skip(q1), p2, q2),
    ensures
        joint(a, b, p1 + p2, q1 + q2),
        comp(a.take(p1 + p2), b.take(q1 + q2)) == comp(a.take(p1), b.take(q1)) + comp(
            a.skip(p1).take(p2),
            b.skip(q1).take(q2),
        ),
{
    let x = a.take(p1 + p2);
    let y = b.take(q1 + q2);
    assert(x.take(p1) =~= a.take(p1));
    assert(y.take(q1) =~= b.take(q1));
    assert(x.skip(p1) =~= a.skip(p1).take(p2));
    assert(y.skip(q1) =~= b.skip(q1).take(q2));
    lemma_of_split(x, p1);
    lemma_of_split(y, q1);
    lemma_joint_meets(a, b, p1 + p2, q1 + q2);
    lemma_comp_split(x, y, p1, q1);
}

/// The first group of a composition, composed on its own, is one step.
pub proof fn lemma_comp_single_group(a: Seq<Step>, b: Seq<Step>, p: int, q: int)
    requires
        meets(a, b),
        1 <= p,
        joint(a, b, p, q),
        forall|k: int| 1 <= k < p ==> !#[trigger] is_cut(a, b, k),
    ensures
        comp(a.take(p), b.take(q)) == seq![merge(a.take(p), b.take(q))],
{
    let at = a.take(p);
    let bt = b.take(q);
    lemma_joint_meets(a, b, p, q);
    assert(at.take(p) =~= at);
    assert(bt.take(q) =~= bt);
    assert forall|k: int| 1 <= k < p implies !#[trigger] is_cut(at, bt, k) by {
        assert(at.take(k) =~= a.take(k));
        assert(!is_cut(a, b, k));
        if is_cut(at, bt, k) {
            let r = lemma_cut_is_joint(at, bt, k);
            assert(bt.take(r) =~= b.take(r));
            lemma_joint_is_cut(a, b, k, r);
        }
    }
    lemma_comp_head(at, bt, p, q);
    assert(comp(at.skip(p), bt.skip(q)) =~= Seq::<Step>::empty());
    assert(comp(at, bt) =~= seq![merge(at, bt)]);
}

/// Two runs that act on three texts in turn can be merged in either grouping.
proof fn lemma_merge_associative(a: Seq<Step>, b: Seq<Step>, c: Seq<Step>)
    requires
        meets(a, b),
        meets(b, c),
        comp(a, b).len() >= 1,
        comp(b, c).len() >= 1 || b.len() == 0,
    ensures
        merge(comp(a, b), c) == merge(a, comp(b, c)),
{
    let ab = comp(a, b);
    let bc = comp(b, c);
    lemma_comp_sums(a, b);
    lemma_comp_sums(b, c);
    assert(rules_of(ab).union(rules_of(c)) =~= rules_of(a).union(rules_of(bc)));
    law_cost_sum_associative(cost_of(a), cost_of(b), cost_of(c));
    if ab.len() == 1 && c.len() == 1 && ab[0] is Keep && c[0] is Keep {
        lemma_comp_keep(a, b);
        lemma_of_single(b[0]);
        lemma_of_single(c[0]);
        assert(b =~= seq![b[0]]);
        assert(c =~= seq![c[0]]);
        lemma_comp_two_keeps(b, c);
    }
    if a.len() == 1 && bc.len() == 1 && a[0] is Keep && bc[0] is Keep {
        lemma_comp_keep(b, c);
        lemma_of_single(a[0]);
        lemma_of_single(b[0]);
        assert(a =~= seq![a[0]]);
        assert(b =~= seq![b[0]]);
        lemma_comp_two_keeps(a, b);
    }
}

/// Only two kept characters compose to a single kept character.
proof fn lemma_comp_keep(a: Seq<Step>, b: Seq<Step>)
    requires
        meets(a, b),
        comp(a, b).len() == 1,
        comp(a, b)[0] is Keep,
    ensures
        a.len() == 1,
        b.len() == 1,
        a[0] is Keep,
        b[0] is Keep,
        comp(a, b)[0] == a[0],
{
    let (p, q) = lemma_head(a, b);
    let rest = comp(a.skip(p), b.skip(q));
    assert(rest.len() == 0);
    if a.skip(p).len() > 0 {
        let z = lemma_head(a.skip(p), b.skip(q));
    }
    assert(a.take(p) =~= a);
    assert(src_of(b.skip(q)).len() == 0);
    lemma_src_empty(b.skip(q));
    assert(b.take(q) =~= b);
    assert(comp(a, b)[0] == merge(a.take(p), b.take(q)));
}

pub proof fn lemma_comp_two_keeps(a: Seq<Step>, b: Seq<Step>)
    requires
        meets(a, b),
        a.len() == 1,
        b.len() == 1,
        a[0] is Keep,
        b[0] is Keep,
    ensures
        comp(a, b) == seq![a[0]],
{
    let (p, q) = lemma_head(a, b);
    assert(a.take(p) =~= a);
    lemma_src_len_strict(b, 0, q);
    assert(a =~= seq![a[0]]);
    assert(b =~= seq![b[0]]);
    lemma_of_single(a[0]);
    lemma_of_single(b[0]);
    if q == 0 {
        assert(b.take(q) =~= Seq::<Step>::empty());
    }
    assert(b.take(q) =~= b);
    assert(comp(a.skip(p), b.skip(q)) =~= Seq::<Step>::empty());
    assert(comp(a, b) =~= seq![a[0]]);
}

/// Composition is associative: however three normalizations are grouped, the same steps result,
/// with the same texts, rules and costs.
pub proof fn law_compose_associative(a: Seq<Step>, b: Seq<Step>, c: Seq<Step>)
    requires
        meets(a, b),
        meets(b, c),
    ensures
        comp(comp(a, b), c) == comp(a, comp(b, c)),
    decreases a.len(),
{
    let ab = comp(a, b);
    let bc = comp(b, c);
    lemma_comp_sums(a, b);
    lemma_comp_sums(b, c);
    if a.len() == 0 {
        assert(comp(ab, c) =~= comp(a, bc));
    } else {
        let hb = lemma_head(a, b);
        let (k, r) = lemma_head(ab, c);
        let (p, q) = lemma_comp_origin(a, b, k);
        lemma_joint_meets(a, b, p, q);
        lemma_comp_sums(a.take(p), b.take(q));
        assert(joint(b, c, q, r));
        lemma_joint_meets(b, c, q, r);
        lemma_comp_split(b, c, q, r);
        let front = comp(b.take(q), c.take(r));
        let l = front.len() as int;
        lemma_comp_sums(b.take(q), c.take(r));
        assert(bc.take(l) =~= front);
        assert(bc.skip(l) =~= comp(b.skip(q), c.skip(r)));
        assert(joint(a, bc, p, l));
        assert forall|p2: int| 1 <= p2 < p implies !#[trigger] is_cut(a, bc, p2) by {
            lemma_no_earlier_cut(a, b, c, k, p, q, p2);
        }
        lemma_comp_head(a, bc, p, l);
        lemma_joint_meets(a, bc, p, l);
        law_compose_associative(a.skip(p), b.skip(q), c.skip(r));
        if q > 0 {
            let hd = lemma_head(b.take(q), c.take(r));
        }
        lemma_merge_associative(a.take(p), b.take(q), c.take(r));
        assert(comp(ab, c) =~= comp(a, bc));
    }
}

/// A cut of the right grouping before the first cut of the left grouping cannot exist.
proof fn lemma_no_earlier_cut(a: Seq<Step>, b: Seq<Step>, c: Seq<Step>, k: int, p: int, q: int, p2: int)
    requires
        meets(a, b),
        meets(b, c),
        joint(a, b, p, q),
        1 <= p2 < p,
        0 <= k <= comp(a, b).len(),
        comp(a, b).take(k) == comp(a.take(p), b.take(q)),
        forall|k2: int| 1 <= k2 < k ==> !#[trigger] is_cut(comp(a, b), c, k2),
    ensures
        !is_cut(a, comp(b, c), p2),
{
    if is_cut(a, comp(b, c), p2) {
        let ab = comp(a, b);
        let bc = comp(b, c);
        lemma_comp_sums(a, b);
        lemma_comp_sums(b, c);
        let l2 = lemma_cut_is_joint(a, bc, p2);
        let (q2, r2) = lemma_comp_origin(b, c, l2);
        lemma_joint_meets(b, c, q2, r2);
        lemma_comp_sums(b.take(q2), c.take(r2));
        assert(joint(a, b, p2, q2));
        lemma_joint_meets(a, b, p2, q2);
        lemma_comp_split(a, b, p2, q2);
        let f2 = comp(a.take(p2), b.take(q2));
        let k2 = f2.len() as int;
        lemma_comp_sums(a.take(p2), b.take(q2));
        assert(ab.take(k2) =~= f2);
        assert(joint(ab, c, k2, r2));
        lemma_joint_is_cut(ab, c, k2, r2);
        let h2 = lemma_head(a.take(p2), b.take(q2));
        lemma_joint_meets(a, b, p, q);
        lemma_dst_len_monotone(a, p2, p);
        if q < q2 {
            lemma_src_len_strict(b, q, q2);
        }
        let x = a.take(p);
        let y = b.take(q);
        assert(x.take(p2) =~= a.take(p2));
        assert(y.take(q2) =~= b.take(q2));
        lemma_comp_split(x, y, p2, q2);
        lemma_joint_meets(x, y, p2, q2);
        let h3 = lemma_head(x.skip(p2), y.skip(q2));
        assert(k == comp(x, y).len());
        assert(k2 < k);
        assert(!is_cut(ab, c, k2));
    }
}

pub proof fn lemma_keeps_index(text: Seq<char>)
    ensures
        keeps(text).len() == text.len(),
        forall|i: int| 0 <= i < text.len() ==> #[trigger] keeps(text)[i] == (Step::Keep { c: text[i] }),
    decreases text.len(),
{
    if text.len() > 0 {
        lemma_keeps_index(text.drop_last());
    }
}

pub proof fn lemma_keeps(text: Seq<char>)
    ensures
        src_of(keeps(text)) == text,
        dst_of(keeps(text)) == text,
        rules_of(keeps(text)) == Set::<Seq<char>>::empty(),
        cost_of(keeps(text)) == no_cost(),
        valid(keeps(text)),
    decreases text.len(),
{
    let k = keeps(text);
    lemma_keeps_index(text);
    if text.len() == 0 {
        assert(text =~= Seq::empty());
    } else {
        assert(k.drop_last() =~= keeps(text.drop_last()));
        lemma_keeps(text.drop_last());
        assert(text =~= text.drop_last() + seq![text.last()]);
        assert(rules_of(k) =~= Set::<Seq<char>>::empty());
        law_cost_sum_zero(no_cost());
    }
}

/// Kept characters are kept characters, however the text is cut.
pub proof fn lemma_keeps_parts(text: Seq<char>, i: int)
    requires
        0 <= i <= text.len(),
    ensures
        keeps(text).take(i) == keeps(text.take(i)),
        keeps(text).skip(i) == keeps(text.skip(i)),
        keeps(text) == keeps(text.take(i)) + keeps(text.skip(i)),
{
    lemma_keeps_index(text);
    lemma_keeps_index(text.take(i));
    lemma_keeps_index(text.skip(i));
    assert(keeps(text).take(i) =~= keeps(text.take(i)));
    assert(keeps(text).skip(i) =~= keeps(text.skip(i)));
    assert(keeps(text) =~= keeps(text.take(i)) + keeps(text.skip(i)));
}

proof fn lemma_merge_edit_left(e: Step, y: Seq<Step>)
    requires
        e is Edit,
        dst_of(y) == e.dst(),
        rules_of(y) == Set::<Seq<char>>::empty(),
        cost_of(y) == no_cost(),
    ensures
        merge(seq![e], y) == e,
{
    lemma_of_single(e);
    law_cost_sum_zero(e.cost());
    assert(e.rules().union(Set::empty()) =~= e.rules());
}

proof fn lemma_merge_edit_right(x: Seq<Step>, e: Step)
    requires
        e is Edit,
        src_of(x) == e.src(),
        rules_of(x) == Set::<Seq<char>>::empty(),
        cost_of(x) == no_cost(),
    ensures
        merge(x, seq![e]) == e,
{
    lemma_of_single(e);
    law_cost_sum_zero(e.cost());
    assert(Set::empty().union(e.rules()) =~= e.rules());
}

/// A text that passes unchanged and is then normalized is just normalized.
pub proof fn law_compose_identity_left(y: Seq<Step>)
    requires
        valid(y),
    ensures
        comp(keeps(src_of(y)), y) == y,
    decreases y.len(),
{
    let s = src_of(y);
    let a = keeps(s);
    lemma_keeps(s);
    lemma_keeps_index(s);
    if y.len() == 0 {
        assert(comp(a, y) =~= y);
    } else {
        let n = y[0].src().len() as int;
        let t = y.drop_first();
        assert(y =~= seq![y[0]] + t);
        assert(y.take(1) =~= seq![y[0]]);
        assert(y.skip(1) =~= t);
        lemma_of_split(y, 1);
        lemma_of_single(y[0]);
        lemma_keeps_parts(s, n);
        lemma_keeps(s.take(n));
        assert(s.take(n) =~= y[0].src());
        assert(s.skip(n) =~= src_of(t));
        assert(joint(a, y, n, 1));
        assert forall|k: int| 1 <= k < n implies !#[trigger] is_cut(a, y, k) by {
            lemma_keeps_parts(s, k);
            lemma_keeps(s.take(k));
        }
        lemma_comp_head(a, y, n, 1);
        law_compose_identity_left(t);
        if y[0] is Edit {
            lemma_merge_edit_right(a.take(n), y[0]);
        }
        assert(comp(a, y) =~= y);
    }
}

/// A normalized text that then passes unchanged is just normalized.
pub proof fn law_compose_identity_right(x: Seq<Step>)
    requires
        valid(x),
    ensures
        comp(x, keeps(dst_of(x))) == x,
    decreases x.len(),
{
    let d = dst_of(x);
    let b = keeps(d);
    lemma_keeps(d);
    lemma_keeps_index(d);
    if x.len() == 0 {
        assert(comp(x, b) =~= x);
    } else {
        let n = x[0].dst().len() as int;
        let t = x.drop_first();
        assert(x =~= seq![x[0]] + t);
        assert(x.take(1) =~= seq![x[0]]);
        assert(x.skip(1) =~= t);
        lemma_of_split(x, 1);
        lemma_of_single(x[0]);
        lemma_keeps_parts(d, n);
        lemma_keeps(d.take(n));
        assert(d.take(n) =~= x[0].dst());
        assert(d.skip(n) =~= dst_of(t));
        assert(joint(x, b, 1, n));
        lemma_comp_head(x, b, 1, n);
        law_compose_identity_right(t);
        if x[0] is Edit {
            lemma_merge_edit_left(x[0], b.take(n));
        }
        assert(comp(x, b) =~= x);
    }
}

} // verus!
