//! Joining two span maps into one.

use vstd::prelude::*;
use crate::error::{Error, Result};
use crate::span::builder::{push_kept, push_rewritten};
use crate::span::cost::{law_cost_sum_zero, no_cost, NormalizationCost};
use crate::span::layout::{bound, lemma_segment, lemma_starts, piece_at};
use crate::span::rules::{copy_rules, insert_rules};
use crate::span::similar::law_composition_is_determined;
use crate::span::steps::{
    comp, cost_of, dst_of, is_cut, joint, keeps, law_compose_identity_left, lemma_comp_single_group,
    lemma_comp_split, lemma_comp_sums, lemma_cut_is_joint, lemma_dst_len_monotone,
    lemma_joint_extend, lemma_joint_is_cut, lemma_joint_meets, lemma_keeps, lemma_of_add,
    lemma_of_single, lemma_of_split, lemma_src_empty, lemma_src_len_strict, meets, merge, rules_of,
    src_of, valid, Step,
};
use crate::span::{
    laid_out, lemma_keep_run, lemma_lists_none, lists_rules, RuleId, Segment, SegmentKind, Span,
    SpanMap,
};
use crate::text::{decimal, lemma_utf8_len_add, lemma_utf8_len_split, push_decimal, utf8_len};

verus! {

broadcast use crate::text::lemma_text_char_range;

/// Segment `i` of a map holds step `p`, or `p` is the end of the run.
pub open spec fn holds_step(m: SpanMap, steps: Seq<Step>, i: int, p: int) -> bool {
    &&& 0 <= i <= m.segments@.len()
    &&& bound(steps, i) <= p <= steps.len()
    &&& i < m.segments@.len() ==> p < bound(steps, i + 1)
    &&& p > bound(steps, i) ==> steps[bound(steps, i)] is Keep
}

/// Offsets into the text between the two runs compare alike in bytes and in characters.
pub proof fn lemma_middle_order(x: Seq<Step>, y: Seq<Step>, p: int, q: int)
    requires
        meets(x, y),
        0 <= p <= x.len(),
        0 <= q <= y.len(),
    ensures
        utf8_len(dst_of(x.take(p))) <= utf8_len(src_of(y.take(q))) <==> dst_of(x.take(p)).len() <= src_of(y.take(q)).len(),
        utf8_len(dst_of(x.take(p))) == utf8_len(src_of(y.take(q))) <==> dst_of(x.take(p)).len() == src_of(y.take(q)).len(),
{
    lemma_of_split(x, p);
    lemma_of_split(y, q);
    let b = dst_of(x);
    let m = dst_of(x.take(p)).len() as int;
    let n = src_of(y.take(q)).len() as int;
    assert(b.take(m) =~= dst_of(x.take(p)));
    assert(b.take(n) =~= src_of(y.take(q)));
    if m <= n {
        lemma_utf8_len_split(b, m, n);
    } else {
        lemma_utf8_len_split(b, n, m);
    }
}

/// No cut falls strictly inside a rewritten run.
proof fn lemma_no_cut_inside(x: Seq<Step>, y: Seq<Step>, k: int, q: int)
    requires
        valid(y),
        0 <= k <= x.len(),
        0 <= q < y.len(),
        src_of(y.take(q)).len() < dst_of(x.take(k)).len() < src_of(y.take(q + 1)).len(),
    ensures
        !is_cut(x, y, k),
{
    if is_cut(x, y, k) {
        let r = lemma_cut_is_joint(x, y, k);
        if r <= q {
            lemma_src_len_strict(y, r, q);
        } else {
            lemma_src_len_strict(y, q + 1, r);
        }
    }
}

/// Where a composition goes on from a joint cut, given the next one.
proof fn lemma_comp_next(x: Seq<Step>, y: Seq<Step>, p: int, q: int, p2: int, q2: int)
    requires
        meets(x, y),
        joint(x, y, p, q),
        joint(x, y, p2, q2),
        p <= p2,
        q <= q2,
    ensures
        comp(x.take(p2), y.take(q2)) == comp(x.take(p), y.take(q)) + comp(x.subrange(p, p2), y.subrange(q, q2)),
        meets(x.subrange(p, p2), y.subrange(q, q2)),
        meets(x.take(p), y.take(q)),
        src_of(comp(x.take(p), y.take(q))) == src_of(x.take(p)),
        dst_of(comp(x.take(p), y.take(q))) == dst_of(y.take(q)),
        src_of(x.take(p2)) == src_of(x.take(p)) + src_of(x.subrange(p, p2)),
        dst_of(y.take(q2)) == dst_of(y.take(q)) + dst_of(y.subrange(q, q2)),
{
    let xt = x.take(p2);
    let yt = y.take(q2);
    lemma_joint_meets(x, y, p2, q2);
    lemma_joint_meets(x, y, p, q);
    assert(xt.take(p) =~= x.take(p));
    assert(yt.take(q) =~= y.take(q));
    assert(xt.skip(p) =~= x.subrange(p, p2));
    assert(yt.skip(q) =~= y.subrange(q, q2));
    lemma_joint_meets(xt, yt, p, q);
    lemma_comp_split(xt, yt, p, q);
    lemma_comp_sums(x.take(p), y.take(q));
    lemma_of_split(xt, p);
    lemma_of_split(yt, q);
}

/// The next group of a composition is one step if no cut falls inside it.
proof fn lemma_comp_group(x: Seq<Step>, y: Seq<Step>, p: int, q: int, p2: int, q2: int)
    requires
        meets(x, y),
        joint(x, y, p, q),
        joint(x, y, p2, q2),
        p < p2,
        q <= q2,
        forall|k: int| p < k < p2 ==> !#[trigger] is_cut(x, y, k),
    ensures
        comp(x.subrange(p, p2), y.subrange(q, q2)) == seq![merge(x.subrange(p, p2), y.subrange(q, q2))],
{
    lemma_joint_meets(x, y, p, q);
    let xs = x.skip(p);
    let ys = y.skip(q);
    assert(xs.take(p2 - p) =~= x.subrange(p, p2));
    assert(ys.take(q2 - q) =~= y.subrange(q, q2));
    assert(x.take(p2).take(p) =~= x.take(p));
    assert(y.take(q2).take(q) =~= y.take(q));
    assert(x.take(p2).skip(p) =~= x.subrange(p, p2));
    assert(y.take(q2).skip(q) =~= y.subrange(q, q2));
    lemma_of_split(x.take(p2), p);
    lemma_of_split(y.take(q2), q);
    assert(joint(xs, ys, p2 - p, q2 - q));
    assert forall|k: int| 1 <= k < p2 - p implies !#[trigger] is_cut(xs, ys, k) by {
        assert(!is_cut(x, y, p + k));
        if is_cut(xs, ys, k) {
            let r = lemma_cut_is_joint(xs, ys, k);
            lemma_joint_extend(x, y, p, q, k, r);
            lemma_joint_is_cut(x, y, p + k, q + r);
        }
    }
    lemma_comp_single_group(xs, ys, p2 - p, q2 - q);
}

/// A group of steps of both runs that no common cut divides.
struct Group {
    /// The segment of the first map at which the next group begins.
    i: usize,
    /// The segment of the second map at which the next group begins.
    j: usize,
    src_byte: u32,
    src_char: u32,
    dst_byte: u32,
    dst_char: u32,
    rules: Vec<RuleId>,
    cost: NormalizationCost,
    p: Ghost<int>,
    q: Ghost<int>,
}

impl Group {
    /// The group reaches from step `p` of `x` and step `q` of `y` to the nearest common cut.
    spec fn is_next(&self, inner: SpanMap, outer: SpanMap, x: Seq<Step>, y: Seq<Step>, p: int, q: int) -> bool {
        let pe = self.p@;
        let qe = self.q@;
        let xs = x.subrange(p, pe);
        let ys = y.subrange(q, qe);
        &&& p < pe
        &&& q < qe
        &&& joint(x, y, pe, qe)
        &&& forall|k: int| p < k < pe ==> !#[trigger] is_cut(x, y, k)
        &&& holds_step(inner, x, self.i as int, pe)
        &&& holds_step(outer, y, self.j as int, qe)
        &&& merge(xs, ys) is Edit
        &&& lists_rules(self.rules@, rules_of(xs).union(rules_of(ys)))
        &&& self.cost == cost_of(xs).plus(cost_of(ys))
        &&& self.src_byte == utf8_len(src_of(x.take(pe)))
        &&& self.src_char == src_of(x.take(pe)).len()
        &&& self.dst_byte == utf8_len(dst_of(y.take(qe)))
        &&& self.dst_char == dst_of(y.take(qe)).len()
    }
}

impl Group {
    /// The stretch from step `p` of `x` and step `q` of `y` that both runs keep.
    spec fn is_kept(&self, inner: SpanMap, outer: SpanMap, x: Seq<Step>, y: Seq<Step>, p: int, q: int) -> bool {
        let pe = self.p@;
        let qe = self.q@;
        let t = src_of(x.subrange(p, pe));
        &&& p < pe
        &&& joint(x, y, pe, qe)
        &&& holds_step(inner, x, self.i as int, pe)
        &&& holds_step(outer, y, self.j as int, qe)
        &&& t.len() > 0
        &&& comp(x.take(pe), y.take(qe)) == comp(x.take(p), y.take(q)) + keeps(t)
        &&& src_of(comp(x.take(p), y.take(q))) == src_of(x.take(p))
        &&& dst_of(comp(x.take(p), y.take(q))) == dst_of(y.take(q))
        &&& src_of(x.take(pe)) == src_of(x.take(p)) + t
        &&& dst_of(y.take(qe)) == dst_of(y.take(q)) + t
        &&& self.src_byte == utf8_len(src_of(x.take(pe)))
        &&& self.src_char == src_of(x.take(pe)).len()
        &&& self.dst_byte == utf8_len(dst_of(y.take(qe)))
        &&& self.dst_char == dst_of(y.take(qe)).len()
    }
}

/// What a part of a segment adds to the sums: nothing if it keeps, and all if it rewrites.
pub proof fn lemma_segment_sums(m: SpanMap, steps: Seq<Step>, i: int, s: int, e: int)
    requires
        m.of(steps),
        0 <= i < m.segments@.len(),
        holds_step(m, steps, i, s),
        s < e <= bound(steps, i + 1),
        m.segments@[i].kind != SegmentKind::Identity ==> e == bound(steps, i + 1),
    ensures
        lists_rules(m.segments@[i].rules@, rules_of(steps.subrange(s, e))),
        m.segments@[i].cost == cost_of(steps.subrange(s, e)),
        m.segments@[i].kind != SegmentKind::Identity ==> steps[s] is Edit && e == s + 1 && s == bound(steps, i),
{
    lemma_segment(steps, i);
    let seg = m.segments@[i];
    assert(seg.stores(piece_at(steps, i)));
    if seg.kind == SegmentKind::Identity {
        assert(steps[bound(steps, i)] is Keep);
        lemma_keep_run(steps, s, e);
        lemma_keeps(src_of(steps.subrange(s, e)));
    } else {
        assert(steps.subrange(s, e) =~= seq![steps[s]]);
        lemma_of_single(steps[s]);
    }
}

/// Gathers the next group: widens it until a position is reached where both runs can be cut.
fn gather(
    inner: &SpanMap,
    outer: &SpanMap,
    from_i: usize,
    from_j: usize,
    Ghost(x): Ghost<Seq<Step>>,
    Ghost(y): Ghost<Seq<Step>>,
    Ghost(p): Ghost<int>,
    Ghost(q): Ghost<int>,
) -> (r: Group)
    requires
        inner.of(x),
        outer.of(y),
        meets(x, y),
        joint(x, y, p, q),
        from_i < inner.segments@.len(),
        from_j < outer.segments@.len(),
        holds_step(*inner, x, from_i as int, p),
        holds_step(*outer, y, from_j as int, q),
        x[p].dst().len() > 0,
        inner.segments@[from_i as int].kind != SegmentKind::Identity || outer.segments@[from_j as int].kind
            != SegmentKind::Identity,
    ensures
        r.is_next(*inner, *outer, x, y, p, q),
{
    let ni: usize = inner.segments.len();
    let no: usize = outer.segments.len();
    let mut i: usize = from_i;
    let mut j: usize = from_j;
    let mut rules: Vec<RuleId> = Vec::new();
    let mut cost: NormalizationCost = NormalizationCost::default();
    // The parts of the current segments that belong to the group begin here.
    let ghost mut ps: int = p;
    let ghost mut qs: int = q;
    proof {
        lemma_lists_none(rules@);
        assert(x.subrange(p, p) =~= Seq::<Step>::empty());
        assert(y.subrange(q, q) =~= Seq::<Step>::empty());
        assert(Set::<Seq<char>>::empty().union(Set::empty()) =~= Set::empty());
        law_cost_sum_zero(no_cost());
        assert(inner.segments@[i as int].stores(piece_at(x, i as int)));
        assert(outer.segments@[j as int].stores(piece_at(y, j as int)));
        lemma_segment(x, i as int);
        lemma_segment(y, j as int);
        lemma_output_grows(x, p, bound(x, i + 1));
        lemma_src_len_strict(y, q, bound(y, j + 1));
        lemma_middle_order(x, y, bound(x, i + 1), bound(y, j + 1));
    }
    while inner.segments[i].dst.byte.end != outer.segments[j].src.byte.end && !(inner.segments[i].dst.byte.end
        < outer.segments[j].src.byte.end && outer.segments[j].kind == SegmentKind::Identity) && !(
    outer.segments[j].src.byte.end < inner.segments[i].dst.byte.end && inner.segments[i].kind
        == SegmentKind::Identity)
        invariant
            inner.of(x),
            outer.of(y),
            meets(x, y),
            joint(x, y, p, q),
            p <= ps,
            q <= qs,
            ni == inner.segments@.len(),
            no == outer.segments@.len(),
            i < ni,
            j < no,
            holds_step(*inner, x, i as int, ps),
            holds_step(*outer, y, j as int, qs),
            inner.segments@[i as int].stores(piece_at(x, i as int)),
            outer.segments@[j as int].stores(piece_at(y, j as int)),
            lists_rules(rules@, rules_of(x.subrange(p, ps)).union(rules_of(y.subrange(q, qs)))),
            cost == cost_of(x.subrange(p, ps)).plus(cost_of(y.subrange(q, qs))),
            dst_of(x.take(ps)).len() < src_of(y.take(bound(y, j + 1))).len(),
            src_of(y.take(qs)).len() < dst_of(x.take(bound(x, i + 1))).len(),
            forall|k: int| p < k <= ps ==> !#[trigger] is_cut(x, y, k),
            ({
                ||| dst_of(x.take(ps)).len() >= src_of(y.take(qs)).len() && outer.segments@[j as int].kind
                    != SegmentKind::Identity
                ||| dst_of(x.take(ps)).len() <= src_of(y.take(qs)).len() && inner.segments@[i as int].kind
                    != SegmentKind::Identity && inner.segments@[i as int].kind != SegmentKind::Delete
            }),
        decreases ni - i + no - j,
    {
        proof {
            lemma_segment(x, i as int);
            lemma_segment(y, j as int);
            lemma_middle_order(x, y, bound(x, i + 1), bound(y, j + 1));
        }
        if inner.segments[i].dst.byte.end < outer.segments[j].src.byte.end {
            proof {
                let pe = bound(x, i + 1);
                lemma_segment_sums(*inner, x, i as int, ps, pe);
                lemma_inner_advance(x, y, p, ps, pe, qs, bound(y, j + 1));
                lemma_sums_inner(x, p, ps, pe, y.subrange(q, qs));
                lemma_next_segment(*inner, x, i as int);
                lemma_more_output(x, y, pe, bound(y, j + 1));
            }
            insert_rules(
                &mut rules,
                &inner.segments[i].rules,
                Ghost(rules_of(x.subrange(p, ps)).union(rules_of(y.subrange(q, qs)))),
                Ghost(rules_of(x.subrange(ps, bound(x, i + 1)))),
            );
            cost.add(&inner.segments[i].cost);
            proof {
                ps = bound(x, i + 1);
            }
            i += 1;
            proof {
                lemma_segment(x, i as int);
                lemma_dst_len_monotone(x, ps, bound(x, i + 1));
                assert(inner.segments@[i as int].stores(piece_at(x, i as int)));
            }
        } else {
            proof {
                let qe = bound(y, j + 1);
                lemma_segment_sums(*outer, y, j as int, qs, qe);
                lemma_sums_outer(y, q, qs, qe, x.subrange(p, ps));
                lemma_next_segment(*outer, y, j as int);
                lemma_more_source(x, y, bound(x, i + 1), qe);
                lemma_output_grew(x, ps, bound(x, i + 1));
            }
            insert_rules(
                &mut rules,
                &outer.segments[j].rules,
                Ghost(rules_of(x.subrange(p, ps)).union(rules_of(y.subrange(q, qs)))),
                Ghost(rules_of(y.subrange(qs, bound(y, j + 1)))),
            );
            cost.add(&outer.segments[j].cost);
            proof {
                qs = bound(y, j + 1);
            }
            j += 1;
            proof {
                lemma_segment(y, j as int);
                lemma_src_len_strict(y, qs, bound(y, j + 1));
                assert(outer.segments@[j as int].stores(piece_at(y, j as int)));
            }
        }
    }
    let last = &inner.segments[i];
    let low = &outer.segments[j];
    let ghost pe = bound(x, i + 1);
    let ghost qe = bound(y, j + 1);
    proof {
        lemma_segment(x, i as int);
        lemma_segment(y, j as int);
        lemma_middle_order(x, y, pe, qe);
    }
    let ghost (pr, qr) = lemma_group_end(x, y, p, q, ps, qs, pe, qe);
    proof {
        lemma_middle_order(x, y, pr, qr);
        lemma_segment_sums(*inner, x, i as int, ps, pr);
        lemma_segment_sums(*outer, y, j as int, qs, qr);
        lemma_sums_inner(x, p, ps, pr, y.subrange(q, qs));
        lemma_sums_outer(y, q, qs, qr, x.subrange(p, pr));
        lemma_next_segment(*inner, x, i as int);
        lemma_next_segment(*outer, y, j as int);
    }
    insert_rules(
        &mut rules,
        &last.rules,
        Ghost(rules_of(x.subrange(p, ps)).union(rules_of(y.subrange(q, qs)))),
        Ghost(rules_of(x.subrange(ps, pr))),
    );
    insert_rules(
        &mut rules,
        &low.rules,
        Ghost(rules_of(x.subrange(p, pr)).union(rules_of(y.subrange(q, qs)))),
        Ghost(rules_of(y.subrange(qs, qr))),
    );
    cost.add(&last.cost);
    cost.add(&low.cost);
    let whole_i: bool = last.dst.byte.end <= low.src.byte.end;
    let whole_j: bool = low.src.byte.end <= last.dst.byte.end;
    let (src_byte, src_char): (u32, u32) = if whole_i {
        (last.src.byte.end, last.src.char.end)
    } else {
        proof {
            lemma_position(*inner, x, i as int, pr);
        }
        (
            last.src.byte.start + (low.src.byte.end - last.dst.byte.start),
            last.src.char.start + (low.src.char.end - last.dst.char.start),
        )
    };
    let (dst_byte, dst_char): (u32, u32) = if whole_j {
        (low.dst.byte.end, low.dst.char.end)
    } else {
        proof {
            lemma_position(*outer, y, j as int, qr);
        }
        (
            low.dst.byte.start + (last.dst.byte.end - low.src.byte.start),
            low.dst.char.start + (last.dst.char.end - low.src.char.start),
        )
    };
    Group {
        i: if whole_i {
            i + 1
        } else {
            i
        },
        j: if whole_j {
            j + 1
        } else {
            j
        },
        src_byte,
        src_char,
        dst_byte,
        dst_char,
        rules,
        cost,
        p: Ghost(pr),
        q: Ghost(qr),
    }
}

/// A step with output makes the output longer.
proof fn lemma_output_grows(x: Seq<Step>, p: int, pe: int)
    requires
        0 <= p < pe <= x.len(),
        x[p].dst().len() > 0,
    ensures
        dst_of(x.take(p)).len() < dst_of(x.take(pe)).len(),
{
    assert(x.take(p + 1) =~= x.take(p) + seq![x[p]]);
    lemma_of_add(x.take(p), seq![x[p]]);
    lemma_of_single(x[p]);
    lemma_dst_len_monotone(x, p + 1, pe);
}

/// A single step that makes the output longer has output.
pub proof fn lemma_output_grew(x: Seq<Step>, p: int, pe: int)
    requires
        0 <= p < pe <= x.len(),
        dst_of(x.take(p)).len() < dst_of(x.take(pe)).len(),
    ensures
        pe == p + 1 ==> x[p].dst().len() > 0,
{
    assert(x.take(p + 1) =~= x.take(p) + seq![x[p]]);
    lemma_of_add(x.take(p), seq![x[p]]);
    lemma_of_single(x[p]);
}

/// The first run has steps to come while the second is ahead of it.
proof fn lemma_more_output(x: Seq<Step>, y: Seq<Step>, pe: int, qe: int)
    requires
        meets(x, y),
        0 <= pe <= x.len(),
        0 <= qe <= y.len(),
        dst_of(x.take(pe)).len() < src_of(y.take(qe)).len(),
    ensures
        pe < x.len(),
{
    lemma_src_len_strict(y, qe, y.len() as int);
    assert(x.take(x.len() as int) =~= x);
}

/// Where a group ends.
proof fn lemma_group_end(x: Seq<Step>, y: Seq<Step>, p: int, q: int, ps: int, qs: int, pe: int, qe: int) -> (r: (int, int))
    requires
        meets(x, y),
        joint(x, y, p, q),
        0 <= p <= ps < pe <= x.len(),
        0 <= q <= qs < qe <= y.len(),
        x[ps] is Edit ==> pe == ps + 1,
        y[qs] is Edit ==> qe == qs + 1,
        x[ps] is Keep ==> forall|k: int| ps <= k < pe ==> (#[trigger] x[k]) is Keep,
        y[qs] is Keep ==> forall|k: int| qs <= k < qe ==> (#[trigger] y[k]) is Keep,
        dst_of(x.take(ps)).len() < src_of(y.take(qe)).len(),
        src_of(y.take(qs)).len() < dst_of(x.take(pe)).len(),
        forall|k: int| p < k <= ps ==> !#[trigger] is_cut(x, y, k),
        ({
            ||| dst_of(x.take(ps)).len() >= src_of(y.take(qs)).len() && y[qs] is Edit
            ||| dst_of(x.take(ps)).len() <= src_of(y.take(qs)).len() && x[ps] is Edit
        }),
        dst_of(x.take(pe)).len() < src_of(y.take(qe)).len() ==> y[qs] is Keep,
        dst_of(x.take(pe)).len() > src_of(y.take(qe)).len() ==> x[ps] is Keep,
    ensures
        ps < r.0 <= pe,
        qs < r.1 <= qe,
        joint(x, y, r.0, r.1),
        forall|k: int| p < k < r.0 ==> !#[trigger] is_cut(x, y, k),
        dst_of(x.take(pe)).len() <= src_of(y.take(qe)).len() <==> r.0 == pe,
        src_of(y.take(qe)).len() <= dst_of(x.take(pe)).len() <==> r.1 == qe,
        merge(x.subrange(p, r.0), y.subrange(q, r.1)) is Edit,
{
    let dpe = dst_of(x.take(pe)).len();
    let sqe = src_of(y.take(qe)).len();
    let dps = dst_of(x.take(ps)).len();
    let sqs = src_of(y.take(qs)).len();
    if x[ps] is Keep {
        lemma_keep_run(x, ps, pe);
    }
    if y[qs] is Keep {
        lemma_keep_run(y, qs, qe);
    }
    let pr = if dpe <= sqe {
        pe
    } else {
        ps + (sqe - dps)
    };
    let qr = if sqe <= dpe {
        qe
    } else {
        qs + (dpe - sqs)
    };
    if dpe > sqe {
        lemma_keep_run(x, ps, pr);
    }
    if sqe > dpe {
        lemma_keep_run(y, qs, qr);
    }
    assert(joint(x, y, pr, qr));
    assert forall|k: int| p < k < pr implies !#[trigger] is_cut(x, y, k) by {
        if k > ps {
            assert(x[ps] is Keep);
            lemma_keep_run(x, ps, k);
            lemma_keep_run(x, k, pr);
            lemma_no_cut_inside(x, y, k, qs);
        }
    }
    let xs = x.subrange(p, pr);
    let ys = y.subrange(q, qr);
    assert(xs.len() == 1 ==> xs[0] == x[ps]);
    assert(ys.len() == 1 ==> ys[0] == y[qs]);
    (pr, qr)
}

/// The second run has steps to come while the first is ahead of it.
proof fn lemma_more_source(x: Seq<Step>, y: Seq<Step>, pe: int, qe: int)
    requires
        meets(x, y),
        0 <= pe <= x.len(),
        0 <= qe <= y.len(),
        dst_of(x.take(pe)).len() > src_of(y.take(qe)).len(),
    ensures
        qe < y.len(),
{
    lemma_dst_len_monotone(x, pe, x.len() as int);
    assert(y.take(y.len() as int) =~= y);
}

/// Nothing can be cut while the first run goes on inside a rewritten run of the second.
proof fn lemma_inner_advance(x: Seq<Step>, y: Seq<Step>, p: int, ps: int, pe: int, qs: int, qe: int)
    requires
        valid(y),
        0 <= p <= ps < pe <= x.len(),
        0 <= qs,
        qe == qs + 1,
        qe <= y.len(),
        dst_of(x.take(pe)).len() < src_of(y.take(qe)).len(),
        src_of(y.take(qs)).len() < dst_of(x.take(pe)).len(),
        pe == ps + 1 || (dst_of(x.take(ps)).len() >= src_of(y.take(qs)).len() && forall|k: int|
            ps <= k < pe ==> (#[trigger] x[k]) is Keep),
        forall|k: int| p < k <= ps ==> !#[trigger] is_cut(x, y, k),
    ensures
        forall|k: int| p < k <= pe ==> !#[trigger] is_cut(x, y, k),
        pe < x.len() || dst_of(x.take(pe)) == dst_of(x),
{
    assert forall|k: int| p < k <= pe implies !#[trigger] is_cut(x, y, k) by {
        if k > ps {
            if k < pe {
                lemma_keep_run(x, ps, k);
            }
            lemma_dst_len_monotone(x, k, pe);
            lemma_no_cut_inside(x, y, k, qs);
        }
    }
    if pe == x.len() {
        assert(x.take(pe) =~= x);
    }
}

proof fn lemma_sums_inner(x: Seq<Step>, p: int, ps: int, pe: int, ys: Seq<Step>)
    requires
        0 <= p <= ps <= pe <= x.len(),
    ensures
        rules_of(x.subrange(p, ps)).union(rules_of(ys)).union(rules_of(x.subrange(ps, pe))) == rules_of(
            x.subrange(p, pe),
        ).union(rules_of(ys)),
        cost_of(x.subrange(p, ps)).plus(cost_of(ys)).plus(cost_of(x.subrange(ps, pe))) == cost_of(
            x.subrange(p, pe),
        ).plus(cost_of(ys)),
{
    assert(x.subrange(p, pe) =~= x.subrange(p, ps) + x.subrange(ps, pe));
    lemma_of_add(x.subrange(p, ps), x.subrange(ps, pe));
    assert(rules_of(x.subrange(p, ps)).union(rules_of(ys)).union(rules_of(x.subrange(ps, pe))) =~= rules_of(
        x.subrange(p, pe),
    ).union(rules_of(ys)));
}

proof fn lemma_sums_outer(y: Seq<Step>, q: int, qs: int, qe: int, xs: Seq<Step>)
    requires
        0 <= q <= qs <= qe <= y.len(),
    ensures
        rules_of(xs).union(rules_of(y.subrange(q, qs))).union(rules_of(y.subrange(qs, qe))) == rules_of(xs).union(
            rules_of(y.subrange(q, qe)),
        ),
        cost_of(xs).plus(cost_of(y.subrange(q, qs))).plus(cost_of(y.subrange(qs, qe))) == cost_of(xs).plus(
            cost_of(y.subrange(q, qe)),
        ),
{
    assert(y.subrange(q, qe) =~= y.subrange(q, qs) + y.subrange(qs, qe));
    lemma_of_add(y.subrange(q, qs), y.subrange(qs, qe));
    assert(rules_of(xs).union(rules_of(y.subrange(q, qs))).union(rules_of(y.subrange(qs, qe))) =~= rules_of(xs).union(
        rules_of(y.subrange(q, qe)),
    ));
}

/// Joins two maps whose steps are known.
fn join(inner: &SpanMap, outer: &SpanMap, Ghost(x): Ghost<Seq<Step>>, Ghost(y): Ghost<Seq<Step>>) -> (r: SpanMap)
    requires
        inner.of(x),
        outer.of(y),
        meets(x, y),
    ensures
        r.of(comp(x, y)),
{
    let ni: usize = inner.segments.len();
    let no: usize = outer.segments.len();
    let mut out: Vec<Segment> = Vec::new();
    let mut i: usize = 0;
    let mut j: usize = 0;
    // The current position in the source, in the text between and in the output.
    let mut ab: u32 = 0;
    let mut ac: u32 = 0;
    let mut cb: u32 = 0;
    let mut cc: u32 = 0;
    let ghost mut p: int = 0;
    let ghost mut q: int = 0;
    proof {
        lemma_starts(x);
        lemma_starts(y);
        assert(x.take(0) =~= Seq::<Step>::empty());
        assert(y.take(0) =~= Seq::<Step>::empty());
        assert(comp(x.take(0), y.take(0)) =~= Seq::<Step>::empty());
        if ni > 0 {
            lemma_segment(x, 0);
        }
        if no > 0 {
            lemma_segment(y, 0);
        }
    }
    while i < ni
        invariant
            ni == inner.segments@.len(),
            no == outer.segments@.len(),
            inner.of(x),
            outer.of(y),
            meets(x, y),
            joint(x, y, p, q),
            holds_step(*inner, x, i as int, p),
            holds_step(*outer, y, j as int, q),
            laid_out(out@, comp(x.take(p), y.take(q))),
            ab == utf8_len(src_of(x.take(p))),
            ac == src_of(x.take(p)).len(),
            cb == utf8_len(dst_of(y.take(q))),
            cc == dst_of(y.take(q)).len(),
        decreases x.len() - p,
    {
        let seg = &inner.segments[i];
        proof {
            lemma_segment(x, i as int);
            assert(seg.stores(piece_at(x, i as int)));
        }
        if seg.kind == SegmentKind::Delete {
            proof {
                lemma_delete_step(x, y, p, q);
            }
            let ghost done = comp(x.take(p), y.take(q));
            push_rewritten(
                &mut out,
                seg.src.clone(),
                Span::empty_at(cb, cc),
                copy_rules(&seg.rules),
                seg.cost,
                Ghost(done),
                Ghost(x[p]),
            );
            ab = seg.src.byte.end;
            ac = seg.src.char.end;
            proof {
                p = p + 1;
                lemma_next_segment(*inner, x, i as int);
            }
            i += 1;
            continue;
        }
        proof {
            lemma_more_below(*outer, x, y, p, q, j as int);
            lemma_segment(y, j as int);
            assert(outer.segments@[j as int].stores(piece_at(y, j as int)));
        }
        let other = &outer.segments[j];
        let ghost done = comp(x.take(p), y.take(q));
        if seg.kind == SegmentKind::Identity && other.kind == SegmentKind::Identity {
            let group = share(inner, outer, i, j, Ghost(x), Ghost(y), Ghost(p), Ghost(q));
            let ghost t = src_of(x.subrange(p, group.p@));
            push_kept(
                &mut out,
                Span::new(ab..group.src_byte, ac..group.src_char),
                Span::new(cb..group.dst_byte, cc..group.dst_char),
                Ghost(done),
                Ghost(t),
            );
            ab = group.src_byte;
            ac = group.src_char;
            cb = group.dst_byte;
            cc = group.dst_char;
            i = group.i;
            j = group.j;
            proof {
                p = group.p@;
                q = group.q@;
            }
            continue;
        }
        let group = gather(inner, outer, i, j, Ghost(x), Ghost(y), Ghost(p), Ghost(q));
        let ghost pe = group.p@;
        let ghost qe = group.q@;
        let ghost e = merge(x.subrange(p, pe), y.subrange(q, qe));
        proof {
            lemma_comp_next(x, y, p, q, pe, qe);
            lemma_comp_group(x, y, p, q, pe, qe);
        }
        push_rewritten(
            &mut out,
            Span::new(ab..group.src_byte, ac..group.src_char),
            Span::new(cb..group.dst_byte, cc..group.dst_char),
            group.rules,
            group.cost,
            Ghost(done),
            Ghost(e),
        );
        ab = group.src_byte;
        ac = group.src_char;
        cb = group.dst_byte;
        cc = group.dst_char;
        i = group.i;
        j = group.j;
        proof {
            p = pe;
            q = qe;
        }
    }
    proof {
        lemma_of_split(y, q);
        lemma_src_empty(y.skip(q));
        assert(x.take(p) =~= x);
        assert(y.take(q) =~= y);
        lemma_comp_sums(x, y);
    }
    SpanMap { segments: out }
}

/// The stretch that both current segments keep.
fn share(
    inner: &SpanMap,
    outer: &SpanMap,
    i: usize,
    j: usize,
    Ghost(x): Ghost<Seq<Step>>,
    Ghost(y): Ghost<Seq<Step>>,
    Ghost(p): Ghost<int>,
    Ghost(q): Ghost<int>,
) -> (r: Group)
    requires
        inner.of(x),
        outer.of(y),
        meets(x, y),
        joint(x, y, p, q),
        i < inner.segments@.len(),
        j < outer.segments@.len(),
        holds_step(*inner, x, i as int, p),
        holds_step(*outer, y, j as int, q),
        inner.segments@[i as int].kind == SegmentKind::Identity,
        outer.segments@[j as int].kind == SegmentKind::Identity,
    ensures
        r.is_kept(*inner, *outer, x, y, p, q),
{
    let ni: usize = inner.segments.len();
    let no: usize = outer.segments.len();
    let seg = &inner.segments[i];
    let other = &outer.segments[j];
    let ghost pe = bound(x, i + 1);
    let ghost qe = bound(y, j + 1);
    proof {
        lemma_segment(x, i as int);
        lemma_segment(y, j as int);
        assert(seg.stores(piece_at(x, i as int)));
        assert(other.stores(piece_at(y, j as int)));
    }
    let ghost n = lemma_kept_stretch(x, y, p, q, pe, qe);
    proof {
        lemma_position(*inner, x, i as int, p + n);
        lemma_position(*outer, y, j as int, q + n);
        lemma_middle_order(x, y, pe, qe);
        lemma_middle_order(x, y, p + n, q + n);
        lemma_next_segment(*inner, x, i as int);
        lemma_next_segment(*outer, y, j as int);
    }
    let whole_i: bool = seg.dst.byte.end <= other.src.byte.end;
    let whole_j: bool = other.src.byte.end <= seg.dst.byte.end;
    let (qb, qc): (u32, u32) = if whole_i {
        (seg.dst.byte.end, seg.dst.char.end)
    } else {
        (other.src.byte.end, other.src.char.end)
    };
    Group {
        i: if whole_i {
            i + 1
        } else {
            i
        },
        j: if whole_j {
            j + 1
        } else {
            j
        },
        src_byte: seg.src.byte.start + (qb - seg.dst.byte.start),
        src_char: seg.src.char.start + (qc - seg.dst.char.start),
        dst_byte: other.dst.byte.start + (qb - other.src.byte.start),
        dst_char: other.dst.char.start + (qc - other.src.char.start),
        rules: Vec::new(),
        cost: NormalizationCost::default(),
        p: Ghost(p + n),
        q: Ghost(q + n),
    }
}

/// Kept characters meet kept characters up to the nearer end.
proof fn lemma_kept_stretch(x: Seq<Step>, y: Seq<Step>, p: int, q: int, pe: int, qe: int) -> (n: int)
    requires
        meets(x, y),
        joint(x, y, p, q),
        p < pe <= x.len(),
        q < qe <= y.len(),
        forall|i: int| p <= i < pe ==> (#[trigger] x[i]) is Keep,
        forall|i: int| q <= i < qe ==> (#[trigger] y[i]) is Keep,
    ensures
        n == if pe - p <= qe - q {
            pe - p
        } else {
            qe - q
        },
        joint(x, y, p + n, q + n),
        dst_of(x.take(pe)).len() - src_of(y.take(qe)).len() == (pe - p) - (qe - q),
        comp(x.take(p + n), y.take(q + n)) == comp(x.take(p), y.take(q)) + keeps(src_of(x.subrange(p, p + n))),
        src_of(x.subrange(p, p + n)).len() == n,
        src_of(comp(x.take(p), y.take(q))) == src_of(x.take(p)),
        dst_of(comp(x.take(p), y.take(q))) == dst_of(y.take(q)),
        src_of(x.take(p + n)) == src_of(x.take(p)) + src_of(x.subrange(p, p + n)),
        dst_of(y.take(q + n)) == dst_of(y.take(q)) + src_of(x.subrange(p, p + n)),
{
    let n = if pe - p <= qe - q {
        pe - p
    } else {
        qe - q
    };
    lemma_keep_run(x, p, pe);
    lemma_keep_run(y, q, qe);
    lemma_keep_run(x, p, p + n);
    lemma_keep_run(y, q, q + n);
    lemma_comp_next(x, y, p, q, p + n, q + n);
    let xs = x.subrange(p, p + n);
    let ys = y.subrange(q, q + n);
    let t = src_of(xs);
    assert(dst_of(xs) == src_of(ys));
    lemma_keeps(t);
    law_compose_identity_left(ys);
    n
}

/// The offsets at a position inside a kept segment, or at either end of any segment.
pub proof fn lemma_position(m: SpanMap, steps: Seq<Step>, i: int, p: int)
    requires
        m.of(steps),
        0 <= i < m.segments@.len(),
        bound(steps, i) <= p <= bound(steps, i + 1),
        m.segments@[i].kind == SegmentKind::Identity,
    ensures
        utf8_len(src_of(steps.take(p))) == m.segments@[i].src.byte.start + (utf8_len(dst_of(steps.take(p)))
            - m.segments@[i].dst.byte.start),
        src_of(steps.take(p)).len() == m.segments@[i].src.char.start + (dst_of(steps.take(p)).len()
            - m.segments@[i].dst.char.start),
        utf8_len(src_of(steps.take(p))) <= m.segments@[i].src.byte.end,
        src_of(steps.take(p)).len() <= m.segments@[i].src.char.end,
        m.segments@[i].dst.byte.start <= utf8_len(dst_of(steps.take(p))) <= m.segments@[i].dst.byte.end,
        m.segments@[i].dst.char.start <= dst_of(steps.take(p)).len() <= m.segments@[i].dst.char.end,
        m.segments@[i].src.byte.start <= utf8_len(src_of(steps.take(p))),
        m.segments@[i].src.char.start <= src_of(steps.take(p)).len(),
{
    lemma_segment(steps, i);
    assert(m.segments@[i].stores(piece_at(steps, i)));
    lemma_keep_run(steps, bound(steps, i), p);
    lemma_keep_run(steps, p, bound(steps, i + 1));
    lemma_utf8_len_add(src_of(steps.take(p)), src_of(steps.subrange(p, bound(steps, i + 1))));
    lemma_utf8_len_add(dst_of(steps.take(p)), src_of(steps.subrange(p, bound(steps, i + 1))));
    lemma_utf8_len_add(src_of(steps.take(bound(steps, i))), src_of(steps.subrange(bound(steps, i), p)));
    lemma_utf8_len_add(dst_of(steps.take(bound(steps, i))), src_of(steps.subrange(bound(steps, i), p)));
}

/// As long as the first run has output to come, the second run has steps to come.
proof fn lemma_more_below(outer: SpanMap, x: Seq<Step>, y: Seq<Step>, p: int, q: int, j: int)
    requires
        outer.of(y),
        meets(x, y),
        joint(x, y, p, q),
        holds_step(outer, y, j, q),
        p < x.len(),
        x[p].dst().len() > 0,
    ensures
        q < y.len(),
        j < outer.segments@.len(),
{
    lemma_of_split(x, p + 1);
    assert(x.take(p + 1) =~= x.take(p) + seq![x[p]]);
    lemma_of_add(x.take(p), seq![x[p]]);
    lemma_of_single(x[p]);
    assert(y.take(y.len() as int) =~= y);
}

/// After the last step of a segment comes the first step of the next.
proof fn lemma_next_segment(m: SpanMap, steps: Seq<Step>, i: int)
    requires
        m.of(steps),
        0 <= i < m.segments@.len(),
    ensures
        holds_step(m, steps, i + 1, bound(steps, i + 1)),
{
    lemma_segment(steps, i);
    if i + 1 < m.segments@.len() {
        lemma_segment(steps, i + 1);
    }
}

/// A deleted run stays a step of its own.
proof fn lemma_delete_step(x: Seq<Step>, y: Seq<Step>, p: int, q: int)
    requires
        meets(x, y),
        joint(x, y, p, q),
        p < x.len(),
        x[p] is Edit,
        x[p].dst().len() == 0,
    ensures
        joint(x, y, p + 1, q),
        comp(x.take(p + 1), y.take(q)) == comp(x.take(p), y.take(q)) + seq![x[p]],
        src_of(comp(x.take(p), y.take(q))) == src_of(x.take(p)),
        dst_of(comp(x.take(p), y.take(q))) == dst_of(y.take(q)),
        src_of(x.take(p + 1)) == src_of(x.take(p)) + x[p].src(),
{
    let e = x[p];
    assert(x.take(p + 1) =~= x.take(p) + seq![e]);
    lemma_of_add(x.take(p), seq![e]);
    lemma_of_single(e);
    assert(x.subrange(p, p + 1) =~= seq![e]);
    assert(y.subrange(q, q) =~= Seq::<Step>::empty());
    lemma_comp_next(x, y, p, q, p + 1, q);
    lemma_comp_group(x, y, p, q, p + 1, q);
    law_cost_sum_zero(e.cost());
    assert(e.rules().union(Set::empty()) =~= e.rules());
    assert(e.dst() =~= Seq::<char>::empty());
    assert(merge(seq![e], Seq::<Step>::empty()) == e);
}

/// A position as text: `(byte, char)`.
pub open spec fn pair_text(p: (u32, u32)) -> Seq<char> {
    "("@ + decimal(p.0 as nat) + ", "@ + decimal(p.1 as nat) + ")"@
}

fn push_pair(out: &mut String, p: (u32, u32))
    ensures
        final(out)@ == old(out)@ + pair_text(p),
{
    out.append("(");
    push_decimal(out, p.0 as u64);
    out.append(", ");
    push_decimal(out, p.1 as u64);
    out.append(")");
    assert(out@ =~= old(out)@ + pair_text(p));
}

impl SpanMap {
    /// The output of `inner` can be the source of `outer`: some two runs of steps that the maps
    /// store meet in one text.
    pub open spec fn composable(inner: SpanMap, outer: SpanMap) -> bool {
        exists|x: Seq<Step>, y: Seq<Step>| inner.of(x) && outer.of(y) && meets(x, y)
    }

    /// Joins two maps: if `inner` leads from A to B and `outer` from B to C, the result leads from
    /// A to C.
    ///
    /// Where a bound of one map falls inside a rewritten segment of the other, the segments are
    /// grouped, not divided.
    pub fn compose(inner: &SpanMap, outer: &SpanMap) -> (r: Result<SpanMap>)
        requires
            inner.dst_limit() == outer.src_limit() ==> SpanMap::composable(*inner, *outer),
        ensures
            r is Ok <==> inner.dst_limit() == outer.src_limit(),
            r matches Ok(m) ==> forall|x: Seq<Step>, y: Seq<Step>|
                #![trigger inner.of(x), outer.of(y)]
                inner.of(x) && outer.of(y) && meets(x, y) ==> m.of(comp(x, y)),
            r matches Err(e) ==> e is SpanMapMismatch && e->SpanMapMismatch_detail@ == "inner output "@ + pair_text(
                inner.dst_limit(),
            ) + " != outer input "@ + pair_text(outer.src_limit()),
    {
        let have = inner.dst_end();
        let want = outer.src_end();
        if have.0 != want.0 || have.1 != want.1 {
            let mut detail = String::from_str("inner output ");
            push_pair(&mut detail, have);
            detail.append(" != outer input ");
            push_pair(&mut detail, want);
            return Err(Error::SpanMapMismatch { detail });
        }
        let ghost (x, y) = choose|x: Seq<Step>, y: Seq<Step>| inner.of(x) && outer.of(y) && meets(x, y);
        let m = join(inner, outer, Ghost(x), Ghost(y));
        proof {
            assert forall|x2: Seq<Step>, y2: Seq<Step>|
                #![trigger inner.of(x2), outer.of(y2)]
                inner.of(x2) && outer.of(y2) && meets(x2, y2) implies m.of(comp(x2, y2)) by {
                law_composition_is_determined(*inner, *outer, m, x, y, x2, y2);
            }
        }
        Ok(m)
    }
}

} // verus!
