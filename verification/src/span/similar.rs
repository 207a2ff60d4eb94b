//! A map fixes its steps up to the characters that they hold.
//!
//! Two runs of steps that one map stores agree in everything but their characters. So do their
//! compositions, and the layout of a composition depends on the two maps alone.

use vstd::prelude::*;
use crate::span::compose::{lemma_middle_order, lemma_position};
use crate::span::layout::{bound, lemma_segment, lemma_starts, piece_at, starts};
use crate::span::steps::{
    comp, cost_of, dst_of, first_cut, is_cut, joint, lemma_comp_head, lemma_comp_origin,
    lemma_comp_split, lemma_comp_sums, lemma_comp_two_keeps, lemma_head, lemma_joint_meets,
    lemma_of_add, lemma_of_single, meets, merge, reach, rules_of, src_of, valid, Step,
};
use crate::span::{lemma_keep_run, SegmentKind, SpanMap};
use crate::text::utf8_len;

verus! {

broadcast use crate::text::lemma_text_char_range;

/// The two steps agree in everything but their characters.
pub open spec fn same_shape(s: Step, t: Step) -> bool {
    &&& s is Keep <==> t is Keep
    &&& s.src().len() == t.src().len()
    &&& s.dst().len() == t.dst().len()
    &&& s.rules() == t.rules()
    &&& s.cost() == t.cost()
}

/// The two runs agree in everything but their characters.
pub open spec fn similar(a: Seq<Step>, b: Seq<Step>) -> bool {
    &&& a.len() == b.len()
    &&& forall|i: int| 0 <= i < a.len() ==> same_shape(#[trigger] a[i], b[i])
}

proof fn lemma_similar_parts(a: Seq<Step>, b: Seq<Step>, p: int)
    requires
        similar(a, b),
        0 <= p <= a.len(),
    ensures
        similar(a.take(p), b.take(p)),
        similar(a.skip(p), b.skip(p)),
{
    assert forall|i: int| 0 <= i < p implies same_shape(#[trigger] a.take(p)[i], b.take(p)[i]) by {
        assert(same_shape(a[i], b[i]));
    }
    assert forall|i: int| 0 <= i < a.len() - p implies same_shape(#[trigger] a.skip(p)[i], b.skip(p)[i]) by {
        assert(same_shape(a[i + p], b[i + p]));
    }
}

proof fn lemma_similar_sums(a: Seq<Step>, b: Seq<Step>)
    requires
        similar(a, b),
    ensures
        src_of(a).len() == src_of(b).len(),
        dst_of(a).len() == dst_of(b).len(),
        rules_of(a) == rules_of(b),
        cost_of(a) == cost_of(b),
        valid(a) == valid(b),
    decreases a.len(),
{
    if a.len() > 0 {
        lemma_similar_parts(a, b, a.len() - 1);
        assert(a.drop_last() =~= a.take(a.len() - 1));
        assert(b.drop_last() =~= b.take(a.len() - 1));
        lemma_similar_sums(a.drop_last(), b.drop_last());
        assert(same_shape(a[a.len() - 1], b[a.len() - 1]));
    }
    if valid(a) {
        assert forall|i: int| 0 <= i < b.len() implies (#[trigger] b[i]).src().len() >= 1 by {
            assert(same_shape(a[i], b[i]));
        }
    }
    if valid(b) {
        assert forall|i: int| 0 <= i < a.len() implies (#[trigger] a[i]).src().len() >= 1 by {
            assert(same_shape(a[i], b[i]));
        }
    }
}

proof fn lemma_similar_reach(a: Seq<Step>, b: Seq<Step>, n: int)
    requires
        similar(a, b),
    ensures
        reach(a, n) == reach(b, n),
    decreases a.len(),
{
    if n != 0 && a.len() > 0 {
        assert(same_shape(a[0], b[0]));
        lemma_similar_parts(a, b, 1);
        assert(a.drop_first() =~= a.skip(1));
        assert(b.drop_first() =~= b.skip(1));
        if a[0].src().len() <= n {
            lemma_similar_reach(a.drop_first(), b.drop_first(), n - a[0].src().len());
        }
    }
}

proof fn lemma_similar_cut(x: Seq<Step>, y: Seq<Step>, x2: Seq<Step>, y2: Seq<Step>, p: int)
    requires
        similar(x, x2),
        similar(y, y2),
        0 <= p <= x.len(),
    ensures
        is_cut(x, y, p) == is_cut(x2, y2, p),
        dst_of(x.take(p)).len() == dst_of(x2.take(p)).len(),
{
    lemma_similar_parts(x, x2, p);
    lemma_similar_sums(x.take(p), x2.take(p));
    lemma_similar_reach(y, y2, dst_of(x.take(p)).len() as int);
}

proof fn lemma_similar_first_cut(x: Seq<Step>, y: Seq<Step>, x2: Seq<Step>, y2: Seq<Step>, p: int)
    requires
        similar(x, x2),
        similar(y, y2),
        0 <= p,
    ensures
        first_cut(x, y, p) == first_cut(x2, y2, p),
    decreases x.len() - p,
{
    if p < x.len() {
        lemma_similar_cut(x, y, x2, y2, p);
        lemma_similar_first_cut(x, y, x2, y2, p + 1);
    }
}

/// Similar runs have similar compositions.
proof fn lemma_similar_comp(x: Seq<Step>, y: Seq<Step>, x2: Seq<Step>, y2: Seq<Step>)
    requires
        similar(x, x2),
        similar(y, y2),
        meets(x, y),
        meets(x2, y2),
    ensures
        similar(comp(x, y), comp(x2, y2)),
    decreases x.len(),
{
    if x.len() > 0 {
        let (p, q) = lemma_head(x, y);
        lemma_similar_joint(x, y, x2, y2, p, q);
        assert forall|k: int| 1 <= k < p implies !#[trigger] is_cut(x2, y2, k) by {
            assert(!is_cut(x, y, k));
            lemma_similar_cut(x, y, x2, y2, k);
        }
        lemma_comp_head(x2, y2, p, q);
        lemma_joint_meets(x2, y2, p, q);
        lemma_similar_parts(x, x2, p);
        lemma_similar_parts(y, y2, q);
        lemma_similar_comp(x.skip(p), y.skip(q), x2.skip(p), y2.skip(q));
        let m = merge(x.take(p), y.take(q));
        let m2 = merge(x2.take(p), y2.take(q));
        lemma_similar_sums(x.take(p), x2.take(p));
        lemma_similar_sums(y.take(q), y2.take(q));
        assert(same_shape(m, m2)) by {
            assert(same_shape(x.take(p)[0], x2.take(p)[0]));
            if q > 0 {
                assert(same_shape(y.take(q)[0], y2.take(q)[0]));
            }
        }
        let c = comp(x, y);
        let c2 = comp(x2, y2);
        assert forall|i: int| 0 <= i < c.len() implies same_shape(#[trigger] c[i], c2[i]) by {
            if i > 0 {
                assert(same_shape(comp(x.skip(p), y.skip(q))[i - 1], comp(x2.skip(p), y2.skip(q))[i - 1]));
            }
        }
    }
}

proof fn lemma_similar_joint(x: Seq<Step>, y: Seq<Step>, x2: Seq<Step>, y2: Seq<Step>, p: int, q: int)
    requires
        similar(x, x2),
        similar(y, y2),
        joint(x, y, p, q),
    ensures
        joint(x2, y2, p, q),
{
    lemma_similar_parts(x, x2, p);
    lemma_similar_parts(y, y2, q);
    lemma_similar_sums(x.take(p), x2.take(p));
    lemma_similar_sums(y.take(q), y2.take(q));
}

proof fn lemma_similar_starts(a: Seq<Step>, b: Seq<Step>)
    requires
        similar(a, b),
    ensures
        starts(a) == starts(b),
    decreases a.len(),
{
    if a.len() > 0 {
        lemma_similar_parts(a, b, a.len() - 1);
        assert(a.drop_last() =~= a.take(a.len() - 1));
        assert(b.drop_last() =~= b.take(a.len() - 1));
        lemma_similar_starts(a.drop_last(), b.drop_last());
        assert(same_shape(a[a.len() - 1], b[a.len() - 1]));
        if a.len() > 1 {
            assert(same_shape(a[a.len() - 2], b[a.len() - 2]));
        }
    }
}

/// Up to every bound, the runs that a map stores are similar.
proof fn lemma_stored_prefix_similar(m: SpanMap, x: Seq<Step>, x2: Seq<Step>, k: int)
    requires
        m.of(x),
        m.of(x2),
        0 <= k <= m.segments@.len(),
    ensures
        bound(x, k) == bound(x2, k),
        bound(x, k) <= x.len(),
        bound(x, k) <= x2.len(),
        forall|i: int| 0 <= i < bound(x, k) ==> same_shape(#[trigger] x[i], x2[i]),
    decreases k,
{
    lemma_starts(x);
    lemma_starts(x2);
    if k > 0 {
        lemma_stored_prefix_similar(m, x, x2, k - 1);
        lemma_segment(x, k - 1);
        lemma_segment(x2, k - 1);
        let seg = m.segments@[k - 1];
        assert(seg.stores(piece_at(x, k - 1)));
        assert(seg.stores(piece_at(x2, k - 1)));
        let s = bound(x, k - 1);
        if seg.kind == SegmentKind::Identity {
            lemma_keep_run(x, s, bound(x, k));
            lemma_keep_run(x2, s, bound(x2, k));
        } else {
            assert(x.take(s + 1) =~= x.take(s) + seq![x[s]]);
            assert(x2.take(s + 1) =~= x2.take(s) + seq![x2[s]]);
            lemma_of_add(x.take(s), seq![x[s]]);
            lemma_of_add(x2.take(s), seq![x2[s]]);
            lemma_of_single(x[s]);
            lemma_of_single(x2[s]);
        }
        assert forall|i: int| 0 <= i < bound(x, k) implies same_shape(#[trigger] x[i], x2[i]) by {
            if i >= s && seg.kind == SegmentKind::Identity {
                assert(x[i] is Keep);
                assert(x2[i] is Keep);
            }
        }
    } else {
        if m.segments@.len() > 0 {
            lemma_segment(x, 0);
            lemma_segment(x2, 0);
        }
    }
}

/// The runs that a map stores are similar.
pub proof fn lemma_stored_similar(m: SpanMap, x: Seq<Step>, x2: Seq<Step>)
    requires
        m.of(x),
        m.of(x2),
    ensures
        similar(x, x2),
{
    lemma_stored_prefix_similar(m, x, x2, m.segments@.len() as int);
}

/// The segment that holds a step.
proof fn lemma_find_segment(m: SpanMap, steps: Seq<Step>, p: int, hi: int) -> (i: int)
    requires
        m.of(steps),
        0 <= hi <= m.segments@.len(),
        0 <= p < bound(steps, hi),
    ensures
        0 <= i < hi,
        bound(steps, i) <= p < bound(steps, i + 1),
    decreases hi,
{
    lemma_starts(steps);
    if bound(steps, hi - 1) <= p {
        hi - 1
    } else {
        lemma_find_segment(m, steps, p, hi - 1)
    }
}

/// Either a position is a bound of the map and its offsets are stored, or it lies strictly inside
/// kept text.
proof fn lemma_bound_or_inside(m: SpanMap, x: Seq<Step>, x2: Seq<Step>, p: int) -> (i: int)
    requires
        m.of(x),
        m.of(x2),
        0 <= p <= x.len(),
    ensures
        i < 0 ==> {
            &&& utf8_len(src_of(x.take(p))) == utf8_len(src_of(x2.take(p)))
            &&& utf8_len(dst_of(x.take(p))) == utf8_len(dst_of(x2.take(p)))
        },
        i >= 0 ==> {
            &&& i < m.segments@.len()
            &&& 0 <= bound(x, i) < p < bound(x, i + 1) <= x.len()
            &&& m.segments@[i].kind == SegmentKind::Identity
            &&& x[p - 1] is Keep
            &&& x[p] is Keep
        },
{
    let n = m.segments@.len() as int;
    lemma_starts(x);
    lemma_stored_prefix_similar(m, x, x2, n);
    if p == x.len() {
        if n > 0 {
            lemma_segment(x, n - 1);
            assert(m.segments@[n - 1].stores(piece_at(x, n - 1)));
            assert(m.segments@[n - 1].stores(piece_at(x2, n - 1)));
        } else {
            lemma_starts(x2);
            assert(x =~= x2);
        }
        -1
    } else {
        let i = lemma_find_segment(m, x, p, n);
        lemma_segment(x, i);
        lemma_stored_prefix_similar(m, x, x2, i);
        assert(m.segments@[i].stores(piece_at(x, i)));
        assert(m.segments@[i].stores(piece_at(x2, i)));
        if p == bound(x, i) {
            -1
        } else {
            i
        }
    }
}

/// Two kept characters that meet stay a kept character on either side of a joint cut.
proof fn lemma_kept_at_cut(x: Seq<Step>, y: Seq<Step>, p: int, q: int)
    requires
        meets(x, y),
        joint(x, y, p, q),
        0 < p < x.len(),
        0 < q < y.len(),
        x[p - 1] is Keep,
        x[p] is Keep,
        y[q - 1] is Keep,
        y[q] is Keep,
    ensures
        comp(x.take(p), y.take(q)).len() > 0,
        comp(x.take(p), y.take(q)).last() is Keep,
        comp(x.skip(p), y.skip(q)).len() > 0,
        comp(x.skip(p), y.skip(q))[0] is Keep,
{
    lemma_joint_meets(x, y, p, q);
    let xt = x.take(p);
    let yt = y.take(q);
    assert(xt =~= xt.take(p - 1) + seq![x[p - 1]]);
    assert(yt =~= yt.take(q - 1) + seq![y[q - 1]]);
    lemma_of_add(xt.take(p - 1), seq![x[p - 1]]);
    lemma_of_add(yt.take(q - 1), seq![y[q - 1]]);
    lemma_of_single(x[p - 1]);
    lemma_of_single(y[q - 1]);
    assert(joint(xt, yt, p - 1, q - 1));
    lemma_joint_meets(xt, yt, p - 1, q - 1);
    lemma_comp_split(xt, yt, p - 1, q - 1);
    lemma_comp_two_keeps(xt.skip(p - 1), yt.skip(q - 1));
    let xs = x.skip(p);
    let ys = y.skip(q);
    assert(xs.take(1) =~= seq![xs[0]]);
    assert(ys.take(1) =~= seq![ys[0]]);
    lemma_of_single(xs[0]);
    lemma_of_single(ys[0]);
    assert(joint(xs, ys, 1, 1));
    lemma_comp_head(xs, ys, 1, 1);
}

/// The offsets at a bound of a composition depend on the two maps alone.
proof fn lemma_composed_offsets(
    inner: SpanMap,
    outer: SpanMap,
    x: Seq<Step>,
    y: Seq<Step>,
    x2: Seq<Step>,
    y2: Seq<Step>,
    k: int,
)
    requires
        inner.of(x),
        inner.of(x2),
        outer.of(y),
        outer.of(y2),
        meets(x, y),
        meets(x2, y2),
        0 <= k <= starts(comp(x, y)).len(),
    ensures
        ({
            let c = bound(comp(x, y), k);
            &&& 0 <= c <= comp(x, y).len()
            &&& utf8_len(src_of(comp(x, y).take(c))) == utf8_len(src_of(comp(x2, y2).take(c)))
            &&& utf8_len(dst_of(comp(x, y).take(c))) == utf8_len(dst_of(comp(x2, y2).take(c)))
            &&& src_of(comp(x, y).take(c)).len() == src_of(comp(x2, y2).take(c)).len()
            &&& dst_of(comp(x, y).take(c)).len() == dst_of(comp(x2, y2).take(c)).len()
        }),
{
    let whole = comp(x, y);
    let whole2 = comp(x2, y2);
    let c = bound(whole, k);
    lemma_starts(whole);
    if k < starts(whole).len() {
        lemma_segment(whole, k);
    }
    let (p, q) = lemma_comp_origin(x, y, c);
    lemma_stored_similar(inner, x, x2);
    lemma_stored_similar(outer, y, y2);
    lemma_similar_joint(x, y, x2, y2, p, q);
    lemma_joint_meets(x, y, p, q);
    lemma_joint_meets(x2, y2, p, q);
    lemma_similar_parts(x, x2, p);
    lemma_similar_parts(y, y2, q);
    lemma_similar_comp(x.take(p), y.take(q), x2.take(p), y2.take(q));
    lemma_comp_split(x2, y2, p, q);
    assert(whole2.take(c) =~= comp(x2.take(p), y2.take(q)));
    lemma_comp_sums(x.take(p), y.take(q));
    lemma_comp_sums(x2.take(p), y2.take(q));
    lemma_similar_sums(x.take(p), x2.take(p));
    lemma_similar_sums(y.take(q), y2.take(q));
    lemma_offsets_at_cut(inner, outer, x, y, x2, y2, k, p, q);
}

/// A bound of a composition comes from a bound of one of the maps.
proof fn lemma_not_both_inside(x: Seq<Step>, y: Seq<Step>, k: int, p: int, q: int)
    requires
        meets(x, y),
        joint(x, y, p, q),
        0 <= k <= starts(comp(x, y)).len(),
        comp(x, y).take(bound(comp(x, y), k)) == comp(x.take(p), y.take(q)),
        comp(x, y).skip(bound(comp(x, y), k)) == comp(x.skip(p), y.skip(q)),
    ensures
        !(0 < p < x.len() && 0 < q < y.len() && x[p - 1] is Keep && x[p] is Keep && y[q - 1] is Keep && y[q] is Keep),
{
    let whole = comp(x, y);
    let c = bound(whole, k);
    lemma_starts(whole);
    if k < starts(whole).len() {
        lemma_segment(whole, k);
    }
    if 0 < p < x.len() && 0 < q < y.len() && x[p - 1] is Keep && x[p] is Keep && y[q - 1] is Keep && y[q] is Keep {
        lemma_kept_at_cut(x, y, p, q);
        assert(whole[c - 1] == whole.take(c).last());
        assert(whole[c] == whole.skip(c)[0]);
        lemma_segment(whole, k - 1);
    }
}

/// Where one of the maps has a bound, both offsets are stored.
proof fn lemma_offsets_at_cut(
    inner: SpanMap,
    outer: SpanMap,
    x: Seq<Step>,
    y: Seq<Step>,
    x2: Seq<Step>,
    y2: Seq<Step>,
    k: int,
    p: int,
    q: int,
)
    requires
        inner.of(x),
        inner.of(x2),
        outer.of(y),
        outer.of(y2),
        meets(x, y),
        meets(x2, y2),
        joint(x, y, p, q),
        joint(x2, y2, p, q),
        0 <= k <= starts(comp(x, y)).len(),
        comp(x, y).take(bound(comp(x, y), k)) == comp(x.take(p), y.take(q)),
        comp(x, y).skip(bound(comp(x, y), k)) == comp(x.skip(p), y.skip(q)),
    ensures
        utf8_len(src_of(x.take(p))) == utf8_len(src_of(x2.take(p))),
        utf8_len(dst_of(y.take(q))) == utf8_len(dst_of(y2.take(q))),
{
    lemma_middle_order(x, y, p, q);
    lemma_middle_order(x2, y2, p, q);
    let i = lemma_bound_or_inside(inner, x, x2, p);
    let j = lemma_bound_or_inside(outer, y, y2, q);
    lemma_not_both_inside(x, y, k, p, q);
    if i >= 0 {
        lemma_stored_prefix_similar(inner, x, x2, i);
        lemma_stored_prefix_similar(inner, x, x2, i + 1);
        lemma_position(inner, x, i, p);
        lemma_position(inner, x2, i, p);
    }
    if j >= 0 {
        lemma_stored_prefix_similar(outer, y, y2, j);
        lemma_stored_prefix_similar(outer, y, y2, j + 1);
        lemma_position(outer, y, j, q);
        lemma_position(outer, y2, j, q);
    }
}

/// The layout of a composition depends on the two maps alone: whichever texts they are read with,
/// one map stores the result.
pub proof fn law_composition_is_determined(
    inner: SpanMap,
    outer: SpanMap,
    m: SpanMap,
    x: Seq<Step>,
    y: Seq<Step>,
    x2: Seq<Step>,
    y2: Seq<Step>,
)
    requires
        inner.of(x),
        inner.of(x2),
        outer.of(y),
        outer.of(y2),
        meets(x, y),
        meets(x2, y2),
        m.of(comp(x, y)),
    ensures
        m.of(comp(x2, y2)),
{
    let c = comp(x, y);
    let c2 = comp(x2, y2);
    lemma_stored_similar(inner, x, x2);
    lemma_stored_similar(outer, y, y2);
    lemma_similar_comp(x, y, x2, y2);
    lemma_similar_starts(c, c2);
    lemma_comp_sums(x2, y2);
    assert forall|k: int| 0 <= k < m.segments@.len() implies (#[trigger] m.segments@[k]).stores(piece_at(c2, k)) by {
        assert(m.segments@[k].stores(piece_at(c, k)));
        lemma_segment(c, k);
        assert(same_shape(c[bound(c, k)], c2[bound(c, k)]));
        lemma_composed_offsets(inner, outer, x, y, x2, y2, k);
        lemma_composed_offsets(inner, outer, x, y, x2, y2, k + 1);
    }
}

} // verus!
