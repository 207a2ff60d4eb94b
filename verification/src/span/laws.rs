//! What holds of span maps as a whole.

use vstd::prelude::*;
use crate::span::builder::{absorption, reading, replacement};
use crate::span::cost::no_cost;
use crate::span::layout::{bound, lemma_segment, lemma_starts, piece_at, src_mark};
use crate::span::rules::lemma_rules_unique;
use crate::span::source::{first_end, last_start, lemma_first_end, lemma_last_start};
use crate::span::steps::{
    comp, cost_of, dst_of, keeps, law_compose_associative, law_compose_identity_left,
    law_compose_identity_right, lemma_comp_sums, lemma_dst_len_monotone, lemma_of_add,
    lemma_of_single, lemma_of_split, meets, rules_of, src_of, valid, Step,
};
use crate::span::{
    lemma_keep_run, lemma_limits, rule_names, Absorbed, Segment, SegmentKind, SourceSpan, SpanMap,
};
use crate::text::{lemma_utf8_len_add, utf8_len};

verus! {

broadcast use crate::text::lemma_text_char_range;

/// The two segments hold the same offsets, kind, rules and cost.
pub open spec fn same_segment(a: Segment, b: Segment) -> bool {
    &&& a.src == b.src
    &&& a.dst == b.dst
    &&& a.kind == b.kind
    &&& rule_names(a.rules@) == rule_names(b.rules@)
    &&& a.cost == b.cost
}

/// The two maps hold the same segments.
pub open spec fn same_map(a: SpanMap, b: SpanMap) -> bool {
    &&& a.segments@.len() == b.segments@.len()
    &&& forall|k: int| 0 <= k < a.segments@.len() ==> same_segment(#[trigger] a.segments@[k], b.segments@[k])
}

/// A run of steps is stored by one map only.
pub proof fn law_steps_fix_the_map(a: SpanMap, b: SpanMap, steps: Seq<Step>)
    requires
        a.of(steps),
        b.of(steps),
    ensures
        same_map(a, b),
{
    assert forall|k: int| 0 <= k < a.segments@.len() implies same_segment(#[trigger] a.segments@[k], b.segments@[k]) by {
        let p = piece_at(steps, k);
        assert(a.segments@[k].stores(p));
        assert(b.segments@[k].stores(p));
        lemma_rules_unique(a.segments@[k].rules@, b.segments@[k].rules@, p.rules);
    }
}

/// However three maps are grouped, their composition is the same map.
pub proof fn law_grouping_does_not_matter(left: SpanMap, right: SpanMap, x: Seq<Step>, y: Seq<Step>, z: Seq<Step>)
    requires
        meets(x, y),
        meets(y, z),
        left.of(comp(comp(x, y), z)),
        right.of(comp(x, comp(y, z))),
    ensures
        same_map(left, right),
{
    law_compose_associative(x, y, z);
    law_steps_fix_the_map(left, right, comp(x, comp(y, z)));
}

/// Composing with a map that changes nothing, on either side, changes nothing.
pub proof fn law_identity_is_neutral(m: SpanMap, left: SpanMap, right: SpanMap, x: Seq<Step>)
    requires
        m.of(x),
        left.of(comp(keeps(src_of(x)), x)),
        right.of(comp(x, keeps(dst_of(x)))),
    ensures
        same_map(left, m),
        same_map(right, m),
{
    law_compose_identity_left(x);
    law_compose_identity_right(x);
    law_steps_fix_the_map(left, m, x);
    law_steps_fix_the_map(right, m, x);
}

/// A composition begins and ends where its two maps do.
pub proof fn law_composition_keeps_the_ends(inner: SpanMap, outer: SpanMap, m: SpanMap, x: Seq<Step>, y: Seq<Step>)
    requires
        inner.of(x),
        outer.of(y),
        meets(x, y),
        m.of(comp(x, y)),
    ensures
        m.src_limit() == inner.src_limit(),
        m.dst_limit() == outer.dst_limit(),
        inner.dst_limit() == outer.src_limit(),
{
    lemma_comp_sums(x, y);
    lemma_limits(inner, x);
    lemma_limits(outer, y);
    lemma_limits(m, comp(x, y));
}

/// The whole output is led back to everything but the runs absorbed at the very ends, and needs
/// no snapping.
pub proof fn law_whole_output_is_not_snapped(steps: Seq<Step>, r: SourceSpan)
    requires
        valid(steps),
        dst_of(steps).len() > 0,
        r.traces(steps, 0, dst_of(steps).len() as int),
    ensures
        !r.snapped,
        ({
            let p = last_start(steps, 0);
            let q = first_end(steps, dst_of(steps).len() as int);
            &&& 0 <= p < q <= steps.len()
            &&& dst_of(steps.take(p)).len() == 0
            &&& dst_of(steps.skip(q)).len() == 0
            &&& steps[p].dst().len() > 0
            &&& steps[q - 1].dst().len() > 0
        }),
{
    let n = dst_of(steps).len() as int;
    lemma_last_start(steps, 0);
    lemma_first_end(steps, n);
    let p = last_start(steps, 0);
    let q = first_end(steps, n);
    lemma_dst_len_monotone(steps, q, steps.len() as int);
    if q <= p {
        lemma_dst_len_monotone(steps, q, p);
    }
    assert(steps.take(steps.len() as int) =~= steps);
    assert(steps.take(p + 1) =~= steps.take(p) + seq![steps[p]]);
    lemma_of_add(steps.take(p), seq![steps[p]]);
    lemma_of_single(steps[p]);
    assert(steps =~= steps.take(q) + steps.skip(q));
    lemma_of_add(steps.take(q), steps.skip(q));
    assert(steps.take(q) =~= steps.take(q - 1) + seq![steps[q - 1]]);
    lemma_of_add(steps.take(q - 1), seq![steps[q - 1]]);
    lemma_of_single(steps[q - 1]);
    assert(dst_of(steps.take(p + 1)).len() > 0);
    assert(dst_of(steps.take(q - 1)).len() < n);
}

/// The parts of the source that the first `n` segments cover, one after the other.
pub open spec fn joined_sources(segments: Seq<Segment>, text: Seq<char>, n: int) -> Seq<char>
    decreases n,
{
    if n <= 0 {
        Seq::empty()
    } else {
        joined_sources(segments, text, n - 1) + segments[n - 1].src.covered(text)
    }
}

/// The parts of the output that the first `n` segments cover, one after the other.
pub open spec fn joined_outputs(segments: Seq<Segment>, text: Seq<char>, n: int) -> Seq<char>
    decreases n,
{
    if n <= 0 {
        Seq::empty()
    } else {
        joined_outputs(segments, text, n - 1) + segments[n - 1].dst.covered(text)
    }
}

/// A segment covers whole characters on both sides.
proof fn lemma_segment_within(m: SpanMap, steps: Seq<Step>, k: int)
    requires
        m.of(steps),
        0 <= k < m.segments@.len(),
    ensures
        m.segments@[k].src.within(src_of(steps)),
        m.segments@[k].dst.within(dst_of(steps)),
        m.segments@[k].src.char.start == src_of(steps.take(bound(steps, k))).len(),
        m.segments@[k].src.char.end == src_of(steps.take(bound(steps, k + 1))).len(),
        m.segments@[k].dst.char.start == dst_of(steps.take(bound(steps, k))).len(),
        m.segments@[k].dst.char.end == dst_of(steps.take(bound(steps, k + 1))).len(),
{
    let seg = m.segments@[k];
    let p = bound(steps, k);
    let q = bound(steps, k + 1);
    lemma_segment(steps, k);
    assert(seg.stores(piece_at(steps, k)));
    assert(steps.take(q) =~= steps.take(p) + steps.subrange(p, q));
    lemma_of_add(steps.take(p), steps.subrange(p, q));
    lemma_of_split(steps, p);
    lemma_of_split(steps, q);
    let a = src_of(steps.take(p));
    let b = src_of(steps.take(q));
    let c = dst_of(steps.take(p));
    let d = dst_of(steps.take(q));
    assert(src_of(steps).take(a.len() as int) =~= a);
    assert(src_of(steps).take(b.len() as int) =~= b);
    assert(dst_of(steps).take(c.len() as int) =~= c);
    assert(dst_of(steps).take(d.len() as int) =~= d);
}

proof fn lemma_joined(m: SpanMap, steps: Seq<Step>, n: int)
    requires
        m.of(steps),
        0 <= n <= m.segments@.len(),
    ensures
        joined_sources(m.segments@, src_of(steps), n) == src_of(steps.take(bound(steps, n))),
        joined_outputs(m.segments@, dst_of(steps), n) == dst_of(steps.take(bound(steps, n))),
    decreases n,
{
    lemma_starts(steps);
    if n == 0 {
        assert(steps.take(0) =~= Seq::<Step>::empty());
        if m.segments@.len() == 0 {
            assert(steps.take(bound(steps, 0)) =~= Seq::<Step>::empty());
        }
    } else {
        lemma_joined(m, steps, n - 1);
        lemma_segment_within(m, steps, n - 1);
        let p = bound(steps, n - 1);
        let q = bound(steps, n);
        lemma_segment(steps, n - 1);
        assert(steps.take(q) =~= steps.take(p) + steps.subrange(p, q));
        lemma_of_add(steps.take(p), steps.subrange(p, q));
        lemma_of_split(steps, q);
        assert(m.segments@[n - 1].src.covered(src_of(steps)) =~= src_of(steps.subrange(p, q)));
        assert(m.segments@[n - 1].dst.covered(dst_of(steps)) =~= dst_of(steps.subrange(p, q)));
    }
}

/// The segments of a map, joined one after the other, are the source on one side and the output on
/// the other. Each of them covers whole characters.
pub proof fn law_segments_tile_both_texts(m: SpanMap, steps: Seq<Step>)
    requires
        m.of(steps),
    ensures
        joined_sources(m.segments@, src_of(steps), m.segments@.len() as int) == src_of(steps),
        joined_outputs(m.segments@, dst_of(steps), m.segments@.len() as int) == dst_of(steps),
        forall|k: int|
            0 <= k < m.segments@.len() ==> (#[trigger] m.segments@[k]).src.within(src_of(steps))
                && m.segments@[k].dst.within(dst_of(steps)),
{
    let n = m.segments@.len() as int;
    lemma_joined(m, steps, n);
    assert(steps.take(bound(steps, n)) =~= steps);
    assert forall|k: int| 0 <= k < m.segments@.len() implies (#[trigger] m.segments@[k]).src.within(src_of(steps))
        && m.segments@[k].dst.within(dst_of(steps)) by {
        lemma_segment_within(m, steps, k);
    }
}

/// A segment that keeps its text holds the same text on both sides.
pub proof fn law_kept_segments_hold_equal_text(m: SpanMap, steps: Seq<Step>, k: int)
    requires
        m.of(steps),
        0 <= k < m.segments@.len(),
        m.segments@[k].kind == SegmentKind::Identity,
    ensures
        m.segments@[k].src.covered(src_of(steps)) == m.segments@[k].dst.covered(dst_of(steps)),
{
    let seg = m.segments@[k];
    let p = bound(steps, k);
    let q = bound(steps, k + 1);
    lemma_segment(steps, k);
    lemma_segment_within(m, steps, k);
    assert(seg.stores(piece_at(steps, k)));
    lemma_keep_run(steps, p, q);
    let run = steps.subrange(p, q);
    assert(steps.take(q) =~= steps.take(p) + run);
    lemma_of_add(steps.take(p), run);
    lemma_of_split(steps, q);
    assert(seg.src.covered(src_of(steps)) =~= src_of(run));
    assert(seg.dst.covered(dst_of(steps)) =~= dst_of(run));
}

/// Later requests begin and end no earlier.
proof fn lemma_request_order(steps: Seq<Step>, m: int, n: int)
    requires
        0 <= m <= n <= dst_of(steps).len(),
    ensures
        last_start(steps, m) <= last_start(steps, n),
        first_end(steps, m) <= first_end(steps, n),
        m < n ==> last_start(steps, m) < first_end(steps, n),
        0 <= last_start(steps, m),
        last_start(steps, n) <= steps.len(),
        0 <= first_end(steps, m),
        first_end(steps, n) <= steps.len(),
{
    lemma_last_start(steps, m);
    lemma_last_start(steps, n);
    lemma_first_end(steps, m);
    lemma_first_end(steps, n);
    let a = last_start(steps, m);
    let b = last_start(steps, n);
    if b < a {
        assert(dst_of(steps.take(a)).len() > n);
    }
    let c = first_end(steps, m);
    let d = first_end(steps, n);
    if d < c {
        assert(dst_of(steps.take(d)).len() < m);
    }
    if m < n && d <= a {
        lemma_dst_len_monotone(steps, d, a);
    }
}

/// Where fewer steps are taken, the source is no longer.
proof fn lemma_src_marks_order(steps: Seq<Step>, p: int, q: int)
    requires
        0 <= p <= q <= steps.len(),
    ensures
        src_mark(steps, p).char <= src_mark(steps, q).char,
        src_mark(steps, p).byte <= src_mark(steps, q).byte,
{
    assert(steps.take(q) =~= steps.take(p) + steps.subrange(p, q));
    lemma_of_add(steps.take(p), steps.subrange(p, q));
    lemma_utf8_len_add(src_of(steps.take(p)), src_of(steps.subrange(p, q)));
}

/// A part of a request leads to a part of the source of the whole request, by rules that the whole
/// has too, and costs no more in any count.
pub proof fn law_parts_lead_to_parts(
    steps: Seq<Step>,
    part: SourceSpan,
    whole: SourceSpan,
    part_from: int,
    part_to: int,
    from: int,
    to: int,
)
    requires
        0 <= from <= part_from < part_to <= to <= dst_of(steps).len(),
        part.traces(steps, part_from, part_to),
        whole.traces(steps, from, to),
    ensures
        whole.span.byte.start <= part.span.byte.start <= part.span.byte.end <= whole.span.byte.end,
        whole.span.char.start <= part.span.char.start <= part.span.char.end <= whole.span.char.end,
        part.cost.absorbed_whitespace <= whole.cost.absorbed_whitespace,
        part.cost.absorbed_separators <= whole.cost.absorbed_separators,
        part.cost.expanded_syllables <= whole.cost.expanded_syllables,
        part.cost.replaced_chars <= whole.cost.replaced_chars,
        rule_names(part.rules@).to_set().subset_of(rule_names(whole.rules@).to_set()),
{
    lemma_request_order(steps, from, part_from);
    lemma_request_order(steps, part_from, part_to);
    lemma_request_order(steps, part_to, to);
    let p = last_start(steps, from);
    let a = last_start(steps, part_from);
    let b = first_end(steps, part_to);
    let q = first_end(steps, to);
    lemma_src_marks_order(steps, p, a);
    lemma_src_marks_order(steps, a, b);
    lemma_src_marks_order(steps, b, q);
    let head = steps.subrange(p, a);
    let middle = steps.subrange(a, b);
    let tail = steps.subrange(b, q);
    assert(steps.subrange(p, q) =~= (head + middle) + tail);
    lemma_of_add(head, middle);
    lemma_of_add(head + middle, tail);
}

/// Requests that follow each other lead to parts of the source that begin and end in the same
/// order.
pub proof fn law_requests_in_order_lead_in_order(
    steps: Seq<Step>,
    first: SourceSpan,
    second: SourceSpan,
    first_from: int,
    first_to: int,
    from: int,
    to: int,
)
    requires
        0 <= first_from < first_to <= from < to <= dst_of(steps).len(),
        first.traces(steps, first_from, first_to),
        second.traces(steps, from, to),
    ensures
        first.span.byte.start <= second.span.byte.start,
        first.span.byte.end <= second.span.byte.end,
        first.span.char.start <= second.span.char.start,
        first.span.char.end <= second.span.char.end,
{
    lemma_request_order(steps, first_from, first_to);
    lemma_request_order(steps, first_from, from);
    lemma_request_order(steps, first_to, to);
    lemma_request_order(steps, from, to);
    lemma_src_marks_order(steps, last_start(steps, first_from), last_start(steps, from));
    lemma_src_marks_order(steps, first_end(steps, first_to), first_end(steps, to));
}

/// The steps from `p` up to `q` cover the output characters from `from` up to `to`.
pub open spec fn cover(steps: Seq<Step>, p: int, q: int, from: int, to: int) -> bool {
    &&& 0 <= p <= q <= steps.len()
    &&& dst_of(steps.take(p)).len() <= from
    &&& to <= dst_of(steps.take(q)).len()
}

/// A request is led to the source of the fewest steps that cover it. It is snapped exactly if those
/// give more than was asked for. Its cost is the cost of those steps, and its rules are theirs.
pub proof fn law_source_is_the_least_cover(steps: Seq<Step>, r: SourceSpan, from: int, to: int)
    requires
        0 <= from < to <= dst_of(steps).len(),
        r.traces(steps, from, to),
    ensures
        exists|p: int, q: int|
            {
                &&& #[trigger] cover(steps, p, q, from, to)
                &&& forall|a: int, b: int| #[trigger] cover(steps, a, b, from, to) ==> a <= p && q <= b
                &&& r.span.char.start == src_of(steps.take(p)).len()
                &&& r.span.byte.start == utf8_len(src_of(steps.take(p)))
                &&& r.span.char.end == src_of(steps.take(q)).len()
                &&& r.span.byte.end == utf8_len(src_of(steps.take(q)))
                &&& r.snapped <==> dst_of(steps.subrange(p, q)) != dst_of(steps).subrange(from, to)
                &&& r.cost == cost_of(steps.subrange(p, q))
                &&& rule_names(r.rules@).to_set() == rules_of(steps.subrange(p, q))
            },
{
    let p = last_start(steps, from);
    let q = first_end(steps, to);
    lemma_last_start(steps, from);
    lemma_first_end(steps, to);
    lemma_request_order(steps, from, to);
    assert(cover(steps, p, q, from, to));
    assert forall|a: int, b: int| #[trigger] cover(steps, a, b, from, to) implies a <= p && q <= b by {
        if p < a {
            assert(dst_of(steps.take(a)).len() > from);
        }
        if b < q {
            assert(dst_of(steps.take(b)).len() < to);
        }
    }
    let run = steps.subrange(p, q);
    let head = dst_of(steps.take(p));
    assert(steps.take(q) =~= steps.take(p) + run);
    lemma_of_add(steps.take(p), run);
    lemma_of_split(steps, q);
    assert(dst_of(steps).take(dst_of(steps.take(q)).len() as int) =~= head + dst_of(run));
    let asked = dst_of(steps).subrange(from, to);
    if !r.snapped {
        assert(dst_of(run) =~= asked);
    } else {
        assert(dst_of(run).len() > asked.len());
    }
}

/// What each way to rewrite a part of the source counts: replaced characters, syllables read as
/// digits, absorbed whitespace and absorbed separators, each under its own name and under no other.
pub proof fn law_each_edit_is_counted_once(src: Seq<char>, dst: Seq<char>, rule: Seq<char>, class: Absorbed)
    ensures
        ({
            let n = if src.len() < 65535 {
                src.len() as int
            } else {
                65535
            };
            let a = replacement(src, dst, rule);
            let b = reading(src, dst, rule);
            let c = absorption(src, rule, class);
            &&& a.src() == src && a.dst() == dst && a.rules() == set![rule]
            &&& b.src() == src && b.dst() == dst && b.rules() == set![rule]
            &&& c.src() == src && c.dst().len() == 0 && c.rules() == set![rule]
            &&& a.cost().replaced_chars == n && a.cost().expanded_syllables == 0 && a.cost().absorbed_whitespace == 0
                && a.cost().absorbed_separators == 0
            &&& b.cost().expanded_syllables == n && b.cost().replaced_chars == 0 && b.cost().absorbed_whitespace == 0
                && b.cost().absorbed_separators == 0
            &&& c.cost().replaced_chars == 0 && c.cost().expanded_syllables == 0
            &&& c.cost().absorbed_whitespace == if class == Absorbed::Whitespace {
                n
            } else {
                0
            }
            &&& c.cost().absorbed_separators == if class == Absorbed::Separator {
                n
            } else {
                0
            }
        }),
{
}

/// The cost of a run is, count by count, the sum of the costs of its steps, up to the largest count.
pub proof fn law_costs_add_up(a: Seq<Step>, b: Seq<Step>)
    ensures
        ({
            let x = cost_of(a);
            let y = cost_of(b);
            let z = cost_of(a + b);
            &&& z.absorbed_whitespace == up_to_largest(x.absorbed_whitespace + y.absorbed_whitespace)
            &&& z.absorbed_separators == up_to_largest(x.absorbed_separators + y.absorbed_separators)
            &&& z.expanded_syllables == up_to_largest(x.expanded_syllables + y.expanded_syllables)
            &&& z.replaced_chars == up_to_largest(x.replaced_chars + y.replaced_chars)
        }),
{
    lemma_of_add(a, b);
}

/// A count, which never goes beyond 65535.
pub open spec fn up_to_largest(n: int) -> int {
    if n <= 65535 {
        n
    } else {
        65535
    }
}

/// The output can be cut at character `n` between two steps.
pub open spec fn falls_between(steps: Seq<Step>, n: int, p: int) -> bool {
    0 <= p <= steps.len() && dst_of(steps.take(p)).len() == n
}

/// An empty request between two steps is led to an empty place between steps of the source, at no
/// cost. Inside a step that was rewritten it is led to all of that step.
pub proof fn law_empty_requests_are_positions(steps: Seq<Step>, r: SourceSpan, n: int)
    requires
        0 <= n <= dst_of(steps).len(),
        r.traces(steps, n, n),
    ensures
        (exists|p: int| #[trigger] falls_between(steps, n, p)) ==> {
            &&& !r.snapped && r.rules@.len() == 0 && r.cost == no_cost()
            &&& r.span.char.start == r.span.char.end && r.span.byte.start == r.span.byte.end
            &&& exists|p: int|
                #[trigger] falls_between(steps, n, p) && r.span.char.start == src_of(steps.take(p)).len()
                    && r.span.byte.start == utf8_len(src_of(steps.take(p)))
        },
        !(exists|p: int| #[trigger] falls_between(steps, n, p)) ==> r.snapped && exists|p: int|
            0 <= p < steps.len() && dst_of(#[trigger] steps.take(p)).len() < n && n < dst_of(steps.take(p + 1)).len()
                && r.span.char.start == src_of(steps.take(p)).len() && r.span.char.end == src_of(steps.take(p + 1)).len(),
{
    let p = last_start(steps, n);
    let q = first_end(steps, n);
    lemma_last_start(steps, n);
    lemma_first_end(steps, n);
    if exists|k: int| #[trigger] falls_between(steps, n, k) {
        let k = choose|k: int| #[trigger] falls_between(steps, n, k);
        if p < k {
            assert(dst_of(steps.take(k)).len() > n);
        }
        lemma_dst_len_monotone(steps, k, p);
        if k < q {
            assert(dst_of(steps.take(k)).len() < n);
        }
        assert(falls_between(steps, n, p));
        if p == steps.len() && p > 0 && steps.last().dst().len() == 0 {
            assert(steps.take(p) =~= steps.take(p - 1) + seq![steps[p - 1]]);
            lemma_of_add(steps.take(p - 1), seq![steps[p - 1]]);
            lemma_of_single(steps[p - 1]);
            assert(falls_between(steps, n, p - 1));
        }
    } else {
        assert(!falls_between(steps, n, p));
        assert(!falls_between(steps, n, q));
        if q <= p {
            lemma_dst_len_monotone(steps, q, p);
        }
        assert(q == p + 1) by {
            if p + 1 < q {
                assert(dst_of(steps.take(p + 1)).len() > n);
                assert(dst_of(steps.take(p + 1)).len() < n);
            }
        }
        assert(dst_of(steps.take(p)).len() < n && n < dst_of(steps.take(p + 1)).len());
    }
}

} // verus!
