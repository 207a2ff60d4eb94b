//! Leading a span of the output back to the source.

use vstd::prelude::*;
use crate::span::compose::{holds_step, lemma_position, lemma_segment_sums};
use crate::span::cost::{law_cost_sum_zero, no_cost, NormalizationCost};
use crate::span::layout::{bound, lemma_segment, lemma_starts, piece_at, src_mark, Mark};
use crate::span::rules::insert_rules;
use crate::span::steps::{
    cost_of, dst_of, lemma_dst_len_monotone, lemma_keeps, lemma_of_add, lemma_of_single, rules_of,
    src_of, Step,
};
use crate::span::validate::{fault, law_stored_steps_are_sound};
use crate::span::{
    lemma_keep_run, lemma_lists_none, lists_rules, rule_names, RuleId, Segment, SegmentKind,
    SourceSpan, Span, SpanMap,
};
use crate::text::{lemma_utf8_len_add, lemma_utf8_len_bounds, lemma_utf8_len_split, utf8_len};

verus! {

broadcast use crate::text::lemma_text_char_range;

/// The last position whose output lies at or before the first `n` output characters.
pub open spec fn last_start(steps: Seq<Step>, n: int) -> int
    decreases steps.len(),
{
    if steps.len() == 0 {
        0
    } else if dst_of(steps).len() <= n {
        steps.len() as int
    } else {
        last_start(steps.drop_last(), n)
    }
}

/// The first position whose output reaches the first `n` output characters.
pub open spec fn first_end(steps: Seq<Step>, n: int) -> int
    decreases steps.len(),
{
    if steps.len() == 0 {
        0
    } else if dst_of(steps.drop_last()).len() < n {
        steps.len() as int
    } else {
        first_end(steps.drop_last(), n)
    }
}

/// Where the output position behind `p` steps came from: behind the source of those steps, but
/// at the end of the output before a run that was absorbed last.
pub open spec fn origin(steps: Seq<Step>, p: int) -> Mark {
    if p == steps.len() && p > 0 && steps.last().dst().len() == 0 {
        src_mark(steps, p - 1)
    } else {
        src_mark(steps, p)
    }
}

impl SourceSpan {
    /// The source of the output characters from `from` up to `to`.
    ///
    /// It is the source of the shortest run of steps whose output covers them. What was absorbed
    /// inside that run belongs to it, what was absorbed at its ends does not. The span is snapped
    /// if the run produces more than was asked for. An empty request between two steps is led to
    /// a position.
    pub open spec fn traces(self, steps: Seq<Step>, from: int, to: int) -> bool {
        let p = last_start(steps, from);
        let q = first_end(steps, to);
        if p >= q {
            &&& self.span.is(origin(steps, p), origin(steps, p))
            &&& !self.snapped
            &&& self.rules@.len() == 0
            &&& self.cost == no_cost()
        } else {
            &&& self.span.is(src_mark(steps, p), src_mark(steps, q))
            &&& self.snapped == (dst_of(steps.take(p)).len() != from || dst_of(steps.take(q)).len() != to)
            &&& lists_rules(self.rules@, rules_of(steps.subrange(p, q)))
            &&& self.cost == cost_of(steps.subrange(p, q))
        }
    }
}

/// `last_start` is what its name says.
pub proof fn lemma_last_start(steps: Seq<Step>, n: int)
    requires
        0 <= n,
    ensures
        0 <= last_start(steps, n) <= steps.len(),
        dst_of(steps.take(last_start(steps, n))).len() <= n,
        forall|p: int| last_start(steps, n) < p <= steps.len() ==> dst_of(#[trigger] steps.take(p)).len() > n,
    decreases steps.len(),
{
    assert(steps.take(steps.len() as int) =~= steps);
    if steps.len() > 0 && dst_of(steps).len() > n {
        let init = steps.drop_last();
        lemma_last_start(init, n);
        let p = last_start(steps, n);
        assert(init.take(p) =~= steps.take(p));
        assert forall|r: int| p < r <= steps.len() implies dst_of(#[trigger] steps.take(r)).len() > n by {
            if r < steps.len() {
                assert(init.take(r) =~= steps.take(r));
            }
        }
    }
}

/// `first_end` is what its name says.
pub proof fn lemma_first_end(steps: Seq<Step>, n: int)
    requires
        0 <= n <= dst_of(steps).len(),
    ensures
        0 <= first_end(steps, n) <= steps.len(),
        dst_of(steps.take(first_end(steps, n))).len() >= n,
        forall|p: int| 0 <= p < first_end(steps, n) ==> dst_of(#[trigger] steps.take(p)).len() < n,
    decreases steps.len(),
{
    assert(steps.take(steps.len() as int) =~= steps);
    if steps.len() > 0 {
        let init = steps.drop_last();
        if dst_of(init).len() < n {
            assert forall|p: int| 0 <= p < steps.len() implies dst_of(#[trigger] steps.take(p)).len() < n by {
                assert(init.take(p) =~= steps.take(p));
                lemma_dst_len_monotone(init, p, init.len() as int);
            }
        } else {
            lemma_first_end(init, n);
            let q = first_end(steps, n);
            assert(init.take(q) =~= steps.take(q));
            assert forall|p: int| 0 <= p < q implies dst_of(#[trigger] steps.take(p)).len() < n by {
                assert(init.take(p) =~= steps.take(p));
            }
        }
    }
}

/// A position with the two properties is `last_start`.
proof fn lemma_last_start_is(steps: Seq<Step>, n: int, p: int)
    requires
        0 <= n,
        0 <= p <= steps.len(),
        dst_of(steps.take(p)).len() <= n,
        p < steps.len() ==> dst_of(steps.take(p + 1)).len() > n,
    ensures
        last_start(steps, n) == p,
{
    lemma_last_start(steps, n);
    let r = last_start(steps, n);
    if r < p {
        assert(dst_of(steps.take(p)).len() > n);
    } else if p < r {
        lemma_dst_len_monotone(steps, p + 1, r);
    }
}

/// A position with the two properties is `first_end`.
proof fn lemma_first_end_is(steps: Seq<Step>, n: int, q: int)
    requires
        0 <= n,
        0 < q <= steps.len(),
        dst_of(steps.take(q)).len() >= n,
        dst_of(steps.take(q - 1)).len() < n,
    ensures
        first_end(steps, n) == q,
{
    lemma_dst_len_monotone(steps, q, steps.len() as int);
    assert(steps.take(steps.len() as int) =~= steps);
    lemma_first_end(steps, n);
    let r = first_end(steps, n);
    if q < r {
        assert(dst_of(steps.take(q)).len() < n);
    } else if r < q {
        lemma_dst_len_monotone(steps, r, q - 1);
    }
}

/// The rules of a run of segments.
pub open spec fn rules_in(segments: Seq<Segment>) -> Set<Seq<char>>
    decreases segments.len(),
{
    if segments.len() == 0 {
        Set::empty()
    } else {
        rules_in(segments.drop_last()).union(rule_names(segments.last().rules@).to_set())
    }
}

/// The summed cost of a run of segments.
pub open spec fn cost_in(segments: Seq<Segment>) -> NormalizationCost
    decreases segments.len(),
{
    if segments.len() == 0 {
        no_cost()
    } else {
        cost_in(segments.drop_last()).plus(segments.last().cost)
    }
}

/// The segments that hold a run of steps have its rules and its cost.
proof fn lemma_run_sums(m: SpanMap, steps: Seq<Step>, a: int, b: int, p: int, q: int)
    requires
        m.of(steps),
        0 <= a < b <= m.segments@.len(),
        holds_step(m, steps, a, p),
        p < q,
        bound(steps, b - 1) < q <= bound(steps, b),
        m.segments@[b - 1].kind != SegmentKind::Identity ==> q == bound(steps, b),
    ensures
        rules_of(steps.subrange(p, q)) == rules_in(m.segments@.subrange(a, b)),
        cost_of(steps.subrange(p, q)) == cost_in(m.segments@.subrange(a, b)),
    decreases b,
{
    let segs = m.segments@.subrange(a, b);
    let init = segs.drop_last();
    reveal_with_fuel(rules_in, 2);
    reveal_with_fuel(cost_in, 2);
    assert(init =~= m.segments@.subrange(a, b - 1));
    assert(segs.last() == m.segments@[b - 1]);
    lemma_segment(steps, b - 1);
    if b - 1 == a {
        assert(init =~= Seq::<Segment>::empty());
        lemma_segment_sums(m, steps, a, p, q);
        assert(rules_in(segs) =~= rules_of(steps.subrange(p, q)));
        law_cost_sum_zero(segs.last().cost);
    } else {
        let s = bound(steps, b - 1);
        lemma_bounds_ordered(m, steps, a, b - 2);
        lemma_segment(steps, b - 2);
        lemma_segment(steps, a);
        lemma_run_sums(m, steps, a, b - 1, p, s);
        lemma_segment_sums(m, steps, b - 1, s, q);
        assert(steps.subrange(p, q) =~= steps.subrange(p, s) + steps.subrange(s, q));
        lemma_of_add(steps.subrange(p, s), steps.subrange(s, q));
    }
}

/// Bounds are in order.
proof fn lemma_bounds_ordered(m: SpanMap, steps: Seq<Step>, a: int, b: int)
    requires
        m.of(steps),
        0 <= a <= b < m.segments@.len(),
    ensures
        bound(steps, a) <= bound(steps, b),
        bound(steps, a + 1) <= bound(steps, b + 1),
        a < b ==> bound(steps, a + 1) <= bound(steps, b),
        m.segments@[a].dst.byte.end <= m.segments@[b].dst.byte.end,
        m.segments@[a].dst.byte.start <= m.segments@[b].dst.byte.start,
    decreases b - a,
{
    lemma_segment(steps, a);
    lemma_segment(steps, b);
    if a < b {
        lemma_bounds_ordered(m, steps, a, b - 1);
        lemma_segment(steps, b - 1);
    }
    assert(m.segments@[a].stores(piece_at(steps, a)));
    assert(m.segments@[b].stores(piece_at(steps, b)));
    lemma_dst_bytes_monotone(steps, bound(steps, a), bound(steps, b));
    lemma_dst_bytes_monotone(steps, bound(steps, a + 1), bound(steps, b + 1));
}

proof fn lemma_dst_bytes_monotone(steps: Seq<Step>, p: int, q: int)
    requires
        0 <= p <= q <= steps.len(),
    ensures
        utf8_len(dst_of(steps.take(p))) <= utf8_len(dst_of(steps.take(q))),
{
    assert(steps.take(q) =~= steps.take(p) + steps.subrange(p, q));
    lemma_of_add(steps.take(p), steps.subrange(p, q));
    lemma_utf8_len_add(dst_of(steps.take(p)), dst_of(steps.subrange(p, q)));
}

/// Offsets into the output compare alike in bytes and in characters.
proof fn lemma_output_order(steps: Seq<Step>, p: int, n: int)
    requires
        0 <= p <= steps.len(),
        0 <= n <= dst_of(steps).len(),
    ensures
        utf8_len(dst_of(steps.take(p))) <= utf8_len(dst_of(steps).take(n)) <==> dst_of(steps.take(p)).len() <= n,
        utf8_len(dst_of(steps.take(p))) < utf8_len(dst_of(steps).take(n)) <==> dst_of(steps.take(p)).len() < n,
{
    let text = dst_of(steps);
    assert(steps =~= steps.take(p) + steps.skip(p));
    lemma_of_add(steps.take(p), steps.skip(p));
    let m = dst_of(steps.take(p)).len() as int;
    assert(text.take(m) =~= dst_of(steps.take(p)));
    if m <= n {
        lemma_utf8_len_split(text, m, n);
    } else {
        lemma_utf8_len_split(text, n, m);
    }
}

impl SpanMap {
    /// The number of leading segments whose output ends at or before a byte.
    fn ending_by(&self, byte: u32) -> (r: usize)
        requires
            exists|steps: Seq<Step>| self.of(steps),
        ensures
            r <= self.segments@.len(),
            forall|k: int| 0 <= k < r ==> (#[trigger] self.segments@[k]).dst.byte.end <= byte,
            forall|k: int| r <= k < self.segments@.len() ==> (#[trigger] self.segments@[k]).dst.byte.end > byte,
    {
        let ghost steps = choose|steps: Seq<Step>| self.of(steps);
        let mut lo: usize = 0;
        let mut hi: usize = self.segments.len();
        while lo < hi
            invariant
                self.of(steps),
                lo <= hi <= self.segments@.len(),
                forall|k: int| 0 <= k < lo ==> (#[trigger] self.segments@[k]).dst.byte.end <= byte,
                forall|k: int| hi <= k < self.segments@.len() ==> (#[trigger] self.segments@[k]).dst.byte.end > byte,
            decreases hi - lo,
        {
            let mid: usize = lo + (hi - lo) / 2;
            proof {
                assert forall|k: int| 0 <= k < self.segments@.len() implies (k <= mid ==> (
                #[trigger] self.segments@[k]).dst.byte.end <= self.segments@[mid as int].dst.byte.end) && (k >= mid
                    ==> self.segments@[k].dst.byte.end >= self.segments@[mid as int].dst.byte.end) by {
                    if k <= mid {
                        lemma_bounds_ordered(*self, steps, k, mid as int);
                    } else {
                        lemma_bounds_ordered(*self, steps, mid as int, k);
                    }
                }
            }
            if self.segments[mid].dst.byte.end <= byte {
                lo = mid + 1;
            } else {
                hi = mid;
            }
        }
        lo
    }

    /// The number of leading segments whose output begins before a byte.
    fn beginning_before(&self, byte: u32) -> (r: usize)
        requires
            exists|steps: Seq<Step>| self.of(steps),
        ensures
            r <= self.segments@.len(),
            forall|k: int| 0 <= k < r ==> (#[trigger] self.segments@[k]).dst.byte.start < byte,
            forall|k: int| r <= k < self.segments@.len() ==> (#[trigger] self.segments@[k]).dst.byte.start >= byte,
    {
        let ghost steps = choose|steps: Seq<Step>| self.of(steps);
        let mut lo: usize = 0;
        let mut hi: usize = self.segments.len();
        while lo < hi
            invariant
                self.of(steps),
                lo <= hi <= self.segments@.len(),
                forall|k: int| 0 <= k < lo ==> (#[trigger] self.segments@[k]).dst.byte.start < byte,
                forall|k: int| hi <= k < self.segments@.len() ==> (#[trigger] self.segments@[k]).dst.byte.start >= byte,
            decreases hi - lo,
        {
            let mid: usize = lo + (hi - lo) / 2;
            proof {
                assert forall|k: int| 0 <= k < self.segments@.len() implies (k <= mid ==> (
                #[trigger] self.segments@[k]).dst.byte.start <= self.segments@[mid as int].dst.byte.start) && (k >= mid
                    ==> self.segments@[k].dst.byte.start >= self.segments@[mid as int].dst.byte.start) by {
                    if k <= mid {
                        lemma_bounds_ordered(*self, steps, k, mid as int);
                    } else {
                        lemma_bounds_ordered(*self, steps, mid as int, k);
                    }
                }
            }
            if self.segments[mid].dst.byte.start < byte {
                lo = mid + 1;
            } else {
                hi = mid;
            }
        }
        lo
    }
}

/// The first step of a request that begins in segment `a`.
proof fn lemma_request_start(m: SpanMap, steps: Seq<Step>, dst: Span, a: int)
    requires
        m.of(steps),
        dst.within(dst_of(steps)),
        0 <= a < m.segments@.len(),
        m.segments@[a].dst.byte.end > dst.byte.start,
        a > 0 ==> m.segments@[a - 1].dst.byte.end <= dst.byte.start,
    ensures
        m.segments@[a].dst.byte.start <= dst.byte.start,
        m.segments@[a].dst.char.start <= dst.char.start < m.segments@[a].dst.char.end,
        dst.byte.start == m.segments@[a].dst.byte.start <==> dst.char.start == m.segments@[a].dst.char.start,
        last_start(steps, dst.char.start as int) == if m.segments@[a].kind == SegmentKind::Identity {
            bound(steps, a) + (dst.char.start - m.segments@[a].dst.char.start)
        } else {
            bound(steps, a)
        },
        bound(steps, a) <= last_start(steps, dst.char.start as int) < bound(steps, a + 1),
        dst_of(steps.take(bound(steps, a))).len() == m.segments@[a].dst.char.start,
{
    lemma_starts(steps);
    lemma_segment(steps, a);
    let seg = m.segments@[a];
    let n = dst.char.start as int;
    assert(seg.stores(piece_at(steps, a)));
    let s = bound(steps, a);
    let e = bound(steps, a + 1);
    if a > 0 {
        assert(m.segments@[a - 1].stores(piece_at(steps, a - 1)));
    } else {
        assert(steps.take(0) =~= Seq::<Step>::empty());
    }
    lemma_output_order(steps, s, n);
    lemma_output_order(steps, e, n);
    if seg.kind == SegmentKind::Identity {
        lemma_keep_run(steps, s, e);
        let p = s + (n - seg.dst.char.start);
        lemma_keep_run(steps, s, p);
        lemma_keep_run(steps, s, p + 1);
        lemma_last_start_is(steps, n, p);
    } else {
        lemma_last_start_is(steps, n, s);
    }
}

/// The last step of a request that ends in segment `b - 1`.
proof fn lemma_request_end(m: SpanMap, steps: Seq<Step>, dst: Span, b: int)
    requires
        m.of(steps),
        dst.within(dst_of(steps)),
        0 < b <= m.segments@.len(),
        m.segments@[b - 1].dst.byte.start < dst.byte.end,
        b < m.segments@.len() ==> m.segments@[b].dst.byte.start >= dst.byte.end,
    ensures
        dst.byte.end <= m.segments@[b - 1].dst.byte.end,
        m.segments@[b - 1].dst.char.start < dst.char.end <= m.segments@[b - 1].dst.char.end,
        dst.byte.end == m.segments@[b - 1].dst.byte.end <==> dst.char.end == m.segments@[b - 1].dst.char.end,
        first_end(steps, dst.char.end as int) == if m.segments@[b - 1].kind == SegmentKind::Identity {
            bound(steps, b - 1) + (dst.char.end - m.segments@[b - 1].dst.char.start)
        } else {
            bound(steps, b)
        },
        bound(steps, b - 1) < first_end(steps, dst.char.end as int) <= bound(steps, b),
        dst_of(steps.take(bound(steps, b))).len() == m.segments@[b - 1].dst.char.end,
{
    lemma_segment(steps, b - 1);
    let seg = m.segments@[b - 1];
    let n = dst.char.end as int;
    assert(seg.stores(piece_at(steps, b - 1)));
    let s = bound(steps, b - 1);
    let e = bound(steps, b);
    if b < m.segments@.len() {
        assert(m.segments@[b].stores(piece_at(steps, b)));
    } else {
        assert(steps.take(e) =~= steps);
        assert(dst_of(steps).take(dst_of(steps).len() as int) =~= dst_of(steps));
    }
    lemma_output_order(steps, s, n);
    lemma_output_order(steps, e, n);
    if seg.kind == SegmentKind::Identity {
        lemma_keep_run(steps, s, e);
        let q = s + (n - seg.dst.char.start);
        lemma_keep_run(steps, s, q);
        lemma_keep_run(steps, s, q - 1);
        lemma_first_end_is(steps, n, q);
    } else {
        lemma_first_end_is(steps, n, e);
    }
}

/// A request that touches no segment is empty and stands between two segments.
proof fn lemma_request_between(m: SpanMap, steps: Seq<Step>, dst: Span, a: int, b: int)
    requires
        m.of(steps),
        dst.within(dst_of(steps)),
        0 <= b <= a <= m.segments@.len(),
        m.segments@.len() > 0,
        forall|k: int| 0 <= k < a ==> (#[trigger] m.segments@[k]).dst.byte.end <= dst.byte.start,
        forall|k: int| a <= k < m.segments@.len() ==> (#[trigger] m.segments@[k]).dst.byte.end > dst.byte.start,
        forall|k: int| b <= k < m.segments@.len() ==> (#[trigger] m.segments@[k]).dst.byte.start >= dst.byte.end,
    ensures
        ({
            let n = m.segments@.len();
            let seg = m.segments@[if a < n { a } else { n - 1 }];
            let p = last_start(steps, dst.char.start as int);
            &&& p >= first_end(steps, dst.char.end as int)
            &&& seg.dst.byte.start == dst.byte.start ==> seg.src.byte.start == origin(steps, p).byte && seg.src.char.start
                == origin(steps, p).char
            &&& seg.dst.byte.start != dst.byte.start ==> seg.dst.byte.end == dst.byte.start && seg.src.byte.end == origin(
                steps,
                p,
            ).byte && seg.src.char.end == origin(steps, p).char
        }),
{
    let n = m.segments@.len() as int;
    let from = dst.char.start as int;
    let to = dst.char.end as int;
    lemma_starts(steps);
    assert(steps.take(steps.len() as int) =~= steps);
    lemma_utf8_len_split(dst_of(steps), from, to);
    lemma_first_end(steps, to);
    if a < n {
        lemma_request_start(m, steps, dst, a);
        lemma_segment(steps, a);
        assert(m.segments@[a].stores(piece_at(steps, a)));
        assert(dst.byte.start == dst.byte.end);
        let p = bound(steps, a);
        if first_end(steps, to) > p {
            assert(dst_of(steps.take(p)).len() < to);
        }
    } else {
        let seg = m.segments@[n - 1];
        lemma_segment(steps, n - 1);
        assert(seg.stores(piece_at(steps, n - 1)));
        lemma_output_order(steps, steps.len() as int, from);
        lemma_last_start_is(steps, from, steps.len() as int);
        let s = bound(steps, n - 1);
        if seg.kind == SegmentKind::Identity {
            lemma_keep_run(steps, s, steps.len() as int);
            lemma_utf8_len_add(dst_of(steps.take(s)), src_of(steps.subrange(s, steps.len() as int)));
            lemma_utf8_len_bounds(src_of(steps.subrange(s, steps.len() as int)));
        } else {
            assert(steps =~= steps.take(s) + seq![steps[s]]);
            lemma_of_add(steps.take(s), seq![steps[s]]);
            lemma_of_single(steps[s]);
            lemma_utf8_len_add(dst_of(steps.take(s)), steps[s].dst());
            lemma_utf8_len_bounds(steps[s].dst());
        }
        assert(dst_of(steps).take(from) =~= dst_of(steps));
    }
}

/// A position between two steps is a character position of the source.
proof fn lemma_src_mark_fits(steps: Seq<Step>, p: int, q: int)
    requires
        0 <= p <= q <= steps.len(),
    ensures
        src_mark(steps, p).char <= src_mark(steps, q).char <= src_of(steps).len(),
        src_of(steps).take(src_mark(steps, p).char as int) == src_of(steps.take(p)),
{
    assert(steps =~= steps.take(p) + steps.skip(p));
    lemma_of_add(steps.take(p), steps.skip(p));
    assert(src_of(steps).take(src_mark(steps, p).char as int) =~= src_of(steps.take(p)));
    assert(steps =~= steps.take(q) + steps.skip(q));
    lemma_of_add(steps.take(q), steps.skip(q));
    assert(steps.take(q) =~= steps.take(p) + steps.subrange(p, q));
    lemma_of_add(steps.take(p), steps.subrange(p, q));
}

/// What a request is led to is a span of the source: inside it, in order, and on characters.
pub proof fn law_source_span_is_inside(steps: Seq<Step>, r: SourceSpan, from: int, to: int)
    requires
        r.traces(steps, from, to),
        0 <= from <= to <= dst_of(steps).len(),
    ensures
        r.span.within(src_of(steps)),
{
    lemma_last_start(steps, from);
    lemma_first_end(steps, to);
    let p = last_start(steps, from);
    let q = first_end(steps, to);
    if p < q {
        lemma_src_mark_fits(steps, p, q);
        lemma_src_mark_fits(steps, q, q);
    } else {
        lemma_src_mark_fits(steps, p, p);
        if p > 0 {
            lemma_src_mark_fits(steps, p - 1, p - 1);
        }
    }
}

/// A character offset of the output, inside a kept segment, has its place in the source.
pub open spec fn shifts(seg: Segment, char: u32) -> bool {
    seg.dst.char.start <= char && seg.src.char.start + (char - seg.dst.char.start) <= u32::MAX
}

impl SpanMap {
    /// A request reaches into the segments from `a` up to `b`, and into no other. If `a` is not
    /// less than `b`, it reaches into none.
    pub open spec fn touched(self, dst: Span, a: int, b: int) -> bool {
        &&& 0 <= a <= self.segments@.len()
        &&& 0 <= b <= self.segments@.len()
        &&& forall|k: int| 0 <= k < a ==> (#[trigger] self.segments@[k]).dst.byte.end <= dst.byte.start
        &&& forall|k: int| a <= k < self.segments@.len() ==> (#[trigger] self.segments@[k]).dst.byte.end
            > dst.byte.start
        &&& forall|k: int| 0 <= k < b ==> (#[trigger] self.segments@[k]).dst.byte.start < dst.byte.end
        &&& forall|k: int| b <= k < self.segments@.len() ==> (#[trigger] self.segments@[k]).dst.byte.start
            >= dst.byte.end
    }

    /// The segment next to a request that reaches into none.
    pub open spec fn nearest(self, a: int) -> Segment {
        self.segments@[if a < self.segments@.len() {
            a
        } else {
            self.segments@.len() - 1
        }]
    }

    /// The character offsets of a request that reaches into the segments from `a` up to `b` have
    /// their places in the source, where those are looked for.
    pub open spec fn answers_in(self, dst: Span, a: int, b: int) -> bool {
        if a < b {
            let first = self.segments@[a];
            let last = self.segments@[b - 1];
            &&& first.kind == SegmentKind::Identity && dst.byte.start > first.dst.byte.start ==> shifts(
                first,
                dst.char.start,
            )
            &&& last.kind == SegmentKind::Identity && dst.byte.end < last.dst.byte.end ==> shifts(last, dst.char.end)
        } else {
            self.segments@.len() > 0 && inside_kept(self.nearest(a), dst.byte.start) ==> shifts(
                self.nearest(a),
                dst.char.start,
            )
        }
    }

    /// A request can be led back in 32-bit offsets. Every span of the output can. One whose
    /// character offsets contradict its byte offsets may have no place in the source.
    pub open spec fn answers(self, dst: Span) -> bool {
        forall|a: int, b: int| #[trigger] self.touched(dst, a, b) ==> self.answers_in(dst, a, b)
    }

    /// What a request that reaches into the segments from `a` up to `b` is led to.
    pub open spec fn leads_back_in(self, dst: Span, a: int, b: int, r: SourceSpan) -> bool {
        if a < b {
            read_off(self, dst, a, b, r)
        } else {
            let (byte, char) = point(self, dst, a);
            &&& r.span.byte.start == byte && r.span.byte.end == byte
            &&& r.span.char.start == char && r.span.char.end == char
            &&& !r.snapped
            &&& r.rules@.len() == 0
            &&& r.cost == no_cost()
        }
    }

    /// What a request is led to, read off the segments.
    pub open spec fn leads_back(self, dst: Span, r: SourceSpan) -> bool {
        forall|a: int, b: int| #[trigger] self.touched(dst, a, b) ==> self.leads_back_in(dst, a, b, r)
    }
}

/// A byte offset of the output lies strictly inside a kept segment.
pub open spec fn inside_kept(seg: Segment, byte: u32) -> bool {
    seg.kind == SegmentKind::Identity && seg.dst.byte.start < byte < seg.dst.byte.end
}

/// The position that a request is led to if it reaches into no segment: one at a bound of the
/// nearest segment to that bound, one inside kept text to its place there, and any other to the
/// end of the source.
pub open spec fn point(m: SpanMap, dst: Span, a: int) -> (int, int) {
    let seg = m.nearest(a);
    if m.segments@.len() == 0 {
        (0, 0)
    } else if seg.dst.byte.start == dst.byte.start {
        (seg.src.byte.start as int, seg.src.char.start as int)
    } else if seg.dst.byte.end == dst.byte.start {
        (seg.src.byte.end as int, seg.src.char.end as int)
    } else if inside_kept(seg, dst.byte.start) {
        (
            seg.src.byte.start + (dst.byte.start - seg.dst.byte.start),
            seg.src.char.start + (dst.char.start - seg.dst.char.start),
        )
    } else {
        (m.src_limit().0 as int, m.src_limit().1 as int)
    }
}

/// What the segments from `a` up to `b` say about a request that reaches into them: kept text is
/// followed position by position, and a rewritten segment that the request divides is taken whole.
pub open spec fn read_off(m: SpanMap, dst: Span, a: int, b: int, r: SourceSpan) -> bool {
    let first = m.segments@[a];
    let last = m.segments@[b - 1];
    let inside_first = first.kind == SegmentKind::Identity && dst.byte.start > first.dst.byte.start;
    let inside_last = last.kind == SegmentKind::Identity && dst.byte.end < last.dst.byte.end;
    &&& r.span.byte.start == if inside_first {
        first.src.byte.start + (dst.byte.start - first.dst.byte.start)
    } else {
        first.src.byte.start as int
    }
    &&& r.span.char.start == if inside_first {
        first.src.char.start + (dst.char.start - first.dst.char.start)
    } else {
        first.src.char.start as int
    }
    &&& r.span.byte.end == if inside_last {
        last.src.byte.start + (dst.byte.end - last.dst.byte.start)
    } else {
        last.src.byte.end as int
    }
    &&& r.span.char.end == if inside_last {
        last.src.char.start + (dst.char.end - last.dst.char.start)
    } else {
        last.src.char.end as int
    }
    &&& r.snapped == ((!inside_first && dst.byte.start != first.dst.byte.start) || (!inside_last && dst.byte.end
        != last.dst.byte.end))
    &&& lists_rules(r.rules@, rules_in(m.segments@.subrange(a, b)))
    &&& r.cost == cost_in(m.segments@.subrange(a, b))
}

/// The position of the first step of a request, read off its segment.
proof fn lemma_start_mark(m: SpanMap, steps: Seq<Step>, dst: Span, a: int)
    requires
        m.of(steps),
        dst.within(dst_of(steps)),
        0 <= a < m.segments@.len(),
        m.segments@[a].dst.byte.end > dst.byte.start,
        a > 0 ==> m.segments@[a - 1].dst.byte.end <= dst.byte.start,
    ensures
        ({
            let p = last_start(steps, dst.char.start as int);
            let seg = m.segments@[a];
            let inside = seg.kind == SegmentKind::Identity && dst.byte.start > seg.dst.byte.start;
            &&& holds_step(m, steps, a, p)
            &&& seg.dst.byte.start <= dst.byte.start
            &&& seg.dst.char.start <= dst.char.start
            &&& src_mark(steps, p).byte == if inside {
                seg.src.byte.start + (dst.byte.start - seg.dst.byte.start)
            } else {
                seg.src.byte.start as int
            }
            &&& src_mark(steps, p).char == if inside {
                seg.src.char.start + (dst.char.start - seg.dst.char.start)
            } else {
                seg.src.char.start as int
            }
            &&& src_mark(steps, p).byte <= u32::MAX
            &&& src_mark(steps, p).char <= u32::MAX
            &&& (dst_of(steps.take(p)).len() != dst.char.start) == (!inside && dst.byte.start != seg.dst.byte.start)
        }),
{
    let from = dst.char.start as int;
    let p = last_start(steps, from);
    let seg = m.segments@[a];
    lemma_request_start(m, steps, dst, a);
    assert(seg.stores(piece_at(steps, a)));
    lemma_segment(steps, a);
    if seg.kind == SegmentKind::Identity {
        lemma_position(m, steps, a, p);
        lemma_kept_offset(m, steps, a, from);
        lemma_keep_run(steps, bound(steps, a), p);
    }
}

/// The position of the last step of a request, read off its segment.
proof fn lemma_end_mark(m: SpanMap, steps: Seq<Step>, dst: Span, b: int)
    requires
        m.of(steps),
        dst.within(dst_of(steps)),
        0 < b <= m.segments@.len(),
        m.segments@[b - 1].dst.byte.start < dst.byte.end,
        b < m.segments@.len() ==> m.segments@[b].dst.byte.start >= dst.byte.end,
    ensures
        ({
            let q = first_end(steps, dst.char.end as int);
            let seg = m.segments@[b - 1];
            let inside = seg.kind == SegmentKind::Identity && dst.byte.end < seg.dst.byte.end;
            &&& bound(steps, b - 1) < q <= bound(steps, b)
            &&& seg.kind != SegmentKind::Identity ==> q == bound(steps, b)
            &&& seg.dst.byte.start <= dst.byte.end
            &&& seg.dst.char.start <= dst.char.end
            &&& src_mark(steps, q).byte == if inside {
                seg.src.byte.start + (dst.byte.end - seg.dst.byte.start)
            } else {
                seg.src.byte.end as int
            }
            &&& src_mark(steps, q).char == if inside {
                seg.src.char.start + (dst.char.end - seg.dst.char.start)
            } else {
                seg.src.char.end as int
            }
            &&& src_mark(steps, q).byte <= u32::MAX
            &&& src_mark(steps, q).char <= u32::MAX
            &&& (dst_of(steps.take(q)).len() != dst.char.end) == (!inside && dst.byte.end != seg.dst.byte.end)
        }),
{
    let to = dst.char.end as int;
    let q = first_end(steps, to);
    let seg = m.segments@[b - 1];
    lemma_request_end(m, steps, dst, b);
    assert(seg.stores(piece_at(steps, b - 1)));
    lemma_segment(steps, b - 1);
    if seg.kind == SegmentKind::Identity {
        lemma_position(m, steps, b - 1, q);
        lemma_kept_offset(m, steps, b - 1, to);
        lemma_keep_run(steps, bound(steps, b - 1), q);
        lemma_keep_run(steps, bound(steps, b - 1), bound(steps, b));
    }
}

/// What is read off the segments is what the steps say.
proof fn lemma_read_off(m: SpanMap, steps: Seq<Step>, dst: Span, a: int, b: int, r: SourceSpan)
    requires
        m.of(steps),
        dst.within(dst_of(steps)),
        0 <= a < b <= m.segments@.len(),
        m.segments@[a].dst.byte.end > dst.byte.start,
        a > 0 ==> m.segments@[a - 1].dst.byte.end <= dst.byte.start,
        m.segments@[b - 1].dst.byte.start < dst.byte.end,
        b < m.segments@.len() ==> m.segments@[b].dst.byte.start >= dst.byte.end,
        read_off(m, dst, a, b, r),
    ensures
        r.traces(steps, dst.char.start as int, dst.char.end as int),
{
    let p = last_start(steps, dst.char.start as int);
    let q = first_end(steps, dst.char.end as int);
    lemma_start_mark(m, steps, dst, a);
    lemma_end_mark(m, steps, dst, b);
    assert(r.span.is(src_mark(steps, p), src_mark(steps, q)));
    if p < q {
        lemma_run_sums(m, steps, a, b, p, q);
    } else {
        lemma_empty_inside_kept(m, steps, dst, a, b);
        let names = rule_names(r.rules@);
        if names.len() > 0 {
            assert(names.to_set().contains(names[0]));
        }
    }
}

/// An empty request that touches a segment without covering a step stands inside kept text.
proof fn lemma_empty_inside_kept(m: SpanMap, steps: Seq<Step>, dst: Span, a: int, b: int)
    requires
        m.of(steps),
        dst.within(dst_of(steps)),
        0 <= a < b <= m.segments@.len(),
        m.segments@[a].dst.byte.end > dst.byte.start,
        a > 0 ==> m.segments@[a - 1].dst.byte.end <= dst.byte.start,
        m.segments@[b - 1].dst.byte.start < dst.byte.end,
        b < m.segments@.len() ==> m.segments@[b].dst.byte.start >= dst.byte.end,
        last_start(steps, dst.char.start as int) >= first_end(steps, dst.char.end as int),
    ensures
        last_start(steps, dst.char.start as int) == first_end(steps, dst.char.end as int),
        last_start(steps, dst.char.start as int) < steps.len(),
        dst_of(steps.take(last_start(steps, dst.char.start as int))).len() == dst.char.start,
        dst_of(steps.take(last_start(steps, dst.char.start as int))).len() == dst.char.end,
        rules_in(m.segments@.subrange(a, b)) == Set::<Seq<char>>::empty(),
        cost_in(m.segments@.subrange(a, b)) == no_cost(),
{
    let s = bound(steps, a);
    let e = bound(steps, a + 1);
    lemma_request_start(m, steps, dst, a);
    lemma_request_end(m, steps, dst, b);
    lemma_bounds_ordered(m, steps, a, b - 1);
    assert(a == b - 1);
    let seg = m.segments@[a];
    assert(seg.stores(piece_at(steps, a)));
    lemma_segment(steps, a);
    assert(seg.kind == SegmentKind::Identity);
    lemma_keep_run(steps, s, last_start(steps, dst.char.start as int));
    lemma_keep_run(steps, s, e);
    lemma_run_sums(m, steps, a, b, s, e);
    lemma_keeps(src_of(steps.subrange(s, e)));
}

impl SpanMap {
    /// The rules and the cost of the segments from `a` up to `b`.
    fn sums(&self, a: usize, b: usize) -> (r: (Vec<RuleId>, NormalizationCost))
        requires
            exists|steps: Seq<Step>| self.of(steps),
            a <= b <= self.segments@.len(),
        ensures
            lists_rules(r.0@, rules_in(self.segments@.subrange(a as int, b as int))),
            r.1 == cost_in(self.segments@.subrange(a as int, b as int)),
    {
        let ghost some = choose|steps: Seq<Step>| self.of(steps);
        let mut rules: Vec<RuleId> = Vec::new();
        let mut cost: NormalizationCost = NormalizationCost::default();
        let mut k: usize = a;
        proof {
            lemma_lists_none(rules@);
        }
        while k < b
            invariant
                a <= k <= b <= self.segments@.len(),
                self.of(some),
                lists_rules(rules@, rules_in(self.segments@.subrange(a as int, k as int))),
                cost == cost_in(self.segments@.subrange(a as int, k as int)),
            decreases b - k,
        {
            let seg = &self.segments[k];
            assert(seg.stores(piece_at(some, k as int)));
            cost.add(&seg.cost);
            insert_rules(
                &mut rules,
                &seg.rules,
                Ghost(rules_in(self.segments@.subrange(a as int, k as int))),
                Ghost(rule_names(seg.rules@).to_set()),
            );
            proof {
                let now = self.segments@.subrange(a as int, k + 1);
                assert(now.drop_last() =~= self.segments@.subrange(a as int, k as int));
                assert(now.last() == *seg);
            }
            k += 1;
        }
        (rules, cost)
    }

    /// Reads a request off the segments that it reaches into.
    fn read(&self, dst: &Span, a: usize, b: usize) -> (r: SourceSpan)
        requires
            exists|steps: Seq<Step>| self.of(steps),
            self.touched(*dst, a as int, b as int),
            self.answers_in(*dst, a as int, b as int),
            a < b,
        ensures
            self.leads_back_in(*dst, a as int, b as int, r),
    {
        let start: u32 = dst.byte.start;
        let end: u32 = dst.byte.end;
        proof {
            let some = choose|steps: Seq<Step>| self.of(steps);
            lemma_kept_lengths(*self, some, a as int);
            lemma_kept_lengths(*self, some, b - 1);
        }
        let first = &self.segments[a];
        let last = &self.segments[b - 1];
        let inside_first: bool = first.kind == SegmentKind::Identity && start > first.dst.byte.start;
        let inside_last: bool = last.kind == SegmentKind::Identity && end < last.dst.byte.end;
        let (sb, sc): (u32, u32) = if inside_first {
            (
                first.src.byte.start + (start - first.dst.byte.start),
                first.src.char.start + (dst.char.start - first.dst.char.start),
            )
        } else {
            (first.src.byte.start, first.src.char.start)
        };
        let (eb, ec): (u32, u32) = if inside_last {
            (
                last.src.byte.start + (end - last.dst.byte.start),
                last.src.char.start + (dst.char.end - last.dst.char.start),
            )
        } else {
            (last.src.byte.end, last.src.char.end)
        };
        let snapped: bool = (!inside_first && start != first.dst.byte.start) || (!inside_last && end
            != last.dst.byte.end);
        let (rules, cost) = self.sums(a, b);
        SourceSpan { span: Span::new(sb..eb, sc..ec), snapped, rules, cost }
    }

    /// The position of a request that reaches into no segment.
    fn between(&self, dst: &Span, a: usize, Ghost(b): Ghost<int>) -> (r: SourceSpan)
        requires
            exists|steps: Seq<Step>| self.of(steps),
            self.touched(*dst, a as int, b),
            self.answers_in(*dst, a as int, b),
            a >= b,
        ensures
            self.leads_back_in(*dst, a as int, b, r),
    {
        let n: usize = self.segments.len();
        let start: u32 = dst.byte.start;
        let (byte, char): (u32, u32) = if n == 0 {
            (0, 0)
        } else {
            let k: usize = if a < n {
                a
            } else {
                n - 1
            };
            let seg = &self.segments[k];
            proof {
                let some = choose|steps: Seq<Step>| self.of(steps);
                lemma_kept_lengths(*self, some, k as int);
            }
            if seg.dst.byte.start == start {
                (seg.src.byte.start, seg.src.char.start)
            } else if seg.dst.byte.end == start {
                (seg.src.byte.end, seg.src.char.end)
            } else if seg.kind == SegmentKind::Identity && seg.dst.byte.start < start && start < seg.dst.byte.end {
                (
                    seg.src.byte.start + (start - seg.dst.byte.start),
                    seg.src.char.start + (dst.char.start - seg.dst.char.start),
                )
            } else {
                self.src_end()
            }
        };
        SourceSpan {
            span: Span::empty_at(byte, char),
            snapped: false,
            rules: Vec::new(),
            cost: NormalizationCost::default(),
        }
    }

    /// Whether the character offsets of a request have their places.
    fn can_answer_in(&self, dst: &Span, a: usize, b: usize) -> (r: bool)
        requires
            self.touched(*dst, a as int, b as int),
        ensures
            r == self.answers_in(*dst, a as int, b as int),
    {
        let n: usize = self.segments.len();
        if a < b {
            let first = &self.segments[a];
            let last = &self.segments[b - 1];
            let in_first: bool = first.kind == SegmentKind::Identity && dst.byte.start > first.dst.byte.start;
            let in_last: bool = last.kind == SegmentKind::Identity && dst.byte.end < last.dst.byte.end;
            (!in_first || shiftable(first, dst.char.start)) && (!in_last || shiftable(last, dst.char.end))
        } else if n == 0 {
            true
        } else {
            let seg = &self.segments[if a < n {
                a
            } else {
                n - 1
            }];
            let inside: bool = seg.kind == SegmentKind::Identity && seg.dst.byte.start < dst.byte.start && dst.byte.start
                < seg.dst.byte.end;
            !inside || shiftable(seg, dst.char.start)
        }
    }

    /// Whether a request can be led back.
    pub fn can_answer(&self, dst: &Span) -> (r: bool)
        requires
            exists|steps: Seq<Step>| self.of(steps),
        ensures
            r == self.answers(*dst),
            forall|steps: Seq<Step>| #[trigger] self.of(steps) && dst.within(dst_of(steps)) ==> r,
    {
        let a: usize = self.ending_by(dst.byte.start);
        let b: usize = self.beginning_before(dst.byte.end);
        proof {
            assert(self.touched(*dst, a as int, b as int));
            lemma_touched_is(*self, *dst, a as int, b as int);
            assert forall|steps: Seq<Step>| #[trigger] self.of(steps) && dst.within(dst_of(steps)) implies self.answers(
                *dst,
            ) by {
                lemma_span_is_answered(*self, steps, *dst);
            }
        }
        self.can_answer_in(dst, a, b)
    }

    /// Leads a span of the output back to the source.
    ///
    /// Inside kept text the span is mapped position by position. Where it divides a rewritten
    /// segment, it is widened to the whole segment and marked as snapped. A segment absorbed right
    /// at one of its ends is left out: the source of `880101` in `-880101` has no hyphen.
    ///
    /// A span that goes beyond the output is cut off at its end and marked as snapped.
    pub fn to_source(&self, dst: &Span) -> (r: SourceSpan)
        requires
            exists|steps: Seq<Step>| #[trigger] self.of(steps) && (dst.within(dst_of(steps)) || self.answers(*dst)),
        ensures
            self.leads_back(*dst, r),
            forall|steps: Seq<Step>| #[trigger]
                self.of(steps) && dst.within(dst_of(steps)) ==> r.traces(
                    steps,
                    dst.char.start as int,
                    dst.char.end as int,
                ) && r.span.within(src_of(steps)),
    {
        let first_idx: usize = self.ending_by(dst.byte.start);
        let after_idx: usize = self.beginning_before(dst.byte.end);
        proof {
            let some = choose|steps: Seq<Step>| #[trigger]
                self.of(steps) && (dst.within(dst_of(steps)) || self.answers(*dst));
            assert(self.touched(*dst, first_idx as int, after_idx as int));
            lemma_touched_is(*self, *dst, first_idx as int, after_idx as int);
            if dst.within(dst_of(some)) {
                lemma_span_is_answered(*self, some, *dst);
            }
            assert(self.answers_in(*dst, first_idx as int, after_idx as int));
        }
        let r = if first_idx >= after_idx {
            self.between(dst, first_idx, Ghost(after_idx as int))
        } else {
            self.read(dst, first_idx, after_idx)
        };
        proof {
            assert forall|steps: Seq<Step>| #[trigger] self.of(steps) && dst.within(dst_of(steps)) implies r.traces(
                steps,
                dst.char.start as int,
                dst.char.end as int,
            ) && r.span.within(src_of(steps)) by {
                lemma_led_back(*self, steps, *dst, first_idx as int, after_idx as int, r);
                law_source_span_is_inside(steps, r, dst.char.start as int, dst.char.end as int);
            }
        }
        r
    }
}

/// Whether a character offset has its place in the source.
fn shiftable(seg: &Segment, char: u32) -> (r: bool)
    ensures
        r == shifts(*seg, char),
{
    seg.dst.char.start <= char && char - seg.dst.char.start <= u32::MAX - seg.src.char.start
}

/// A request reaches into one run of segments only.
proof fn lemma_touched_is(m: SpanMap, dst: Span, a: int, b: int)
    requires
        m.touched(dst, a, b),
    ensures
        forall|c: int, d: int| #[trigger] m.touched(dst, c, d) ==> c == a && d == b,
{
    assert forall|c: int, d: int| #[trigger] m.touched(dst, c, d) implies c == a && d == b by {
        if c < a {
            assert(m.segments@[c].dst.byte.end > dst.byte.start);
        } else if a < c {
            assert(m.segments@[a].dst.byte.end > dst.byte.start);
        }
        if d < b {
            assert(m.segments@[d].dst.byte.start >= dst.byte.end);
        } else if b < d {
            assert(m.segments@[b].dst.byte.start >= dst.byte.end);
        }
    }
}

/// A kept segment is as long in the source as in the output.
proof fn lemma_kept_lengths(m: SpanMap, steps: Seq<Step>, k: int)
    requires
        m.of(steps),
        0 <= k < m.segments@.len(),
    ensures
        m.segments@[k].kind == SegmentKind::Identity ==> m.segments@[k].src.byte.end - m.segments@[k].src.byte.start == m.segments@[k].dst.byte.end
            - m.segments@[k].dst.byte.start,
{
    law_stored_steps_are_sound(m, steps);
    assert(fault(m.segments@, k) is None);
}

/// Every span of the output can be led back.
proof fn lemma_span_is_answered(m: SpanMap, steps: Seq<Step>, dst: Span)
    requires
        m.of(steps),
        dst.within(dst_of(steps)),
    ensures
        m.answers(dst),
{
    assert forall|a: int, b: int| #[trigger] m.touched(dst, a, b) implies m.answers_in(dst, a, b) by {
        if a < b {
            lemma_start_mark(m, steps, dst, a);
            lemma_end_mark(m, steps, dst, b);
        } else if m.segments@.len() > 0 {
            lemma_request_between(m, steps, dst, a, b);
        }
    }
}

/// What a span of the output is led to is what the steps say.
proof fn lemma_led_back(m: SpanMap, steps: Seq<Step>, dst: Span, a: int, b: int, r: SourceSpan)
    requires
        m.of(steps),
        dst.within(dst_of(steps)),
        m.touched(dst, a, b),
        m.leads_back_in(dst, a, b, r),
    ensures
        r.traces(steps, dst.char.start as int, dst.char.end as int),
{
    if a < b {
        lemma_read_off(m, steps, dst, a, b, r);
    } else if m.segments@.len() > 0 {
        lemma_request_between(m, steps, dst, a, b);
    } else {
        lemma_starts(steps);
        assert(steps.take(0) =~= Seq::<Step>::empty());
    }
}

/// Inside a kept segment, byte and character distances belong together.
proof fn lemma_kept_offset(m: SpanMap, steps: Seq<Step>, i: int, n: int)
    requires
        m.of(steps),
        0 <= i < m.segments@.len(),
        m.segments@[i].kind == SegmentKind::Identity,
        m.segments@[i].dst.char.start <= n <= m.segments@[i].dst.char.end,
    ensures
        dst_of(steps).take(n) == dst_of(steps.take(bound(steps, i) + (n - m.segments@[i].dst.char.start))),
{
    let p = bound(steps, i) + (n - m.segments@[i].dst.char.start);
    lemma_segment(steps, i);
    assert(m.segments@[i].stores(piece_at(steps, i)));
    lemma_keep_run(steps, bound(steps, i), bound(steps, i + 1));
    lemma_keep_run(steps, bound(steps, i), p);
    assert(steps =~= steps.take(p) + steps.skip(p));
    lemma_of_add(steps.take(p), steps.skip(p));
    assert(dst_of(steps).take(n) =~= dst_of(steps.take(p)));
}

} // verus!
