//! How a run of steps is laid out as segments with offsets in both texts.

use vstd::prelude::*;
use crate::span::cost::NormalizationCost;
use crate::span::SegmentKind;
use crate::span::steps::{dst_of, keeps, lemma_keeps_index, src_of, Step};
use crate::text::utf8_len;

verus! {

broadcast use crate::text::lemma_text_char_range;

/// A position in a text, counted in bytes and in characters.
pub struct Mark {
    pub byte: nat,
    pub char: nat,
}

/// The end of a text.
pub open spec fn end_mark(text: Seq<char>) -> Mark {
    Mark { byte: utf8_len(text), char: text.len() }
}

/// Where the source of step `p` begins.
pub open spec fn src_mark(steps: Seq<Step>, p: int) -> Mark {
    end_mark(src_of(steps.take(p)))
}

/// Where the output of step `p` begins.
pub open spec fn dst_mark(steps: Seq<Step>, p: int) -> Mark {
    end_mark(dst_of(steps.take(p)))
}

/// What kind of segment a step gives.
pub open spec fn kind_of(step: Step) -> SegmentKind {
    match step {
        Step::Keep { .. } => SegmentKind::Identity,
        Step::Edit { src, dst, .. } => if dst.len() == 0 {
            SegmentKind::Delete
        } else if dst.len() > src.len() {
            SegmentKind::Expand
        } else {
            SegmentKind::Replace
        },
    }
}

/// A segment: a rewritten run, or a longest run of kept characters.
pub struct Piece {
    pub src_from: Mark,
    pub src_to: Mark,
    pub dst_from: Mark,
    pub dst_to: Mark,
    pub kind: SegmentKind,
    pub rules: Set<Seq<char>>,
    pub cost: NormalizationCost,
}

/// The segment made of the steps from `p` up to `q`.
pub open spec fn piece(steps: Seq<Step>, p: int, q: int) -> Piece {
    Piece {
        src_from: src_mark(steps, p),
        src_to: src_mark(steps, q),
        dst_from: dst_mark(steps, p),
        dst_to: dst_mark(steps, q),
        kind: kind_of(steps[p]),
        rules: steps[p].rules(),
        cost: steps[p].cost(),
    }
}

/// The steps at which a segment begins: all but a kept character that follows a kept character.
pub open spec fn starts(steps: Seq<Step>) -> Seq<int>
    decreases steps.len(),
{
    if steps.len() == 0 {
        Seq::empty()
    } else {
        let init = steps.drop_last();
        if init.len() > 0 && init.last() is Keep && steps.last() is Keep {
            starts(init)
        } else {
            starts(init).push(init.len() as int)
        }
    }
}

/// The step at which segment `k` begins, or the end of the run.
pub open spec fn bound(steps: Seq<Step>, k: int) -> int {
    if 0 <= k < starts(steps).len() {
        starts(steps)[k]
    } else {
        steps.len() as int
    }
}

/// Segment `k` of a run of steps.
pub open spec fn piece_at(steps: Seq<Step>, k: int) -> Piece {
    piece(steps, bound(steps, k), bound(steps, k + 1))
}

/// A run of steps has a segment unless it is empty, and the first begins at its first step.
pub proof fn lemma_starts(steps: Seq<Step>)
    ensures
        steps.len() > 0 ==> starts(steps).len() > 0,
        starts(steps).len() <= steps.len(),
        bound(steps, 0) == 0,
    decreases steps.len(),
{
    if steps.len() > 0 {
        lemma_starts(steps.drop_last());
    }
}

/// Segments are nonempty and in order. One that rewrites is a single step. One that keeps, keeps
/// all its characters and is followed by one that rewrites.
pub proof fn lemma_segment(steps: Seq<Step>, k: int)
    requires
        0 <= k < starts(steps).len(),
    ensures
        0 <= bound(steps, k) < bound(steps, k + 1) <= steps.len(),
        steps[bound(steps, k)] is Edit ==> bound(steps, k + 1) == bound(steps, k) + 1,
        steps[bound(steps, k)] is Keep ==> forall|i: int|
            bound(steps, k) <= i < bound(steps, k + 1) ==> (#[trigger] steps[i]) is Keep,
        steps[bound(steps, k)] is Keep && k + 1 < starts(steps).len() ==> steps[bound(steps, k + 1)] is Edit,
    decreases steps.len(),
{
    let init = steps.drop_last();
    let n = starts(init).len() as int;
    lemma_starts(init);
    if k < n {
        lemma_segment(init, k);
        assert(forall|i: int| 0 <= i < init.len() ==> #[trigger] steps[i] == init[i]);
        if k + 1 < n {
            lemma_segment(init, k + 1);
        }
    }
}

/// Rewriting one more run adds one segment and leaves the others alone.
pub proof fn lemma_starts_push_edit(steps: Seq<Step>, e: Step)
    requires
        e is Edit,
    ensures
        starts(steps.push(e)) == starts(steps).push(steps.len() as int),
{
    assert(steps.push(e).drop_last() =~= steps);
}

/// Keeping more characters lengthens the last segment if it keeps too, and adds one otherwise.
pub proof fn lemma_starts_keeps(steps: Seq<Step>, t: Seq<char>)
    requires
        t.len() > 0,
    ensures
        starts(steps + keeps(t)) == if steps.len() > 0 && steps.last() is Keep {
            starts(steps)
        } else {
            starts(steps).push(steps.len() as int)
        },
    decreases t.len(),
{
    let whole = steps + keeps(t);
    let u = t.drop_last();
    lemma_keeps_index(t);
    lemma_keeps_index(u);
    assert(whole.drop_last() =~= steps + keeps(u));
    assert(whole.last() is Keep);
    if u.len() == 0 {
        assert(steps + keeps(u) =~= steps);
    } else {
        lemma_starts_keeps(steps, u);
        assert((steps + keeps(u)).last() is Keep);
    }
}

/// A segment does not change when steps are added behind it.
pub proof fn lemma_piece_extend(steps: Seq<Step>, more: Seq<Step>, p: int, q: int)
    requires
        0 <= p < q <= steps.len(),
    ensures
        piece(steps + more, p, q) == piece(steps, p, q),
{
    assert((steps + more).take(p) =~= steps.take(p));
    assert((steps + more).take(q) =~= steps.take(q));
}

} // verus!
