//! A monotone alignment between a source text and its normalized form.
//!
//! Normalization deletes characters, replaces them, expands them and shrinks them, so the two
//! texts do not match position by position. Their order always matches. A [`SpanMap`] is a table
//! of segments that cover both texts in order without gap or overlap. It leads a span of the
//! normalized text back to the source, together with the rules and the cost of the way.

pub mod builder;
pub mod compose;
pub mod cost;
pub mod laws;
pub mod layout;
pub mod rules;
pub mod similar;
pub mod source;
pub mod steps;
pub mod validate;

use std::ops::Range;
use vstd::prelude::*;
use crate::span::layout::{
    bound, lemma_piece_extend, lemma_segment, lemma_starts, lemma_starts_keeps,
    lemma_starts_push_edit, piece, piece_at, starts, Mark, Piece,
};
use crate::span::steps::{dst_of, keeps, lemma_keeps_index, lemma_of_add, src_of, valid, Step};
use crate::text::{
    byte_len, cut, lemma_boundary_is_offset, lemma_offset_is_boundary, lemma_utf8_len_add,
    lemma_utf8_len_bounds, lemma_utf8_len_is_encoding_len, lemma_utf8_len_split,
    lemma_utf8_offset_injective, lex_less, offsets, to_chars, utf8_len,
};
use vstd::utf8::{encode_utf8, is_char_boundary};

pub use crate::span::builder::SpanMapBuilder;
pub use crate::span::cost::NormalizationCost;

verus! {

broadcast use crate::text::lemma_text_char_range;

/// The name of a normalization rule.
pub type RuleId = &'static str;

/// A stretch of a text, in bytes and in characters.
#[derive(Debug, PartialEq, Eq)]
pub struct Span {
    /// UTF-8 byte offsets.
    pub byte: Range<u32>,
    /// Character offsets.
    pub char: Range<u32>,
}

impl Span {
    /// The span reaches from `from` to `to`.
    pub open spec fn is(self, from: Mark, to: Mark) -> bool {
        &&& self.byte.start == from.byte
        &&& self.char.start == from.char
        &&& self.byte.end == to.byte
        &&& self.char.end == to.char
    }

    /// The span lies on characters of `text`, and its two coordinates agree.
    pub open spec fn within(self, text: Seq<char>) -> bool {
        &&& self.char.start <= self.char.end <= text.len()
        &&& self.byte.start == utf8_len(text.take(self.char.start as int))
        &&& self.byte.end == utf8_len(text.take(self.char.end as int))
    }

    /// The characters that the span covers.
    pub open spec fn covered(self, text: Seq<char>) -> Seq<char> {
        text.subrange(self.char.start as int, self.char.end as int)
    }

    /// A span of the given byte and character ranges.
    pub fn new(byte: Range<u32>, char: Range<u32>) -> (r: Self)
        ensures
            r.byte == byte,
            r.char == char,
    {
        Self { byte, char }
    }

    /// The empty span at a position.
    pub fn empty_at(byte: u32, char: u32) -> (r: Self)
        ensures
            r.byte == (Range { start: byte, end: byte }),
            r.char == (Range { start: char, end: char }),
    {
        Self { byte: byte..byte, char: char..char }
    }

    /// Whether the span covers no byte.
    pub fn is_empty(&self) -> (r: bool)
        ensures
            r == (self.byte.start >= self.byte.end),
    {
        self.byte.start >= self.byte.end
    }

    /// Number of bytes covered.
    pub fn byte_len(&self) -> (r: u32)
        ensures
            r == if self.byte.end > self.byte.start {
                self.byte.end - self.byte.start
            } else {
                0
            },
    {
        self.byte.end.saturating_sub(self.byte.start)
    }

    /// Number of characters covered.
    pub fn char_len(&self) -> (r: u32)
        ensures
            r == if self.char.end > self.char.start {
                self.char.end - self.char.start
            } else {
                0
            },
    {
        self.char.end.saturating_sub(self.char.start)
    }

    /// The part of a text that the span points at.
    pub fn slice<'a>(&self, text: &'a str) -> (r: &'a str)
        requires
            self.byte.start <= self.byte.end,
            is_char_boundary(encode_utf8(text@), self.byte.start as int),
            is_char_boundary(encode_utf8(text@), self.byte.end as int),
        ensures
            encode_utf8(r@) == encode_utf8(text@).subrange(self.byte.start as int, self.byte.end as int),
            self.within(text@) ==> r@ == self.covered(text@),
    {
        let ghost bytes = encode_utf8(text@);
        proof {
            lemma_boundary_is_offset(text@, self.byte.end as int);
            lemma_boundary_is_offset(text@, self.byte.start as int);
        }
        let ghost i = choose|i: int| 0 <= i <= text@.len() && utf8_len(#[trigger] text@.take(i)) == self.byte.start;
        let ghost j = choose|j: int| 0 <= j <= text@.len() && utf8_len(#[trigger] text@.take(j)) == self.byte.end;
        proof {
            lemma_utf8_len_bounds(text@);
            if j < i {
                lemma_utf8_len_split(text@, j, i);
            }
            lemma_offset_is_boundary(text@, j);
            lemma_offset_is_boundary(text@.take(j), i);
            assert(text@.take(j).take(i) =~= text@.take(i));
            assert(text@.take(j).skip(i) =~= text@.subrange(i, j));
            lemma_utf8_len_is_encoding_len(text@.take(j));
            lemma_utf8_len_is_encoding_len(text@);
            lemma_utf8_len_split(text@, i, j);
            assert(bytes.subrange(0, self.byte.end as int).subrange(
                self.byte.start as int,
                self.byte.end as int,
            ) =~= bytes.subrange(self.byte.start as int, self.byte.end as int));
            if self.within(text@) {
                lemma_utf8_offset_injective(text@, i, self.char.start as int);
                lemma_utf8_offset_injective(text@, j, self.char.end as int);
            }
        }
        cut(text, self.byte.start as usize, self.byte.end as usize, Ghost(i), Ghost(j))
    }
}

/// Why there is no span of some characters.
#[derive(Debug, Clone, Copy, PartialEq, Eq, Structural)]
pub enum RangeFault {
    /// It would begin behind its end.
    Reversed,
    /// It would end behind the text, which has this many characters.
    OutOfRange(u32),
}

/// Why a span points at no part of a text.
#[derive(Debug, Clone, Copy, PartialEq, Eq, Structural)]
pub enum SliceFault {
    /// It is reversed or ends behind the text.
    OutOfRange,
    /// It begins or ends inside a character.
    NotOnCharacters,
}

impl Span {
    /// The span of some characters of a text.
    pub fn from_char_range(text: &str, char_start: u32, char_end: u32) -> (r: core::result::Result<Span, RangeFault>)
        requires
            utf8_len(text@) <= u32::MAX,
        ensures
            char_start > char_end ==> r == Err::<Span, RangeFault>(RangeFault::Reversed),
            char_start <= char_end && char_end > text@.len() ==> r == Err::<Span, RangeFault>(
                RangeFault::OutOfRange(text@.len() as u32),
            ),
            char_start <= char_end <= text@.len() ==> r is Ok,
            r matches Ok(span) ==> span.within(text@) && span.char.start == char_start && span.char.end == char_end,
    {
        if char_start > char_end {
            return Err(RangeFault::Reversed);
        }
        let chars = to_chars(text);
        let bounds = offsets(chars.as_slice());
        proof {
            lemma_utf8_len_bounds(text@);
        }
        let last: u32 = chars.len() as u32;
        if char_end > last {
            return Err(RangeFault::OutOfRange(last));
        }
        Ok(Span::new(bounds[char_start as usize]..bounds[char_end as usize], char_start..char_end))
    }

    /// The part of a text that the span points at, if it points at one.
    pub fn try_slice<'a>(&self, text: &'a str) -> (r: core::result::Result<&'a str, SliceFault>)
        ensures
            r is Err && r->Err_0 == SliceFault::OutOfRange <==> self.byte.start > self.byte.end || self.byte.end > utf8_len(
                text@,
            ),
            r is Ok <==> self.byte.start <= self.byte.end && self.byte.end <= utf8_len(text@) && is_char_boundary(
                encode_utf8(text@),
                self.byte.start as int,
            ) && is_char_boundary(encode_utf8(text@), self.byte.end as int),
            r matches Ok(part) ==> encode_utf8(part@) == encode_utf8(text@).subrange(
                self.byte.start as int,
                self.byte.end as int,
            ),
    {
        let len: usize = byte_len(text);
        if self.byte.start > self.byte.end || self.byte.end as usize > len {
            return Err(SliceFault::OutOfRange);
        }
        if !text.is_char_boundary(self.byte.start as usize) || !text.is_char_boundary(self.byte.end as usize) {
            return Err(SliceFault::NotOnCharacters);
        }
        Ok(self.slice(text))
    }
}

impl Clone for Span {
    fn clone(&self) -> (r: Self)
        ensures
            r == *self,
    {
        Self { byte: self.byte.start..self.byte.end, char: self.char.start..self.char.end }
    }
}

/// What a segment does.
#[derive(Debug, Clone, Copy, PartialEq, Eq, Structural)]
pub enum SegmentKind {
    /// Passes unchanged.
    Identity,
    /// Replaced by as many characters or fewer.
    Replace,
    /// Present in the source only.
    Delete,
    /// The output has more characters than the source.
    Expand,
}

/// What was absorbed. The detector weighs the classes differently.
#[derive(Debug, Clone, Copy, PartialEq, Eq, Structural)]
pub enum Absorbed {
    /// Whitespace. It can create a run of digits that was not there, so it weighs most.
    Whitespace,
    /// Hyphens, dots, brackets and the like.
    Separator,
    /// Anything else, such as control characters.
    Other,
}

/// One segment of a normalization.
#[derive(Debug, Clone, PartialEq, Eq)]
pub struct Segment {
    /// The stretch of the source.
    pub src: Span,
    /// The stretch of the output.
    pub dst: Span,
    /// What the segment does.
    pub kind: SegmentKind,
    /// The rules that made it, ascending by name and without repetition.
    pub rules: Vec<RuleId>,
    /// What it cost.
    pub cost: NormalizationCost,
}

/// The names of a list of rules.
pub open spec fn rule_names(rules: Seq<RuleId>) -> Seq<Seq<char>> {
    Seq::new(rules.len(), |i: int| rules[i]@)
}

/// The list names exactly the rules of `set`, each once, in ascending order.
pub open spec fn lists_rules(rules: Seq<RuleId>, set: Set<Seq<char>>) -> bool {
    &&& forall|i: int, j: int| 0 <= i < j < rules.len() ==> lex_less(#[trigger] rules[i]@, #[trigger] rules[j]@)
    &&& rule_names(rules).to_set() == set
}

impl Segment {
    /// The segment stores a piece of the layout.
    pub open spec fn stores(self, p: Piece) -> bool {
        &&& self.src.is(p.src_from, p.src_to)
        &&& self.dst.is(p.dst_from, p.dst_to)
        &&& self.kind == p.kind
        &&& lists_rules(self.rules@, p.rules)
        &&& self.cost == p.cost
    }
}

/// The segments store the layout of the steps.
pub open spec fn laid_out(segments: Seq<Segment>, steps: Seq<Step>) -> bool {
    &&& segments.len() == starts(steps).len()
    &&& forall|k: int| 0 <= k < segments.len() ==> (#[trigger] segments[k]).stores(piece_at(steps, k))
}

/// Segments stay laid out when one more run is rewritten.
pub proof fn lemma_laid_out_edit(segments: Seq<Segment>, steps: Seq<Step>, seg: Segment, e: Step)
    requires
        laid_out(segments, steps),
        e is Edit,
        seg.stores(piece(steps + seq![e], steps.len() as int, (steps.len() + 1) as int)),
    ensures
        laid_out(segments.push(seg), steps + seq![e]),
{
    let after = steps + seq![e];
    assert(steps.push(e) =~= after);
    lemma_starts_push_edit(steps, e);
    assert forall|k: int| 0 <= k < segments.push(seg).len() implies (#[trigger] segments.push(seg)[k]).stores(
        piece_at(after, k),
    ) by {
        if k < segments.len() {
            lemma_segment(steps, k);
            lemma_piece_extend(steps, seq![e], bound(steps, k), bound(steps, k + 1));
            assert(segments[k].stores(piece_at(steps, k)));
        }
    }
}

/// The last segment keeps exactly if the last step does.
pub proof fn lemma_last_kind(segments: Seq<Segment>, steps: Seq<Step>)
    requires
        laid_out(segments, steps),
    ensures
        segments.len() > 0 <==> steps.len() > 0,
        segments.len() > 0 ==> (segments.last().kind == SegmentKind::Identity <==> steps.last() is Keep),
        segments.len() > 0 ==> segments.last().stores(
            piece(steps, bound(steps, segments.len() - 1), steps.len() as int),
        ),
        segments.len() > 0 ==> 0 <= bound(steps, segments.len() - 1) < steps.len(),
{
    lemma_starts(steps);
    if segments.len() > 0 {
        let n = segments.len() as int;
        lemma_segment(steps, n - 1);
        assert(segments[n - 1].stores(piece_at(steps, n - 1)));
        assert(steps[steps.len() - 1] == steps.last());
    }
}

/// Segments stay laid out when more characters are kept behind a segment that does not keep.
pub proof fn lemma_laid_out_keeps(segments: Seq<Segment>, steps: Seq<Step>, seg: Segment, t: Seq<char>)
    requires
        laid_out(segments, steps),
        t.len() > 0,
        segments.len() > 0 ==> segments.last().kind != SegmentKind::Identity,
        seg.stores(piece(steps + keeps(t), steps.len() as int, (steps.len() + t.len()) as int)),
    ensures
        laid_out(segments.push(seg), steps + keeps(t)),
{
    let after = steps + keeps(t);
    lemma_keeps_index(t);
    lemma_last_kind(segments, steps);
    lemma_starts_keeps(steps, t);
    assert forall|k: int| 0 <= k < segments.push(seg).len() implies (#[trigger] segments.push(seg)[k]).stores(
        piece_at(after, k),
    ) by {
        if k < segments.len() {
            lemma_segment(steps, k);
            lemma_piece_extend(steps, keeps(t), bound(steps, k), bound(steps, k + 1));
            assert(segments[k].stores(piece_at(steps, k)));
        }
    }
}

/// Segments stay laid out when more characters are kept by the last one.
pub proof fn lemma_laid_out_more_keeps(segments: Seq<Segment>, steps: Seq<Step>, seg: Segment, t: Seq<char>)
    requires
        laid_out(segments, steps),
        t.len() > 0,
        segments.len() > 0,
        segments.last().kind == SegmentKind::Identity,
        seg.stores(piece(steps + keeps(t), bound(steps, segments.len() - 1), (steps.len() + t.len()) as int)),
    ensures
        laid_out(segments.drop_last().push(seg), steps + keeps(t)),
{
    let after = steps + keeps(t);
    lemma_keeps_index(t);
    lemma_last_kind(segments, steps);
    lemma_starts_keeps(steps, t);
    let segs = segments.drop_last().push(seg);
    assert forall|k: int| 0 <= k < segs.len() implies (#[trigger] segs[k]).stores(piece_at(after, k)) by {
        if k < segments.len() - 1 {
            lemma_segment(steps, k);
            lemma_piece_extend(steps, keeps(t), bound(steps, k), bound(steps, k + 1));
            assert(segments[k].stores(piece_at(steps, k)));
        }
    }
}

/// The rules of kept characters are listed by the empty list.
pub proof fn lemma_lists_none(rules: Seq<RuleId>)
    requires
        rules.len() == 0,
    ensures
        lists_rules(rules, Set::empty()),
{
    assert(rule_names(rules).to_set() =~= Set::empty());
}

/// Where a span of the output came from.
#[derive(Debug, Clone, PartialEq, Eq)]
pub struct SourceSpan {
    /// The span of the source.
    pub span: Span,
    /// Whether the span was widened to the bounds of a rewritten segment.
    pub snapped: bool,
    /// The rules that took part, ascending by name and without repetition.
    pub rules: Vec<RuleId>,
    /// The summed cost.
    pub cost: NormalizationCost,
}

/// The alignment of a source text with its normalized form.
#[derive(Debug, Clone, PartialEq, Eq)]
pub struct SpanMap {
    /// The segments, in order.
    pub segments: Vec<Segment>,
}

impl SpanMap {
    /// The map stores the layout of the steps.
    pub open spec fn of(self, steps: Seq<Step>) -> bool {
        valid(steps) && laid_out(self.segments@, steps)
    }

    /// The end of the source, in bytes and in characters.
    pub open spec fn src_limit(self) -> (u32, u32) {
        if self.segments@.len() == 0 {
            (0, 0)
        } else {
            (self.segments@.last().src.byte.end, self.segments@.last().src.char.end)
        }
    }

    /// The end of the output, in bytes and in characters.
    pub open spec fn dst_limit(self) -> (u32, u32) {
        if self.segments@.len() == 0 {
            (0, 0)
        } else {
            (self.segments@.last().dst.byte.end, self.segments@.last().dst.char.end)
        }
    }

    /// The map of a text that passes unchanged.
    pub fn identity(text: &str) -> (r: Self)
        requires
            utf8_len(text@) <= u32::MAX,
        ensures
            r.of(keeps(text@)),
    {
        let mut builder = SpanMapBuilder::with_capacity(text);
        builder.keep(text);
        assert(Seq::<Step>::empty() + keeps(text@) =~= keeps(text@));
        builder.finish().1
    }

    /// The segments, in order.
    pub fn segments(&self) -> (r: &[Segment])
        ensures
            r@ == self.segments@,
    {
        self.segments.as_slice()
    }

    /// Whether nothing changed.
    pub fn is_identity(&self) -> (r: bool)
        ensures
            r == forall|k: int| 0 <= k < self.segments@.len() ==> (#[trigger] self.segments@[k]).kind
                == SegmentKind::Identity,
            forall|steps: Seq<Step>| #[trigger] self.of(steps) ==> r == (steps == keeps(src_of(steps))),
    {
        let mut i: usize = 0;
        while i < self.segments.len()
            invariant
                i <= self.segments@.len(),
                forall|k: int| 0 <= k < i ==> (#[trigger] self.segments@[k]).kind == SegmentKind::Identity,
            decreases self.segments@.len() - i,
        {
            if self.segments[i].kind != SegmentKind::Identity {
                proof {
                    assert forall|steps: Seq<Step>| #[trigger] self.of(steps) implies steps != keeps(src_of(steps)) by {
                        lemma_segment(steps, i as int);
                        assert(self.segments@[i as int].stores(piece_at(steps, i as int)));
                        lemma_keeps_index(src_of(steps));
                        assert(steps[bound(steps, i as int)] is Edit);
                    }
                }
                return false;
            }
            i += 1;
        }
        proof {
            assert forall|steps: Seq<Step>| #[trigger] self.of(steps) implies steps == keeps(src_of(steps)) by {
                lemma_all_kept(*self, steps);
            }
        }
        true
    }

    /// The end of the source, in bytes and in characters.
    pub fn src_end(&self) -> (r: (u32, u32))
        ensures
            r == self.src_limit(),
            forall|steps: Seq<Step>| #[trigger] self.of(steps) ==> r.0 == utf8_len(src_of(steps)) && r.1 == src_of(
                steps,
            ).len(),
    {
        proof {
            assert forall|steps: Seq<Step>| #[trigger] self.of(steps) implies self.src_limit().0 == utf8_len(
                src_of(steps),
            ) && self.src_limit().1 == src_of(steps).len() by {
                lemma_limits(*self, steps);
            }
        }
        let n: usize = self.segments.len();
        if n == 0 {
            (0, 0)
        } else {
            (self.segments[n - 1].src.byte.end, self.segments[n - 1].src.char.end)
        }
    }

    /// The end of the output, in bytes and in characters.
    pub fn dst_end(&self) -> (r: (u32, u32))
        ensures
            r == self.dst_limit(),
            forall|steps: Seq<Step>| #[trigger] self.of(steps) ==> r.0 == utf8_len(dst_of(steps)) && r.1 == dst_of(
                steps,
            ).len(),
    {
        proof {
            assert forall|steps: Seq<Step>| #[trigger] self.of(steps) implies self.dst_limit().0 == utf8_len(
                dst_of(steps),
            ) && self.dst_limit().1 == dst_of(steps).len() by {
                lemma_limits(*self, steps);
            }
        }
        let n: usize = self.segments.len();
        if n == 0 {
            (0, 0)
        } else {
            (self.segments[n - 1].dst.byte.end, self.segments[n - 1].dst.char.end)
        }
    }
}

impl Default for SpanMap {
    fn default() -> (r: Self)
        ensures
            r.of(Seq::empty()),
            r.segments@.len() == 0,
    {
        SpanMap { segments: Vec::new() }
    }
}

/// The last segment ends where both texts end.
pub proof fn lemma_limits(m: SpanMap, steps: Seq<Step>)
    requires
        m.of(steps),
    ensures
        m.src_limit().0 == utf8_len(src_of(steps)),
        m.src_limit().1 == src_of(steps).len(),
        m.dst_limit().0 == utf8_len(dst_of(steps)),
        m.dst_limit().1 == dst_of(steps).len(),
{
    lemma_last_kind(m.segments@, steps);
    assert(steps.take(steps.len() as int) =~= steps);
}

/// If no segment rewrites, no step does.
proof fn lemma_all_kept(m: SpanMap, steps: Seq<Step>)
    requires
        m.of(steps),
        forall|k: int| 0 <= k < m.segments@.len() ==> (#[trigger] m.segments@[k]).kind == SegmentKind::Identity,
    ensures
        steps == keeps(src_of(steps)),
{
    lemma_starts(steps);
    if m.segments@.len() == 0 {
        assert(steps =~= keeps(src_of(steps)));
    } else {
        lemma_segment(steps, 0);
        assert(m.segments@[0].stores(piece_at(steps, 0)));
        if m.segments@.len() > 1 {
            assert(m.segments@[1].stores(piece_at(steps, 1)));
            lemma_segment(steps, 1);
        }
        lemma_keep_run(steps, 0, steps.len() as int);
        assert(steps.subrange(0, steps.len() as int) =~= steps);
    }
}

/// Between two positions of a run of kept characters, source and output advance alike.
pub proof fn lemma_keep_run(steps: Seq<Step>, s: int, p: int)
    requires
        0 <= s <= p <= steps.len(),
        forall|i: int| s <= i < p ==> (#[trigger] steps[i]) is Keep,
    ensures
        steps.subrange(s, p) == keeps(src_of(steps.subrange(s, p))),
        src_of(steps.subrange(s, p)) == dst_of(steps.subrange(s, p)),
        src_of(steps.subrange(s, p)).len() == p - s,
        src_of(steps.take(p)) == src_of(steps.take(s)) + src_of(steps.subrange(s, p)),
        dst_of(steps.take(p)) == dst_of(steps.take(s)) + src_of(steps.subrange(s, p)),
        utf8_len(src_of(steps.take(p))) - utf8_len(src_of(steps.take(s))) == utf8_len(dst_of(steps.take(p))) - utf8_len(
            dst_of(steps.take(s)),
        ),
    decreases p - s,
{
    let run = steps.subrange(s, p);
    if s == p {
        assert(run =~= Seq::<Step>::empty());
        assert(keeps(src_of(run)) =~= run);
    } else {
        lemma_keep_run(steps, s, p - 1);
        let prev = steps.subrange(s, p - 1);
        assert(run.drop_last() =~= prev);
        assert(run.last() == steps[p - 1]);
        let t = src_of(run);
        assert(t =~= src_of(prev).push(steps[p - 1].src()[0]));
        assert(t.drop_last() =~= src_of(prev));
        assert(keeps(t) =~= run);
    }
    assert(steps.take(p) =~= steps.take(s) + run);
    lemma_of_add(steps.take(s), run);
    lemma_utf8_len_add(src_of(steps.take(s)), src_of(run));
    lemma_utf8_len_add(dst_of(steps.take(s)), src_of(run));
}

} // verus!
