//! Building a normalized text together with its span map.

use vstd::prelude::*;
use crate::span::cost::{clamp_u16, clamped, no_cost, NormalizationCost};
use crate::span::layout::{bound, end_mark};
use crate::span::steps::{
    dst_of, keeps, lemma_keeps, lemma_keeps_index, lemma_of_add, lemma_of_single, src_of, valid,
    Step,
};
use crate::span::{
    laid_out, lemma_laid_out_edit, lemma_laid_out_keeps, lemma_laid_out_more_keeps, lemma_last_kind,
    lemma_lists_none, lists_rules, rule_names, Absorbed, RuleId, Segment, SegmentKind, Span,
    SpanMap,
};
use crate::text::{byte_len, char_count, lemma_utf8_len_add, lemma_utf8_len_bounds, utf8_len};

verus! {

broadcast use crate::text::lemma_text_char_range;

/// The step that replaces `src` by `dst`.
pub open spec fn replacement(src: Seq<char>, dst: Seq<char>, rule: Seq<char>) -> Step {
    Step::Edit {
        src,
        dst,
        rules: set![rule],
        cost: NormalizationCost { replaced_chars: clamped(src.len()), ..no_cost() },
    }
}

/// The step that reads the numeral `src` as the digits `dst`.
pub open spec fn reading(src: Seq<char>, dst: Seq<char>, rule: Seq<char>) -> Step {
    Step::Edit {
        src,
        dst,
        rules: set![rule],
        cost: NormalizationCost { expanded_syllables: clamped(src.len()), ..no_cost() },
    }
}

/// The step that absorbs `src`.
pub open spec fn absorption(src: Seq<char>, rule: Seq<char>, class: Absorbed) -> Step {
    Step::Edit {
        src,
        dst: Seq::empty(),
        rules: set![rule],
        cost: match class {
            Absorbed::Whitespace => NormalizationCost { absorbed_whitespace: clamped(src.len()), ..no_cost() },
            Absorbed::Separator => NormalizationCost { absorbed_separators: clamped(src.len()), ..no_cost() },
            Absorbed::Other => no_cost(),
        },
    }
}

/// Builds a normalized text together with its [`SpanMap`].
///
/// A pass walks over its input and hands every part of it, in order, to one of `keep`, `replace`,
/// `numeral` and `absorb`. The view of a builder is the run of steps taken so far.
pub struct SpanMapBuilder {
    segments: Vec<Segment>,
    out: String,
    src_byte: u32,
    src_char: u32,
    dst_byte: u32,
    dst_char: u32,
    steps: Ghost<Seq<Step>>,
}

impl View for SpanMapBuilder {
    type V = Seq<Step>;

    closed spec fn view(&self) -> Seq<Step> {
        self.steps@
    }
}

impl SpanMapBuilder {
    /// The fields agree with the steps taken.
    pub closed spec fn wf(&self) -> bool {
        &&& valid(self@)
        &&& laid_out(self.segments@, self@)
        &&& self.out@ == dst_of(self@)
        &&& self.src_byte == utf8_len(src_of(self@))
        &&& self.src_char == src_of(self@).len()
        &&& self.dst_byte == utf8_len(dst_of(self@))
        &&& self.dst_char == dst_of(self@).len()
    }

    /// Source and output still fit 32-bit offsets when `src` and `dst` are added to them.
    pub open spec fn has_room(&self, src: Seq<char>, dst: Seq<char>) -> bool {
        &&& utf8_len(src_of(self@)) + utf8_len(src) <= u32::MAX
        &&& utf8_len(dst_of(self@)) + utf8_len(dst) <= u32::MAX
    }

    /// A builder that has taken no step.
    pub fn new() -> (r: Self)
        ensures
            r.wf(),
            r@ == Seq::<Step>::empty(),
    {
        SpanMapBuilder {
            segments: Vec::new(),
            out: String::new(),
            src_byte: 0,
            src_char: 0,
            dst_byte: 0,
            dst_char: 0,
            steps: Ghost(Seq::empty()),
        }
    }

    /// A builder that is about to walk over a text.
    pub fn with_capacity(_text: &str) -> (r: Self)
        ensures
            r.wf(),
            r@ == Seq::<Step>::empty(),
    {
        SpanMapBuilder::new()
    }

    /// Passes a part of the source unchanged. Adjoining calls make one segment.
    pub fn keep(&mut self, text: &str)
        requires
            old(self).wf(),
            old(self).has_room(text@, text@),
        ensures
            final(self).wf(),
            final(self)@ == old(self)@ + keeps(text@),
    {
        let ghost before = self@;
        proof {
            lemma_keeps_index(text@);
            lemma_keeps(text@);
            lemma_of_add(before, keeps(text@));
        }
        if text.is_empty() {
            assert(before + keeps(text@) =~= before);
            return;
        }
        let src = self.advance_src(text);
        let dst = self.advance_dst(text, Ghost(text@));
        push_kept(&mut self.segments, src, dst, Ghost(before), Ghost(text@));
        self.steps = Ghost(before + keeps(text@));
    }

    /// Replaces a part of the source. An empty part is passed over: nothing is ever inserted.
    pub fn replace(&mut self, src_text: &str, dst_text: &str, rule: RuleId)
        requires
            old(self).wf(),
            old(self).has_room(src_text@, dst_text@),
        ensures
            final(self).wf(),
            final(self)@ == if src_text@.len() == 0 {
                old(self)@
            } else {
                old(self)@.push(replacement(src_text@, dst_text@, rule@))
            },
    {
        if src_text.is_empty() {
            return;
        }
        let src = self.advance_src(src_text);
        let dst = self.advance_dst(dst_text, Ghost(src_text@));
        let cost = NormalizationCost { replaced_chars: clamp_u16(src.char_len()), ..NormalizationCost::default() };
        self.push_transform(src, dst, rule, cost, Ghost(src_text@), Ghost(dst_text@));
    }

    /// Reads a part of the source, a Hangul numeral, as digits. The cost counts its syllables.
    pub fn numeral(&mut self, src_text: &str, dst_text: &str, rule: RuleId)
        requires
            old(self).wf(),
            old(self).has_room(src_text@, dst_text@),
        ensures
            final(self).wf(),
            final(self)@ == if src_text@.len() == 0 {
                old(self)@
            } else {
                old(self)@.push(reading(src_text@, dst_text@, rule@))
            },
    {
        if src_text.is_empty() {
            return;
        }
        let src = self.advance_src(src_text);
        let dst = self.advance_dst(dst_text, Ghost(src_text@));
        let cost = NormalizationCost { expanded_syllables: clamp_u16(src.char_len()), ..NormalizationCost::default() };
        self.push_transform(src, dst, rule, cost, Ghost(src_text@), Ghost(dst_text@));
    }

    /// Drops a part of the source, such as a hyphen or a space.
    pub fn absorb(&mut self, src_text: &str, rule: RuleId, class: Absorbed)
        requires
            old(self).wf(),
            old(self).has_room(src_text@, Seq::empty()),
        ensures
            final(self).wf(),
            final(self)@ == if src_text@.len() == 0 {
                old(self)@
            } else {
                old(self)@.push(absorption(src_text@, rule@, class))
            },
    {
        if src_text.is_empty() {
            return;
        }
        let src = self.advance_src(src_text);
        let dst = Span::empty_at(self.dst_byte, self.dst_char);
        let n: u16 = clamp_u16(src.char_len());
        let cost = match class {
            Absorbed::Whitespace => NormalizationCost { absorbed_whitespace: n, ..NormalizationCost::default() },
            Absorbed::Separator => NormalizationCost { absorbed_separators: n, ..NormalizationCost::default() },
            Absorbed::Other => NormalizationCost::default(),
        };
        proof {
            assert(self.out@ + Seq::<char>::empty() =~= self.out@);
        }
        self.push_transform(src, dst, rule, cost, Ghost(src_text@), Ghost(Seq::empty()));
    }

    /// The normalized text and its map.
    pub fn finish(self) -> (r: (String, SpanMap))
        requires
            self.wf(),
        ensures
            r.0@ == dst_of(self@),
            r.1.of(self@),
    {
        (self.out, SpanMap { segments: self.segments })
    }

    /// The counters stand behind a step that is not recorded yet.
    spec fn ahead_by(&self, src: Seq<char>, dst: Seq<char>) -> bool {
        &&& valid(self@)
        &&& laid_out(self.segments@, self@)
        &&& self.out@ == dst_of(self@) + dst
        &&& self.src_byte == utf8_len(src_of(self@) + src)
        &&& self.src_char == (src_of(self@) + src).len()
        &&& self.dst_byte == utf8_len(dst_of(self@) + dst)
        &&& self.dst_char == (dst_of(self@) + dst).len()
    }

    fn push_transform(
        &mut self,
        src: Span,
        dst: Span,
        rule: RuleId,
        cost: NormalizationCost,
        Ghost(src_text): Ghost<Seq<char>>,
        Ghost(dst_text): Ghost<Seq<char>>,
    )
        requires
            old(self).ahead_by(src_text, dst_text),
            src_text.len() > 0,
            src.byte.start == utf8_len(src_of(old(self)@)),
            src.char.start == src_of(old(self)@).len(),
            src.byte.end == utf8_len(src_of(old(self)@) + src_text),
            src.char.end == src_of(old(self)@).len() + src_text.len(),
            dst.byte.start == utf8_len(dst_of(old(self)@)),
            dst.char.start == dst_of(old(self)@).len(),
            dst.byte.end == utf8_len(dst_of(old(self)@) + dst_text),
            dst.char.end == dst_of(old(self)@).len() + dst_text.len(),
        ensures
            final(self).wf(),
            final(self)@ == old(self)@.push(
                (Step::Edit { src: src_text, dst: dst_text, rules: set![rule@], cost }),
            ),
    {
        let ghost before = self@;
        let ghost e = Step::Edit { src: src_text, dst: dst_text, rules: set![rule@], cost };
        proof {
            assert(before.push(e) =~= before + seq![e]);
            lemma_of_add(before, seq![e]);
            lemma_of_single(e);
        }
        let mut rules: Vec<RuleId> = Vec::new();
        rules.push(rule);
        proof {
            lemma_lists_single(rules@, rule);
        }
        push_rewritten(&mut self.segments, src, dst, rules, cost, Ghost(before), Ghost(e));
        self.steps = Ghost(before + seq![e]);
    }

    fn advance_src(&mut self, text: &str) -> (r: Span)
        requires
            old(self).wf(),
            utf8_len(src_of(old(self)@)) + utf8_len(text@) <= u32::MAX,
        ensures
            r.byte.start == old(self).src_byte,
            r.char.start == old(self).src_char,
            r.byte.end == final(self).src_byte,
            r.char.end == final(self).src_char,
            r.char.end == r.char.start + text@.len(),
            final(self)@ == old(self)@,
            final(self).segments@ == old(self).segments@,
            final(self).ahead_by(text@, Seq::empty()),
            final(self).dst_byte == old(self).dst_byte,
            final(self).dst_char == old(self).dst_char,
    {
        proof {
            lemma_utf8_len_add(src_of(self@), text@);
            lemma_utf8_len_bounds(src_of(self@) + text@);
            lemma_utf8_len_bounds(src_of(self@));
            lemma_utf8_len_bounds(text@);
            assert(dst_of(self@) + Seq::<char>::empty() =~= dst_of(self@));
        }
        let b: u32 = self.src_byte;
        let c: u32 = self.src_char;
        self.src_byte = b + byte_len(text) as u32;
        self.src_char = c + char_count(text) as u32;
        Span::new(b..self.src_byte, c..self.src_char)
    }

    fn advance_dst(&mut self, text: &str, Ghost(src): Ghost<Seq<char>>) -> (r: Span)
        requires
            old(self).ahead_by(src, Seq::empty()),
            utf8_len(dst_of(old(self)@)) + utf8_len(text@) <= u32::MAX,
        ensures
            r.byte.start == old(self).dst_byte,
            r.char.start == old(self).dst_char,
            r.byte.end == final(self).dst_byte,
            r.char.end == final(self).dst_char,
            final(self)@ == old(self)@,
            final(self).segments@ == old(self).segments@,
            final(self).ahead_by(src, text@),
    {
        proof {
            assert(dst_of(self@) + Seq::<char>::empty() =~= dst_of(self@));
            lemma_utf8_len_add(dst_of(self@), text@);
            lemma_utf8_len_bounds(dst_of(self@) + text@);
            lemma_utf8_len_bounds(dst_of(self@));
            lemma_utf8_len_bounds(text@);
        }
        let b: u32 = self.dst_byte;
        let c: u32 = self.dst_char;
        self.out.append(text);
        self.dst_byte = b + byte_len(text) as u32;
        self.dst_char = c + char_count(text) as u32;
        Span::new(b..self.dst_byte, c..self.dst_char)
    }
}

impl Default for SpanMapBuilder {
    fn default() -> (r: Self)
        ensures
            r.wf(),
            r@ == Seq::<Step>::empty(),
    {
        SpanMapBuilder::new()
    }
}

/// A list of one rule.
proof fn lemma_lists_single(rules: Seq<RuleId>, rule: RuleId)
    requires
        rules == seq![rule],
    ensures
        lists_rules(rules, set![rule@]),
{
    let names = rule_names(rules);
    assert(names[0] == rule@);
    assert(names.to_set() =~= set![rule@]);
}

/// Appends a stretch of kept characters, to the last segment if it keeps too.
pub fn push_kept(segments: &mut Vec<Segment>, src: Span, dst: Span, Ghost(steps): Ghost<Seq<Step>>, Ghost(t): Ghost<Seq<char>>)
    requires
        laid_out(old(segments)@, steps),
        t.len() > 0,
        src.is(end_mark(src_of(steps)), end_mark(src_of(steps) + t)),
        dst.is(end_mark(dst_of(steps)), end_mark(dst_of(steps) + t)),
    ensures
        laid_out(final(segments)@, steps + keeps(t)),
{
    let ghost after = steps + keeps(t);
    proof {
        lemma_keeps_index(t);
        lemma_keeps(t);
        lemma_of_add(steps, keeps(t));
        lemma_last_kind(segments@, steps);
        assert(after.take(steps.len() as int) =~= steps);
        assert(after.take(after.len() as int) =~= after);
        assert(after[steps.len() as int] is Keep);
    }
    let n: usize = segments.len();
    if n > 0 && segments[n - 1].kind == SegmentKind::Identity {
        let mut last = segments.pop().unwrap();
        last.src = Span::new(last.src.byte.start..src.byte.end, last.src.char.start..src.char.end);
        last.dst = Span::new(last.dst.byte.start..dst.byte.end, last.dst.char.start..dst.char.end);
        proof {
            let p = bound(steps, n - 1);
            assert(after.take(p) =~= steps.take(p));
            assert(steps.take(steps.len() as int) =~= steps);
            lemma_laid_out_more_keeps(old(segments)@, steps, last, t);
        }
        segments.push(last);
        return;
    }
    let seg = Segment {
        src,
        dst,
        kind: SegmentKind::Identity,
        rules: Vec::new(),
        cost: NormalizationCost::default(),
    };
    proof {
        lemma_lists_none(seg.rules@);
        lemma_laid_out_keeps(old(segments)@, steps, seg, t);
    }
    segments.push(seg);
}

/// Appends a rewritten run.
pub fn push_rewritten(
    segments: &mut Vec<Segment>,
    src: Span,
    dst: Span,
    rules: Vec<RuleId>,
    cost: NormalizationCost,
    Ghost(steps): Ghost<Seq<Step>>,
    Ghost(e): Ghost<Step>,
)
    requires
        laid_out(old(segments)@, steps),
        e is Edit,
        e.cost() == cost,
        lists_rules(rules@, e.rules()),
        src.is(end_mark(src_of(steps)), end_mark(src_of(steps) + e.src())),
        dst.is(end_mark(dst_of(steps)), end_mark(dst_of(steps) + e.dst())),
    ensures
        laid_out(final(segments)@, steps + seq![e]),
{
    let ghost after = steps + seq![e];
    proof {
        lemma_of_add(steps, seq![e]);
        lemma_of_single(e);
        lemma_utf8_len_add(dst_of(steps), e.dst());
        lemma_utf8_len_bounds(e.dst());
        assert(after.take(steps.len() as int) =~= steps);
        assert(after.take(after.len() as int) =~= after);
    }
    let kind = classify(&src, &dst);
    let seg = Segment { src, dst, kind, rules, cost };
    proof {
        lemma_laid_out_edit(segments@, steps, seg, e);
    }
    segments.push(seg);
}

/// The kind of a rewritten segment follows from the lengths of its two sides.
fn classify(src: &Span, dst: &Span) -> (r: SegmentKind)
    ensures
        r == if dst.byte.start >= dst.byte.end {
            SegmentKind::Delete
        } else if dst.char.end - dst.char.start > src.char.end - src.char.start && dst.char.end > dst.char.start {
            SegmentKind::Expand
        } else {
            SegmentKind::Replace
        },
{
    if dst.is_empty() {
        SegmentKind::Delete
    } else if dst.char_len() > src.char_len() {
        SegmentKind::Expand
    } else {
        SegmentKind::Replace
    }
}

} // verus!
