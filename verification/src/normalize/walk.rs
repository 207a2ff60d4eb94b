//! Walking over a text from front to back while it is rewritten.

use vstd::prelude::*;
use crate::span::steps::{
    dst_of, keeps, lemma_keeps, lemma_keeps_index, lemma_of_add, lemma_of_single, src_of, valid,
    Step,
};
use crate::span::builder::{absorption, reading, replacement};
use crate::span::{Absorbed, RuleId, SpanMap, SpanMapBuilder};
use crate::text::{
    cut, lemma_utf8_len_add, lemma_utf8_len_bounds, lemma_utf8_len_split, to_chars, utf8_len, width,
};

verus! {

broadcast use crate::text::lemma_text_char_range;

/// One kept character is one step.
pub proof fn lemma_keep_one(s: Seq<char>, i: int)
    requires
        0 <= i < s.len(),
    ensures
        s.subrange(i, i + 1) == seq![s[i]],
        keeps(s.subrange(i, i + 1)) == seq![Step::Keep { c: s[i] }],
{
    assert(s.subrange(i, i + 1) =~= seq![s[i]]);
    reveal_with_fuel(keeps, 2);
    assert(keeps(seq![s[i]]) =~= seq![Step::Keep { c: s[i] }]);
}

/// Taking the first of the steps to come.
pub proof fn lemma_take_step(before: Seq<Step>, step: Step, tail: Seq<Step>)
    ensures
        before + (seq![step] + tail) == before.push(step) + tail,
        before + (seq![step] + tail) == before + seq![step] + tail,
        utf8_len(dst_of(before + (seq![step] + tail))) == utf8_len(dst_of(before)) + utf8_len(step.dst()) + utf8_len(
            dst_of(tail),
        ),
{
    assert(before + (seq![step] + tail) =~= before.push(step) + tail);
    assert(before + (seq![step] + tail) =~= before + seq![step] + tail);
    lemma_of_add(before, seq![step] + tail);
    lemma_of_add(seq![step], tail);
    lemma_of_single(step);
    lemma_utf8_len_add(dst_of(before), dst_of(seq![step] + tail));
    lemma_utf8_len_add(step.dst(), dst_of(tail));
}

/// What a first step adds to the steps that follow it.
pub proof fn lemma_first_step(s: Seq<char>, i: int, n: int, step: Step, rest: Seq<Step>)
    requires
        0 <= i,
        0 < n,
        i + n <= s.len(),
        step.src() == s.subrange(i, i + n),
        valid(rest),
        src_of(rest) == s.skip(i + n),
    ensures
        valid(seq![step] + rest),
        src_of(seq![step] + rest) == s.skip(i),
        utf8_len(dst_of(seq![step] + rest)) == utf8_len(step.dst()) + utf8_len(dst_of(rest)),
        utf8_len(s.skip(i)) == utf8_len(step.src()) + utf8_len(s.skip(i + n)),
{
    lemma_of_add(seq![step], rest);
    lemma_of_single(step);
    assert(s.skip(i) =~= s.subrange(i, i + n) + s.skip(i + n));
    lemma_utf8_len_add(step.src(), s.skip(i + n));
    lemma_utf8_len_add(step.dst(), dst_of(rest));
}

/// A walk over a text. Characters that are passed are kept; they reach the builder in one piece
/// when the next run is rewritten. The view is the run of steps taken so far.
pub struct Walk<'a> {
    text: &'a str,
    chars: Vec<char>,
    builder: SpanMapBuilder,
    at: usize,
    byte: usize,
    kept_from: usize,
    held: Ghost<int>,
}

impl<'a> View for Walk<'a> {
    type V = Seq<Step>;

    closed spec fn view(&self) -> Seq<Step> {
        self.builder@ + keeps(self.text@.subrange(self.held@, self.at as int))
    }
}

impl<'a> Walk<'a> {
    /// The text walked over.
    pub closed spec fn over(&self) -> Seq<char> {
        self.text@
    }

    /// The position reached.
    pub closed spec fn pos(&self) -> int {
        self.at as int
    }

    /// The fields agree, and the steps taken consume exactly what was walked over.
    pub closed spec fn inv(&self) -> bool {
        &&& self.chars@ == self.text@
        &&& self.builder.wf()
        &&& 0 <= self.held@ <= self.at <= self.text@.len()
        &&& src_of(self.builder@) == self.text@.take(self.held@)
        &&& self.kept_from == utf8_len(self.text@.take(self.held@))
        &&& self.byte == utf8_len(self.text@.take(self.at as int))
        &&& utf8_len(self.text@) <= u32::MAX
        &&& self.text@.len() <= u32::MAX
    }

    /// What the invariant tells the outside.
    pub open spec fn wf(&self) -> bool {
        &&& self.inv()
        &&& 0 <= self.pos() <= self.over().len()
        &&& src_of(self@) == self.over().take(self.pos())
    }

    proof fn lemma_wf(&self)
        requires
            self.inv(),
        ensures
            self.wf(),
            dst_of(self@) == dst_of(self.builder@) + self.text@.subrange(self.held@, self.at as int),
    {
        let t = self.text@.subrange(self.held@, self.at as int);
        lemma_keeps(t);
        lemma_of_add(self.builder@, keeps(t));
        assert(self.text@.take(self.held@) + t =~= self.text@.take(self.at as int));
    }

    /// A walk that stands before the first character.
    pub fn new(text: &'a str) -> (r: Self)
        requires
            utf8_len(text@) <= u32::MAX,
        ensures
            r.wf(),
            r.over() == text@,
            r.pos() == 0,
            r@ == Seq::<Step>::empty(),
    {
        let r = Walk {
            text,
            chars: to_chars(text),
            builder: SpanMapBuilder::with_capacity(text),
            at: 0,
            byte: 0,
            kept_from: 0,
            held: Ghost(0),
        };
        proof {
            lemma_utf8_len_bounds(text@);
            assert(text@.take(0) =~= Seq::<char>::empty());
            assert(text@.subrange(0, 0) =~= Seq::<char>::empty());
            assert(r@ =~= Seq::<Step>::empty());
            r.lemma_wf();
        }
        r
    }

    /// The characters of the text.
    pub fn chars(&self) -> (r: &Vec<char>)
        requires
            self.wf(),
        ensures
            r@ == self.over(),
    {
        &self.chars
    }

    /// The position reached.
    pub fn position(&self) -> (r: usize)
        requires
            self.wf(),
        ensures
            r == self.pos(),
    {
        self.at
    }

    /// Keeps the next `n` characters.
    pub fn pass(&mut self, n: usize)
        requires
            old(self).wf(),
            old(self).pos() + n <= old(self).over().len(),
        ensures
            final(self).wf(),
            final(self).over() == old(self).over(),
            final(self).pos() == old(self).pos() + n,
            final(self)@ == old(self)@ + keeps(old(self).over().subrange(old(self).pos(), old(self).pos() + n)),
    {
        let ghost a = self.held@;
        let ghost b = self.at as int;
        let ghost before = self@;
        let stop: usize = self.at + n;
        let byte = self.advance(n);
        self.at = stop;
        self.byte = byte;
        proof {
            let t = self.text@;
            let l = t.subrange(a, b);
            let r = t.subrange(b, b + n);
            lemma_keeps_index(l);
            lemma_keeps_index(r);
            lemma_keeps_index(t.subrange(a, b + n));
            assert(t.subrange(a, b + n) =~= l + r);
            assert(keeps(t.subrange(a, b + n)) =~= keeps(l) + keeps(r));
            assert(self@ =~= before + keeps(r));
            self.lemma_wf();
        }
    }

    /// The byte offset that lies `n` characters ahead.
    fn advance(&self, n: usize) -> (r: usize)
        requires
            self.inv(),
            self.at + n <= self.text@.len(),
        ensures
            r == utf8_len(self.text@.take(self.at + n)),
    {
        let mut byte: usize = self.byte;
        let mut i: usize = 0;
        while i < n
            invariant
                self.inv(),
                i <= n,
                self.at + n <= self.text@.len(),
                byte == utf8_len(self.text@.take(self.at + i)),
            decreases n - i,
        {
            proof {
                let t = self.text@;
                let k = self.at + i;
                lemma_utf8_len_split(t, k, k + 1);
                assert(t.subrange(k, k + 1) =~= seq![t[k]]);
                reveal_with_fuel(utf8_len, 2);
                assert(seq![t[k]].drop_last() =~= Seq::<char>::empty());
                lemma_utf8_len_split(t, k + 1, k + 1);
            }
            byte += width(self.chars[self.at + i]) as usize;
            i += 1;
        }
        byte
    }

    /// Hands the kept characters to the builder and returns the next `n` characters.
    fn take(&mut self, n: usize) -> (r: &'a str)
        requires
            old(self).wf(),
            old(self).pos() + n <= old(self).over().len(),
            utf8_len(dst_of(old(self)@)) <= u32::MAX,
        ensures
            final(self).text@ == old(self).text@,
            final(self).chars@ == old(self).chars@,
            final(self).builder.wf(),
            final(self).builder@ == old(self)@,
            final(self).at == old(self).at + n,
            final(self).kept_from == final(self).byte,
            final(self).byte == utf8_len(old(self).text@.take(old(self).at + n)),
            final(self).held@ == final(self).at,
            r@ == old(self).text@.subrange(old(self).at as int, old(self).at + n),
    {
        let ghost t = self.text@;
        let ghost a = self.held@;
        let ghost b = self.at as int;
        proof {
            self.lemma_wf();
            lemma_utf8_len_split(t, a, b);
            lemma_utf8_len_add(dst_of(self.builder@), t.subrange(a, b));
            lemma_utf8_len_split(t, b, b);
            assert(src_of(self.builder@) == t.take(a));
        }
        let end = self.advance(n);
        let kept = cut(self.text, self.kept_from, self.byte, Ghost(a), Ghost(b));
        self.builder.keep(kept);
        proof {
            lemma_utf8_len_split(t, b, b + n);
        }
        let part = cut(self.text, self.byte, end, Ghost(b), Ghost(b + n));
        self.at = self.at + n;
        self.byte = end;
        self.kept_from = end;
        self.held = Ghost(self.at as int);
        part
    }

    /// Where a step ends that rewrites the next `n` characters.
    proof fn lemma_rewritten(&self, before: Seq<Step>, step: Step, from: int)
        requires
            0 <= from < self.at <= self.text@.len(),
            self.chars@ == self.text@,
            self.builder.wf(),
            self.builder@ == before.push(step),
            self.held@ == self.at,
            self.kept_from == self.byte,
            self.byte == utf8_len(self.text@.take(self.at as int)),
            utf8_len(self.text@) <= u32::MAX,
            self.text@.len() <= u32::MAX,
            src_of(before) == self.text@.take(from),
            step.src() == self.text@.subrange(from, self.at as int),
        ensures
            self.wf(),
            self@ == before.push(step),
    {
        assert(before.push(step) =~= before + seq![step]);
        lemma_of_add(before, seq![step]);
        lemma_of_single(step);
        assert(self.text@.take(from) + self.text@.subrange(from, self.at as int) =~= self.text@.take(self.at as int));
        assert(self.text@.subrange(self.held@, self.at as int) =~= Seq::<char>::empty());
        assert(self@ =~= before.push(step));
    }

    /// Replaces the next `n` characters.
    pub fn replace(&mut self, n: usize, dst: &str, rule: RuleId)
        requires
            old(self).wf(),
            0 < n,
            old(self).pos() + n <= old(self).over().len(),
            utf8_len(dst_of(old(self)@)) + utf8_len(dst@) <= u32::MAX,
        ensures
            final(self).wf(),
            final(self).over() == old(self).over(),
            final(self).pos() == old(self).pos() + n,
            final(self)@ == old(self)@.push(
                replacement(old(self).over().subrange(old(self).pos(), old(self).pos() + n), dst@, rule@),
            ),
    {
        let ghost from = self.at as int;
        let ghost before = self@;
        let part = self.take(n);
        proof {
            lemma_utf8_len_split(self.text@, from, from + n);
        }
        self.builder.replace(part, dst, rule);
        proof {
            self.lemma_rewritten(before, replacement(part@, dst@, rule@), from);
        }
    }

    /// Reads the next `n` characters as digits.
    pub fn numeral(&mut self, n: usize, dst: &str, rule: RuleId)
        requires
            old(self).wf(),
            0 < n,
            old(self).pos() + n <= old(self).over().len(),
            utf8_len(dst_of(old(self)@)) + utf8_len(dst@) <= u32::MAX,
        ensures
            final(self).wf(),
            final(self).over() == old(self).over(),
            final(self).pos() == old(self).pos() + n,
            final(self)@ == old(self)@.push(
                reading(old(self).over().subrange(old(self).pos(), old(self).pos() + n), dst@, rule@),
            ),
    {
        let ghost from = self.at as int;
        let ghost before = self@;
        let part = self.take(n);
        proof {
            lemma_utf8_len_split(self.text@, from, from + n);
        }
        self.builder.numeral(part, dst, rule);
        proof {
            self.lemma_rewritten(before, reading(part@, dst@, rule@), from);
        }
    }

    /// Drops the next `n` characters.
    pub fn absorb(&mut self, n: usize, rule: RuleId, class: Absorbed)
        requires
            old(self).wf(),
            0 < n,
            old(self).pos() + n <= old(self).over().len(),
            utf8_len(dst_of(old(self)@)) <= u32::MAX,
        ensures
            final(self).wf(),
            final(self).over() == old(self).over(),
            final(self).pos() == old(self).pos() + n,
            final(self)@ == old(self)@.push(
                absorption(old(self).over().subrange(old(self).pos(), old(self).pos() + n), rule@, class),
            ),
    {
        let ghost from = self.at as int;
        let ghost before = self@;
        let part = self.take(n);
        proof {
            lemma_utf8_len_split(self.text@, from, from + n);
        }
        self.builder.absorb(part, rule, class);
        proof {
            self.lemma_rewritten(before, absorption(part@, rule@, class), from);
        }
    }

    /// The rewritten text and its map.
    pub fn finish(self) -> (r: (String, SpanMap))
        requires
            self.wf(),
            self.pos() == self.over().len(),
            utf8_len(dst_of(self@)) <= u32::MAX,
        ensures
            r.0@ == dst_of(self@),
            r.1.of(self@),
    {
        let mut walk = self;
        let last = walk.take(0);
        walk.builder.finish()
    }
}

} // verus!
