//! The invariants of a span map, checked one by one.

use vstd::prelude::*;
use crate::error::{Error, Result};
use crate::span::cost::no_cost;
use crate::span::layout::{bound, lemma_segment, lemma_starts, piece_at};
use crate::span::steps::{dst_of, lemma_of_add, lemma_of_single, src_of, Step};
use crate::span::{lemma_keep_run, rule_names, Segment, SegmentKind, SpanMap};
use crate::text::{decimal, lemma_utf8_len_add, lemma_utf8_len_bounds, push_decimal};

verus! {

broadcast use crate::text::lemma_text_char_range;

/// What a broken order on one side is reported as.
pub open spec fn gap_text(side: Seq<char>, byte: u32, char: u32, found_byte: u32, found_char: u32) -> Seq<char> {
    side + " not contiguous: expected byte "@ + decimal(byte as nat) + " char "@ + decimal(char as nat)
        + ", found byte "@ + decimal(found_byte as nat) + " char "@ + decimal(found_char as nat)
}

/// What is wrong inside a segment, judged by its kind. Its ranges are not reversed.
pub open spec fn kind_fault(seg: Segment) -> Option<Seq<char>> {
    let src_bytes = seg.src.byte.end - seg.src.byte.start;
    let src_chars = seg.src.char.end - seg.src.char.start;
    let dst_bytes = seg.dst.byte.end - seg.dst.byte.start;
    let dst_chars = seg.dst.char.end - seg.dst.char.start;
    match seg.kind {
        SegmentKind::Identity => if src_bytes != dst_bytes || src_chars != dst_chars {
            Some("identity segment has unequal lengths"@)
        } else if seg.rules@.len() > 0 || seg.cost != no_cost() {
            Some("identity segment carries rules or cost"@)
        } else {
            None
        },
        SegmentKind::Delete => if dst_bytes > 0 || src_bytes == 0 {
            Some("delete segment must consume src and produce nothing"@)
        } else {
            None
        },
        SegmentKind::Expand => if dst_chars <= src_chars {
            Some("expand segment must grow in chars"@)
        } else {
            None
        },
        SegmentKind::Replace => if src_bytes == 0 || dst_bytes == 0 {
            Some("replace segment must have both sides"@)
        } else if dst_chars > src_chars {
            Some("replace segment must not grow in chars"@)
        } else {
            None
        },
    }
}

/// What is wrong with segment `k`, the first finding only.
pub open spec fn fault(segments: Seq<Segment>, k: int) -> Option<Seq<char>> {
    let seg = segments[k];
    let (sb, sc, db, dc) = if k == 0 {
        (0u32, 0u32, 0u32, 0u32)
    } else {
        let prev = segments[k - 1];
        (prev.src.byte.end, prev.src.char.end, prev.dst.byte.end, prev.dst.char.end)
    };
    if seg.src.byte.start != sb || seg.src.char.start != sc {
        Some(gap_text("src"@, sb, sc, seg.src.byte.start, seg.src.char.start))
    } else if seg.dst.byte.start != db || seg.dst.char.start != dc {
        Some(gap_text("dst"@, db, dc, seg.dst.byte.start, seg.dst.char.start))
    } else if seg.src.byte.end < seg.src.byte.start || seg.dst.byte.end < seg.dst.byte.start {
        Some("reversed byte range"@)
    } else if seg.src.char.end < seg.src.char.start || seg.dst.char.end < seg.dst.char.start {
        Some("reversed char range"@)
    } else if kind_fault(seg) is Some {
        kind_fault(seg)
    } else if seg.src.byte.end == seg.src.byte.start {
        Some("segment has an empty source range; insertion is not supported"@)
    } else {
        None
    }
}

fn gap(side: &str, byte: u32, char: u32, found_byte: u32, found_char: u32) -> (r: String)
    ensures
        r@ == gap_text(side@, byte, char, found_byte, found_char),
{
    let mut out = String::from_str(side);
    out.append(" not contiguous: expected byte ");
    push_decimal(&mut out, byte as u64);
    out.append(" char ");
    push_decimal(&mut out, char as u64);
    out.append(", found byte ");
    push_decimal(&mut out, found_byte as u64);
    out.append(" char ");
    push_decimal(&mut out, found_char as u64);
    out
}

fn check_kind(seg: &Segment) -> (r: Option<String>)
    requires
        seg.src.byte.start <= seg.src.byte.end,
        seg.src.char.start <= seg.src.char.end,
        seg.dst.byte.start <= seg.dst.byte.end,
        seg.dst.char.start <= seg.dst.char.end,
    ensures
        r is Some <==> kind_fault(*seg) is Some,
        r matches Some(d) ==> kind_fault(*seg) == Some(d@),
{
    match seg.kind {
        SegmentKind::Identity => {
            if seg.src.byte_len() != seg.dst.byte_len() || seg.src.char_len() != seg.dst.char_len() {
                return Some(String::from_str("identity segment has unequal lengths"));
            }
            if seg.rules.len() > 0 || !seg.cost.is_zero() {
                return Some(String::from_str("identity segment carries rules or cost"));
            }
        },
        SegmentKind::Delete => {
            if !seg.dst.is_empty() || seg.src.is_empty() {
                return Some(String::from_str("delete segment must consume src and produce nothing"));
            }
        },
        SegmentKind::Expand => {
            if seg.dst.char_len() <= seg.src.char_len() {
                return Some(String::from_str("expand segment must grow in chars"));
            }
        },
        SegmentKind::Replace => {
            if seg.src.is_empty() || seg.dst.is_empty() {
                return Some(String::from_str("replace segment must have both sides"));
            }
            if seg.dst.char_len() > seg.src.char_len() {
                return Some(String::from_str("replace segment must not grow in chars"));
            }
        },
    }
    None
}

impl SpanMap {
    /// Every segment follows the one before it on both sides and fits its kind.
    pub open spec fn sound(self) -> bool {
        forall|k: int| 0 <= k < self.segments@.len() ==> #[trigger] fault(self.segments@, k) is None
    }

    /// Checks the invariants. A new normalization pass should pass this in its tests.
    ///
    /// The error names the first segment that is wrong, and what is wrong with it.
    pub fn validate(&self) -> (r: Result<()>)
        ensures
            r is Ok <==> self.sound(),
            r matches Err(e) ==> {
                &&& e is SpanMapInvariant
                &&& e->index < self.segments@.len()
                &&& fault(self.segments@, e->index as int) == Some(e->SpanMapInvariant_detail@)
                &&& forall|k: int| 0 <= k < e->index ==> #[trigger] fault(self.segments@, k) is None
            },
            forall|steps: Seq<Step>| #[trigger] self.of(steps) ==> r is Ok,
    {
        let mut sb: u32 = 0;
        let mut sc: u32 = 0;
        let mut db: u32 = 0;
        let mut dc: u32 = 0;
        proof {
            assert forall|steps: Seq<Step>| #[trigger] self.of(steps) implies self.sound() by {
                law_stored_steps_are_sound(*self, steps);
            }
        }
        let mut index: usize = 0;
        while index < self.segments.len()
            invariant
                index <= self.segments@.len(),
                index == 0 ==> sb == 0 && sc == 0 && db == 0 && dc == 0,
                index > 0 ==> {
                    &&& sb == self.segments@[index - 1].src.byte.end
                    &&& sc == self.segments@[index - 1].src.char.end
                    &&& db == self.segments@[index - 1].dst.byte.end
                    &&& dc == self.segments@[index - 1].dst.char.end
                },
                forall|k: int| 0 <= k < index ==> #[trigger] fault(self.segments@, k) is None,
                forall|steps: Seq<Step>| #[trigger] self.of(steps) ==> self.sound(),
            decreases self.segments@.len() - index,
        {
            let seg = &self.segments[index];
            let ghost found = fault(self.segments@, index as int);
            if seg.src.byte.start != sb || seg.src.char.start != sc {
                return Err(
                    Error::SpanMapInvariant { index, detail: gap("src", sb, sc, seg.src.byte.start, seg.src.char.start) },
                );
            }
            if seg.dst.byte.start != db || seg.dst.char.start != dc {
                return Err(
                    Error::SpanMapInvariant { index, detail: gap("dst", db, dc, seg.dst.byte.start, seg.dst.char.start) },
                );
            }
            if seg.src.byte.end < seg.src.byte.start || seg.dst.byte.end < seg.dst.byte.start {
                return Err(Error::SpanMapInvariant { index, detail: String::from_str("reversed byte range") });
            }
            if seg.src.char.end < seg.src.char.start || seg.dst.char.end < seg.dst.char.start {
                return Err(Error::SpanMapInvariant { index, detail: String::from_str("reversed char range") });
            }
            match check_kind(seg) {
                Some(detail) => {
                    return Err(Error::SpanMapInvariant { index, detail });
                },
                None => {},
            }
            if seg.src.is_empty() {
                return Err(
                    Error::SpanMapInvariant {
                        index,
                        detail: String::from_str("segment has an empty source range; insertion is not supported"),
                    },
                );
            }
            sb = seg.src.byte.end;
            sc = seg.src.char.end;
            db = seg.dst.byte.end;
            dc = seg.dst.char.end;
            assert(found is None);
            index += 1;
        }
        Ok(())
    }
}

/// Whatever steps a map stores, it passes its own check: its segments cover both texts in order,
/// without gap or overlap.
pub proof fn law_stored_steps_are_sound(m: SpanMap, steps: Seq<Step>)
    requires
        m.of(steps),
    ensures
        m.sound(),
{
    lemma_starts(steps);
    assert forall|k: int| 0 <= k < m.segments@.len() implies #[trigger] fault(m.segments@, k) is None by {
        let p = bound(steps, k);
        let q = bound(steps, k + 1);
        lemma_segment(steps, k);
        assert(m.segments@[k].stores(piece_at(steps, k)));
        if k > 0 {
            assert(m.segments@[k - 1].stores(piece_at(steps, k - 1)));
        } else {
            assert(steps.take(0) =~= Seq::<Step>::empty());
        }
        let run = steps.subrange(p, q);
        assert(steps.take(q) =~= steps.take(p) + run);
        lemma_of_add(steps.take(p), run);
        lemma_utf8_len_add(src_of(steps.take(p)), src_of(run));
        lemma_utf8_len_add(dst_of(steps.take(p)), dst_of(run));
        lemma_utf8_len_bounds(src_of(run));
        lemma_utf8_len_bounds(dst_of(run));
        if steps[p] is Keep {
            lemma_keep_run(steps, p, q);
            let names = rule_names(m.segments@[k].rules@);
            if names.len() > 0 {
                assert(names.to_set().contains(names[0]));
            }
        } else {
            assert(run =~= seq![steps[p]]);
            lemma_of_single(steps[p]);
        }
    }
}

/// A segment begins where the one before it ends, on both sides, in bytes and in characters. The
/// first one begins at nought.
pub open spec fn follows_on(m: SpanMap, k: int) -> bool {
    let seg = m.segments@[k];
    if k == 0 {
        &&& seg.src.byte.start == 0 && seg.src.char.start == 0
        &&& seg.dst.byte.start == 0 && seg.dst.char.start == 0
    } else {
        let prev = m.segments@[k - 1];
        &&& seg.src.byte.start == prev.src.byte.end && seg.src.char.start == prev.src.char.end
        &&& seg.dst.byte.start == prev.dst.byte.end && seg.dst.char.start == prev.dst.char.end
    }
}

/// The lengths of a segment, in bytes and in characters, on both sides.
pub open spec fn lengths(seg: Segment) -> (int, int, int, int) {
    (
        seg.src.byte.end - seg.src.byte.start,
        seg.src.char.end - seg.src.char.start,
        seg.dst.byte.end - seg.dst.byte.start,
        seg.dst.char.end - seg.dst.char.start,
    )
}

/// The lengths of a segment fit its kind. What is kept is as long on both sides, and carries neither
/// rules nor costs. What is deleted leaves nothing. What is expanded grows, and what is replaced
/// does not, in characters. No segment inserts.
pub open spec fn fits_its_kind(seg: Segment) -> bool {
    let (sb, sc, db, dc) = lengths(seg);
    &&& sb > 0 && sc >= 0 && db >= 0 && dc >= 0
    &&& match seg.kind {
        SegmentKind::Identity => sb == db && sc == dc && seg.rules@.len() == 0 && seg.cost.absorbed_whitespace == 0
            && seg.cost.absorbed_separators == 0 && seg.cost.expanded_syllables == 0 && seg.cost.replaced_chars == 0,
        SegmentKind::Delete => db == 0,
        SegmentKind::Expand => dc > sc,
        SegmentKind::Replace => db > 0 && dc <= sc,
    }
}

/// A map passes its check exactly if every segment follows on from the one before it and its lengths
/// fit its kind.
pub proof fn law_sound_maps_are_those_without_gaps(m: SpanMap)
    ensures
        m.sound() <==> forall|k: int|
            0 <= k < m.segments@.len() ==> follows_on(m, k) && fits_its_kind(#[trigger] m.segments@[k]),
{
    if m.sound() {
        assert forall|k: int| 0 <= k < m.segments@.len() implies follows_on(m, k) && fits_its_kind(
            #[trigger] m.segments@[k],
        ) by {
            assert(fault(m.segments@, k) is None);
        }
    }
    if forall|k: int| 0 <= k < m.segments@.len() ==> follows_on(m, k) && fits_its_kind(#[trigger] m.segments@[k]) {
        assert forall|k: int| 0 <= k < m.segments@.len() implies #[trigger] fault(m.segments@, k) is None by {
            assert(fits_its_kind(m.segments@[k]));
        }
    }
}

} // verus!
