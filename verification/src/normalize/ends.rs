//! Nothing is lost at the ends of a text.

use vstd::prelude::*;
use crate::normalize::fold::fold_steps;
use crate::normalize::hangul::lemma_hangul_productive;
use crate::normalize::lookalike::lookalike_steps;
use crate::normalize::nfc::{composed, nfc_steps};
use crate::normalize::separator::{
    between_digits, encloses, group_end, lemma_group_end, lemma_separator_steps, separator_of,
    separator_steps,
};
use crate::normalize::{
    fold_stage, folding, hangul_stage, lemma_pipeline, lettering, lookalike_stage, nfc_stage,
    numbering, pipeline, separator_stage, NormalizeConfig,
};
use crate::span::layout::end_mark;
use crate::span::source::{first_end, last_start, lemma_first_end, lemma_last_start};
use crate::span::steps::{
    comp, dst_of, keeps, lemma_comp_origin, lemma_comp_sums, lemma_joint_meets, lemma_keeps_index,
    lemma_of_add, lemma_of_single, lemma_of_split, meets, productive, src_of, Step,
};
use crate::span::SourceSpan;

verus! {

broadcast use crate::text::lemma_text_char_range;

/// The first step and the last one give a character or more.
pub open spec fn solid_ends(steps: Seq<Step>) -> bool {
    steps.len() > 0 ==> steps[0].dst().len() >= 1 && steps.last().dst().len() >= 1
}

/// Steps whose first or last one gives a character give one.
proof fn lemma_some_output(steps: Seq<Step>)
    requires
        steps.len() > 0,
        steps[0].dst().len() >= 1 || steps.last().dst().len() >= 1,
    ensures
        dst_of(steps).len() >= 1,
{
    let n = steps.len() as int;
    if steps[0].dst().len() >= 1 {
        assert(steps =~= seq![steps[0]] + steps.skip(1));
        lemma_of_add(seq![steps[0]], steps.skip(1));
        lemma_of_single(steps[0]);
    } else {
        assert(steps =~= steps.take(n - 1) + seq![steps.last()]);
        lemma_of_add(steps.take(n - 1), seq![steps.last()]);
        lemma_of_single(steps.last());
    }
}

/// Where both runs give something at their ends, so does their composition.
proof fn lemma_solid_comp(x: Seq<Step>, y: Seq<Step>)
    requires
        meets(x, y),
        solid_ends(x),
        solid_ends(y),
    ensures
        solid_ends(comp(x, y)),
{
    let z = comp(x, y);
    let n = z.len() as int;
    if n > 0 {
        let (p, q) = lemma_comp_origin(x, y, 1);
        lemma_joint_meets(x, y, p, q);
        lemma_comp_sums(x.take(p), y.take(q));
        assert(x.take(p)[0] == x[0]);
        lemma_some_output(x.take(p));
        assert(q > 0) by {
            if q == 0 {
                assert(y.take(q) =~= Seq::<Step>::empty());
            }
        }
        assert(y.take(q)[0] == y[0]);
        lemma_some_output(y.take(q));
        assert(z.take(1) =~= seq![z[0]]);
        lemma_of_single(z[0]);

        let (p, q) = lemma_comp_origin(x, y, n - 1);
        let a = x.skip(p);
        let b = y.skip(q);
        lemma_joint_meets(x, y, p, q);
        lemma_comp_sums(a, b);
        assert(z.skip(n - 1) =~= seq![z.last()]);
        lemma_of_single(z.last());
        assert(a.len() > 0) by {
            if a.len() == 0 {
                assert(comp(a, b).len() == 0);
            }
        }
        assert(a.last() == x.last());
        lemma_some_output(a);
        assert(b.len() > 0) by {
            if b.len() == 0 {
                assert(src_of(b).len() == 0);
            }
        }
        assert(b.last() == y.last());
        lemma_some_output(b);
    }
}

proof fn lemma_nfc_productive(s: Seq<char>, i: int)
    requires
        0 <= i <= s.len(),
    ensures
        productive(nfc_steps(s, i)),
    decreases s.len() - i,
{
    if i < s.len() {
        match composed(s, i) {
            Some((c, n)) => lemma_nfc_productive(s, i + n),
            None => lemma_nfc_productive(s, i + 1),
        }
    }
}

proof fn lemma_fold_productive(s: Seq<char>, i: int)
    requires
        0 <= i <= s.len(),
    ensures
        productive(fold_steps(s, i)),
    decreases s.len() - i,
{
    if i < s.len() {
        lemma_fold_productive(s, i + 1);
    }
}

proof fn lemma_lookalike_productive(s: Seq<char>, i: int)
    requires
        0 <= i <= s.len(),
    ensures
        productive(lookalike_steps(s, i)),
    decreases s.len() - i,
{
    if i < s.len() {
        lemma_lookalike_productive(s, i + 1);
    }
}

/// The last step of the separator pass keeps the last character.
proof fn lemma_last_is_kept(s: Seq<char>, i: int)
    requires
        0 <= i < s.len(),
    ensures
        separator_steps(s, i).len() > 0,
        separator_steps(s, i).last() is Keep,
    decreases s.len() - i,
{
    let n = s.len() as int;
    let steps = separator_steps(s, i);
    lemma_separator_steps(s, i);
    if i == n - 1 {
        if between_digits(s, i) {
            let (a, b) = choose|a: int, b: int| #[trigger] encloses(s, a, i, b);
            assert(b < n);
        }
        assert(separator_steps(s, n) =~= Seq::<Step>::empty());
    } else {
        match separator_of(s[i]) {
            Some(k) if between_digits(s, i) && i < group_end(s, i + 1, k) <= n => {
                let e = group_end(s, i + 1, k);
                let (a, b) = choose|a: int, b: int| #[trigger] encloses(s, a, i, b);
                lemma_group_end(s, i + 1, k);
                assert(e <= b) by {
                    if e > b {
                        assert(separator_of(s[b]) == Some(k));
                    }
                }
                lemma_last_is_kept(s, e);
            },
            _ => {
                lemma_last_is_kept(s, i + 1);
            },
        }
    }
}

proof fn lemma_separator_solid(s: Seq<char>)
    ensures
        solid_ends(separator_steps(s, 0)),
{
    if s.len() > 0 {
        lemma_last_is_kept(s, 0);
        if between_digits(s, 0) {
            let (a, b) = choose|a: int, b: int| #[trigger] encloses(s, a, 0, b);
            assert(0 <= a < 0);
        }
        assert(separator_steps(s, 0)[0] == Step::Keep { c: s[0] });
    }
}

proof fn lemma_keeps_solid(text: Seq<char>)
    ensures
        solid_ends(keeps(text)),
{
    lemma_keeps_index(text);
}

/// The pipeline drops nothing at the ends of a text.
proof fn lemma_pipeline_solid(text: Seq<char>, cfg: NormalizeConfig)
    ensures
        solid_ends(pipeline(text, cfg)),
{
    lemma_pipeline(text, cfg);
    let a = nfc_stage(text, cfg);
    lemma_keeps_solid(text);
    lemma_nfc_productive(text, 0);
    let t = dst_of(a);
    lemma_keeps_solid(t);
    lemma_fold_productive(t, 0);
    lemma_solid_comp(a, fold_stage(t, cfg));
    let b = folding(text, cfg);
    let t = dst_of(b);
    lemma_keeps_solid(t);
    lemma_hangul_productive(t, 0, cfg.numeral);
    lemma_solid_comp(b, hangul_stage(t, cfg));
    let c = numbering(text, cfg);
    let t = dst_of(c);
    lemma_keeps_solid(t);
    lemma_lookalike_productive(t, 0);
    lemma_solid_comp(c, lookalike_stage(t, cfg));
    let d = lettering(text, cfg);
    let t = dst_of(d);
    lemma_keeps_solid(t);
    lemma_separator_solid(t);
    lemma_solid_comp(d, separator_stage(t, cfg));
}

/// The whole normalized text is led back to the whole source, and needs no snapping.
pub proof fn law_whole_text_is_led_back(text: Seq<char>, cfg: NormalizeConfig, r: SourceSpan)
    requires
        r.traces(pipeline(text, cfg), 0, dst_of(pipeline(text, cfg)).len() as int),
    ensures
        r.span.byte.start == 0,
        r.span.char.start == 0,
        r.span.byte.end == end_mark(text).byte,
        r.span.char.end == text.len(),
        r.span.covered(text) == text,
        !r.snapped,
{
    let steps = pipeline(text, cfg);
    let n = dst_of(steps).len() as int;
    lemma_pipeline(text, cfg);
    lemma_pipeline_solid(text, cfg);
    lemma_last_start(steps, 0);
    lemma_first_end(steps, n);
    let p = last_start(steps, 0);
    let q = first_end(steps, n);
    let m = steps.len() as int;
    assert(steps.take(0) =~= Seq::<Step>::empty());
    assert(steps.take(m) =~= steps);
    if m > 0 {
        if p > 0 {
            assert(steps.take(p)[0] == steps[0]);
            lemma_some_output(steps.take(p));
        }
        if q < m {
            lemma_of_split(steps, q);
            assert(steps =~= steps.take(q) + steps.skip(q));
            lemma_of_add(steps.take(q), steps.skip(q));
            assert(steps.skip(q).last() == steps.last());
            lemma_some_output(steps.skip(q));
        }
    }
    assert(r.span.covered(text) =~= text);
}

} // verus!
