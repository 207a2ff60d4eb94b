//! What holds of normalization as a whole.

use vstd::prelude::*;
use crate::normalize::fold::{fold_step, fold_steps};
use crate::normalize::hangul::hangul_steps;
use crate::normalize::lookalike::lookalike_steps;
use crate::normalize::nfc::{composed, lemma_nfc_steps, nfc_steps};
use crate::normalize::separator::separator_steps;
use crate::normalize::{
    fold_stage, folding, hangul_stage, lemma_pipeline, lettering, lookalike_stage, nfc_stage,
    numbering, pipeline, separator_stage, NormalizeConfig,
};
use crate::span::source::{first_end, last_start, lemma_first_end, lemma_last_start};
use crate::span::steps::{
    comp, cost_of, dst_of, joint, keeps, law_compose_identity_right, lemma_comp_head,
    lemma_comp_sums, lemma_keeps, rules_of, lemma_joint_meets, lemma_of_add, lemma_of_single,
    lemma_of_split, meets, merge, src_of, Step,
};
use crate::span::SourceSpan;

verus! {

broadcast use crate::text::lemma_text_char_range;

/// Every step has an output of one character.
pub open spec fn single_outputs(x: Seq<Step>) -> bool {
    forall|i: int| 0 <= i < x.len() ==> (#[trigger] x[i]).dst().len() == 1
}

/// Every step consumes one character.
pub open spec fn single_sources(y: Seq<Step>) -> bool {
    forall|i: int| 0 <= i < y.len() ==> (#[trigger] y[i]).src().len() == 1
}

proof fn lemma_single_outputs(x: Seq<Step>)
    requires
        single_outputs(x),
    ensures
        dst_of(x).len() == x.len(),
        forall|i: int| #![trigger dst_of(x)[i]] 0 <= i < x.len() ==> dst_of(x)[i] == x[i].dst()[0],
    decreases x.len(),
{
    if x.len() > 0 {
        let init = x.drop_last();
        assert(single_outputs(init)) by {
            assert forall|i: int| 0 <= i < init.len() implies (#[trigger] init[i]).dst().len() == 1 by {
                assert(x[i].dst().len() == 1);
            }
        }
        lemma_single_outputs(init);
        assert(x[x.len() - 1].dst().len() == 1);
        assert forall|i: int| #![trigger dst_of(x)[i]] 0 <= i < x.len() implies dst_of(x)[i] == x[i].dst()[0] by {
            if i < init.len() {
                assert(dst_of(init)[i] == init[i].dst()[0]);
            }
        }
    }
}

/// Where every step of one run meets one step of the other, steps are composed one by one.
proof fn lemma_comp_stepwise(x: Seq<Step>, y: Seq<Step>)
    requires
        meets(x, y),
        single_outputs(x),
        single_sources(y),
        x.len() == y.len(),
    ensures
        comp(x, y).len() == x.len(),
        forall|i: int| #![trigger comp(x, y)[i]] 0 <= i < x.len() ==> comp(x, y)[i] == merge(seq![x[i]], seq![y[i]]),
    decreases x.len(),
{
    if x.len() > 0 {
        assert(x.take(1) =~= seq![x[0]]);
        assert(y.take(1) =~= seq![y[0]]);
        lemma_of_single(x[0]);
        lemma_of_single(y[0]);
        assert(x[0].dst().len() == 1 && y[0].src().len() == 1);
        assert(joint(x, y, 1, 1));
        lemma_comp_head(x, y, 1, 1);
        lemma_joint_meets(x, y, 1, 1);
        let xs = x.skip(1);
        let ys = y.skip(1);
        assert forall|i: int| 0 <= i < xs.len() implies (#[trigger] xs[i]).dst().len() == 1 by {
            assert(x[i + 1].dst().len() == 1);
        }
        assert forall|i: int| 0 <= i < ys.len() implies (#[trigger] ys[i]).src().len() == 1 by {
            assert(y[i + 1].src().len() == 1);
        }
        lemma_comp_stepwise(xs, ys);
        assert forall|i: int| #![trigger comp(x, y)[i]] 0 <= i < x.len() implies comp(x, y)[i] == merge(
            seq![x[i]],
            seq![y[i]],
        ) by {
            if i > 0 {
                assert(comp(xs, ys)[i - 1] == merge(seq![xs[i - 1]], seq![ys[i - 1]]));
            }
        }
    }
}

proof fn lemma_nfc_single_outputs(s: Seq<char>, i: int)
    requires
        0 <= i <= s.len(),
    ensures
        single_outputs(nfc_steps(s, i)),
    decreases s.len() - i,
{
    if i < s.len() {
        let n = match composed(s, i) {
            Some((c, n)) => n,
            None => 1int,
        };
        lemma_nfc_single_outputs(s, i + n);
        let all = nfc_steps(s, i);
        let rest = nfc_steps(s, i + n);
        assert forall|k: int| 0 <= k < all.len() implies (#[trigger] all[k]).dst().len() == 1 by {
            if k > 0 {
                assert(all[k] == rest[k - 1]);
            }
        }
    }
}

proof fn lemma_fold_pointwise(s: Seq<char>, i: int)
    requires
        0 <= i <= s.len(),
    ensures
        fold_steps(s, i).len() == s.len() - i,
        forall|k: int| #![trigger fold_steps(s, i)[k]] 0 <= k < s.len() - i ==> fold_steps(s, i)[k] == fold_step(s[i + k]),
        single_outputs(fold_steps(s, i)),
        single_sources(fold_steps(s, i)),
    decreases s.len() - i,
{
    if i < s.len() {
        lemma_fold_pointwise(s, i + 1);
        let all = fold_steps(s, i);
        let rest = fold_steps(s, i + 1);
        assert forall|k: int| #![trigger all[k]] 0 <= k < all.len() implies all[k] == fold_step(s[i + k]) && all[k].dst().len()
            == 1 && all[k].src().len() == 1 by {
            if k > 0 {
                assert(all[k] == rest[k - 1]);
            }
        }
    }
}

/// Composing jamo from a position on does not look back.
proof fn lemma_nfc_shift(s: Seq<char>, a: int, i: int)
    requires
        0 <= a,
        0 <= i,
        a + i <= s.len(),
    ensures
        nfc_steps(s.skip(a), i) == nfc_steps(s, a + i),
    decreases s.len() - a - i,
{
    let t = s.skip(a);
    if a + i < s.len() {
        assert(composed(t, i) == composed(s, a + i));
        match composed(s, a + i) {
            Some((c, n)) => {
                lemma_nfc_shift(s, a, i + n);
                assert(t.subrange(i, i + n) =~= s.subrange(a + i, a + i + n));
            },
            None => {
                lemma_nfc_shift(s, a, i + 1);
            },
        }
    }
}

/// Behind the first `p` steps the pass goes on as if it began there.
proof fn lemma_nfc_suffix(s: Seq<char>, i: int, p: int)
    requires
        0 <= i <= s.len(),
        0 <= p <= nfc_steps(s, i).len(),
    ensures
        i + src_of(nfc_steps(s, i).take(p)).len() <= s.len(),
        nfc_steps(s, i).skip(p) == nfc_steps(s, (i + src_of(nfc_steps(s, i).take(p)).len()) as int),
    decreases p,
{
    let all = nfc_steps(s, i);
    if p == 0 {
        assert(all.take(0) =~= Seq::<Step>::empty());
        assert(all.skip(0) =~= all);
    } else {
        let n = match composed(s, i) {
            Some((c, n)) => n,
            None => 1int,
        };
        let rest = nfc_steps(s, i + n);
        assert(all.take(p) =~= seq![all[0]] + rest.take(p - 1));
        lemma_of_add(seq![all[0]], rest.take(p - 1));
        lemma_of_single(all[0]);
        lemma_nfc_suffix(s, i + n, p - 1);
        assert(all.skip(p) =~= rest.skip(p - 1));
    }
}

/// A text that ends between two steps is composed as the longer text is up to there.
proof fn lemma_nfc_prefix(s: Seq<char>, i: int, m: int, b: int)
    requires
        0 <= i <= b <= s.len(),
        0 <= m <= nfc_steps(s, i).len(),
        src_of(nfc_steps(s, i).take(m)).len() == b - i,
    ensures
        nfc_steps(s.take(b), i) == nfc_steps(s, i).take(m),
    decreases m,
{
    let all = nfc_steps(s, i);
    let t = s.take(b);
    if m == 0 {
        assert(all.take(0) =~= Seq::<Step>::empty());
        assert(nfc_steps(t, i) =~= all.take(0));
    } else {
        let n = match composed(s, i) {
            Some((c, n)) => n,
            None => 1int,
        };
        let rest = nfc_steps(s, i + n);
        assert(all.take(m) =~= seq![all[0]] + rest.take(m - 1));
        lemma_of_add(seq![all[0]], rest.take(m - 1));
        lemma_of_single(all[0]);
        assert(i + n <= b);
        assert(composed(t, i) == composed(s, i));
        assert(t.subrange(i, i + n) =~= s.subrange(i, i + n));
        lemma_nfc_prefix(s, i + n, m - 1, b);
        assert(nfc_steps(t, i) =~= all.take(m));
    }
}

/// A part of a text that consists of whole steps is composed on its own as it is within the text.
proof fn lemma_nfc_fragment(s: Seq<char>, p: int, q: int)
    requires
        0 <= p <= q <= nfc_steps(s, 0).len(),
    ensures
        nfc_steps(src_of(nfc_steps(s, 0).subrange(p, q)), 0) == nfc_steps(s, 0).subrange(p, q),
{
    let all = nfc_steps(s, 0);
    lemma_nfc_steps(s, 0);
    assert(s.skip(0) =~= s);
    let a = src_of(all.take(p)).len() as int;
    let b = src_of(all.take(q)).len() as int;
    let part = all.subrange(p, q);
    assert(all.take(q) =~= all.take(p) + part);
    lemma_of_add(all.take(p), part);
    lemma_of_split(all, q);
    assert(src_of(part) =~= s.subrange(a, b));
    lemma_nfc_suffix(s, 0, p);
    let tail = s.skip(a);
    lemma_nfc_shift(s, a, 0);
    assert(nfc_steps(tail, 0) == all.skip(p));
    assert(all.skip(p).take(q - p) =~= part);
    lemma_nfc_prefix(tail, 0, q - p, b - a);
    assert(tail.take(b - a) =~= s.subrange(a, b));
}

/// Only the passes that do not look at the surroundings run.
pub open spec fn is_context_free(cfg: NormalizeConfig) -> bool {
    cfg.nfc && cfg.fold && !cfg.hangul && !cfg.lookalike && !cfg.separator
}

/// With only two passes, the pipeline is those two.
proof fn lemma_two_passes(text: Seq<char>, cfg: NormalizeConfig)
    requires
        is_context_free(cfg),
    ensures
        pipeline(text, cfg) == comp(nfc_steps(text, 0), fold_steps(dst_of(nfc_steps(text, 0)), 0)),
{
    lemma_pipeline(text, cfg);
    law_compose_identity_right(folding(text, cfg));
    law_compose_identity_right(numbering(text, cfg));
    law_compose_identity_right(lettering(text, cfg));
}

/// The composition of the two passes, step by step.
proof fn lemma_context_free_steps(text: Seq<char>, cfg: NormalizeConfig)
    requires
        is_context_free(cfg),
    ensures
        ({
            let x = nfc_steps(text, 0);
            let y = fold_steps(dst_of(x), 0);
            let z = pipeline(text, cfg);
            &&& meets(x, y)
            &&& z.len() == x.len()
            &&& y.len() == x.len()
            &&& single_outputs(z)
            &&& dst_of(x).len() == x.len()
            &&& forall|i: int| #![trigger z[i]] 0 <= i < z.len() ==> z[i] == merge(seq![x[i]], seq![y[i]])
            &&& forall|i: int| #![trigger y[i]] 0 <= i < y.len() ==> y[i] == fold_step(x[i].dst()[0])
        }),
{
    let x = nfc_steps(text, 0);
    let y = fold_steps(dst_of(x), 0);
    let z = pipeline(text, cfg);
    lemma_pipeline(text, cfg);
    lemma_two_passes(text, cfg);
    lemma_nfc_single_outputs(text, 0);
    lemma_single_outputs(x);
    lemma_fold_pointwise(dst_of(x), 0);
    lemma_comp_stepwise(x, y);
    assert forall|i: int| #![trigger y[i]] 0 <= i < y.len() implies y[i] == fold_step(x[i].dst()[0]) by {
        assert(dst_of(x)[i] == x[i].dst()[0]);
    }
    assert forall|i: int| 0 <= i < z.len() implies (#[trigger] z[i]).dst().len() == 1 by {
        assert(z[i] == merge(seq![x[i]], seq![y[i]]));
        lemma_of_single(y[i]);
        assert(y[i].dst().len() == 1);
        assert(x[i].dst().len() == 1);
        lemma_of_single(x[i]);
    }
}

/// A part of a text that consists of whole steps is normalized on its own as it is within the text.
proof fn lemma_context_free_fragment(text: Seq<char>, cfg: NormalizeConfig, p: int, q: int)
    requires
        is_context_free(cfg),
        0 <= p <= q <= pipeline(text, cfg).len(),
    ensures
        pipeline(src_of(pipeline(text, cfg).subrange(p, q)), cfg) == pipeline(text, cfg).subrange(p, q),
{
    let x = nfc_steps(text, 0);
    let y = fold_steps(dst_of(x), 0);
    let z = pipeline(text, cfg);
    lemma_context_free_steps(text, cfg);
    let xs = x.subrange(p, q);
    let zs = z.subrange(p, q);
    assert forall|i: int| 0 <= i < z.len() implies (#[trigger] z[i]).src() == x[i].src() by {
        assert(z[i] == merge(seq![x[i]], seq![y[i]]));
        lemma_of_single(x[i]);
    }
    lemma_same_sources(xs, zs);
    let f = src_of(xs);
    lemma_nfc_fragment(text, p, q);
    lemma_context_free_steps(f, cfg);
    let w = pipeline(f, cfg);
    assert(w =~= zs) by {
        assert forall|i: int| 0 <= i < zs.len() implies w[i] == zs[i] by {
            let v = fold_steps(dst_of(xs), 0);
            assert(w[i] == merge(seq![xs[i]], seq![v[i]]));
            assert(v[i] == fold_step(xs[i].dst()[0]));
            assert(z[p + i] == merge(seq![x[p + i]], seq![y[p + i]]));
            assert(y[p + i] == fold_step(x[p + i].dst()[0]));
        }
    }
}

proof fn lemma_same_sources(a: Seq<Step>, b: Seq<Step>)
    requires
        a.len() == b.len(),
        forall|i: int| 0 <= i < a.len() ==> (#[trigger] b[i]).src() == a[i].src(),
    ensures
        src_of(a) == src_of(b),
    decreases a.len(),
{
    if a.len() > 0 {
        let c = a.drop_last();
        let d = b.drop_last();
        assert forall|i: int| 0 <= i < c.len() implies (#[trigger] d[i]).src() == c[i].src() by {
            assert(b[i].src() == a[i].src());
        }
        lemma_same_sources(c, d);
        assert(b[b.len() - 1].src() == a[a.len() - 1].src());
    }
}

/// With the passes that look at no surroundings, every stretch of the normalized text comes from a
/// part of the source that, normalized on its own, gives that stretch again. Nothing is snapped.
pub proof fn law_fragments_normalize_alike(text: Seq<char>, cfg: NormalizeConfig, r: SourceSpan, from: int, to: int)
    requires
        is_context_free(cfg),
        0 <= from < to <= dst_of(pipeline(text, cfg)).len(),
        r.traces(pipeline(text, cfg), from, to),
    ensures
        !r.snapped,
        dst_of(pipeline(r.span.covered(text), cfg)) == dst_of(pipeline(text, cfg)).subrange(from, to),
{
    let z = pipeline(text, cfg);
    lemma_pipeline(text, cfg);
    lemma_context_free_steps(text, cfg);
    lemma_single_outputs(z);
    assert forall|k: int| 0 <= k <= z.len() implies dst_of(#[trigger] z.take(k)).len() == k by {
        let zt = z.take(k);
        assert forall|i: int| 0 <= i < zt.len() implies (#[trigger] zt[i]).dst().len() == 1 by {
            assert(z[i].dst().len() == 1);
        }
        lemma_single_outputs(zt);
    }
    let p = last_start(z, from);
    let q = first_end(z, to);
    lemma_last_start(z, from);
    lemma_first_end(z, to);
    assert(dst_of(z.take(p)).len() == p);
    assert(dst_of(z.take(q)).len() == q);
    if p < from {
        assert(dst_of(z.take(from)).len() == from);
        assert(dst_of(z.take(from)).len() > from);
    }
    if q > to {
        assert(dst_of(z.take(to)).len() == to);
        assert(dst_of(z.take(to)).len() < to);
    }
    let zs = z.subrange(p, q);
    assert(z.take(q) =~= z.take(p) + zs);
    lemma_of_add(z.take(p), zs);
    lemma_of_split(z, q);
    assert(r.span.covered(text) =~= src_of(zs));
    lemma_context_free_fragment(text, cfg, p, q);
    assert(dst_of(zs) =~= dst_of(z).subrange(p, q));
}

/// The passes run in their order, each on what the one before it gave, and one that is turned off
/// changes nothing. Their costs add up.
pub proof fn law_passes_run_one_after_the_other(text: Seq<char>, cfg: NormalizeConfig)
    ensures
        ({
            let a = if cfg.nfc {
                nfc_steps(text, 0)
            } else {
                keeps(text)
            };
            let b = if cfg.fold {
                fold_steps(dst_of(a), 0)
            } else {
                keeps(dst_of(a))
            };
            let c = if cfg.hangul {
                hangul_steps(dst_of(b), 0, cfg.numeral)
            } else {
                keeps(dst_of(b))
            };
            let d = if cfg.lookalike {
                lookalike_steps(dst_of(c), 0)
            } else {
                keeps(dst_of(c))
            };
            let e = if cfg.separator {
                separator_steps(dst_of(d), 0)
            } else {
                keeps(dst_of(d))
            };
            &&& src_of(pipeline(text, cfg)) == text
            &&& dst_of(pipeline(text, cfg)) == dst_of(e)
            &&& dst_of(keeps(text)) == text
            &&& cost_of(pipeline(text, cfg)) == cost_of(a).plus(cost_of(b)).plus(cost_of(c)).plus(cost_of(d)).plus(
                cost_of(e),
            )
            &&& rules_of(pipeline(text, cfg)) == rules_of(a).union(rules_of(b)).union(rules_of(c)).union(rules_of(d)).union(
                rules_of(e),
            )
        }),
{
    lemma_pipeline(text, cfg);
    lemma_keeps(text);
    let a = nfc_stage(text, cfg);
    lemma_comp_sums(a, fold_stage(dst_of(a), cfg));
    let b = folding(text, cfg);
    lemma_comp_sums(b, hangul_stage(dst_of(b), cfg));
    let c = numbering(text, cfg);
    lemma_comp_sums(c, lookalike_stage(dst_of(c), cfg));
    let d = lettering(text, cfg);
    lemma_comp_sums(d, separator_stage(dst_of(d), cfg));
}

} // verus!
