//! What holds of every report.

use vstd::prelude::*;
use crate::detect::entity::{Candidate, Certainty};
use crate::detect::scan::{passport_claims, run_claims, Place, Scan, Stretch};
use crate::detect::scanner::emails_from;
use crate::detect::verdict::{
    certainty_of, dropped, email_of, emails_reported, emails_unreported, falling, findings_of,
    lemma_strongest, outdone, outranks, overlap, place_at, prevailing, prevails, rated, reason_for,
    rejections_of, reported, standing, strongest, unreported, weak_email, Config, FindingModel,
    Rating, Rejection,
};
use crate::order::{before, in_order, law_ordering_orders, Placed, Position};
use crate::mask::{applies, on_characters};
use crate::normalize::{lemma_pipeline, pipeline, NormalizeConfig};
use crate::span::steps::{dst_of, src_of, Step};
use crate::text::{lemma_offset_is_boundary, utf8_len};
use vstd::utf8::{encode_utf8, is_char_boundary};

verus! {

/// What prevails is one of the findings that stand on their own, at a place before `n`.
pub proof fn lemma_prevailing_origin(fs: Seq<FindingModel>, n: int, a: int) -> (k: int)
    requires
        0 <= n <= fs.len(),
        0 <= a < prevailing(fs, n).len(),
    ensures
        0 <= k < n,
        prevailing(fs, n)[a] == fs[k],
        prevails(fs, k),
    decreases n,
{
    if prevails(fs, n - 1) && a == prevailing(fs, n).len() - 1 {
        n - 1
    } else {
        lemma_prevailing_origin(fs, n - 1, a)
    }
}

/// Two findings that both prevail do not overlap.
proof fn lemma_both_prevail(fs: Seq<FindingModel>, i: int, j: int)
    requires
        0 <= i < j < fs.len(),
        prevails(fs, i),
        prevails(fs, j),
    ensures
        !overlap(fs[i], fs[j]),
        !overlap(fs[j], fs[i]),
{
    if overlap(fs[i], fs[j]) {
        assert(overlap(fs[j], fs[i]));
        if outranks(fs, j, i) {
            assert(!prevails(fs, j));
        } else {
            assert(outranks(fs, i, j));
            assert(!prevails(fs, i));
        }
    }
}

proof fn lemma_prevailing_disjoint(fs: Seq<FindingModel>, n: int)
    requires
        0 <= n <= fs.len(),
    ensures
        forall|a: int, b: int|
            0 <= a < b < prevailing(fs, n).len() ==> !overlap(
                #[trigger] prevailing(fs, n)[a],
                #[trigger] prevailing(fs, n)[b],
            ),
    decreases n,
{
    if n > 0 {
        lemma_prevailing_disjoint(fs, n - 1);
        if prevails(fs, n - 1) {
            let all = prevailing(fs, n);
            assert forall|a: int, b: int| 0 <= a < b < all.len() implies !overlap(#[trigger] all[a], #[trigger] all[b]) by {
                if b == all.len() - 1 {
                    let k = lemma_prevailing_origin(fs, n - 1, a);
                    lemma_both_prevail(fs, k, n - 1);
                } else {
                    let prev = prevailing(fs, n - 1);
                    assert(!overlap(prev[a], prev[b]));
                }
            }
        } else {
            assert(prevailing(fs, n) == prevailing(fs, n - 1));
        }
    } else {
        assert(prevailing(fs, n).len() == 0);
    }
}

/// Ordered items are the items.
pub proof fn lemma_ordered_item(items: Seq<FindingModel>, at: spec_fn(FindingModel) -> Position, i: int) -> (k: int)
    requires
        0 <= i < in_order(items, at).len(),
    ensures
        0 <= k < items.len(),
        in_order(items, at)[i] == items[k],
{
    broadcast use vstd::seq_lib::group_to_multiset_ensures;

    law_ordering_orders(items, at);
    let x = in_order(items, at)[i];
    assert(in_order(items, at).contains(x));
    assert(items.to_multiset().count(x) > 0);
    assert(items.contains(x));
    choose|k: int| 0 <= k < items.len() && items[k] == x
}

/// Items of which no two overlap still do not overlap when they are brought in order.
proof fn lemma_ordered_disjoint(items: Seq<FindingModel>, at: spec_fn(FindingModel) -> Position)
    requires
        forall|a: int, b: int| 0 <= a < b < items.len() ==> !overlap(#[trigger] items[a], #[trigger] items[b]),
    ensures
        forall|a: int, b: int|
            0 <= a < b < in_order(items, at).len() ==> !overlap(
                #[trigger] in_order(items, at)[a],
                #[trigger] in_order(items, at)[b],
            ),
    decreases items.len(),
{
    if items.len() > 0 {
        let init = items.drop_last();
        let x = items.last();
        assert forall|a: int, b: int| 0 <= a < b < init.len() implies !overlap(#[trigger] init[a], #[trigger] init[b]) by {
            assert(!overlap(items[a], items[b]));
        }
        lemma_ordered_disjoint(init, at);
        law_ordering_orders(init, at);
        law_ordering_orders(items, at);
        let rest = in_order(init, at);
        let k = crate::order::slot(crate::order::positions(rest, at), at(x));
        crate::order::lemma_slot(crate::order::positions(rest, at), at(x));
        let all = in_order(items, at);
        assert forall|a: int, b: int| 0 <= a < b < all.len() implies !overlap(#[trigger] all[a], #[trigger] all[b]) by {
            if a == k || b == k {
                let other = if a == k {
                    b - 1
                } else {
                    a
                };
                let o = lemma_ordered_item(init, at, other);
                assert(!overlap(items[o], items[items.len() - 1]));
            } else {
                let c = if a < k {
                    a
                } else {
                    a - 1
                };
                let d = if b < k {
                    b
                } else {
                    b - 1
                };
                assert(all[a] == rest[c]);
                assert(all[b] == rest[d]);
            }
        }
    }
}

/// No two findings of a report overlap, and they stand in the order of the source.
pub proof fn law_findings_do_not_overlap(scan: Scan, ratings: Seq<Vec<Rating>>, cfg: Config, a: int, b: int)
    requires
        0 <= a < b < findings_of(scan, ratings, cfg).len(),
    ensures
        ({
            let fs = findings_of(scan, ratings, cfg);
            &&& !overlap(fs[a], fs[b])
            &&& !before(place_at(fs[b].source), place_at(fs[a].source))
        }),
{
    let fs = standing(scan, ratings, cfg);
    let n = fs.len() as int;
    let at = |f: FindingModel| place_at(f.source);
    lemma_prevailing_disjoint(fs, n);
    lemma_ordered_disjoint(prevailing(fs, n), at);
    law_ordering_orders(prevailing(fs, n), at);
    let all = findings_of(scan, ratings, cfg);
    assert(all == in_order(prevailing(fs, n), at));
    assert(!before(at(all[b]), at(all[a])));
}

/// The rejections of a report stand in the order of the source.
pub proof fn law_rejections_are_in_order(scan: Scan, ratings: Seq<Vec<Rating>>, cfg: Config, a: int, b: int)
    requires
        0 <= a < b < rejections_of(scan, ratings, cfg).len(),
    ensures
        ({
            let rs = rejections_of(scan, ratings, cfg);
            !before(place_at(rs[b].source), place_at(rs[a].source))
        }),
{
    let fs = standing(scan, ratings, cfg);
    let at = |r: Rejection| r.at();
    let items = falling(scan, ratings, cfg) + outdone(fs, fs.len() as int);
    law_ordering_orders(items, at);
    let all = rejections_of(scan, ratings, cfg);
    assert(all == in_order(items, at));
    assert(!before(at(all[b]), at(all[a])));
}

/// A finding is never more certain than its kind can become, and only a right check digit makes it
/// certain.
pub proof fn law_certainty_respects_the_ceiling(c: Candidate, r: Rating)
    ensures
        certainty_of(c, r).rank() <= c.ceiling.rank(),
        certainty_of(c, r) == Certainty::Certain ==> c.checksum is Passed,
{
}

/// The number of candidates of the first `n` stretches.
pub open spec fn candidate_count(stretches: Seq<Stretch>, n: int) -> int
    decreases n,
{
    if n <= 0 {
        0
    } else {
        candidate_count(stretches, n - 1) + stretches[n - 1].candidates@.len()
    }
}

pub proof fn lemma_stretch_count(place: Place, cs: Seq<Candidate>, rs: Seq<Rating>, cfg: Config, n: int)
    requires
        0 <= n <= cs.len(),
    ensures
        dropped(place, cs, rs, cfg, n).len() + (if strongest(cs, rs, cfg, n) is Some {
            1int
        } else {
            0
        }) == n,
    decreases n,
{
    if n > 0 {
        lemma_stretch_count(place, cs, rs, cfg, n - 1);
    }
}

proof fn lemma_stretches_count(stretches: Seq<Stretch>, ratings: Seq<Vec<Rating>>, cfg: Config, n: int)
    requires
        0 <= n <= stretches.len(),
    ensures
        reported(stretches, ratings, cfg, n).len() + unreported(stretches, ratings, cfg, n).len() == candidate_count(
            stretches,
            n,
        ),
    decreases n,
{
    if n > 0 {
        lemma_stretches_count(stretches, ratings, cfg, n - 1);
        let s = stretches[n - 1];
        lemma_stretch_count(s.place, s.candidates@, ratings[n - 1]@, cfg, s.candidates@.len() as int);
    }
}

proof fn lemma_prevail_count(fs: Seq<FindingModel>, n: int)
    requires
        0 <= n <= fs.len(),
    ensures
        prevailing(fs, n).len() + outdone(fs, n).len() == n,
    decreases n,
{
    if n > 0 {
        lemma_prevail_count(fs, n - 1);
    }
}

/// Nothing is passed over in silence: every address and every candidate is either reported or
/// rejected with a reason.
pub proof fn law_every_candidate_is_accounted_for(scan: Scan, ratings: Seq<Vec<Rating>>, cfg: Config)
    ensures
        findings_of(scan, ratings, cfg).len() + rejections_of(scan, ratings, cfg).len() == scan.emails@.len()
            + candidate_count(scan.stretches@, scan.stretches@.len() as int),
{
    let n = scan.stretches@.len() as int;
    let fs = standing(scan, ratings, cfg);
    lemma_stretches_count(scan.stretches@, ratings, cfg, n);
    lemma_prevail_count(fs, fs.len() as int);
    law_ordering_orders(prevailing(fs, fs.len() as int), |f: FindingModel| place_at(f.source));
    law_ordering_orders(
        falling(scan, ratings, cfg) + outdone(fs, fs.len() as int),
        |r: Rejection| r.at(),
    );
}

proof fn lemma_reported_scores(stretches: Seq<Stretch>, ratings: Seq<Vec<Rating>>, cfg: Config, n: int)
    requires
        rated(stretches, ratings),
        0 <= n <= stretches.len(),
    ensures
        forall|i: int|
            0 <= i < reported(stretches, ratings, cfg, n).len() ==> (#[trigger] reported(
                stretches,
                ratings,
                cfg,
                n,
            )[i]).score.key >= cfg.min_score.key,
    decreases n,
{
    let now = reported(stretches, ratings, cfg, n);
    if n > 0 {
        lemma_reported_scores(stretches, ratings, cfg, n - 1);
        let prev = reported(stretches, ratings, cfg, n - 1);
        let s = stretches[n - 1];
        assert(ratings[n - 1]@.len() == s.candidates@.len());
        lemma_strongest(s.candidates@, ratings[n - 1]@, cfg, s.candidates@.len() as int);
        assert forall|i: int| 0 <= i < now.len() implies (#[trigger] now[i]).score.key >= cfg.min_score.key by {
            if i < prev.len() {
                assert(now[i] == prev[i]);
            }
        }
    } else {
        assert(now.len() == 0);
    }
}

/// Nothing is reported that scores less than the threshold, an address no more than a number.
pub proof fn law_nothing_below_the_threshold_is_reported(
    scan: Scan,
    ratings: Seq<Vec<Rating>>,
    cfg: Config,
    i: int,
)
    requires
        rated(scan.stretches@, ratings),
        0 <= i < findings_of(scan, ratings, cfg).len(),
    ensures
        findings_of(scan, ratings, cfg)[i].score.key >= cfg.min_score.key,
{
    let fs = standing(scan, ratings, cfg);
    let at = |f: FindingModel| place_at(f.source);
    let kept = prevailing(fs, fs.len() as int);
    assert(findings_of(scan, ratings, cfg) == in_order(kept, at));
    let a = lemma_ordered_item(kept, at, i);
    let k = lemma_prevailing_origin(fs, fs.len() as int, a);
    let head = emails_reported(scan.emails@, cfg);
    let m = scan.stretches@.len() as int;
    lemma_reported_scores(scan.stretches@, ratings, cfg, m);
    if k < head.len() {
        assert(fs[k] == email_of(scan.emails@[k]));
    } else {
        assert(fs[k] == reported(scan.stretches@, ratings, cfg, m)[k - head.len()]);
    }
}

/// What prevails is among those that do.
proof fn lemma_prevailing_place(fs: Seq<FindingModel>, n: int, k: int) -> (a: int)
    requires
        0 <= k < n <= fs.len(),
        prevails(fs, k),
    ensures
        0 <= a < prevailing(fs, n).len(),
        prevailing(fs, n)[a] == fs[k],
    decreases n,
{
    if k == n - 1 {
        prevailing(fs, n).len() - 1
    } else {
        lemma_prevailing_place(fs, n - 1, k)
    }
}

/// What stands on its own is reported, or something is reported that overlaps it and outranks it:
/// a value falls only where a stronger one covers a part of it.
pub proof fn law_what_falls_is_covered(scan: Scan, ratings: Seq<Vec<Rating>>, cfg: Config, i: int)
    requires
        0 <= i < standing(scan, ratings, cfg).len(),
    ensures
        ({
            let fs = standing(scan, ratings, cfg);
            let reports = findings_of(scan, ratings, cfg);
            ||| reports.contains(fs[i])
            ||| exists|j: int|
                0 <= j < fs.len() && #[trigger] overlap(fs[j], fs[i]) && outranks(fs, j, i) && reports.contains(fs[j])
        }),
{
    broadcast use vstd::seq_lib::group_to_multiset_ensures;

    let fs = standing(scan, ratings, cfg);
    let n = fs.len() as int;
    let at = |f: FindingModel| place_at(f.source);
    let kept = prevailing(fs, n);
    let reports = findings_of(scan, ratings, cfg);
    assert(reports == in_order(kept, at));
    law_ordering_orders(kept, at);
    let k = if prevails(fs, i) {
        i
    } else {
        choose|j: int| 0 <= j < n && #[trigger] overlap(fs[j], fs[i]) && outranks(fs, j, i) && prevails(fs, j)
    };
    let a = lemma_prevailing_place(fs, n, k);
    assert(kept.contains(fs[k]));
    assert(kept.to_multiset().count(fs[k]) > 0);
    assert(reports.to_multiset().count(fs[k]) > 0);
    assert(reports.contains(fs[k]));
}

/// A candidate whose check digit is right is never dropped for the words around it, unless it
/// needs context.
pub proof fn law_a_right_check_digit_beats_business_context(c: Candidate, r: Rating, cfg: Config)
    requires
        c.checksum is Passed,
        !c.needs_context,
        r.score.key >= cfg.min_score.key,
    ensures
        reason_for(c, r, cfg) is None,
{
}

/// The finding stands on whole characters of the source.
pub open spec fn stands_in(t: Seq<char>, f: FindingModel) -> bool {
    f.source.within(t)
}

proof fn lemma_reported_stand(t: Seq<char>, stretches: Seq<Stretch>, ratings: Seq<Vec<Rating>>, cfg: Config, n: int)
    requires
        rated(stretches, ratings),
        0 <= n <= stretches.len(),
        forall|k: int| 0 <= k < stretches.len() ==> (#[trigger] stretches[k]).place.source.span.within(t),
    ensures
        forall|i: int| 0 <= i < reported(stretches, ratings, cfg, n).len() ==> stands_in(
            t,
            #[trigger] reported(stretches, ratings, cfg, n)[i],
        ),
        forall|i: int| 0 <= i < unreported(stretches, ratings, cfg, n).len() ==> (
        #[trigger] unreported(stretches, ratings, cfg, n)[i]).source.within(t),
    decreases n,
{
    if n > 0 {
        lemma_reported_stand(t, stretches, ratings, cfg, n - 1);
        let s = stretches[n - 1];
        assert(s.place.source.span.within(t));
        let m = s.candidates@.len() as int;
        lemma_dropped_source(s.place, s.candidates@, ratings[n - 1]@, cfg, m);
        let prev = reported(stretches, ratings, cfg, n - 1);
        let now = reported(stretches, ratings, cfg, n);
        assert forall|i: int| 0 <= i < now.len() implies stands_in(t, #[trigger] now[i]) by {
            if i < prev.len() {
                assert(now[i] == prev[i]);
            }
        }
        let before_it = unreported(stretches, ratings, cfg, n - 1);
        let more = dropped(s.place, s.candidates@, ratings[n - 1]@, cfg, m);
        let all = unreported(stretches, ratings, cfg, n);
        assert forall|i: int| 0 <= i < all.len() implies (#[trigger] all[i]).source.within(t) by {
            if i < before_it.len() {
                assert(all[i] == before_it[i]);
            } else {
                assert(all[i] == more[i - before_it.len()]);
            }
        }
    } else {
        assert(reported(stretches, ratings, cfg, n).len() == 0);
        assert(unreported(stretches, ratings, cfg, n).len() == 0);
    }
}

proof fn lemma_dropped_source(place: Place, cs: Seq<Candidate>, rs: Seq<Rating>, cfg: Config, n: int)
    ensures
        forall|i: int| 0 <= i < dropped(place, cs, rs, cfg, n).len() ==> (#[trigger] dropped(place, cs, rs, cfg, n)[i]).source
            == place.source.span,
    decreases n,
{
    if n > 0 {
        lemma_dropped_source(place, cs, rs, cfg, n - 1);
        let prev = dropped(place, cs, rs, cfg, n - 1);
        let now = dropped(place, cs, rs, cfg, n);
        assert forall|i: int| 0 <= i < now.len() implies (#[trigger] now[i]).source == place.source.span by {
            if i < prev.len() {
                assert(now[i] == prev[i]);
            }
        }
    } else {
        assert(dropped(place, cs, rs, cfg, n).len() == 0);
    }
}

proof fn lemma_standing(t: Seq<char>, scan: Scan, steps: Seq<Step>, window: int, ratings: Seq<Vec<Rating>>, cfg: Config)
    requires
        scan.of(steps, window),
        src_of(steps) == t,
        rated(scan.stretches@, ratings),
    ensures
        forall|i: int| 0 <= i < standing(scan, ratings, cfg).len() ==> stands_in(t, #[trigger] standing(scan, ratings, cfg)[i]),
        forall|k: int| 0 <= k < scan.stretches@.len() ==> (#[trigger] scan.stretches@[k]).place.source.span.within(t),
{
    let d = dst_of(steps);
    let claims = passport_claims(d) + run_claims(d);
    let n = scan.stretches@.len() as int;
    assert forall|k: int| 0 <= k < n implies (#[trigger] scan.stretches@[k]).place.source.span.within(t) by {
        assert(scan.stretches@[k].states(steps, claims[k], window));
    }
    lemma_reported_stand(t, scan.stretches@, ratings, cfg, n);
    let all = standing(scan, ratings, cfg);
    let head = emails_reported(scan.emails@, cfg);
    let tail = reported(scan.stretches@, ratings, cfg, n);
    let found = emails_from(d, 0);
    assert forall|i: int| 0 <= i < all.len() implies stands_in(t, #[trigger] all[i]) by {
        if i < head.len() {
            assert(scan.emails@[i].holds(steps, found[i].0, found[i].1));
            assert(all[i] == email_of(scan.emails@[i]));
        } else {
            assert(all[i] == tail[i - head.len()]);
        }
    }
}

/// Everything that is reported of a text stands on whole characters of it, and can be masked.
pub proof fn law_findings_can_be_masked(
    text: Seq<char>,
    normalization: NormalizeConfig,
    scan: Scan,
    window: int,
    ratings: Seq<Vec<Rating>>,
    cfg: Config,
)
    requires
        scan.of(pipeline(text, normalization), window),
        rated(scan.stretches@, ratings),
    ensures
        forall|i: int| 0 <= i < findings_of(scan, ratings, cfg).len() ==> stands_in(
            text,
            #[trigger] findings_of(scan, ratings, cfg)[i],
        ),
        on_characters(text, findings_of(scan, ratings, cfg)),
{
    let steps = pipeline(text, normalization);
    lemma_pipeline(text, normalization);
    lemma_standing(text, scan, steps, window, ratings, cfg);
    let fs = standing(scan, ratings, cfg);
    let n = fs.len() as int;
    let at = |f: FindingModel| place_at(f.source);
    let kept = prevailing(fs, n);
    let all = findings_of(scan, ratings, cfg);
    assert(all == in_order(kept, at));
    assert forall|i: int| 0 <= i < all.len() implies stands_in(text, #[trigger] all[i]) by {
        let a = lemma_ordered_item(kept, at, i);
        let k = lemma_prevailing_origin(fs, n, a);
        assert(stands_in(text, fs[k]));
    }
    assert forall|i: int| #![trigger all[i]] 0 <= i < all.len() && applies(all[i], 0, utf8_len(text) as int) implies is_char_boundary(
        encode_utf8(text),
        all[i].source.byte.start as int,
    ) && is_char_boundary(encode_utf8(text), all[i].source.byte.end as int) by {
        assert(stands_in(text, all[i]));
        lemma_offset_is_boundary(text, all[i].source.char.start as int);
        lemma_offset_is_boundary(text, all[i].source.char.end as int);
    }
}

/// Everything that is rejected stands on whole characters of the text.
pub proof fn law_rejections_stand_on_characters(
    text: Seq<char>,
    normalization: NormalizeConfig,
    scan: Scan,
    window: int,
    ratings: Seq<Vec<Rating>>,
    cfg: Config,
    i: int,
)
    requires
        scan.of(pipeline(text, normalization), window),
        rated(scan.stretches@, ratings),
        0 <= i < rejections_of(scan, ratings, cfg).len(),
    ensures
        rejections_of(scan, ratings, cfg)[i].source.within(text),
{
    broadcast use vstd::seq_lib::group_to_multiset_ensures;

    let steps = pipeline(text, normalization);
    lemma_pipeline(text, normalization);
    lemma_standing(text, scan, steps, window, ratings, cfg);
    let fs = standing(scan, ratings, cfg);
    let n = fs.len() as int;
    let m = scan.stretches@.len() as int;
    lemma_reported_stand(text, scan.stretches@, ratings, cfg, m);
    let weak = emails_unreported(scan.emails@, cfg);
    let a = falling(scan, ratings, cfg);
    let b = outdone(fs, n);
    let at = |r: Rejection| r.at();
    law_ordering_orders(a + b, at);
    let all = rejections_of(scan, ratings, cfg);
    assert(all == in_order(a + b, at));
    assert(all.contains(all[i]));
    assert((a + b).to_multiset().count(all[i]) > 0);
    assert((a + b).contains(all[i]));
    let k = choose|k: int| 0 <= k < (a + b).len() && (a + b)[k] == all[i];
    let found = emails_from(dst_of(steps), 0);
    if k < weak.len() {
        assert((a + b)[k] == weak[k]);
        assert(scan.emails@[k].holds(steps, found[k].0, found[k].1));
        assert(weak[k] == weak_email(scan.emails@[k]));
    } else if k < a.len() {
        assert((a + b)[k] == unreported(scan.stretches@, ratings, cfg, m)[k - weak.len()]);
    } else {
        assert((a + b)[k] == b[k - a.len()]);
        lemma_outdone_source(fs, n, k - a.len());
    }
}

proof fn lemma_outdone_source(fs: Seq<FindingModel>, n: int, i: int) -> (k: int)
    requires
        0 <= n <= fs.len(),
        0 <= i < outdone(fs, n).len(),
    ensures
        0 <= k < n,
        outdone(fs, n)[i].source == fs[k].source,
    decreases n,
{
    if !prevails(fs, n - 1) && i == outdone(fs, n).len() - 1 {
        n - 1
    } else {
        lemma_outdone_source(fs, n - 1, i)
    }
}

} // verus!
