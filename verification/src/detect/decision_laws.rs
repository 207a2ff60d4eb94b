//! When a candidate is reported, how certain it is, and what a report tells of it.

use vstd::prelude::*;
use crate::detect::entity::{Candidate, Certainty, EntityKind};
use crate::detect::laws::{
    law_findings_do_not_overlap, law_rejections_are_in_order, law_what_falls_is_covered,
    lemma_ordered_item, lemma_prevailing_origin, lemma_stretch_count,
};
use crate::detect::scan::{Place, Scan, Stretch};
use crate::detect::verdict::{
    certainty_of, dropped, email_of, emails_reported, findings_of, lemma_strongest, outranks,
    overlap, place_at, prevailing, rated, reason_for, rejections_of, reported, standing, strongest,
    Config, FindingModel, Rating, RejectReason, Rejection,
};
use crate::order::in_order;
use crate::span::Span;

verus! {

/// A candidate is accepted on its own exactly if it has the context that it needs, if no heavy
/// words speak against it more than others for it, unless its check digit is right, and if it
/// scored enough.
pub proof fn law_when_a_candidate_is_accepted(c: Candidate, r: Rating, cfg: Config)
    ensures
        reason_for(c, r, cfg) is None <==> {
            &&& c.needs_context ==> r.context.key >= cfg.min_context.key
            &&& c.checksum is Passed || r.against.key < cfg.min_veto.key || r.against.key <= r.context.key
            &&& r.score.key >= cfg.min_score.key
        },
        reason_for(c, r, cfg) == Some(RejectReason::NoContext) <==> c.needs_context && r.context.key < cfg.min_context.key,
        reason_for(c, r, cfg) == Some(RejectReason::BusinessContext) ==> !(c.checksum is Passed) && r.against.key
            >= cfg.min_veto.key && r.against.key > r.context.key,
        reason_for(c, r, cfg) == Some(RejectReason::ChecksumFailed) ==> c.checksum is Failed && r.score.key
            < cfg.min_score.key,
        reason_for(c, r, cfg) == Some(RejectReason::BelowThreshold) ==> !(c.checksum is Failed) && r.score.key
            < cfg.min_score.key,
        reason_for(c, r, cfg) != Some(RejectReason::Outranked),
{
}

/// More points, more words for a candidate and fewer against it never turn it down.
pub proof fn law_better_ratings_are_accepted_too(c: Candidate, r: Rating, better: Rating, cfg: Config)
    requires
        reason_for(c, r, cfg) is None,
        better.score.key >= r.score.key,
        better.context.key >= r.context.key,
        better.against.key <= r.against.key,
    ensures
        reason_for(c, better, cfg) is None,
{
}

/// Lower thresholds never turn a candidate down, and a higher one for words against it neither.
pub proof fn law_looser_settings_accept_no_less(c: Candidate, r: Rating, cfg: Config, looser: Config)
    requires
        reason_for(c, r, cfg) is None,
        looser.min_score.key <= cfg.min_score.key,
        looser.min_context.key <= cfg.min_context.key,
        looser.min_veto.key >= cfg.min_veto.key,
    ensures
        reason_for(c, r, looser) is None,
{
}

/// A candidate is certain exactly if its check digit is right and its kind can become certain. It
/// is merely possible exactly if its ceiling is, or if its kind has a check digit that is not right
/// and no word speaks for it.
pub proof fn law_how_certain_a_candidate_is(c: Candidate, r: Rating)
    ensures
        certainty_of(c, r) == Certainty::Certain <==> c.checksum is Passed && c.ceiling == Certainty::Certain,
        certainty_of(c, r) == Certainty::Possible <==> c.ceiling == Certainty::Possible || (c.ceiling == Certainty::Certain
            && !(c.checksum is Passed) && r.context.key <= 0x8000_0000),
{
}

/// Of the candidates of a stretch that are accepted on their own, the one with the highest score is
/// chosen, and of equals the first. If none is accepted, none is chosen.
pub proof fn law_the_strongest_is_chosen(cs: Seq<Candidate>, rs: Seq<Rating>, cfg: Config)
    requires
        cs.len() == rs.len(),
    ensures
        match strongest(cs, rs, cfg, cs.len() as int) {
            Some(b) => {
                &&& 0 <= b < cs.len()
                &&& reason_for(cs[b], rs[b], cfg) is None
                &&& forall|k: int|
                    0 <= k < cs.len() && reason_for(#[trigger] cs[k], rs[k], cfg) is None ==> rs[k].score.key
                        <= rs[b].score.key && (k < b ==> rs[k].score.key < rs[b].score.key)
            },
            None => forall|k: int| 0 <= k < cs.len() ==> reason_for(#[trigger] cs[k], rs[k], cfg) is Some,
        },
{
    lemma_first_strongest(cs, rs, cfg, cs.len() as int);
}

proof fn lemma_first_strongest(cs: Seq<Candidate>, rs: Seq<Rating>, cfg: Config, n: int)
    requires
        cs.len() == rs.len(),
        0 <= n <= cs.len(),
    ensures
        match strongest(cs, rs, cfg, n) {
            Some(b) => {
                &&& 0 <= b < n
                &&& reason_for(cs[b], rs[b], cfg) is None
                &&& forall|k: int|
                    0 <= k < n && reason_for(#[trigger] cs[k], rs[k], cfg) is None ==> rs[k].score.key <= rs[b].score.key
                        && (k < b ==> rs[k].score.key < rs[b].score.key)
            },
            None => forall|k: int| 0 <= k < n ==> reason_for(#[trigger] cs[k], rs[k], cfg) is Some,
        },
    decreases n,
{
    if n > 0 {
        lemma_first_strongest(cs, rs, cfg, n - 1);
    }
}

/// A finding tells of a candidate what it is, where it stands and why it was found.
pub open spec fn tells_of(f: FindingModel, place: Place, c: Candidate, r: Rating) -> bool {
    &&& f.entity == c.entity
    &&& f.source == place.source.span
    &&& f.normalized == place.normalized
    &&& f.score == r.score
    &&& f.rule == c.rule
    &&& f.checksum == c.checksum
    &&& f.context_hits == r.hits@
    &&& f.normalizations == place.source.rules@
    &&& f.cost == place.source.cost
    &&& f.snapped == place.source.snapped
    &&& f.certainty == Certainty::Certain <==> c.checksum is Passed && c.ceiling == Certainty::Certain
}

/// A finding tells of an address where it stands. Its score is nine tenths, and it is probable.
pub open spec fn tells_of_email(f: FindingModel, place: Place) -> bool {
    &&& f.entity == EntityKind::Email
    &&& f.source == place.source.span
    &&& f.normalized == place.normalized
    &&& f.score.key == 0xBF66_6666
    &&& f.certainty == Certainty::Probable
    &&& f.checksum is NotApplicable
    &&& f.context_hits.len() == 0
    &&& f.normalizations == place.source.rules@
    &&& f.cost == place.source.cost
    &&& f.snapped == place.source.snapped
}

/// A finding comes from an accepted candidate of some stretch.
pub open spec fn comes_from(f: FindingModel, stretches: Seq<Stretch>, ratings: Seq<Vec<Rating>>, cfg: Config, k: int, b: int) -> bool {
    &&& 0 <= k < stretches.len()
    &&& 0 <= b < stretches[k].candidates@.len()
    &&& reason_for(stretches[k].candidates@[b], ratings[k]@[b], cfg) is None
    &&& tells_of(f, stretches[k].place, stretches[k].candidates@[b], ratings[k]@[b])
}

/// A finding comes from some stretch.
pub open spec fn comes_from_stretch(f: FindingModel, stretches: Seq<Stretch>, ratings: Seq<Vec<Rating>>, cfg: Config) -> bool {
    exists|k: int, b: int| #[trigger] comes_from(f, stretches, ratings, cfg, k, b)
}

proof fn lemma_reported_come(stretches: Seq<Stretch>, ratings: Seq<Vec<Rating>>, cfg: Config, n: int)
    requires
        rated(stretches, ratings),
        0 <= n <= stretches.len(),
    ensures
        forall|i: int|
            0 <= i < reported(stretches, ratings, cfg, n).len() ==> comes_from_stretch(
                #[trigger] reported(stretches, ratings, cfg, n)[i],
                stretches,
                ratings,
                cfg,
            ),
    decreases n,
{
    let now = reported(stretches, ratings, cfg, n);
    if n > 0 {
        lemma_reported_come(stretches, ratings, cfg, n - 1);
        let prev = reported(stretches, ratings, cfg, n - 1);
        let s = stretches[n - 1];
        let cs = s.candidates@;
        let rs = ratings[n - 1]@;
        assert(rs.len() == cs.len());
        lemma_strongest(cs, rs, cfg, cs.len() as int);
        assert forall|i: int| 0 <= i < now.len() implies comes_from_stretch(#[trigger] now[i], stretches, ratings, cfg) by {
            if i < prev.len() {
                assert(now[i] == prev[i]);
            } else {
                let b = strongest(cs, rs, cfg, cs.len() as int).unwrap();
                law_how_certain_a_candidate_is(cs[b], rs[b]);
                assert(comes_from(now[i], stretches, ratings, cfg, n - 1, b));
            }
        }
    } else {
        assert(now.len() == 0);
    }
}

/// Everything that is reported is an address that was scanned, or an accepted candidate of a
/// scanned stretch, and the finding tells where it stands and why it was found.
pub proof fn law_findings_tell_what_was_scanned(scan: Scan, ratings: Seq<Vec<Rating>>, cfg: Config, i: int)
    requires
        rated(scan.stretches@, ratings),
        0 <= i < findings_of(scan, ratings, cfg).len(),
    ensures
        ({
            let f = findings_of(scan, ratings, cfg)[i];
            ||| comes_from_stretch(f, scan.stretches@, ratings, cfg)
            ||| exists|k: int| 0 <= k < scan.emails@.len() && tells_of_email(f, #[trigger] scan.emails@[k])
        }),
{
    let fs = standing(scan, ratings, cfg);
    let at = |f: FindingModel| place_at(f.source);
    let kept = prevailing(fs, fs.len() as int);
    assert(findings_of(scan, ratings, cfg) == in_order(kept, at));
    let a = lemma_ordered_item(kept, at, i);
    let k = lemma_prevailing_origin(fs, fs.len() as int, a);
    let head = emails_reported(scan.emails@, cfg);
    let m = scan.stretches@.len() as int;
    lemma_reported_come(scan.stretches@, ratings, cfg, m);
    if k < head.len() {
        assert(fs[k] == email_of(scan.emails@[k]));
        assert(tells_of_email(fs[k], scan.emails@[k]));
    } else {
        assert(fs[k] == reported(scan.stretches@, ratings, cfg, m)[k - head.len()]);
    }
}

/// Two findings share a byte of the source.
pub open spec fn share_a_byte(f: FindingModel, g: FindingModel) -> bool {
    exists|b: int|
        #![trigger covers_byte(f, b)]
        covers_byte(f, b) && covers_byte(g, b)
}

/// A finding covers a byte of the source.
pub open spec fn covers_byte(f: FindingModel, b: int) -> bool {
    f.source.byte.start <= b < f.source.byte.end
}

/// Where something falls that stands on its own, a finding is reported that shares a byte with it,
/// is at least as wide, and if it is as wide has at least its score.
pub proof fn law_the_wider_finding_wins(scan: Scan, ratings: Seq<Vec<Rating>>, cfg: Config, i: int)
    requires
        0 <= i < standing(scan, ratings, cfg).len(),
        !findings_of(scan, ratings, cfg).contains(standing(scan, ratings, cfg)[i]),
        standing(scan, ratings, cfg)[i].source.byte.start < standing(scan, ratings, cfg)[i].source.byte.end,
    ensures
        ({
            let f = standing(scan, ratings, cfg)[i];
            let wide = f.source.byte.end - f.source.byte.start;
            exists|g: FindingModel|
                {
                    &&& #[trigger] findings_of(scan, ratings, cfg).contains(g)
                    &&& share_a_byte(f, g)
                    &&& g.source.byte.end - g.source.byte.start >= wide
                    &&& g.source.byte.end - g.source.byte.start == wide ==> g.score.key >= f.score.key
                }
        }),
{
    law_what_falls_is_covered(scan, ratings, cfg, i);
    let fs = standing(scan, ratings, cfg);
    let j = choose|j: int|
        0 <= j < fs.len() && #[trigger] overlap(fs[j], fs[i]) && outranks(fs, j, i) && findings_of(scan, ratings, cfg).contains(
            fs[j],
        );
    let f = fs[i];
    let g = fs[j];
    let b = if f.source.byte.start >= g.source.byte.start {
        f.source.byte.start as int
    } else {
        g.source.byte.start as int
    };
    assert(covers_byte(f, b) && covers_byte(g, b));
    assert(findings_of(scan, ratings, cfg).contains(g));
}

/// Findings and rejections come in the order of the source: by where they begin, and of those that
/// begin together by where they end.
pub proof fn law_reports_follow_the_source(scan: Scan, ratings: Seq<Vec<Rating>>, cfg: Config, a: int, b: int)
    requires
        0 <= a < b,
    ensures
        b < findings_of(scan, ratings, cfg).len() ==> comes_no_later(
            findings_of(scan, ratings, cfg)[a].source,
            findings_of(scan, ratings, cfg)[b].source,
        ),
        b < rejections_of(scan, ratings, cfg).len() ==> comes_no_later(
            rejections_of(scan, ratings, cfg)[a].source,
            rejections_of(scan, ratings, cfg)[b].source,
        ),
{
    if b < findings_of(scan, ratings, cfg).len() {
        law_findings_do_not_overlap(scan, ratings, cfg, a, b);
    }
    if b < rejections_of(scan, ratings, cfg).len() {
        law_rejections_are_in_order(scan, ratings, cfg, a, b);
    }
}

/// A span begins before another, or with it and ends no later.
pub open spec fn comes_no_later(x: Span, y: Span) -> bool {
    x.byte.start < y.byte.start || (x.byte.start == y.byte.start && x.byte.end <= y.byte.end)
}

/// A rejection tells of a candidate what it would have been, where it stands and why it is not
/// reported: for its own reason, or because something stronger stands at the same place.
pub open spec fn tells_of_rejected(x: Rejection, place: Place, c: Candidate, r: Rating, cfg: Config) -> bool {
    &&& x.entity == c.entity
    &&& x.source == place.source.span
    &&& x.score == r.score
    &&& reason_for(c, r, cfg) == Some(x.reason) || (reason_for(c, r, cfg) is None && x.reason == RejectReason::Outranked)
}

/// A rejection tells of some candidate of a stretch.
pub open spec fn tells_of_stretch(x: Rejection, s: Stretch, rs: Seq<Rating>, cfg: Config) -> bool {
    exists|b: int|
        0 <= b < s.candidates@.len() && tells_of_rejected(x, s.place, #[trigger] s.candidates@[b], rs[b], cfg)
}

proof fn lemma_dropped_tell(s: Stretch, rs: Seq<Rating>, cfg: Config, n: int)
    requires
        rs.len() == s.candidates@.len(),
        0 <= n <= rs.len(),
    ensures
        forall|i: int|
            0 <= i < dropped(s.place, s.candidates@, rs, cfg, n).len() ==> tells_of_stretch(
                #[trigger] dropped(s.place, s.candidates@, rs, cfg, n)[i],
                s,
                rs,
                cfg,
            ),
    decreases n,
{
    let now = dropped(s.place, s.candidates@, rs, cfg, n);
    if n > 0 {
        lemma_dropped_tell(s, rs, cfg, n - 1);
        let prev = dropped(s.place, s.candidates@, rs, cfg, n - 1);
        lemma_strongest(s.candidates@, rs, cfg, n - 1);
        assert forall|i: int| 0 <= i < now.len() implies tells_of_stretch(#[trigger] now[i], s, rs, cfg) by {
            if i < prev.len() {
                assert(now[i] == prev[i]);
            } else {
                match reason_for(s.candidates@[n - 1], rs[n - 1], cfg) {
                    Some(reason) => {
                        assert(tells_of_rejected(now[i], s.place, s.candidates@[n - 1], rs[n - 1], cfg));
                    },
                    None => {
                        let b = strongest(s.candidates@, rs, cfg, n - 1).unwrap();
                        let loser = if rs[n - 1].score.key > rs[b].score.key {
                            b
                        } else {
                            n - 1
                        };
                        assert(tells_of_rejected(now[i], s.place, s.candidates@[loser], rs[loser], cfg));
                    },
                }
            }
        }
    } else {
        assert(now.len() == 0);
    }
}

/// Whatever a stretch does not report is told of with its reason. The candidates that are told of
/// and the one that is chosen are all that the stretch has.
pub proof fn law_rejections_tell_what_was_scanned(s: Stretch, rs: Seq<Rating>, cfg: Config)
    requires
        rs.len() == s.candidates@.len(),
    ensures
        ({
            let n = s.candidates@.len() as int;
            let gone = dropped(s.place, s.candidates@, rs, cfg, n);
            &&& forall|i: int| 0 <= i < gone.len() ==> tells_of_stretch(#[trigger] gone[i], s, rs, cfg)
            &&& gone.len() + (if strongest(s.candidates@, rs, cfg, n) is Some {
                1int
            } else {
                0
            }) == n
        }),
{
    lemma_dropped_tell(s, rs, cfg, s.candidates@.len() as int);
    lemma_stretch_count(s.place, s.candidates@, rs, cfg, s.candidates@.len() as int);
}

} // verus!
