//! Two runs on one text agree.

use vstd::prelude::*;
use crate::detect::scan::{passport_claims, run_claims, Place, Scan, Stretch};
use crate::detect::scanner::emails_from;
use crate::detect::verdict::{
    breadth, dropped, email_of, emails_reported, emails_unreported, finding_of, findings_of,
    lemma_strongest, outdone, outranks, overlap, place_at, prevailing, prevails, rated,
    rejections_of, reported, standing, strongest, unreported, weak_email, Config, FindingModel,
    Rating,
};
use crate::order::{in_order, lemma_in_order_map};
use crate::span::rules::lemma_rules_unique;
use crate::span::source::{first_end, last_start};
use crate::span::steps::{dst_of, rules_of, Step};
use crate::span::rule_names;

verus! {

/// A finding with its rules by their names.
pub struct NamedFinding {
    /// The finding without its rules.
    pub finding: FindingModel,
    /// The names of its rules.
    pub rules: Seq<Seq<char>>,
}

/// The finding with its rules by their names.
pub open spec fn named(f: FindingModel) -> NamedFinding {
    NamedFinding {
        finding: FindingModel { normalizations: Seq::empty(), ..f },
        rules: rule_names(f.normalizations),
    }
}

/// All findings with their rules by their names.
pub open spec fn all_named(fs: Seq<FindingModel>) -> Seq<NamedFinding> {
    fs.map_values(|f: FindingModel| named(f))
}

/// The two ratings say the same.
pub open spec fn same_rating(a: Rating, b: Rating) -> bool {
    &&& a.score == b.score
    &&& a.context == b.context
    &&& a.against == b.against
    &&& a.hits@ == b.hits@
}

/// The ratings of one stretch say the same.
pub open spec fn same_ratings(a: Seq<Rating>, b: Seq<Rating>) -> bool {
    &&& a.len() == b.len()
    &&& forall|i: int| 0 <= i < a.len() ==> same_rating(#[trigger] a[i], b[i])
}

/// The ratings of all stretches say the same.
pub open spec fn all_same_ratings(a: Seq<Vec<Rating>>, b: Seq<Vec<Rating>>) -> bool {
    &&& a.len() == b.len()
    &&& forall|k: int| 0 <= k < a.len() ==> same_ratings((#[trigger] a[k])@, b[k]@)
}

/// The two places are the same, rules compared by name.
pub open spec fn same_place(a: Place, b: Place) -> bool {
    &&& a.normalized == b.normalized
    &&& a.source.span == b.source.span
    &&& a.source.snapped == b.source.snapped
    &&& a.source.cost == b.source.cost
    &&& rule_names(a.source.rules@) == rule_names(b.source.rules@)
}

/// The two stretches stand at the same place and may be the same.
pub open spec fn same_stretch(a: Stretch, b: Stretch) -> bool {
    same_place(a.place, b.place) && a.candidates@ == b.candidates@
}

/// Places that hold the same output are the same.
proof fn lemma_same_place(a: Place, b: Place, steps: Seq<Step>, from: int, to: int)
    requires
        a.holds(steps, from, to),
        b.holds(steps, from, to),
    ensures
        same_place(a, b),
{
    let p = last_start(steps, from);
    let q = first_end(steps, to);
    if p >= q {
        assert(rule_names(a.source.rules@) =~= rule_names(b.source.rules@));
    } else {
        lemma_rules_unique(a.source.rules@, b.source.rules@, rules_of(steps.subrange(p, q)));
    }
}

proof fn lemma_same_judgement(
    a: Stretch,
    b: Stretch,
    rs: Seq<Rating>,
    ts: Seq<Rating>,
    cfg: Config,
    n: int,
)
    requires
        same_stretch(a, b),
        same_ratings(rs, ts),
        rs.len() == a.candidates@.len(),
        0 <= n <= rs.len(),
    ensures
        strongest(a.candidates@, rs, cfg, n) == strongest(b.candidates@, ts, cfg, n),
        dropped(a.place, a.candidates@, rs, cfg, n) == dropped(b.place, b.candidates@, ts, cfg, n),
    decreases n,
{
    if n > 0 {
        lemma_same_judgement(a, b, rs, ts, cfg, n - 1);
        lemma_strongest(a.candidates@, rs, cfg, n - 1);
        assert(same_rating(rs[n - 1], ts[n - 1]));
        match strongest(a.candidates@, rs, cfg, n - 1) {
            Some(k) => assert(same_rating(rs[k], ts[k])),
            None => {},
        }
    }
}

proof fn lemma_same_reported(
    a: Seq<Stretch>,
    b: Seq<Stretch>,
    rs: Seq<Vec<Rating>>,
    ts: Seq<Vec<Rating>>,
    cfg: Config,
    n: int,
)
    requires
        a.len() == b.len(),
        forall|k: int| 0 <= k < a.len() ==> same_stretch(#[trigger] a[k], b[k]),
        rated(a, rs),
        all_same_ratings(rs, ts),
        0 <= n <= a.len(),
    ensures
        all_named(reported(a, rs, cfg, n)) == all_named(reported(b, ts, cfg, n)),
        unreported(a, rs, cfg, n) == unreported(b, ts, cfg, n),
    decreases n,
{
    if n > 0 {
        lemma_same_reported(a, b, rs, ts, cfg, n - 1);
        let x = a[n - 1];
        let y = b[n - 1];
        assert(same_stretch(x, y));
        assert(rs[n - 1]@.len() == x.candidates@.len());
        assert(same_ratings(rs[n - 1]@, ts[n - 1]@));
        let m = x.candidates@.len() as int;
        lemma_same_judgement(x, y, rs[n - 1]@, ts[n - 1]@, cfg, m);
        lemma_strongest(x.candidates@, rs[n - 1]@, cfg, m);
        match strongest(x.candidates@, rs[n - 1]@, cfg, m) {
            Some(k) => {
                assert(same_rating(rs[n - 1]@[k], ts[n - 1]@[k]));
                let f = finding_of(x.place, x.candidates@[k], rs[n - 1]@[k]);
                let g = finding_of(y.place, y.candidates@[k], ts[n - 1]@[k]);
                assert(named(f) == named(g));
                lemma_named_push(reported(a, rs, cfg, n - 1), f);
                lemma_named_push(reported(b, ts, cfg, n - 1), g);
            },
            None => {},
        }
    } else {
        assert(all_named(reported(a, rs, cfg, n)) =~= all_named(reported(b, ts, cfg, n)));
    }
}

proof fn lemma_named_push(fs: Seq<FindingModel>, f: FindingModel)
    ensures
        all_named(fs.push(f)) == all_named(fs).push(named(f)),
{
    assert(all_named(fs.push(f)) =~= all_named(fs).push(named(f)));
}

/// Findings with the same names have the same places and scores.
proof fn lemma_named_index(fs: Seq<FindingModel>, gs: Seq<FindingModel>, i: int)
    requires
        all_named(fs) == all_named(gs),
        0 <= i < fs.len(),
    ensures
        fs.len() == gs.len(),
        named(fs[i]) == named(gs[i]),
        fs[i].source == gs[i].source,
        fs[i].score == gs[i].score,
        fs[i].entity == gs[i].entity,
{
    assert(all_named(fs).len() == fs.len());
    assert(all_named(gs).len() == gs.len());
    assert(all_named(fs)[i] == named(fs[i]));
    assert(all_named(gs)[i] == named(gs[i]));
}

proof fn lemma_same_prevails(fs: Seq<FindingModel>, gs: Seq<FindingModel>, i: int)
    requires
        all_named(fs) == all_named(gs),
        0 <= i < fs.len(),
    ensures
        prevails(fs, i) == prevails(gs, i),
    decreases u32::MAX - breadth(fs[i]), u32::MAX - fs[i].score.key, i,
{
    lemma_named_index(fs, gs, i);
    assert forall|j: int| 0 <= j < fs.len() && outranks(fs, j, i) implies #[trigger] prevails(fs, j) == prevails(gs, j) by {
        lemma_same_prevails(fs, gs, j);
    }
    assert forall|j: int| 0 <= j < fs.len() implies #[trigger] overlap(fs[j], fs[i]) == overlap(gs[j], gs[i])
        && outranks(fs, j, i) == outranks(gs, j, i) by {
        lemma_named_index(fs, gs, j);
    }
    assert forall|j: int| 0 <= j < fs.len() implies #[trigger] overlap(gs[j], gs[i]) == overlap(fs[j], fs[i]) by {
        lemma_named_index(fs, gs, j);
    }
    if prevails(fs, i) != prevails(gs, i) {
        if prevails(fs, i) {
            let j = choose|j: int| 0 <= j < gs.len() && #[trigger] overlap(gs[j], gs[i]) && outranks(gs, j, i) && prevails(gs, j);
            assert(overlap(fs[j], fs[i]));
            assert(prevails(fs, j) == prevails(gs, j));
        } else {
            let j = choose|j: int| 0 <= j < fs.len() && #[trigger] overlap(fs[j], fs[i]) && outranks(fs, j, i) && prevails(fs, j);
            assert(overlap(gs[j], gs[i]));
            assert(prevails(fs, j) == prevails(gs, j));
        }
    }
}

proof fn lemma_same_prevailing(fs: Seq<FindingModel>, gs: Seq<FindingModel>, n: int)
    requires
        all_named(fs) == all_named(gs),
        0 <= n <= fs.len(),
    ensures
        all_named(prevailing(fs, n)) == all_named(prevailing(gs, n)),
        outdone(fs, n) == outdone(gs, n),
    decreases n,
{
    if n > 0 {
        lemma_same_prevailing(fs, gs, n - 1);
        lemma_same_prevails(fs, gs, n - 1);
        lemma_named_index(fs, gs, n - 1);
        lemma_named_push(prevailing(fs, n - 1), fs[n - 1]);
        lemma_named_push(prevailing(gs, n - 1), gs[n - 1]);
    } else {
        assert(all_named(prevailing(fs, n)) =~= all_named(prevailing(gs, n)));
    }
}

/// Findings keep their names when they are brought in order.
proof fn lemma_named_in_order(fs: Seq<FindingModel>)
    ensures
        all_named(in_order(fs, |f: FindingModel| place_at(f.source))) == in_order(
            all_named(fs),
            |x: NamedFinding| place_at(x.finding.source),
        ),
{
    lemma_in_order_map(
        fs,
        |f: FindingModel| place_at(f.source),
        |f: FindingModel| named(f),
        |x: NamedFinding| place_at(x.finding.source),
    );
}

/// Two scans of one text hold the same places and the same candidates.
proof fn lemma_same_scan(a: Scan, b: Scan, steps: Seq<Step>, window: int)
    requires
        a.of(steps, window),
        b.of(steps, window),
    ensures
        a.emails@.len() == b.emails@.len(),
        forall|k: int| 0 <= k < a.emails@.len() ==> same_place(#[trigger] a.emails@[k], b.emails@[k]),
        a.stretches@.len() == b.stretches@.len(),
        forall|k: int| 0 <= k < a.stretches@.len() ==> same_stretch(#[trigger] a.stretches@[k], b.stretches@[k]),
{
    let t = dst_of(steps);
    let found = emails_from(t, 0);
    let claims = passport_claims(t) + run_claims(t);
    assert forall|k: int| 0 <= k < a.emails@.len() implies same_place(#[trigger] a.emails@[k], b.emails@[k]) by {
        assert(b.emails@[k].holds(steps, found[k].0, found[k].1));
        lemma_same_place(a.emails@[k], b.emails@[k], steps, found[k].0, found[k].1);
    }
    assert forall|k: int| 0 <= k < a.stretches@.len() implies same_stretch(#[trigger] a.stretches@[k], b.stretches@[k]) by {
        assert(b.stretches@[k].states(steps, claims[k], window));
        lemma_same_place(a.stretches@[k].place, b.stretches@[k].place, steps, claims[k].from, claims[k].to);
    }
}

/// Two runs on one text, with the same settings and ratings, report the same findings and the same
/// rejections, and hold the same normalized text. The rules of a finding are compared by name.
pub proof fn law_equal_runs_agree(
    steps: Seq<Step>,
    window: int,
    a: Scan,
    b: Scan,
    rs: Seq<Vec<Rating>>,
    ts: Seq<Vec<Rating>>,
    cfg: Config,
)
    requires
        a.of(steps, window),
        b.of(steps, window),
        rated(a.stretches@, rs),
        all_same_ratings(rs, ts),
    ensures
        all_named(findings_of(a, rs, cfg)) == all_named(findings_of(b, ts, cfg)),
        rejections_of(a, rs, cfg) == rejections_of(b, ts, cfg),
        a.normalized_text@ == b.normalized_text@,
{
    lemma_same_scan(a, b, steps, window);
    let n = a.stretches@.len() as int;
    lemma_same_reported(a.stretches@, b.stretches@, rs, ts, cfg, n);
    let fs = standing(a, rs, cfg);
    let gs = standing(b, ts, cfg);
    let fe = emails_reported(a.emails@, cfg);
    let ge = emails_reported(b.emails@, cfg);
    let fr = reported(a.stretches@, rs, cfg, n);
    let gr = reported(b.stretches@, ts, cfg, n);
    assert(all_named(fe) =~= all_named(ge)) by {
        assert forall|k: int| 0 <= k < fe.len() implies #[trigger] all_named(fe)[k] == all_named(ge)[k] by {
            assert(same_place(a.emails@[k], b.emails@[k]));
            assert(fe[k] == email_of(a.emails@[k]));
            assert(ge[k] == email_of(b.emails@[k]));
        }
    }
    assert(emails_unreported(a.emails@, cfg) =~= emails_unreported(b.emails@, cfg)) by {
        assert forall|k: int| 0 <= k < a.emails@.len() implies #[trigger] weak_email(a.emails@[k]) == weak_email(
            b.emails@[k],
        ) by {
            assert(same_place(a.emails@[k], b.emails@[k]));
        }
    }
    assert(all_named(fs) =~= all_named(fe) + all_named(fr));
    assert(all_named(gs) =~= all_named(ge) + all_named(gr));
    assert(all_named(fs).len() == all_named(gs).len());
    lemma_same_prevailing(fs, gs, fs.len() as int);
    lemma_named_in_order(prevailing(fs, fs.len() as int));
    lemma_named_in_order(prevailing(gs, gs.len() as int));
}

} // verus!
