//! Deciding which candidates are reported.
//!
//! How much a candidate scores is a real number and is computed by the caller. Everything that
//! follows from the scores is decided here: which candidates are dropped and why, how certain the
//! others are, which one of several at one place is reported, and in which order.

use vstd::prelude::*;
use crate::detect::checksum::ChecksumResult;
use crate::detect::context::{ContextHit, Score};
use crate::detect::entity::{Candidate, Certainty, EntityKind};
use crate::detect::scan::{Place, Scan, Stretch};
use crate::normalize::NormalizeConfig;
use crate::order::{in_order, lemma_in_order_map, ordered, Placed, Position};
use crate::span::rules::copy_rules;
use crate::span::{NormalizationCost, RuleId, Span};

verus! {

/// The score that stands for zero.
pub const ZERO: u32 = 0x8000_0000;

/// The score of an address: nine tenths.
pub const EMAIL_SCORE: u32 = 0xBF66_6666;

/// What is looked for, and from which scores on it is reported.
#[derive(Debug, Clone, PartialEq, Eq)]
pub struct Config {
    /// How texts are normalized.
    pub normalize: NormalizeConfig,
    /// How many characters around a value are searched for words.
    pub context_window: u32,
    /// Nothing that scores less is reported.
    pub min_score: Score,
    /// What the words for a candidate that needs context must weigh at least.
    pub min_context: Score,
    /// What the words against a candidate must weigh at least to count.
    pub min_veto: Score,
}

impl Default for Config {
    fn default() -> (r: Self)
        ensures
            r.normalize.nfc && r.normalize.fold && r.normalize.hangul && r.normalize.lookalike && r.normalize.separator,
            r.normalize.numeral.min_digits_without_context == 6,
            r.normalize.numeral.min_digits_with_context == 2,
            r.normalize.numeral.context_window == 2,
            r.context_window == 24,
            r.min_score.key == 0xBF00_0000,
            r.min_context.key == 0xBE99_999A,
            r.min_veto.key == 0xBF00_0000,
    {
        // One half, three tenths and one half.
        Config {
            normalize: NormalizeConfig::default(),
            context_window: 24,
            min_score: Score { key: 0xBF00_0000 },
            min_context: Score { key: 0xBE99_999A },
            min_veto: Score { key: 0xBF00_0000 },
        }
    }
}

/// Why something was found.
#[derive(Debug, Clone, PartialEq, Eq)]
pub struct Evidence {
    /// The name of the form that fits.
    pub rule: &'static str,
    /// What the check digit says.
    pub checksum: ChecksumResult,
    /// The words nearby that speak for it, the heaviest first.
    pub context_hits: Vec<ContextHit>,
    /// The rules by which its text was normalized.
    pub normalizations: Vec<RuleId>,
    /// What normalizing its text cost.
    pub cost: NormalizationCost,
    /// Whether its source was widened to the bounds of a rewritten segment.
    pub snapped: bool,
}

/// Something found.
#[derive(Debug, Clone, PartialEq, Eq)]
pub struct Finding {
    /// What kind it is.
    pub entity: EntityKind,
    /// Where it stands in the source. Masking applies there.
    pub source: Span,
    /// Where it stands in the normalized text.
    pub normalized: Span,
    /// How certain it is.
    pub certainty: Certainty,
    /// What it scored.
    pub score: Score,
    /// Why it was found.
    pub evidence: Evidence,
}

/// A finding, with its lists as sequences.
pub struct FindingModel {
    pub entity: EntityKind,
    pub source: Span,
    pub normalized: Span,
    pub certainty: Certainty,
    pub score: Score,
    pub rule: &'static str,
    pub checksum: ChecksumResult,
    pub context_hits: Seq<ContextHit>,
    pub normalizations: Seq<RuleId>,
    pub cost: NormalizationCost,
    pub snapped: bool,
}

impl View for Finding {
    type V = FindingModel;

    open spec fn view(&self) -> FindingModel {
        FindingModel {
            entity: self.entity,
            source: self.source,
            normalized: self.normalized,
            certainty: self.certainty,
            score: self.score,
            rule: self.evidence.rule,
            checksum: self.evidence.checksum,
            context_hits: self.evidence.context_hits@,
            normalizations: self.evidence.normalizations@,
            cost: self.evidence.cost,
            snapped: self.evidence.snapped,
        }
    }
}

/// The models of findings.
pub open spec fn models(findings: Seq<Finding>) -> Seq<FindingModel> {
    findings.map_values(|f: Finding| f@)
}

/// Where a span stands among others.
pub open spec fn place_at(span: Span) -> Position {
    (span.byte.start, span.byte.end)
}

impl Placed for Finding {
    open spec fn at(&self) -> Position {
        place_at(self.source)
    }

    fn position(&self) -> (r: Position) {
        (self.source.byte.start, self.source.byte.end)
    }
}

impl Finding {
    /// A copy of the finding.
    pub fn copy(&self) -> (r: Finding)
        ensures
            r@ == self@,
    {
        let e = &self.evidence;
        let mut hits: Vec<ContextHit> = Vec::new();
        let mut i: usize = 0;
        while i < e.context_hits.len()
            invariant
                i <= e.context_hits@.len(),
                hits@ =~= e.context_hits@.take(i as int),
            decreases e.context_hits@.len() - i,
        {
            hits.push(e.context_hits[i]);
            i += 1;
        }
        assert(hits@ =~= e.context_hits@);
        Finding {
            entity: self.entity,
            source: self.source.clone(),
            normalized: self.normalized.clone(),
            certainty: self.certainty,
            score: self.score,
            evidence: Evidence {
                rule: e.rule,
                checksum: e.checksum,
                context_hits: hits,
                normalizations: copy_rules(&e.normalizations),
                cost: e.cost,
                snapped: e.snapped,
            },
        }
    }
}

/// Why a candidate is not reported.
#[derive(Debug, Clone, Copy, PartialEq, Eq, Structural)]
pub enum RejectReason {
    /// Its check digit is wrong, and it scored too little.
    ChecksumFailed,
    /// It needs words that speak for it, and there are too few.
    NoContext,
    /// It scored too little.
    BelowThreshold,
    /// Something stronger was found at the same place.
    Outranked,
    /// Words nearby say that the number belongs to no person.
    BusinessContext,
}

/// A candidate that is not reported.
#[derive(Debug, Clone, PartialEq, Eq)]
pub struct Rejection {
    /// What kind it would have been.
    pub entity: EntityKind,
    /// Where it stands in the source.
    pub source: Span,
    /// Why it is not reported.
    pub reason: RejectReason,
    /// What it scored.
    pub score: Score,
}

impl Placed for Rejection {
    open spec fn at(&self) -> Position {
        place_at(self.source)
    }

    fn position(&self) -> (r: Position) {
        (self.source.byte.start, self.source.byte.end)
    }
}

/// What was found in a text.
#[derive(Debug, Clone, PartialEq, Eq)]
pub struct Report {
    /// What is reported, in the order of the source.
    pub findings: Vec<Finding>,
    /// What is not reported, and why, in the order of the source.
    pub rejections: Vec<Rejection>,
    /// The normalized text.
    pub normalized_text: String,
}

/// What a candidate scored.
#[derive(Debug, Clone, PartialEq, Eq)]
pub struct Rating {
    /// Its score.
    pub score: Score,
    /// What the words that speak for it weigh together.
    pub context: Score,
    /// What the words that speak against it weigh together.
    pub against: Score,
    /// The words that speak for it, the heaviest first.
    pub hits: Vec<ContextHit>,
}

/// Why a candidate is not reported, as far as it is judged on its own.
///
/// Context comes first where it is needed. Then words against it count, unless the check digit is
/// right: a number with a right check digit is personal data whatever it is called. They count if
/// they weigh enough, and more than the words for it.
pub open spec fn reason_for(c: Candidate, r: Rating, cfg: Config) -> Option<RejectReason> {
    if c.needs_context && r.context.key < cfg.min_context.key {
        Some(RejectReason::NoContext)
    } else if !(c.checksum is Passed) && r.against.key >= cfg.min_veto.key && r.against.key > r.context.key {
        Some(RejectReason::BusinessContext)
    } else if r.score.key < cfg.min_score.key {
        if c.checksum is Failed {
            Some(RejectReason::ChecksumFailed)
        } else {
            Some(RejectReason::BelowThreshold)
        }
    } else {
        None
    }
}

/// How certain a candidate is: certain with a right check digit, probable with words that speak
/// for it or where its kind has no check digit, and never more than its ceiling.
pub open spec fn certainty_of(c: Candidate, r: Rating) -> Certainty {
    if c.checksum is Passed {
        Certainty::Certain.lower(c.ceiling)
    } else if r.context.key > ZERO || c.ceiling != Certainty::Certain {
        Certainty::Probable.lower(c.ceiling)
    } else {
        Certainty::Possible
    }
}

/// The finding that a candidate becomes.
pub open spec fn finding_of(place: Place, c: Candidate, r: Rating) -> FindingModel {
    FindingModel {
        entity: c.entity,
        source: place.source.span,
        normalized: place.normalized,
        certainty: certainty_of(c, r),
        score: r.score,
        rule: c.rule,
        checksum: c.checksum,
        context_hits: r.hits@,
        normalizations: place.source.rules@,
        cost: place.source.cost,
        snapped: place.source.snapped,
    }
}

/// The rejection that a candidate becomes.
pub open spec fn rejection_of(place: Place, c: Candidate, r: Rating, reason: RejectReason) -> Rejection {
    Rejection { entity: c.entity, source: place.source.span, reason, score: r.score }
}

/// The strongest among the first `n` candidates that stand on their own: the one with the highest
/// score, and of equals the first.
pub open spec fn strongest(cs: Seq<Candidate>, rs: Seq<Rating>, cfg: Config, n: int) -> Option<int>
    decreases n,
{
    if n <= 0 {
        None
    } else {
        let prev = strongest(cs, rs, cfg, n - 1);
        if reason_for(cs[n - 1], rs[n - 1], cfg) is Some {
            prev
        } else {
            match prev {
                Some(b) => if rs[n - 1].score.key > rs[b].score.key {
                    Some(n - 1)
                } else {
                    prev
                },
                None => Some(n - 1),
            }
        }
    }
}

/// The rejections among the first `n` candidates. One that was the strongest so far is recorded
/// when a stronger one comes.
pub open spec fn dropped(place: Place, cs: Seq<Candidate>, rs: Seq<Rating>, cfg: Config, n: int) -> Seq<Rejection>
    decreases n,
{
    if n <= 0 {
        Seq::empty()
    } else {
        let so_far = dropped(place, cs, rs, cfg, n - 1);
        match reason_for(cs[n - 1], rs[n - 1], cfg) {
            Some(reason) => so_far.push(rejection_of(place, cs[n - 1], rs[n - 1], reason)),
            None => match strongest(cs, rs, cfg, n - 1) {
                Some(b) => {
                    let loser = if rs[n - 1].score.key > rs[b].score.key {
                        b
                    } else {
                        n - 1
                    };
                    so_far.push(rejection_of(place, cs[loser], rs[loser], RejectReason::Outranked))
                },
                None => so_far,
            },
        }
    }
}

/// Each candidate of a stretch has a rating.
pub open spec fn rated(stretches: Seq<Stretch>, ratings: Seq<Vec<Rating>>) -> bool {
    &&& stretches.len() == ratings.len()
    &&& forall|k: int|
        0 <= k < stretches.len() ==> (#[trigger] ratings[k])@.len() == stretches[k].candidates@.len()
}

/// What the first `n` stretches report.
pub open spec fn reported(stretches: Seq<Stretch>, ratings: Seq<Vec<Rating>>, cfg: Config, n: int) -> Seq<FindingModel>
    decreases n,
{
    if n <= 0 {
        Seq::empty()
    } else {
        let so_far = reported(stretches, ratings, cfg, n - 1);
        let s = stretches[n - 1];
        let rs = ratings[n - 1]@;
        match strongest(s.candidates@, rs, cfg, s.candidates@.len() as int) {
            Some(b) => so_far.push(finding_of(s.place, s.candidates@[b], rs[b])),
            None => so_far,
        }
    }
}

/// What the first `n` stretches do not report.
pub open spec fn unreported(stretches: Seq<Stretch>, ratings: Seq<Vec<Rating>>, cfg: Config, n: int) -> Seq<Rejection>
    decreases n,
{
    if n <= 0 {
        Seq::empty()
    } else {
        let s = stretches[n - 1];
        unreported(stretches, ratings, cfg, n - 1) + dropped(
            s.place,
            s.candidates@,
            ratings[n - 1]@,
            cfg,
            s.candidates@.len() as int,
        )
    }
}

/// The finding that an address is.
pub open spec fn email_of(place: Place) -> FindingModel {
    FindingModel {
        entity: EntityKind::Email,
        source: place.source.span,
        normalized: place.normalized,
        certainty: Certainty::Probable,
        score: Score { key: EMAIL_SCORE },
        rule: "email.structural",
        checksum: ChecksumResult::NotApplicable("이메일에는 검증식이 없다"),
        context_hits: Seq::empty(),
        normalizations: place.source.rules@,
        cost: place.source.cost,
        snapped: place.source.snapped,
    }
}

/// All addresses as findings.
pub open spec fn all_emails(places: Seq<Place>) -> Seq<FindingModel> {
    places.map_values(|p: Place| email_of(p))
}

/// The addresses that are reported: all of them, unless an address scores too little.
pub open spec fn emails_reported(places: Seq<Place>, cfg: Config) -> Seq<FindingModel> {
    if EMAIL_SCORE < cfg.min_score.key {
        Seq::empty()
    } else {
        all_emails(places)
    }
}

/// The rejection that an address becomes where it scores too little.
pub open spec fn weak_email(place: Place) -> Rejection {
    Rejection {
        entity: EntityKind::Email,
        source: place.source.span,
        reason: RejectReason::BelowThreshold,
        score: Score { key: EMAIL_SCORE },
    }
}

/// The addresses that are not reported.
pub open spec fn emails_unreported(places: Seq<Place>, cfg: Config) -> Seq<Rejection> {
    if EMAIL_SCORE < cfg.min_score.key {
        places.map_values(|p: Place| weak_email(p))
    } else {
        Seq::empty()
    }
}

/// Everything that stands on its own: the addresses, then what the stretches report.
pub open spec fn standing(scan: Scan, ratings: Seq<Vec<Rating>>, cfg: Config) -> Seq<FindingModel> {
    emails_reported(scan.emails@, cfg) + reported(scan.stretches@, ratings, cfg, scan.stretches@.len() as int)
}

/// Everything that does not stand on its own: addresses, then candidates of the stretches.
pub open spec fn falling(scan: Scan, ratings: Seq<Vec<Rating>>, cfg: Config) -> Seq<Rejection> {
    emails_unreported(scan.emails@, cfg) + unreported(scan.stretches@, ratings, cfg, scan.stretches@.len() as int)
}

/// The two sources have a byte in common.
pub open spec fn overlap(a: FindingModel, b: FindingModel) -> bool {
    a.source.byte.start < b.source.byte.end && b.source.byte.start < a.source.byte.end
}

/// The number of bytes that a finding covers.
pub open spec fn breadth(a: FindingModel) -> int {
    a.source.byte.end - a.source.byte.start
}

/// Finding `j` outranks finding `i`: it is wider, or scored more, or came first.
pub open spec fn outranks(fs: Seq<FindingModel>, j: int, i: int) -> bool {
    ||| breadth(fs[j]) > breadth(fs[i])
    ||| breadth(fs[j]) == breadth(fs[i]) && fs[j].score.key > fs[i].score.key
    ||| breadth(fs[j]) == breadth(fs[i]) && fs[j].score.key == fs[i].score.key && j < i
}

/// No finding that prevails overlaps finding `i` and outranks it.
///
/// What does not prevail itself takes nothing away from others.
pub open spec fn prevails(fs: Seq<FindingModel>, i: int) -> bool
    decreases u32::MAX - breadth(fs[i]), u32::MAX - fs[i].score.key, i,
{
    forall|j: int|
        0 <= j < fs.len() && #[trigger] overlap(fs[j], fs[i]) && outranks(fs, j, i) ==> !prevails(fs, j)
}

/// The findings among the first `n` that prevail.
pub open spec fn prevailing(fs: Seq<FindingModel>, n: int) -> Seq<FindingModel>
    decreases n,
{
    if n <= 0 {
        Seq::empty()
    } else if prevails(fs, n - 1) {
        prevailing(fs, n - 1).push(fs[n - 1])
    } else {
        prevailing(fs, n - 1)
    }
}

/// The findings among the first `n` that do not prevail, as rejections.
pub open spec fn outdone(fs: Seq<FindingModel>, n: int) -> Seq<Rejection>
    decreases n,
{
    if n <= 0 {
        Seq::empty()
    } else if prevails(fs, n - 1) {
        outdone(fs, n - 1)
    } else {
        outdone(fs, n - 1).push(
            Rejection {
                entity: fs[n - 1].entity,
                source: fs[n - 1].source,
                reason: RejectReason::Outranked,
                score: fs[n - 1].score,
            },
        )
    }
}

/// What is reported of a scan, in the order of the source.
pub open spec fn findings_of(scan: Scan, ratings: Seq<Vec<Rating>>, cfg: Config) -> Seq<FindingModel> {
    let fs = standing(scan, ratings, cfg);
    in_order(prevailing(fs, fs.len() as int), |f: FindingModel| place_at(f.source))
}

/// What is not reported of a scan, in the order of the source.
pub open spec fn rejections_of(scan: Scan, ratings: Seq<Vec<Rating>>, cfg: Config) -> Seq<Rejection> {
    let fs = standing(scan, ratings, cfg);
    in_order(
        falling(scan, ratings, cfg) + outdone(fs, fs.len() as int),
        |r: Rejection| r.at(),
    )
}

/// Why a candidate is not reported, as far as it is judged on its own.
pub fn reject_reason(c: &Candidate, r: &Rating, cfg: &Config) -> (reason: Option<RejectReason>)
    ensures
        reason == reason_for(*c, *r, *cfg),
{
    if c.needs_context && r.context.key < cfg.min_context.key {
        Some(RejectReason::NoContext)
    } else if !c.checksum.passed() && r.against.key >= cfg.min_veto.key && r.against.key > r.context.key {
        Some(RejectReason::BusinessContext)
    } else if r.score.key < cfg.min_score.key {
        if c.checksum.failed() {
            Some(RejectReason::ChecksumFailed)
        } else {
            Some(RejectReason::BelowThreshold)
        }
    } else {
        None
    }
}

/// How certain a candidate is.
pub fn certainty(c: &Candidate, r: &Rating) -> (level: Certainty)
    ensures
        level == certainty_of(*c, *r),
        level.rank() <= c.ceiling.rank(),
{
    if c.checksum.passed() {
        Certainty::Certain.capped(c.ceiling)
    } else if r.context.key > ZERO || c.ceiling != Certainty::Certain {
        Certainty::Probable.capped(c.ceiling)
    } else {
        Certainty::Possible
    }
}

fn copy_hits(hits: &Vec<ContextHit>) -> (r: Vec<ContextHit>)
    ensures
        r@ == hits@,
{
    let mut out: Vec<ContextHit> = Vec::new();
    let mut i: usize = 0;
    while i < hits.len()
        invariant
            i <= hits@.len(),
            out@ =~= hits@.take(i as int),
        decreases hits@.len() - i,
    {
        out.push(hits[i]);
        i += 1;
    }
    assert(out@ =~= hits@);
    out
}

fn make_finding(place: &Place, c: &Candidate, r: &Rating) -> (f: Finding)
    ensures
        f@ == finding_of(*place, *c, *r),
{
    Finding {
        entity: c.entity,
        source: place.source.span.clone(),
        normalized: place.normalized.clone(),
        certainty: certainty(c, r),
        score: r.score,
        evidence: Evidence {
            rule: c.rule,
            checksum: c.checksum,
            context_hits: copy_hits(&r.hits),
            normalizations: copy_rules(&place.source.rules),
            cost: place.source.cost,
            snapped: place.source.snapped,
        },
    }
}

fn make_rejection(place: &Place, c: &Candidate, r: &Rating, reason: RejectReason) -> (x: Rejection)
    ensures
        x == rejection_of(*place, *c, *r, reason),
{
    Rejection { entity: c.entity, source: place.source.span.clone(), reason, score: r.score }
}

/// Where the strongest candidate stands, it is one of those looked at.
pub proof fn lemma_strongest(cs: Seq<Candidate>, rs: Seq<Rating>, cfg: Config, n: int)
    requires
        0 <= n <= cs.len(),
        cs.len() == rs.len(),
    ensures
        strongest(cs, rs, cfg, n) matches Some(b) ==> 0 <= b < n && reason_for(cs[b], rs[b], cfg) is None && forall|k: int|
            0 <= k < n && reason_for(#[trigger] cs[k], rs[k], cfg) is None ==> rs[k].score.key <= rs[b].score.key,
        strongest(cs, rs, cfg, n) is None ==> forall|k: int|
            0 <= k < n ==> reason_for(#[trigger] cs[k], rs[k], cfg) is Some,
    decreases n,
{
    if n > 0 {
        lemma_strongest(cs, rs, cfg, n - 1);
    }
}

/// Judges the candidates of one stretch: the place of the strongest, and the rejections.
fn judge(stretch: &Stretch, ratings: &Vec<Rating>, cfg: &Config, rejections: &mut Vec<Rejection>) -> (best: Option<usize>)
    requires
        ratings@.len() == stretch.candidates@.len(),
    ensures
        match best {
            Some(b) => b < stretch.candidates@.len() && strongest(
                stretch.candidates@,
                ratings@,
                *cfg,
                stretch.candidates@.len() as int,
            ) == Some(b as int),
            None => strongest(stretch.candidates@, ratings@, *cfg, stretch.candidates@.len() as int) is None,
        },
        final(rejections)@ == old(rejections)@ + dropped(
            stretch.place,
            stretch.candidates@,
            ratings@,
            *cfg,
            stretch.candidates@.len() as int,
        ),
{
    let mut best: Option<usize> = None;
    let mut i: usize = 0;
    let ghost cs = stretch.candidates@;
    let ghost rs = ratings@;
    let ghost start = rejections@;
    assert(start + dropped(stretch.place, cs, rs, *cfg, 0) =~= start);
    while i < stretch.candidates.len()
        invariant
            cs == stretch.candidates@,
            rs == ratings@,
            rs.len() == cs.len(),
            i <= cs.len(),
            match best {
                Some(b) => b < i && strongest(cs, rs, *cfg, i as int) == Some(b as int),
                None => strongest(cs, rs, *cfg, i as int) is None,
            },
            rejections@ == start + dropped(stretch.place, cs, rs, *cfg, i as int),
        decreases cs.len() - i,
    {
        let c = &stretch.candidates[i];
        let r = &ratings[i];
        let ghost so_far = dropped(stretch.place, cs, rs, *cfg, i as int);
        match reject_reason(c, r, cfg) {
            Some(reason) => {
                let x = make_rejection(&stretch.place, c, r, reason);
                assert((start + so_far).push(x) =~= start + so_far.push(x));
                rejections.push(x);
            },
            None => match best {
                Some(b) => {
                    if r.score.key > ratings[b].score.key {
                        let x = make_rejection(
                            &stretch.place,
                            &stretch.candidates[b],
                            &ratings[b],
                            RejectReason::Outranked,
                        );
                        assert((start + so_far).push(x) =~= start + so_far.push(x));
                        rejections.push(x);
                        best = Some(i);
                    } else {
                        let x = make_rejection(&stretch.place, c, r, RejectReason::Outranked);
                        assert((start + so_far).push(x) =~= start + so_far.push(x));
                        rejections.push(x);
                    }
                },
                None => {
                    best = Some(i);
                },
            },
        }
        i += 1;
    }
    best
}

fn make_email(place: &Place) -> (f: Finding)
    ensures
        f@ == email_of(*place),
{
    let f = Finding {
        entity: EntityKind::Email,
        source: place.source.span.clone(),
        normalized: place.normalized.clone(),
        certainty: Certainty::Probable,
        score: Score { key: EMAIL_SCORE },
        evidence: Evidence {
            rule: "email.structural",
            checksum: ChecksumResult::NotApplicable("이메일에는 검증식이 없다"),
            context_hits: Vec::new(),
            normalizations: copy_rules(&place.source.rules),
            cost: place.source.cost,
            snapped: place.source.snapped,
        },
    };
    f
}

fn make_weak_email(place: &Place) -> (x: Rejection)
    ensures
        x == weak_email(*place),
{
    Rejection {
        entity: EntityKind::Email,
        source: place.source.span.clone(),
        reason: RejectReason::BelowThreshold,
        score: Score { key: EMAIL_SCORE },
    }
}

/// Whether finding `b` at place `j` outranks finding `a` at place `i`.
fn does_outrank(b: &Finding, j: usize, a: &Finding, i: usize, Ghost(ms): Ghost<Seq<FindingModel>>) -> (r: bool)
    requires
        i < ms.len(),
        j < ms.len(),
        ms[i as int] == a@,
        ms[j as int] == b@,
    ensures
        r == outranks(ms, j as int, i as int),
{
    let wide_a: i64 = a.source.byte.end as i64 - a.source.byte.start as i64;
    let wide_b: i64 = b.source.byte.end as i64 - b.source.byte.start as i64;
    wide_b > wide_a || (wide_b == wide_a && (b.score.key > a.score.key || (b.score.key == a.score.key && j < i)))
}

/// Of the findings at the places listed, which are in order, the position in the list of the one
/// that outranks all others.
fn foremost(fs: &Vec<Finding>, open: &Vec<usize>) -> (r: usize)
    requires
        open@.len() > 0,
        forall|k: int| 0 <= k < open@.len() ==> (#[trigger] open@[k]) < fs@.len(),
        forall|k: int, m: int| 0 <= k < m < open@.len() ==> #[trigger] open@[k] < #[trigger] open@[m],
    ensures
        r < open@.len(),
        forall|k: int|
            0 <= k < open@.len() && k != r ==> outranks(models(fs@), open@[r as int] as int, (#[trigger] open@[k]) as int),
{
    let ghost ms = models(fs@);
    let mut best: usize = 0;
    let mut k: usize = 1;
    while k < open.len()
        invariant
            ms == models(fs@),
            best < k <= open@.len(),
            forall|k: int| 0 <= k < open@.len() ==> (#[trigger] open@[k]) < fs@.len(),
            forall|k: int, m: int| 0 <= k < m < open@.len() ==> #[trigger] open@[k] < #[trigger] open@[m],
            forall|m: int|
                0 <= m < k && m != best ==> outranks(ms, open@[best as int] as int, (#[trigger] open@[m]) as int),
        decreases open@.len() - k,
    {
        let i: usize = open[best];
        let j: usize = open[k];
        assert(ms[i as int] == fs@[i as int]@);
        assert(ms[j as int] == fs@[j as int]@);
        if does_outrank(&fs[j], j, &fs[i], i, Ghost(ms)) {
            best = k;
        }
        k += 1;
    }
    best
}

/// Whether one of the findings that are marked overlaps finding `i`.
fn meets_marked(fs: &Vec<Finding>, marks: &Vec<bool>, i: usize) -> (r: bool)
    requires
        i < fs@.len(),
        marks@.len() == fs@.len(),
    ensures
        r == exists|j: int|
            0 <= j < fs@.len() && marks@[j] && #[trigger] overlap(models(fs@)[j], models(fs@)[i as int]),
{
    let ghost ms = models(fs@);
    let a = &fs[i];
    let mut j: usize = 0;
    while j < fs.len()
        invariant
            i < fs@.len(),
            j <= fs@.len(),
            marks@.len() == fs@.len(),
            ms == models(fs@),
            *a == fs@[i as int],
            forall|k: int| 0 <= k < j && marks@[k] ==> !#[trigger] overlap(ms[k], ms[i as int]),
        decreases fs@.len() - j,
    {
        let b = &fs[j];
        assert(ms[j as int] == b@);
        assert(ms[i as int] == a@);
        if marks[j] && b.source.byte.start < a.source.byte.end && a.source.byte.start < b.source.byte.end {
            assert(overlap(ms[j as int], ms[i as int]));
            return true;
        }
        j += 1;
    }
    false
}

/// Marks the findings that prevail.
///
/// They are taken in the order of their ranks, and each is kept that overlaps none kept before.
fn mark_prevailing(fs: &Vec<Finding>) -> (r: Vec<bool>)
    ensures
        r@.len() == fs@.len(),
        forall|i: int| 0 <= i < fs@.len() ==> #[trigger] r@[i] == prevails(models(fs@), i),
{
    let ghost ms = models(fs@);
    let n: usize = fs.len();
    let mut marks: Vec<bool> = Vec::new();
    let mut open: Vec<usize> = Vec::new();
    let mut i: usize = 0;
    while i < n
        invariant
            i <= n,
            marks@.len() == i,
            open@.len() == i,
            forall|k: int| 0 <= k < i ==> !#[trigger] marks@[k],
            forall|k: int| 0 <= k < i ==> #[trigger] open@[k] == k,
        decreases n - i,
    {
        marks.push(false);
        open.push(i);
        i += 1;
    }
    proof {
        assert forall|k: int| 0 <= k < n implies !#[trigger] marks@[k] && open@.contains(k as usize) by {
            assert(open@[k] == k);
        }
        assert forall|k: int, m: int| 0 <= k < n && !open@.contains(k as usize) && 0 <= m < open@.len() implies #[trigger] outranks(
            ms,
            k,
            open@[m] as int,
        ) by {
            assert(!marks@[k]);
        }
    }
    while open.len() > 0
        invariant
            n == fs@.len(),
            ms == models(fs@),
            marks@.len() == n,
            forall|k: int| 0 <= k < open@.len() ==> (#[trigger] open@[k]) < n,
            forall|k: int, m: int| 0 <= k < m < open@.len() ==> #[trigger] open@[k] < #[trigger] open@[m],
            forall|k: int| 0 <= k < n && !open@.contains(k as usize) ==> #[trigger] marks@[k] == prevails(ms, k),
            forall|k: int| 0 <= k < n && open@.contains(k as usize) ==> !#[trigger] marks@[k],
            forall|k: int, m: int|
                0 <= k < n && !open@.contains(k as usize) && 0 <= m < open@.len() ==> #[trigger] outranks(
                    ms,
                    k,
                    open@[m] as int,
                ),
        decreases open@.len(),
    {
        let p: usize = foremost(fs, &open);
        let i: usize = open[p];
        let ghost before = open@;
        let ghost held = marks@;
        let clear: bool = !meets_marked(fs, &marks, i);
        proof {
            lemma_rank_settles(ms, before, held, p as int, clear);
            lemma_settled(before, p as int);
        }
        open.remove(p);
        marks.set(i, clear);
        proof {
            assert forall|k: int| 0 <= k < n && !open@.contains(k as usize) implies #[trigger] marks@[k] == prevails(ms, k) by {
                if k != i {
                    assert(!before.contains(k as usize));
                    assert(held[k] == marks@[k]);
                }
            }
            assert forall|k: int| 0 <= k < n && open@.contains(k as usize) implies !#[trigger] marks@[k] by {
                assert(before.contains(k as usize));
                assert(held[k] == marks@[k]);
            }
            assert forall|k: int, m: int|
                0 <= k < n && !open@.contains(k as usize) && 0 <= m < open@.len() implies #[trigger] outranks(
                ms,
                k,
                open@[m] as int,
            ) by {
                let o = if m < p {
                    m
                } else {
                    m + 1
                };
                assert(before[o] == open@[m]);
                if k != i {
                    assert(!before.contains(k as usize));
                    assert(outranks(ms, k, before[o] as int));
                }
            }
        }
    }
    marks
}

/// Taking one out of a list of different places takes out that one alone.
proof fn lemma_settled(open: Seq<usize>, p: int)
    requires
        0 <= p < open.len(),
        forall|k: int, m: int| 0 <= k < m < open.len() ==> #[trigger] open[k] < #[trigger] open[m],
    ensures
        !open.remove(p).contains(open[p]),
        forall|x: usize| x != open[p] ==> (open.remove(p).contains(x) <==> #[trigger] open.contains(x)),
{
    let rest = open.remove(p);
    assert forall|m: int| 0 <= m < rest.len() implies rest[m] != open[p] by {
        if m < p {
            assert(open[m] < open[p]);
        } else {
            assert(open[p] < open[m + 1]);
        }
    }
    assert forall|x: usize| x != open[p] implies (rest.contains(x) <==> #[trigger] open.contains(x)) by {
        if rest.contains(x) {
            let m = choose|m: int| 0 <= m < rest.len() && rest[m] == x;
            assert(open[if m < p {
                m
            } else {
                m + 1
            }] == x);
        }
        if open.contains(x) {
            let m = choose|m: int| 0 <= m < open.len() && open[m] == x;
            assert(rest[if m < p {
                m
            } else {
                m - 1
            }] == x);
        }
    }
}

/// Where all that outrank a finding are settled, those that are kept settle it too.
proof fn lemma_rank_settles(fs: Seq<FindingModel>, open: Seq<usize>, marks: Seq<bool>, p: int, clear: bool)
    requires
        0 <= p < open.len(),
        open[p] < fs.len(),
        marks.len() == fs.len(),
        forall|k: int| 0 <= k < open.len() && k != p ==> outranks(fs, open[p] as int, (#[trigger] open[k]) as int),
        forall|k: int| 0 <= k < fs.len() && !open.contains(k as usize) ==> #[trigger] marks[k] == prevails(fs, k),
        forall|k: int| 0 <= k < fs.len() && open.contains(k as usize) ==> !#[trigger] marks[k],
        forall|k: int, m: int|
            0 <= k < fs.len() && !open.contains(k as usize) && 0 <= m < open.len() ==> #[trigger] outranks(
                fs,
                k,
                open[m] as int,
            ),
        clear == !exists|j: int| 0 <= j < fs.len() && marks[j] && #[trigger] overlap(fs[j], fs[open[p] as int]),
        fs.len() <= usize::MAX,
    ensures
        clear == prevails(fs, open[p] as int),
{
    let i = open[p] as int;
    if clear {
        assert forall|j: int|
            0 <= j < fs.len() && #[trigger] overlap(fs[j], fs[i]) && outranks(fs, j, i) implies !prevails(fs, j) by {
            assert(!marks[j]);
            if open.contains(j as usize) {
                let k = choose|k: int| 0 <= k < open.len() && open[k] == j as usize;
                if k != p {
                    assert(outranks(fs, i, open[k] as int));
                }
            }
        }
    } else {
        let j = choose|j: int| 0 <= j < fs.len() && marks[j] && #[trigger] overlap(fs[j], fs[i]);
        assert(!open.contains(j as usize));
        assert(marks[j] == prevails(fs, j));
        assert(outranks(fs, j, open[p] as int));
    }
}

/// The addresses that are reported, and those that score too little.
fn sort_emails(places: &Vec<Place>, cfg: &Config) -> (r: (Vec<Finding>, Vec<Rejection>))
    ensures
        models(r.0@) == emails_reported(places@, *cfg),
        r.1@ == emails_unreported(places@, *cfg),
{
    let mut found: Vec<Finding> = Vec::new();
    let mut rejections: Vec<Rejection> = Vec::new();
    let mut i: usize = 0;
    proof {
        assert(models(found@) =~= emails_reported(places@.take(0), *cfg));
        assert(rejections@ =~= emails_unreported(places@.take(0), *cfg));
    }
    while i < places.len()
        invariant
            i <= places@.len(),
            models(found@) == emails_reported(places@.take(i as int), *cfg),
            rejections@ == emails_unreported(places@.take(i as int), *cfg),
        decreases places@.len() - i,
    {
        let ghost next = places@.take(i + 1);
        assert(next =~= places@.take(i as int).push(places@[i as int]));
        if EMAIL_SCORE < cfg.min_score.key {
            rejections.push(make_weak_email(&places[i]));
            assert(rejections@ =~= emails_unreported(next, *cfg));
        } else {
            let ghost before = found@;
            let f = make_email(&places[i]);
            found.push(f);
            proof {
                assert(models(found@) =~= models(before).push(f@));
                assert(models(found@) =~= emails_reported(next, *cfg));
            }
        }
        i += 1;
    }
    assert(places@.take(i as int) =~= places@);
    (found, rejections)
}

/// Adds what one stretch reports, and what it does not.
fn add_stretch(
    found: &mut Vec<Finding>,
    rejections: &mut Vec<Rejection>,
    s: &Stretch,
    ratings: &Vec<Rating>,
    cfg: &Config,
)
    requires
        ratings@.len() == s.candidates@.len(),
    ensures
        models(final(found)@) == match strongest(s.candidates@, ratings@, *cfg, s.candidates@.len() as int) {
            Some(b) => models(old(found)@).push(finding_of(s.place, s.candidates@[b], ratings@[b])),
            None => models(old(found)@),
        },
        final(rejections)@ == old(rejections)@ + dropped(
            s.place,
            s.candidates@,
            ratings@,
            *cfg,
            s.candidates@.len() as int,
        ),
{
    match judge(s, ratings, cfg, rejections) {
        Some(b) => {
            let f = make_finding(&s.place, &s.candidates[b], &ratings[b]);
            found.push(f);
            assert(models(found@) =~= models(old(found)@).push(f@));
        },
        None => {},
    }
}

/// Parts the findings into those that prevail and those that do not. The latter are added to the
/// rejections.
fn settle(found: &Vec<Finding>, rejections: &mut Vec<Rejection>) -> (kept: Vec<Finding>)
    ensures
        models(kept@) == prevailing(models(found@), found@.len() as int),
        final(rejections)@ == old(rejections)@ + outdone(models(found@), found@.len() as int),
{
    let ghost fs = models(found@);
    let ghost base = rejections@;
    let marks = mark_prevailing(found);
    let mut kept: Vec<Finding> = Vec::new();
    let mut i: usize = 0;
    proof {
        assert(models(kept@) =~= prevailing(fs, 0));
        assert(base + outdone(fs, 0) =~= base);
    }
    while i < found.len()
        invariant
            models(found@) == fs,
            i <= found@.len(),
            marks@.len() == found@.len(),
            forall|k: int| 0 <= k < found@.len() ==> #[trigger] marks@[k] == prevails(fs, k),
            models(kept@) == prevailing(fs, i as int),
            rejections@ == base + outdone(fs, i as int),
        decreases found@.len() - i,
    {
        let f = &found[i];
        assert(fs[i as int] == f@);
        if marks[i] {
            let ghost before = kept@;
            let c = f.copy();
            kept.push(c);
            assert(models(kept@) =~= models(before).push(c@));
        } else {
            let x = Rejection {
                entity: f.entity,
                source: f.source.clone(),
                reason: RejectReason::Outranked,
                score: f.score,
            };
            assert((base + outdone(fs, i as int)).push(x) =~= base + outdone(fs, i as int).push(x));
            rejections.push(x);
        }
        i += 1;
    }
    kept
}

/// Reports a scan whose candidates are rated.
pub fn report(scan: Scan, ratings: &Vec<Vec<Rating>>, cfg: &Config) -> (r: Report)
    requires
        rated(scan.stretches@, ratings@),
    ensures
        models(r.findings@) == findings_of(scan, ratings@, *cfg),
        r.rejections@ == rejections_of(scan, ratings@, *cfg),
        r.normalized_text@ == scan.normalized_text@,
{
    let (mut found, mut rejections) = sort_emails(&scan.emails, cfg);
    let ghost head = models(found@);
    let ghost weak = rejections@;
    let mut i: usize = 0;
    proof {
        assert(head + reported(scan.stretches@, ratings@, *cfg, 0) =~= head);
        assert(weak + unreported(scan.stretches@, ratings@, *cfg, 0) =~= weak);
    }
    while i < scan.stretches.len()
        invariant
            rated(scan.stretches@, ratings@),
            i <= scan.stretches@.len(),
            models(found@) == head + reported(scan.stretches@, ratings@, *cfg, i as int),
            rejections@ == weak + unreported(scan.stretches@, ratings@, *cfg, i as int),
        decreases scan.stretches@.len() - i,
    {
        let s = &scan.stretches[i];
        assert(ratings@[i as int]@.len() == s.candidates@.len());
        let ghost bad = unreported(scan.stretches@, ratings@, *cfg, i as int);
        add_stretch(&mut found, &mut rejections, s, &ratings[i], cfg);
        proof {
            let more = dropped(s.place, s.candidates@, ratings@[i as int]@, *cfg, s.candidates@.len() as int);
            assert((weak + bad) + more =~= weak + (bad + more));
            assert(models(found@) =~= head + reported(scan.stretches@, ratings@, *cfg, i + 1));
        }
        i += 1;
    }
    let kept = settle(&found, &mut rejections);
    proof {
        assert(found@.len() == models(found@).len());
        lemma_in_order_map(
            kept@,
            |f: Finding| f.at(),
            |f: Finding| f@,
            |m: FindingModel| place_at(m.source),
        );
    }
    Report {
        findings: ordered(kept),
        rejections: ordered(rejections),
        normalized_text: scan.normalized_text,
    }
}

} // verus!
