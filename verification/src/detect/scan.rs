//! Collecting everything in a text that may be personal data, with all that speaks for it and
//! against it.

use vstd::prelude::*;
use crate::detect::checksum::ChecksumResult;
use crate::detect::context::{find_in, hits_of, CueHit, EXCLUDE, PASSPORT};
use crate::detect::entity::{
    candidates_in, candidates_of, decimal_places, Candidate, Certainty, EntityKind,
};
use crate::detect::scanner::{
    digit_runs, emails, emails_from, passports, passports_from, runs_from, spans_are,
};
use crate::error::Result;
use crate::normalize::{fits, lemma_pipeline, normalize, pipeline, NormalizeConfig};
use crate::span::steps::{dst_of, src_of, Step};
use crate::span::{SourceSpan, Span, SpanMap};
use crate::text::{digit_like, is_digit, lemma_utf8_len_bounds, to_chars};

verus! {

broadcast use crate::text::lemma_text_char_range;

/// A stretch of the normalized text and where it came from.
#[derive(Debug, Clone, PartialEq, Eq)]
pub struct Place {
    /// The stretch of the normalized text.
    pub normalized: Span,
    /// Its source.
    pub source: SourceSpan,
}

impl Place {
    /// The place holds the output characters from `from` up to `to`.
    pub open spec fn holds(self, steps: Seq<Step>, from: int, to: int) -> bool {
        &&& self.normalized.within(dst_of(steps))
        &&& self.normalized.char.start == from
        &&& self.normalized.char.end == to
        &&& self.source.traces(steps, from, to)
        &&& self.source.span.within(src_of(steps))
    }
}

/// A place that may be something.
#[derive(Debug, Clone)]
pub struct Stretch {
    /// The place.
    pub place: Place,
    /// What it may be.
    pub candidates: Vec<Candidate>,
    /// For each candidate, the words nearby that speak for it.
    pub favour: Vec<Vec<CueHit>>,
    /// The words nearby that speak against all of them.
    pub against: Vec<CueHit>,
}

/// What a stretch of text may be.
pub struct Claim {
    pub from: int,
    pub to: int,
    pub candidates: Seq<Candidate>,
}

impl Stretch {
    /// The stretch states a claim, with the words in a window of `window` characters around it.
    pub open spec fn states(self, steps: Seq<Step>, claim: Claim, window: int) -> bool {
        let t = dst_of(steps);
        &&& self.place.holds(steps, claim.from, claim.to)
        &&& self.candidates@ == claim.candidates
        &&& self.favour@.len() == self.candidates@.len()
        &&& forall|k: int|
            0 <= k < self.candidates@.len() ==> (#[trigger] self.favour@[k])@ == hits_of(
                t,
                claim.from,
                claim.to,
                window,
                claim.candidates[k].cues.cue_list(),
            )
        &&& self.against@ == hits_of(t, claim.from, claim.to, window, EXCLUDE.cue_list())
    }
}

/// Everything found in a text.
#[derive(Debug, Clone)]
pub struct Scan {
    /// The normalized text.
    pub normalized_text: String,
    /// The addresses.
    pub emails: Vec<Place>,
    /// The passport numbers, then the runs of digits.
    pub stretches: Vec<Stretch>,
}

/// The digits between two positions. Other characters hide one.
pub open spec fn places_of(t: Seq<char>, from: int, to: int) -> Seq<Option<u8>> {
    Seq::new(
        (to - from) as nat,
        |i: int|
            if is_digit(t[from + i]) {
                Some((t[from + i] as int - 48) as u8)
            } else {
                None
            },
    )
}

/// What the form of a passport number may be.
pub open spec fn passport_candidate() -> Candidate {
    Candidate {
        entity: EntityKind::Passport,
        rule: "passport.shape",
        checksum: ChecksumResult::NotApplicable("여권번호에는 공개된 검증식이 없다"),
        ceiling: Certainty::Probable,
        cues: PASSPORT,
        base: 1,
        needs_context: true,
    }
}

/// What the passport numbers of a text may be.
pub open spec fn passport_claims(t: Seq<char>) -> Seq<Claim> {
    let found = passports_from(t, 0);
    Seq::new(
        found.len(),
        |i: int| Claim { from: found[i].0, to: found[i].1, candidates: seq![passport_candidate()] },
    )
}

/// What the runs of digits of a text may be.
pub open spec fn run_claims(t: Seq<char>) -> Seq<Claim> {
    let found = runs_from(t, 0);
    Seq::new(
        found.len(),
        |i: int|
            Claim {
                from: found[i].0,
                to: found[i].1,
                candidates: candidates_of(places_of(t, found[i].0, found[i].1)),
            },
    )
}

/// The stretches state the claims, in order.
pub open spec fn all_stated(stretches: Seq<Stretch>, steps: Seq<Step>, claims: Seq<Claim>, window: int) -> bool {
    &&& stretches.len() == claims.len()
    &&& forall|k: int| 0 <= k < stretches.len() ==> (#[trigger] stretches[k]).states(steps, claims[k], window)
}

impl Scan {
    /// The scan holds all that the normalized text gives.
    pub open spec fn of(self, steps: Seq<Step>, window: int) -> bool {
        let t = dst_of(steps);
        let found = emails_from(t, 0);
        &&& self.normalized_text@ == t
        &&& self.emails@.len() == found.len()
        &&& forall|k: int|
            0 <= k < self.emails@.len() ==> (#[trigger] self.emails@[k]).holds(steps, found[k].0, found[k].1)
        &&& all_stated(self.stretches@, steps, passport_claims(t) + run_claims(t), window)
    }
}

/// The place of a stretch.
fn place(map: &SpanMap, span: &Span, Ghost(steps): Ghost<Seq<Step>>) -> (r: Place)
    requires
        map.of(steps),
        span.within(dst_of(steps)),
    ensures
        r.holds(steps, span.char.start as int, span.char.end as int),
{
    Place { normalized: span.clone(), source: map.to_source(span) }
}

/// The digits between two positions. Other characters hide one.
fn read_places(chars: &[char], from: usize, to: usize) -> (r: Vec<Option<u8>>)
    requires
        from <= to <= chars@.len(),
    ensures
        r@ == places_of(chars@, from as int, to as int),
        decimal_places(r@),
{
    let mut out: Vec<Option<u8>> = Vec::new();
    let mut i: usize = from;
    while i < to
        invariant
            from <= i <= to <= chars@.len(),
            out@.len() == i - from,
            forall|k: int| 0 <= k < i - from ==> #[trigger] out@[k] == places_of(chars@, from as int, to as int)[k],
            decimal_places(out@),
        decreases to - i,
    {
        let c: char = chars[i];
        if digit_like(c) {
            out.push(Some((c as u32 - 48) as u8));
        } else {
            out.push(None);
        }
        i += 1;
    }
    assert(out@ =~= places_of(chars@, from as int, to as int));
    out
}

/// One stretch with the words around it.
fn stretch(
    map: &SpanMap,
    chars: &[char],
    span: &Span,
    candidates: Vec<Candidate>,
    window: u32,
    Ghost(steps): Ghost<Seq<Step>>,
) -> (r: Stretch)
    requires
        map.of(steps),
        chars@ == dst_of(steps),
        chars@.len() <= u32::MAX,
        span.within(dst_of(steps)),
    ensures
        r.states(
            steps,
            (Claim { from: span.char.start as int, to: span.char.end as int, candidates: candidates@ }),
            window as int,
        ),
{
    let a: usize = span.char.start as usize;
    let e: usize = span.char.end as usize;
    let mut favour: Vec<Vec<CueHit>> = Vec::new();
    let mut k: usize = 0;
    while k < candidates.len()
        invariant
            a <= e <= chars@.len(),
            chars@.len() <= u32::MAX,
            k <= candidates@.len(),
            favour@.len() == k,
            forall|i: int|
                0 <= i < k ==> (#[trigger] favour@[i])@ == hits_of(
                    chars@,
                    a as int,
                    e as int,
                    window as int,
                    candidates@[i].cues.cue_list(),
                ),
        decreases candidates@.len() - k,
    {
        favour.push(find_in(chars, a, e, window, candidates[k].cues.cues().as_slice()));
        k += 1;
    }
    let against = find_in(chars, a, e, window, EXCLUDE.cues().as_slice());
    Stretch { place: place(map, span, Ghost(steps)), candidates, favour, against }
}

/// Normalizes a text and collects everything in it that may be personal data.
pub fn scan(text: &str, cfg: &NormalizeConfig, window: u32) -> (r: Result<Scan>)
    requires
        fits(text@, *cfg),
    ensures
        r is Ok,
        r->Ok_0.of(pipeline(text@, *cfg), window as int),
{
    let ghost steps = pipeline(text@, *cfg);
    let ghost t = dst_of(steps);
    let normalized = match normalize(text, cfg) {
        Ok(n) => n,
        Err(e) => {
            return Err(e);
        },
    };
    proof {
        lemma_pipeline(text@, *cfg);
        lemma_utf8_len_bounds(t);
    }
    let normal: &str = normalized.text.as_str();
    let chars = to_chars(normal);
    let addresses = emails(normal);
    let mut places: Vec<Place> = Vec::new();
    let mut i: usize = 0;
    while i < addresses.len()
        invariant
            normalized.map.of(steps),
            t == dst_of(steps),
            spans_are(addresses@, t, emails_from(t, 0)),
            i <= addresses@.len(),
            places@.len() == i,
            forall|k: int|
                0 <= k < i ==> (#[trigger] places@[k]).holds(steps, emails_from(t, 0)[k].0, emails_from(t, 0)[k].1),
        decreases addresses@.len() - i,
    {
        assert(addresses@[i as int].within(t));
        places.push(place(&normalized.map, &addresses[i], Ghost(steps)));
        i += 1;
    }
    let mut stretches: Vec<Stretch> = Vec::new();
    let found = passports(normal);
    let ghost claims = passport_claims(t) + run_claims(t);
    let mut i: usize = 0;
    while i < found.len()
        invariant
            normalized.map.of(steps),
            t == dst_of(steps),
            chars@ == t,
            t.len() <= u32::MAX,
            spans_are(found@, t, passports_from(t, 0)),
            claims == passport_claims(t) + run_claims(t),
            i <= found@.len(),
            stretches@.len() == i,
            forall|k: int| 0 <= k < i ==> (#[trigger] stretches@[k]).states(steps, claims[k], window as int),
        decreases found@.len() - i,
    {
        assert(found@[i as int].within(t));
        let mut one: Vec<Candidate> = Vec::new();
        one.push(
            Candidate {
                entity: EntityKind::Passport,
                rule: "passport.shape",
                checksum: ChecksumResult::NotApplicable("여권번호에는 공개된 검증식이 없다"),
                ceiling: Certainty::Probable,
                cues: PASSPORT,
                base: 1,
                needs_context: true,
            },
        );
        assert(one@ =~= seq![passport_candidate()]);
        stretches.push(stretch(&normalized.map, chars.as_slice(), &found[i], one, window, Ghost(steps)));
        i += 1;
    }
    let runs = digit_runs(normal);
    let ghost head = passport_claims(t).len();
    let mut i: usize = 0;
    while i < runs.len()
        invariant
            normalized.map.of(steps),
            t == dst_of(steps),
            chars@ == t,
            t.len() <= u32::MAX,
            spans_are(runs@, t, runs_from(t, 0)),
            head == passport_claims(t).len(),
            claims == passport_claims(t) + run_claims(t),
            i <= runs@.len(),
            stretches@.len() == head + i,
            forall|k: int| 0 <= k < head + i ==> (#[trigger] stretches@[k]).states(steps, claims[k], window as int),
        decreases runs@.len() - i,
    {
        let run = &runs[i];
        assert(runs@[i as int].within(t));
        let places = read_places(chars.as_slice(), run.char.start as usize, run.char.end as usize);
        let candidates = candidates_in(places.as_slice());
        stretches.push(stretch(&normalized.map, chars.as_slice(), run, candidates, window, Ghost(steps)));
        i += 1;
    }
    Ok(Scan { normalized_text: normalized.text, emails: places, stretches })
}

} // verus!
