//! What a scan collects of a text.

use vstd::prelude::*;
use crate::detect::context::{hits_of, EXCLUDE, PASSPORT};
use crate::detect::entity::{candidates_of, Certainty, EntityKind};
use crate::detect::scan::{passport_claims, places_of, run_claims, Scan, Stretch};
use crate::detect::scan_laws::{
    holds_address, is_lone_passport, is_longest_run, law_addresses_look_like_addresses,
    law_exactly_lone_passport_numbers_are_found, law_runs_are_the_longest_ones,
};
use crate::detect::scanner::{emails_from, passports_from, runs_from};
use crate::span::steps::{dst_of, src_of, Step};

verus! {

broadcast use crate::text::lemma_text_char_range;

/// The places of a run: a digit where one can be seen, and nothing where one is hidden.
pub open spec fn reads_places(p: Seq<Option<u8>>, t: Seq<char>, a: int, e: int) -> bool {
    &&& p.len() == e - a
    &&& forall|i: int| #![trigger p[i]]
        0 <= i < e - a ==> match p[i] {
            Some(d) => d < 10 && t[a + i] as int == '0' as int + d,
            None => !('0' <= t[a + i] <= '9'),
        }
}

/// A stretch stands at the characters from `a` up to `e` of the normalized text, and leads back to
/// the source.
pub open spec fn stands_between(s: Stretch, steps: Seq<Step>, a: int, e: int) -> bool {
    &&& s.place.normalized.char.start == a
    &&& s.place.normalized.char.end == e
    &&& s.place.normalized.within(dst_of(steps))
    &&& s.place.source.traces(steps, a, e)
    &&& s.place.source.span.within(src_of(steps))
}

/// The stretch holds, for each candidate, the words for it, and the words against all of them, in
/// the window around it.
pub open spec fn holds_its_words(s: Stretch, t: Seq<char>, window: int) -> bool {
    let a = s.place.normalized.char.start as int;
    let e = s.place.normalized.char.end as int;
    &&& s.favour@.len() == s.candidates@.len()
    &&& forall|j: int|
        0 <= j < s.candidates@.len() ==> (#[trigger] s.favour@[j])@ == hits_of(
            t,
            a,
            e,
            window,
            s.candidates@[j].cues.cue_list(),
        )
    &&& s.against@ == hits_of(t, a, e, window, EXCLUDE.cue_list())
}

/// The stretch is the run of digits from `a` up to `e`, with all that those digits may be.
pub open spec fn is_run_of(s: Stretch, steps: Seq<Step>, a: int, e: int) -> bool {
    &&& stands_between(s, steps, a, e)
    &&& exists|p: Seq<Option<u8>>| #[trigger] reads_places(p, dst_of(steps), a, e) && s.candidates@ == candidates_of(p)
}

/// The stretch is the passport number from `a` up to `e`. Its form alone is worth a tenth, and
/// counts only next to words that speak for it.
pub open spec fn is_passport_of(s: Stretch, steps: Seq<Step>, a: int, e: int) -> bool {
    &&& stands_between(s, steps, a, e)
    &&& s.candidates@.len() == 1
    &&& s.candidates@[0].entity == EntityKind::Passport
    &&& s.candidates@[0].ceiling == Certainty::Probable
    &&& s.candidates@[0].cues == PASSPORT
    &&& s.candidates@[0].base == 1
    &&& s.candidates@[0].needs_context
    &&& s.candidates@[0].checksum is NotApplicable
}

proof fn lemma_places(t: Seq<char>, a: int, e: int)
    requires
        0 <= a <= e <= t.len(),
    ensures
        reads_places(places_of(t, a, e), t, a, e),
{
    let p = places_of(t, a, e);
    assert forall|i: int| #![trigger p[i]] 0 <= i < e - a implies match p[i] {
        Some(d) => d < 10 && t[a + i] as int == '0' as int + d,
        None => !('0' <= t[a + i] <= '9'),
    } by {
        assert(t[a + i] == t[a + i]);
    }
}

/// Every longest run of digits and every passport number of the normalized text is collected, with
/// everything that it may be.
pub proof fn law_every_run_is_collected(scan: Scan, steps: Seq<Step>, window: int, a: int, e: int)
    requires
        scan.of(steps, window),
    ensures
        is_longest_run(dst_of(steps), a, e) ==> exists|k: int|
            0 <= k < scan.stretches@.len() && is_run_of(#[trigger] scan.stretches@[k], steps, a, e),
        is_lone_passport(dst_of(steps), a, e) ==> exists|k: int|
            0 <= k < scan.stretches@.len() && is_passport_of(#[trigger] scan.stretches@[k], steps, a, e),
{
    let t = dst_of(steps);
    let pc = passport_claims(t);
    let rc = run_claims(t);
    let claims = pc + rc;
    if is_longest_run(t, a, e) {
        law_runs_are_the_longest_ones(t);
        let found = runs_from(t, 0);
        assert(found.contains((a, e)));
        let i = choose|i: int| 0 <= i < found.len() && found[i] == (a, e);
        let k = pc.len() + i;
        assert(claims[k] == rc[i]);
        assert(scan.stretches@[k].states(steps, claims[k], window));
        lemma_places(t, a, e);
        assert(reads_places(places_of(t, a, e), t, a, e) && scan.stretches@[k].candidates@ == candidates_of(
            places_of(t, a, e),
        ));
        assert(is_run_of(scan.stretches@[k], steps, a, e));
    }
    if is_lone_passport(t, a, e) {
        law_exactly_lone_passport_numbers_are_found(t);
        let found = passports_from(t, 0);
        assert(found.contains((a, e)));
        let i = choose|i: int| 0 <= i < found.len() && found[i] == (a, e);
        assert(claims[i] == pc[i]);
        assert(scan.stretches@[i].states(steps, claims[i], window));
        assert(is_passport_of(scan.stretches@[i], steps, a, e));
    }
}

/// Whatever is collected is a longest run of digits, a passport number or an address of the
/// normalized text, with the words around it.
pub proof fn law_nothing_else_is_collected(scan: Scan, steps: Seq<Step>, window: int, k: int)
    requires
        scan.of(steps, window),
    ensures
        0 <= k < scan.stretches@.len() ==> {
            let s = scan.stretches@[k];
            let a = s.place.normalized.char.start as int;
            let e = s.place.normalized.char.end as int;
            &&& holds_its_words(s, dst_of(steps), window)
            &&& {
                ||| is_longest_run(dst_of(steps), a, e) && is_run_of(s, steps, a, e)
                ||| is_lone_passport(dst_of(steps), a, e) && is_passport_of(s, steps, a, e)
            }
        },
        0 <= k < scan.emails@.len() ==> {
            let s = scan.emails@[k];
            holds_address(dst_of(steps), s.normalized.char.start as int, s.normalized.char.end as int)
        },
        scan.normalized_text@ == dst_of(steps),
{
    let t = dst_of(steps);
    let pc = passport_claims(t);
    let rc = run_claims(t);
    let claims = pc + rc;
    law_runs_are_the_longest_ones(t);
    law_exactly_lone_passport_numbers_are_found(t);
    if 0 <= k < scan.stretches@.len() {
        assert(scan.stretches@[k].states(steps, claims[k], window));
        if k < pc.len() {
            assert(claims[k] == pc[k]);
            let f = passports_from(t, 0)[k];
            assert(is_lone_passport(t, f.0, f.1));
        } else {
            assert(claims[k] == rc[k - pc.len()]);
            let f = runs_from(t, 0)[k - pc.len()];
            assert(is_longest_run(t, f.0, f.1));
            lemma_places(t, f.0, f.1);
            assert(reads_places(places_of(t, f.0, f.1), t, f.0, f.1) && scan.stretches@[k].candidates@ == candidates_of(
                places_of(t, f.0, f.1),
            ));
        }
    }
    if 0 <= k < scan.emails@.len() {
        let found = emails_from(t, 0);
        assert(scan.emails@[k].holds(steps, found[k].0, found[k].1));
        law_addresses_look_like_addresses(t, k);
    }
}

} // verus!
