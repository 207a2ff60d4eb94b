//! Which forms make which candidates.

use vstd::prelude::*;
use crate::detect::check_laws::{
    are_digits, business_total, cycled_sum, doubled_sum, law_business_numbers_add_up_to_tens,
    law_card_numbers_add_up_to_tens, law_check_digit_of_foreigners, law_check_digit_of_koreans,
    law_gender_digits_count_in_pairs,
};
use crate::detect::checksum::is_date;
use crate::detect::context::{
    Dictionary, ACCOUNT, BIRTH_DATE, BUSINESS, CARD, DRIVER_LICENSE, FOREIGNER, PHONE, RESIDENT,
};
use crate::detect::entity::{
    account_candidate, birth_candidate, business_candidate, candidates_of, card_candidate,
    decimal_places, hidden, license_candidate, listed, phone_candidate, phone_form,
    law_only_checked_kinds_become_certain, resident_candidate, seen, shown, values, Candidate,
    Certainty, EntityKind,
};

verus! {

/// Some candidate is of the kind.
pub open spec fn offers(cs: Seq<Candidate>, kind: EntityKind) -> bool {
    exists|i: int| 0 <= i < cs.len() && (#[trigger] cs[i]).entity == kind
}

/// What is said of all candidates of a kind: how certain they can become, what their form is worth
/// in tenths, and which words speak for them.
pub open spec fn terms(kind: EntityKind) -> (Certainty, u8, Dictionary) {
    match kind {
        EntityKind::Resident => (Certainty::Certain, 6, RESIDENT),
        EntityKind::ForeignerRegistration => (Certainty::Certain, 6, FOREIGNER),
        EntityKind::BusinessRegistration => (Certainty::Certain, 4, BUSINESS),
        EntityKind::CreditCard => (Certainty::Certain, 4, CARD),
        EntityKind::Phone => (Certainty::Probable, 6, PHONE),
        EntityKind::DriverLicense => (Certainty::Probable, 2, DRIVER_LICENSE),
        EntityKind::BankAccount => (Certainty::Probable, 1, ACCOUNT),
        _ => (Certainty::Probable, 1, BIRTH_DATE),
    }
}

/// The number that the first `n` digits make.
pub open spec fn leading(d: Seq<u8>, n: int) -> int
    decreases n,
{
    if n <= 0 {
        0
    } else {
        leading(d, n - 1) * 10 + d[n - 1]
    }
}

/// The number that two digits from place `i` on make.
pub open spec fn pair(d: Seq<u8>, i: int) -> int {
    d[i] * 10 + d[i + 1]
}

/// A registration number: thirteen digits that begin with a date of birth. Of the seventh digit,
/// one to eight name the 1900s and the 2000s in turn, nine and zero the 1800s.
pub open spec fn looks_registered(d: Seq<u8>) -> bool {
    &&& d.len() == 13
    &&& d[6] < 10
    &&& is_date(
        (if 1 <= d[6] <= 8 {
            1900 + 100 * (((d[6] - 1) / 2) % 2)
        } else {
            1800
        }) + pair(d, 0),
        pair(d, 2),
        pair(d, 4),
    )
}

/// The codes that mobile numbers begin with: 010, 011 and 016 to 019.
pub open spec fn is_mobile_code(n: int) -> bool {
    n == 10 || n == 11 || 16 <= n <= 19
}

/// The dialling codes of the regions, and 070 for internet telephony.
pub open spec fn is_area_code(n: int) -> bool {
    31 <= n <= 33 || 41 <= n <= 44 || 51 <= n <= 55 || 61 <= n <= 64 || n == 70
}

/// A phone number: eleven digits with a mobile code, ten with one other than 010, nine or ten with
/// the code 02 of Seoul, ten or eleven with the code of a region, or eight that begin with 15, 16
/// or 18.
pub open spec fn looks_dialled(d: Seq<u8>) -> bool {
    let n = d.len();
    ||| n == 11 && is_mobile_code(leading(d, 3))
    ||| n == 10 && is_mobile_code(leading(d, 3)) && leading(d, 3) != 10
    ||| (n == 9 || n == 10) && leading(d, 2) == 2
    ||| (n == 10 || n == 11) && is_area_code(leading(d, 3))
    ||| n == 8 && (leading(d, 2) == 15 || leading(d, 2) == 16 || leading(d, 2) == 18)
}

/// A date of birth: six digits that are a date of the 1900s or of the 2000s, or eight that are a
/// date from 1800 to 2200.
pub open spec fn looks_born(d: Seq<u8>) -> bool {
    ||| d.len() == 6 && (is_date(1900 + leading(d, 2), pair(d, 2), pair(d, 4)) || is_date(
        2000 + leading(d, 2),
        pair(d, 2),
        pair(d, 4),
    ))
    ||| d.len() == 8 && 1800 <= leading(d, 4) <= 2200 && is_date(leading(d, 4), pair(d, 4), pair(d, 6))
}

proof fn lemma_leading(d: Seq<u8>)
    ensures
        leading(d, 2) == d[0] * 10 + d[1],
        leading(d, 3) == d[0] * 100 + d[1] * 10 + d[2],
        leading(d, 4) == d[0] * 1000 + d[1] * 100 + d[2] * 10 + d[3],
{
    reveal_with_fuel(leading, 5);
}

proof fn lemma_phone_form(d: Seq<u8>)
    requires
        are_digits(d),
    ensures
        phone_form(d) is Some <==> looks_dialled(d),
{
    lemma_leading(d);
    if d.len() >= 8 {
        assert(d[0] < 10 && d[1] < 10 && d[2] < 10);
    }
}

proof fn lemma_values(p: Seq<Option<u8>>)
    requires
        decimal_places(p),
    ensures
        values(p).len() == p.len(),
        are_digits(values(p)),
{
    let v = values(p);
    assert forall|i: int| 0 <= i < v.len() implies #[trigger] v[i] < 10 by {
        assert(p[i] matches Some(d) ==> d < 10);
    }
}

/// Where each candidate stands among all of them.
proof fn lemma_offered(p: Seq<Option<u8>>, kind: EntityKind)
    ensures
        offers(candidates_of(p), kind) <==> {
            ||| resident_candidate(p) is Some && resident_candidate(p).unwrap().entity == kind
            ||| business_candidate(p) is Some && business_candidate(p).unwrap().entity == kind
            ||| card_candidate(p) is Some && card_candidate(p).unwrap().entity == kind
            ||| phone_candidate(p) is Some && phone_candidate(p).unwrap().entity == kind
            ||| license_candidate(p) is Some && license_candidate(p).unwrap().entity == kind
            ||| account_candidate(p) is Some && account_candidate(p).unwrap().entity == kind
            ||| birth_candidate(p) is Some && birth_candidate(p).unwrap().entity == kind
        },
{
    let a = listed(resident_candidate(p));
    let b = listed(business_candidate(p));
    let c = listed(card_candidate(p));
    let d = listed(phone_candidate(p));
    let e = listed(license_candidate(p));
    let f = listed(account_candidate(p));
    let g = listed(birth_candidate(p));
    lemma_offers_add(a, b, kind);
    lemma_offers_add(a + b, c, kind);
    lemma_offers_add(a + b + c, d, kind);
    lemma_offers_add(a + b + c + d, e, kind);
    lemma_offers_add(a + b + c + d + e, f, kind);
    lemma_offers_add(a + b + c + d + e + f, g, kind);
    lemma_offers_one(resident_candidate(p), kind);
    lemma_offers_one(business_candidate(p), kind);
    lemma_offers_one(card_candidate(p), kind);
    lemma_offers_one(phone_candidate(p), kind);
    lemma_offers_one(license_candidate(p), kind);
    lemma_offers_one(account_candidate(p), kind);
    lemma_offers_one(birth_candidate(p), kind);
}

proof fn lemma_offers_add(x: Seq<Candidate>, y: Seq<Candidate>, kind: EntityKind)
    ensures
        offers(x + y, kind) <==> offers(x, kind) || offers(y, kind),
{
    if offers(x, kind) {
        let i = choose|i: int| 0 <= i < x.len() && (#[trigger] x[i]).entity == kind;
        assert((x + y)[i].entity == kind);
    }
    if offers(y, kind) {
        let i = choose|i: int| 0 <= i < y.len() && (#[trigger] y[i]).entity == kind;
        assert((x + y)[x.len() + i].entity == kind);
    }
    if offers(x + y, kind) {
        let i = choose|i: int| 0 <= i < (x + y).len() && (#[trigger] (x + y)[i]).entity == kind;
        if i < x.len() {
            assert(x[i].entity == kind);
        } else {
            assert(y[i - x.len()].entity == kind);
        }
    }
}

proof fn lemma_offers_one(c: Option<Candidate>, kind: EntityKind)
    ensures
        offers(listed(c), kind) <==> c is Some && c.unwrap().entity == kind,
{
    if c is Some && c.unwrap().entity == kind {
        assert(listed(c)[0].entity == kind);
    }
}

/// Which kinds digits, some of them perhaps hidden, may be. What decides must be seen: of a
/// registration number the first seven digits, of a phone number three, of a licence two, and of a
/// date of birth all.
pub proof fn law_the_form_decides_the_kinds(p: Seq<Option<u8>>)
    requires
        decimal_places(p),
    ensures
        ({
            let cs = candidates_of(p);
            let v = values(p);
            let registered = looks_registered(v) && shown(p, 7);
            &&& offers(cs, EntityKind::Resident) <==> registered && !(5 <= v[6] <= 8)
            &&& offers(cs, EntityKind::ForeignerRegistration) <==> registered && 5 <= v[6] <= 8
            &&& offers(cs, EntityKind::BusinessRegistration) <==> p.len() == 10
            &&& offers(cs, EntityKind::CreditCard) <==> 13 <= p.len() <= 19
            &&& offers(cs, EntityKind::Phone) <==> looks_dialled(v) && shown(p, 3)
            &&& offers(cs, EntityKind::DriverLicense) <==> p.len() == 12 && shown(p, 2) && (11 <= leading(v, 2) <= 26 || leading(
                v,
                2,
            ) == 28)
            &&& offers(cs, EntityKind::BankAccount) <==> 10 <= p.len() <= 14
            &&& offers(cs, EntityKind::BirthDate) <==> looks_born(v) && !hidden(p)
            &&& !offers(cs, EntityKind::Email)
            &&& !offers(cs, EntityKind::Passport)
        }),
{
    let v = values(p);
    lemma_values(p);
    lemma_leading(v);
    lemma_phone_form(v);
    lemma_offered(p, EntityKind::Resident);
    lemma_offered(p, EntityKind::ForeignerRegistration);
    lemma_offered(p, EntityKind::BusinessRegistration);
    lemma_offered(p, EntityKind::CreditCard);
    lemma_offered(p, EntityKind::Phone);
    lemma_offered(p, EntityKind::DriverLicense);
    lemma_offered(p, EntityKind::BankAccount);
    lemma_offered(p, EntityKind::BirthDate);
    lemma_offered(p, EntityKind::Email);
    lemma_offered(p, EntityKind::Passport);
    if p.len() == 13 {
        assert(v[6] < 10);
        law_gender_digits_count_in_pairs(v[6]);
    }
}

/// What each candidate says of itself: the terms of its kind, and whether it needs context. That is
/// always so for accounts, licences and dates of birth, and for the others if a digit is hidden.
pub proof fn law_candidates_say_what_their_kind_is_worth(p: Seq<Option<u8>>, i: int)
    requires
        0 <= i < candidates_of(p).len(),
    ensures
        ({
            let c = candidates_of(p)[i];
            &&& (c.ceiling, c.base, c.cues) == terms(c.entity)
            &&& c.needs_context <==> hidden(p) || c.entity == EntityKind::BankAccount || c.entity
                == EntityKind::DriverLicense || c.entity == EntityKind::BirthDate
        }),
{
    let cs = candidates_of(p);
    let c = cs[i];
    let a = listed(resident_candidate(p));
    let b = listed(business_candidate(p));
    let d = listed(card_candidate(p));
    let e = listed(phone_candidate(p));
    let f = listed(license_candidate(p));
    let g = listed(account_candidate(p));
    let h = listed(birth_candidate(p));
    assert(a.contains(c) || b.contains(c) || d.contains(c) || e.contains(c) || f.contains(c) || g.contains(c) || h.contains(
        c,
    )) by {
        let n1 = a.len();
        let n2 = n1 + b.len();
        let n3 = n2 + d.len();
        let n4 = n3 + e.len();
        let n5 = n4 + f.len();
        let n6 = n5 + g.len();
        if i < n1 {
            assert(a[i] == c);
        } else if i < n2 {
            assert(b[i - n1] == c);
        } else if i < n3 {
            assert(d[i - n2] == c);
        } else if i < n4 {
            assert(e[i - n3] == c);
        } else if i < n5 {
            assert(f[i - n4] == c);
        } else if i < n6 {
            assert(g[i - n5] == c);
        } else {
            assert(h[i - n6] == c);
        }
    }
    lemma_listed(resident_candidate(p), c);
    lemma_listed(business_candidate(p), c);
    lemma_listed(card_candidate(p), c);
    lemma_listed(phone_candidate(p), c);
    lemma_listed(license_candidate(p), c);
    lemma_listed(account_candidate(p), c);
    lemma_listed(birth_candidate(p), c);
}

proof fn lemma_listed(o: Option<Candidate>, c: Candidate)
    ensures
        listed(o).contains(c) ==> o == Some(c),
{
    if listed(o).contains(c) {
        let k = choose|k: int| 0 <= k < listed(o).len() && listed(o)[k] == c;
        assert(k == 0);
    }
}

/// What the check digit of a candidate says, if all digits can be seen: that of a registration
/// number by the sum with weights 2 to 9, that of a business number by the sum with weights 1, 3
/// and 7, that of a card by the sum with every second digit doubled. Nothing else has one.
pub proof fn law_check_digits_of_candidates(d: Seq<u8>, i: int)
    requires
        are_digits(d),
        0 <= i < candidates_of(seen(d)).len(),
    ensures
        ({
            let c = candidates_of(seen(d))[i];
            let lack = 11 - cycled_sum(d, 12) % 11;
            match c.entity {
                EntityKind::Resident => (c.checksum is Passed <==> d[12] == lack % 10) && !(c.checksum is NotApplicable),
                EntityKind::ForeignerRegistration => (c.checksum is Passed <==> d[12] == (lack + 2) % 10) && !(
                c.checksum is NotApplicable),
                EntityKind::BusinessRegistration => (c.checksum is Passed <==> (business_total(d, 9) + d[9]) % 10 == 0)
                    && !(c.checksum is NotApplicable),
                EntityKind::CreditCard => (c.checksum is Passed <==> doubled_sum(d, d.len() as int) % 10 == 0) && !(
                c.checksum is NotApplicable),
                _ => c.checksum is NotApplicable,
            }
        }),
{
    let p = seen(d);
    let v = values(p);
    assert(v =~= d);
    assert(!hidden(p));
    if d.len() == 13 {
        assert(d[6] < 10);
        law_gender_digits_count_in_pairs(d[6]);
        if 5 <= d[6] <= 8 {
            law_check_digit_of_foreigners(d);
        } else {
            law_check_digit_of_koreans(d);
        }
    }
    if d.len() == 10 {
        assert(d[9] < 10);
        law_business_numbers_add_up_to_tens(d, d[9] as int);
    }
    law_card_numbers_add_up_to_tens(d);
}

/// Every candidate names the form that fits: the length of the number and what it is a number of.
pub proof fn law_candidates_name_their_form(d: Seq<u8>)
    requires
        are_digits(d),
    ensures
        resident_candidate(seen(d)) matches Some(c) ==> c.rule == if 5 <= d[6] <= 8 {
            "resident.foreigner_13"
        } else {
            "resident.korean_13"
        },
        business_candidate(seen(d)) matches Some(c) ==> c.rule == "business.10",
        card_candidate(seen(d)) matches Some(c) ==> c.rule == "card.luhn",
        license_candidate(seen(d)) matches Some(c) ==> c.rule == "license.12",
        account_candidate(seen(d)) matches Some(c) ==> c.rule == "account.length",
        birth_candidate(seen(d)) matches Some(c) ==> c.rule == if d.len() == 6 {
            "birth.yymmdd"
        } else {
            "birth.yyyymmdd"
        },
        phone_candidate(seen(d)) matches Some(c) ==> {
            &&& c.rule == "phone.mobile_11" <== d.len() == 11 && is_mobile_code(leading(d, 3))
            &&& c.rule == "phone.mobile_10" <== d.len() == 10 && is_mobile_code(leading(d, 3))
            &&& c.rule == "phone.seoul" <== leading(d, 2) == 2 && d.len() < 11
            &&& c.rule == "phone.landline" <== is_area_code(leading(d, 3)) && 10 <= d.len() <= 11
            &&& c.rule == "phone.representative" <== d.len() == 8
        },
{
    let v = values(seen(d));
    assert(v =~= d);
    lemma_leading(d);
    if d.len() >= 3 {
        assert(d[0] < 10 && d[1] < 10 && d[2] < 10);
    }
    if d.len() == 13 {
        assert(d[6] < 10);
        law_gender_digits_count_in_pairs(d[6]);
    }
}

/// A hidden digit, wherever it stands, leaves nothing to check, and the number then counts only next
/// to words that speak for it. A number with a hidden digit is never a date of birth.
pub proof fn law_one_hidden_digit_is_enough(p: Seq<Option<u8>>, k: int, i: int)
    requires
        0 <= k < p.len(),
        p[k] is None,
        0 <= i < candidates_of(p).len(),
    ensures
        candidates_of(p)[i].needs_context,
        candidates_of(p)[i].checksum is NotApplicable,
        candidates_of(p)[i].entity != EntityKind::BirthDate,
{
    assert(hidden(p));
    law_candidates_say_what_their_kind_is_worth(p, i);
    law_only_checked_kinds_become_certain(p, i);
    lemma_offered(p, EntityKind::BirthDate);
    if candidates_of(p)[i].entity == EntityKind::BirthDate {
        assert(offers(candidates_of(p), EntityKind::BirthDate));
    }
}

/// What can be seen of a number decides its form, digit by digit: hidden digits behind the part that
/// decides make no difference to whether it is offered.
pub proof fn law_seen_digits_are_taken_as_they_are(p: Seq<Option<u8>>, n: int)
    requires
        0 <= n <= p.len(),
    ensures
        values(p).len() == p.len(),
        shown(p, n) <==> forall|i: int| 0 <= i < n ==> (#[trigger] p[i]) is Some,
        hidden(p) <==> !shown(p, p.len() as int),
        forall|i: int| #![trigger p[i]] 0 <= i < p.len() ==> (p[i] matches Some(d) ==> values(p)[i] == d),
{
    if !shown(p, p.len() as int) {
        let i = choose|i: int| 0 <= i < p.len() && !((#[trigger] p[i]) is Some);
        assert(p[i] is None);
    }
}

} // verus!
