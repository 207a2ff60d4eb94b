//! Made-up values look like values of their kind.

use vstd::prelude::*;
use crate::detect::check_laws::are_digits;
use crate::detect::entity::{
    candidates_of, decimal_places, digits_of, seen, shown, values, EntityKind,
};
use crate::detect::form_laws::{
    law_the_form_decides_the_kinds, leading, looks_born, looks_registered, offers, pair,
};
use crate::detect::check_laws::law_gender_digits_count_in_pairs;
use crate::detect::scan_laws::{
    ends_in_letters, is_domain_name, is_lettered_number, is_local_name, is_passport_number,
};
use crate::synth::laws::law_written_digits_are_read_back;
use crate::synth::rng::{digits_drawn, drawn, later, lemma_digits_drawn};
use crate::synth::value::{
    account_len, birth_eight_of, card_head, completed, digits_text, email_host, email_name,
    lemma_checked_value, lemma_digits_text_len, region_of, resident_head, value_of, Check,
};

verus! {

broadcast use crate::text::lemma_text_char_range;

/// The digits of a made-up number of a kind.
pub open spec fn made_digits(entity: EntityKind, s: u64) -> Seq<u8> {
    match entity {
        EntityKind::Resident => completed(Check::Resident, resident_head(s, false)),
        EntityKind::ForeignerRegistration => completed(Check::Resident, resident_head(s, true)),
        EntityKind::BusinessRegistration => completed(Check::Business, digits_drawn(s, 9)),
        EntityKind::CreditCard => completed(Check::Card, card_head(s)),
        EntityKind::Phone => seq![0u8, 1u8, 0u8] + digits_drawn(s, 8),
        EntityKind::BankAccount => digits_drawn(later(s, 1), account_len(s)),
        EntityKind::DriverLicense => region_of(drawn(s, 6)) + digits_drawn(later(s, 1), 10),
        EntityKind::BirthDate => birth_eight_of(s),
        _ => Seq::empty(),
    }
}

/// The kind has numbers of digits alone.
pub open spec fn is_numeric(entity: EntityKind) -> bool {
    entity != EntityKind::Email && entity != EntityKind::Passport
}

proof fn lemma_seen(d: Seq<u8>, n: int)
    requires
        are_digits(d),
        0 <= n <= d.len(),
    ensures
        values(seen(d)) == d,
        decimal_places(seen(d)),
        shown(seen(d), n),
        !crate::detect::entity::hidden(seen(d)),
{
    let p = seen(d);
    assert(values(p) =~= d);
    assert forall|i: int| 0 <= i < p.len() implies ((#[trigger] p[i]) matches Some(x) ==> x < 10) by {
        assert(d[i] < 10);
    }
}

/// A number has the form of its kind.
spec fn has_form(entity: EntityKind, d: Seq<u8>) -> bool {
    match entity {
        EntityKind::Resident => looks_registered(d) && !(5 <= d[6] <= 8),
        EntityKind::ForeignerRegistration => looks_registered(d) && 5 <= d[6] <= 8,
        EntityKind::BusinessRegistration => d.len() == 10,
        EntityKind::CreditCard => d.len() == 16 && d[0] == 4,
        EntityKind::Phone => d.len() == 11 && leading(d, 3) == 10,
        EntityKind::DriverLicense => d.len() == 12 && (11 <= leading(d, 2) <= 26 || leading(d, 2) == 28),
        EntityKind::BankAccount => 10 <= d.len() <= 14,
        EntityKind::BirthDate => d.len() == 8 && looks_born(d),
        _ => false,
    }
}

proof fn lemma_registered(s: u64, foreigner: bool)
    ensures
        ({
            let d = completed(Check::Resident, resident_head(s, foreigner));
            are_digits(d) && looks_registered(d) && (5 <= d[6] <= 8) == foreigner
        }),
{
    lemma_checked_value(s);
    let d = completed(Check::Resident, resident_head(s, foreigner));
    assert(d[6] < 10);
    law_gender_digits_count_in_pairs(d[6]);
}

proof fn lemma_numbered(s: u64)
    ensures
        ({
            let a = completed(Check::Business, digits_drawn(s, 9));
            let b = completed(Check::Card, card_head(s));
            &&& are_digits(a) && a.len() == 10
            &&& are_digits(b) && b.len() == 16 && b[0] == 4
        }),
{
    lemma_checked_value(s);
}

proof fn lemma_dialled(s: u64)
    ensures
        ({
            let d = seq![0u8, 1u8, 0u8] + digits_drawn(s, 8);
            are_digits(d) && d.len() == 11 && leading(d, 3) == 10
        }),
{
    let d = seq![0u8, 1u8, 0u8] + digits_drawn(s, 8);
    lemma_digits_drawn(s, 8);
    assert forall|i: int| 0 <= i < d.len() implies #[trigger] d[i] < 10 by {
        if i >= 3 {
            assert(d[i] == digits_drawn(s, 8)[i - 3]);
        }
    }
    reveal_with_fuel(leading, 4);
}

proof fn lemma_licensed(s: u64)
    ensures
        ({
            let d = region_of(drawn(s, 6)) + digits_drawn(later(s, 1), 10);
            are_digits(d) && d.len() == 12 && (11 <= leading(d, 2) <= 26 || leading(d, 2) == 28)
        }),
{
    let d = region_of(drawn(s, 6)) + digits_drawn(later(s, 1), 10);
    lemma_digits_drawn(later(s, 1), 10);
    assert forall|i: int| 0 <= i < d.len() implies #[trigger] d[i] < 10 by {
        if i >= 2 {
            assert(d[i] == digits_drawn(later(s, 1), 10)[i - 2]);
        }
    }
    reveal_with_fuel(leading, 3);
}

proof fn lemma_accounted(s: u64)
    ensures
        ({
            let d = digits_drawn(later(s, 1), account_len(s));
            are_digits(d) && 10 <= d.len() <= 14
        }),
{
    lemma_digits_drawn(later(s, 1), account_len(s));
    assert(drawn(s, 4) < 4);
}

proof fn lemma_birth_digits(s: u64)
    ensures
        are_digits(birth_eight_of(s)),
{
    let d = birth_eight_of(s);
    let year = 1940 + drawn(s, 70);
    assert(drawn(s, 70) < 70 && drawn(later(s, 1), 12) < 12 && drawn(later(s, 2), 28) < 28);
    assert(year / 1000 == 1 || year / 1000 == 2);
}

proof fn lemma_made_digits(entity: EntityKind, s: u64)
    requires
        is_numeric(entity),
    ensures
        are_digits(made_digits(entity, s)),
        has_form(entity, made_digits(entity, s)),
        value_of(entity, s) == digits_text(made_digits(entity, s)),
{
    match entity {
        EntityKind::Resident => lemma_registered(s, false),
        EntityKind::ForeignerRegistration => lemma_registered(s, true),
        EntityKind::BusinessRegistration => lemma_numbered(s),
        EntityKind::CreditCard => lemma_numbered(s),
        EntityKind::Phone => lemma_dialled(s),
        EntityKind::DriverLicense => lemma_licensed(s),
        EntityKind::BankAccount => lemma_accounted(s),
        _ => {
            lemma_birth_digits(s);
            lemma_birth(s);
        },
    }
}

/// What has the form of a kind is offered as that kind.
proof fn lemma_form_is_offered(entity: EntityKind, d: Seq<u8>)
    requires
        are_digits(d),
        has_form(entity, d),
    ensures
        offers(candidates_of(seen(d)), entity),
{
    lemma_seen(d, 7);
    lemma_seen(d, 3);
    lemma_seen(d, 2);
    law_the_form_decides_the_kinds(seen(d));
}

/// A date from 1940 to 2009 is read as a date.
proof fn lemma_birth(s: u64)
    ensures
        looks_born(birth_eight_of(s)),
{
    let d = birth_eight_of(s);
    let year = 1940 + drawn(s, 70);
    let month = 1 + drawn(later(s, 1), 12);
    let day = 1 + drawn(later(s, 2), 28);
    reveal_with_fuel(leading, 5);
    assert(1940 <= year < 2010);
    assert(leading(d, 4) == ((year / 1000 * 10 + year / 100 % 10) * 10 + year / 10 % 10) * 10 + year % 10);
    let a = year / 10;
    let b = year / 100;
    assert(year == 10 * a + year % 10);
    assert(b == a / 10);
    assert(a == 10 * b + a % 10);
    assert(year / 1000 == b / 10);
    assert(b == 10 * (b / 10) + b % 10);
    assert(leading(d, 4) == year);
    assert(pair(d, 4) == month);
    assert(pair(d, 6) == day);
}

/// Every made-up number is offered as what it was made for: registration numbers with a date of
/// birth, business numbers of ten digits, cards of sixteen that begin with 4, mobile numbers that
/// begin with 010, accounts, licences with the code of a region, and dates of birth.
pub proof fn law_made_up_numbers_look_like_their_kind(entity: EntityKind, s: u64)
    requires
        is_numeric(entity),
    ensures
        digits_of(value_of(entity, s)) == made_digits(entity, s),
        offers(candidates_of(seen(digits_of(value_of(entity, s)))), entity),
        entity == EntityKind::CreditCard ==> digits_of(value_of(entity, s))[0] == 4,
        entity == EntityKind::Phone ==> leading(digits_of(value_of(entity, s)), 3) == 10 && digits_of(
            value_of(entity, s),
        ).len() == 11,
{
    let d = made_digits(entity, s);
    lemma_made_digits(entity, s);
    law_written_digits_are_read_back(d);
    lemma_form_is_offered(entity, d);
}

/// Every made-up passport number has the form of one.
pub proof fn law_made_up_passports_look_like_passports(s: u64)
    ensures
        is_passport_number(value_of(EntityKind::Passport, s)),
{
    let d = digits_drawn(later(s, 1), 8);
    let v = value_of(EntityKind::Passport, s);
    lemma_digits_drawn(later(s, 1), 8);
    lemma_digits_text_len(d);
    law_written_digits_are_read_back(d);
    let t = digits_text(d);
    assert forall|i: int| 1 <= i < v.len() implies '0' <= #[trigger] v[i] <= '9' by {
        assert(v[i] == t[i - 1]);
    }
    assert(is_lettered_number(v, 1));
}

proof fn lemma_host(n: nat)
    ensures
        is_domain_name(email_host(n)),
{
    reveal_strlit("example.com");
    reveal_strlit("mail.example.net");
    reveal_strlit("corp.example.co.kr");
    reveal_strlit("test.example.org");
    let h = email_host(n);
    if n == 0 {
        assert(ends_in_letters(h, 7));
    } else if n == 1 {
        assert(ends_in_letters(h, 12));
    } else if n == 2 {
        assert(ends_in_letters(h, 15));
    } else {
        assert(ends_in_letters(h, 12));
    }
}

proof fn lemma_name(n: nat)
    ensures
        is_local_name(email_name(n)),
{
    reveal_strlit("minsu.kim");
    reveal_strlit("jiwon");
    reveal_strlit("hyeon_lee");
    reveal_strlit("sara.park");
    reveal_strlit("dohoon");
    reveal_strlit("yuna99");
}

/// Every made-up address has the form of one.
pub proof fn law_made_up_addresses_look_like_addresses(s: u64)
    ensures
        exists|local: Seq<char>, domain: Seq<char>|
            value_of(EntityKind::Email, s) == #[trigger] (local + seq!['@'] + domain) && is_local_name(local)
                && is_domain_name(domain),
{
    let local = email_name(drawn(s, 6));
    let domain = email_host(drawn(later(s, 1), 4));
    reveal_strlit("@");
    lemma_name(drawn(s, 6));
    lemma_host(drawn(later(s, 1), 4));
    assert("@"@ =~= seq!['@']);
    assert(value_of(EntityKind::Email, s) == local + seq!['@'] + domain);
}

} // verus!
