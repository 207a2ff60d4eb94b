//! Values of every kind. Those with a check digit pass their check.
//!
//! Check digits are not calculated a second time. The validators of the detector are run on all
//! ten digits until one passes, so that generator and validator cannot disagree.

use vstd::prelude::*;
use crate::detect::checksum::{
    analyze_resident, business_check, business_registration, gender_of, luhn, luhn_passes, luhn_sum,
    resident_check, resident_date, resident_sum,
};
use crate::detect::entity::EntityKind;
use crate::synth::rng::{digits_drawn, drawn, later, lemma_digits_drawn, lemma_later_add, Rng};
use crate::text::{digit, digit_char};

verus! {

broadcast use crate::text::lemma_text_char_range;

/// Digits as text.
pub open spec fn digits_text(d: Seq<u8>) -> Seq<char>
    decreases d.len(),
{
    if d.len() == 0 {
        Seq::empty()
    } else {
        digits_text(d.drop_last()).push(digit_char(d.last() as int))
    }
}

/// Digits as text.
pub fn to_text(digits: &[u8]) -> (r: String)
    requires
        forall|i: int| 0 <= i < digits@.len() ==> #[trigger] digits@[i] < 10,
    ensures
        r@ == digits_text(digits@),
{
    let mut out = String::new();
    let mut i: usize = 0;
    while i < digits.len()
        invariant
            i <= digits@.len(),
            forall|k: int| 0 <= k < digits@.len() ==> #[trigger] digits@[k] < 10,
            out@ == digits_text(digits@.take(i as int)),
        decreases digits@.len() - i,
    {
        proof {
            let d = digits@.take(i + 1);
            assert(d.drop_last() =~= digits@.take(i as int));
            assert(d.last() == digits@[i as int]);
        }
        out.push(digit(digits[i] as u64));
        i += 1;
    }
    assert(digits@.take(i as int) =~= digits@);
    out
}

/// A digit is a character.
pub proof fn lemma_digits_text_len(d: Seq<u8>)
    ensures
        digits_text(d).len() == d.len(),
    decreases d.len(),
{
    if d.len() > 0 {
        lemma_digits_text_len(d.drop_last());
    }
}

/// The kinds of check digits.
#[derive(Debug, Clone, Copy, PartialEq, Eq, Structural)]
pub enum Check {
    Resident,
    Business,
    Card,
}

/// The digits pass their check.
pub open spec fn passing(check: Check, d: Seq<u8>) -> bool {
    match check {
        Check::Resident => d.len() == 13 && gender_of(d[6]) is Some && resident_date(d) && d[12] == resident_check(d),
        Check::Business => d.len() == 10 && d[9] == business_check(d),
        Check::Card => 13 <= d.len() <= 19 && luhn_passes(d),
    }
}

/// The digits can be completed by a check digit.
pub open spec fn completable(check: Check, d: Seq<u8>) -> bool {
    match check {
        Check::Resident => d.len() == 12 && gender_of(d[6]) is Some && resident_date(d.push(0)),
        Check::Business => d.len() == 9,
        Check::Card => 12 <= d.len() <= 18,
    }
}

/// The check digit that completes the digits.
pub open spec fn check_digit(check: Check, d: Seq<u8>) -> int {
    match check {
        Check::Resident => resident_check(d),
        Check::Business => business_check(d),
        Check::Card => (10 - luhn_sum(d.push(0), d.len() as int + 1) % 10) % 10,
    }
}

/// The digits with their check digit.
pub open spec fn completed(check: Check, d: Seq<u8>) -> Seq<u8> {
    d.push(check_digit(check, d) as u8)
}

/// The last digit of a card number counts itself, and the others count the same without it.
proof fn lemma_luhn_last(d: Seq<u8>, c: u8, k: int)
    requires
        1 <= k <= d.len() + 1,
    ensures
        luhn_sum(d.push(c), k) == luhn_sum(d.push(0), k) + c,
    decreases k,
{
    let x = d.push(c);
    let z = d.push(0);
    if k > 1 {
        lemma_luhn_last(d, c, k - 1);
        assert(x[x.len() - k] == z[z.len() - k]);
    } else {
        reveal_with_fuel(luhn_sum, 2);
    }
}

/// Of the ten digits that can follow, exactly one passes the check.
pub proof fn law_one_check_digit(check: Check, d: Seq<u8>, c: u8)
    requires
        completable(check, d),
        c < 10,
    ensures
        0 <= check_digit(check, d) < 10,
        passing(check, d.push(c)) <==> c == check_digit(check, d),
        passing(check, completed(check, d)),
{
    let z = check_digit(check, d) as u8;
    let x = d.push(c);
    let y = d.push(z);
    match check {
        Check::Resident => {
            assert(resident_sum(x) == resident_sum(d));
            assert(resident_sum(y) == resident_sum(d));
            assert(resident_date(x) == resident_date(d.push(0)));
            assert(resident_date(y) == resident_date(d.push(0)));
        },
        Check::Business => {
            assert(crate::detect::checksum::business_sum(x) == crate::detect::checksum::business_sum(d));
            assert(crate::detect::checksum::business_sum(y) == crate::detect::checksum::business_sum(d));
        },
        Check::Card => {
            let n = d.len() as int + 1;
            lemma_luhn_last(d, c, n);
            lemma_luhn_last(d, z, n);
        },
    }
}

/// Whether the digits pass their check.
pub fn passes(check: Check, digits: &[u8]) -> (r: bool)
    requires
        forall|i: int| 0 <= i < digits@.len() ==> #[trigger] digits@[i] < 10,
    ensures
        r == passing(check, digits@),
{
    match check {
        Check::Resident => {
            proof {
                if digits@.len() == 13 {
                    assert(digits@[2] < 10 && digits@[3] < 10 && digits@[4] < 10 && digits@[5] < 10);
                }
            }
            match analyze_resident(digits) {
                Some(a) => a.checksum.passed() && a.birth.is_some(),
                None => false,
            }
        },
        Check::Business => business_registration(digits).passed(),
        Check::Card => luhn(digits).passed(),
    }
}

/// Tries the digits from zero to nine in the last place until the check passes.
pub fn complete(check: Check, prefix: Vec<u8>) -> (r: Vec<u8>)
    requires
        completable(check, prefix@),
        forall|i: int| 0 <= i < prefix@.len() ==> #[trigger] prefix@[i] < 10,
    ensures
        r@ == completed(check, prefix@),
        passing(check, r@),
        forall|i: int| 0 <= i < r@.len() ==> #[trigger] r@[i] < 10,
{
    let ghost d = prefix@;
    let mut digits = prefix;
    let mut c: u8 = 0;
    proof {
        law_one_check_digit(check, d, 0);
    }
    while c < 9
        invariant
            d == prefix@,
            digits@ == d,
            completable(check, d),
            forall|i: int| 0 <= i < d.len() ==> #[trigger] d[i] < 10,
            c <= 9,
            c <= check_digit(check, d) < 10,
        decreases 9 - c,
    {
        digits.push(c);
        proof {
            law_one_check_digit(check, d, c);
        }
        if passes(check, digits.as_slice()) {
            return digits;
        }
        let last = digits.pop();
        assert(digits@ =~= d);
        c += 1;
    }
    proof {
        law_one_check_digit(check, d, 9);
    }
    digits.push(9);
    digits
}

/// A date of birth in six digits, drawn in three draws. Days go up to 28, so that every month has
/// them.
pub open spec fn birth_six_of(s: u64) -> Seq<u8> {
    let yy = drawn(s, 100);
    let mm = 1 + drawn(later(s, 1), 12);
    let dd = 1 + drawn(later(s, 2), 28);
    seq![
        (yy / 10) as u8,
        (yy % 10) as u8,
        (mm / 10) as u8,
        (mm % 10) as u8,
        (dd / 10) as u8,
        (dd % 10) as u8,
    ]
}

/// The first twelve digits of a registration number, drawn in nine draws.
pub open spec fn resident_head(s: u64, foreigner: bool) -> Seq<u8> {
    let gender = drawn(later(s, 3), 4) + if foreigner {
        5int
    } else {
        1
    };
    birth_six_of(s).push(gender as u8) + digits_drawn(later(s, 4), 5)
}

/// A date of birth in six digits.
fn birth_six(rng: &mut Rng) -> (r: Vec<u8>)
    ensures
        r@ == birth_six_of(old(rng).state),
        final(rng).state == later(old(rng).state, 3),
        forall|i: int| 0 <= i < r@.len() ==> #[trigger] r@[i] < 10,
{
    reveal_with_fuel(later, 4);
    let yy: usize = rng.below(100);
    let mm: usize = 1 + rng.below(12);
    let dd: usize = 1 + rng.below(28);
    let r: Vec<u8> = vec![
        (yy / 10) as u8,
        (yy % 10) as u8,
        (mm / 10) as u8,
        (mm % 10) as u8,
        (dd / 10) as u8,
        (dd % 10) as u8,
    ];
    assert(r@ =~= birth_six_of(old(rng).state));
    r
}

/// Every drawn head can be completed.
proof fn lemma_resident_head(s: u64, foreigner: bool)
    ensures
        completable(Check::Resident, resident_head(s, foreigner)),
        forall|i: int| 0 <= i < 12 ==> #[trigger] resident_head(s, foreigner)[i] < 10,
        gender_of(resident_head(s, foreigner)[6]).unwrap().foreigner == foreigner,
{
    let d = resident_head(s, foreigner);
    lemma_digits_drawn(later(s, 4), 5);
    let yy = drawn(s, 100);
    let mm = 1 + drawn(later(s, 1), 12);
    let dd = 1 + drawn(later(s, 2), 28);
    let tail = digits_drawn(later(s, 4), 5);
    assert forall|i: int| 0 <= i < 12 implies #[trigger] d[i] < 10 by {
        if i >= 7 {
            assert(d[i] == tail[i - 7]);
        }
    }
    let x = d.push(0);
    assert(x[2] * 10 + x[3] == mm);
    assert(x[4] * 10 + x[5] == dd);
}

/// A registration number with a right check digit.
pub fn resident(rng: &mut Rng, foreigner: bool) -> (r: String)
    ensures
        r@ == digits_text(completed(Check::Resident, resident_head(old(rng).state, foreigner))),
        passing(Check::Resident, completed(Check::Resident, resident_head(old(rng).state, foreigner))),
        final(rng).state == later(old(rng).state, 9),
{
    let ghost s = old(rng).state;
    let mut digits = birth_six(rng);
    let gender: u8 = if foreigner {
        5 + rng.below(4) as u8
    } else {
        1 + rng.below(4) as u8
    };
    digits.push(gender);
    let mut tail = rng.digits(5);
    digits.append(&mut tail);
    proof {
        lemma_later_add(s, 3, 1);
        lemma_later_add(s, 4, 5);
        lemma_resident_head(s, foreigner);
        assert(digits@ =~= resident_head(s, foreigner));
    }
    to_text(complete(Check::Resident, digits).as_slice())
}

/// A business registration number with a right check digit.
pub fn business(rng: &mut Rng) -> (r: String)
    ensures
        r@ == digits_text(completed(Check::Business, digits_drawn(old(rng).state, 9))),
        passing(Check::Business, completed(Check::Business, digits_drawn(old(rng).state, 9))),
        final(rng).state == later(old(rng).state, 9),
{
    let digits = rng.digits(9);
    to_text(complete(Check::Business, digits).as_slice())
}

/// The first fifteen digits of a card number, drawn in fourteen draws.
pub open spec fn card_head(s: u64) -> Seq<u8> {
    seq![4u8] + digits_drawn(s, 14)
}

/// A card number with a right check digit.
pub fn card(rng: &mut Rng) -> (r: String)
    ensures
        r@ == digits_text(completed(Check::Card, card_head(old(rng).state))),
        passing(Check::Card, completed(Check::Card, card_head(old(rng).state))),
        final(rng).state == later(old(rng).state, 14),
{
    let mut digits: Vec<u8> = vec![4];
    let mut tail = rng.digits(14);
    digits.append(&mut tail);
    assert(digits@ =~= card_head(old(rng).state));
    to_text(complete(Check::Card, digits).as_slice())
}

/// A mobile number.
pub fn phone(rng: &mut Rng) -> (r: String)
    ensures
        r@ == digits_text(seq![0u8, 1u8, 0u8] + digits_drawn(old(rng).state, 8)),
        final(rng).state == later(old(rng).state, 8),
{
    let mut digits: Vec<u8> = vec![0, 1, 0];
    let mut tail = rng.digits(8);
    digits.append(&mut tail);
    assert(digits@ =~= seq![0u8, 1u8, 0u8] + digits_drawn(old(rng).state, 8));
    to_text(digits.as_slice())
}

/// How many digits an account number has.
pub open spec fn account_len(s: u64) -> nat {
    11 + drawn(s, 4)
}

/// An account number. Banks number their accounts in different ways, so only the length is right.
pub fn account(rng: &mut Rng) -> (r: String)
    ensures
        r@ == digits_text(digits_drawn(later(old(rng).state, 1), account_len(old(rng).state))),
        final(rng).state == later(old(rng).state, 1 + account_len(old(rng).state)),
{
    let len: usize = 11 + rng.below(4);
    let digits = rng.digits(len);
    proof {
        lemma_later_add(old(rng).state, 1, len as nat);
    }
    to_text(digits.as_slice())
}

/// The codes of regions that are drawn.
pub open spec fn region_of(n: nat) -> Seq<u8> {
    if n == 0 {
        seq![1u8, 1u8]
    } else if n == 1 {
        seq![1u8, 2u8]
    } else if n == 2 {
        seq![1u8, 3u8]
    } else if n == 3 {
        seq![2u8, 1u8]
    } else if n == 4 {
        seq![2u8, 6u8]
    } else {
        seq![2u8, 8u8]
    }
}

/// The number of a driver's licence.
pub fn license(rng: &mut Rng) -> (r: String)
    ensures
        r@ == digits_text(region_of(drawn(old(rng).state, 6)) + digits_drawn(later(old(rng).state, 1), 10)),
        final(rng).state == later(old(rng).state, 11),
{
    let ghost s = old(rng).state;
    let region: usize = rng.below(6);
    let mut digits: Vec<u8> = match region {
        0 => vec![1, 1],
        1 => vec![1, 2],
        2 => vec![1, 3],
        3 => vec![2, 1],
        4 => vec![2, 6],
        _ => vec![2, 8],
    };
    let mut tail = rng.digits(10);
    digits.append(&mut tail);
    proof {
        lemma_later_add(s, 1, 10);
        assert(digits@ =~= region_of(drawn(s, 6)) + digits_drawn(later(s, 1), 10));
    }
    to_text(digits.as_slice())
}

/// A date of birth in eight digits, drawn in three draws.
pub open spec fn birth_eight_of(s: u64) -> Seq<u8> {
    let year = 1940 + drawn(s, 70);
    let month = 1 + drawn(later(s, 1), 12);
    let day = 1 + drawn(later(s, 2), 28);
    seq![
        (year / 1000) as u8,
        (year / 100 % 10) as u8,
        (year / 10 % 10) as u8,
        (year % 10) as u8,
        (month / 10) as u8,
        (month % 10) as u8,
        (day / 10) as u8,
        (day % 10) as u8,
    ]
}

/// A date of birth in eight digits.
pub fn birth_eight(rng: &mut Rng) -> (r: String)
    ensures
        r@ == digits_text(birth_eight_of(old(rng).state)),
        final(rng).state == later(old(rng).state, 3),
{
    reveal_with_fuel(later, 4);
    let year: usize = 1940 + rng.below(70);
    let month: usize = 1 + rng.below(12);
    let day: usize = 1 + rng.below(28);
    let digits: Vec<u8> = vec![
        (year / 1000) as u8,
        (year / 100 % 10) as u8,
        (year / 10 % 10) as u8,
        (year % 10) as u8,
        (month / 10) as u8,
        (month % 10) as u8,
        (day / 10) as u8,
        (day % 10) as u8,
    ];
    assert(digits@ =~= birth_eight_of(old(rng).state));
    to_text(digits.as_slice())
}

/// The letters that passport numbers begin with.
pub open spec fn passport_letter(n: nat) -> char {
    if n == 0 {
        'M'
    } else if n == 1 {
        'S'
    } else {
        'R'
    }
}

/// A passport number.
pub fn passport(rng: &mut Rng) -> (r: String)
    ensures
        r@ == seq![passport_letter(drawn(old(rng).state, 3))] + digits_text(digits_drawn(later(old(rng).state, 1), 8)),
        final(rng).state == later(old(rng).state, 9),
{
    let ghost s = old(rng).state;
    let head: char = match rng.below(3) {
        0 => 'M',
        1 => 'S',
        _ => 'R',
    };
    let digits = rng.digits(8);
    let mut out = String::new();
    out.push(head);
    out.append(to_text(digits.as_slice()).as_str());
    proof {
        lemma_later_add(s, 1, 8);
        assert(out@ =~= seq![passport_letter(drawn(s, 3))] + digits_text(digits_drawn(later(s, 1), 8)));
    }
    out
}

/// The names that addresses begin with.
pub open spec fn email_name(n: nat) -> Seq<char> {
    if n == 0 {
        "minsu.kim"@
    } else if n == 1 {
        "jiwon"@
    } else if n == 2 {
        "hyeon_lee"@
    } else if n == 3 {
        "sara.park"@
    } else if n == 4 {
        "dohoon"@
    } else {
        "yuna99"@
    }
}

/// The hosts that addresses end with.
pub open spec fn email_host(n: nat) -> Seq<char> {
    if n == 0 {
        "example.com"@
    } else if n == 1 {
        "mail.example.net"@
    } else if n == 2 {
        "corp.example.co.kr"@
    } else {
        "test.example.org"@
    }
}

/// An email address.
pub fn email(rng: &mut Rng) -> (r: String)
    ensures
        r@ == email_name(drawn(old(rng).state, 6)) + "@"@ + email_host(drawn(later(old(rng).state, 1), 4)),
        final(rng).state == later(old(rng).state, 2),
{
    reveal_with_fuel(later, 3);
    let name: &'static str = match rng.below(6) {
        0 => "minsu.kim",
        1 => "jiwon",
        2 => "hyeon_lee",
        3 => "sara.park",
        4 => "dohoon",
        _ => "yuna99",
    };
    let host: &'static str = match rng.below(4) {
        0 => "example.com",
        1 => "mail.example.net",
        2 => "corp.example.co.kr",
        _ => "test.example.org",
    };
    let mut out = String::from_str(name);
    out.append("@");
    out.append(host);
    out
}

/// The value of a kind that is drawn in a state.
pub open spec fn value_of(entity: EntityKind, s: u64) -> Seq<char> {
    match entity {
        EntityKind::Resident => digits_text(completed(Check::Resident, resident_head(s, false))),
        EntityKind::ForeignerRegistration => digits_text(completed(Check::Resident, resident_head(s, true))),
        EntityKind::BusinessRegistration => digits_text(completed(Check::Business, digits_drawn(s, 9))),
        EntityKind::CreditCard => digits_text(completed(Check::Card, card_head(s))),
        EntityKind::Phone => digits_text(seq![0u8, 1u8, 0u8] + digits_drawn(s, 8)),
        EntityKind::Email => email_name(drawn(s, 6)) + "@"@ + email_host(drawn(later(s, 1), 4)),
        EntityKind::BankAccount => digits_text(digits_drawn(later(s, 1), account_len(s))),
        EntityKind::DriverLicense => digits_text(region_of(drawn(s, 6)) + digits_drawn(later(s, 1), 10)),
        EntityKind::BirthDate => digits_text(birth_eight_of(s)),
        EntityKind::Passport => seq![passport_letter(drawn(s, 3))] + digits_text(digits_drawn(later(s, 1), 8)),
    }
}

/// How many draws a value takes.
pub open spec fn draws_of(entity: EntityKind, s: u64) -> nat {
    match entity {
        EntityKind::Resident => 9,
        EntityKind::ForeignerRegistration => 9,
        EntityKind::BusinessRegistration => 9,
        EntityKind::CreditCard => 14,
        EntityKind::Phone => 8,
        EntityKind::Email => 2,
        EntityKind::BankAccount => 1 + account_len(s),
        EntityKind::DriverLicense => 11,
        EntityKind::BirthDate => 3,
        EntityKind::Passport => 9,
    }
}

/// A value of a kind.
pub fn value_for(rng: &mut Rng, entity: EntityKind) -> (r: String)
    ensures
        r@ == value_of(entity, old(rng).state),
        final(rng).state == later(old(rng).state, draws_of(entity, old(rng).state)),
{
    match entity {
        EntityKind::Resident => resident(rng, false),
        EntityKind::ForeignerRegistration => resident(rng, true),
        EntityKind::BusinessRegistration => business(rng),
        EntityKind::CreditCard => card(rng),
        EntityKind::Phone => phone(rng),
        EntityKind::Email => email(rng),
        EntityKind::BankAccount => account(rng),
        EntityKind::DriverLicense => license(rng),
        EntityKind::BirthDate => birth_eight(rng),
        EntityKind::Passport => passport(rng),
    }
}

/// The values with a check digit: their digits, their lengths, and that they pass.
pub proof fn lemma_checked_value(s: u64)
    ensures
        ({
            let a = completed(Check::Resident, resident_head(s, false));
            let b = completed(Check::Resident, resident_head(s, true));
            let c = completed(Check::Business, digits_drawn(s, 9));
            let d = completed(Check::Card, card_head(s));
            &&& a.len() == 13 && passing(Check::Resident, a) && !gender_of(a[6]).unwrap().foreigner
            &&& b.len() == 13 && passing(Check::Resident, b) && gender_of(b[6]).unwrap().foreigner
            &&& c.len() == 10 && passing(Check::Business, c)
            &&& d.len() == 16 && passing(Check::Card, d)
            &&& forall|i: int| 0 <= i < 13 ==> #[trigger] a[i] < 10
            &&& forall|i: int| 0 <= i < 13 ==> #[trigger] b[i] < 10
            &&& forall|i: int| 0 <= i < 10 ==> #[trigger] c[i] < 10
            &&& forall|i: int| 0 <= i < 16 ==> #[trigger] d[i] < 10
        }),
{
    let a = resident_head(s, false);
    let b = resident_head(s, true);
    let c = digits_drawn(s, 9);
    let d = card_head(s);
    lemma_resident_head(s, false);
    lemma_resident_head(s, true);
    lemma_digits_drawn(s, 9);
    lemma_digits_drawn(s, 14);
    law_one_check_digit(Check::Resident, a, 0);
    law_one_check_digit(Check::Resident, b, 0);
    law_one_check_digit(Check::Business, c, 0);
    law_one_check_digit(Check::Card, d, 0);
    assert forall|i: int| 0 <= i < 13 implies #[trigger] completed(Check::Resident, a)[i] < 10 by {
        if i < 12 {
            assert(a[i] < 10);
        }
    }
    assert forall|i: int| 0 <= i < 13 implies #[trigger] completed(Check::Resident, b)[i] < 10 by {
        if i < 12 {
            assert(b[i] < 10);
        }
    }
    assert forall|i: int| 0 <= i < 10 implies #[trigger] completed(Check::Business, c)[i] < 10 by {
        if i < 9 {
            assert(c[i] < 10);
        }
    }
    assert forall|i: int| 0 <= i < 16 implies #[trigger] completed(Check::Card, d)[i] < 10 by {
        if 0 < i < 15 {
            assert(d[i] == digits_drawn(s, 14)[i - 1]);
        }
    }
}

/// Every value has a character, and none more than forty.
pub proof fn lemma_value_len(entity: EntityKind, s: u64)
    ensures
        0 < value_of(entity, s).len() <= 40,
{
    reveal_strlit("minsu.kim");
    reveal_strlit("jiwon");
    reveal_strlit("hyeon_lee");
    reveal_strlit("sara.park");
    reveal_strlit("dohoon");
    reveal_strlit("yuna99");
    reveal_strlit("example.com");
    reveal_strlit("mail.example.net");
    reveal_strlit("corp.example.co.kr");
    reveal_strlit("test.example.org");
    reveal_strlit("@");
    lemma_digits_drawn(later(s, 4), 5);
    lemma_digits_drawn(s, 9);
    lemma_digits_drawn(s, 14);
    lemma_digits_drawn(s, 8);
    lemma_digits_drawn(later(s, 1), account_len(s));
    lemma_digits_drawn(later(s, 1), 10);
    lemma_digits_drawn(later(s, 1), 8);
    lemma_digits_text_len(completed(Check::Resident, resident_head(s, false)));
    lemma_digits_text_len(completed(Check::Resident, resident_head(s, true)));
    lemma_digits_text_len(completed(Check::Business, digits_drawn(s, 9)));
    lemma_digits_text_len(completed(Check::Card, card_head(s)));
    lemma_digits_text_len(seq![0u8, 1u8, 0u8] + digits_drawn(s, 8));
    lemma_digits_text_len(digits_drawn(later(s, 1), account_len(s)));
    lemma_digits_text_len(region_of(drawn(s, 6)) + digits_drawn(later(s, 1), 10));
    lemma_digits_text_len(birth_eight_of(s));
    lemma_digits_text_len(digits_drawn(later(s, 1), 8));
}

} // verus!
