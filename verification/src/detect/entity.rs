//! What a run of digits may be.
//!
//! One run gives several candidates: ten digits may be a business registration number, a phone
//! number or an account number. Nothing is decided here. A candidate carries what its check digit
//! says, and how certain a finding of its kind can become at most.

use vstd::prelude::*;
use crate::detect::checksum::{
    all_digits, analyze_resident, business_check, business_registration, gender_of, is_date,
    is_valid_date, luhn, luhn_passes, resident_check, resident_date, to_digits, ChecksumResult,
};
use crate::detect::context::{
    Dictionary, ACCOUNT, BIRTH_DATE, BUSINESS, CARD, DRIVER_LICENSE, FOREIGNER, PHONE, RESIDENT,
};
use crate::text::same_text;

verus! {

/// The kinds of personal data.
#[derive(Debug, Clone, Copy, PartialEq, Eq, Hash, Structural)]
pub enum EntityKind {
    /// Resident registration number.
    Resident,
    /// Registration number of a foreigner.
    ForeignerRegistration,
    /// Business registration number.
    BusinessRegistration,
    /// Number of a credit or debit card.
    CreditCard,
    /// Number of a bank account.
    BankAccount,
    /// Phone number.
    Phone,
    /// Email address.
    Email,
    /// Number of a driver's licence.
    DriverLicense,
    /// Date of birth.
    BirthDate,
    /// Passport number.
    Passport,
}

impl EntityKind {
    /// The Korean name of a kind.
    pub open spec fn label_text(self) -> Seq<char> {
        match self {
            EntityKind::Resident => "주민등록번호"@,
            EntityKind::ForeignerRegistration => "외국인등록번호"@,
            EntityKind::BusinessRegistration => "사업자등록번호"@,
            EntityKind::CreditCard => "카드번호"@,
            EntityKind::BankAccount => "계좌번호"@,
            EntityKind::Phone => "전화번호"@,
            EntityKind::Email => "이메일"@,
            EntityKind::DriverLicense => "운전면허번호"@,
            EntityKind::BirthDate => "생년월일"@,
            EntityKind::Passport => "여권번호"@,
        }
    }

    /// The identifier of a kind.
    pub open spec fn code_text(self) -> Seq<char> {
        match self {
            EntityKind::Resident => "resident"@,
            EntityKind::ForeignerRegistration => "foreigner_registration"@,
            EntityKind::BusinessRegistration => "business_registration"@,
            EntityKind::CreditCard => "credit_card"@,
            EntityKind::BankAccount => "bank_account"@,
            EntityKind::Phone => "phone"@,
            EntityKind::Email => "email"@,
            EntityKind::DriverLicense => "driver_license"@,
            EntityKind::BirthDate => "birth_date"@,
            EntityKind::Passport => "passport"@,
        }
    }

    /// The identifier of a kind in capital letters.
    pub open spec fn code_upper_text(self) -> Seq<char> {
        match self {
            EntityKind::Resident => "RESIDENT"@,
            EntityKind::ForeignerRegistration => "FOREIGNER_REGISTRATION"@,
            EntityKind::BusinessRegistration => "BUSINESS_REGISTRATION"@,
            EntityKind::CreditCard => "CREDIT_CARD"@,
            EntityKind::BankAccount => "BANK_ACCOUNT"@,
            EntityKind::Phone => "PHONE"@,
            EntityKind::Email => "EMAIL"@,
            EntityKind::DriverLicense => "DRIVER_LICENSE"@,
            EntityKind::BirthDate => "BIRTH_DATE"@,
            EntityKind::Passport => "PASSPORT"@,
        }
    }

    /// The Korean name, for people.
    pub fn label(&self) -> (r: &'static str)
        ensures
            r@ == self.label_text(),
    {
        match self {
            EntityKind::Resident => "주민등록번호",
            EntityKind::ForeignerRegistration => "외국인등록번호",
            EntityKind::BusinessRegistration => "사업자등록번호",
            EntityKind::CreditCard => "카드번호",
            EntityKind::BankAccount => "계좌번호",
            EntityKind::Phone => "전화번호",
            EntityKind::Email => "이메일",
            EntityKind::DriverLicense => "운전면허번호",
            EntityKind::BirthDate => "생년월일",
            EntityKind::Passport => "여권번호",
        }
    }

    /// The identifier, for machines.
    pub fn code(&self) -> (r: &'static str)
        ensures
            r@ == self.code_text(),
    {
        match self {
            EntityKind::Resident => "resident",
            EntityKind::ForeignerRegistration => "foreigner_registration",
            EntityKind::BusinessRegistration => "business_registration",
            EntityKind::CreditCard => "credit_card",
            EntityKind::BankAccount => "bank_account",
            EntityKind::Phone => "phone",
            EntityKind::Email => "email",
            EntityKind::DriverLicense => "driver_license",
            EntityKind::BirthDate => "birth_date",
            EntityKind::Passport => "passport",
        }
    }

    /// The identifier in capital letters, for placeholders in text that is not Korean.
    pub fn code_upper(&self) -> (r: &'static str)
        ensures
            r@ == self.code_upper_text(),
    {
        match self {
            EntityKind::Resident => "RESIDENT",
            EntityKind::ForeignerRegistration => "FOREIGNER_REGISTRATION",
            EntityKind::BusinessRegistration => "BUSINESS_REGISTRATION",
            EntityKind::CreditCard => "CREDIT_CARD",
            EntityKind::BankAccount => "BANK_ACCOUNT",
            EntityKind::Phone => "PHONE",
            EntityKind::Email => "EMAIL",
            EntityKind::DriverLicense => "DRIVER_LICENSE",
            EntityKind::BirthDate => "BIRTH_DATE",
            EntityKind::Passport => "PASSPORT",
        }
    }

    /// The kind with an identifier.
    pub fn from_code(code: &str) -> (r: Option<Self>)
        ensures
            r matches Some(kind) ==> kind.code_text() == code@,
            r is None ==> forall|kind: EntityKind| #[trigger] kind.code_text() != code@,
            forall|kind: EntityKind| #[trigger] kind.code_text() == code@ ==> r == Some(kind),
    {
        let kinds = ALL;
        let mut i: usize = 0;
        while i < 10
            invariant
                i <= 10,
                kinds@ == ALL@,
                forall|k: int| 0 <= k < i ==> (#[trigger] ALL@[k]).code_text() != code@,
            decreases 10 - i,
        {
            let kind = kinds[i];
            if same_text(kind.code(), code) {
                proof {
                    assert forall|other: EntityKind| #[trigger] other.code_text() == code@ implies Some(kind) == Some(
                        other,
                    ) by {
                        law_codes_are_distinct(kind, other);
                    }
                }
                return Some(kind);
            }
            i += 1;
        }
        proof {
            assert forall|kind: EntityKind| #[trigger] kind.code_text() != code@ by {
                lemma_all_is_complete(kind);
            }
        }
        None
    }
}

/// All kinds.
pub const ALL: [EntityKind; 10] = [
    EntityKind::Resident,
    EntityKind::ForeignerRegistration,
    EntityKind::BusinessRegistration,
    EntityKind::CreditCard,
    EntityKind::BankAccount,
    EntityKind::Phone,
    EntityKind::Email,
    EntityKind::DriverLicense,
    EntityKind::BirthDate,
    EntityKind::Passport,
];

/// The list of all kinds leaves none out.
pub proof fn lemma_all_is_complete(kind: EntityKind)
    ensures
        exists|i: int| 0 <= i < 10 && #[trigger] ALL@[i] == kind,
{
    match kind {
        EntityKind::Resident => assert(ALL@[0] == kind),
        EntityKind::ForeignerRegistration => assert(ALL@[1] == kind),
        EntityKind::BusinessRegistration => assert(ALL@[2] == kind),
        EntityKind::CreditCard => assert(ALL@[3] == kind),
        EntityKind::BankAccount => assert(ALL@[4] == kind),
        EntityKind::Phone => assert(ALL@[5] == kind),
        EntityKind::Email => assert(ALL@[6] == kind),
        EntityKind::DriverLicense => assert(ALL@[7] == kind),
        EntityKind::BirthDate => assert(ALL@[8] == kind),
        EntityKind::Passport => assert(ALL@[9] == kind),
    }
}

/// No two kinds share an identifier, so that reading an identifier undoes writing it.
pub proof fn law_codes_are_distinct(a: EntityKind, b: EntityKind)
    requires
        a.code_text() == b.code_text(),
    ensures
        a == b,
{
    reveal_strlit("resident");
    reveal_strlit("foreigner_registration");
    reveal_strlit("business_registration");
    reveal_strlit("credit_card");
    reveal_strlit("bank_account");
    reveal_strlit("phone");
    reveal_strlit("email");
    reveal_strlit("driver_license");
    reveal_strlit("birth_date");
    reveal_strlit("passport");
    let s = a.code_text();
    let t = b.code_text();
    assert(s.len() == t.len());
    assert(s[0] == t[0]);
}

/// The capital of a small ASCII letter. Other characters stay.
pub open spec fn capital(c: char) -> char {
    if 'a' <= c <= 'z' {
        (c as int - 32) as char
    } else {
        c
    }
}

/// The one identifier of a kind is the other in capital letters.
pub proof fn law_codes_differ_in_case_only(kind: EntityKind)
    ensures
        kind.code_upper_text().len() == kind.code_text().len(),
        forall|i: int|
            0 <= i < kind.code_text().len() ==> #[trigger] kind.code_upper_text()[i] == capital(kind.code_text()[i]),
{
    reveal_strlit("resident");
    reveal_strlit("foreigner_registration");
    reveal_strlit("business_registration");
    reveal_strlit("credit_card");
    reveal_strlit("bank_account");
    reveal_strlit("phone");
    reveal_strlit("email");
    reveal_strlit("driver_license");
    reveal_strlit("birth_date");
    reveal_strlit("passport");
    reveal_strlit("RESIDENT");
    reveal_strlit("FOREIGNER_REGISTRATION");
    reveal_strlit("BUSINESS_REGISTRATION");
    reveal_strlit("CREDIT_CARD");
    reveal_strlit("BANK_ACCOUNT");
    reveal_strlit("PHONE");
    reveal_strlit("EMAIL");
    reveal_strlit("DRIVER_LICENSE");
    reveal_strlit("BIRTH_DATE");
    reveal_strlit("PASSPORT");
}

/// How certain a finding is.
#[derive(Debug, Clone, Copy, PartialEq, Eq, PartialOrd, Ord, Structural)]
pub enum Certainty {
    /// The form fits, nothing else is known.
    Possible,
    /// Words nearby speak for it, or there is no check digit for its kind.
    Probable,
    /// The check digit is right.
    Certain,
}

impl Certainty {
    /// The place in the order of certainty.
    pub open spec fn rank(self) -> int {
        match self {
            Certainty::Possible => 0,
            Certainty::Probable => 1,
            Certainty::Certain => 2,
        }
    }

    /// The lower of two.
    pub open spec fn lower(self, other: Certainty) -> Certainty {
        if self.rank() <= other.rank() {
            self
        } else {
            other
        }
    }

    /// The certainty, limited by a ceiling.
    pub fn capped(self, ceiling: Certainty) -> (r: Certainty)
        ensures
            r == self.lower(ceiling),
            r.rank() <= ceiling.rank(),
    {
        match (self, ceiling) {
            (Certainty::Possible, _) => Certainty::Possible,
            (_, Certainty::Possible) => Certainty::Possible,
            (Certainty::Probable, _) => Certainty::Probable,
            (_, Certainty::Probable) => Certainty::Probable,
            _ => Certainty::Certain,
        }
    }
}

/// Something that a run of digits may be.
#[derive(Debug, Clone, Copy)]
pub struct Candidate {
    /// What kind it would be.
    pub entity: EntityKind,
    /// The name of the form that fits.
    pub rule: &'static str,
    /// What the check digit says.
    pub checksum: ChecksumResult,
    /// How certain it can become.
    ///
    /// Kinds without a known check digit cannot become certain, however good their context is.
    pub ceiling: Certainty,
    /// The words that speak for it.
    pub cues: Dictionary,
    /// The score that the form alone is worth, in tenths.
    pub base: u8,
    /// Whether it counts only next to words that speak for it.
    pub needs_context: bool,
}

/// Why hidden digits have no check digit.
pub const HIDDEN: &'static str = "가려진 자리가 있어 검증식을 적용할 수 없다";

/// Some digit is hidden.
pub open spec fn hidden(p: Seq<Option<u8>>) -> bool {
    exists|i: int| 0 <= i < p.len() && (#[trigger] p[i]) is None
}

/// The first `n` digits can be seen.
pub open spec fn shown(p: Seq<Option<u8>>, n: int) -> bool {
    n <= p.len() && forall|i: int| 0 <= i < n ==> (#[trigger] p[i]) is Some
}

/// The digits, with zero for those that are hidden.
pub open spec fn values(p: Seq<Option<u8>>) -> Seq<u8> {
    p.map_values(
        |d: Option<u8>|
            match d {
                Some(v) => v,
                None => 0u8,
            },
    )
}

/// All digits that can be seen are digits.
pub open spec fn decimal_places(p: Seq<Option<u8>>) -> bool {
    forall|i: int| 0 <= i < p.len() ==> ((#[trigger] p[i]) matches Some(d) ==> d < 10)
}

/// The check digit of digits that are partly hidden does not apply.
pub open spec fn checked(p: Seq<Option<u8>>, right: bool) -> ChecksumResult {
    if hidden(p) {
        ChecksumResult::NotApplicable(HIDDEN)
    } else if right {
        ChecksumResult::Passed
    } else {
        ChecksumResult::Failed
    }
}

/// Thirteen digits with a gender digit and a date that exists.
pub open spec fn resident_candidate(p: Seq<Option<u8>>) -> Option<Candidate> {
    let v = values(p);
    if p.len() == 13 && shown(p, 7) && gender_of(v[6]) is Some && resident_date(v) {
        let foreigner = gender_of(v[6]).unwrap().foreigner;
        Some(
            Candidate {
                entity: if foreigner {
                    EntityKind::ForeignerRegistration
                } else {
                    EntityKind::Resident
                },
                rule: if foreigner {
                    "resident.foreigner_13"
                } else {
                    "resident.korean_13"
                },
                checksum: checked(p, v[12] == resident_check(v)),
                ceiling: Certainty::Certain,
                cues: if foreigner {
                    FOREIGNER
                } else {
                    RESIDENT
                },
                base: 6,
                needs_context: hidden(p),
            },
        )
    } else {
        None
    }
}

/// Ten digits.
pub open spec fn business_candidate(p: Seq<Option<u8>>) -> Option<Candidate> {
    if p.len() == 10 {
        Some(
            Candidate {
                entity: EntityKind::BusinessRegistration,
                rule: "business.10",
                checksum: checked(p, values(p)[9] == business_check(values(p))),
                ceiling: Certainty::Certain,
                cues: BUSINESS,
                base: 4,
                needs_context: hidden(p),
            },
        )
    } else {
        None
    }
}

/// Thirteen to nineteen digits.
pub open spec fn card_candidate(p: Seq<Option<u8>>) -> Option<Candidate> {
    if 13 <= p.len() <= 19 {
        Some(
            Candidate {
                entity: EntityKind::CreditCard,
                rule: "card.luhn",
                checksum: checked(p, luhn_passes(values(p))),
                ceiling: Certainty::Certain,
                cues: CARD,
                base: 4,
                needs_context: hidden(p),
            },
        )
    } else {
        None
    }
}

/// A number that begins as a phone number does. It needs no context, so its base lies above the
/// usual threshold by what separators and full-width digits cost.
pub open spec fn phone_candidate(p: Seq<Option<u8>>) -> Option<Candidate> {
    match phone_form(values(p)) {
        Some(rule) => if shown(p, 3) {
            Some(
                Candidate {
                    entity: EntityKind::Phone,
                    rule,
                    checksum: ChecksumResult::NotApplicable("전화번호에는 검증식이 없다"),
                    ceiling: Certainty::Probable,
                    cues: PHONE,
                    base: 6,
                    needs_context: hidden(p),
                },
            )
        } else {
            None
        },
        None => None,
    }
}

/// Twelve digits that begin with the code of a region.
pub open spec fn license_candidate(p: Seq<Option<u8>>) -> Option<Candidate> {
    let v = values(p);
    if p.len() == 12 && shown(p, 2) && is_license_region(v[0] * 10 + v[1]) {
        Some(
            Candidate {
                entity: EntityKind::DriverLicense,
                rule: "license.12",
                checksum: ChecksumResult::NotApplicable("검증 자릿수는 존재하나 계산식이 공개돼 있지 않다"),
                ceiling: Certainty::Probable,
                cues: DRIVER_LICENSE,
                base: 2,
                needs_context: true,
            },
        )
    } else {
        None
    }
}

/// Ten to fourteen digits.
pub open spec fn account_candidate(p: Seq<Option<u8>>) -> Option<Candidate> {
    if 10 <= p.len() <= 14 {
        Some(
            Candidate {
                entity: EntityKind::BankAccount,
                rule: "account.length",
                checksum: ChecksumResult::NotApplicable("은행별 체계가 달라 공통 검증식이 없다"),
                ceiling: Certainty::Probable,
                cues: ACCOUNT,
                base: 1,
                needs_context: true,
            },
        )
    } else {
        None
    }
}

/// Six or eight digits that are a date.
pub open spec fn birth_candidate(p: Seq<Option<u8>>) -> Option<Candidate> {
    match birth_form(values(p)) {
        Some(rule) => if !hidden(p) {
            Some(
                Candidate {
                    entity: EntityKind::BirthDate,
                    rule,
                    checksum: ChecksumResult::NotApplicable("생년월일에는 검증식이 없다"),
                    ceiling: Certainty::Probable,
                    cues: BIRTH_DATE,
                    base: 1,
                    needs_context: true,
                },
            )
        } else {
            None
        },
        None => None,
    }
}

/// One or none.
pub open spec fn listed(c: Option<Candidate>) -> Seq<Candidate> {
    match c {
        Some(c) => seq![c],
        None => Seq::empty(),
    }
}

/// Everything that the digits may be, in a fixed order.
pub open spec fn candidates_of(p: Seq<Option<u8>>) -> Seq<Candidate> {
    listed(resident_candidate(p)) + listed(business_candidate(p)) + listed(card_candidate(p)) + listed(phone_candidate(p))
        + listed(license_candidate(p)) + listed(account_candidate(p)) + listed(birth_candidate(p))
}

/// The last digit of the prefix of a mobile number.
pub open spec fn is_mobile(d: Seq<u8>) -> bool {
    d[0] == 0 && d[1] == 1 && (d[2] == 0 || d[2] == 1 || 6 <= d[2] <= 9)
}

/// A dialling code of a region other than Seoul, or of internet telephony.
pub open spec fn is_area(d: Seq<u8>) -> bool {
    &&& d[0] == 0
    &&& {
        ||| d[1] == 3 && 1 <= d[2] <= 3
        ||| d[1] == 4 && 1 <= d[2] <= 4
        ||| d[1] == 5 && 1 <= d[2] <= 5
        ||| d[1] == 6 && 1 <= d[2] <= 4
        ||| d[1] == 7 && d[2] == 0
    }
}

/// The form of a phone number.
pub open spec fn phone_form(d: Seq<u8>) -> Option<&'static str> {
    let n = d.len();
    if n == 11 && is_mobile(d) {
        Some("phone.mobile_11")
    } else if n == 10 && is_mobile(d) && d[2] != 0 {
        Some("phone.mobile_10")
    } else if 9 <= n <= 10 && d[0] == 0 && d[1] == 2 {
        Some("phone.seoul")
    } else if 10 <= n <= 11 && is_area(d) {
        Some("phone.landline")
    } else if n == 8 && d[0] == 1 && (d[1] == 5 || d[1] == 6 || d[1] == 8) {
        Some("phone.representative")
    } else {
        None
    }
}

/// The code of the region that issued a licence.
pub open spec fn is_license_region(code: int) -> bool {
    11 <= code <= 26 || code == 28
}

/// The form of a date of birth. Of two digits for the year the century is not known, so a date
/// that exists in either counts.
pub open spec fn birth_form(d: Seq<u8>) -> Option<&'static str> {
    if d.len() == 6 {
        let yy = d[0] * 10 + d[1];
        if is_date(1900 + yy, d[2] * 10 + d[3], d[4] * 10 + d[5]) || is_date(2000 + yy, d[2] * 10 + d[3], d[4] * 10 + d[5]) {
            Some("birth.yymmdd")
        } else {
            None
        }
    } else if d.len() == 8 {
        let year = d[0] * 1000 + d[1] * 100 + d[2] * 10 + d[3];
        if 1800 <= year <= 2200 && is_date(year, d[4] * 10 + d[5], d[6] * 10 + d[7]) {
            Some("birth.yyyymmdd")
        } else {
            None
        }
    } else {
        None
    }
}

/// The digits of a text.
pub open spec fn digits_of(text: Seq<char>) -> Seq<u8> {
    Seq::new(text.len(), |i: int| (text[i] as int - 48) as u8)
}

/// The form of the phone number that a text of digits is.
pub fn phone_rule(text: &str) -> (r: Option<&'static str>)
    requires
        all_digits(text@),
    ensures
        r == phone_form(digits_of(text@)),
{
    match to_digits(text) {
        Some(digits) => {
            assert(digits@ =~= digits_of(text@));
            phone_rule_of(digits.as_slice())
        },
        None => None,
    }
}

fn phone_rule_of(d: &[u8]) -> (r: Option<&'static str>)
    ensures
        r == phone_form(d@),
{
    let n: usize = d.len();
    if n < 8 || n > 11 {
        return None;
    }
    let mobile: bool = d[0] == 0 && d[1] == 1 && (d[2] == 0 || d[2] == 1 || (6 <= d[2] && d[2] <= 9));
    let area: bool = d[0] == 0 && ((d[1] == 3 && 1 <= d[2] && d[2] <= 3) || (d[1] == 4 && 1 <= d[2] && d[2] <= 4) || (d[1]
        == 5 && 1 <= d[2] && d[2] <= 5) || (d[1] == 6 && 1 <= d[2] && d[2] <= 4) || (d[1] == 7 && d[2] == 0));
    if n == 11 && mobile {
        return Some("phone.mobile_11");
    }
    if n == 10 && mobile && d[2] != 0 {
        // There are no ten-digit numbers with 010, only with the older prefixes.
        return Some("phone.mobile_10");
    }
    if (n == 9 || n == 10) && d[0] == 0 && d[1] == 2 {
        return Some("phone.seoul");
    }
    if (n == 10 || n == 11) && area {
        return Some("phone.landline");
    }
    if n == 8 && d[0] == 1 && (d[1] == 5 || d[1] == 6 || d[1] == 8) {
        return Some("phone.representative");
    }
    None
}

/// The form of the date of birth that the digits are.
pub fn birth_date_rule(digits: &[u8]) -> (r: Option<&'static str>)
    requires
        forall|i: int| 0 <= i < digits@.len() ==> #[trigger] digits@[i] < 10,
    ensures
        r == birth_form(digits@),
{
    if digits.len() == 6 {
        let yy: u16 = digits[0] as u16 * 10 + digits[1] as u16;
        let month: u8 = digits[2] * 10 + digits[3];
        let day: u8 = digits[4] * 10 + digits[5];
        if is_valid_date(1900 + yy, month, day) || is_valid_date(2000 + yy, month, day) {
            return Some("birth.yymmdd");
        }
        return None;
    }
    if digits.len() == 8 {
        let year: u16 = digits[0] as u16 * 1000 + digits[1] as u16 * 100 + digits[2] as u16 * 10 + digits[3] as u16;
        let month: u8 = digits[4] * 10 + digits[5];
        let day: u8 = digits[6] * 10 + digits[7];
        if 1800 <= year && year <= 2200 && is_valid_date(year, month, day) {
            return Some("birth.yyyymmdd");
        }
    }
    None
}

/// How many digits can be seen before the first hidden one.
fn shown_digits(p: &[Option<u8>]) -> (r: usize)
    ensures
        r <= p@.len(),
        forall|n: int| 0 <= n <= p@.len() ==> (#[trigger] shown(p@, n) <==> n <= r),
        hidden(p@) <==> r < p@.len(),
{
    let mut i: usize = 0;
    while i < p.len() && p[i].is_some()
        invariant
            i <= p@.len(),
            forall|k: int| 0 <= k < i ==> (#[trigger] p@[k]) is Some,
        decreases p@.len() - i,
    {
        i += 1;
    }
    proof {
        assert forall|n: int| 0 <= n <= p@.len() implies (#[trigger] shown(p@, n) <==> n <= i) by {
            if shown(p@, n) && n > i {
                assert(p@[i as int] is Some);
            }
        }
        if i < p@.len() {
            assert(p@[i as int] is None);
        }
    }
    i
}

/// The digits, with zero for those that are hidden.
fn place_values(p: &[Option<u8>]) -> (r: Vec<u8>)
    requires
        decimal_places(p@),
    ensures
        r@ == values(p@),
        forall|i: int| 0 <= i < r@.len() ==> #[trigger] r@[i] < 10,
{
    let mut out: Vec<u8> = Vec::new();
    let mut i: usize = 0;
    while i < p.len()
        invariant
            i <= p@.len(),
            decimal_places(p@),
            out@.len() == i,
            forall|k: int| 0 <= k < i ==> #[trigger] out@[k] < 10 && out@[k] == values(p@)[k],
        decreases p@.len() - i,
    {
        match p[i] {
            Some(d) => {
                assert(p@[i as int] == Some(d));
                out.push(d);
            },
            None => {
                out.push(0);
            },
        }
        i += 1;
    }
    assert(out@ =~= values(p@));
    out
}

fn unless_hidden(c: ChecksumResult, any_hidden: bool) -> (r: ChecksumResult)
    ensures
        r == if any_hidden {
            ChecksumResult::NotApplicable(HIDDEN)
        } else {
            c
        },
{
    if any_hidden {
        ChecksumResult::NotApplicable(HIDDEN)
    } else {
        c
    }
}

/// The registration number that the digits may be.
fn resident_number(p: &[Option<u8>], v: &[u8], seen: usize) -> (r: Option<Candidate>)
    requires
        v@ == values(p@),
        seen <= p@.len(),
        forall|i: int| 0 <= i < v@.len() ==> #[trigger] v@[i] < 10,
        forall|n: int| 0 <= n <= p@.len() ==> (#[trigger] shown(p@, n) <==> n <= seen),
        hidden(p@) <==> seen < p@.len(),
    ensures
        r == resident_candidate(p@),
{
    let any_hidden: bool = seen < p.len();
    if p.len() != 13 || seen < 7 {
        assert(p@.len() == 13 ==> !shown(p@, 7));
        return None;
    }
    assert(shown(p@, 7));
    assert(v@[2] < 10 && v@[3] < 10 && v@[4] < 10 && v@[5] < 10);
    match analyze_resident(v) {
        Some(analysis) => {
            if analysis.birth.is_none() {
                return None;
            }
            let checksum = unless_hidden(analysis.checksum, any_hidden);
            if analysis.gender.foreigner {
                Some(
                    Candidate {
                        entity: EntityKind::ForeignerRegistration,
                        rule: "resident.foreigner_13",
                        checksum,
                        ceiling: Certainty::Certain,
                        cues: FOREIGNER,
                        base: 6,
                        needs_context: any_hidden,
                    },
                )
            } else {
                Some(
                    Candidate {
                        entity: EntityKind::Resident,
                        rule: "resident.korean_13",
                        checksum,
                        ceiling: Certainty::Certain,
                        cues: RESIDENT,
                        base: 6,
                        needs_context: any_hidden,
                    },
                )
            }
        },
        None => None,
    }
}

/// Appends a candidate, if there is one.
fn push_candidate(out: &mut Vec<Candidate>, c: Option<Candidate>)
    ensures
        final(out)@ == old(out)@ + listed(c),
{
    match c {
        Some(c) => {
            out.push(c);
            assert(out@ =~= old(out)@ + listed(Some(c)));
        },
        None => {
            assert(out@ =~= old(out)@ + listed(c));
        },
    }
}

/// Everything that digits, some of them hidden, may be.
///
/// What can be seen decides the form. A hidden digit leaves nothing to check, and such a value
/// counts only next to words that speak for it.
pub fn candidates_in(p: &[Option<u8>]) -> (r: Vec<Candidate>)
    requires
        decimal_places(p@),
    ensures
        r@ == candidates_of(p@),
{
    let v = place_values(p);
    let n: usize = p.len();
    let seen: usize = shown_digits(p);
    let any_hidden: bool = seen < n;
    let mut out: Vec<Candidate> = Vec::new();
    assert(out@ == Seq::<Candidate>::empty());
    push_candidate(&mut out, resident_number(p, v.as_slice(), seen));
    let business: Option<Candidate> = if n == 10 {
        Some(
            Candidate {
                entity: EntityKind::BusinessRegistration,
                rule: "business.10",
                checksum: unless_hidden(business_registration(v.as_slice()), any_hidden),
                ceiling: Certainty::Certain,
                cues: BUSINESS,
                base: 4,
                needs_context: any_hidden,
            },
        )
    } else {
        None
    };
    assert(business == business_candidate(p@));
    push_candidate(&mut out, business);
    let card: Option<Candidate> = if 13 <= n && n <= 19 {
        Some(
            Candidate {
                entity: EntityKind::CreditCard,
                rule: "card.luhn",
                checksum: unless_hidden(luhn(v.as_slice()), any_hidden),
                ceiling: Certainty::Certain,
                cues: CARD,
                base: 4,
                needs_context: any_hidden,
            },
        )
    } else {
        None
    };
    assert(card == card_candidate(p@));
    push_candidate(&mut out, card);
    let phone: Option<Candidate> = match phone_rule_of(v.as_slice()) {
        Some(rule) => {
            assert(shown(p@, 3) <==> 3 <= seen);
            if seen >= 3 {
                Some(
                    Candidate {
                        entity: EntityKind::Phone,
                        rule,
                        checksum: ChecksumResult::NotApplicable("전화번호에는 검증식이 없다"),
                        ceiling: Certainty::Probable,
                        cues: PHONE,
                        base: 6,
                        needs_context: any_hidden,
                    },
                )
            } else {
                None
            }
        },
        None => None,
    };
    push_candidate(&mut out, phone);
    assert(p@.len() >= 2 ==> (shown(p@, 2) <==> 2 <= seen));
    let license: Option<Candidate> = if n == 12 && seen >= 2 && ((11 <= v[0] * 10 + v[1] && v[0] * 10 + v[1] <= 26) || v[0]
        * 10 + v[1] == 28) {
        Some(
            Candidate {
                entity: EntityKind::DriverLicense,
                rule: "license.12",
                checksum: ChecksumResult::NotApplicable("검증 자릿수는 존재하나 계산식이 공개돼 있지 않다"),
                ceiling: Certainty::Probable,
                cues: DRIVER_LICENSE,
                base: 2,
                needs_context: true,
            },
        )
    } else {
        None
    };
    assert(license == license_candidate(p@));
    push_candidate(&mut out, license);
    let account: Option<Candidate> = if 10 <= n && n <= 14 {
        Some(
            Candidate {
                entity: EntityKind::BankAccount,
                rule: "account.length",
                checksum: ChecksumResult::NotApplicable("은행별 체계가 달라 공통 검증식이 없다"),
                ceiling: Certainty::Probable,
                cues: ACCOUNT,
                base: 1,
                needs_context: true,
            },
        )
    } else {
        None
    };
    push_candidate(&mut out, account);
    let birth: Option<Candidate> = match birth_date_rule(v.as_slice()) {
        Some(rule) => if any_hidden {
            None
        } else {
            Some(
                Candidate {
                    entity: EntityKind::BirthDate,
                    rule,
                    checksum: ChecksumResult::NotApplicable("생년월일에는 검증식이 없다"),
                    ceiling: Certainty::Probable,
                    cues: BIRTH_DATE,
                    base: 1,
                    needs_context: true,
                },
            )
        },
        None => None,
    };
    push_candidate(&mut out, birth);
    proof {
        let e = Seq::<Candidate>::empty();
        assert(e + listed(resident_candidate(p@)) =~= listed(resident_candidate(p@)));
    }
    out
}

/// Digits that can all be seen.
pub open spec fn seen(d: Seq<u8>) -> Seq<Option<u8>> {
    d.map_values(|v: u8| Some(v))
}

/// Everything that the digits may be.
pub fn candidates(digits: &[u8]) -> (r: Vec<Candidate>)
    requires
        forall|i: int| 0 <= i < digits@.len() ==> #[trigger] digits@[i] < 10,
    ensures
        r@ == candidates_of(seen(digits@)),
{
    let mut places: Vec<Option<u8>> = Vec::new();
    let mut i: usize = 0;
    while i < digits.len()
        invariant
            i <= digits@.len(),
            places@ =~= seen(digits@.take(i as int)),
        decreases digits@.len() - i,
    {
        places.push(Some(digits[i]));
        i += 1;
    }
    assert(digits@.take(i as int) =~= digits@);
    candidates_in(places.as_slice())
}

/// No candidate without a known check digit can become certain, and whatever has a ceiling below
/// certainty has no check digit that could be right.
pub proof fn law_only_checked_kinds_become_certain(p: Seq<Option<u8>>, i: int)
    requires
        0 <= i < candidates_of(p).len(),
    ensures
        ({
            let c = candidates_of(p)[i];
            &&& c.checksum is Passed ==> c.ceiling == Certainty::Certain
            &&& c.ceiling == Certainty::Certain <==> c.entity == EntityKind::Resident || c.entity
                == EntityKind::ForeignerRegistration || c.entity == EntityKind::BusinessRegistration || c.entity
                == EntityKind::CreditCard
            &&& hidden(p) ==> c.needs_context && c.checksum is NotApplicable
        }),
{
}

} // verus!
