//! The names of the kinds.

use vstd::prelude::*;
use crate::detect::entity::EntityKind;

verus! {

/// The English words that name a kind.
pub open spec fn words_of(kind: EntityKind) -> (Seq<char>, Option<Seq<char>>) {
    match kind {
        EntityKind::Resident => ("resident"@, None),
        EntityKind::ForeignerRegistration => ("foreigner"@, Some("registration"@)),
        EntityKind::BusinessRegistration => ("business"@, Some("registration"@)),
        EntityKind::CreditCard => ("credit"@, Some("card"@)),
        EntityKind::BankAccount => ("bank"@, Some("account"@)),
        EntityKind::Phone => ("phone"@, None),
        EntityKind::Email => ("email"@, None),
        EntityKind::DriverLicense => ("driver"@, Some("license"@)),
        EntityKind::BirthDate => ("birth"@, Some("date"@)),
        EntityKind::Passport => ("passport"@, None),
    }
}

/// The identifier of a kind is its English words, joined by a low line.
pub proof fn law_codes_are_words_joined(kind: EntityKind)
    ensures
        kind.code_text() == match words_of(kind) {
            (a, Some(b)) => a + seq!['_'] + b,
            (a, None) => a,
        },
{
    reveal_strlit("resident");
    reveal_strlit("foreigner_registration");
    reveal_strlit("foreigner");
    reveal_strlit("registration");
    reveal_strlit("business_registration");
    reveal_strlit("business");
    reveal_strlit("credit_card");
    reveal_strlit("credit");
    reveal_strlit("card");
    reveal_strlit("bank_account");
    reveal_strlit("bank");
    reveal_strlit("account");
    reveal_strlit("phone");
    reveal_strlit("email");
    reveal_strlit("driver_license");
    reveal_strlit("driver");
    reveal_strlit("license");
    reveal_strlit("birth_date");
    reveal_strlit("birth");
    reveal_strlit("date");
    reveal_strlit("passport");
    match words_of(kind) {
        (a, Some(b)) => assert(kind.code_text() =~= a + seq!['_'] + b),
        (a, None) => assert(kind.code_text() =~= a),
    }
}

/// What people call a kind, syllable by syllable.
pub proof fn law_labels_are_what_people_say(kind: EntityKind)
    ensures
        kind.label_text() == match kind {
            EntityKind::Resident => seq!['주', '민', '등', '록', '번', '호'],
            EntityKind::ForeignerRegistration => seq!['외', '국', '인', '등', '록', '번', '호'],
            EntityKind::BusinessRegistration => seq!['사', '업', '자', '등', '록', '번', '호'],
            EntityKind::CreditCard => seq!['카', '드', '번', '호'],
            EntityKind::BankAccount => seq!['계', '좌', '번', '호'],
            EntityKind::Phone => seq!['전', '화', '번', '호'],
            EntityKind::Email => seq!['이', '메', '일'],
            EntityKind::DriverLicense => seq!['운', '전', '면', '허', '번', '호'],
            EntityKind::BirthDate => seq!['생', '년', '월', '일'],
            EntityKind::Passport => seq!['여', '권', '번', '호'],
        },
{
    reveal_strlit("주민등록번호");
    reveal_strlit("외국인등록번호");
    reveal_strlit("사업자등록번호");
    reveal_strlit("카드번호");
    reveal_strlit("계좌번호");
    reveal_strlit("전화번호");
    reveal_strlit("이메일");
    reveal_strlit("운전면허번호");
    reveal_strlit("생년월일");
    reveal_strlit("여권번호");
    match kind {
        EntityKind::Resident => assert(kind.label_text() =~= seq!['주', '민', '등', '록', '번', '호']),
        EntityKind::ForeignerRegistration => assert(kind.label_text() =~= seq!['외', '국', '인', '등', '록', '번', '호']),
        EntityKind::BusinessRegistration => assert(kind.label_text() =~= seq!['사', '업', '자', '등', '록', '번', '호']),
        EntityKind::CreditCard => assert(kind.label_text() =~= seq!['카', '드', '번', '호']),
        EntityKind::BankAccount => assert(kind.label_text() =~= seq!['계', '좌', '번', '호']),
        EntityKind::Phone => assert(kind.label_text() =~= seq!['전', '화', '번', '호']),
        EntityKind::Email => assert(kind.label_text() =~= seq!['이', '메', '일']),
        EntityKind::DriverLicense => assert(kind.label_text() =~= seq!['운', '전', '면', '허', '번', '호']),
        EntityKind::BirthDate => assert(kind.label_text() =~= seq!['생', '년', '월', '일']),
        EntityKind::Passport => assert(kind.label_text() =~= seq!['여', '권', '번', '호']),
    }
}

} // verus!
