use rust_pii_transformer::detect::checksum::to_digits;
use rust_pii_transformer::detect::entity::{birth_date_rule, candidates, phone_rule, ALL};
use rust_pii_transformer::detect::{Certainty, ChecksumResult, EntityKind};

fn digits(s: &str) -> Vec<u8> {
    to_digits(s).unwrap()
}

#[test]
fn code_upper_is_the_uppercase_of_code() {
    for kind in &ALL {
        assert_eq!(
            kind.code_upper(),
            kind.code().to_uppercase(),
            "{kind:?} 의 두 이름이 갈라졌다"
        );
    }
}

#[test]
fn every_entity_has_all_three_names_and_round_trips() {
    for kind in &ALL {
        assert!(!kind.label().is_empty());
        assert!(kind.code_upper().is_ascii(), "{kind:?} 의 영문 이름에 비아스키가 있다");
        assert_eq!(EntityKind::from_code(kind.code()), Some(*kind));
    }
    assert_eq!(EntityKind::from_code("nope"), None);
}

#[test]
fn the_all_list_has_no_duplicates() {
    let mut codes: Vec<&str> = ALL.iter().map(|k| k.code()).collect();
    let total = codes.len();
    codes.sort_unstable();
    codes.dedup();
    assert_eq!(codes.len(), total, "ALL 에 중복이 있다");
}

fn kinds(s: &str) -> Vec<EntityKind> {
    candidates(&digits(s)).iter().map(|c| c.entity).collect()
}

#[test]
fn thirteen_digits_with_valid_date_is_a_resident_number() {
    let kinds = kinds("8801011234567");
    assert!(kinds.contains(&EntityKind::Resident));
    assert!(!kinds.contains(&EntityKind::ForeignerRegistration));
}

#[test]
fn gender_code_five_makes_it_a_foreigner_number() {
    let kinds = kinds("8801015234567");
    assert!(kinds.contains(&EntityKind::ForeignerRegistration));
    assert!(!kinds.contains(&EntityKind::Resident));
}

#[test]
fn thirteen_digits_with_impossible_date_is_not_a_resident_number() {
    // 13월 32일. 검증식 이전에 날짜가 아니다.
    let kinds = kinds("8813321234567");
    assert!(!kinds.contains(&EntityKind::Resident));
    assert!(!kinds.contains(&EntityKind::ForeignerRegistration));
}

#[test]
fn thirteen_digits_can_still_be_a_card() {
    // 같은 런이 여러 후보를 낳는 것이 정상이다.
    assert!(kinds("8801011234567").contains(&EntityKind::CreditCard));
}

#[test]
fn ten_digits_yield_business_account_and_maybe_phone() {
    let kinds = kinds("1248100998");
    assert!(kinds.contains(&EntityKind::BusinessRegistration));
    assert!(kinds.contains(&EntityKind::BankAccount));
}

#[test]
fn business_checksum_is_carried_on_the_candidate() {
    let cs = candidates(&digits("1248100998"));
    let business = cs
        .iter()
        .find(|c| c.entity == EntityKind::BusinessRegistration)
        .unwrap();
    assert!(business.checksum.passed());
    assert_eq!(business.ceiling, Certainty::Certain);
}

#[test]
fn phone_shapes_are_classified() {
    assert_eq!(phone_rule("01012345678"), Some("phone.mobile_11"));
    assert_eq!(phone_rule("0111234567"), Some("phone.mobile_10"));
    assert_eq!(phone_rule("0212345678"), Some("phone.seoul"));
    assert_eq!(phone_rule("021234567"), Some("phone.seoul"));
    assert_eq!(phone_rule("0311234567"), Some("phone.landline"));
    assert_eq!(phone_rule("07012345678"), Some("phone.landline"));
    assert_eq!(phone_rule("15881234"), Some("phone.representative"));
}

#[test]
fn non_phone_shapes_are_rejected() {
    assert_eq!(phone_rule("0101234567"), None, "010 은 열 자리가 없다");
    assert_eq!(phone_rule("0991234567"), None, "099 는 지역번호가 아니다");
    assert_eq!(phone_rule("12345678"), None);
}

#[test]
fn driver_license_needs_a_known_region_code() {
    assert!(kinds("111234567890").contains(&EntityKind::DriverLicense));
    assert!(!kinds("991234567890").contains(&EntityKind::DriverLicense));
}

#[test]
fn driver_license_can_never_reach_certain() {
    let cs = candidates(&digits("111234567890"));
    let license = cs
        .iter()
        .find(|c| c.entity == EntityKind::DriverLicense)
        .unwrap();
    assert_eq!(license.ceiling, Certainty::Probable);
    assert!(matches!(license.checksum, ChecksumResult::NotApplicable(_)));
}

#[test]
fn account_and_license_need_context() {
    for (number, entity) in [
        ("1234567890123", EntityKind::BankAccount),
        ("111234567890", EntityKind::DriverLicense),
    ] {
        let cs = candidates(&digits(number));
        let found = cs.iter().find(|c| c.entity == entity).unwrap();
        assert!(found.needs_context, "{} 는 문맥이 필수다", entity.label());
    }
}

#[test]
fn birth_dates_are_recognized() {
    assert_eq!(birth_date_rule(&digits("880101")), Some("birth.yymmdd"));
    assert_eq!(birth_date_rule(&digits("19880101")), Some("birth.yyyymmdd"));
    assert_eq!(birth_date_rule(&digits("881301")), None, "13월은 없다");
    assert_eq!(birth_date_rule(&digits("880230")), None, "2월 30일은 없다");
    assert_eq!(birth_date_rule(&digits("000229")), Some("birth.yymmdd"), "2000년은 윤년");
}

#[test]
fn plain_number_yields_only_weak_candidates() {
    // 주문번호처럼 아무 의미 없는 열두 자리.
    let cs = candidates(&digits("987654321098"));
    assert!(
        cs.iter().all(|c| c.needs_context || c.ceiling == Certainty::Probable),
        "약한 후보만 나와야 한다"
    );
}
