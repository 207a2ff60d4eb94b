use rust_pii_transformer::detect::checksum::{
    analyze_resident, business_registration, gender_code, is_valid_date, luhn, to_digits, GenderCode,
};
use rust_pii_transformer::detect::ChecksumResult;

fn digits(s: &str) -> Vec<u8> {
    to_digits(s).unwrap()
}

/// 검증식이 실제로 존재하는지 확인하는 통계적 성질.
///
/// 모듈로 10 검증식이 있으면 무작위 번호의 통과율이 10퍼센트 근처여야 한다. 검증식이
/// 없거나 구현이 틀리면 이 값이 크게 벗어난다. 고정 시드 선형 합동 생성기를 쓴다.
fn random_pass_rate(len: usize, check: impl Fn(&[u8]) -> bool) -> f64 {
    let mut state: u64 = 0x2545_F491_4F6C_DD1D;
    let mut next = || {
        state = state
            .wrapping_mul(6364136223846793005)
            .wrapping_add(1442695040888963407);
        ((state >> 33) % 10) as u8
    };
    let rounds = 20_000;
    let mut passed = 0;
    for _ in 0..rounds {
        let candidate: Vec<u8> = (0..len).map(|_| next()).collect();
        if check(&candidate) {
            passed += 1;
        }
    }
    f64::from(passed) / f64::from(rounds)
}

#[test]
fn business_registration_accepts_real_numbers() {
    // 공개된 실재 사업자등록번호 표본이다. 알고리즘이 공식 문서에 없으므로 이 표본이
    // 근거의 자리를 대신한다.
    for number in [
        "1248100998", // 삼성전자
        "2208162517", // 네이버
        "1208147521", // 카카오
        "1078614075", // LG전자
        "1048137225", // SK텔레콤
        "1018109147", // 현대자동차
        "1108128774", // 포스코
    ] {
        assert!(
            business_registration(&digits(number)).passed(),
            "실재 사업자등록번호가 떨어졌다: {number}"
        );
    }
}

#[test]
fn business_registration_rejects_tampered_digit() {
    // 마지막 자리를 하나 바꾸면 반드시 떨어져야 한다.
    let mut d = digits("1248100998");
    d[9] = (d[9] + 1) % 10;
    assert!(business_registration(&d).failed());
}

#[test]
fn business_registration_has_a_real_check_digit() {
    let rate = random_pass_rate(10, |d| business_registration(d).passed());
    assert!(
        (0.08..0.12).contains(&rate),
        "모듈로 10 검증식이면 통과율이 10퍼센트 근처여야 한다. 실측 {rate}"
    );
}

#[test]
fn business_registration_rejects_wrong_length() {
    assert!(matches!(
        business_registration(&digits("123456789")),
        ChecksumResult::NotApplicable(_)
    ));
}

#[test]
fn luhn_accepts_standard_test_numbers() {
    // 카드사가 공개한 시험용 번호다. 실재 계좌에 연결되지 않는다.
    for number in [
        "4111111111111111", // Visa
        "5500005555555559", // Mastercard
        "378282246310005",  // American Express
        "6011111111111117", // Discover
    ] {
        assert!(luhn(&digits(number)).passed(), "시험 번호가 떨어졌다: {number}");
    }
}

#[test]
fn luhn_rejects_tampered_digit() {
    assert!(luhn(&digits("4111111111111112")).failed());
}

#[test]
fn luhn_has_a_real_check_digit() {
    let rate = random_pass_rate(16, |d| luhn(d).passed());
    assert!((0.08..0.12).contains(&rate), "실측 {rate}");
}

#[test]
fn resident_reads_gender_code() {
    assert_eq!(
        gender_code(1),
        Some(GenderCode { century: 1900, foreigner: false })
    );
    assert_eq!(
        gender_code(4),
        Some(GenderCode { century: 2000, foreigner: false })
    );
    assert_eq!(
        gender_code(6),
        Some(GenderCode { century: 1900, foreigner: true })
    );
    assert_eq!(
        gender_code(8),
        Some(GenderCode { century: 2000, foreigner: true })
    );
    assert_eq!(
        gender_code(0),
        Some(GenderCode { century: 1800, foreigner: false })
    );
}

/// 검증식을 만족하는 13자리를 만들어 낸다. 앞 12자리는 시험용 고정값이다.
fn make_resident(prefix: &str, foreigner: bool) -> Vec<u8> {
    let mut d = digits(prefix);
    assert_eq!(d.len(), 12);
    let sum: u32 = d
        .iter()
        .zip([2u32, 3, 4, 5, 6, 7, 8, 9, 2, 3, 4, 5])
        .map(|(x, w)| u32::from(*x) * w)
        .sum();
    let base = (11 - (sum % 11)) % 10;
    let check = if foreigner { (base + 2) % 10 } else { base };
    d.push(check as u8);
    d
}

#[test]
fn resident_checksum_round_trips() {
    let korean = make_resident("880101112345", false);
    let analysis = analyze_resident(&korean).unwrap();
    assert!(analysis.checksum.passed());
    assert!(!analysis.gender.foreigner);
    assert_eq!(analysis.birth, Some((1988, 1, 1)));
}

#[test]
fn foreigner_checksum_uses_the_plus_two_variant() {
    let foreigner = make_resident("880101512345", true);
    let analysis = analyze_resident(&foreigner).unwrap();
    assert!(analysis.checksum.passed());
    assert!(analysis.gender.foreigner);

    // 내국인 식으로 계산하면 떨어져야 한다. 두 식이 실제로 다르다는 확인이다.
    let wrong = make_resident("880101512345", false);
    assert!(analyze_resident(&wrong).unwrap().checksum.failed());
}

#[test]
fn resident_rejects_impossible_date() {
    // 13월 32일. 검증식은 통과하더라도 날짜가 없으므로 birth 가 None 이다.
    let d = make_resident("881332112345", false);
    let analysis = analyze_resident(&d).unwrap();
    assert!(analysis.checksum.passed());
    assert_eq!(analysis.birth, None);
}

#[test]
fn resident_rejects_out_of_range_gender_code() {
    // 성별코드는 0에서 8까지다. 9는 1800년대라 유효하고, 그 밖은 없다.
    let mut d = make_resident("880101112345", false);
    d[6] = 9;
    assert!(analyze_resident(&d).is_some(), "9는 1800년대라 유효하다");

    assert_eq!(analyze_resident(&digits("123456789012")), None, "12자리는 형식이 아니다");
}

#[test]
fn resident_checksum_can_fail_on_a_real_number() {
    // 2020년 10월 이후 발급분은 검증식이 성립하지 않는다. 그 상황을 흉내 낸 값이다.
    // 탐지 층은 이것을 버리지 않고 등급만 낮춘다.
    let mut d = make_resident("880101112345", false);
    d[12] = (d[12] + 1) % 10;
    let analysis = analyze_resident(&d).unwrap();
    assert!(analysis.checksum.failed());
    assert_eq!(analysis.birth, Some((1988, 1, 1)), "날짜는 여전히 유효하다");
}

#[test]
fn leap_year_rules_follow_the_gregorian_calendar() {
    assert!(is_valid_date(2024, 2, 29), "2024는 윤년");
    assert!(!is_valid_date(1900, 2, 29), "1900은 100의 배수라 평년");
    assert!(is_valid_date(2000, 2, 29), "2000은 400의 배수라 윤년");
    assert!(!is_valid_date(2023, 2, 29), "2023은 평년");
    assert!(!is_valid_date(2024, 4, 31), "4월은 30일까지");
    assert!(!is_valid_date(2024, 0, 1));
    assert!(!is_valid_date(2024, 13, 1));
}

#[test]
fn to_digits_rejects_non_digits() {
    assert_eq!(to_digits("0123"), Some(vec![0, 1, 2, 3]));
    assert_eq!(to_digits("01-23"), None);
    assert_eq!(to_digits(""), Some(vec![]));
}
