use rust_pii_transformer::normalize::fold::apply;

#[test]
fn folds_fullwidth_digits() {
    let (out, _) = apply("８８０１０１");
    assert_eq!(out, "880101");
}

#[test]
fn folds_fullwidth_hyphen_and_at_sign() {
    let (out, _) = apply("８８０１０１－１");
    assert_eq!(out, "880101-1");
    let (out, _) = apply("kim＠example.com");
    assert_eq!(out, "kim@example.com");
}

#[test]
fn folds_space_variants() {
    let (out, _) = apply("880101\u{3000}1234567");
    assert_eq!(out, "880101 1234567");
}

#[test]
fn folds_dash_variants() {
    let (out, _) = apply("880101\u{2013}1234567");
    assert_eq!(out, "880101-1234567");
}

#[test]
fn leaves_letter_digit_confusables_alone() {
    // 유사문자 교정을 하지 않는다는 결정의 회귀 방지 테스트다.
    let (out, map) = apply("POLO hello");
    assert_eq!(out, "POLO hello");
    assert!(map.is_identity());
}

#[test]
fn maps_every_folded_char_without_snapping() {
    let src = "８８０１０１";
    let (out, map) = apply(src);
    map.validate().unwrap();
    // 정규화문 첫 두 글자(반각 2바이트)는 원문에서 전각 2글자(6바이트)다.
    let recovered = map.to_source(&rust_pii_transformer::span::Span::new(0..2, 0..2));
    assert_eq!(out, "880101");
    assert_eq!(recovered.span.byte, 0..6);
    assert!(!recovered.snapped, "문자 대 문자 변환이라 스냅이 붙으면 안 된다");
}
