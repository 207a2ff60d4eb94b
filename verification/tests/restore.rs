use rust_pii_transformer::detect::EntityKind;
use rust_pii_transformer::mask::{unmask, RestoreMap};
use rust_pii_transformer::Error;

#[test]
fn a_plain_text_gets_the_default_prefix() {
    let map = RestoreMap::for_text("주민등록번호 880101-1234568");
    assert_eq!(map.prefix(), "PII");
}

#[test]
fn a_colliding_text_gets_a_different_prefix() {
    // 원문이 이미 토큰처럼 생긴 문자열을 갖고 있으면 접두어를 바꾼다.
    let map = RestoreMap::for_text("로그에 [[PII:0]] 가 남아 있다");
    assert_ne!(map.prefix(), "PII");
    assert!(!"로그에 [[PII:0]] 가 남아 있다".contains(&format!("[[{}:", map.prefix())));
}

#[test]
fn repeated_collisions_keep_climbing() {
    let text = "[[PII:0]] [[PII0:1]] [[PII1:2]]";
    let map = RestoreMap::for_text(text);
    assert!(!text.contains(&format!("[[{}:", map.prefix())));
}

#[test]
fn unmask_restores_byte_for_byte() {
    let mut map = RestoreMap::for_text("원문");
    let a = map.push(EntityKind::Resident, "880101-1234568");
    let b = map.push(EntityKind::Phone, "010-1234-5678");
    let masked = format!("주민 {a} 연락처 {b} 끝");
    assert_eq!(unmask(&masked, &map).unwrap(), "주민 880101-1234568 연락처 010-1234-5678 끝");
}

#[test]
fn text_without_tokens_passes_through() {
    let map = RestoreMap::for_text("x");
    assert_eq!(unmask("아무 토큰도 없다", &map).unwrap(), "아무 토큰도 없다");
}

#[test]
fn an_unknown_token_number_is_an_error() {
    let mut map = RestoreMap::for_text("x");
    map.push(EntityKind::Email, "a@b.com");
    let err = unmask("[[PII:7]]", &map).unwrap_err();
    assert!(matches!(err, Error::RestoreToken { .. }));
}

#[test]
fn a_malformed_token_is_an_error() {
    let mut map = RestoreMap::for_text("x");
    map.push(EntityKind::Email, "a@b.com");
    assert!(unmask("[[PII:abc]]", &map).is_err());
    assert!(unmask("[[PII:0", &map).is_err());
}
