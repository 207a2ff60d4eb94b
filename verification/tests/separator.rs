use rust_pii_transformer::normalize::separator::apply;

fn run(text: &str) -> String {
    apply(text).0
}

#[test]
fn absorbs_hyphen_between_digits() {
    assert_eq!(run("880101-1234567"), "8801011234567");
}

#[test]
fn absorbs_mixed_separator_run() {
    assert_eq!(run("880101 - 1234567"), "8801011234567");
}

#[test]
fn absorbs_phone_dots() {
    assert_eq!(run("010.1234.5678"), "01012345678");
}

#[test]
fn does_not_join_across_words() {
    // 이 패스가 존재하는 이유이자 가장 중요한 음성 사례다.
    assert_eq!(run("제품 1234 수량 5678"), "제품 1234 수량 5678");
}

#[test]
fn does_not_absorb_leading_or_trailing_separator() {
    assert_eq!(run("- 880101"), "- 880101");
    assert_eq!(run("880101 -"), "880101 -");
}

#[test]
fn does_not_absorb_newline() {
    assert_eq!(run("880101\n1234567"), "880101\n1234567");
}

#[test]
fn counts_cost_by_class() {
    let (out, map) = apply("880101 - 1234567");
    assert_eq!(out, "8801011234567");
    map.validate().unwrap();
    let recovered = map.to_source(&rust_pii_transformer::span::Span::new(0..13, 0..13));
    assert_eq!(recovered.cost.absorbed_whitespace, 2, "공백 두 개");
    assert_eq!(recovered.cost.absorbed_separators, 1, "붙임표 한 개");
    assert_eq!(recovered.span.byte, 0..16);
}
