use rust_pii_transformer::normalize::lookalike::{apply, RULE_LOOKALIKE};

fn out(text: &str) -> String {
    apply(text).0
}

#[test]
fn converts_lookalikes_between_digits() {
    assert_eq!(out("88O1O1"), "880101");
    assert_eq!(out("4l11"), "4111");
    assert_eq!(out("2I34"), "2134");
}

#[test]
fn skips_separators_when_looking_at_both_sides() {
    // 구분자 흡수보다 먼저 도는 패스라 붙임표가 아직 남아 있다.
    assert_eq!(out("88-O1-O1"), "88-01-01");
    assert_eq!(out("1234 O567"), "1234 0567");
}

#[test]
fn leaves_ordinary_words_alone() {
    for text in ["POLO", "Hello World", "모델 O 타입", "50l", "l50", "OO"] {
        assert_eq!(out(text), text, "정상 텍스트를 훼손했다: {text}");
    }
}

#[test]
fn a_lookalike_at_either_edge_is_untouched() {
    assert_eq!(out("O123"), "O123", "왼쪽이 없다");
    assert_eq!(out("123O"), "123O", "오른쪽이 없다");
}

#[test]
fn masking_characters_count_as_digit_positions() {
    assert_eq!(out("12*O*5"), "12*0*5");
}

#[test]
fn the_mapping_records_the_cost_and_rule() {
    let (text, map) = apply("88O1O1");
    map.validate().unwrap();
    assert_eq!(text, "880101");

    let src = map.to_source(&rust_pii_transformer::span::Span::new(0..6, 0..6));
    assert_eq!(src.span.byte, 0..6);
    assert_eq!(src.rules, vec![RULE_LOOKALIKE]);
    assert_eq!(src.cost.replaced_chars, 2);
}

#[test]
fn text_without_lookalikes_takes_the_fast_path() {
    let (text, map) = apply("880101");
    assert_eq!(text, "880101");
    assert!(map.is_identity());
}
