use rust_pii_transformer::normalize::hangul::{apply, NumeralConfig, RULE_DIGIT};

fn run(text: &str) -> String {
    apply(text, &NumeralConfig::default()).0
}

#[test]
fn digit_reading_converts_long_run() {
    assert_eq!(run("팔팔공일공일"), "880101");
}

#[test]
fn digit_reading_preserves_leading_zero() {
    assert_eq!(run("공일공일이삼사"), "0101234");
}

#[test]
fn digit_reading_needs_context_when_short() {
    // 세 자리는 문맥이 없으면 그대로 둔다.
    assert_eq!(run("공일공"), "공일공");
    // 뒤에 숫자 표지가 붙으면 변환한다.
    assert_eq!(run("공일공번"), "010번");
}

#[test]
fn unit_reading_computes_value() {
    assert_eq!(run("구십일년"), "91년");
    assert_eq!(run("이천이십사년"), "2024년");
    assert_eq!(run("천구백팔십팔년"), "1988년");
}

#[test]
fn unit_reading_handles_man_and_eok() {
    assert_eq!(run("일억이천만원"), "120000000원");
}

#[test]
fn unit_only_run_is_left_alone() {
    // 숫자 음절이 없는 단위어는 일상어로 본다.
    assert_eq!(run("만원"), "만원");
    assert_eq!(run("천만"), "천만");
}

#[test]
fn everyday_words_are_left_alone() {
    assert_eq!(run("사구려"), "사구려");
    assert_eq!(run("이사 갑니다"), "이사 갑니다");
    assert_eq!(run("구이를 먹었다"), "구이를 먹었다");
}

#[test]
fn native_numerals_are_read() {
    assert_eq!(run("하나둘셋넷다섯여섯"), "123456");
}

#[test]
fn seven_is_not_split_into_one() {
    // `일곱` 을 `일` + `곱` 으로 자르면 런이 끊긴다. 두 음절 표를 먼저 보는 이유다.
    assert_eq!(run("일곱여덟아홉하나둘셋"), "789123");
}

#[test]
fn rejects_malformed_unit_sequence() {
    // `이삼십` 은 정상 수사가 아니다. 계산을 포기하고 원문을 그대로 둔다.
    assert_eq!(run("이삼십년"), "이삼십년");
}

#[test]
fn map_recovers_source_span() {
    let src = "팔팔공일공일";
    let (out, map) = apply(src, &NumeralConfig::default());
    assert_eq!(out, "880101");
    map.validate().unwrap();
    let recovered = map.to_source(&rust_pii_transformer::span::Span::new(0..6, 0..6));
    assert_eq!(recovered.span.byte, 0..18, "한글 6음절은 18바이트다");
    assert_eq!(recovered.cost.expanded_syllables, 6);
    assert_eq!(recovered.rules, vec![RULE_DIGIT]);
}

#[test]
fn threshold_is_configurable() {
    let cfg = NumeralConfig {
        min_digits_without_context: 3,
        ..Default::default()
    };
    assert_eq!(apply("공일공", &cfg).0, "010");
}
