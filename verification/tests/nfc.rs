use rust_pii_transformer::normalize::nfc::{apply, RULE_JAMO};

#[test]
fn composes_lead_vowel_trail() {
    let (out, _) = apply("\u{1112}\u{1161}\u{11AB}");
    assert_eq!(out, "한");
}

#[test]
fn composes_lead_vowel_without_trail() {
    let (out, _) = apply("\u{1112}\u{1161}");
    assert_eq!(out, "하");
}

#[test]
fn attaches_trail_to_precomposed_syllable() {
    let (out, _) = apply("하\u{11AB}");
    assert_eq!(out, "한");
}

#[test]
fn leaves_precomposed_text_untouched() {
    let (out, map) = apply("한글 880101");
    assert_eq!(out, "한글 880101");
    assert!(map.is_identity());
}

#[test]
fn leaves_compatibility_jamo_alone() {
    // U+3131 은 낱자 자체를 뜻하는 별개 문자다. 표준 정규화 형식 C 도 조합하지 않는다.
    let (out, map) = apply("\u{3131}\u{3161}");
    assert_eq!(out, "\u{3131}\u{3161}");
    assert!(map.is_identity());
}

#[test]
fn leaves_dangling_lead_alone() {
    let (out, _) = apply("\u{1112}김");
    assert_eq!(out, "\u{1112}김");
}

#[test]
fn map_recovers_source_bytes() {
    let src = "\u{1112}\u{1161}\u{11AB}글";
    let (out, map) = apply(src);
    assert_eq!(out, "한글");
    map.validate().unwrap();
    // 정규화문의 '한' 한 글자가 원문에서는 자모 세 개(9바이트)다.
    let recovered = map.to_source(&rust_pii_transformer::span::Span::new(0..3, 0..1));
    assert_eq!(recovered.span.byte, 0..9);
    assert_eq!(recovered.rules, vec![RULE_JAMO]);
}
