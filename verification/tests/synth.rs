use rust_pii_transformer::detect::{checksum, EntityKind};
use rust_pii_transformer::synth::notation::{render, to_lookalike};
use rust_pii_transformer::synth::value::{business, card, resident};
use rust_pii_transformer::synth::{corpus, negative, positive, variants_for, Rng, Variant, ENTITIES};

#[test]
fn generated_resident_numbers_pass_the_real_validator() {
    let mut rng = Rng::new(1);
    for _ in 0..200 {
        let value = resident(&mut rng, false);
        let digits = checksum::to_digits(&value).unwrap();
        let analysis = checksum::analyze_resident(&digits).expect("13자리여야 한다");
        assert!(analysis.checksum.passed(), "{value} 가 검증식을 통과하지 못했다");
        assert!(analysis.birth.is_some(), "{value} 의 앞자리가 실재 날짜가 아니다");
        assert!(!analysis.gender.foreigner);
    }
}

#[test]
fn generated_foreigner_numbers_use_the_foreigner_gender_range() {
    let mut rng = Rng::new(2);
    for _ in 0..200 {
        let value = resident(&mut rng, true);
        let digits = checksum::to_digits(&value).unwrap();
        let analysis = checksum::analyze_resident(&digits).unwrap();
        assert!(analysis.checksum.passed());
        assert!(analysis.gender.foreigner);
    }
}

#[test]
fn generated_business_numbers_pass_the_real_validator() {
    let mut rng = Rng::new(3);
    for _ in 0..200 {
        let value = business(&mut rng);
        let digits = checksum::to_digits(&value).unwrap();
        assert!(checksum::business_registration(&digits).passed(), "{value}");
    }
}

#[test]
fn generated_cards_pass_luhn() {
    let mut rng = Rng::new(4);
    for _ in 0..200 {
        let value = card(&mut rng);
        assert_eq!(value.len(), 16);
        let digits = checksum::to_digits(&value).unwrap();
        assert!(checksum::luhn(&digits).passed(), "{value}");
    }
}

#[test]
fn variants_render_the_same_value_differently() {
    let value = "8801011234568";
    assert_eq!(render(EntityKind::Resident, value, Variant::Plain), "8801011234568");
    assert_eq!(render(EntityKind::Resident, value, Variant::Hyphen), "880101-1234568");
    assert_eq!(render(EntityKind::Resident, value, Variant::Space), "880101 1234568");
    assert_eq!(
        render(EntityKind::Resident, value, Variant::Fullwidth),
        "８８０１０１１２３４５６８"
    );
    assert_eq!(
        render(EntityKind::Resident, value, Variant::HangulDigits),
        "팔팔공일공일-1234568"
    );
    assert_eq!(
        render(EntityKind::Resident, value, Variant::Masked),
        "8801011******"
    );
    assert_eq!(
        render(EntityKind::Resident, value, Variant::SentenceEnding),
        "팔팔공일공일일이삼사오육팔이래요"
    );
}

/// 바꾼 자리끼리 붙으면 교정 패스가 양쪽 다 포기한다.
#[test]
fn lookalike_substitutions_never_touch_or_reach_the_edges() {
    assert_eq!(to_lookalike("8801011234568", 2), "88O1O11234568");
    assert_eq!(to_lookalike("0000000", 2), "0O0O000", "붙지 않게 한 칸 띄운다");
    assert_eq!(to_lookalike("1234561", 2), "1234561", "양 끝은 안 바꾼다");
}

/// 유사문자 표기가 정규화를 거쳐 원래 숫자로 돌아와야 코퍼스가 의미를 갖는다.
#[test]
fn lookalike_rendering_survives_normalization() {
    let cfg = rust_pii_transformer::normalize::NormalizeConfig::default();
    let out = rust_pii_transformer::normalize::normalize(&to_lookalike("8801011234568", 2), &cfg).unwrap();
    assert_eq!(out.text, "8801011234568");
}

#[test]
fn the_gold_span_points_at_the_value() {
    let mut rng = Rng::new(5);
    for entity in ENTITIES {
        for variant in variants_for(entity) {
            let sample = positive(&mut rng, entity, variant, true);
            let slice = &sample.text[sample.span.start as usize..sample.span.end as usize];
            assert!(
                sample.text.contains(slice),
                "{entity:?} {variant:?} 의 정답 스팬이 문장을 벗어났다"
            );
            assert!(!slice.is_empty());
            assert!(
                !slice.starts_with(' ') && !slice.ends_with(' '),
                "{entity:?} {variant:?}: 정답 스팬에 앞뒤 공백이 붙었다"
            );
        }
    }
}

#[test]
fn the_corpus_is_deterministic() {
    assert_eq!(corpus(7, 2), corpus(7, 2));
    assert_ne!(corpus(7, 2), corpus(8, 2));
}

#[test]
fn the_corpus_has_both_polarities() {
    let samples = corpus(9, 1);
    let positives = samples.iter().filter(|s| s.expected.is_some()).count();
    let negatives = samples.iter().filter(|s| s.expected.is_none()).count();
    assert!(positives > 20, "양성이 {positives} 건뿐이다");
    assert!(negatives >= 12, "음성이 {negatives} 건뿐이다");
}

#[test]
fn negatives_contain_no_planted_value() {
    // 음성 표본은 정말로 개인정보가 없어야 한다. 정답 스팬은 문장 전체를 가리킨다.
    let mut rng = Rng::new(11);
    for _ in 0..50 {
        let sample = negative(&mut rng);
        assert!(sample.expected.is_none());
        assert!(sample.trap.is_some());
        assert_eq!(sample.span, 0..sample.text.len() as u32);
    }
}
