use std::collections::BTreeMap;

use rust_pii_transformer::detect::context::{find, rank, CueHit, Dictionary, ACCOUNT, RESIDENT};
use rust_pii_transformer::detect::{
    report, scan, Candidate, Certainty, Config, ContextHit, EntityKind, Finding, Rating, RejectReason, Report, Score,
};
use rust_pii_transformer::mask::render::partial;
use rust_pii_transformer::mask::{
    mask_findings, mask_report, unmask, MaskOutput, Policy, PolicySet, Redaction,
};
use rust_pii_transformer::synth::{corpus, Sample, Variant};
use rust_pii_transformer::{Error, NormalizationCost, Span};

// Scores are computed with real numbers. These are the usual weights.

const CHECKSUM_PASSED: f32 = 0.6;
const CHECKSUM_FAILED: f32 = 0.25;
const CONTEXT: f32 = 0.5;
const ABSORBED_WHITESPACE: f32 = 0.08;
const ABSORBED_SEPARATOR: f32 = 0.01;
const EXPANDED_SYLLABLE: f32 = 0.01;
const REPLACED_CHAR: f32 = 0.002;

/// The place of a number in the order of all numbers.
fn key(x: f32) -> Score {
    let bits = (x + 0.0).to_bits();
    Score { key: if bits >> 31 == 0 { bits | 0x8000_0000 } else { !bits } }
}

/// The number at a place in the order of all numbers.
fn number(score: Score) -> f32 {
    if score.key >> 31 == 1 {
        f32::from_bits(score.key & 0x7fff_ffff)
    } else {
        f32::from_bits(!score.key)
    }
}

fn decay(distance: u32) -> f32 {
    1.0 / (1.0 + distance as f32 / 8.0)
}

fn weigh(hits: &[CueHit]) -> Vec<ContextHit> {
    rank(
        hits.iter()
            .map(|hit| ContextHit {
                cue: hit.cue.word,
                distance: hit.distance,
                weight: key(f32::from(hit.cue.weight) / 10.0 * decay(hit.distance)),
            })
            .collect(),
    )
}

fn weighed(text: &str, span: &Span, window: u32, dictionary: Dictionary) -> Vec<ContextHit> {
    weigh(&find(text, span, window, &dictionary.cues()))
}

fn total(hits: &[ContextHit]) -> f32 {
    hits.iter().map(|hit| number(hit.weight)).sum::<f32>().min(1.5)
}

fn evaluate(candidate: &Candidate, context: f32, cost: &NormalizationCost) -> f32 {
    let mut score = f32::from(candidate.base) / 10.0;
    if candidate.checksum.passed() {
        score += CHECKSUM_PASSED;
    } else if candidate.checksum.failed() {
        score -= CHECKSUM_FAILED;
    }
    score += context * CONTEXT;
    score -= f32::from(cost.absorbed_whitespace) * ABSORBED_WHITESPACE;
    score -= f32::from(cost.absorbed_separators) * ABSORBED_SEPARATOR;
    score -= f32::from(cost.expanded_syllables) * EXPANDED_SYLLABLE;
    score -= f32::from(cost.replaced_chars) * REPLACED_CHAR;
    score.clamp(0.0, 2.0)
}

fn detect(text: &str, cfg: &Config) -> Result<Report, Error> {
    let found = scan(text, &cfg.normalize, cfg.context_window)?;
    let mut ratings = Vec::new();
    for stretch in &found.stretches {
        let against = total(&weigh(&stretch.against));
        let mut rated = Vec::new();
        for (candidate, hits) in stretch.candidates.iter().zip(&stretch.favour) {
            let hits = weigh(hits);
            let context = total(&hits);
            rated.push(Rating {
                score: key(evaluate(candidate, context, &stretch.place.source.cost)),
                context: key(context),
                against: key(against),
                hits,
            });
        }
        ratings.push(rated);
    }
    Ok(report(found, &ratings, cfg))
}

fn mask(text: &str, cfg: &Config, policies: &PolicySet) -> Result<MaskOutput, Error> {
    let report = detect(text, cfg)?;
    Ok(mask_report(text, &report, policies))
}

/// 텍스트에서 부분 문자열의 스팬을 만든다.
fn span_of(text: &str, needle: &str) -> Span {
    let byte_start = text.find(needle).expect("부분 문자열이 없다");
    let byte_end = byte_start + needle.len();
    let char_start = text[..byte_start].chars().count() as u32;
    let char_end = char_start + needle.chars().count() as u32;
    Span::new(byte_start as u32..byte_end as u32, char_start..char_end)
}

#[test]
fn finds_cue_before_the_span() {
    let text = "주민등록번호 8801011234567 입니다";
    let hits = weighed(text, &span_of(text, "8801011234567"), 20, RESIDENT);
    assert_eq!(hits[0].cue, "주민등록번호");
    assert_eq!(hits[0].distance, 1, "공백 한 칸");
}

#[test]
fn finds_cue_after_the_span() {
    let text = "8801011234567 은 주민번호 입니다";
    let hits = weighed(text, &span_of(text, "8801011234567"), 20, RESIDENT);
    let hit = hits.iter().find(|h| h.cue == "주민번호").unwrap();
    assert_eq!(hit.distance, 3, "공백, 은, 공백");
}

#[test]
fn nearer_cue_scores_higher() {
    let near = "계좌번호 1234567890";
    let far = "계좌번호 그리고 아주 긴 설명이 이어진 다음에 나오는 1234567890";
    let near_hits = weighed(near, &span_of(near, "1234567890"), 40, ACCOUNT);
    let far_hits = weighed(far, &span_of(far, "1234567890"), 40, ACCOUNT);
    assert!(
        total(&near_hits) > total(&far_hits),
        "가까운 단서가 더 무거워야 한다"
    );
}

#[test]
fn window_limits_the_search() {
    let text = "계좌번호 그리고 여기에 아주 긴 문장이 끼어 있어서 창을 벗어난다 1234567890";
    let span = span_of(text, "1234567890");
    assert!(weighed(text, &span, 5, ACCOUNT).is_empty(), "창 밖은 안 잡힌다");
    assert!(!weighed(text, &span, 60, ACCOUNT).is_empty(), "창을 넓히면 잡힌다");
}

#[test]
fn no_cue_yields_no_hits() {
    let text = "주문번호 1234567890 로 접수되었습니다";
    assert!(weighed(text, &span_of(text, "1234567890"), 20, ACCOUNT).is_empty());
}

#[test]
fn total_is_capped() {
    // 같은 사실을 여러 단어로 말해도 상한을 넘지 않는다.
    let text = "주민등록번호 주민번호 주민등록 본인확인 실명확인 8801011234567";
    let hits = weighed(text, &span_of(text, "8801011234567"), 60, RESIDENT);
    assert!(hits.len() >= 4, "여러 단서가 잡혀야 하는 문장이다");
    assert!(total(&hits) <= 1.5);
}

#[test]
fn hits_are_sorted_deterministically() {
    let text = "계좌번호 예금주 입금 1234567890";
    let hits = weighed(text, &span_of(text, "1234567890"), 40, ACCOUNT);
    for pair in hits.windows(2) {
        assert!(
            number(pair[0].weight) > number(pair[1].weight)
                || (number(pair[0].weight) == number(pair[1].weight) && pair[0].cue < pair[1].cue),
            "무게 내림차순, 동률이면 단어 오름차순이어야 한다"
        );
    }
}

#[test]
fn window_handles_text_boundaries() {
    let text = "8801011234567";
    let span = span_of(text, "8801011234567");
    assert!(weighed(text, &span, 20, RESIDENT).is_empty());
}

#[test]
fn windows_respect_char_boundaries() {
    // 한글은 한 글자가 3바이트다. 창 계산이 바이트로 새면 여기서 패닉한다.
    let text = "가나다라마바사아자차 8801011234567 가나다라마바사아자차";
    let span = span_of(text, "8801011234567");
    let _ = weighed(text, &span, 5, RESIDENT);
    let _ = weighed(text, &span, 1, RESIDENT);
    let _ = weighed(text, &span, 100, RESIDENT);
}

fn run(text: &str) -> Report {
    detect(text, &Config::default()).unwrap()
}

fn entities(report: &Report) -> Vec<EntityKind> {
    report.findings.iter().map(|f| f.entity).collect()
}

#[test]
fn finds_a_resident_number_written_in_hangul_numerals() {
    let text = "주민등록번호 팔팔공일공일 - 1234567 입니다";
    let report = run(text);
    assert_eq!(entities(&report), vec![EntityKind::Resident]);

    let finding = &report.findings[0];
    assert_eq!(finding.source.slice(text), "팔팔공일공일 - 1234567");
    assert_eq!(finding.evidence.cost.expanded_syllables, 6);
    assert_eq!(finding.evidence.cost.absorbed_whitespace, 2);
    assert!(finding.evidence.context_hits.iter().any(|h| h.cue == "주민등록번호"));
}

#[test]
fn finds_a_card_number_without_any_context() {
    // Luhn 은 국제 표준이라 문맥이 없어도 확실하다.
    let report = run("4111-1111-1111-1111");
    assert_eq!(entities(&report), vec![EntityKind::CreditCard]);
    assert_eq!(report.findings[0].certainty, Certainty::Certain);
}

#[test]
fn finds_a_business_number() {
    let report = run("사업자등록번호 124-81-00998");
    assert_eq!(entities(&report), vec![EntityKind::BusinessRegistration]);
    assert_eq!(report.findings[0].certainty, Certainty::Certain);
}

#[test]
fn finds_a_phone_number() {
    let report = run("연락처는 010-1234-5678 입니다");
    assert_eq!(entities(&report), vec![EntityKind::Phone]);
    assert_eq!(
        report.findings[0].certainty,
        Certainty::Probable,
        "전화번호는 검증식이 없어 천장이 Probable 이다"
    );
}

/// 회귀 테스트. 문맥 없는 하이픈·전각 전화번호가 문턱에서 떨어지던 결함을 막는다.
///
/// 기본점이 문턱과 같으면 정규화 비용이 판정을 뒤집는다. 합성 코퍼스 실측에서 전화번호
/// 재현율 66.7퍼센트로 드러났고, 미탐이 전부 이 두 표기였다.
#[test]
fn a_bare_phone_number_survives_hyphen_and_fullwidth_cost() {
    for text in ["010-1234-5678", "01012345678", "０１０１２３４５６７８"] {
        let report = run(text);
        assert_eq!(
            entities(&report),
            vec![EntityKind::Phone],
            "문맥 없는 전화번호를 놓쳤다: {text}"
        );
    }
}

/// 공백으로 끊은 전화번호는 문맥이 있어야 잡힌다. **결함이 아니라 설계된 경계다.**
///
/// 공백 흡수는 감점이 가장 무겁다(하이픈의 여덟 배). 없던 숫자열을 만들어 내는 유일한
/// 정규화이기 때문이다. 문맥 없이 공백 표기까지 잡으려면 그 장치를 풀어야 하고, 그러면
/// 세 덩어리로 떨어져 있던 숫자가 우연히 식별번호로 시작하는 순간 전부 전화번호가 된다.
/// 여기서는 재현율보다 정밀도를 택했다.
#[test]
fn a_space_separated_phone_number_needs_context() {
    assert!(
        entities(&run("010 1234 5678")).is_empty(),
        "문맥 없는 공백 표기는 의도적으로 버린다"
    );
    assert_eq!(
        entities(&run("연락처는 010 1234 5678 입니다")),
        vec![EntityKind::Phone],
        "문맥이 있으면 공백 표기도 잡아야 한다"
    );
}

#[test]
fn finds_an_email() {
    let report = run("메일은 minsu.kim@example.com 입니다");
    assert_eq!(entities(&report), vec![EntityKind::Email]);
}

#[test]
fn finds_a_foreigner_registration_number() {
    let report = run("외국인등록번호 880101-5234567");
    assert_eq!(entities(&report), vec![EntityKind::ForeignerRegistration]);
}

#[test]
fn account_number_needs_context() {
    // 문맥이 없으면 계좌번호로 보지 않는다. 이 라이브러리의 오탐 억제 핵심이다.
    let bare = run("접수번호 1234567890123 입니다");
    assert!(!entities(&bare).contains(&EntityKind::BankAccount));
    assert!(bare
        .rejections
        .iter()
        .any(|r| r.entity == EntityKind::BankAccount && r.reason == RejectReason::NoContext));

    let with_context = run("입금 계좌번호 1234567890123 로 보내주세요");
    assert!(entities(&with_context).contains(&EntityKind::BankAccount));
}

#[test]
fn resident_number_with_a_valid_checksum_reaches_certain() {
    // 880101-1234568 은 검증식을 만족한다(계산으로 확인한 값이다).
    let report = run("주민등록번호 880101-1234568 입니다");
    let finding = &report.findings[0];
    assert_eq!(finding.entity, EntityKind::Resident);
    assert!(finding.evidence.checksum.passed());
    assert_eq!(finding.certainty, Certainty::Certain);
}

#[test]
fn resident_number_survives_a_failed_checksum_when_context_is_strong() {
    // 2020년 10월 이후 발급분은 검증식이 성립하지 않는다. 검증 실패를 버리는 근거가 아니라
    // 등급을 낮추는 근거로만 쓴다. 이것이 이 라이브러리의 핵심 판단 중 하나다.
    let report = run("주민등록번호 880101-1234567 입니다");
    let finding = report
        .findings
        .iter()
        .find(|f| f.entity == EntityKind::Resident)
        .expect("검증식이 떨어져도 문맥이 있으면 살아야 한다");
    assert!(finding.evidence.checksum.failed());
    assert_eq!(finding.certainty, Certainty::Probable);
}

#[test]
fn plain_text_yields_nothing() {
    let report = run("이번 분기 실적은 전년 대비 개선되었습니다. 자세한 내용은 보고서를 참고하세요.");
    assert!(report.findings.is_empty());
    assert!(report.rejections.is_empty());
}

#[test]
fn order_numbers_are_not_flagged() {
    for text in [
        "주문번호 20240115003 로 접수되었습니다",
        "제품 코드 1234 수량 5678 개",
        "송장번호 987654321098 입니다",
    ] {
        let report = run(text);
        assert!(
            report.findings.is_empty(),
            "오탐이 났다: {text} -> {:?}",
            entities(&report)
        );
    }
}

#[test]
fn rejections_explain_why_a_candidate_was_dropped() {
    let report = run("접수번호 1234567890123 입니다");
    assert!(!report.rejections.is_empty(), "떨어진 이유가 남아야 한다");
    for rejection in &report.rejections {
        assert!(number(rejection.score) >= 0.0);
    }
}

#[test]
fn findings_are_sorted_by_position() {
    let text = "카드 4111-1111-1111-1111 이고 연락처 010-1234-5678 이며 메일 a@b.com";
    let report = run(text);
    for pair in report.findings.windows(2) {
        assert!(pair[0].source.byte.start <= pair[1].source.byte.start);
    }
    assert_eq!(report.findings.len(), 3);
}

#[test]
fn fullwidth_digits_are_detected() {
    let report = run("카드번호 ４１１１１１１１１１１１１１１１");
    assert_eq!(entities(&report), vec![EntityKind::CreditCard]);
    assert!(report.findings[0].evidence.cost.replaced_chars > 0);
}

#[test]
fn one_span_yields_at_most_one_finding() {
    // 열세 자리는 주민등록번호이자 카드번호 후보다. 하나만 남아야 한다.
    let report = run("주민등록번호 8801011234567");
    assert_eq!(report.findings.len(), 1);
    assert_eq!(report.findings[0].entity, EntityKind::Resident);
}

#[test]
fn thresholds_are_configurable() {
    let strict = Config {
        min_score: key(1.5),
        ..Default::default()
    };
    let report = detect("연락처는 010-1234-5678 입니다", &strict).unwrap();
    assert!(report.findings.is_empty(), "문턱을 올리면 걸러진다");
}

fn masked(text: &str, policies: &PolicySet) -> MaskOutput {
    mask(text, &Config::default(), policies).unwrap()
}

#[test]
fn label_redaction_names_what_was_removed() {
    let out = masked("주민등록번호 880101-1234568 입니다", &PolicySet::default());
    assert_eq!(out.text, "주민등록번호 [주민등록번호] 입니다");
    assert_eq!(out.applied.len(), 1);
    assert!(out.skipped.is_empty());
    assert!(out.restore.is_none(), "토큰화가 아니면 복원 맵을 만들지 않는다");
}

#[test]
fn fill_redaction_preserves_character_count() {
    let policies = PolicySet::new(Policy::Redact(Redaction::Fill('*')));
    let out = masked("카드 4111-1111-1111-1111 결제", &policies);
    assert_eq!(out.text, "카드 ******************* 결제");
    assert_eq!(out.text.matches('*').count(), "4111-1111-1111-1111".chars().count());
}

/// 한국어 문서를 다루는 비한국어 사용자를 위한 경로. 산출물에 한국어가 섞이지 않아야 한다.
#[test]
fn code_redaction_keeps_the_output_ascii() {
    let policies = PolicySet::new(Policy::Redact(Redaction::Code));
    let out = masked("카드 4111-1111-1111-1111 연락처 010-1234-5678", &policies);
    assert_eq!(out.text, "카드 [CREDIT_CARD] 연락처 [PHONE]");

    // 자리표시자 자체에는 한글이 없어야 한다. 원문의 한글은 그대로 남는다.
    for placeholder in ["[CREDIT_CARD]", "[PHONE]"] {
        assert!(placeholder.is_ascii(), "{placeholder} 에 비아스키 문자가 있다");
    }
}

#[test]
fn label_and_code_name_the_same_entity() {
    let text = "주민등록번호 880101-1234568";
    let korean = masked(text, &PolicySet::new(Policy::Redact(Redaction::Label)));
    let english = masked(text, &PolicySet::new(Policy::Redact(Redaction::Code)));
    assert_eq!(korean.text, "주민등록번호 [주민등록번호]");
    assert_eq!(english.text, "주민등록번호 [RESIDENT]");
    assert_eq!(korean.applied[0].entity, english.applied[0].entity);
}

#[test]
fn fixed_redaction_leaves_no_shape() {
    let policies = PolicySet::new(Policy::Redact(Redaction::Fixed("<가림>".into())));
    let out = masked("연락처 010-1234-5678", &policies);
    assert_eq!(out.text, "연락처 <가림>");
}

#[test]
fn partial_keeps_the_ends() {
    let policies = PolicySet::new(Policy::Partial { keep_prefix: 3, keep_suffix: 4, fill: '*' });
    let out = masked("연락처 010-1234-5678", &policies);
    assert_eq!(out.text, "연락처 010******5678");
}

#[test]
fn partial_hides_everything_when_the_value_is_too_short() {
    // 남길 양이 전체보다 크면 통째로 덮는다. 짧은 값이 그대로 노출되면 안 된다.
    assert_eq!(partial("0101234", 5, 5, '*'), "*******");
    assert_eq!(partial("880101-1234568", 3, 4, '#'), "880#######4568");
}

#[test]
fn partial_counts_characters_not_bytes() {
    // 한글 한 글자는 3바이트다. 글자로 세지 않으면 문자 경계가 깨진다.
    assert_eq!(partial("가나다라마", 1, 1, '*'), "가***마");
}

#[test]
fn per_entity_policies_are_applied() {
    let policies = PolicySet::new(Policy::Redact(Redaction::Label))
        .with(EntityKind::Phone, Policy::Partial { keep_prefix: 3, keep_suffix: 4, fill: '*' });
    let out = masked("카드 4111-1111-1111-1111 연락처 010-1234-5678", &policies);
    assert_eq!(out.text, "카드 [카드번호] 연락처 010******5678");
}

// ── 복원 보장 ──────────────────────────────────────────

#[test]
fn tokenize_round_trips_exactly() {
    let text = "주민등록번호 880101-1234568 이고 카드 4111-1111-1111-1111 이며 메일 a@b.com";
    let out = masked(text, &PolicySet::new(Policy::Tokenize));
    assert!(!out.text.contains("880101"));
    assert!(!out.text.contains("4111"));
    assert!(!out.text.contains("a@b.com"));

    let map = out.restore.as_ref().unwrap();
    assert_eq!(map.len(), 3);
    assert_eq!(unmask(&out.text, map).unwrap(), text);
}

#[test]
fn tokenize_round_trips_through_hangul_numerals() {
    // 원문이 한글 수사인 경우가 복원의 최악 조건이다. 정규화가 글자 수를 바꿔 놓기 때문이다.
    let text = "주민등록번호 팔팔공일공일 - 1234567 입니다";
    let out = masked(text, &PolicySet::new(Policy::Tokenize));
    assert!(!out.text.contains("팔팔공일공일"));
    assert_eq!(unmask(&out.text, out.restore.as_ref().unwrap()).unwrap(), text);
}

#[test]
fn tokens_do_not_collide_with_lookalike_text() {
    let text = "이전 로그 [[PII:0]] 옆에 주민등록번호 880101-1234568";
    let out = masked(text, &PolicySet::new(Policy::Tokenize));
    let map = out.restore.as_ref().unwrap();
    assert_ne!(map.prefix(), "PII");
    assert_eq!(unmask(&out.text, map).unwrap(), text, "원문의 가짜 토큰은 그대로 남아야 한다");
}

#[test]
fn bytes_outside_findings_are_untouched_for_every_policy() {
    let text = "앞 문장. 연락처 010-1234-5678 뒤 문장.";
    let policies = [
        PolicySet::new(Policy::Redact(Redaction::Label)),
        PolicySet::new(Policy::Redact(Redaction::Fill('*'))),
        PolicySet::new(Policy::Partial { keep_prefix: 3, keep_suffix: 4, fill: '*' }),
        PolicySet::new(Policy::Tokenize),
    ];
    for policies in policies {
        let out = masked(text, &policies);
        assert!(out.text.starts_with("앞 문장. 연락처 "), "{}", out.text);
        assert!(out.text.ends_with(" 뒤 문장."), "{}", out.text);
    }
}

#[test]
fn a_text_without_findings_is_returned_verbatim() {
    let text = "이번 분기 실적은 전년 대비 개선되었습니다.";
    let out = masked(text, &PolicySet::new(Policy::Tokenize));
    assert_eq!(out.text, text);
    assert!(out.applied.is_empty());
    assert!(out.restore.as_ref().unwrap().is_empty());
    assert_eq!(unmask(&out.text, out.restore.as_ref().unwrap()).unwrap(), text);
}

#[test]
fn overlapping_findings_are_skipped_not_swallowed() {
    let text = "카드 4111-1111-1111-1111 입니다";
    let report = detect(text, &Config::default()).unwrap();
    let mut findings = report.findings.clone();
    // 같은 구간을 한 번 더 밀어 넣어 겹침을 강제한다.
    findings.push(report.findings[0].clone());

    let out = mask_findings(text, &findings, &PolicySet::default());
    assert_eq!(out.applied.len(), 1);
    assert_eq!(out.skipped.len(), 1, "겹친 것은 버리지 않고 남긴다");
    assert_eq!(out.text, "카드 [카드번호] 입니다");
}

#[test]
fn findings_do_not_need_to_be_sorted() {
    let text = "카드 4111-1111-1111-1111 연락처 010-1234-5678";
    let report = detect(text, &Config::default()).unwrap();
    let mut reversed = report.findings.clone();
    reversed.reverse();

    let a = mask_findings(text, &report.findings, &PolicySet::default());
    let b = mask_findings(text, &reversed, &PolicySet::default());
    assert_eq!(a.text, b.text);
    assert!(b.skipped.is_empty());
}

#[test]
fn hash_is_deterministic_and_links_equal_values() {
    let policies = PolicySet::new(Policy::Hash { key: b"secret".to_vec(), len: 8 });
    let text = "연락처 010-1234-5678 과 010-1234-5678 은 같은 번호";
    let out = masked(text, &policies);

    let first = out.text.find("[PHONE:").unwrap();
    let second = out.text.rfind("[PHONE:").unwrap();
    assert_ne!(first, second, "두 번 나와야 한다");
    assert_eq!(
        &out.text[first..first + 16],
        &out.text[second..second + 16],
        "같은 값은 같은 토큰이 되어야 연결성 분석이 된다"
    );
}

#[test]
fn hash_changes_with_the_key() {
    let text = "연락처 010-1234-5678";
    let a = masked(text, &PolicySet::new(Policy::Hash { key: b"one".to_vec(), len: 12 }));
    let b = masked(text, &PolicySet::new(Policy::Hash { key: b"two".to_vec(), len: 12 }));
    assert_ne!(a.text, b.text, "열쇠가 다르면 가명도 달라야 한다");
}

/// 코퍼스 규모. 씨앗과 함께 고정해 결과가 항상 재현되게 한다.
const SEED: u64 = 20260812;
const ROUNDS: usize = 40;

#[derive(Default, Clone, Copy)]
struct Tally {
    true_positive: u32,
    false_positive: u32,
    false_negative: u32,
}

impl Tally {
    fn recall(&self) -> f64 {
        let denom = self.true_positive + self.false_negative;
        if denom == 0 {
            return 1.0;
        }
        f64::from(self.true_positive) / f64::from(denom)
    }

    fn precision(&self) -> f64 {
        let denom = self.true_positive + self.false_positive;
        if denom == 0 {
            return 1.0;
        }
        f64::from(self.true_positive) / f64::from(denom)
    }

    fn add(&mut self, other: &Tally) {
        self.true_positive += other.true_positive;
        self.false_positive += other.false_positive;
        self.false_negative += other.false_negative;
    }
}

fn overlaps(finding: &Finding, sample: &Sample) -> bool {
    finding.source.byte.start < sample.span.end && sample.span.start < finding.source.byte.end
}

/// 표본 하나를 채점한다.
fn tally_of(sample: &Sample, findings: &[Finding]) -> Tally {
    let mut tally = Tally::default();

    match sample.expected {
        Some(expected) => {
            let hit = findings.iter().any(|f| f.entity == expected && overlaps(f, sample));
            if hit {
                tally.true_positive += 1;
            } else {
                tally.false_negative += 1;
            }
            // 정답 말고 더 걸린 것은 오탐이다.
            tally.false_positive += findings
                .iter()
                .filter(|f| !(f.entity == expected && overlaps(f, sample)))
                .count() as u32;
        }
        None => {
            tally.false_positive += findings.len() as u32;
        }
    }

    tally
}

#[test]
fn measures_recall_and_precision_on_the_synthetic_corpus() {
    let samples = corpus(SEED, ROUNDS);
    let cfg = Config::default();

    let mut overall = Tally::default();
    let mut by_entity: BTreeMap<&'static str, Tally> = BTreeMap::new();
    let mut by_variant: BTreeMap<&'static str, Tally> = BTreeMap::new();
    let mut negatives = Tally::default();
    let mut negative_count = 0u32;
    let mut misses: Vec<String> = Vec::new();

    for sample in &samples {
        let report = detect(&sample.text, &cfg).expect("탐지는 실패하지 않는다");
        let tally = tally_of(sample, &report.findings);

        overall.add(&tally);
        match sample.expected {
            Some(entity) => {
                by_entity.entry(entity.label()).or_default().add(&tally);
                by_variant.entry(sample.variant.label()).or_default().add(&tally);
                if tally.false_negative > 0 && misses.len() < 12 {
                    misses.push(format!(
                        "  미탐 [{}/{}{}] {}",
                        entity.label(),
                        sample.variant.label(),
                        if sample.with_context { "" } else { "/무문맥" },
                        sample.text
                    ));
                }
            }
            None => {
                negatives.add(&tally);
                negative_count += 1;
                if tally.false_positive > 0 && misses.len() < 24 {
                    misses.push(format!(
                        "  오탐 [{}] {}",
                        sample.trap.unwrap_or("?"),
                        sample.text
                    ));
                }
            }
        }
    }

    let positives = samples.iter().filter(|s| s.expected.is_some()).count();

    println!("\n=== 합성 코퍼스 실측 (씨앗 {SEED}, {ROUNDS} 라운드) ===");
    println!("표본: 양성 {positives} 건, 음성 {negative_count} 건, 합계 {} 건", samples.len());
    println!("\n전체");
    println!(
        "  재현율 {:.1}%   정밀도 {:.1}%   (TP {} / FP {} / FN {})",
        overall.recall() * 100.0,
        overall.precision() * 100.0,
        overall.true_positive,
        overall.false_positive,
        overall.false_negative
    );

    println!("\n엔티티별");
    println!("  {:<18} {:>8} {:>8} {:>6} {:>6} {:>6}", "엔티티", "재현율", "정밀도", "TP", "FP", "FN");
    for (name, tally) in &by_entity {
        println!(
            "  {:<18} {:>7.1}% {:>7.1}% {:>6} {:>6} {:>6}",
            name,
            tally.recall() * 100.0,
            tally.precision() * 100.0,
            tally.true_positive,
            tally.false_positive,
            tally.false_negative
        );
    }

    println!("\n표기 변형별 재현율");
    println!("  {:<12} {:>8} {:>6} {:>6}", "표기", "재현율", "TP", "FN");
    for (name, tally) in &by_variant {
        println!(
            "  {:<12} {:>7.1}% {:>6} {:>6}",
            name,
            tally.recall() * 100.0,
            tally.true_positive,
            tally.false_negative
        );
    }

    println!("\n음성 표본 (개인정보 없음)");
    println!(
        "  오탐 {} 건 / {} 건 = {:.1}%",
        negatives.false_positive,
        negative_count,
        f64::from(negatives.false_positive) / f64::from(negative_count.max(1)) * 100.0
    );

    if !misses.is_empty() {
        println!("\n놓친 표본 표본추출");
        for line in &misses {
            println!("{line}");
        }
    }
    println!();

    // 회귀 방지 바닥선. 실측값 바로 아래에 두어 정상 변동은 통과시키고 퇴행만 잡는다.
    //
    // **엔티티별 바닥선이 전체 바닥선보다 중요하다.** 전화번호 재현율이 66.7퍼센트였을 때도
    // 전체는 95.6퍼센트여서 느슨한 전체 바닥선을 통과했다. 한 엔티티가 무너져도 나머지가
    // 가려 주기 때문이다. 그래서 축을 셋으로 나눈다.
    assert!(
        overall.recall() >= 0.99,
        "전체 재현율이 {:.3} 으로 바닥선 0.99 아래다",
        overall.recall()
    );
    assert!(
        overall.precision() >= 0.98,
        "전체 정밀도가 {:.3} 으로 바닥선 0.98 아래다",
        overall.precision()
    );
    for (name, tally) in &by_entity {
        assert!(
            tally.recall() >= 0.93,
            "엔티티 '{name}' 의 재현율이 {:.3} 으로 바닥선 0.93 아래다",
            tally.recall()
        );
    }
    for (name, tally) in &by_variant {
        assert!(
            tally.recall() >= 0.97,
            "표기 변형 '{name}' 의 재현율이 {:.3} 으로 바닥선 0.97 아래다",
            tally.recall()
        );
    }
}

#[test]
fn masking_round_trips_on_every_corpus_sample() {
    let samples = corpus(SEED, ROUNDS);
    let cfg = Config::default();
    let policies = PolicySet::new(Policy::Tokenize);

    let mut masked_samples = 0u32;
    let mut failures = Vec::new();

    for sample in &samples {
        let report = detect(&sample.text, &cfg).unwrap();
        let out = mask_report(&sample.text, &report, &policies);

        if !out.applied.is_empty() {
            masked_samples += 1;
        }
        assert!(out.skipped.is_empty(), "겹친 구간이 나왔다: {}", sample.text);

        let map = out.restore.as_ref().expect("토큰화는 복원 맵을 낸다");
        match unmask(&out.text, map) {
            Ok(restored) if restored == sample.text => {}
            Ok(restored) => failures.push(format!("복원 불일치\n  원문: {}\n  복원: {restored}", sample.text)),
            Err(err) => failures.push(format!("복원 실패 {}\n  원문: {}", err.message(), sample.text)),
        }
    }

    println!("\n=== 마스킹 왕복 실측 ===");
    println!("표본 {} 건 중 실제로 가려진 표본 {masked_samples} 건", samples.len());
    println!("원문 복원 실패 {} 건\n", failures.len());

    assert!(failures.is_empty(), "복원 실패가 났다:\n{}", failures.join("\n"));
    assert!(masked_samples > 0, "아무것도 가려지지 않았다면 이 시험은 의미가 없다");
}

#[test]
fn every_policy_leaves_bytes_outside_findings_untouched() {
    let samples = corpus(SEED, 8);
    let cfg = Config::default();

    let policies = [
        PolicySet::new(Policy::Redact(Redaction::Label)),
        PolicySet::new(Policy::Redact(Redaction::Fill('*'))),
        PolicySet::new(Policy::Partial { keep_prefix: 2, keep_suffix: 2, fill: '*' }),
        PolicySet::new(Policy::Tokenize),
    ];

    for sample in &samples {
        let report = detect(&sample.text, &cfg).unwrap();
        if report.findings.is_empty() {
            continue;
        }

        for policies in &policies {
            let out = mask_report(&sample.text, &report, policies);

            // 첫 탐지 구간 앞과 마지막 탐지 구간 뒤는 원문과 바이트 단위로 같아야 한다.
            let first = out.applied.first().unwrap().source.byte.start as usize;
            let last = out.applied.last().unwrap().source.byte.end as usize;
            assert_eq!(
                &out.text[..first],
                &sample.text[..first],
                "탐지 구간 앞이 훼손됐다: {}",
                sample.text
            );
            let tail_len = sample.text.len() - last;
            assert_eq!(
                &out.text[out.text.len() - tail_len..],
                &sample.text[last..],
                "탐지 구간 뒤가 훼손됐다: {}",
                sample.text
            );
        }
    }
}

#[test]
fn the_corpus_itself_is_reproducible() {
    // 수치를 신뢰하려면 코퍼스가 먼저 재현 가능해야 한다.
    assert_eq!(corpus(SEED, 3), corpus(SEED, 3));
    let sample_count = corpus(SEED, ROUNDS).len();
    assert!(sample_count > 1000, "표본이 {sample_count} 건뿐이라 수치의 신뢰구간이 넓다");
    let _ = Variant::Plain;
}

// More about verdicts.

fn reasons(report: &Report, entity: EntityKind) -> Vec<RejectReason> {
    report.rejections.iter().filter(|r| r.entity == entity).map(|r| r.reason).collect()
}

#[test]
fn hidden_values_are_found_next_to_words_only() {
    let text = "주민등록번호 880101-1****** 확인";
    let report = run(text);
    assert_eq!(entities(&report), vec![EntityKind::Resident]);
    assert_eq!(report.findings[0].source.slice(text), "880101-1******");
    assert_eq!(report.findings[0].certainty, Certainty::Probable);

    let bare = run("880101-1******");
    assert!(bare.findings.is_empty());
    assert_eq!(reasons(&bare, EntityKind::Resident), vec![RejectReason::NoContext]);
}

#[test]
fn numbers_of_documents_are_vetoed() {
    // A business number with a wrong check digit would pass on its own context alone.
    let text = "계약번호 02-1234-5678 확인";
    let report = run(text);
    assert!(report.findings.is_empty());
    assert_eq!(reasons(&report, EntityKind::Phone), vec![RejectReason::BusinessContext]);

    // Words for it weigh as much, so the veto fails.
    let both = run("계약번호 확인 후 연락처 010-1234-5678");
    assert_eq!(entities(&both), vec![EntityKind::Phone]);

    // A right check digit beats the words around it.
    let right = run("증권번호 880101-1234568");
    assert_eq!(entities(&right), vec![EntityKind::Resident]);
}

#[test]
fn a_low_score_is_named_by_its_check_digit() {
    let report = run("4111-1111-1111-1112");
    assert_eq!(reasons(&report, EntityKind::CreditCard), vec![RejectReason::ChecksumFailed]);
    let spaced = run("010 1234 5678");
    assert_eq!(reasons(&spaced, EntityKind::Phone), vec![RejectReason::BelowThreshold]);
}

#[test]
fn passports_are_found_next_to_words_only() {
    let text = "여권번호 M12345678 로 예약";
    let report = run(text);
    assert_eq!(entities(&report), vec![EntityKind::Passport]);
    assert_eq!(report.findings[0].source.slice(text), "M12345678");
    assert_eq!(report.findings[0].certainty, Certainty::Probable);
    assert_eq!(reasons(&run("제품 M12345678 재고"), EntityKind::Passport), vec![RejectReason::NoContext]);
}

#[test]
fn the_wider_of_two_overlapping_findings_is_reported() {
    let text = "여권번호 생년월일 M19880101";
    let report = run(text);
    assert_eq!(entities(&report), vec![EntityKind::Passport]);
    assert_eq!(reasons(&report, EntityKind::BirthDate), vec![RejectReason::Outranked]);

    let mail = run("메일 01012345678@example.com");
    assert_eq!(entities(&mail), vec![EntityKind::Email]);
    assert_eq!(reasons(&mail, EntityKind::Phone), vec![RejectReason::Outranked]);
}

#[test]
fn every_candidate_is_reported_or_rejected() {
    for sample in corpus(3, 2) {
        let cfg = Config::default();
        let found = scan(&sample.text, &cfg.normalize, cfg.context_window).unwrap();
        let all: usize = found.stretches.iter().map(|s| s.candidates.len()).sum::<usize>() + found.emails.len();
        let report = detect(&sample.text, &cfg).unwrap();
        assert_eq!(report.findings.len() + report.rejections.len(), all);
        for pair in report.findings.windows(2) {
            assert!(pair[0].source.byte.end <= pair[1].source.byte.start);
        }
    }
}

#[test]
fn the_usual_thresholds_are_these_numbers() {
    let cfg = Config::default();
    assert_eq!(cfg.min_score, key(0.5));
    assert_eq!(cfg.min_context, key(0.3));
    assert_eq!(cfg.min_veto, key(0.5));
    let mail = run("메일은 a@b.com 입니다");
    assert_eq!(number(mail.findings[0].score), 0.9);
    assert_eq!(mail.findings[0].evidence.rule, "email.structural");
}

#[test]
fn a_finding_scores_what_its_parts_add_up_to() {
    // Base, right check digit, and three hyphens.
    let report = run("4111-1111-1111-1111");
    assert!((number(report.findings[0].score) - (0.4 + 0.6 - 0.03)).abs() < 1e-6);
}

#[test]
fn a_pseudonym_begins_with_the_kind() {
    let policies = PolicySet::new(Policy::Hash { key: b"secret".to_vec(), len: 12 });
    let out = masked("연락처 010-1234-5678", &policies);
    assert!(out.text.starts_with("연락처 [PHONE:"));
    assert_eq!(out.text.chars().count(), "연락처 [PHONE:".chars().count() + 13);
    assert!(!out.text.contains("010-1234-5678"));
}

#[test]
fn the_corpus_gives_the_known_figures() {
    let samples = corpus(SEED, ROUNDS);
    let cfg = Config::default();
    let mut all = Tally::default();
    let mut without = Tally::default();
    for sample in &samples {
        let report = detect(&sample.text, &cfg).unwrap();
        let tally = tally_of(sample, &report.findings);
        all.add(&tally);
        if sample.expected.is_none() {
            without.add(&tally);
        }
    }
    assert_eq!(samples.len(), 3160);
    assert_eq!((all.true_positive, all.false_negative, all.false_positive), (2676, 4, 20));
    assert_eq!(without.false_positive, 16);
}

#[test]
fn an_address_below_the_threshold_is_rejected() {
    let text = "메일 a@b.io 와 주민등록번호 880101-1234568";
    let mut cfg = Config::default();
    let plain = detect(text, &cfg).unwrap();
    assert!(plain.findings.iter().any(|f| f.entity == EntityKind::Email));

    cfg.min_score = key(0.9);
    assert!(detect(text, &cfg).unwrap().findings.iter().any(|f| f.entity == EntityKind::Email));

    cfg.min_score = key(0.95);
    let strict = detect(text, &cfg).unwrap();
    assert!(strict.findings.iter().all(|f| f.score.key >= cfg.min_score.key));
    assert!(strict.findings.iter().any(|f| f.entity == EntityKind::Resident));
    let rejected = strict.rejections.iter().find(|r| r.entity == EntityKind::Email).unwrap();
    assert_eq!(rejected.reason, RejectReason::BelowThreshold);
    assert_eq!(number(rejected.score), 0.9);
    assert_eq!(rejected.source, span_of(text, "a@b.io"));
}

#[test]
fn a_value_falls_only_where_a_stronger_one_is_reported() {
    let text = "01012345678@a.io@longerdomain.com";
    let report = detect(text, &Config::default()).unwrap();
    let found: Vec<(EntityKind, u32, u32)> =
        report.findings.iter().map(|f| (f.entity, f.source.byte.start, f.source.byte.end)).collect();
    assert_eq!(found, vec![(EntityKind::Phone, 0, 11), (EntityKind::Email, 12, 33)]);
    let fallen = report.rejections.iter().find(|r| r.entity == EntityKind::Email).unwrap();
    assert_eq!((fallen.source.byte.start, fallen.source.byte.end), (0, 16));
    assert_eq!(fallen.reason, RejectReason::Outranked);

    let masked = mask(text, &Config::default(), &PolicySet::default()).unwrap();
    assert!(!masked.text.contains("01012345678"));
}

#[test]
fn two_runs_on_one_text_agree() {
    let cfg = Config::default();
    for sample in corpus(5, 1) {
        let first = detect(&sample.text, &cfg).unwrap();
        assert_eq!(first, detect(&sample.text, &cfg).unwrap());
        for pair in first.rejections.windows(2) {
            assert!((pair[0].source.byte.start, pair[0].source.byte.end)
                <= (pair[1].source.byte.start, pair[1].source.byte.end));
        }
    }
}
