use rust_pii_transformer::detect::scanner::{digit_runs, emails, passports};
use rust_pii_transformer::Span;

fn slices<'a>(text: &'a str, spans: &[Span]) -> Vec<&'a str> {
    spans.iter().map(|s| s.slice(text)).collect()
}

#[test]
fn finds_passport_shapes() {
    let text = "여권 M12345678 과 구권 S1234567 그리고 AB1234567";
    assert_eq!(
        slices(text, &passports(text)),
        vec!["M12345678", "S1234567", "AB1234567"]
    );
}

#[test]
fn rejects_shapes_that_are_not_passports() {
    for text in [
        "M123456",     // 숫자 여섯
        "M123456789",  // 숫자 아홉
        "ABC1234567",  // 영문 셋
        "m12345678",   // 소문자
        "1234567890",  // 영문 없음
        "XM12345678",  // 영문 셋과 같은 폭
        "M12345678A",  // 뒤가 이어진다
        "ZM12345678",  // 앞 토큰의 일부
    ] {
        assert!(passports(text).is_empty(), "여권이 아닌데 잡혔다: {text}");
    }
}

#[test]
fn passport_keeps_byte_and_char_offsets_separate() {
    let text = "여권 M12345678";
    let span = &passports(text)[0];
    assert_eq!(span.byte.start, 7);
    assert_eq!(span.char.start, 3);
    assert_eq!(span.slice(text), "M12345678");
}

#[test]
fn a_passport_glued_to_a_word_is_not_a_candidate() {
    // 앞뒤 경계를 안 보면 상품 코드 꼬리가 전부 여권이 된다.
    assert!(passports("SKU-XM12345678").is_empty());
}

#[test]
fn finds_digit_runs() {
    let text = "주민 8801011234567 카드 4111111111111111 끝";
    let runs = digit_runs(text);
    assert_eq!(
        slices(text, &runs),
        vec!["8801011234567", "4111111111111111"]
    );
}

#[test]
fn digit_run_at_the_very_end_is_closed() {
    let text = "번호 01012345678";
    let runs = digit_runs(text);
    assert_eq!(slices(text, &runs), vec!["01012345678"]);
}

#[test]
fn digit_run_keeps_byte_and_char_offsets_separate() {
    // 한글 두 글자는 6바이트, 2문자다.
    let text = "번호 880101";
    let run = &digit_runs(text)[0];
    assert_eq!(run.byte.start, 7, "한글 2자 6바이트 + 공백 1바이트");
    assert_eq!(run.char.start, 3, "한글 2자 + 공백 1자");
    assert_eq!(run.slice(text), "880101");
}

#[test]
fn no_runs_in_plain_text() {
    assert!(digit_runs("숫자가 하나도 없는 문장").is_empty());
}

#[test]
fn finds_emails() {
    let text = "연락은 minsu.kim@example.com 또는 a_b+c@sub.example.co.kr 로";
    let spans = emails(text);
    assert_eq!(
        slices(text, &spans),
        vec!["minsu.kim@example.com", "a_b+c@sub.example.co.kr"]
    );
}

#[test]
fn trims_sentence_punctuation_from_domain() {
    let text = "메일은 kim@example.com. 입니다";
    assert_eq!(slices(text, &emails(text)), vec!["kim@example.com"]);
}

#[test]
fn rejects_shapes_that_are_not_addresses() {
    for text in [
        "@example.com",     // 로컬 파트 없음
        "kim@",             // 도메인 없음
        "kim@example",      // 점 없음
        "kim@example.c",    // 최상위 도메인이 한 글자
        "kim@example.12",   // 최상위 도메인이 숫자
        "kim@.com",         // 빈 라벨
        "가격은 100@200 원", // 골뱅이를 구분자로 쓴 문장
    ] {
        assert!(emails(text).is_empty(), "주소가 아닌데 잡혔다: {text}");
    }
}

#[test]
fn no_at_sign_takes_the_fast_path() {
    assert!(emails("골뱅이가 없는 문장").is_empty());
}
