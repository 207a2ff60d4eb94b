use rust_pii_transformer::{
    Absorbed, Error, NormalizationCost, RuleId, Segment, SegmentKind, Span, SpanMap, SpanMapBuilder,
};

const R_SEP: RuleId = "test.separator";
const R_FOLD: RuleId = "test.fold";
const R_NUM: RuleId = "test.numeral";

/// 전체 dst 를 질의하는 스팬.
fn whole(map: &SpanMap) -> Span {
    let (b, c) = map.dst_end();
    Span::new(0..b, 0..c)
}

#[test]
fn identity_map_is_valid_and_transparent() {
    let text = "주민등록번호 880101";
    let map = SpanMap::identity(text);
    map.validate().unwrap();
    assert!(map.is_identity());
    assert_eq!(map.segments().len(), 1);

    let got = map.to_source(&whole(&map));
    assert_eq!(got.span.byte, 0..text.len() as u32);
    assert_eq!(got.span.char, 0..text.chars().count() as u32);
    assert!(!got.snapped);
    assert!(got.rules.is_empty());
    assert!(got.cost.is_zero());
}

#[test]
fn empty_text_produces_empty_map() {
    let map = SpanMap::identity("");
    map.validate().unwrap();
    assert!(map.segments().is_empty());
    assert_eq!(map.dst_end(), (0, 0));

    let got = map.to_source(&Span::empty_at(0, 0));
    assert!(got.span.is_empty());
}

#[test]
fn absorbed_hyphen_inside_span_is_included() {
    // "880101-1234567" → "8801011234567"
    let mut b = SpanMapBuilder::new();
    b.keep("880101");
    b.absorb("-", R_SEP, Absorbed::Separator);
    b.keep("1234567");
    let (out, map) = b.finish();
    map.validate().unwrap();
    assert_eq!(out, "8801011234567");

    let got = map.to_source(&whole(&map));
    assert_eq!(got.span.byte, 0..14);
    assert!(!got.snapped);
    assert_eq!(got.rules, vec![R_SEP]);
    assert_eq!(got.cost.absorbed_separators, 1);
}

#[test]
fn absorbed_hyphen_at_span_boundary_is_excluded() {
    // "-880101" → "880101". 매치는 dst 0..6 이고 앞의 하이픈은 스팬 밖이다.
    let mut b = SpanMapBuilder::new();
    b.absorb("-", R_SEP, Absorbed::Separator);
    b.keep("880101");
    let (out, map) = b.finish();
    map.validate().unwrap();
    assert_eq!(out, "880101");

    let got = map.to_source(&Span::new(0..6, 0..6));
    assert_eq!(got.span.byte, 1..7, "선행 하이픈은 원문 스팬에 들어가면 안 된다");
    assert!(!got.snapped);
    assert!(got.rules.is_empty());
    assert!(got.cost.is_zero());
}

#[test]
fn trailing_absorbed_separator_is_excluded() {
    let mut b = SpanMapBuilder::new();
    b.keep("880101");
    b.absorb("-", R_SEP, Absorbed::Separator);
    let (out, map) = b.finish();
    map.validate().unwrap();
    assert_eq!(out, "880101");

    let got = map.to_source(&Span::new(0..6, 0..6));
    assert_eq!(got.span.byte, 0..6);
    assert!(!got.snapped);
}

#[test]
fn partial_match_inside_expansion_snaps_outward() {
    // "일억" → "100000000". 그 안의 "100000" 만 매칭되면 원문은 "일억" 전체가 된다.
    let mut b = SpanMapBuilder::new();
    b.numeral("일억", "100000000", R_NUM);
    let (out, map) = b.finish();
    map.validate().unwrap();
    assert_eq!(out, "100000000");
    assert_eq!(map.segments()[0].kind, SegmentKind::Expand);

    let got = map.to_source(&Span::new(0..6, 0..6));
    assert_eq!(got.span.byte, 0..6, "'일억' 은 UTF-8 로 6바이트다");
    assert_eq!(got.span.char, 0..2);
    assert!(got.snapped, "확장 구간을 반으로 가르면 스냅이 일어나야 한다");
    assert_eq!(got.cost.expanded_syllables, 2);
}

#[test]
fn shrinking_numeral_is_replace_not_expand() {
    // "구십일" → "91" 은 줄어든다. 종류는 Replace 지만 비용은 음절 수로 센다.
    let mut b = SpanMapBuilder::new();
    b.numeral("구십일", "91", R_NUM);
    let (_, map) = b.finish();
    map.validate().unwrap();
    assert_eq!(map.segments()[0].kind, SegmentKind::Replace);
    assert_eq!(map.segments()[0].cost.expanded_syllables, 3);
}

#[test]
fn korean_byte_and_char_offsets_stay_separate() {
    // 한글 음절은 3바이트, 숫자는 1바이트다. 두 좌표가 다르게 흘러야 한다.
    let mut b = SpanMapBuilder::new();
    b.keep("생년월일 ");
    b.numeral("팔팔공일공일", "880101", R_NUM);
    let (out, map) = b.finish();
    map.validate().unwrap();
    assert_eq!(out, "생년월일 880101");

    // dst 에서 "880101" 은 바이트 13..19, 문자 5..11.
    let got = map.to_source(&Span::new(13..19, 5..11));
    assert_eq!(got.span.byte, 13..31, "원문의 '팔팔공일공일' 은 18바이트다");
    assert_eq!(got.span.char, 5..11);
    assert!(!got.snapped);
    assert_eq!(got.cost.expanded_syllables, 6);
}

#[test]
fn partial_match_inside_identity_does_not_snap() {
    let map = SpanMap::identity("abcdefghij");
    let got = map.to_source(&Span::new(3..7, 3..7));
    assert_eq!(got.span.byte, 3..7);
    assert!(!got.snapped);
}

#[test]
fn rules_are_deduplicated() {
    let mut b = SpanMapBuilder::new();
    b.keep("1");
    b.absorb("-", R_SEP, Absorbed::Separator);
    b.keep("2");
    b.absorb("-", R_SEP, Absorbed::Separator);
    b.keep("3");
    let (_, map) = b.finish();
    map.validate().unwrap();

    let got = map.to_source(&whole(&map));
    assert_eq!(got.rules, vec![R_SEP], "같은 규칙이 두 번 나와도 한 번만 실린다");
    assert_eq!(got.cost.absorbed_separators, 2, "비용은 누적된다");
}

// ── compose ────────────────────────────────────────────

/// 전각 숫자를 반각으로 접는 1번 패스.
fn fold_pass(text: &str) -> (String, SpanMap) {
    let mut b = SpanMapBuilder::with_capacity(text);
    let mut buf = String::new();
    for ch in text.chars() {
        if ('\u{ff10}'..='\u{ff19}').contains(&ch) {
            if !buf.is_empty() {
                b.keep(&buf);
                buf.clear();
            }
            let folded = char::from(b'0' + (ch as u32 - 0xff10) as u8);
            b.replace(&ch.to_string(), &folded.to_string(), R_FOLD);
        } else {
            buf.push(ch);
        }
    }
    b.keep(&buf);
    b.finish()
}

/// 숫자 사이 하이픈을 흡수하는 2번 패스.
fn separator_pass(text: &str) -> (String, SpanMap) {
    let mut b = SpanMapBuilder::with_capacity(text);
    let chars: Vec<char> = text.chars().collect();
    let mut buf = String::new();
    for (k, ch) in chars.iter().enumerate() {
        let between_digits = *ch == '-'
            && k > 0
            && k + 1 < chars.len()
            && chars[k - 1].is_ascii_digit()
            && chars[k + 1].is_ascii_digit();
        if between_digits {
            if !buf.is_empty() {
                b.keep(&buf);
                buf.clear();
            }
            b.absorb("-", R_SEP, Absorbed::Separator);
        } else {
            buf.push(*ch);
        }
    }
    b.keep(&buf);
    b.finish()
}

#[test]
fn compose_with_identity_on_either_side_is_a_noop() {
    let text = "번호 １２-34";
    let (folded, m) = fold_pass(text);
    m.validate().unwrap();

    let left = SpanMap::compose(&SpanMap::identity(text), &m).unwrap();
    left.validate().unwrap();
    assert_eq!(left, m, "항등을 앞에 합성해도 그대로여야 한다");

    let right = SpanMap::compose(&m, &SpanMap::identity(&folded)).unwrap();
    right.validate().unwrap();
    assert_eq!(right, m, "항등을 뒤에 합성해도 그대로여야 한다");
}

#[test]
fn compose_two_passes_recovers_original_offsets() {
    let text = "계좌 １２３４-5678 입금";
    let (after_fold, m1) = fold_pass(text);
    assert_eq!(after_fold, "계좌 1234-5678 입금");
    let (after_sep, m2) = separator_pass(&after_fold);
    assert_eq!(after_sep, "계좌 12345678 입금");

    m1.validate().unwrap();
    m2.validate().unwrap();
    let composed = SpanMap::compose(&m1, &m2).unwrap();
    composed.validate().unwrap();

    // 최종 문자열에서 "12345678" 은 바이트 7..15, 문자 3..11.
    let digits = Span::new(7..15, 3..11);
    assert_eq!(digits.slice(&after_sep), "12345678");

    let got = composed.to_source(&digits);
    // 원문의 "１２３４-5678" 은 전각 4자 12바이트 + 하이픈 1 + 숫자 4 = 17바이트, 문자 9자.
    assert_eq!(got.span.slice(text), "１２３４-5678");
    assert_eq!(got.span.char, 3..12);
    assert!(!got.snapped);
    assert_eq!(got.cost.replaced_chars, 4);
    assert_eq!(got.cost.absorbed_separators, 1);
    assert_eq!(got.rules.len(), 2);
}

#[test]
fn compose_is_associative() {
    let text = "코드 １２-3-４5 끝";
    let (t1, m1) = fold_pass(text);
    let (t2, m2) = separator_pass(&t1);
    let (_t3, m3) = fold_pass(&t2);

    let left = SpanMap::compose(&SpanMap::compose(&m1, &m2).unwrap(), &m3).unwrap();
    let right = SpanMap::compose(&m1, &SpanMap::compose(&m2, &m3).unwrap()).unwrap();
    left.validate().unwrap();
    right.validate().unwrap();
    assert_eq!(left, right, "합성은 결합법칙을 만족해야 한다");
}

/// 회귀 테스트. 규칙 목록이 합성 묶는 순서에 따라 달라지던 결함을 막는다.
///
/// 스팬·종류·비용은 원래도 결합법칙을 만족했지만 `rules` 의 **순서**만 달랐다.
/// 중간 단계에서 세그먼트가 묶이는 굵기가 달라 수집 순서가 뒤집혔기 때문이다.
/// 이름 오름차순 정규화로 해결했고, 여기서 그 정렬을 직접 확인한다.
#[test]
fn rules_are_sorted_canonically() {
    let mut b = SpanMapBuilder::new();
    b.numeral("팔", "8", R_NUM);
    b.replace("１", "1", R_FOLD);
    b.absorb("-", R_SEP, Absorbed::Separator);
    b.keep("9");
    let (_, map) = b.finish();
    map.validate().unwrap();

    let got = map.to_source(&whole(&map));
    let mut expected = vec![R_NUM, R_FOLD, R_SEP];
    expected.sort_unstable();
    assert_eq!(got.rules, expected, "규칙은 적용 순서가 아니라 이름 순으로 나와야 한다");
    assert_ne!(got.rules, vec![R_NUM, R_FOLD, R_SEP], "적용 순서와는 실제로 달라야 의미가 있다");
}

#[test]
fn compose_rejects_mismatched_coordinate_systems() {
    let m1 = SpanMap::identity("abc");
    let m2 = SpanMap::identity("abcdef");
    let err = SpanMap::compose(&m1, &m2).unwrap_err();
    assert!(matches!(err, Error::SpanMapMismatch { .. }));
}

#[test]
fn validate_catches_a_gap() {
    let broken = SpanMap {
        segments: vec![
            Segment {
                src: Span::new(0..3, 0..3),
                dst: Span::new(0..3, 0..3),
                kind: SegmentKind::Identity,
                rules: Vec::new(),
                cost: NormalizationCost::default(),
            },
            Segment {
                // src 가 3 이 아니라 4 에서 시작한다. 빈틈이다.
                src: Span::new(4..6, 4..6),
                dst: Span::new(3..5, 3..5),
                kind: SegmentKind::Identity,
                rules: Vec::new(),
                cost: NormalizationCost::default(),
            },
        ],
    };
    let err = broken.validate().unwrap_err();
    assert!(matches!(err, Error::SpanMapInvariant { index: 1, .. }));
}

#[test]
fn validate_catches_identity_carrying_a_rule() {
    let broken = SpanMap {
        segments: vec![Segment {
            src: Span::new(0..3, 0..3),
            dst: Span::new(0..3, 0..3),
            kind: SegmentKind::Identity,
            rules: vec![R_SEP],
            cost: NormalizationCost::default(),
        }],
    };
    assert!(broken.validate().is_err());
}

// ── 무작위 입력 불변식 테스트 ───────────────────────────
//
// 외부 크레이트에 의존하지 않기 위해(독립성 원칙) 선형 합동 생성기를 직접 쓴다.
// 시드가 고정이라 실패가 항상 재현된다.

struct Lcg(u64);

impl Lcg {
    fn next(&mut self) -> u64 {
        self.0 = self.0.wrapping_mul(6364136223846793005).wrapping_add(1442695040888963407);
        self.0 >> 33
    }
    fn below(&mut self, n: u64) -> usize {
        (self.next() % n) as usize
    }
}

const ALPHABET: [&str; 8] = ["a", "1", "-", " ", "가", "팔", "１", "."];

fn random_text(rng: &mut Lcg, len: usize) -> String {
    (0..len).map(|_| ALPHABET[rng.below(ALPHABET.len() as u64)]).collect()
}

fn random_map(rng: &mut Lcg, text: &str) -> (String, SpanMap) {
    let mut b = SpanMapBuilder::with_capacity(text);
    let chars: Vec<char> = text.chars().collect();
    let mut k = 0;
    while k < chars.len() {
        let take = (1 + rng.below(3)).min(chars.len() - k);
        let piece: String = chars[k..k + take].iter().collect();
        // 빌더가 낼 수 있는 모든 연산이 여기 있어야 한다. 목록에서 빠진 분기는 한 번도
        // 실행되지 않고, 실행되지 않은 경로의 결함은 실사용에서 처음 드러난다.
        match rng.below(6) {
            0 => b.absorb(&piece, R_SEP, Absorbed::Separator),
            1 => b.absorb(&piece, R_SEP, Absorbed::Whitespace),
            2 => b.replace(&piece, "X", R_FOLD),
            3 => b.numeral(&piece, "123", R_NUM),
            4 => b.numeral(&piece, "1234567", R_NUM),
            _ => b.keep(&piece),
        }
        k += take;
    }
    b.finish()
}

#[test]
fn random_pipelines_keep_every_invariant() {
    let mut rng = Lcg(0x5eed_1234);
    for round in 0..400 {
        let len = 1 + rng.below(24);
        let text = random_text(&mut rng, len);
        let (t1, m1) = random_map(&mut rng, &text);
        let (t2, m2) = random_map(&mut rng, &t1);
        let (_t3, m3) = random_map(&mut rng, &t2);

        m1.validate().unwrap_or_else(|e| panic!("round {round} m1: {}", e.message()));
        m2.validate().unwrap_or_else(|e| panic!("round {round} m2: {}", e.message()));
        m3.validate().unwrap_or_else(|e| panic!("round {round} m3: {}", e.message()));

        // 피복: 합성 결과도 불변식을 지킨다.
        let c12 = SpanMap::compose(&m1, &m2).unwrap_or_else(|e| panic!("round {round} c12: {}", e.message()));
        c12.validate().unwrap_or_else(|e| panic!("round {round} c12 validate: {}", e.message()));

        // 좌표계 보존: 합성 결과의 양끝이 원본 양끝과 같다.
        assert_eq!(c12.src_end(), m1.src_end(), "round {round}");
        assert_eq!(c12.dst_end(), m2.dst_end(), "round {round}");

        // 결합법칙.
        let c23 = SpanMap::compose(&m2, &m3).unwrap_or_else(|e| panic!("round {round} c23: {}", e.message()));
        let left = SpanMap::compose(&c12, &m3).unwrap_or_else(|e| panic!("round {round} left: {}", e.message()));
        let right = SpanMap::compose(&m1, &c23).unwrap_or_else(|e| panic!("round {round} right: {}", e.message()));
        left.validate().unwrap_or_else(|e| panic!("round {round} left validate: {}", e.message()));
        assert_eq!(left, right, "round {round}: 합성 결합법칙");

        // 전체 스팬을 되돌리면 내용이 있는 구간 전체가 나온다.
        // 맨 앞뒤에 붙은 흡수 구간(폭 0)은 경계 규칙에 따라 제외된다.
        let (db, dc) = left.dst_end();
        if db > 0 {
            let got = left.to_source(&Span::new(0..db, 0..dc));
            let first = left.segments().iter().find(|s| !s.dst.is_empty()).unwrap();
            let last = left.segments().iter().rev().find(|s| !s.dst.is_empty()).unwrap();
            assert_eq!(got.span.byte.start, first.src.byte.start, "round {round}");
            assert_eq!(got.span.byte.end, last.src.byte.end, "round {round}");
            assert!(!got.snapped, "round {round}: 전체 스팬은 스냅이 필요 없다");
        }

        // 임의의 부분 스팬도 원문 범위 안에 들어가고 순서가 뒤집히지 않는다.
        if db > 1 {
            let mut lo = rng.below(u64::from(db)) as u32;
            let mut hi = rng.below(u64::from(db)) as u32;
            if lo > hi {
                std::mem::swap(&mut lo, &mut hi);
            }
            // 문자 경계로 맞춘다.
            let lo = char_boundary(&left, lo);
            let hi = char_boundary(&left, hi);
            if let (Some((lb, lc)), Some((hb, hc))) = (lo, hi) {
                let got = left.to_source(&Span::new(lb..hb, lc..hc));
                assert!(got.span.byte.start <= got.span.byte.end, "round {round}");
                assert!(got.span.byte.end <= left.src_end().0, "round {round}");
                assert!(got.span.char.end <= left.src_end().1, "round {round}");
            }
        }
    }
}

/// 세그먼트 경계에서 (바이트, 문자) 쌍을 찾는다. 무작위 테스트가 문자 경계를 지키게 한다.
fn char_boundary(map: &SpanMap, target_byte: u32) -> Option<(u32, u32)> {
    for seg in map.segments() {
        if seg.dst.byte.start >= target_byte {
            return Some((seg.dst.byte.start, seg.dst.char.start));
        }
        if seg.dst.byte.end >= target_byte {
            return Some((seg.dst.byte.end, seg.dst.char.end));
        }
    }
    Some(map.dst_end())
}
