use rust_pii_transformer::detect::checksum::to_digits;
use rust_pii_transformer::detect::context::{find, rank, Cue, BUSINESS, EXCLUDE, PASSPORT};
use rust_pii_transformer::detect::entity::candidates_in;
use rust_pii_transformer::detect::scanner::digit_runs;
use rust_pii_transformer::detect::{Certainty, ChecksumResult, ContextHit, EntityKind, RejectReason, Rejection, Score};
use rust_pii_transformer::mask::render::{hex_prefix, hmac_hex, partial};
use rust_pii_transformer::mask::{unmask, Policy, PolicySet, Redaction, RestoreMap};
use rust_pii_transformer::names::{answer, build_policies, may_hand_out, PolicyChoice, KEY_NEEDED};
use rust_pii_transformer::normalize::{
    can_normalize, hangul, normalize, separator, NormalizeConfig, NumeralConfig,
};
use rust_pii_transformer::order::ordered;
use rust_pii_transformer::span::{RangeFault, SliceFault};
use rust_pii_transformer::synth::value::{complete, passes, Check};
use rust_pii_transformer::synth::{corpus, negative, positive, Rng, Variant};
use rust_pii_transformer::{
    Absorbed, Error, NormalizationCost, Segment, SegmentKind, Span, SpanMap, SpanMapBuilder,
};

fn read(text: &str) -> String {
    hangul::apply(text, &NumeralConfig::default()).0
}

fn normal(text: &str) -> String {
    normalize(text, &NormalizeConfig::default()).unwrap().text
}

// Normalization.

#[test]
fn every_notation_is_normalized() {
    for (source, expected) in [
        ("팔팔공일공일", "880101"),
        ("구십일년", "91년"),
        ("천구백팔십팔년생", "1988년생"),
        ("８８０１０１－１２３４５６７", "8801011234567"),
        ("880101 - 1234567", "8801011234567"),
        ("88O1O1", "880101"),
        ("POLO 매장", "POLO 매장"),
        ("구공오삼일삼이래요", "905313이래요"),
        ("제품 1234 수량 5678", "제품 1234 수량 5678"),
        ("이사 갑니다. 만원만 빌려줘", "이사 갑니다. 만원만 빌려줘"),
    ] {
        assert_eq!(normal(source), expected);
    }
}

#[test]
fn verb_endings_are_not_read_as_digits() {
    for ending in ["래요", "에요", "예요", "요", "고"] {
        assert_eq!(read(&format!("구공오삼일삼이{ending}")), format!("905313이{ending}"));
    }
    assert_eq!(read("구공오삼일삼이구요"), "905313이구요");
    assert_eq!(read("구공오삼일삼이"), "9053132");
    assert_eq!(read("구공오삼일삼이구"), "90531329");
    assert_eq!(read("구공오삼일삼구요"), "9053139요", "only an ending is cut off");
}

#[test]
fn digits_before_a_unit_are_abandoned() {
    assert_eq!(read("이삼십년"), "이삼십년");
    assert_eq!(read("공삼십년"), "공삼십년");
    assert_eq!(read("천공일년"), "1001년");
    assert_eq!(read("일억"), "100000000");
}

#[test]
fn a_value_above_64_bits_is_abandoned() {
    let many = "구천구백구십구억".repeat(3);
    assert_eq!(read(&many), "2999700000000");
    assert_eq!(read("구천억년"), "900000000000년");
}

#[test]
fn whitespace_is_looked_over_up_to_the_window() {
    assert_eq!(read("공일공  번"), "010  번");
    assert_eq!(read("공일공   번"), "공일공   번");
    assert_eq!(read("-  공일"), "-  01");
    assert_eq!(read("-   공일"), "-   공일");
}

#[test]
fn each_pass_can_be_turned_off() {
    let text = "\u{1112}\u{1161}\u{11AB} ８８ 팔팔공일공일 88O1 1-2";
    let mut cfg = NormalizeConfig {
        nfc: false,
        fold: false,
        hangul: false,
        lookalike: false,
        separator: false,
        numeral: NumeralConfig::default(),
    };
    let out = normalize(text, &cfg).unwrap();
    assert_eq!(out.text, text);
    assert!(out.map.is_identity());
    cfg.fold = true;
    assert_eq!(normalize(text, &cfg).unwrap().text, "\u{1112}\u{1161}\u{11AB} 88 팔팔공일공일 88O1 1-2");
}

// Spans and maps.

#[test]
fn a_request_inside_a_rewritten_segment_takes_all_of_it() {
    let mut b = SpanMapBuilder::new();
    b.keep("값 ");
    b.numeral("일억", "100000000", "test.numeral");
    b.absorb("-", "test.separator", Absorbed::Separator);
    let (out, map) = b.finish();
    assert_eq!(out, "값 100000000");

    let inside = map.to_source(&Span::new(7..7, 5..5));
    assert_eq!(inside.span, Span::new(4..10, 2..4));
    assert!(inside.snapped);
    assert_eq!(inside.cost.expanded_syllables, 2);

    let at_start = map.to_source(&Span::new(4..4, 2..2));
    assert_eq!(at_start.span, Span::empty_at(4, 2));
    assert!(!at_start.snapped && at_start.rules.is_empty() && at_start.cost.is_zero());

    let at_end = map.to_source(&Span::new(13..13, 11..11));
    assert_eq!(at_end.span, Span::empty_at(10, 4));
}

#[test]
fn a_request_beyond_the_output_ends_with_the_source() {
    let mut b = SpanMapBuilder::new();
    b.keep("값 ");
    b.numeral("일억", "100000000", "test.numeral");
    b.absorb("-", "test.separator", Absorbed::Separator);
    let (_, map) = b.finish();

    let past = Span::new(4..20, 2..18);
    assert!(map.can_answer(&past));
    let cut = map.to_source(&past);
    assert_eq!(cut.span, Span::new(4..11, 2..5));
    assert!(cut.snapped);
    assert_eq!(cut.rules, vec!["test.numeral", "test.separator"]);

    let behind = map.to_source(&Span::new(20..25, 18..23));
    assert_eq!(behind.span, Span::empty_at(11, 5));
    assert!(!behind.snapped && behind.rules.is_empty() && behind.cost.is_zero());
}

#[test]
fn offsets_that_contradict_each_other_are_told() {
    let mut b = SpanMapBuilder::new();
    b.numeral("일", "1", "test.numeral");
    b.keep("abc");
    let (_, map) = b.finish();
    assert!(map.can_answer(&Span::new(2..3, 2..3)));
    assert_eq!(map.to_source(&Span::new(2..3, 2..3)).span, Span::new(4..5, 2..3));
    assert!(!map.can_answer(&Span::new(2..3, 0..3)));
}

#[test]
fn costs_saturate() {
    let mut cost = NormalizationCost { absorbed_whitespace: 65_535, replaced_chars: 1, ..Default::default() };
    cost.add(&NormalizationCost { absorbed_whitespace: 3, replaced_chars: 4, ..Default::default() });
    assert_eq!(cost.absorbed_whitespace, 65_535);
    assert_eq!(cost.replaced_chars, 5);
    assert!(!cost.is_zero());
}

#[test]
fn nothing_is_ever_inserted() {
    let mut b = SpanMapBuilder::new();
    b.replace("", "x", "test.rule");
    b.numeral("", "1", "test.rule");
    b.absorb("", "test.rule", Absorbed::Other);
    b.keep("");
    let (out, map) = b.finish();
    assert_eq!(out, "");
    assert!(map.segments().is_empty());
}

#[test]
fn mismatched_maps_are_named_in_the_error() {
    let err = SpanMap::compose(&SpanMap::identity("abc"), &SpanMap::identity("가나다라")).unwrap_err();
    assert_eq!(
        err,
        Error::SpanMapMismatch { detail: String::from("inner output (3, 3) != outer input (12, 4)") }
    );
    assert_eq!(
        err.message(),
        "span map coordinate mismatch: inner output (3, 3) != outer input (12, 4)"
    );
}

fn segment(src: Span, dst: Span, kind: SegmentKind) -> Segment {
    Segment { src, dst, kind, rules: Vec::new(), cost: NormalizationCost::default() }
}

#[test]
fn every_fault_of_a_map_is_named() {
    let s = |a: u32, b: u32| Span::new(a..b, a..b);
    for (seg, detail) in [
        (
            segment(s(1, 2), s(0, 1), SegmentKind::Identity),
            "src not contiguous: expected byte 0 char 0, found byte 1 char 1",
        ),
        (
            segment(s(0, 1), s(2, 3), SegmentKind::Identity),
            "dst not contiguous: expected byte 0 char 0, found byte 2 char 2",
        ),
        (segment(s(0, 2), s(0, 3), SegmentKind::Identity), "identity segment has unequal lengths"),
        (segment(s(0, 2), s(0, 1), SegmentKind::Delete), "delete segment must consume src and produce nothing"),
        (segment(s(0, 2), s(0, 1), SegmentKind::Expand), "expand segment must grow in chars"),
        (segment(s(0, 2), s(0, 0), SegmentKind::Replace), "replace segment must have both sides"),
        (
            segment(s(0, 0), s(0, 2), SegmentKind::Expand),
            "segment has an empty source range; insertion is not supported",
        ),
    ] {
        let err = SpanMap { segments: vec![seg] }.validate().unwrap_err();
        assert_eq!(err, Error::SpanMapInvariant { index: 0, detail: String::from(detail) });
        assert_eq!(err.message(), format!("span map invariant violated at segment 0: {detail}"));
    }
    let reversed = segment(
        Span { byte: std::ops::Range { start: 0, end: 1 }, char: std::ops::Range { start: 0, end: 1 } },
        Span { byte: std::ops::Range { start: 0, end: 0 }, char: std::ops::Range { start: 0, end: 0 } },
        SegmentKind::Delete,
    );
    let mut second = segment(s(1, 0), s(0, 0), SegmentKind::Delete);
    let err = SpanMap { segments: vec![reversed.clone(), second.clone()] }.validate().unwrap_err();
    assert_eq!(err, Error::SpanMapInvariant { index: 1, detail: String::from("reversed byte range") });
    second.src = Span::new(1..2, 1..0);
    let err = SpanMap { segments: vec![reversed, second] }.validate().unwrap_err();
    assert_eq!(err, Error::SpanMapInvariant { index: 1, detail: String::from("reversed char range") });
}

#[test]
fn spans_are_made_from_characters_and_checked_against_texts() {
    let text = "가a나";
    let span = Span::from_char_range(text, 1, 3).unwrap();
    assert_eq!(span, Span::new(3..7, 1..3));
    assert_eq!(span.slice(text), "a나");
    assert_eq!(Span::from_char_range(text, 2, 1), Err(RangeFault::Reversed));
    assert_eq!(Span::from_char_range(text, 0, 4), Err(RangeFault::OutOfRange(3)));
    assert_eq!(span.try_slice(text), Ok("a나"));
    assert_eq!(Span::new(3..8, 1..3).try_slice(text), Err(SliceFault::OutOfRange));
    assert_eq!(Span::new(1..3, 0..1).try_slice(text), Err(SliceFault::NotOnCharacters));
}

// Candidates and context.

fn places(text: &str) -> Vec<Option<u8>> {
    text.bytes().map(|b| if b.is_ascii_digit() { Some(b - b'0') } else { None }).collect()
}

#[test]
fn hidden_digits_leave_candidates_that_need_context() {
    let found = candidates_in(&places("8801011******"));
    let resident = found.iter().find(|c| c.entity == EntityKind::Resident).unwrap();
    assert!(resident.needs_context);
    assert!(matches!(resident.checksum, ChecksumResult::NotApplicable(_)));
    assert_eq!(resident.rule, "resident.korean_13");
    assert!(found.iter().all(|c| c.needs_context));

    let phone = candidates_in(&places("0101234****"));
    assert!(phone.iter().any(|c| c.entity == EntityKind::Phone && c.needs_context));
    let card = candidates_in(&places("41111111********"));
    assert!(card.iter().any(|c| c.entity == EntityKind::CreditCard && !c.checksum.failed()));
    assert!(candidates_in(&places("88****")).is_empty());
}

#[test]
fn runs_need_two_digits_that_show() {
    assert!(digit_runs("**강조** 3x4x 1*").iter().all(|s| s.char_len() > 2));
    let runs = digit_runs("900513-1****67");
    assert_eq!(runs.len(), 2);
    assert_eq!(runs[1], Span::new(7..14, 7..14));
}

#[test]
fn a_window_of_no_characters_finds_nothing() {
    let text = "여권 M12345678 여권";
    let span = Span::from_char_range(text, 3, 12).unwrap();
    assert!(find(text, &span, 0, &PASSPORT.cues()).is_empty());
    assert!(find(text, &span, 2, &PASSPORT.cues()).is_empty());
    let hits = find(text, &span, 3, &PASSPORT.cues());
    assert_eq!(hits.len(), 1);
    assert_eq!((hits[0].cue.word, hits[0].cue.weight, hits[0].distance), ("여권", 8, 1));
}

#[test]
fn the_nearest_place_of_a_word_counts() {
    let text = "사업자 사업자번호 1234567890";
    let span = Span::from_char_range(text, 10, 20).unwrap();
    let hits = find(text, &span, 24, &BUSINESS.cues());
    let words: Vec<(&str, u32)> = hits.iter().map(|h| (h.cue.word, h.distance)).collect();
    assert_eq!(words, vec![("사업자번호", 1), ("사업자", 3)]);
    assert!(find("계약번호 1", &Span::from_char_range("계약번호 1", 5, 6).unwrap(), 9, &EXCLUDE.cues())
        .iter()
        .any(|h| h.cue.word == "계약번호"));
}

#[test]
fn words_of_a_list_of_ones_own_are_found() {
    let cues = vec![Cue { word: "사번", weight: 7 }, Cue { word: "부서", weight: 3 }, Cue { word: "", weight: 1 }];
    let text = "사번은 1234";
    let span = Span::from_char_range(text, 4, 8).unwrap();
    let found: Vec<(&str, u32)> = find(text, &span, 5, &cues).iter().map(|h| (h.cue.word, h.distance)).collect();
    assert_eq!(found, vec![("사번", 2), ("", 0)]);
}

#[test]
fn hits_are_ranked_by_weight_and_then_by_word() {
    let hit = |cue: &'static str, key: u32| ContextHit { cue, distance: 0, weight: Score { key } };
    let ranked = rank(vec![hit("나", 5), hit("가", 5), hit("다", 9), hit("라", 1)]);
    let cues: Vec<&str> = ranked.iter().map(|h| h.cue).collect();
    assert_eq!(cues, vec!["다", "가", "나", "라"]);
}

#[test]
fn items_at_one_position_keep_their_order() {
    let item = |from: u32, to: u32, key: u32| Rejection {
        entity: EntityKind::Phone,
        source: Span::new(from..to, from..to),
        reason: RejectReason::NoContext,
        score: Score { key },
    };
    let out = ordered(vec![item(3, 4, 0), item(1, 9, 1), item(3, 4, 2), item(1, 2, 3)]);
    let keys: Vec<u32> = out.iter().map(|r| r.score.key).collect();
    assert_eq!(keys, vec![3, 1, 0, 2]);
}

// Masking.

#[test]
fn the_authentication_code_is_the_published_one() {
    assert_eq!(
        hmac_hex(b"Jefe", "what do ya want for nothing?", 100),
        "5bdcc146bf60754e6a042426089575c75a003f089d2739839dec58b964ec3843"
    );
    assert_eq!(hmac_hex(b"Jefe", "what do ya want for nothing?", 5), "5bdcc");
    assert_eq!(hex_prefix(&[0x0f, 0xa0], 3), "0fa");
    assert_eq!(hex_prefix(&[], 3), "");
}

#[test]
fn nothing_shows_when_more_is_kept_than_there_is() {
    assert_eq!(partial("1234", usize::MAX, usize::MAX, '#'), "####");
    assert_eq!(partial("1234", 2, 2, '#'), "####");
    assert_eq!(partial("1234", 0, 3, '#'), "#234");
    assert_eq!(partial("", 0, 0, '#'), "");
}

#[test]
fn prefixes_are_tried_in_order() {
    assert_eq!(RestoreMap::for_text("[[PII:").prefix(), "PII0");
    assert_eq!(RestoreMap::for_text("[[PII:0]] [[PII0:1]]").prefix(), "PII1");
    assert_eq!(RestoreMap::for_text("[[PII0:1]]").prefix(), "PII");
    assert_eq!(RestoreMap::for_text("[PII:").prefix(), "PII");
}

#[test]
fn a_broken_token_says_what_is_wrong() {
    let mut map = RestoreMap::for_text("x");
    assert_eq!(map.push(EntityKind::Email, "a@b.com"), "[[PII:0]]");
    for (masked, detail) in [
        ("a [[PII:0", "[[PII:...  에 닫는 괄호가 없다"),
        ("[[PII:]]", "토큰 번호가 숫자가 아니다: ''"),
        ("[[PII:-0]]", "토큰 번호가 숫자가 아니다: '-0'"),
        ("[[PII:99999999999999999999]]", "토큰 번호가 숫자가 아니다: '99999999999999999999'"),
        ("[[PII:1]]", "표에 없는 토큰 번호 1"),
    ] {
        let err = unmask(masked, &map).unwrap_err();
        assert_eq!(err, Error::RestoreToken { detail: String::from(detail) });
        assert_eq!(err.message(), format!("restore token error: {detail}"));
    }
    assert_eq!(unmask("[[PII:+00]][[PII:0]]", &map).unwrap(), "a@b.coma@b.com");
}

#[test]
fn later_policies_take_the_place_of_earlier_ones() {
    let set = PolicySet::new(Policy::Tokenize)
        .with(EntityKind::Email, Policy::Redact(Redaction::Code))
        .with(EntityKind::Phone, Policy::Redact(Redaction::Label))
        .with(EntityKind::Email, Policy::Redact(Redaction::Fixed(String::from("-"))));
    assert_eq!(set.policy_for(EntityKind::Email), &Policy::Redact(Redaction::Fixed(String::from("-"))));
    assert_eq!(set.policy_for(EntityKind::Phone), &Policy::Redact(Redaction::Label));
    assert_eq!(set.policy_for(EntityKind::Passport), &Policy::Tokenize);
}

// Samples.

#[test]
fn exactly_one_check_digit_passes() {
    for (check, head) in [
        (Check::Resident, "880101112345"),
        (Check::Business, "124810099"),
        (Check::Card, "411111111111111"),
    ] {
        let digits = to_digits(head).unwrap();
        let done = complete(check, digits.clone());
        let right: Vec<u8> = (0..10u8)
            .filter(|c| {
                let mut d = digits.clone();
                d.push(*c);
                passes(check, &d)
            })
            .collect();
        assert_eq!(right, vec![done[done.len() - 1]]);
    }
    assert_eq!(complete(Check::Business, to_digits("124810099").unwrap())[9], 8);
    assert_eq!(complete(Check::Card, to_digits("411111111111111").unwrap())[15], 1);
    assert_eq!(complete(Check::Resident, to_digits("880101123456").unwrap())[12], 8);
}

#[test]
fn a_range_without_numbers_gives_zero() {
    let mut rng = Rng::new(7);
    assert_eq!(rng.below(0), 0);
    assert!((0..100).all(|_| rng.below(7) < 7));
}

#[test]
fn samples_say_what_they_hold() {
    let mut rng = Rng::new(20);
    let sample = positive(&mut rng, EntityKind::Passport, Variant::Literal, true);
    let value = &sample.text[sample.span.start as usize..sample.span.end as usize];
    assert_eq!(sample.text, format!("여권번호 {value} 로 예약했습니다"));
    assert_eq!(value.len(), 9);
    assert_eq!(sample.clone(), sample);
    let none = negative(&mut rng);
    assert_eq!(answer(none.expected), "없음");
    assert_eq!(answer(sample.expected), "여권번호");
}

// Names.

#[test]
fn names_are_those_of_the_output() {
    assert_eq!(SegmentKind::Expand.name(), "expand");
    assert_eq!(Certainty::Possible.name(), "possible");
    assert_eq!(RejectReason::BusinessContext.name(), "business_context");
    assert_eq!(ChecksumResult::Passed.name(), "passed");
    assert_eq!(ChecksumResult::NotApplicable("x").name(), "not_applicable");
    assert_eq!(ChecksumResult::NotApplicable("x").reason(), Some("x"));
    assert_eq!(ChecksumResult::Failed.reason(), None);
    assert_eq!(Absorbed::from_name("other"), Some(Absorbed::Other));
    assert_eq!(Absorbed::from_name("whitespace"), Some(Absorbed::Whitespace));
    assert_eq!(Absorbed::from_name("Other"), None);
    assert_eq!(EntityKind::from_code("passport"), Some(EntityKind::Passport));
    assert_eq!(EntityKind::Passport.label(), "여권번호");
}

#[test]
fn a_choice_becomes_a_policy() {
    assert_eq!(build_policies(PolicyChoice::Hash, 3, 4, '*', None), Err(KEY_NEEDED));
    let hash = build_policies(PolicyChoice::Hash, 3, 4, '*', Some("열쇠")).unwrap();
    assert_eq!(hash.default, Policy::Hash { key: "열쇠".as_bytes().to_vec(), len: 12 });
    let part = build_policies(PolicyChoice::Partial, 3, 4, '#', None).unwrap();
    assert_eq!(part.default, Policy::Partial { keep_prefix: 3, keep_suffix: 4, fill: '#' });
    assert!(build_policies(PolicyChoice::Tokenize, 0, 0, '*', None).unwrap().uses_tokenize());

    let out = rust_pii_transformer::mask::mask_findings("x", &[], &PolicySet::new(Policy::Tokenize));
    assert!(!may_hand_out(&out, false));
    assert!(may_hand_out(&out, true));
}

#[test]
fn a_replacement_that_grows_is_a_fault() {
    let mut grown = segment(Span::new(0..1, 0..1), Span::new(0..2, 0..2), SegmentKind::Replace);
    grown.rules = vec!["r"];
    let map = SpanMap { segments: vec![grown] };
    assert_eq!(
        map.validate(),
        Err(Error::SpanMapInvariant { index: 0, detail: "replace segment must not grow in chars".to_owned() })
    );

    let mut b = SpanMapBuilder::new();
    b.replace("a", "bc", "r");
    let (_, map) = b.finish();
    assert_eq!(map.segments()[0].kind, SegmentKind::Expand);
    assert!(map.validate().is_ok());
}

#[test]
fn parts_lead_to_parts_and_order_is_kept() {
    let text = "값 팔팔공일공일 - 1234567 끝";
    let out = normalize(text, &NormalizeConfig::default()).unwrap();
    assert_eq!(out.text, "값 8801011234567 끝");
    let n = out.text.chars().count() as u32;
    let lead = |from: u32, to: u32| out.map.to_source(&Span::from_char_range(&out.text, from, to).unwrap());
    for from in 0..n {
        for to in from + 1..=n {
            let whole = lead(from, to);
            for a in from..to {
                for b in a + 1..=to {
                    let part = lead(a, b);
                    assert!(whole.span.byte.start <= part.span.byte.start && part.span.byte.end <= whole.span.byte.end);
                    assert!(part.cost.absorbed_separators <= whole.cost.absorbed_separators);
                    assert!(part.cost.expanded_syllables <= whole.cost.expanded_syllables);
                }
                if a > from {
                    let (left, right) = (lead(from, a), lead(a, to));
                    assert!(left.span.byte.start <= right.span.byte.start && left.span.byte.end <= right.span.byte.end);
                }
            }
        }
    }
}

#[test]
fn the_whole_text_is_led_back() {
    for text in ["", "a", "- 1-2 -", "팔팔공일공일이래요", " １ "] {
        let out = normalize(text, &NormalizeConfig::default()).unwrap();
        let n = out.text.chars().count() as u32;
        let all = out.map.to_source(&Span::from_char_range(&out.text, 0, n).unwrap());
        assert_eq!(all.span.slice(text), text);
        assert!(!all.snapped);
        for segment in out.map.segments().iter().filter(|s| s.kind == SegmentKind::Identity) {
            assert_eq!(segment.src.slice(text), segment.dst.slice(&out.text));
        }
    }
}

#[test]
fn absorbing_twice_is_absorbing_once() {
    for text in ["1 - 2", "1-a-2", "(02) 123-4567\n8", "1.,·2)", "- 1 2 -"] {
        let once = separator::apply(text).0;
        assert_eq!(separator::apply(&once).0, once);
    }
    assert_eq!(separator::apply("(02) 123-4567\n8").0, "(021234567\n8");
}

#[test]
fn texts_that_fit_can_be_normalized() {
    assert!(can_normalize("", &NormalizeConfig::default()));
    assert!(can_normalize("팔팔공일공일", &NormalizeConfig::default()));
    assert_eq!(hangul::output_len("팔팔공일공일 끝", &NumeralConfig::default()), 10);
    assert_eq!(hangul::output_len("구십일년 이에요", &NumeralConfig::default()), 15);
}

#[test]
fn samples_are_read_back_by_the_whole_pipeline() {
    let kinds = [
        (EntityKind::Resident, Check::Resident, 13),
        (EntityKind::ForeignerRegistration, Check::Resident, 13),
        (EntityKind::BusinessRegistration, Check::Business, 10),
        (EntityKind::CreditCard, Check::Card, 16),
    ];
    let variants = [
        Variant::Plain,
        Variant::Hyphen,
        Variant::Space,
        Variant::Fullwidth,
        Variant::HangulDigits,
        Variant::Lookalike,
    ];
    let mut rng = Rng::new(11);
    for (entity, check, len) in kinds {
        for variant in variants {
            let sample = positive(&mut rng, entity, variant, true);
            let written = &sample.text[sample.span.start as usize..sample.span.end as usize];
            let digits = to_digits(&normal(written)).unwrap();
            assert_eq!(digits.len(), len);
            assert!(passes(check, &digits));
        }
    }
}

#[test]
fn rounds_have_a_fixed_number_of_samples() {
    let two = corpus(4, 2);
    assert_eq!(two.len(), 158);
    assert_eq!(two.iter().filter(|s| s.expected.is_some()).count(), 134);
    assert_eq!(corpus(4, 1)[..], two[..79]);
    assert!(corpus(4, 0).is_empty());
    assert!(two.iter().all(|s| s.span.start < s.span.end && s.text.get(s.span.start as usize..s.span.end as usize).is_some()));
}
