//! Synthetic samples with known answers.
//!
//! Real registration numbers have no place in tests. The values here are made up and pass the
//! checks of real ones. The same seed always gives the same samples.

pub mod counts;
pub mod laws;
pub mod likeness;
pub mod notation;
pub mod readback;
pub mod rng;
pub mod shape;
pub mod value;

use std::ops::Range;
use vstd::prelude::*;
use crate::detect::entity::EntityKind;
use crate::synth::notation::{lemma_notation_len, notation, render};
use crate::synth::rng::{digits_drawn, drawn, later, lemma_later_add};
use crate::synth::value::{
    digits_text, draws_of, lemma_digits_text_len, lemma_value_len, to_text, value_for, value_of,
};
use crate::text::{
    byte_len, decimal, lemma_utf8_len_add, lemma_utf8_len_bounds, push_decimal, utf8_len,
};

pub use notation::Variant;
pub use rng::Rng;

verus! {

broadcast use crate::text::lemma_text_char_range;

/// A text with a known answer.
#[derive(Debug, PartialEq, Eq)]
pub struct Sample {
    /// The text.
    pub text: String,
    /// What it holds, or nothing.
    pub expected: Option<EntityKind>,
    /// The bytes where the value stands. In a text that holds none, all bytes.
    pub span: Range<u32>,
    /// How the value is written.
    pub variant: Variant,
    /// Whether words around the value speak for it.
    pub with_context: bool,
    /// What looks like a value in a text that holds none.
    pub trap: Option<&'static str>,
}

/// A sample, with its text as a sequence.
pub struct SampleModel {
    pub text: Seq<char>,
    pub expected: Option<EntityKind>,
    pub from: int,
    pub to: int,
    pub variant: Variant,
    pub with_context: bool,
    pub trap: Option<&'static str>,
}

impl View for Sample {
    type V = SampleModel;

    open spec fn view(&self) -> SampleModel {
        SampleModel {
            text: self.text@,
            expected: self.expected,
            from: self.span.start as int,
            to: self.span.end as int,
            variant: self.variant,
            with_context: self.with_context,
            trap: self.trap,
        }
    }
}

impl Clone for Sample {
    fn clone(&self) -> (r: Self)
        ensures
            r@ == self@,
    {
        Sample {
            text: self.text.clone(),
            expected: self.expected,
            span: self.span.start..self.span.end,
            variant: self.variant,
            with_context: self.with_context,
            trap: self.trap,
        }
    }
}

/// The kinds that samples are made of.
pub const ENTITIES: [EntityKind; 10] = [
    EntityKind::Resident,
    EntityKind::ForeignerRegistration,
    EntityKind::BusinessRegistration,
    EntityKind::CreditCard,
    EntityKind::Phone,
    EntityKind::Email,
    EntityKind::BankAccount,
    EntityKind::DriverLicense,
    EntityKind::BirthDate,
    EntityKind::Passport,
];

/// What stands before and behind a value, in a sentence that speaks for it or in one that does not.
pub open spec fn frame(entity: EntityKind, with_context: bool) -> (Seq<char>, Seq<char>) {
    if !with_context {
        ("첨부 자료 확인 부탁드립니다. "@, " 참고하시면 됩니다."@)
    } else {
        match entity {
            EntityKind::Resident => ("주민등록번호 "@, " 입니다"@),
            EntityKind::ForeignerRegistration => ("외국인등록번호 "@, " 확인했습니다"@),
            EntityKind::BusinessRegistration => ("사업자등록번호 "@, " 로 세금계산서 발행 부탁드립니다"@),
            EntityKind::CreditCard => ("카드번호 "@, " 로 결제했습니다"@),
            EntityKind::BankAccount => ("입금 계좌번호 "@, " 로 송금 바랍니다"@),
            EntityKind::Phone => ("연락처는 "@, " 입니다"@),
            EntityKind::Email => ("메일은 "@, " 로 보내주세요"@),
            EntityKind::DriverLicense => ("운전면허번호 "@, " 확인 부탁드립니다"@),
            EntityKind::BirthDate => ("생년월일 "@, " 로 등록해 주세요"@),
            EntityKind::Passport => ("여권번호 "@, " 로 예약했습니다"@),
        }
    }
}

/// What stands before and behind a value.
fn sentence(entity: EntityKind, with_context: bool) -> (r: (&'static str, &'static str))
    ensures
        (r.0@, r.1@) == frame(entity, with_context),
{
    if !with_context {
        ("첨부 자료 확인 부탁드립니다. ", " 참고하시면 됩니다.")
    } else {
        match entity {
            EntityKind::Resident => ("주민등록번호 ", " 입니다"),
            EntityKind::ForeignerRegistration => ("외국인등록번호 ", " 확인했습니다"),
            EntityKind::BusinessRegistration => ("사업자등록번호 ", " 로 세금계산서 발행 부탁드립니다"),
            EntityKind::CreditCard => ("카드번호 ", " 로 결제했습니다"),
            EntityKind::BankAccount => ("입금 계좌번호 ", " 로 송금 바랍니다"),
            EntityKind::Phone => ("연락처는 ", " 입니다"),
            EntityKind::Email => ("메일은 ", " 로 보내주세요"),
            EntityKind::DriverLicense => ("운전면허번호 ", " 확인 부탁드립니다"),
            EntityKind::BirthDate => ("생년월일 ", " 로 등록해 주세요"),
            EntityKind::Passport => ("여권번호 ", " 로 예약했습니다"),
        }
    }
}

/// A sentence has fewer than a hundred characters.
proof fn lemma_frame_len(entity: EntityKind, with_context: bool)
    ensures
        frame(entity, with_context).0.len() <= 100,
        frame(entity, with_context).1.len() <= 100,
{
    reveal_strlit("첨부 자료 확인 부탁드립니다. ");
    reveal_strlit(" 참고하시면 됩니다.");
    reveal_strlit("주민등록번호 ");
    reveal_strlit(" 입니다");
    reveal_strlit("외국인등록번호 ");
    reveal_strlit(" 확인했습니다");
    reveal_strlit("사업자등록번호 ");
    reveal_strlit(" 로 세금계산서 발행 부탁드립니다");
    reveal_strlit("카드번호 ");
    reveal_strlit(" 로 결제했습니다");
    reveal_strlit("입금 계좌번호 ");
    reveal_strlit(" 로 송금 바랍니다");
    reveal_strlit("연락처는 ");
    reveal_strlit("메일은 ");
    reveal_strlit(" 로 보내주세요");
    reveal_strlit("운전면허번호 ");
    reveal_strlit(" 확인 부탁드립니다");
    reveal_strlit("생년월일 ");
    reveal_strlit(" 로 등록해 주세요");
    reveal_strlit("여권번호 ");
    reveal_strlit(" 로 예약했습니다");
}

/// A text that holds a value.
pub open spec fn positive_of(s: u64, entity: EntityKind, variant: Variant, with_context: bool) -> SampleModel {
    let written = notation(entity, value_of(entity, s), variant);
    let (before, behind) = frame(entity, with_context);
    SampleModel {
        text: before + written + behind,
        expected: Some(entity),
        from: utf8_len(before) as int,
        to: (utf8_len(before) + utf8_len(written)) as int,
        variant,
        with_context,
        trap: None,
    }
}

/// A text that holds a value of a kind.
pub fn positive(rng: &mut Rng, entity: EntityKind, variant: Variant, with_context: bool) -> (r: Sample)
    ensures
        r@ == positive_of(old(rng).state, entity, variant, with_context),
        final(rng).state == later(old(rng).state, draws_of(entity, old(rng).state)),
{
    let value = value_for(rng, entity);
    let written = render(entity, value.as_str(), variant);
    let (before, behind) = sentence(entity, with_context);
    proof {
        lemma_value_len(entity, old(rng).state);
        lemma_notation_len(entity, value@, variant);
        lemma_frame_len(entity, with_context);
        lemma_utf8_len_bounds(before@);
        lemma_utf8_len_bounds(written@);
    }
    let mut text = String::from_str(before);
    text.append(written.as_str());
    text.append(behind);
    let start: u32 = byte_len(before) as u32;
    let end: u32 = start + byte_len(written.as_str()) as u32;
    Sample { text, expected: Some(entity), span: start..end, variant, with_context, trap: None }
}

/// The value of a sample stands where the sample says.
pub proof fn law_the_answer_points_at_the_value(s: u64, entity: EntityKind, variant: Variant, with_context: bool)
    ensures
        ({
            let m = positive_of(s, entity, variant, with_context);
            let a = frame(entity, with_context).0.len() as int;
            let written = notation(entity, value_of(entity, s), variant);
            &&& m.text.subrange(a, (a + written.len()) as int) == written
            &&& m.from == utf8_len(m.text.take(a))
            &&& m.to == utf8_len(m.text.take((a + written.len()) as int))
        }),
{
    let m = positive_of(s, entity, variant, with_context);
    let (before, behind) = frame(entity, with_context);
    let a = before.len() as int;
    let written = notation(entity, value_of(entity, s), variant);
    assert(m.text.subrange(a, (a + written.len()) as int) =~= written);
    assert(m.text.take(a) =~= before);
    assert(m.text.take((a + written.len()) as int) =~= before + written);
    lemma_utf8_len_add(before, written);
}

/// The text of a sample that holds no value.
///
/// Numbers of documents and things are not chosen to be easy: that thirteen digits may pass a
/// check by chance belongs to what is measured.
pub open spec fn trap_text(s: u64) -> Seq<char> {
    let k = drawn(s, 10);
    if k == 0 {
        "주문번호 "@ + decimal(2 + drawn(later(s, 1), 8)) + digits_text(digits_drawn(later(s, 2), 10)) + " 로 접수되었습니다"@
    } else if k == 1 {
        "송장번호 "@ + digits_text(digits_drawn(later(s, 1), 12)) + " 입니다"@
    } else if k == 2 {
        "운송장번호 "@ + digits_text(digits_drawn(later(s, 1), 13)) + " 조회 결과입니다"@
    } else if k == 3 {
        "제품 코드 "@ + digits_text(digits_drawn(later(s, 1), 4)) + " 수량 "@ + digits_text(digits_drawn(later(s, 5), 4)) + " 개"@
    } else if k == 4 {
        "총 금액은 "@ + digits_text(digits_drawn(later(s, 1), 7)) + " 원입니다"@
    } else if k == 5 {
        "이사 갑니다. 사구 팔구 방식으로 진행하고 구이 정식을 주문했습니다."@
    } else if k == 6 {
        "증권번호 "@ + digits_text(digits_drawn(later(s, 1), 12)) + " 로 조회하세요"@
    } else if k == 7 {
        "고객센터 15"@ + digits_text(digits_drawn(later(s, 1), 2)) + "-"@ + digits_text(digits_drawn(later(s, 3), 4)) + " 로 문의 바랍니다"@
    } else if k == 8 {
        "계약번호 "@ + digits_text(digits_drawn(later(s, 1), 10)) + " 확인 부탁드립니다"@
    } else {
        "회원번호 "@ + digits_text(digits_drawn(later(s, 1), 9)) + " 등급 조회 결과"@
    }
}

/// What looks like a value.
pub open spec fn trap_name(s: u64) -> &'static str {
    let k = drawn(s, 10);
    if k == 0 {
        "11자리 주문번호"
    } else if k == 1 {
        "12자리 송장번호"
    } else if k == 2 {
        "13자리 운송장번호 (Luhn 우연 통과 가능)"
    } else if k == 3 {
        "짧은 숫자 두 개"
    } else if k == 4 {
        "금액"
    } else if k == 5 {
        "수사 음절로 이루어진 일상어"
    } else if k == 6 {
        "12자리 증권번호 (부정 문맥)"
    } else if k == 7 {
        "대표번호 (개인의 전화번호가 아니다)"
    } else if k == 8 {
        "10자리 계약번호 (사업자등록번호와 같은 폭)"
    } else {
        "9자리 회원번호"
    }
}

/// How many draws such a sample takes.
pub open spec fn trap_draws(s: u64) -> nat {
    let k = drawn(s, 10);
    if k == 0 {
        12
    } else if k == 1 {
        13
    } else if k == 2 {
        14
    } else if k == 3 {
        9
    } else if k == 4 {
        8
    } else if k == 5 {
        1
    } else if k == 6 {
        13
    } else if k == 7 {
        7
    } else if k == 8 {
        11
    } else {
        10
    }
}

/// A text that holds no value.
pub open spec fn negative_of(s: u64) -> SampleModel {
    SampleModel {
        text: trap_text(s),
        expected: None,
        from: 0,
        to: utf8_len(trap_text(s)) as int,
        variant: Variant::Plain,
        with_context: false,
        trap: Some(trap_name(s)),
    }
}

/// Appends digits.
fn push_digits(out: &mut String, rng: &mut Rng, n: usize)
    requires
        n <= 20,
    ensures
        final(out)@ == old(out)@ + digits_text(digits_drawn(old(rng).state, n as nat)),
        final(out)@.len() == old(out)@.len() + n,
        final(rng).state == later(old(rng).state, n as nat),
{
    let digits = rng.digits(n);
    out.append(to_text(digits.as_slice()).as_str());
    proof {
        lemma_digits_text_len(digits@);
    }
}

/// The text and the name of a trap.
fn trap(rng: &mut Rng) -> (r: (String, &'static str))
    ensures
        r.0@ == trap_text(old(rng).state),
        r.1 == trap_name(old(rng).state),
        r.0@.len() <= 200,
        final(rng).state == later(old(rng).state, trap_draws(old(rng).state)),
{
    let ghost s = old(rng).state;
    proof {
        reveal_strlit("주문번호 ");
        reveal_strlit(" 로 접수되었습니다");
        reveal_strlit("송장번호 ");
        reveal_strlit(" 입니다");
        reveal_strlit("운송장번호 ");
        reveal_strlit(" 조회 결과입니다");
        reveal_strlit("제품 코드 ");
        reveal_strlit(" 수량 ");
        reveal_strlit(" 개");
        reveal_strlit("총 금액은 ");
        reveal_strlit(" 원입니다");
        reveal_strlit("이사 갑니다. 사구 팔구 방식으로 진행하고 구이 정식을 주문했습니다.");
        reveal_strlit("증권번호 ");
        reveal_strlit(" 로 조회하세요");
        reveal_strlit("고객센터 15");
        reveal_strlit("-");
        reveal_strlit(" 로 문의 바랍니다");
        reveal_strlit("계약번호 ");
        reveal_strlit(" 확인 부탁드립니다");
        reveal_strlit("회원번호 ");
        reveal_strlit(" 등급 조회 결과");
    }
    let choice: usize = rng.below(10);
    match choice {
        0 => {
            let mut out = String::from_str("주문번호 ");
            let lead: u64 = 2 + rng.below(8) as u64;
            push_decimal(&mut out, lead);
            proof {
                reveal_with_fuel(decimal, 2);
                lemma_later_add(s, 1, 1);
            }
            push_digits(&mut out, rng, 10);
            proof {
                lemma_later_add(s, 2, 10);
            }
            out.append(" 로 접수되었습니다");
            (out, "11자리 주문번호")
        },
        1 => {
            let mut out = String::from_str("송장번호 ");
            push_digits(&mut out, rng, 12);
            proof {
                lemma_later_add(s, 1, 12);
            }
            out.append(" 입니다");
            (out, "12자리 송장번호")
        },
        2 => {
            let mut out = String::from_str("운송장번호 ");
            push_digits(&mut out, rng, 13);
            proof {
                lemma_later_add(s, 1, 13);
            }
            out.append(" 조회 결과입니다");
            (out, "13자리 운송장번호 (Luhn 우연 통과 가능)")
        },
        3 => {
            let mut out = String::from_str("제품 코드 ");
            push_digits(&mut out, rng, 4);
            proof {
                lemma_later_add(s, 1, 4);
            }
            out.append(" 수량 ");
            push_digits(&mut out, rng, 4);
            proof {
                lemma_later_add(s, 5, 4);
            }
            out.append(" 개");
            (out, "짧은 숫자 두 개")
        },
        4 => {
            let mut out = String::from_str("총 금액은 ");
            push_digits(&mut out, rng, 7);
            proof {
                lemma_later_add(s, 1, 7);
            }
            out.append(" 원입니다");
            (out, "금액")
        },
        5 => {
            let mut out = String::from_str("이사 갑니다. 사구 팔구 방식으로 진행하고 구이 정식을 주문했습니다.");
            (out, "수사 음절로 이루어진 일상어")
        },
        6 => {
            let mut out = String::from_str("증권번호 ");
            push_digits(&mut out, rng, 12);
            proof {
                lemma_later_add(s, 1, 12);
            }
            out.append(" 로 조회하세요");
            (out, "12자리 증권번호 (부정 문맥)")
        },
        7 => {
            let mut out = String::from_str("고객센터 15");
            push_digits(&mut out, rng, 2);
            proof {
                lemma_later_add(s, 1, 2);
            }
            out.append("-");
            push_digits(&mut out, rng, 4);
            proof {
                lemma_later_add(s, 3, 4);
            }
            out.append(" 로 문의 바랍니다");
            (out, "대표번호 (개인의 전화번호가 아니다)")
        },
        8 => {
            let mut out = String::from_str("계약번호 ");
            push_digits(&mut out, rng, 10);
            proof {
                lemma_later_add(s, 1, 10);
            }
            out.append(" 확인 부탁드립니다");
            (out, "10자리 계약번호 (사업자등록번호와 같은 폭)")
        },
        _ => {
            let mut out = String::from_str("회원번호 ");
            push_digits(&mut out, rng, 9);
            proof {
                lemma_later_add(s, 1, 9);
            }
            out.append(" 등급 조회 결과");
            (out, "9자리 회원번호")
        },
    }
}

/// A text that holds no value, but something that looks like one.
pub fn negative(rng: &mut Rng) -> (r: Sample)
    ensures
        r@ == negative_of(old(rng).state),
        final(rng).state == later(old(rng).state, trap_draws(old(rng).state)),
{
    let (text, name) = trap(rng);
    proof {
        lemma_utf8_len_bounds(text@);
    }
    let len: u32 = byte_len(text.as_str()) as u32;
    Sample { text, expected: None, span: 0..len, variant: Variant::Plain, with_context: false, trap: Some(name) }
}

/// The notations in which values of a kind are written.
pub open spec fn variant_list(entity: EntityKind) -> Seq<Variant> {
    match entity {
        EntityKind::Resident => seq![Variant::Plain, Variant::Hyphen, Variant::Space, Variant::Fullwidth, Variant::HangulDigits, Variant::Lookalike, Variant::Masked, Variant::SentenceEnding],
        EntityKind::ForeignerRegistration => seq![Variant::Plain, Variant::Hyphen, Variant::Space, Variant::Fullwidth, Variant::HangulDigits, Variant::Lookalike, Variant::Masked, Variant::SentenceEnding],
        EntityKind::CreditCard => seq![Variant::Plain, Variant::Hyphen, Variant::Space, Variant::Fullwidth, Variant::Lookalike, Variant::Masked],
        EntityKind::BusinessRegistration => seq![Variant::Plain, Variant::Hyphen, Variant::Fullwidth, Variant::Lookalike, Variant::Masked],
        EntityKind::Phone => seq![Variant::Plain, Variant::Hyphen, Variant::Fullwidth, Variant::Lookalike, Variant::Masked, Variant::SentenceEnding],
        EntityKind::BankAccount => seq![Variant::Plain, Variant::Hyphen],
        EntityKind::DriverLicense => seq![Variant::Plain, Variant::Hyphen],
        EntityKind::BirthDate => seq![Variant::Plain, Variant::Hyphen],
        EntityKind::Email => seq![Variant::Literal],
        EntityKind::Passport => seq![Variant::Literal],
    }
}

/// The notations in which values of a kind are written.
pub fn variants_for(entity: EntityKind) -> (r: Vec<Variant>)
    ensures
        r@ == variant_list(entity),
{
    let r: Vec<Variant> = match entity {
        EntityKind::Resident | EntityKind::ForeignerRegistration => vec![Variant::Plain, Variant::Hyphen, Variant::Space, Variant::Fullwidth, Variant::HangulDigits, Variant::Lookalike, Variant::Masked, Variant::SentenceEnding],
        EntityKind::CreditCard => vec![Variant::Plain, Variant::Hyphen, Variant::Space, Variant::Fullwidth, Variant::Lookalike, Variant::Masked],
        EntityKind::BusinessRegistration => vec![Variant::Plain, Variant::Hyphen, Variant::Fullwidth, Variant::Lookalike, Variant::Masked],
        EntityKind::Phone => vec![Variant::Plain, Variant::Hyphen, Variant::Fullwidth, Variant::Lookalike, Variant::Masked, Variant::SentenceEnding],
        EntityKind::BankAccount | EntityKind::DriverLicense | EntityKind::BirthDate => vec![Variant::Plain, Variant::Hyphen],
        EntityKind::Email | EntityKind::Passport => vec![Variant::Literal],
    };
    assert(r@ =~= variant_list(entity));
    r
}

/// Values of the kind are found without words that speak for them.
pub open spec fn stands_alone(entity: EntityKind) -> bool {
    !(entity == EntityKind::BankAccount || entity == EntityKind::DriverLicense || entity == EntityKind::BirthDate || entity
        == EntityKind::Passport)
}

/// A value in the notation is found without words that speak for it. Hidden digits cannot be
/// checked, and reading a whole number as numerals costs too much.
pub open spec fn readable_alone(variant: Variant) -> bool {
    !(variant == Variant::Masked || variant == Variant::SentenceEnding)
}

fn works_without_context(entity: EntityKind) -> (r: bool)
    ensures
        r == stands_alone(entity),
{
    match entity {
        EntityKind::BankAccount | EntityKind::DriverLicense | EntityKind::BirthDate | EntityKind::Passport => false,
        _ => true,
    }
}

fn variant_works_without_context(variant: Variant) -> (r: bool)
    ensures
        r == readable_alone(variant),
{
    match variant {
        Variant::Masked | Variant::SentenceEnding => false,
        _ => true,
    }
}

/// Samples, and the state behind them.
pub struct Batch {
    pub samples: Seq<SampleModel>,
    pub state: u64,
}

/// Adds the first `n` notations of a kind.
pub open spec fn add_variants(b: Batch, entity: EntityKind, with_context: bool, n: int) -> Batch
    decreases n,
{
    if n <= 0 {
        b
    } else {
        let p = add_variants(b, entity, with_context, n - 1);
        let variant = variant_list(entity)[n - 1];
        if with_context || readable_alone(variant) {
            Batch {
                samples: p.samples.push(positive_of(p.state, entity, variant, with_context)),
                state: later(p.state, draws_of(entity, p.state)),
            }
        } else {
            p
        }
    }
}

/// Adds the first `n` kinds: all notations with words that speak for them, then those that are found
/// without.
pub open spec fn add_kinds(b: Batch, n: int) -> Batch
    decreases n,
{
    if n <= 0 {
        b
    } else {
        let p = add_kinds(b, n - 1);
        let entity = ENTITIES@[n - 1];
        let m = variant_list(entity).len() as int;
        let q = add_variants(p, entity, true, m);
        if stands_alone(entity) {
            add_variants(q, entity, false, m)
        } else {
            q
        }
    }
}

/// Adds `n` samples that hold no value.
pub open spec fn add_negatives(b: Batch, n: int) -> Batch
    decreases n,
{
    if n <= 0 {
        b
    } else {
        let p = add_negatives(b, n - 1);
        Batch { samples: p.samples.push(negative_of(p.state)), state: later(p.state, trap_draws(p.state)) }
    }
}

/// Adds `n` rounds of samples.
pub open spec fn add_rounds(b: Batch, n: int) -> Batch
    decreases n,
{
    if n <= 0 {
        b
    } else {
        add_negatives(add_kinds(add_rounds(b, n - 1), 10), 12)
    }
}

/// The models of samples.
pub open spec fn sample_models(samples: Seq<Sample>) -> Seq<SampleModel> {
    samples.map_values(|s: Sample| s@)
}

/// The samples so far, and the state.
pub open spec fn batch(out: Seq<Sample>, rng: Rng) -> Batch {
    Batch { samples: sample_models(out), state: rng.state }
}

fn push_sample(out: &mut Vec<Sample>, s: Sample)
    ensures
        sample_models(final(out)@) == sample_models(old(out)@).push(s@),
{
    out.push(s);
    assert(sample_models(out@) =~= sample_models(old(out)@).push(s@));
}

fn push_variants(out: &mut Vec<Sample>, rng: &mut Rng, entity: EntityKind, with_context: bool)
    ensures
        batch(final(out)@, *final(rng)) == add_variants(
            batch(old(out)@, *old(rng)),
            entity,
            with_context,
            variant_list(entity).len() as int,
        ),
{
    let variants = variants_for(entity);
    let ghost b = batch(out@, *rng);
    let mut i: usize = 0;
    while i < variants.len()
        invariant
            variants@ == variant_list(entity),
            i <= variants@.len(),
            b == batch(old(out)@, *old(rng)),
            batch(out@, *rng) == add_variants(b, entity, with_context, i as int),
        decreases variants@.len() - i,
    {
        let variant = variants[i];
        if with_context || variant_works_without_context(variant) {
            let s = positive(rng, entity, variant, with_context);
            push_sample(out, s);
        }
        i += 1;
    }
}

/// The samples that a seed gives in some rounds.
pub open spec fn samples_of(seed: u64, rounds: int) -> Seq<SampleModel> {
    add_rounds(Batch { samples: Seq::empty(), state: seed ^ 0x9e37_79b9_7f4a_7c15 }, rounds).samples
}

/// Makes samples. Each round has every kind in every notation, and some texts that hold no value.
pub fn corpus(seed: u64, rounds: usize) -> (r: Vec<Sample>)
    ensures
        sample_models(r@) == samples_of(seed, rounds as int),
{
    let mut rng = Rng::new(seed);
    let mut out: Vec<Sample> = Vec::new();
    let ghost b = batch(out@, rng);
    assert(b.samples =~= Seq::<SampleModel>::empty());
    let kinds = ENTITIES;
    let mut round: usize = 0;
    while round < rounds
        invariant
            kinds@ == ENTITIES@,
            round <= rounds,
            batch(out@, rng) == add_rounds(b, round as int),
        decreases rounds - round,
    {
        let ghost p = batch(out@, rng);
        let mut i: usize = 0;
        while i < 10
            invariant
                kinds@ == ENTITIES@,
                i <= 10,
                batch(out@, rng) == add_kinds(p, i as int),
            decreases 10 - i,
        {
            let entity = kinds[i];
            push_variants(&mut out, &mut rng, entity, true);
            if works_without_context(entity) {
                push_variants(&mut out, &mut rng, entity, false);
            }
            i += 1;
        }
        let ghost q = batch(out@, rng);
        let mut j: usize = 0;
        while j < 12
            invariant
                j <= 12,
                batch(out@, rng) == add_negatives(q, j as int),
            decreases 12 - j,
        {
            let s = negative(&mut rng);
            push_sample(&mut out, s);
            j += 1;
        }
        round += 1;
    }
    out
}

} // verus!
