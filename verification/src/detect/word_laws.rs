//! The words that speak for a kind, and those that speak against all.

use vstd::prelude::*;
use crate::detect::context::Dictionary;

verus! {

/// A dictionary holds a word with a weight.
pub open spec fn weighs(dictionary: Dictionary, word: Seq<char>, weight: u8) -> bool {
    exists|i: int|
        0 <= i < dictionary.cue_list().len() && (#[trigger] dictionary.cue_list()[i]).word@ == word
            && dictionary.cue_list()[i].weight == weight
}

proof fn lemma_weighs(dictionary: Dictionary, i: int)
    requires
        0 <= i < dictionary.cue_list().len(),
    ensures
        weighs(dictionary, dictionary.cue_list()[i].word@, dictionary.cue_list()[i].weight),
{
}

/// The words that speak for a resident registration number are these and no others.
pub proof fn law_words_for_resident()
    ensures
        Dictionary::Resident.cue_list().len() == 5,
        weighs(Dictionary::Resident, "주민등록번호"@, 10),
        weighs(Dictionary::Resident, "주민번호"@, 10),
        weighs(Dictionary::Resident, "주민등록"@, 8),
        weighs(Dictionary::Resident, "본인확인"@, 4),
        weighs(Dictionary::Resident, "실명확인"@, 4),
{
    lemma_weighs(Dictionary::Resident, 0);
    lemma_weighs(Dictionary::Resident, 1);
    lemma_weighs(Dictionary::Resident, 2);
    lemma_weighs(Dictionary::Resident, 3);
    lemma_weighs(Dictionary::Resident, 4);
}

/// The words that speak for a registration number of a foreigner are these and no others.
pub proof fn law_words_for_foreigner()
    ensures
        Dictionary::Foreigner.cue_list().len() == 4,
        weighs(Dictionary::Foreigner, "외국인등록번호"@, 10),
        weighs(Dictionary::Foreigner, "외국인등록"@, 8),
        weighs(Dictionary::Foreigner, "외국인"@, 5),
        weighs(Dictionary::Foreigner, "체류"@, 4),
{
    lemma_weighs(Dictionary::Foreigner, 0);
    lemma_weighs(Dictionary::Foreigner, 1);
    lemma_weighs(Dictionary::Foreigner, 2);
    lemma_weighs(Dictionary::Foreigner, 3);
}

/// The words that speak for a business registration number are these and no others.
pub proof fn law_words_for_business()
    ensures
        Dictionary::Business.cue_list().len() == 6,
        weighs(Dictionary::Business, "사업자등록번호"@, 10),
        weighs(Dictionary::Business, "사업자번호"@, 10),
        weighs(Dictionary::Business, "사업자"@, 6),
        weighs(Dictionary::Business, "세금계산서"@, 5),
        weighs(Dictionary::Business, "법인"@, 3),
        weighs(Dictionary::Business, "상호"@, 3),
{
    lemma_weighs(Dictionary::Business, 0);
    lemma_weighs(Dictionary::Business, 1);
    lemma_weighs(Dictionary::Business, 2);
    lemma_weighs(Dictionary::Business, 3);
    lemma_weighs(Dictionary::Business, 4);
    lemma_weighs(Dictionary::Business, 5);
}

/// The words that speak for a card number are these and no others.
pub proof fn law_words_for_card()
    ensures
        Dictionary::Card.cue_list().len() == 7,
        weighs(Dictionary::Card, "카드번호"@, 10),
        weighs(Dictionary::Card, "신용카드"@, 10),
        weighs(Dictionary::Card, "체크카드"@, 10),
        weighs(Dictionary::Card, "유효기간"@, 5),
        weighs(Dictionary::Card, "카드"@, 6),
        weighs(Dictionary::Card, "결제"@, 4),
        weighs(Dictionary::Card, "승인"@, 3),
{
    lemma_weighs(Dictionary::Card, 0);
    lemma_weighs(Dictionary::Card, 1);
    lemma_weighs(Dictionary::Card, 2);
    lemma_weighs(Dictionary::Card, 3);
    lemma_weighs(Dictionary::Card, 4);
    lemma_weighs(Dictionary::Card, 5);
    lemma_weighs(Dictionary::Card, 6);
}

/// The words that speak for a account number are these and no others.
pub proof fn law_words_for_account()
    ensures
        Dictionary::Account.cue_list().len() == 8,
        weighs(Dictionary::Account, "계좌번호"@, 10),
        weighs(Dictionary::Account, "예금주"@, 9),
        weighs(Dictionary::Account, "계좌"@, 8),
        weighs(Dictionary::Account, "입금"@, 7),
        weighs(Dictionary::Account, "이체"@, 7),
        weighs(Dictionary::Account, "송금"@, 7),
        weighs(Dictionary::Account, "은행"@, 6),
        weighs(Dictionary::Account, "환불"@, 4),
{
    lemma_weighs(Dictionary::Account, 0);
    lemma_weighs(Dictionary::Account, 1);
    lemma_weighs(Dictionary::Account, 2);
    lemma_weighs(Dictionary::Account, 3);
    lemma_weighs(Dictionary::Account, 4);
    lemma_weighs(Dictionary::Account, 5);
    lemma_weighs(Dictionary::Account, 6);
    lemma_weighs(Dictionary::Account, 7);
}

/// The words that speak for a phone number are these and no others.
pub proof fn law_words_for_phone()
    ensures
        Dictionary::Phone.cue_list().len() == 8,
        weighs(Dictionary::Phone, "전화번호"@, 10),
        weighs(Dictionary::Phone, "휴대전화"@, 10),
        weighs(Dictionary::Phone, "휴대폰"@, 10),
        weighs(Dictionary::Phone, "핸드폰"@, 10),
        weighs(Dictionary::Phone, "연락처"@, 10),
        weighs(Dictionary::Phone, "전화"@, 6),
        weighs(Dictionary::Phone, "문자"@, 4),
        weighs(Dictionary::Phone, "통화"@, 3),
{
    lemma_weighs(Dictionary::Phone, 0);
    lemma_weighs(Dictionary::Phone, 1);
    lemma_weighs(Dictionary::Phone, 2);
    lemma_weighs(Dictionary::Phone, 3);
    lemma_weighs(Dictionary::Phone, 4);
    lemma_weighs(Dictionary::Phone, 5);
    lemma_weighs(Dictionary::Phone, 6);
    lemma_weighs(Dictionary::Phone, 7);
}

/// The words that speak for a number of a driver's licence are these and no others.
pub proof fn law_words_for_licence()
    ensures
        Dictionary::DriverLicense.cue_list().len() == 4,
        weighs(Dictionary::DriverLicense, "운전면허번호"@, 10),
        weighs(Dictionary::DriverLicense, "운전면허"@, 10),
        weighs(Dictionary::DriverLicense, "면허번호"@, 9),
        weighs(Dictionary::DriverLicense, "면허증"@, 8),
{
    lemma_weighs(Dictionary::DriverLicense, 0);
    lemma_weighs(Dictionary::DriverLicense, 1);
    lemma_weighs(Dictionary::DriverLicense, 2);
    lemma_weighs(Dictionary::DriverLicense, 3);
}

/// The words that speak for a passport number are these and no others.
pub proof fn law_words_for_passport()
    ensures
        Dictionary::Passport.cue_list().len() == 2,
        weighs(Dictionary::Passport, "여권번호"@, 10),
        weighs(Dictionary::Passport, "여권"@, 8),
{
    lemma_weighs(Dictionary::Passport, 0);
    lemma_weighs(Dictionary::Passport, 1);
}

/// The words that speak for a date of birth are these and no others.
pub proof fn law_words_for_birth()
    ensures
        Dictionary::BirthDate.cue_list().len() == 5,
        weighs(Dictionary::BirthDate, "생년월일"@, 10),
        weighs(Dictionary::BirthDate, "출생일"@, 10),
        weighs(Dictionary::BirthDate, "생일"@, 8),
        weighs(Dictionary::BirthDate, "출생"@, 6),
        weighs(Dictionary::BirthDate, "년생"@, 6),
{
    lemma_weighs(Dictionary::BirthDate, 0);
    lemma_weighs(Dictionary::BirthDate, 1);
    lemma_weighs(Dictionary::BirthDate, 2);
    lemma_weighs(Dictionary::BirthDate, 3);
    lemma_weighs(Dictionary::BirthDate, 4);
}

/// The words that speak for a number that belongs to no person are these and no others.
pub proof fn law_words_for_no_person()
    ensures
        Dictionary::Exclude.cue_list().len() == 21,
        weighs(Dictionary::Exclude, "증권번호"@, 10),
        weighs(Dictionary::Exclude, "계약번호"@, 10),
        weighs(Dictionary::Exclude, "접수번호"@, 10),
        weighs(Dictionary::Exclude, "참조번호"@, 10),
        weighs(Dictionary::Exclude, "관리번호"@, 10),
        weighs(Dictionary::Exclude, "주문번호"@, 10),
        weighs(Dictionary::Exclude, "송장번호"@, 10),
        weighs(Dictionary::Exclude, "운송장번호"@, 10),
        weighs(Dictionary::Exclude, "회원번호"@, 10),
        weighs(Dictionary::Exclude, "제품 코드"@, 10),
        weighs(Dictionary::Exclude, "제품코드"@, 10),
        weighs(Dictionary::Exclude, "상품코드"@, 10),
        weighs(Dictionary::Exclude, "모델번호"@, 10),
        weighs(Dictionary::Exclude, "부품번호"@, 10),
        weighs(Dictionary::Exclude, "고객센터"@, 10),
        weighs(Dictionary::Exclude, "콜센터"@, 10),
        weighs(Dictionary::Exclude, "대표번호"@, 10),
        weighs(Dictionary::Exclude, "ARS"@, 10),
        weighs(Dictionary::Exclude, "우편번호"@, 10),
        weighs(Dictionary::Exclude, "각주"@, 8),
        weighs(Dictionary::Exclude, "공지"@, 8),
{
    lemma_weighs(Dictionary::Exclude, 0);
    lemma_weighs(Dictionary::Exclude, 1);
    lemma_weighs(Dictionary::Exclude, 2);
    lemma_weighs(Dictionary::Exclude, 3);
    lemma_weighs(Dictionary::Exclude, 4);
    lemma_weighs(Dictionary::Exclude, 5);
    lemma_weighs(Dictionary::Exclude, 6);
    lemma_weighs(Dictionary::Exclude, 7);
    lemma_weighs(Dictionary::Exclude, 8);
    lemma_weighs(Dictionary::Exclude, 9);
    lemma_weighs(Dictionary::Exclude, 10);
    lemma_weighs(Dictionary::Exclude, 11);
    lemma_weighs(Dictionary::Exclude, 12);
    lemma_weighs(Dictionary::Exclude, 13);
    lemma_weighs(Dictionary::Exclude, 14);
    lemma_weighs(Dictionary::Exclude, 15);
    lemma_weighs(Dictionary::Exclude, 16);
    lemma_weighs(Dictionary::Exclude, 17);
    lemma_weighs(Dictionary::Exclude, 18);
    lemma_weighs(Dictionary::Exclude, 19);
    lemma_weighs(Dictionary::Exclude, 20);
}

/// Right next to a value, every word is enough where context is needed by default, three tenths. And
/// every word against is enough to count by default, one half.
pub proof fn law_every_word_counts_next_to_a_value(dictionary: Dictionary, i: int)
    requires
        0 <= i < dictionary.cue_list().len(),
    ensures
        3 <= dictionary.cue_list()[i].weight <= 10,
        dictionary == Dictionary::Exclude ==> dictionary.cue_list()[i].weight >= 5,
{
}

} // verus!
