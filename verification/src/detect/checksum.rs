//! Check digits.
//!
//! Only calculations that are known for certain stand here. The check digit of a driver's licence
//! exists, but how it is calculated is not public, so there is no function for it.

use vstd::prelude::*;
use crate::text::{digit_like, is_digit, to_chars};

verus! {

broadcast use crate::text::lemma_text_char_range;

/// What a check digit says.
#[derive(Debug, Clone, Copy, PartialEq, Eq)]
pub enum ChecksumResult {
    /// The check digit is right.
    Passed,
    /// The check digit is wrong.
    Failed,
    /// There is no check digit, or it does not apply here. The reason comes along.
    NotApplicable(&'static str),
}

impl ChecksumResult {
    /// Whether the check digit is right.
    pub fn passed(&self) -> (r: bool)
        ensures
            r == (*self is Passed),
    {
        match self {
            ChecksumResult::Passed => true,
            _ => false,
        }
    }

    /// Whether the check digit is wrong.
    pub fn failed(&self) -> (r: bool)
        ensures
            r == (*self is Failed),
    {
        match self {
            ChecksumResult::Failed => true,
            _ => false,
        }
    }
}

/// Why the check digit of a registration number may not apply.
pub const RRN_RANDOMIZED: &'static str = "2020년 10월 이후 발급분은 뒷자리가 임의번호라 검증식이 성립하지 않는다";

/// What the gender digit says.
#[derive(Debug, Clone, Copy, PartialEq, Eq, Structural)]
pub struct GenderCode {
    /// The century of birth: 1800, 1900 or 2000.
    pub century: u16,
    /// Whether it is the number of a foreigner.
    pub foreigner: bool,
}

/// One and two stand for the 1900s, three and four for the 2000s, five to eight for the same of
/// foreigners, nine and zero for the 1800s.
pub open spec fn gender_of(digit: u8) -> Option<GenderCode> {
    if digit == 1 || digit == 2 {
        Some(GenderCode { century: 1900, foreigner: false })
    } else if digit == 3 || digit == 4 {
        Some(GenderCode { century: 2000, foreigner: false })
    } else if digit == 5 || digit == 6 {
        Some(GenderCode { century: 1900, foreigner: true })
    } else if digit == 7 || digit == 8 {
        Some(GenderCode { century: 2000, foreigner: true })
    } else if digit == 9 || digit == 0 {
        Some(GenderCode { century: 1800, foreigner: false })
    } else {
        None
    }
}

/// Reads the gender digit.
pub fn gender_code(digit: u8) -> (r: Option<GenderCode>)
    ensures
        r == gender_of(digit),
{
    match digit {
        1 | 2 => Some(GenderCode { century: 1900, foreigner: false }),
        3 | 4 => Some(GenderCode { century: 2000, foreigner: false }),
        5 | 6 => Some(GenderCode { century: 1900, foreigner: true }),
        7 | 8 => Some(GenderCode { century: 2000, foreigner: true }),
        9 | 0 => Some(GenderCode { century: 1800, foreigner: false }),
        _ => None,
    }
}

/// A leap year of the Gregorian calendar.
pub open spec fn is_leap(year: int) -> bool {
    (year % 4 == 0 && year % 100 != 0) || year % 400 == 0
}

/// The number of days of a month.
pub open spec fn month_days(year: int, month: int) -> int {
    if month == 2 {
        if is_leap(year) {
            29
        } else {
            28
        }
    } else if month == 4 || month == 6 || month == 9 || month == 11 {
        30
    } else if 1 <= month <= 12 {
        31
    } else {
        0
    }
}

/// The date exists.
pub open spec fn is_date(year: int, month: int, day: int) -> bool {
    1 <= month <= 12 && 1 <= day <= month_days(year, month)
}

fn days_in_month(year: u16, month: u8) -> (r: u8)
    ensures
        r == month_days(year as int, month as int),
{
    match month {
        1 | 3 | 5 | 7 | 8 | 10 | 12 => 31,
        4 | 6 | 9 | 11 => 30,
        2 => {
            if (year % 4 == 0 && year % 100 != 0) || year % 400 == 0 {
                29
            } else {
                28
            }
        },
        _ => 0,
    }
}

/// Whether the date exists.
pub fn is_valid_date(year: u16, month: u8, day: u8) -> (r: bool)
    ensures
        r == is_date(year as int, month as int, day as int),
{
    1 <= month && month <= 12 && day >= 1 && day <= days_in_month(year, month)
}

/// What a registration number says.
#[derive(Debug, Clone, Copy, PartialEq, Eq)]
pub struct ResidentAnalysis {
    /// What the gender digit says.
    pub gender: GenderCode,
    /// The date of birth, if the first six digits are a date that exists.
    pub birth: Option<(u16, u8, u8)>,
    /// What the check digit says.
    pub checksum: ChecksumResult,
}

/// The year of birth in a registration number.
pub open spec fn resident_year(d: Seq<u8>) -> int {
    gender_of(d[6]).unwrap().century + d[0] * 10 + d[1]
}

/// The date of birth in a registration number exists.
pub open spec fn resident_date(d: Seq<u8>) -> bool {
    is_date(resident_year(d), d[2] * 10 + d[3], d[4] * 10 + d[5])
}

/// The weighted sum over the first twelve digits of a registration number.
pub open spec fn resident_sum(d: Seq<u8>) -> int {
    d[0] * 2 + d[1] * 3 + d[2] * 4 + d[3] * 5 + d[4] * 6 + d[5] * 7 + d[6] * 8 + d[7] * 9 + d[8] * 2 + d[9] * 3 + d[10]
        * 4 + d[11] * 5
}

/// The last digit that a registration number should have.
pub open spec fn resident_check(d: Seq<u8>) -> int {
    let base = (11 - resident_sum(d) % 11) % 10;
    if gender_of(d[6]).unwrap().foreigner {
        (base + 2) % 10
    } else {
        base
    }
}

/// Reads a registration number of a Korean or of a foreigner.
///
/// A wrong check digit does not mean that this is no registration number: numbers issued since
/// October 2020 have none. A number alone does not tell when it was issued.
pub fn analyze_resident(digits: &[u8]) -> (r: Option<ResidentAnalysis>)
    requires
        digits@.len() == 13 && gender_of(digits@[6]) is Some ==> digits@[2] * 10 + digits@[3] <= 255 && digits@[4] * 10
            + digits@[5] <= 255,
    ensures
        r is Some <==> digits@.len() == 13 && gender_of(digits@[6]) is Some,
        r matches Some(a) ==> {
            &&& gender_of(digits@[6]) == Some(a.gender)
            &&& a.birth is Some <==> resident_date(digits@)
            &&& a.birth matches Some(b) ==> b.0 == resident_year(digits@) && b.1 == digits@[2] * 10 + digits@[3] && b.2
                == digits@[4] * 10 + digits@[5]
            &&& a.checksum is Passed <==> digits@[12] == resident_check(digits@)
            &&& a.checksum is Failed <==> digits@[12] != resident_check(digits@)
        },
{
    if digits.len() != 13 {
        return None;
    }
    let gender = match gender_code(digits[6]) {
        Some(gender) => gender,
        None => {
            return None;
        },
    };
    let year: u16 = gender.century + digits[0] as u16 * 10 + digits[1] as u16;
    let month: u8 = digits[2] * 10 + digits[3];
    let day: u8 = digits[4] * 10 + digits[5];
    let birth: Option<(u16, u8, u8)> = if is_valid_date(year, month, day) {
        Some((year, month, day))
    } else {
        None
    };
    let sum: u32 = digits[0] as u32 * 2 + digits[1] as u32 * 3 + digits[2] as u32 * 4 + digits[3] as u32 * 5
        + digits[4] as u32 * 6 + digits[5] as u32 * 7 + digits[6] as u32 * 8 + digits[7] as u32 * 9 + digits[8] as u32 * 2
        + digits[9] as u32 * 3 + digits[10] as u32 * 4 + digits[11] as u32 * 5;
    let base: u32 = (11 - sum % 11) % 10;
    let expected: u32 = if gender.foreigner {
        (base + 2) % 10
    } else {
        base
    };
    let checksum = if digits[12] as u32 == expected {
        ChecksumResult::Passed
    } else {
        ChecksumResult::Failed
    };
    Some(ResidentAnalysis { gender, birth, checksum })
}

/// The weighted sum over the first nine digits of a business registration number. The tens of the
/// last product are added once more.
pub open spec fn business_sum(d: Seq<u8>) -> int {
    d[0] * 1 + d[1] * 3 + d[2] * 7 + d[3] * 1 + d[4] * 3 + d[5] * 7 + d[6] * 1 + d[7] * 3 + d[8] * 5 + (d[8] * 5) / 10
}

/// The last digit that a business registration number should have.
pub open spec fn business_check(d: Seq<u8>) -> int {
    (10 - business_sum(d) % 10) % 10
}

/// Checks a business registration number.
///
/// The calculation is not published officially. It is the one that independent implementations
/// share, and it holds for real numbers.
pub fn business_registration(digits: &[u8]) -> (r: ChecksumResult)
    ensures
        digits@.len() != 10 ==> r == ChecksumResult::NotApplicable("사업자등록번호는 10자리다"),
        digits@.len() == 10 ==> (r is Passed <==> digits@[9] == business_check(digits@)) && (r is Failed <==> digits@[9]
            != business_check(digits@)),
{
    if digits.len() != 10 {
        return ChecksumResult::NotApplicable("사업자등록번호는 10자리다");
    }
    let sum: u32 = digits[0] as u32 + digits[1] as u32 * 3 + digits[2] as u32 * 7 + digits[3] as u32 + digits[4] as u32
        * 3 + digits[5] as u32 * 7 + digits[6] as u32 + digits[7] as u32 * 3 + digits[8] as u32 * 5 + digits[8] as u32 * 5
        / 10;
    if (10 - sum % 10) % 10 == digits[9] as u32 {
        ChecksumResult::Passed
    } else {
        ChecksumResult::Failed
    }
}

/// What a digit of a card number counts, at an even or an odd place from the right.
pub open spec fn luhn_value(d: u8, odd: bool) -> int {
    if !odd {
        d as int
    } else if d * 2 > 9 {
        d * 2 - 9
    } else {
        d * 2
    }
}

/// The sum over the last `k` digits of a card number.
pub open spec fn luhn_sum(d: Seq<u8>, k: int) -> int
    decreases k,
{
    if k <= 0 {
        0
    } else {
        luhn_sum(d, k - 1) + luhn_value(d[d.len() - k], (k - 1) % 2 == 1)
    }
}

/// The digits pass the check of card numbers.
pub open spec fn luhn_passes(d: Seq<u8>) -> bool {
    luhn_sum(d, d.len() as int) % 10 == 0
}

/// Checks a card number by the method of ISO/IEC 7812.
pub fn luhn(digits: &[u8]) -> (r: ChecksumResult)
    ensures
        !(13 <= digits@.len() <= 19) ==> r == ChecksumResult::NotApplicable("카드번호는 13자리에서 19자리다"),
        13 <= digits@.len() <= 19 ==> (r is Passed <==> luhn_passes(digits@)) && (r is Failed <==> !luhn_passes(
            digits@,
        )),
{
    let n: usize = digits.len();
    if n < 13 || n > 19 {
        return ChecksumResult::NotApplicable("카드번호는 13자리에서 19자리다");
    }
    let mut sum: u32 = 0;
    let mut k: usize = 0;
    while k < n
        invariant
            13 <= n <= 19,
            n == digits@.len(),
            k <= n,
            sum == luhn_sum(digits@, k as int),
            sum <= k * 510,
        decreases n - k,
    {
        let d: u32 = digits[n - 1 - k] as u32;
        let v: u32 = if k % 2 == 1 {
            if d * 2 > 9 {
                d * 2 - 9
            } else {
                d * 2
            }
        } else {
            d
        };
        sum += v;
        k += 1;
    }
    if sum % 10 == 0 {
        ChecksumResult::Passed
    } else {
        ChecksumResult::Failed
    }
}

/// The text holds nothing but digits.
pub open spec fn all_digits(text: Seq<char>) -> bool {
    forall|i: int| 0 <= i < text.len() ==> is_digit(#[trigger] text[i])
}

/// The values of the digits of a text, or nothing if it holds another character.
pub fn to_digits(text: &str) -> (r: Option<Vec<u8>>)
    ensures
        r is Some <==> all_digits(text@),
        r matches Some(d) ==> d@.len() == text@.len() && forall|i: int|
            0 <= i < d@.len() ==> #[trigger] d@[i] < 10 && d@[i] == text@[i] as int - 48,
{
    let chars = to_chars(text);
    let mut out: Vec<u8> = Vec::new();
    let mut i: usize = 0;
    while i < chars.len()
        invariant
            i <= chars@.len(),
            chars@ == text@,
            out@.len() == i,
            forall|k: int| 0 <= k < i ==> is_digit(#[trigger] text@[k]),
            forall|k: int| 0 <= k < i ==> #[trigger] out@[k] < 10 && out@[k] == text@[k] as int - 48,
        decreases chars@.len() - i,
    {
        let c: char = chars[i];
        if !digit_like(c) {
            assert(!is_digit(text@[i as int]));
            return None;
        }
        out.push((c as u32 - 48) as u8);
        i += 1;
    }
    Some(out)
}

} // verus!
