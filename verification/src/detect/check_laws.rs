//! What check digits and dates are, told independently of how they are computed.

use vstd::prelude::*;
use crate::detect::checksum::{
    business_check, business_sum, gender_of, is_date, is_leap, luhn_passes, luhn_sum, luhn_value,
    month_days, resident_check, resident_date, resident_sum, resident_year,
};

verus! {

/// Every item is a decimal digit.
pub open spec fn are_digits(d: Seq<u8>) -> bool {
    forall|i: int| 0 <= i < d.len() ==> #[trigger] d[i] < 10
}

/// The two sequences differ at place `i` and nowhere else.
pub open spec fn differ_only_at(d: Seq<u8>, e: Seq<u8>, i: int) -> bool {
    &&& d.len() == e.len()
    &&& 0 <= i < d.len()
    &&& d[i] != e[i]
    &&& forall|k: int| 0 <= k < d.len() && k != i ==> #[trigger] d[k] == e[k]
}

/// The gender digits one to eight count in pairs: Koreans of the 1900s and the 2000s, then
/// foreigners of the same centuries. Nine and zero are Koreans of the 1800s. Nothing else is a
/// gender digit.
pub proof fn law_gender_digits_count_in_pairs(digit: u8)
    ensures
        gender_of(digit) is Some <==> digit < 10,
        1 <= digit <= 8 ==> gender_of(digit).unwrap().century == 1900 + 100 * (((digit - 1) / 2) % 2),
        1 <= digit <= 8 ==> gender_of(digit).unwrap().foreigner == (digit >= 5),
        digit == 0 || digit == 9 ==> gender_of(digit).unwrap().century == 1800 && !gender_of(digit).unwrap().foreigner,
{
}

/// How many days lie between the first days of year 1 and of a later year.
pub open spec fn days_before(year: int) -> int {
    365 * (year - 1) + (year - 1) / 4 - (year - 1) / 100 + (year - 1) / 400
}

proof fn lemma_year_length(year: int)
    requires
        year >= 1,
    ensures
        days_before(year + 1) - days_before(year) == if is_leap(year) {
            366int
        } else {
            365
        },
{
    let y = year - 1;
    assert((y + 1) / 4 - y / 4 == if (y + 1) % 4 == 0 {
        1int
    } else {
        0
    });
    assert((y + 1) / 100 - y / 100 == if (y + 1) % 100 == 0 {
        1int
    } else {
        0
    });
    assert((y + 1) / 400 - y / 400 == if (y + 1) % 400 == 0 {
        1int
    } else {
        0
    });
    assert(year % 400 == 0 ==> year % 100 == 0);
    assert(year % 100 == 0 ==> year % 4 == 0);
}

/// The calendar: months alternate between 31 and 30 days, beginning anew in August, and February
/// takes what the year has left.
pub proof fn law_the_calendar_is_gregorian(year: int, month: int, day: int)
    requires
        year >= 1,
    ensures
        is_date(year, month, day) <==> 1 <= month <= 12 && 1 <= day <= if month == 2 {
            days_before(year + 1) - days_before(year) - 337
        } else {
            30 + (month + month / 8) % 2
        },
{
    lemma_year_length(year);
}

/// The days of all months are the days of the year.
pub proof fn law_months_fill_the_year(year: int)
    requires
        year >= 1,
    ensures
        month_days(year, 1) + month_days(year, 2) + month_days(year, 3) + month_days(year, 4) + month_days(year, 5)
            + month_days(year, 6) + month_days(year, 7) + month_days(year, 8) + month_days(year, 9) + month_days(year, 10)
            + month_days(year, 11) + month_days(year, 12) == days_before(year + 1) - days_before(year),
{
    lemma_year_length(year);
}

/// The sum over the first `n` digits with the weights 2 to 9, and then from 2 on again.
pub open spec fn cycled_sum(d: Seq<u8>, n: int) -> int
    decreases n,
{
    if n <= 0 {
        0
    } else {
        cycled_sum(d, n - 1) + d[n - 1] * (2 + (n - 1) % 8)
    }
}

proof fn lemma_cycled_sum(d: Seq<u8>)
    requires
        d.len() >= 12,
    ensures
        cycled_sum(d, 12) == resident_sum(d),
        cycled_sum(d, 12) >= 0,
{
    reveal_with_fuel(cycled_sum, 13);
}

/// The check digit of a Korean is the last decimal digit of what the weighted sum of the first
/// twelve digits lacks to the next multiple of eleven, whatever the century of birth.
pub proof fn law_check_digit_of_koreans(d: Seq<u8>)
    requires
        d.len() >= 12,
        d[6] <= 4 || d[6] == 9,
    ensures
        ({
            let lack = 11 - cycled_sum(d, 12) % 11;
            &&& 1 <= lack <= 11
            &&& (cycled_sum(d, 12) + lack) % 11 == 0
            &&& resident_check(d) == lack % 10
        }),
{
    lemma_cycled_sum(d);
    let s = cycled_sum(d, 12);
    assert((s + (11 - s % 11)) % 11 == 0);
}

/// The check digit of a foreigner is, in tens, two above that of a Korean with the same sum.
pub proof fn law_check_digit_of_foreigners(d: Seq<u8>)
    requires
        d.len() >= 12,
        5 <= d[6] <= 8,
    ensures
        ({
            let lack = 11 - cycled_sum(d, 12) % 11;
            &&& 1 <= lack <= 11
            &&& (cycled_sum(d, 12) + lack) % 11 == 0
            &&& resident_check(d) == (lack + 2) % 10
        }),
{
    lemma_cycled_sum(d);
    let s = cycled_sum(d, 12);
    assert((s + (11 - s % 11)) % 11 == 0);
    assert(((11 - s % 11) % 10 + 2) % 10 == ((11 - s % 11) + 2) % 10);
}

/// Two numbers with the same weighted sum have the same check digit if both belong to Koreans or
/// both to foreigners, and else check digits that are two apart.
pub proof fn law_equal_sums_have_equal_check_digits(d: Seq<u8>, e: Seq<u8>)
    requires
        d.len() >= 12,
        e.len() >= 12,
        d[6] < 10,
        e[6] < 10,
        cycled_sum(d, 12) % 11 == cycled_sum(e, 12) % 11,
    ensures
        (5 <= d[6] <= 8) == (5 <= e[6] <= 8) ==> resident_check(d) == resident_check(e),
        !(5 <= d[6] <= 8) && 5 <= e[6] <= 8 ==> resident_check(e) == (resident_check(d) + 2) % 10,
{
    lemma_cycled_sum(d);
    lemma_cycled_sum(e);
}

/// The first six digits of a registration number are the date of birth, in the century that the
/// gender digit names.
pub proof fn law_registration_numbers_begin_with_the_birth(d: Seq<u8>, year: int, month: int, day: int)
    requires
        d.len() == 13,
        are_digits(d),
        1 <= d[6] <= 8,
        year % 100 == d[0] * 10 + d[1],
        year / 100 == 19 + ((d[6] - 1) / 2) % 2,
        month == d[2] * 10 + d[3],
        day == d[4] * 10 + d[5],
    ensures
        resident_year(d) == year,
        resident_date(d) <==> is_date(year, month, day),
{
    assert(d[0] < 10 && d[1] < 10);
    law_gender_digits_count_in_pairs(d[6]);
}

/// What a digit counts in a doubled place: the decimal digits of its double, added.
pub open spec fn digits_of_double(x: int) -> int {
    (2 * x) / 10 + (2 * x) % 10
}

/// The sum over the first `n` digits of a card number, every second one from the right doubled.
pub open spec fn doubled_sum(d: Seq<u8>, n: int) -> int
    decreases n,
{
    if n <= 0 {
        0
    } else {
        doubled_sum(d, n - 1) + if (d.len() - n) % 2 == 1 {
            digits_of_double(d[n - 1] as int)
        } else {
            d[n - 1] as int
        }
    }
}

proof fn lemma_doubled_sum(d: Seq<u8>, k: int)
    requires
        are_digits(d),
        0 <= k <= d.len(),
    ensures
        doubled_sum(d, d.len() - k) + luhn_sum(d, k) == doubled_sum(d, d.len() as int),
    decreases k,
{
    if k > 0 {
        lemma_doubled_sum(d, k - 1);
        let n = d.len() - k;
        assert(d[n] < 10);
        assert((d.len() - (n + 1)) % 2 == (k - 1) % 2);
        assert(doubled_sum(d, n + 1) == doubled_sum(d, n) + luhn_value(d[n], (k - 1) % 2 == 1));
    }
}

/// A card number passes if its digits, every second one from the right doubled and counted by the
/// digits of its double, add up to a multiple of ten.
pub proof fn law_card_numbers_add_up_to_tens(d: Seq<u8>)
    requires
        are_digits(d),
    ensures
        luhn_passes(d) <==> doubled_sum(d, d.len() as int) % 10 == 0,
{
    lemma_doubled_sum(d, d.len() as int);
}

proof fn lemma_doubled_sum_differs(d: Seq<u8>, e: Seq<u8>, i: int, n: int)
    requires
        are_digits(d),
        are_digits(e),
        differ_only_at(d, e, i),
        0 <= n <= d.len(),
    ensures
        n <= i ==> doubled_sum(d, n) == doubled_sum(e, n),
        n > i ==> doubled_sum(d, n) - doubled_sum(e, n) != 0 && -9 <= doubled_sum(d, n) - doubled_sum(e, n) <= 9,
    decreases n,
{
    if n > 0 {
        lemma_doubled_sum_differs(d, e, i, n - 1);
        assert(d[n - 1] < 10 && e[n - 1] < 10);
        if n - 1 != i {
            assert(d[n - 1] == e[n - 1]);
        }
    }
}

/// A single wrong digit in a card number is always found out.
pub proof fn law_card_numbers_show_a_wrong_digit(d: Seq<u8>, e: Seq<u8>, i: int)
    requires
        are_digits(d),
        are_digits(e),
        differ_only_at(d, e, i),
        luhn_passes(d),
    ensures
        !luhn_passes(e),
{
    let n = d.len() as int;
    law_card_numbers_add_up_to_tens(d);
    law_card_numbers_add_up_to_tens(e);
    lemma_doubled_sum_differs(d, e, i, n);
    let a = doubled_sum(d, n);
    let b = doubled_sum(e, n);
    assert(a % 10 == 0 && -9 <= a - b <= 9 && a != b ==> b % 10 != 0);
}

/// What digit number `i` of a business registration number counts: the weights are 1, 3 and 7 in
/// turn, and the last one is 5, where the tens of the product are added once more.
pub open spec fn business_count(d: Seq<u8>, i: int) -> int {
    if i == 8 {
        5 * d[i] + (5 * d[i]) / 10
    } else if i % 3 == 0 {
        d[i] as int
    } else if i % 3 == 1 {
        3 * d[i]
    } else {
        7 * d[i]
    }
}

/// What the first `n` digits of a business registration number count together.
pub open spec fn business_total(d: Seq<u8>, n: int) -> int
    decreases n,
{
    if n <= 0 {
        0
    } else {
        business_total(d, n - 1) + business_count(d, n - 1)
    }
}

proof fn lemma_business_total(d: Seq<u8>)
    requires
        d.len() >= 9,
    ensures
        business_total(d, 9) == business_sum(d),
        business_total(d, 9) >= 0,
{
    reveal_with_fuel(business_total, 10);
}

/// The check digit of a business registration number is a digit, and with it the number adds up to
/// a multiple of ten.
pub proof fn law_business_numbers_add_up_to_tens(d: Seq<u8>, c: int)
    requires
        d.len() >= 9,
        0 <= c < 10,
    ensures
        c == business_check(d) <==> (business_total(d, 9) + c) % 10 == 0,
{
    lemma_business_total(d);
    let s = business_total(d, 9);
    assert((s + (10 - s % 10) % 10) % 10 == 0);
    assert(c != (10 - s % 10) % 10 ==> (s + c) % 10 != 0);
}

proof fn lemma_business_total_differs(d: Seq<u8>, e: Seq<u8>, i: int, n: int)
    requires
        are_digits(d),
        are_digits(e),
        differ_only_at(d, e, i),
        0 <= n <= 9,
        d.len() >= 9,
    ensures
        n <= i ==> business_total(d, n) == business_total(e, n),
        n > i ==> (business_total(d, n) - business_total(e, n)) % 10 != 0,
    decreases n,
{
    if n > 0 {
        lemma_business_total_differs(d, e, i, n - 1);
        assert(d[n - 1] < 10 && e[n - 1] < 10);
        if n - 1 == i {
            let x = d[i] as int;
            let y = e[i] as int;
            assert(x != y && 0 <= x < 10 && 0 <= y < 10);
            if i == 8 {
                assert((5 * x + (5 * x) / 10 - (5 * y + (5 * y) / 10)) % 10 != 0);
            } else if i % 3 == 0 {
                assert((x - y) % 10 != 0);
            } else if i % 3 == 1 {
                assert((3 * x - 3 * y) % 10 != 0);
            } else {
                assert((7 * x - 7 * y) % 10 != 0);
            }
        } else {
            assert(d[n - 1] == e[n - 1]);
        }
    }
}

/// A single wrong digit in a business registration number is always found out.
pub proof fn law_business_numbers_show_a_wrong_digit(d: Seq<u8>, e: Seq<u8>, i: int)
    requires
        d.len() == 10,
        are_digits(d),
        are_digits(e),
        differ_only_at(d, e, i),
        d[9] == business_check(d),
    ensures
        e[9] != business_check(e),
{
    assert(d[9] < 10 && e[9] < 10);
    law_business_numbers_add_up_to_tens(d, d[9] as int);
    law_business_numbers_add_up_to_tens(e, e[9] as int);
    lemma_business_total_differs(d, e, i, 9);
    lemma_one_multiple(business_total(d, 9), business_total(e, 9), d[9] as int, e[9] as int);
}

/// Where either the sums or the last digits differ, not both totals are multiples of ten.
proof fn lemma_one_multiple(a: int, b: int, x: int, y: int)
    requires
        0 <= x < 10,
        0 <= y < 10,
        ((a - b) % 10 != 0 && x == y) || (a == b && x != y),
        (a + x) % 10 == 0,
    ensures
        (b + y) % 10 != 0,
{
}

} // verus!
