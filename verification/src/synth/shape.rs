//! What the notations look like.

use vstd::prelude::*;
use crate::detect::entity::EntityKind;
use crate::synth::notation::{grouped, hidden_tail, is_group_start, notation, Variant};

verus! {

broadcast use crate::text::lemma_text_char_range;

/// Characters from a group's beginning on, up to the next group.
proof fn lemma_group(entity: EntityKind, v: Seq<char>, sep: char, a: int, b: int)
    requires
        0 <= a < b <= v.len(),
        forall|i: int| a < i < b ==> !#[trigger] is_group_start(entity, v.len(), i),
    ensures
        grouped(entity, v, sep, b) == grouped(entity, v, sep, a) + (if is_group_start(entity, v.len(), a) {
            seq![sep]
        } else {
            Seq::empty()
        }) + v.subrange(a, b),
    decreases b - a,
{
    let head = grouped(entity, v, sep, a) + (if is_group_start(entity, v.len(), a) {
        seq![sep]
    } else {
        Seq::empty()
    });
    if b == a + 1 {
        assert(v.subrange(a, b) =~= seq![v[a]]);
        assert(grouped(entity, v, sep, b) =~= head + v.subrange(a, b));
    } else {
        lemma_group(entity, v, sep, a, b - 1);
        assert(!is_group_start(entity, v.len(), b - 1));
        assert(v.subrange(a, b) =~= v.subrange(a, b - 1).push(v[b - 1]));
        assert(grouped(entity, v, sep, b) =~= head + v.subrange(a, b));
    }
}

/// Two groups.
pub open spec fn two_groups(v: Seq<char>, a: int, sep: char) -> Seq<char> {
    v.take(a) + seq![sep] + v.skip(a)
}

/// Three groups.
pub open spec fn three_groups(v: Seq<char>, a: int, b: int, sep: char) -> Seq<char> {
    v.take(a) + seq![sep] + v.subrange(a, b) + seq![sep] + v.skip(b)
}

/// Four groups.
pub open spec fn four_groups(v: Seq<char>, a: int, b: int, c: int, sep: char) -> Seq<char> {
    v.take(a) + seq![sep] + v.subrange(a, b) + seq![sep] + v.subrange(b, c) + seq![sep] + v.skip(c)
}

proof fn lemma_first_group(entity: EntityKind, v: Seq<char>, sep: char, a: int)
    requires
        0 < a <= v.len(),
        forall|i: int| 0 <= i < a ==> !#[trigger] is_group_start(entity, v.len(), i),
    ensures
        grouped(entity, v, sep, a) == v.take(a),
{
    assert(!is_group_start(entity, v.len(), 0));
    lemma_group(entity, v, sep, 0, a);
    assert(grouped(entity, v, sep, 0) =~= Seq::<char>::empty());
    assert(grouped(entity, v, sep, a) =~= v.take(a));
}

/// Values are written in their usual groups: registration numbers 6-7, business numbers 3-2-5, cards
/// 4-4-4-4, mobile numbers 3-4-4, licences 2-2-6-2, dates 4-2-2, accounts 3-6 or 3-5 and the rest.
/// Addresses and passport numbers have none.
pub proof fn law_values_have_their_usual_groups(entity: EntityKind, v: Seq<char>, sep: char)
    ensures
        ({
            let g = grouped(entity, v, sep, v.len() as int);
            match entity {
                EntityKind::Resident => v.len() == 13 ==> g == two_groups(v, 6, sep),
                EntityKind::ForeignerRegistration => v.len() == 13 ==> g == two_groups(v, 6, sep),
                EntityKind::BusinessRegistration => v.len() == 10 ==> g == three_groups(v, 3, 5, sep),
                EntityKind::CreditCard => v.len() == 16 ==> g == four_groups(v, 4, 8, 12, sep),
                EntityKind::Phone => v.len() == 11 ==> g == three_groups(v, 3, 7, sep),
                EntityKind::DriverLicense => v.len() == 12 ==> g == four_groups(v, 2, 4, 10, sep),
                EntityKind::BirthDate => v.len() == 8 ==> g == three_groups(v, 4, 6, sep),
                EntityKind::BankAccount => v.len() >= 10 ==> g == three_groups(
                    v,
                    3,
                    if v.len() >= 12 {
                        9
                    } else {
                        8
                    },
                    sep,
                ),
                EntityKind::Email => g == v,
                EntityKind::Passport => g == v,
            }
        }),
{
    let n = v.len() as int;
    let g = grouped(entity, v, sep, n);
    match entity {
        EntityKind::Resident | EntityKind::ForeignerRegistration => {
            if n == 13 {
                lemma_first_group(entity, v, sep, 6);
                lemma_group(entity, v, sep, 6, 13);
                assert(v.subrange(6, 13) =~= v.skip(6));
            }
        },
        EntityKind::BusinessRegistration => {
            if n == 10 {
                lemma_first_group(entity, v, sep, 3);
                lemma_group(entity, v, sep, 3, 5);
                lemma_group(entity, v, sep, 5, 10);
                assert(v.subrange(5, 10) =~= v.skip(5));
            }
        },
        EntityKind::CreditCard => {
            if n == 16 {
                lemma_first_group(entity, v, sep, 4);
                lemma_group(entity, v, sep, 4, 8);
                lemma_group(entity, v, sep, 8, 12);
                lemma_group(entity, v, sep, 12, 16);
                assert(v.subrange(12, 16) =~= v.skip(12));
            }
        },
        EntityKind::Phone => {
            if n == 11 {
                lemma_first_group(entity, v, sep, 3);
                lemma_group(entity, v, sep, 3, 7);
                lemma_group(entity, v, sep, 7, 11);
                assert(v.subrange(7, 11) =~= v.skip(7));
            }
        },
        EntityKind::DriverLicense => {
            if n == 12 {
                lemma_first_group(entity, v, sep, 2);
                lemma_group(entity, v, sep, 2, 4);
                lemma_group(entity, v, sep, 4, 10);
                lemma_group(entity, v, sep, 10, 12);
                assert(v.subrange(10, 12) =~= v.skip(10));
            }
        },
        EntityKind::BirthDate => {
            if n == 8 {
                lemma_first_group(entity, v, sep, 4);
                lemma_group(entity, v, sep, 4, 6);
                lemma_group(entity, v, sep, 6, 8);
                assert(v.subrange(6, 8) =~= v.skip(6));
            }
        },
        EntityKind::BankAccount => {
            if n >= 10 {
                let b = if n >= 12 {
                    9
                } else {
                    8int
                };
                lemma_first_group(entity, v, sep, 3);
                lemma_group(entity, v, sep, 3, b);
                lemma_group(entity, v, sep, b, n);
                assert(v.subrange(b, n) =~= v.skip(b));
            }
        },
        EntityKind::Email | EntityKind::Passport => {
            if n > 0 {
                lemma_first_group(entity, v, sep, n);
                assert(v.take(n) =~= v);
            } else {
                assert(g =~= v);
            }
        },
    }
}

proof fn lemma_hidden_tail(v: Seq<char>, keep: int, n: int)
    requires
        0 <= n <= v.len(),
    ensures
        hidden_tail(v, keep, n).len() == n,
        forall|i: int| 0 <= i < n ==> #[trigger] hidden_tail(v, keep, n)[i] == if i < keep {
            v[i]
        } else {
            '*'
        },
    decreases n,
{
    if n > 0 {
        lemma_hidden_tail(v, keep, n - 1);
    }
}

/// A value that is partly hidden shows its first digits, and asterisks in place of the last ones:
/// six of a registration number, eight of a card, four of anything else.
pub proof fn law_hidden_values_show_their_head(entity: EntityKind, v: Seq<char>)
    requires
        v.len() > 8,
    ensures
        ({
            let w = notation(entity, v, Variant::Masked);
            let stars = match entity {
                EntityKind::Resident => 6int,
                EntityKind::ForeignerRegistration => 6,
                EntityKind::CreditCard => 8,
                _ => 4,
            };
            &&& w.len() == v.len()
            &&& forall|i: int| 0 <= i < v.len() - stars ==> #[trigger] w[i] == v[i]
            &&& forall|i: int| v.len() - stars <= i < v.len() ==> #[trigger] w[i] == '*'
        }),
{
    let stars = match entity {
        EntityKind::Resident => 6int,
        EntityKind::ForeignerRegistration => 6,
        EntityKind::CreditCard => 8,
        _ => 4,
    };
    lemma_hidden_tail(v, v.len() - stars, v.len() as int);
}

} // verus!
