//! How many samples a round has.

use vstd::prelude::*;
use crate::detect::entity::EntityKind;
use crate::synth::notation::{lemma_notation_len, notation};
use crate::synth::value::{lemma_value_len, value_of};
use crate::synth::{
    add_kinds, add_negatives, add_rounds, add_variants, frame, law_the_answer_points_at_the_value,
    negative_of, positive_of, readable_alone, samples_of, stands_alone, trap_text, variant_list,
    Batch, SampleModel, ENTITIES,
};
use crate::text::utf8_len;

verus! {

broadcast use crate::text::lemma_text_char_range;

/// The number of samples that hold a value.
pub open spec fn valued(samples: Seq<SampleModel>) -> int
    decreases samples.len(),
{
    if samples.len() == 0 {
        0
    } else if samples.last().expected is Some {
        valued(samples.drop_last()) + 1
    } else {
        valued(samples.drop_last())
    }
}

/// A sample points at the characters of its text from `i` up to `j`.
pub open spec fn points_at(m: SampleModel, i: int, j: int) -> bool {
    &&& 0 <= i < j <= m.text.len()
    &&& m.from == utf8_len(m.text.take(i))
    &&& m.to == utf8_len(m.text.take(j))
}

/// A sample points at characters of its text, at one or more.
pub open spec fn points_inside(m: SampleModel) -> bool {
    exists|i: int, j: int| points_at(m, i, j)
}

/// Every sample points at characters of its text.
pub open spec fn all_point_inside(samples: Seq<SampleModel>) -> bool {
    forall|k: int| 0 <= k < samples.len() ==> points_inside(#[trigger] samples[k])
}

/// One batch is the other with `total` samples more, of which `holding` hold a value.
spec fn extends(p: Batch, q: Batch, total: int, holding: int) -> bool {
    &&& total >= 0
    &&& q.samples.len() == p.samples.len() + total
    &&& q.samples.take(p.samples.len() as int) == p.samples
    &&& valued(q.samples) == valued(p.samples) + holding
    &&& all_point_inside(p.samples) ==> all_point_inside(q.samples)
}

proof fn lemma_extends_self(p: Batch)
    ensures
        extends(p, p, 0, 0),
{
    assert(p.samples.take(p.samples.len() as int) =~= p.samples);
}

proof fn lemma_extends_on(p: Batch, q: Batch, r: Batch, a: int, b: int, c: int, d: int)
    requires
        extends(p, q, a, b),
        extends(q, r, c, d),
    ensures
        extends(p, r, a + c, b + d),
{
    let n = p.samples.len() as int;
    let m = q.samples.len() as int;
    assert(r.samples.take(n) =~= r.samples.take(m).take(n));
}

proof fn lemma_extends_push(p: Batch, m: SampleModel, state: u64, i: int, j: int)
    requires
        points_at(m, i, j),
    ensures
        extends(p, Batch { samples: p.samples.push(m), state }, 1, if m.expected is Some {
            1
        } else {
            0
        }),
{
    let all = p.samples.push(m);
    assert(all.drop_last() =~= p.samples);
    assert(all.take(p.samples.len() as int) =~= p.samples);
    if all_point_inside(p.samples) {
        assert forall|k: int| 0 <= k < all.len() implies points_inside(#[trigger] all[k]) by {
            if k < p.samples.len() {
                assert(points_inside(p.samples[k]));
            } else {
                assert(points_at(all[k], i, j));
            }
        }
    }
}

/// How many of the first `n` notations of a kind are used.
spec fn used(entity: EntityKind, with_context: bool, n: int) -> int
    decreases n,
{
    if n <= 0 {
        0
    } else if with_context || readable_alone(variant_list(entity)[n - 1]) {
        used(entity, with_context, n - 1) + 1
    } else {
        used(entity, with_context, n - 1)
    }
}

proof fn lemma_variants_extend(b: Batch, entity: EntityKind, with_context: bool, n: int)
    requires
        0 <= n <= variant_list(entity).len(),
    ensures
        extends(
            b,
            add_variants(b, entity, with_context, n),
            used(entity, with_context, n),
            used(entity, with_context, n),
        ),
    decreases n,
{
    if n <= 0 {
        lemma_extends_self(b);
    } else {
        lemma_variants_extend(b, entity, with_context, n - 1);
        let p = add_variants(b, entity, with_context, n - 1);
        let u = used(entity, with_context, n - 1);
        let variant = variant_list(entity)[n - 1];
        if with_context || readable_alone(variant) {
            let q = add_variants(b, entity, with_context, n);
            let m = positive_of(p.state, entity, variant, with_context);
            let written = notation(entity, value_of(entity, p.state), variant);
            let a = frame(entity, with_context).0.len() as int;
            law_the_answer_points_at_the_value(p.state, entity, variant, with_context);
            lemma_value_len(entity, p.state);
            lemma_notation_len(entity, value_of(entity, p.state), variant);
            assert(points_at(m, a, (a + written.len()) as int));
            lemma_extends_push(p, m, q.state, a, (a + written.len()) as int);
            lemma_extends_on(b, p, q, u, u, 1, 1);
        }
    }
}

/// How many samples of one kind a round has.
pub open spec fn per_kind(entity: EntityKind) -> int {
    match entity {
        EntityKind::Resident => 14,
        EntityKind::ForeignerRegistration => 14,
        EntityKind::BusinessRegistration => 9,
        EntityKind::CreditCard => 11,
        EntityKind::Phone => 10,
        EntityKind::Email => 2,
        EntityKind::BankAccount => 2,
        EntityKind::DriverLicense => 2,
        EntityKind::BirthDate => 2,
        EntityKind::Passport => 1,
    }
}

proof fn lemma_per_kind(entity: EntityKind)
    ensures
        used(entity, true, variant_list(entity).len() as int) + (if stands_alone(entity) {
            used(entity, false, variant_list(entity).len() as int)
        } else {
            0
        }) == per_kind(entity),
{
    reveal_with_fuel(used, 9);
}

/// How many samples the first `n` kinds have in a round.
spec fn of_kinds(n: int) -> int
    decreases n,
{
    if n <= 0 {
        0
    } else {
        of_kinds(n - 1) + per_kind(ENTITIES@[n - 1])
    }
}

proof fn lemma_kinds_extend(b: Batch, n: int)
    requires
        0 <= n <= 10,
    ensures
        extends(b, add_kinds(b, n), of_kinds(n), of_kinds(n)),
    decreases n,
{
    if n <= 0 {
        lemma_extends_self(b);
    } else {
        lemma_kinds_extend(b, n - 1);
        let p = add_kinds(b, n - 1);
        let entity = ENTITIES@[n - 1];
        let m = variant_list(entity).len() as int;
        let q = add_variants(p, entity, true, m);
        let k = of_kinds(n - 1);
        let u = used(entity, true, m);
        let v = used(entity, false, m);
        lemma_variants_extend(p, entity, true, m);
        lemma_extends_on(b, p, q, k, k, u, u);
        lemma_per_kind(entity);
        if stands_alone(entity) {
            let r = add_variants(q, entity, false, m);
            lemma_variants_extend(q, entity, false, m);
            lemma_extends_on(b, q, r, k + u, k + u, v, v);
        }
    }
}

/// A text that holds no value has a character.
proof fn lemma_trap_text_len(s: u64)
    ensures
        trap_text(s).len() > 0,
{
    reveal_strlit("주문번호 ");
    reveal_strlit("송장번호 ");
    reveal_strlit("운송장번호 ");
    reveal_strlit("제품 코드 ");
    reveal_strlit("총 금액은 ");
    reveal_strlit("이사 갑니다. 사구 팔구 방식으로 진행하고 구이 정식을 주문했습니다.");
    reveal_strlit("증권번호 ");
    reveal_strlit("고객센터 15");
    reveal_strlit("계약번호 ");
    reveal_strlit("회원번호 ");
}

proof fn lemma_negatives_extend(b: Batch, n: int)
    requires
        0 <= n,
    ensures
        extends(b, add_negatives(b, n), n, 0),
    decreases n,
{
    if n <= 0 {
        lemma_extends_self(b);
    } else {
        lemma_negatives_extend(b, n - 1);
        let p = add_negatives(b, n - 1);
        let q = add_negatives(b, n);
        let m = negative_of(p.state);
        let len = m.text.len() as int;
        lemma_trap_text_len(p.state);
        assert(m.text.take(0) =~= Seq::<char>::empty());
        assert(m.text.take(len) =~= m.text);
        assert(points_at(m, 0, len));
        lemma_extends_push(p, m, q.state, 0, len);
        lemma_extends_on(b, p, q, n - 1, 0, 1, 0);
    }
}

/// One round adds 67 samples that hold a value and 12 that hold none.
proof fn lemma_round_extends(b: Batch)
    ensures
        extends(b, add_negatives(add_kinds(b, 10), 12), 79, 67),
{
    let p = add_kinds(b, 10);
    lemma_kinds_extend(b, 10);
    reveal_with_fuel(of_kinds, 11);
    lemma_negatives_extend(p, 12);
    lemma_extends_on(b, p, add_negatives(p, 12), 67, 67, 12, 0);
}

/// Every round has 79 samples, 67 that hold a value and 12 that hold none. Each points at
/// characters of its text, at one or more.
pub proof fn law_rounds_are_counted(seed: u64, rounds: int)
    requires
        0 <= rounds,
    ensures
        samples_of(seed, rounds).len() == 79 * rounds,
        valued(samples_of(seed, rounds)) == 67 * rounds,
        samples_of(seed, rounds).len() - valued(samples_of(seed, rounds)) == 12 * rounds,
        all_point_inside(samples_of(seed, rounds)),
    decreases rounds,
{
    if rounds > 0 {
        law_rounds_are_counted(seed, rounds - 1);
        let b = Batch { samples: Seq::<SampleModel>::empty(), state: seed ^ 0x9e37_79b9_7f4a_7c15 };
        lemma_round_extends(add_rounds(b, rounds - 1));
    }
}

/// More rounds begin with the samples of fewer rounds.
pub proof fn law_fewer_rounds_are_a_prefix(seed: u64, fewer: int, rounds: int)
    requires
        0 <= fewer <= rounds,
    ensures
        samples_of(seed, fewer).is_prefix_of(samples_of(seed, rounds)),
    decreases rounds - fewer,
{
    let small = samples_of(seed, fewer);
    let large = samples_of(seed, rounds);
    if fewer < rounds {
        law_fewer_rounds_are_a_prefix(seed, fewer, rounds - 1);
        let b = Batch { samples: Seq::<SampleModel>::empty(), state: seed ^ 0x9e37_79b9_7f4a_7c15 };
        let p = add_rounds(b, rounds - 1);
        lemma_round_extends(p);
        let n = small.len() as int;
        assert(large.take(p.samples.len() as int) == p.samples);
        assert(small =~= large.subrange(0, n)) by {
            assert forall|k: int| 0 <= k < n implies #[trigger] small[k] == large[k] by {
                assert(small[k] == p.samples.subrange(0, n)[k]);
                assert(large.take(p.samples.len() as int)[k] == large[k]);
            }
        }
    } else {
        assert(small =~= large.subrange(0, small.len() as int));
    }
}

} // verus!
