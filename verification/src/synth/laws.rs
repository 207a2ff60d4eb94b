//! What holds of made-up values.

use vstd::prelude::*;
use crate::detect::checksum::all_digits;
use crate::detect::entity::{digits_of, EntityKind};
use crate::normalize::fold::{fold_step, fold_steps};
use crate::normalize::lookalike::{
    digit_before, digit_behind, is_digit_place, lookalike_step, lookalike_steps,
};
use crate::normalize::separator::{
    between_digits, encloses, law_enclosed_separators_are_dropped, separator_of, separator_steps,
    without_enclosed,
};
use crate::span::steps::{dst_of, lemma_of_add, lemma_of_single};
use crate::synth::notation::{grouped, lettered, turns, wide, widened};
use crate::synth::value::{digits_text, lemma_digits_text_len};
use crate::text::is_digit;

verus! {

broadcast use crate::text::lemma_text_char_range;

/// Digits that are written can be read again.
pub proof fn law_written_digits_are_read_back(d: Seq<u8>)
    requires
        forall|i: int| 0 <= i < d.len() ==> #[trigger] d[i] < 10,
    ensures
        all_digits(digits_text(d)),
        digits_of(digits_text(d)) == d,
    decreases d.len(),
{
    let t = digits_text(d);
    lemma_digits_text_len(d);
    if d.len() > 0 {
        let init = d.drop_last();
        assert forall|i: int| 0 <= i < init.len() implies #[trigger] init[i] < 10 by {
            assert(d[i] < 10);
        }
        law_written_digits_are_read_back(init);
        lemma_digits_text_len(init);
        let u = digits_text(init);
        assert(d[d.len() - 1] < 10);
        assert forall|i: int| 0 <= i < t.len() implies is_digit(#[trigger] t[i]) by {
            if i < u.len() {
                assert(t[i] == u[i]);
            }
        }
        assert forall|i: int| 0 <= i < t.len() implies #[trigger] digits_of(t)[i] == d[i] by {
            if i < u.len() {
                assert(t[i] == u[i]);
                assert(digits_of(u)[i] == init[i]);
            }
        }
    }
    assert(digits_of(t) =~= d);
}

pub proof fn lemma_wide_index(v: Seq<char>, n: int)
    requires
        0 <= n <= v.len(),
    ensures
        wide(v, n).len() == n,
        forall|i: int| 0 <= i < n ==> #[trigger] wide(v, n)[i] == widened(v[i]),
    decreases n,
{
    if n > 0 {
        lemma_wide_index(v, n - 1);
    }
}

/// Full-width digits fold to the digits.
proof fn lemma_unfold(v: Seq<char>, w: Seq<char>, i: int)
    requires
        all_digits(v),
        w.len() == v.len(),
        forall|k: int| 0 <= k < v.len() ==> #[trigger] w[k] == widened(v[k]),
        0 <= i <= v.len(),
    ensures
        dst_of(fold_steps(w, i)) == v.skip(i),
    decreases v.len() - i,
{
    if i < v.len() {
        lemma_unfold(v, w, i + 1);
        let step = fold_step(w[i]);
        assert(is_digit(v[i]));
        assert(w[i] == widened(v[i]));
        lemma_widened(v[i]);
        lemma_of_add(seq![step], fold_steps(w, i + 1));
        lemma_of_single(step);
        assert(v.skip(i) =~= seq![v[i]] + v.skip(i + 1));
    } else {
        assert(v.skip(i) =~= Seq::<char>::empty());
    }
}

proof fn lemma_widened(c: char)
    requires
        is_digit(c),
    ensures
        fold_step(widened(c)).dst() == seq![c],
{
    assert(fold_step(widened(c)).dst() =~= seq![c]);
}

/// Folding undoes writing digits in full width.
pub proof fn law_full_width_digits_fold_back(v: Seq<char>)
    requires
        all_digits(v),
    ensures
        dst_of(fold_steps(wide(v, v.len() as int), 0)) == v,
{
    lemma_wide_index(v, v.len() as int);
    lemma_unfold(v, wide(v, v.len() as int), 0);
    assert(v.skip(0) =~= v);
}

pub proof fn lemma_lettered_index(v: Seq<char>, limit: nat, n: int)
    requires
        0 <= n <= v.len(),
        all_digits(v),
    ensures
        lettered(v, limit, n).len() == n,
        forall|i: int| #![trigger lettered(v, limit, n)[i]]
            0 <= i < n ==> lettered(v, limit, n)[i] == if turns(v, limit, i) {
                if v[i] == '0' {
                    'O'
                } else {
                    'l'
                }
            } else {
                v[i]
            },
        forall|i: int| 0 <= i < n && #[trigger] turns(v, limit, i) ==> v[i] == '0' || v[i] == '1',
    decreases n,
{
    if n > 0 {
        lemma_lettered_index(v, limit, n - 1);
    }
}

proof fn lemma_letters_back(v: Seq<char>, limit: nat, w: Seq<char>, i: int)
    requires
        all_digits(v),
        w == lettered(v, limit, v.len() as int),
        0 <= i <= v.len(),
    ensures
        dst_of(lookalike_steps(w, i)) == v.skip(i),
    decreases v.len() - i,
{
    lemma_lettered_index(v, limit, v.len() as int);
    if i < v.len() {
        lemma_letters_back(v, limit, w, i + 1);
        let step = lookalike_step(w, i);
        assert(is_digit(v[i]));
        if turns(v, limit, i) {
            assert(w[i] == if v[i] == '0' { 'O' } else { 'l' });
            assert(!turns(v, limit, i - 1));
            assert(!turns(v, limit, i + 1));
            assert(w[i - 1] == v[i - 1] && is_digit(v[i - 1]));
            assert(w[i + 1] == v[i + 1] && is_digit(v[i + 1]));
            assert(is_digit_place(w[i - 1]));
            assert(is_digit_place(w[i + 1]));
            assert(digit_before(w, i));
            assert(digit_behind(w, i));
        } else {
            assert(w[i] == v[i]);
        }
        assert(step.dst() =~= seq![v[i]]);
        lemma_of_add(seq![step], lookalike_steps(w, i + 1));
        lemma_of_single(step);
        assert(v.skip(i) =~= seq![v[i]] + v.skip(i + 1));
    } else {
        assert(v.skip(i) =~= Seq::<char>::empty());
    }
}

/// Reading letters between digits as digits undoes writing letters for some of the digits.
pub proof fn law_lookalike_letters_read_back(v: Seq<char>, limit: nat)
    requires
        all_digits(v),
    ensures
        dst_of(lookalike_steps(lettered(v, limit, v.len() as int), 0)) == v,
{
    lemma_letters_back(v, limit, lettered(v, limit, v.len() as int), 0);
    assert(v.skip(0) =~= v);
}

/// Only digits, and separators with a digit on either side, of which the last one may still miss
/// the digit behind it.
spec fn well_grouped(g: Seq<char>, sep: char) -> bool {
    forall|j: int| #![trigger g[j]]
        0 <= j < g.len() ==> is_digit(g[j]) || (g[j] == sep && 0 < j && is_digit(g[j - 1]) && (j + 1 < g.len() ==> is_digit(
            g[j + 1],
        )))
}

/// The digits of a text.
spec fn only_digits(g: Seq<char>, n: int) -> Seq<char>
    decreases n,
{
    if n <= 0 {
        Seq::empty()
    } else if is_digit(g[n - 1]) {
        only_digits(g, n - 1).push(g[n - 1])
    } else {
        only_digits(g, n - 1)
    }
}

proof fn lemma_only_digits_prefix(a: Seq<char>, b: Seq<char>, n: int)
    requires
        0 <= n <= a.len(),
        n <= b.len(),
        forall|i: int| 0 <= i < n ==> a[i] == b[i],
    ensures
        only_digits(a, n) == only_digits(b, n),
    decreases n,
{
    if n > 0 {
        lemma_only_digits_prefix(a, b, n - 1);
    }
}

proof fn lemma_grouped(entity: EntityKind, v: Seq<char>, sep: char, n: int)
    requires
        all_digits(v),
        0 <= n <= v.len(),
        !is_digit(sep),
    ensures
        ({
            let g = grouped(entity, v, sep, n);
            &&& well_grouped(g, sep)
            &&& n > 0 ==> g.len() > 0 && is_digit(g.last())
            &&& n == 0 ==> g.len() == 0
            &&& only_digits(g, g.len() as int) == v.take(n)
        }),
    decreases n,
{
    if n > 0 {
        lemma_grouped(entity, v, sep, n - 1);
        let p = grouped(entity, v, sep, n - 1);
        let g = grouped(entity, v, sep, n);
        assert(is_digit(v[n - 1]));
        let m = p.len() as int;
        lemma_only_digits_prefix(p, g, m);
        assert forall|j: int| #![trigger g[j]] 0 <= j < g.len() implies is_digit(g[j]) || (g[j] == sep && 0 < j && is_digit(
            g[j - 1],
        ) && (j + 1 < g.len() ==> is_digit(g[j + 1]))) by {
            if j < m {
                assert(p[j] == g[j]);
                if !is_digit(p[j]) {
                    assert(p[j - 1] == g[j - 1]);
                    if j + 1 < m {
                        assert(p[j + 1] == g[j + 1]);
                    } else {
                        assert(p.last() == p[j]);
                    }
                }
            }
        }
        reveal_with_fuel(only_digits, 3);
        assert(v.take(n) =~= v.take(n - 1).push(v[n - 1]));
    } else {
        assert(v.take(0) =~= Seq::<char>::empty());
    }
}

/// Among digits and single separators between them, exactly the separators are dropped.
proof fn lemma_separators_dropped(g: Seq<char>, sep: char, i: int)
    requires
        well_grouped(g, sep),
        separator_of(sep) is Some,
        !is_digit(sep),
        g.len() > 0 ==> is_digit(g.last()),
        0 <= i <= g.len(),
    ensures
        only_digits(g, i) + without_enclosed(g, i) == only_digits(g, g.len() as int),
    decreases g.len() - i,
{
    if i < g.len() {
        lemma_separators_dropped(g, sep, i + 1);
        if is_digit(g[i]) {
            if between_digits(g, i) {
                let (a, b) = choose|a: int, b: int| #[trigger] encloses(g, a, i, b);
                assert(separator_of(g[i]) is Some);
            }
            assert(only_digits(g, i + 1) == only_digits(g, i).push(g[i]));
            assert(only_digits(g, i) + (seq![g[i]] + without_enclosed(g, i + 1)) =~= only_digits(g, i + 1) + without_enclosed(
                g,
                i + 1,
            ));
        } else {
            assert(i + 1 < g.len()) by {
                if i + 1 == g.len() {
                    assert(g.last() == g[i]);
                }
            }
            assert(is_digit(g[i - 1]) && is_digit(g[i + 1]));
            assert(encloses(g, i - 1, i, i + 1));
            assert(between_digits(g, i));
        }
    } else {
        assert(only_digits(g, i) + without_enclosed(g, i) =~= only_digits(g, i));
    }
}

/// Absorbing separators undoes writing the groups of a number apart.
pub proof fn law_groups_join_again(entity: EntityKind, v: Seq<char>, sep: char)
    requires
        all_digits(v),
        separator_of(sep) is Some,
    ensures
        dst_of(separator_steps(grouped(entity, v, sep, v.len() as int), 0)) == v,
{
    let g = grouped(entity, v, sep, v.len() as int);
    lemma_grouped(entity, v, sep, v.len() as int);
    lemma_separators_dropped(g, sep, 0);
    law_enclosed_separators_are_dropped(g, 0);
    assert(only_digits(g, 0) + without_enclosed(g, 0) =~= without_enclosed(g, 0));
    assert(v.take(v.len() as int) =~= v);
}

} // verus!
