//! What is written in any notation is read back by the whole pipeline.

use vstd::prelude::*;
use crate::detect::checksum::{all_digits, gender_of};
use crate::detect::entity::{digits_of, EntityKind};
use crate::normalize::fold::{fold_steps, folded};
use crate::normalize::hangul::{
    converted, goes_on, hangul_steps, has_unit, read_run, run_end, swallowed, token_at, tokens_from,
    two_syllables, NumeralConfig, Token,
};
use crate::normalize::lookalike::{lookalike_step, lookalike_steps, meant_digit};
use crate::normalize::nfc::{composed, is_lead, is_trail, nfc_steps};
use crate::normalize::separator::{separator_of, separator_steps};
use crate::normalize::{
    fold_stage, folding, hangul_stage, lemma_pipeline, lettering, lookalike_stage, nfc_stage,
    numbering, pipeline, separator_stage, NormalizeConfig,
};
use crate::span::builder::reading;
use crate::span::steps::{
    dst_of, keeps, lemma_comp_sums, lemma_keeps, lemma_of_add, lemma_of_single, Step,
};
use crate::synth::laws::{
    law_full_width_digits_fold_back, law_groups_join_again, law_lookalike_letters_read_back,
    law_written_digits_are_read_back, lemma_lettered_index, lemma_wide_index,
};
use crate::synth::notation::{grouped, notation, spoken, spoken_head, Variant};
use crate::synth::rng::digits_drawn;
use crate::synth::value::{
    card_head, completed, lemma_checked_value, lemma_digits_text_len, passing, resident_head,
    value_of, Check,
};
use crate::synth::{frame, law_the_answer_points_at_the_value, positive_of};
use crate::text::{digit_char, is_digit};

verus! {

broadcast use crate::text::lemma_text_char_range;

/// What the whole pipeline gives is what each pass gives of what the one before it gave.
proof fn lemma_pass_by_pass(text: Seq<char>, cfg: NormalizeConfig, a: Seq<char>, b: Seq<char>, c: Seq<char>, d: Seq<char>)
    requires
        dst_of(nfc_stage(text, cfg)) == a,
        dst_of(fold_stage(a, cfg)) == b,
        dst_of(hangul_stage(b, cfg)) == c,
        dst_of(lookalike_stage(c, cfg)) == d,
    ensures
        dst_of(pipeline(text, cfg)) == dst_of(separator_stage(d, cfg)),
{
    lemma_pipeline(text, cfg);
    lemma_comp_sums(nfc_stage(text, cfg), fold_stage(a, cfg));
    lemma_comp_sums(folding(text, cfg), hangul_stage(b, cfg));
    lemma_comp_sums(numbering(text, cfg), lookalike_stage(c, cfg));
    lemma_comp_sums(lettering(text, cfg), separator_stage(d, cfg));
}

/// The first pass leaves a text alone that holds no loose jamo.
proof fn lemma_nfc_leaves(s: Seq<char>, i: int)
    requires
        0 <= i <= s.len(),
        forall|k: int| 0 <= k < s.len() ==> !is_lead(#[trigger] s[k]) && !is_trail(s[k]),
    ensures
        dst_of(nfc_steps(s, i)) == s.skip(i),
    decreases s.len() - i,
{
    if i < s.len() {
        lemma_nfc_leaves(s, i + 1);
        assert(composed(s, i) is None) by {
            assert(!is_lead(s[i]));
            if i + 1 < s.len() {
                assert(!is_trail(s[i + 1]));
            }
        }
        lemma_kept_first(s, i, nfc_steps(s, i + 1));
    } else {
        assert(s.skip(i) =~= Seq::<char>::empty());
    }
}

/// A kept character, and then what the other steps give.
proof fn lemma_kept_first(s: Seq<char>, i: int, rest: Seq<Step>)
    requires
        0 <= i < s.len(),
        dst_of(rest) == s.skip(i + 1),
    ensures
        dst_of(seq![Step::Keep { c: s[i] }] + rest) == s.skip(i),
{
    let step = Step::Keep { c: s[i] };
    lemma_of_add(seq![step], rest);
    lemma_of_single(step);
    assert(s.skip(i) =~= seq![s[i]] + s.skip(i + 1));
}

/// The second pass leaves a text alone of which nothing is folded.
proof fn lemma_fold_leaves(s: Seq<char>, i: int)
    requires
        0 <= i <= s.len(),
        forall|k: int| 0 <= k < s.len() ==> folded(#[trigger] s[k]) is None,
    ensures
        dst_of(fold_steps(s, i)) == s.skip(i),
    decreases s.len() - i,
{
    if i < s.len() {
        lemma_fold_leaves(s, i + 1);
        assert(folded(s[i]) is None);
        lemma_kept_first(s, i, fold_steps(s, i + 1));
    } else {
        assert(s.skip(i) =~= Seq::<char>::empty());
    }
}

/// The third pass leaves a text alone from where on it holds no numeral.
proof fn lemma_hangul_leaves(s: Seq<char>, i: int, cfg: NumeralConfig)
    requires
        0 <= i <= s.len(),
        forall|k: int| i <= k < s.len() ==> #[trigger] token_at(s, k) is None,
    ensures
        dst_of(hangul_steps(s, i, cfg)) == s.skip(i),
    decreases s.len() - i,
{
    if i < s.len() {
        lemma_hangul_leaves(s, i + 1, cfg);
        assert(token_at(s, i) is None);
        assert(run_end(s, i) == i);
        lemma_kept_first(s, i, hangul_steps(s, i + 1, cfg));
    } else {
        assert(s.skip(i) =~= Seq::<char>::empty());
    }
}

/// The fourth pass leaves a text alone that holds no letter like a digit.
proof fn lemma_lookalike_leaves(s: Seq<char>, i: int)
    requires
        0 <= i <= s.len(),
        forall|k: int| 0 <= k < s.len() ==> meant_digit(#[trigger] s[k]) is None,
    ensures
        dst_of(lookalike_steps(s, i)) == s.skip(i),
    decreases s.len() - i,
{
    if i < s.len() {
        lemma_lookalike_leaves(s, i + 1);
        assert(meant_digit(s[i]) is None);
        assert(lookalike_step(s, i) == Step::Keep { c: s[i] });
        lemma_kept_first(s, i, lookalike_steps(s, i + 1));
    } else {
        assert(s.skip(i) =~= Seq::<char>::empty());
    }
}

/// The fifth pass leaves digits alone.
proof fn lemma_separator_leaves(v: Seq<char>, i: int)
    requires
        0 <= i <= v.len(),
        all_digits(v),
    ensures
        dst_of(separator_steps(v, i)) == v.skip(i),
    decreases v.len() - i,
{
    if i < v.len() {
        lemma_separator_leaves(v, i + 1);
        assert(is_digit(v[i]));
        assert(separator_of(v[i]) is None);
        lemma_kept_first(v, i, separator_steps(v, i + 1));
    } else {
        assert(v.skip(i) =~= Seq::<char>::empty());
    }
}

/// A digit, a hyphen, a space or a letter that stands in for a digit.
spec fn is_simple(c: char) -> bool {
    is_digit(c) || c == '-' || c == ' ' || c == 'O' || c == 'l'
}

spec fn all_simple(s: Seq<char>) -> bool {
    forall|k: int| 0 <= k < s.len() ==> is_simple(#[trigger] s[k])
}

/// The first three passes leave simple characters alone.
proof fn lemma_simple_text(s: Seq<char>, cfg: NumeralConfig)
    requires
        all_simple(s),
    ensures
        dst_of(nfc_steps(s, 0)) == s,
        dst_of(fold_steps(s, 0)) == s,
        dst_of(hangul_steps(s, 0, cfg)) == s,
{
    assert(s.skip(0) =~= s);
    assert forall|k: int| 0 <= k < s.len() implies !is_lead(#[trigger] s[k]) && !is_trail(s[k]) by {
        assert(is_simple(s[k]));
    }
    assert forall|k: int| 0 <= k < s.len() implies folded(#[trigger] s[k]) is None by {
        assert(is_simple(s[k]));
    }
    assert forall|k: int| 0 <= k < s.len() implies #[trigger] token_at(s, k) is None by {
        assert(is_simple(s[k]));
    }
    lemma_nfc_leaves(s, 0);
    lemma_fold_leaves(s, 0);
    lemma_hangul_leaves(s, 0, cfg);
}

/// No pass changes anything about digits.
proof fn lemma_digits_stay(v: Seq<char>, cfg: NumeralConfig)
    requires
        all_digits(v),
    ensures
        all_simple(v),
        dst_of(nfc_steps(v, 0)) == v,
        dst_of(fold_steps(v, 0)) == v,
        dst_of(hangul_steps(v, 0, cfg)) == v,
        dst_of(lookalike_steps(v, 0)) == v,
        dst_of(separator_steps(v, 0)) == v,
{
    assert(v.skip(0) =~= v);
    assert forall|k: int| 0 <= k < v.len() implies meant_digit(#[trigger] v[k]) is None by {
        assert(is_digit(v[k]));
    }
    assert forall|k: int| 0 <= k < v.len() implies is_simple(#[trigger] v[k]) by {
        assert(is_digit(v[k]));
    }
    lemma_simple_text(v, cfg);
    lemma_lookalike_leaves(v, 0);
    lemma_separator_leaves(v, 0);
}

/// Groups of digits hold nothing but digits and the sign between them.
proof fn lemma_grouped_chars(entity: EntityKind, v: Seq<char>, sep: char, n: int)
    requires
        all_digits(v),
        0 <= n <= v.len(),
    ensures
        forall|k: int|
            0 <= k < grouped(entity, v, sep, n).len() ==> is_digit(#[trigger] grouped(entity, v, sep, n)[k])
                || grouped(entity, v, sep, n)[k] == sep,
    decreases n,
{
    if n > 0 {
        lemma_grouped_chars(entity, v, sep, n - 1);
        let g = grouped(entity, v, sep, n);
        let p = grouped(entity, v, sep, n - 1);
        assert(is_digit(v[n - 1]));
        assert forall|k: int| 0 <= k < g.len() implies is_digit(#[trigger] g[k]) || g[k] == sep by {
            if k < p.len() {
                assert(g[k] == p[k]);
            }
        }
    } else {
        assert(grouped(entity, v, sep, n).len() == 0);
    }
}

/// Nothing but the separators of a number in groups is changed.
proof fn lemma_groups_back(entity: EntityKind, v: Seq<char>, sep: char, cfg: NumeralConfig)
    requires
        all_digits(v),
        sep == '-' || sep == ' ',
    ensures
        ({
            let g = grouped(entity, v, sep, v.len() as int);
            &&& dst_of(nfc_steps(g, 0)) == g
            &&& dst_of(fold_steps(g, 0)) == g
            &&& dst_of(hangul_steps(g, 0, cfg)) == g
            &&& dst_of(lookalike_steps(g, 0)) == g
            &&& dst_of(separator_steps(g, 0)) == v
        }),
{
    let g = grouped(entity, v, sep, v.len() as int);
    lemma_grouped_chars(entity, v, sep, v.len() as int);
    assert forall|k: int| 0 <= k < g.len() implies is_simple(#[trigger] g[k]) && meant_digit(g[k]) is None by {
        assert(is_digit(g[k]) || g[k] == sep);
    }
    assert(g.skip(0) =~= g);
    lemma_simple_text(g, cfg);
    lemma_lookalike_leaves(g, 0);
    law_groups_join_again(entity, v, sep);
}

proof fn lemma_spoken_index(v: Seq<char>, count: int, n: int)
    requires
        0 <= n <= v.len(),
    ensures
        spoken_head(v, count, n).len() == n,
        forall|k: int|
            0 <= k < n ==> #[trigger] spoken_head(v, count, n)[k] == if k < count {
                spoken(v[k])
            } else {
                v[k]
            },
    decreases n,
{
    if n > 0 {
        lemma_spoken_index(v, count, n - 1);
    }
}

/// A spoken digit is read as the digit, whatever follows in a number that is spoken.
proof fn lemma_spoken_token(s: Seq<char>, v: Seq<char>, k: int)
    requires
        0 <= k < s.len(),
        k < v.len(),
        is_digit(v[k]),
        s[k] == spoken(v[k]),
        k + 1 < s.len() ==> s[k + 1] != '곱',
    ensures
        token_at(s, k) == Some((Token::Digit((v[k] as int - 48) as u8), 1int)),
        !is_lead(s[k]),
        !is_trail(s[k]),
        folded(s[k]) is None,
{
    if k + 1 < s.len() {
        assert(two_syllables(s[k], s[k + 1]) is None);
    }
}

/// Spoken digits up to position `f` are one run of words, each a digit.
proof fn lemma_spoken_run(s: Seq<char>, v: Seq<char>, i: int, f: int)
    requires
        0 <= i <= f <= s.len(),
        f <= v.len(),
        all_digits(v),
        forall|k: int| 0 <= k < f ==> #[trigger] s[k] == spoken(v[k]),
        f < s.len() ==> s[f] == '-' || s[f] == '래',
    ensures
        run_end(s, i) == f,
        tokens_from(s, i).len() == f - i,
        forall|k: int|
            0 <= k < f - i ==> #[trigger] tokens_from(s, i)[k] == Token::Digit((v[i + k] as int - 48) as u8),
    decreases f - i,
{
    if i < f {
        lemma_spoken_run(s, v, i + 1, f);
        assert(is_digit(v[i]));
        if i + 1 < f {
            assert(is_digit(v[i + 1]));
            assert(s[i + 1] == spoken(v[i + 1]));
        }
        lemma_spoken_token(s, v, i);
        let rest = tokens_from(s, i + 1);
        let all = tokens_from(s, i);
        assert(all == seq![Token::Digit((v[i] as int - 48) as u8)] + rest);
        assert forall|k: int| 0 <= k < f - i implies #[trigger] all[k] == Token::Digit((v[i + k] as int - 48) as u8) by {
            if k > 0 {
                assert(all[k] == rest[k - 1]);
            }
        }
    } else {
        assert(token_at(s, i) is None);
    }
}

/// Words that are digits are read as those digits.
proof fn lemma_digit_words(tokens: Seq<Token>, v: Seq<char>)
    requires
        all_digits(v),
        tokens.len() == v.len(),
        forall|k: int| 0 <= k < v.len() ==> #[trigger] tokens[k] == Token::Digit((v[k] as int - 48) as u8),
    ensures
        crate::normalize::hangul::digits_of(tokens) == v,
        !has_unit(tokens),
    decreases v.len(),
{
    if v.len() > 0 {
        let init = tokens.drop_last();
        let u = v.drop_last();
        assert forall|k: int| 0 <= k < u.len() implies #[trigger] init[k] == Token::Digit((u[k] as int - 48) as u8) by {
            assert(init[k] == tokens[k]);
        }
        assert(all_digits(u)) by {
            assert forall|k: int| 0 <= k < u.len() implies is_digit(#[trigger] u[k]) by {
                assert(is_digit(v[k]));
            }
        }
        lemma_digit_words(init, u);
        let last = v.len() - 1;
        assert(is_digit(v[last]));
        assert(tokens[last] == Token::Digit((v[last] as int - 48) as u8));
        assert(digit_char(v[last] as int - 48) == v[last]);
        assert(crate::normalize::hangul::digits_of(tokens) =~= v);
    } else {
        assert(crate::normalize::hangul::digits_of(tokens) =~= v);
    }
    assert forall|k: int| 0 <= k < tokens.len() implies !((#[trigger] tokens[k]) is Unit) by {
        assert(tokens[k] == Token::Digit((v[k] as int - 48) as u8));
    }
}

/// A number with one hyphen behind six digits is a number in groups.
proof fn lemma_one_hyphen(v: Seq<char>, n: int)
    requires
        0 <= n <= v.len(),
    ensures
        grouped(EntityKind::Resident, v, '-', n) == if n <= 6 {
            v.take(n)
        } else {
            v.take(6).push('-') + v.subrange(6, n)
        },
    decreases n,
{
    if n > 0 {
        lemma_one_hyphen(v, n - 1);
        let g = grouped(EntityKind::Resident, v, '-', n);
        if n <= 6 {
            assert(g =~= v.take(n));
        } else {
            if n == 7 {
                assert(v.take(6).push('-').push(v[6]) =~= v.take(6).push('-') + v.subrange(6, n));
            }
            assert(g =~= v.take(6).push('-') + v.subrange(6, n));
        }
    } else {
        assert(grouped(EntityKind::Resident, v, '-', n) =~= v.take(n));
    }
}

/// The passes read the six spoken digits of a number, and leave the rest alone.
proof fn lemma_spoken_back(v: Seq<char>, w: Seq<char>, cfg: NumeralConfig)
    requires
        all_digits(v),
        v.len() > 6,
        w == spoken_head(v, 6, v.len() as int).take(6).push('-') + v.skip(6),
        cfg.min_digits_without_context <= 6,
    ensures
        dst_of(nfc_steps(w, 0)) == w,
        dst_of(fold_steps(w, 0)) == w,
        dst_of(hangul_steps(w, 0, cfg)) == grouped(EntityKind::Resident, v, '-', v.len() as int),
{
    let n = v.len() as int;
    lemma_spoken_index(v, 6, n);
    assert forall|k: int| 0 <= k < 6 implies #[trigger] w[k] == spoken(v[k]) by {
        assert(spoken_head(v, 6, n)[k] == spoken(v[k]));
    }
    assert(w[6] == '-');
    assert forall|k: int| 7 <= k < w.len() implies is_digit(#[trigger] w[k]) by {
        assert(w[k] == v[k - 1]);
        assert(is_digit(v[k - 1]));
    }
    assert forall|k: int| 0 <= k < w.len() implies !is_lead(#[trigger] w[k]) && !is_trail(w[k]) && folded(w[k]) is None by {
        if k < 6 {
            assert(is_digit(v[k]));
            assert(w[k] == spoken(v[k]));
        }
    }
    assert(w.skip(0) =~= w);
    lemma_nfc_leaves(w, 0);
    lemma_fold_leaves(w, 0);

    lemma_spoken_run(w, v, 0, 6);
    assert(swallowed(w, 0, 6) == 0) by {
        assert(w[6] == '-');
        if goes_on(w, 6, seq!['래', '요']) {
            assert(w.subrange(6, 8)[0] == '래');
        }
        if goes_on(w, 6, seq!['에', '요']) {
            assert(w.subrange(6, 8)[0] == '에');
        }
        if goes_on(w, 6, seq!['예', '요']) {
            assert(w.subrange(6, 8)[0] == '예');
        }
        if goes_on(w, 6, seq!['요']) {
            assert(w.subrange(6, 7)[0] == '요');
        }
        if goes_on(w, 6, seq!['고']) {
            assert(w.subrange(6, 7)[0] == '고');
        }
    }
    let cut = w.take(6);
    assert forall|k: int| 0 <= k < 6 implies #[trigger] cut[k] == spoken(v[k]) by {
        assert(w[k] == spoken(v[k]));
    }
    lemma_spoken_run(cut, v, 0, 6);
    let tokens = tokens_from(cut, 0);
    let head = v.take(6);
    assert(all_digits(head)) by {
        assert forall|k: int| 0 <= k < 6 implies is_digit(#[trigger] head[k]) by {
            assert(is_digit(v[k]));
        }
    }
    assert forall|k: int| 0 <= k < 6 implies #[trigger] tokens[k] == Token::Digit((head[k] as int - 48) as u8) by {
        assert(tokens[k] == Token::Digit((v[0 + k] as int - 48) as u8));
    }
    lemma_digit_words(tokens, head);
    assert(converted(tokens) is Some);
    let read = read_run(w, 0, 6, cfg);
    assert(read is Some);
    let (digits, rule, f) = read.unwrap();
    assert(digits == head && f == 6);
    assert forall|k: int| 6 <= k < w.len() implies #[trigger] token_at(w, k) is None by {
        if k > 6 {
            assert(is_digit(w[k]));
        }
    }
    lemma_hangul_leaves(w, 6, cfg);
    let step = reading(w.subrange(0, 6), digits, rule);
    let rest = hangul_steps(w, 6, cfg);
    assert(w.subrange(6, 6) =~= Seq::<char>::empty());
    assert(keeps(w.subrange(6, 6)) =~= Seq::<Step>::empty());
    assert(hangul_steps(w, 0, cfg) =~= seq![step] + rest);
    lemma_of_add(seq![step], rest);
    lemma_of_single(step);
    lemma_one_hyphen(v, n);
    assert(head + w.skip(6) =~= grouped(EntityKind::Resident, v, '-', n));
}

/// All passes run, and six spoken digits are read without a sign of numbers next to them.
pub open spec fn reads_all(cfg: NormalizeConfig) -> bool {
    &&& cfg.nfc && cfg.fold && cfg.hangul && cfg.lookalike && cfg.separator
    &&& cfg.numeral.min_digits_without_context <= 6
}

/// The notation hides no digit and adds no word.
pub open spec fn is_complete(variant: Variant) -> bool {
    ||| variant == Variant::Plain
    ||| variant == Variant::Hyphen
    ||| variant == Variant::Space
    ||| variant == Variant::Fullwidth
    ||| variant == Variant::HangulDigits
    ||| variant == Variant::Lookalike
}

/// A number of more than six digits, written in any notation that hides nothing, is normalized to
/// its digits.
pub proof fn law_written_numbers_normalize_to_their_digits(
    entity: EntityKind,
    v: Seq<char>,
    variant: Variant,
    cfg: NormalizeConfig,
)
    requires
        all_digits(v),
        v.len() > 6,
        is_complete(variant),
        reads_all(cfg),
    ensures
        dst_of(pipeline(notation(entity, v, variant), cfg)) == v,
{
    let n = v.len() as int;
    let w = notation(entity, v, variant);
    lemma_digits_stay(v, cfg.numeral);
    match variant {
        Variant::Hyphen => {
            lemma_groups_back(entity, v, '-', cfg.numeral);
            lemma_pass_by_pass(w, cfg, w, w, w, w);
        },
        Variant::Space => {
            lemma_groups_back(entity, v, ' ', cfg.numeral);
            lemma_pass_by_pass(w, cfg, w, w, w, w);
        },
        Variant::Fullwidth => {
            lemma_wide_index(v, n);
            assert forall|k: int| 0 <= k < w.len() implies !is_lead(#[trigger] w[k]) && !is_trail(w[k]) by {
                assert(is_digit(v[k]));
            }
            lemma_nfc_leaves(w, 0);
            assert(w.skip(0) =~= w);
            law_full_width_digits_fold_back(v);
            lemma_pass_by_pass(w, cfg, w, v, v, v);
        },
        Variant::Lookalike => {
            lemma_lettered_index(v, 2, n);
            assert forall|k: int| 0 <= k < w.len() implies is_simple(#[trigger] w[k]) by {
                assert(is_digit(v[k]));
            }
            lemma_simple_text(w, cfg.numeral);
            law_lookalike_letters_read_back(v, 2);
            lemma_pass_by_pass(w, cfg, w, w, w, v);
        },
        Variant::HangulDigits => {
            reveal_strlit("-");
            lemma_spoken_index(v, 6, n);
            let h = spoken_head(v, 6, n);
            assert(h.skip(6) =~= v.skip(6));
            assert(w =~= h.take(6).push('-') + v.skip(6));
            lemma_spoken_back(v, w, cfg.numeral);
            let g = grouped(EntityKind::Resident, v, '-', n);
            lemma_groups_back(EntityKind::Resident, v, '-', cfg.numeral);
            lemma_pass_by_pass(w, cfg, w, w, g, g);
        },
        _ => {
            lemma_pass_by_pass(w, cfg, v, v, v, v);
        },
    }
}

/// The check that values of a kind pass, if the kind has one.
pub open spec fn check_of(entity: EntityKind) -> Option<Check> {
    match entity {
        EntityKind::Resident => Some(Check::Resident),
        EntityKind::ForeignerRegistration => Some(Check::Resident),
        EntityKind::BusinessRegistration => Some(Check::Business),
        EntityKind::CreditCard => Some(Check::Card),
        _ => None,
    }
}

/// How many digits values of a kind with a check digit have.
pub open spec fn checked_len(entity: EntityKind) -> int {
    match entity {
        EntityKind::BusinessRegistration => 10,
        EntityKind::CreditCard => 16,
        _ => 13,
    }
}

/// A sample of a kind with a check digit holds its value where it says, in the notation it names.
/// Normalized, the value is the digits of that kind, and they pass its check.
pub proof fn law_samples_normalize_to_values_that_pass(
    s: u64,
    entity: EntityKind,
    variant: Variant,
    with_context: bool,
    cfg: NormalizeConfig,
)
    requires
        check_of(entity) is Some,
        is_complete(variant),
        reads_all(cfg),
    ensures
        ({
            let m = positive_of(s, entity, variant, with_context);
            let written = notation(entity, value_of(entity, s), variant);
            let a = frame(entity, with_context).0.len() as int;
            let read = dst_of(pipeline(written, cfg));
            let d = digits_of(read);
            &&& m.expected == Some(entity)
            &&& m.variant == variant
            &&& m.with_context == with_context
            &&& m.trap is None
            &&& m.text.subrange(a, (a + written.len()) as int) == written
            &&& all_digits(read)
            &&& read.len() == checked_len(entity)
            &&& passing(check_of(entity).unwrap(), d)
            &&& check_of(entity) == Some(Check::Resident) ==> gender_of(d[6]).unwrap().foreigner == (entity
                == EntityKind::ForeignerRegistration)
        }),
{
    law_the_answer_points_at_the_value(s, entity, variant, with_context);
    lemma_checked_value(s);
    let d = match entity {
        EntityKind::Resident => completed(Check::Resident, resident_head(s, false)),
        EntityKind::ForeignerRegistration => completed(Check::Resident, resident_head(s, true)),
        EntityKind::BusinessRegistration => completed(Check::Business, digits_drawn(s, 9)),
        _ => completed(Check::Card, card_head(s)),
    };
    law_written_digits_are_read_back(d);
    lemma_digits_text_len(d);
    law_written_numbers_normalize_to_their_digits(entity, value_of(entity, s), variant, cfg);
}

/// A number that is spoken as a whole, with a verb ending behind it, is read without the ending,
/// though the first syllable of the ending is also a digit.
pub proof fn law_verb_endings_are_no_digits(v: Seq<char>, cfg: NumeralConfig)
    requires
        all_digits(v),
        v.len() >= 6,
        cfg.min_digits_without_context <= 6,
    ensures
        ({
            let spoken_number = spoken_head(v, v.len() as int, v.len() as int);
            dst_of(hangul_steps(spoken_number + seq!['이', '래', '요'], 0, cfg)) == v + seq!['이', '래', '요']
        }),
{
    let n = v.len() as int;
    let h = spoken_head(v, n, n);
    let s = h + seq!['이', '래', '요'];
    lemma_spoken_index(v, n, n);
    let longer = v.push('2');
    assert(all_digits(longer)) by {
        assert forall|k: int| 0 <= k < longer.len() implies is_digit(#[trigger] longer[k]) by {
            if k < n {
                assert(is_digit(v[k]));
            }
        }
    }
    assert forall|k: int| 0 <= k < n + 1 implies #[trigger] s[k] == spoken(longer[k]) by {
        if k < n {
            assert(s[k] == h[k]);
        }
    }
    assert(s[n + 1] == '래' && s[n + 2] == '요' && s[n] == '이');
    lemma_spoken_run(s, longer, 0, n + 1);
    assert(goes_on(s, n + 1, seq!['래', '요'])) by {
        assert(s.subrange(n + 1, n + 3) =~= seq!['래', '요']);
    }
    assert(swallowed(s, 0, n + 1) == 1);
    let cut = s.take(n);
    assert forall|k: int| 0 <= k < n implies #[trigger] cut[k] == spoken(v[k]) by {
        assert(s[k] == h[k]);
    }
    lemma_spoken_run(cut, v, 0, n);
    let tokens = tokens_from(cut, 0);
    assert forall|k: int| 0 <= k < n implies #[trigger] tokens[k] == Token::Digit((v[k] as int - 48) as u8) by {
        assert(tokens[k] == Token::Digit((v[0 + k] as int - 48) as u8));
    }
    lemma_digit_words(tokens, v);
    let read = read_run(s, 0, n + 1, cfg);
    assert(read is Some);
    let (digits, rule, f) = read.unwrap();
    assert(digits == v && f == n);
    assert forall|k: int| n + 1 <= k < s.len() implies #[trigger] token_at(s, k) is None by {
        assert(k == n + 1 || k == n + 2);
    }
    lemma_hangul_leaves(s, n + 1, cfg);
    let step = reading(s.subrange(0, n), digits, rule);
    let kept = keeps(s.subrange(n, n + 1));
    let rest = hangul_steps(s, n + 1, cfg);
    lemma_keeps(s.subrange(n, n + 1));
    lemma_of_add(kept, rest);
    lemma_of_add(seq![step], kept + rest);
    lemma_of_single(step);
    assert(v + (s.subrange(n, n + 1) + s.skip(n + 1)) =~= v + seq!['이', '래', '요']);
}

} // verus!
