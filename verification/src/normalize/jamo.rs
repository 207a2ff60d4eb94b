//! Composing jamo undoes decomposing syllables.

use vstd::prelude::*;
use crate::normalize::nfc::{
    composed, is_lead, is_open_syllable, is_trail, is_vowel, nfc_steps, RULE_JAMO,
};
use crate::span::builder::replacement;
use crate::span::steps::{dst_of, lemma_of_add, lemma_of_single, Step};

verus! {

broadcast use crate::text::lemma_text_char_range;

/// A Hangul syllable.
pub open spec fn is_syllable(c: char) -> bool {
    0xAC00 <= c as u32 <= 0xD7A3
}

/// The canonical decomposition of a syllable: its number divided by 588 is the leading consonant,
/// the rest divided by 28 the vowel, and what is left the trailing consonant, if not zero.
pub open spec fn decomposed(c: char) -> Seq<char> {
    let s = c as int - 0xAC00;
    let lead = (0x1100 + s / 588) as char;
    let vowel = (0x1161 + (s % 588) / 28) as char;
    if s % 28 == 0 {
        seq![lead, vowel]
    } else {
        seq![lead, vowel, (0x11A7 + s % 28) as char]
    }
}

/// A text with every syllable decomposed.
pub open spec fn decomposed_text(s: Seq<char>) -> Seq<char>
    decreases s.len(),
{
    if s.len() == 0 {
        Seq::empty()
    } else {
        (if is_syllable(s[0]) {
            decomposed(s[0])
        } else {
            seq![s[0]]
        }) + decomposed_text(s.drop_first())
    }
}

/// A text holds no loose jamo.
pub open spec fn no_jamo(s: Seq<char>) -> bool {
    forall|i: int| 0 <= i < s.len() ==> !is_jamo(#[trigger] s[i])
}

/// A conjoining jamo of modern Hangul.
pub open spec fn is_jamo(c: char) -> bool {
    let v = c as u32;
    0x1100 <= v <= 0x1112 || 0x1161 <= v <= 0x1175 || 0x11A8 <= v <= 0x11C2
}

/// The numbers of the jamo of a syllable.
proof fn lemma_parts(c: char)
    requires
        is_syllable(c),
    ensures
        ({
            let s = c as int - 0xAC00;
            let d = decomposed(c);
            &&& 0 <= s / 588 <= 18
            &&& 0 <= (s % 588) / 28 <= 20
            &&& 0 <= s % 28 <= 27
            &&& s == (s / 588 * 21 + (s % 588) / 28) * 28 + s % 28
            &&& d[0] as int == 0x1100 + s / 588
            &&& d[1] as int == 0x1161 + (s % 588) / 28
            &&& s % 28 != 0 ==> d[2] as int == 0x11A7 + s % 28
        }),
{
    let s = c as int - 0xAC00;
    assert(0 <= s <= 11171);
    assert((s % 588) % 28 == s % 28) by {
        assert(s == 588 * (s / 588) + s % 588);
    }
}

/// Composing at the beginning of a decomposed syllable gives the syllable, unless a trailing
/// consonant follows a syllable that has none.
proof fn lemma_composed_back(w: Seq<char>, i: int, c: char)
    requires
        is_syllable(c),
        0 <= i,
        i + decomposed(c).len() <= w.len(),
        w.subrange(i, i + decomposed(c).len()) == decomposed(c),
        i + decomposed(c).len() < w.len() ==> !is_trail(w[i + decomposed(c).len()]),
    ensures
        composed(w, i) == Some((c, decomposed(c).len() as int)),
{
    let d = decomposed(c);
    let n = d.len() as int;
    lemma_parts(c);
    assert(w[i] == w.subrange(i, i + n)[0]);
    assert(w[i + 1] == w.subrange(i, i + n)[1]);
    if n == 3 {
        assert(w[i + 2] == w.subrange(i, i + n)[2]);
    }
    assert(is_lead(w[i]));
    assert(is_vowel(w[i + 1]));
    let s = c as int - 0xAC00;
    assert((0xAC00 + (s / 588 * 21 + (s % 588) / 28) * 28 + s % 28) as char == c);
}

proof fn lemma_first_jamo(s: Seq<char>)
    requires
        s.len() > 0,
        no_jamo(s),
    ensures
        decomposed_text(s).len() > 0,
        !is_trail(decomposed_text(s)[0]),
{
    assert(!is_jamo(s[0]));
    if is_syllable(s[0]) {
        lemma_parts(s[0]);
    }
}

proof fn lemma_composes_from(t: Seq<char>, w: Seq<char>, i: int)
    requires
        no_jamo(t),
        0 <= i <= w.len(),
        w.skip(i) == decomposed_text(t),
    ensures
        dst_of(nfc_steps(w, i)) == t,
    decreases t.len(),
{
    if t.len() > 0 {
        let c = t[0];
        let rest = t.drop_first();
        let head = if is_syllable(c) {
            decomposed(c)
        } else {
            seq![c]
        };
        let n = head.len() as int;
        let all = decomposed_text(t);
        assert(all == head + decomposed_text(rest));
        assert(no_jamo(rest)) by {
            assert forall|k: int| 0 <= k < rest.len() implies !is_jamo(#[trigger] rest[k]) by {
                assert(!is_jamo(t[k + 1]));
            }
        }
        assert(w.skip(i + n) =~= w.skip(i).skip(n));
        assert(all.skip(n) =~= decomposed_text(rest));
        lemma_composes_from(rest, w, i + n);
        assert(w[i] == all[0]);
        if i + n < w.len() {
            assert(w[i + n] == decomposed_text(rest)[0]) by {
                assert(w.skip(i)[n] == w[i + n]);
                assert(all[n] == decomposed_text(rest)[0]);
            }
            assert(rest.len() > 0);
            lemma_first_jamo(rest);
        }
        assert(!is_jamo(c));
        let step = if is_syllable(c) {
            assert(w.subrange(i, i + n) =~= head) by {
                assert(w.skip(i).take(n) =~= head);
                assert(w.skip(i).take(n) =~= w.subrange(i, i + n));
            }
            lemma_composed_back(w, i, c);
            replacement(w.subrange(i, i + n), seq![c], RULE_JAMO@)
        } else {
            assert(w[i] == c);
            assert(composed(w, i) is None);
            Step::Keep { c }
        };
        assert(nfc_steps(w, i) == seq![step] + nfc_steps(w, i + n));
        lemma_of_add(seq![step], nfc_steps(w, i + n));
        lemma_of_single(step);
        assert(t =~= seq![c] + rest);
    } else {
        assert(w.skip(i).len() == 0);
        assert(dst_of(nfc_steps(w, i)) =~= t);
    }
}

/// Composing undoes decomposing: a text whose syllables arrive as jamo becomes the text again.
pub proof fn law_decomposed_texts_compose_back(t: Seq<char>)
    requires
        no_jamo(t),
    ensures
        dst_of(nfc_steps(decomposed_text(t), 0)) == t,
{
    let w = decomposed_text(t);
    assert(w.skip(0) =~= w);
    lemma_composes_from(t, w, 0);
}

proof fn lemma_composed_stays(t: Seq<char>, i: int)
    requires
        no_jamo(t),
        0 <= i <= t.len(),
    ensures
        dst_of(nfc_steps(t, i)) == t.skip(i),
    decreases t.len() - i,
{
    if i < t.len() {
        lemma_composed_stays(t, i + 1);
        assert(!is_jamo(t[i]));
        if i + 1 < t.len() {
            assert(!is_jamo(t[i + 1]));
        }
        let step = Step::Keep { c: t[i] };
        lemma_of_add(seq![step], nfc_steps(t, i + 1));
        lemma_of_single(step);
        assert(t.skip(i) =~= seq![t[i]] + t.skip(i + 1));
    } else {
        assert(t.skip(i) =~= Seq::<char>::empty());
    }
}

/// A text without loose jamo stays as it is.
pub proof fn law_composed_texts_stay(t: Seq<char>)
    requires
        no_jamo(t),
    ensures
        dst_of(nfc_steps(t, 0)) == t,
{
    lemma_composed_stays(t, 0);
    assert(t.skip(0) =~= t);
}

/// A syllable that arrives as the syllable without its trailing consonant, and that consonant as a
/// jamo, is composed too.
pub proof fn law_trailing_consonants_join(c: char, w: Seq<char>, i: int)
    requires
        is_syllable(c),
        (c as int - 0xAC00) % 28 != 0,
        0 <= i,
        i + 1 < w.len(),
        w[i] as int == c as int - (c as int - 0xAC00) % 28,
        w[i + 1] as int == 0x11A7 + (c as int - 0xAC00) % 28,
    ensures
        composed(w, i) == Some((c, 2int)),
{
    let s = c as int - 0xAC00;
    assert((s - s % 28) % 28 == 0);
    assert(is_open_syllable(w[i]));
    assert(is_trail(w[i + 1]));
    assert((w[i] as int + (w[i + 1] as int - 0x11A7)) as char == c);
}

/// Different syllables have different decompositions.
pub proof fn law_decompositions_differ(a: char, b: char)
    requires
        is_syllable(a),
        is_syllable(b),
        decomposed(a) == decomposed(b),
    ensures
        a == b,
{
    law_decomposed_texts_compose_back(seq![a]);
    law_decomposed_texts_compose_back(seq![b]);
    reveal_with_fuel(decomposed_text, 2);
    assert(seq![a].drop_first() =~= Seq::<char>::empty());
    assert(seq![b].drop_first() =~= Seq::<char>::empty());
    assert(seq![a][0] == a && seq![b][0] == b);
    assert(decomposed_text(seq![a]) =~= decomposed_text(seq![b]));
}

/// Nothing can be composed at position `i`: no vowel follows a leading consonant there, and no
/// trailing consonant a syllable that has none.
pub open spec fn is_loose(t: Seq<char>, i: int) -> bool {
    let v = t[i] as u32;
    let next = if i + 1 < t.len() {
        t[i + 1] as u32
    } else {
        0
    };
    &&& !(0x1100 <= v <= 0x1112 && 0x1161 <= next <= 0x1175)
    &&& !(0xAC00 <= v <= 0xD7A3 && (v - 0xAC00) % 28 == 0 && 0x11A8 <= next <= 0x11C2)
}

proof fn lemma_loose_stays(t: Seq<char>, i: int)
    requires
        forall|k: int| 0 <= k < t.len() ==> #[trigger] is_loose(t, k),
        0 <= i <= t.len(),
    ensures
        dst_of(nfc_steps(t, i)) == t.skip(i),
    decreases t.len() - i,
{
    if i < t.len() {
        lemma_loose_stays(t, i + 1);
        assert(is_loose(t, i));
        let step = Step::Keep { c: t[i] };
        assert(composed(t, i) is None);
        lemma_of_add(seq![step], nfc_steps(t, i + 1));
        lemma_of_single(step);
        assert(t.skip(i) =~= seq![t[i]] + t.skip(i + 1));
    } else {
        assert(t.skip(i) =~= Seq::<char>::empty());
    }
}

/// Jamo that form no syllable stay as they are.
pub proof fn law_loose_jamo_stay(t: Seq<char>)
    requires
        forall|k: int| 0 <= k < t.len() ==> #[trigger] is_loose(t, k),
    ensures
        dst_of(nfc_steps(t, 0)) == t,
{
    lemma_loose_stays(t, 0);
    assert(t.skip(0) =~= t);
}

} // verus!
