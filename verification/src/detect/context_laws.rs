//! What the words around a value are, and how near they stand.

use vstd::prelude::*;
use crate::detect::context::{
    hits_of, law_ranking_orders, nearest, nearest_before, nearest_behind, ranked, ContextHit, Cue,
    Dictionary,
};
use crate::detect::entity::EntityKind;
use crate::text::{lemma_lex_total, lex_less, stands_at};

verus! {

broadcast use crate::text::lemma_text_char_range;

/// A word begins at position `p`.
pub open spec fn reads(t: Seq<char>, p: int, word: Seq<char>) -> bool {
    0 <= p && p + word.len() <= t.len() && forall|k: int| 0 <= k < word.len() ==> #[trigger] t[p + k] == word[k]
}

/// A word ends `d` characters before position `a`, and lies in the window before it.
pub open spec fn ends_before(t: Seq<char>, a: int, window: int, word: Seq<char>, d: int) -> bool {
    d >= 0 && d + word.len() <= window && reads(t, a - d - word.len(), word)
}

/// A word begins `d` characters behind position `e`, and lies in the window behind it.
pub open spec fn begins_behind(t: Seq<char>, e: int, window: int, word: Seq<char>, d: int) -> bool {
    d >= 0 && d + word.len() <= window && reads(t, e + d, word)
}

/// A word stands at a distance of `d` characters.
pub open spec fn stands_near(t: Seq<char>, a: int, e: int, window: int, word: Seq<char>, d: int) -> bool {
    ends_before(t, a, window, word, d) || begins_behind(t, e, window, word, d)
}

proof fn lemma_reads(t: Seq<char>, p: int, word: Seq<char>)
    ensures
        reads(t, p, word) == stands_at(t, p, word),
{
    if stands_at(t, p, word) {
        assert forall|k: int| 0 <= k < word.len() implies #[trigger] t[p + k] == word[k] by {
            assert(t.subrange(p, p + word.len())[k] == word[k]);
        }
    }
    if reads(t, p, word) {
        assert forall|k: int| 0 <= k < word.len() implies t.subrange(p, p + word.len())[k] == word[k] by {
            assert(t[p + k] == word[k]);
        }
        assert(t.subrange(p, p + word.len()) =~= word);
    }
}

proof fn lemma_nearest_before(t: Seq<char>, a: int, w: int, word: Seq<char>, d: int)
    requires
        0 <= a <= t.len(),
        0 <= d,
    ensures
        nearest_before(t, a, w, word, d) matches Some(x) ==> x >= d && ends_before(t, a, w, word, x) && forall|y: int|
            d <= y < x ==> !#[trigger] ends_before(t, a, w, word, y),
        nearest_before(t, a, w, word, d) is None ==> forall|y: int| d <= y ==> !#[trigger] ends_before(t, a, w, word, y),
    decreases a - d + 1,
{
    lemma_reads(t, a - d - word.len(), word);
    if d + word.len() <= w && d + word.len() <= a && !stands_at(t, a - d - word.len(), word) {
        lemma_nearest_before(t, a, w, word, d + 1);
        assert(!ends_before(t, a, w, word, d));
    }
}

proof fn lemma_nearest_behind(t: Seq<char>, e: int, w: int, word: Seq<char>, d: int)
    requires
        0 <= e <= t.len(),
        0 <= d,
    ensures
        nearest_behind(t, e, w, word, d) matches Some(x) ==> x >= d && begins_behind(t, e, w, word, x) && forall|y: int|
            d <= y < x ==> !#[trigger] begins_behind(t, e, w, word, y),
        nearest_behind(t, e, w, word, d) is None ==> forall|y: int| d <= y ==> !#[trigger] begins_behind(t, e, w, word, y),
    decreases t.len() - e - d + 1,
{
    lemma_reads(t, e + d, word);
    if d + word.len() <= w && e + d + word.len() <= t.len() && !stands_at(t, e + d, word) {
        lemma_nearest_behind(t, e, w, word, d + 1);
        assert(!begins_behind(t, e, w, word, d));
    }
}

/// The distance of a word is the least at which it stands in the window on either side. Where it
/// stands at none, it is not found.
pub proof fn law_the_nearest_place_counts(t: Seq<char>, a: int, e: int, window: int, word: Seq<char>)
    requires
        0 <= a <= e <= t.len(),
    ensures
        nearest(t, a, e, window, word) matches Some(d) ==> stands_near(t, a, e, window, word, d) && forall|x: int|
            x < d ==> !#[trigger] stands_near(t, a, e, window, word, x),
        nearest(t, a, e, window, word) is None ==> forall|x: int| !#[trigger] stands_near(t, a, e, window, word, x),
{
    lemma_nearest_before(t, a, window, word, 0);
    lemma_nearest_behind(t, e, window, word, 0);
    assert forall|x: int| x < 0 implies !#[trigger] stands_near(t, a, e, window, word, x) by {}
    match nearest(t, a, e, window, word) {
        Some(d) => {
            assert forall|x: int| x < d implies !#[trigger] stands_near(t, a, e, window, word, x) by {
                if x >= 0 {
                    assert(!ends_before(t, a, window, word, x));
                    assert(!begins_behind(t, e, window, word, x));
                }
            }
        },
        None => {
            assert forall|x: int| !#[trigger] stands_near(t, a, e, window, word, x) by {
                if x >= 0 {
                    assert(!ends_before(t, a, window, word, x));
                    assert(!begins_behind(t, e, window, word, x));
                }
            }
        },
    }
}

/// A wider window finds a word no farther away, and finds every word that a narrower one finds.
pub proof fn law_wider_windows_find_no_less(t: Seq<char>, a: int, e: int, narrow: int, wide: int, word: Seq<char>)
    requires
        0 <= a <= e <= t.len(),
        narrow <= wide,
        nearest(t, a, e, narrow, word) is Some,
    ensures
        nearest(t, a, e, wide, word) is Some,
        nearest(t, a, e, wide, word).unwrap() <= nearest(t, a, e, narrow, word).unwrap(),
{
    law_the_nearest_place_counts(t, a, e, narrow, word);
    law_the_nearest_place_counts(t, a, e, wide, word);
    let d = nearest(t, a, e, narrow, word).unwrap();
    assert(stands_near(t, a, e, wide, word, d));
}

/// What a list of words finds is what its parts find, one after the other. A single word that
/// stands near is found once, at its least distance.
pub proof fn law_words_are_found_one_by_one(t: Seq<char>, a: int, e: int, window: int, first: Seq<Cue>, cue: Cue)
    requires
        0 <= a <= e <= t.len(),
    ensures
        hits_of(t, a, e, window, Seq::empty()).len() == 0,
        ({
            let so_far = hits_of(t, a, e, window, first);
            let all = hits_of(t, a, e, window, first.push(cue));
            &&& (exists|d: int| #[trigger] stands_near(t, a, e, window, cue.word@, d)) <==> all.len() == so_far.len() + 1
            &&& all.take(so_far.len() as int) == so_far
            &&& all.len() == so_far.len() || (all.len() == so_far.len() + 1 && all.last().cue == cue && nearest(
                t,
                a,
                e,
                window,
                cue.word@,
            ) is Some && all.last().distance == nearest(t, a, e, window, cue.word@).unwrap() as u32)
        }),
{
    let so_far = hits_of(t, a, e, window, first);
    let all = hits_of(t, a, e, window, first.push(cue));
    assert(first.push(cue).drop_last() =~= first);
    law_the_nearest_place_counts(t, a, e, window, cue.word@);
    match nearest(t, a, e, window, cue.word@) {
        Some(d) => {
            assert(stands_near(t, a, e, window, cue.word@, d));
            assert(all.take(so_far.len() as int) =~= so_far);
        },
        None => {
            assert(all.take(so_far.len() as int) =~= so_far);
        },
    }
}

/// The dictionary of a kind.
pub open spec fn dictionary_of(kind: EntityKind) -> Option<Dictionary> {
    match kind {
        EntityKind::Resident => Some(Dictionary::Resident),
        EntityKind::ForeignerRegistration => Some(Dictionary::Foreigner),
        EntityKind::BusinessRegistration => Some(Dictionary::Business),
        EntityKind::CreditCard => Some(Dictionary::Card),
        EntityKind::BankAccount => Some(Dictionary::Account),
        EntityKind::Phone => Some(Dictionary::Phone),
        EntityKind::DriverLicense => Some(Dictionary::DriverLicense),
        EntityKind::Passport => Some(Dictionary::Passport),
        EntityKind::BirthDate => Some(Dictionary::BirthDate),
        EntityKind::Email => None,
    }
}

/// The name of a kind speaks for it, and no word weighs more.
pub proof fn law_the_name_of_a_kind_weighs_most(kind: EntityKind)
    requires
        dictionary_of(kind) is Some,
    ensures
        ({
            let list = dictionary_of(kind).unwrap().cue_list();
            &&& list[0].word@ == kind.label_text()
            &&& list[0].weight == 10
            &&& forall|i: int| 0 <= i < list.len() ==> 0 < (#[trigger] list[i]).weight <= list[0].weight
        }),
{
}

/// A word comes before another in the order of code points: the two agree up to some place, and
/// there the first one ends or has the lesser character.
pub open spec fn is_earlier_word(a: Seq<char>, b: Seq<char>) -> bool {
    exists|k: int| #[trigger] agree_up_to(a, b, k) && k < b.len() && (k == a.len() || (a[k] as u32) < (b[k] as u32))
}

/// Two words agree in their first `k` characters.
pub open spec fn agree_up_to(a: Seq<char>, b: Seq<char>, k: int) -> bool {
    0 <= k <= a.len() && k <= b.len() && forall|i: int| 0 <= i < k ==> #[trigger] a[i] == b[i]
}

proof fn lemma_earlier_word(a: Seq<char>, b: Seq<char>)
    ensures
        lex_less(a, b) ==> is_earlier_word(a, b),
    decreases a.len(),
{
    if lex_less(a, b) {
        if a.len() == 0 || a[0] != b[0] {
            assert(agree_up_to(a, b, 0));
        } else {
            let x = a.drop_first();
            let y = b.drop_first();
            lemma_earlier_word(x, y);
            let k = choose|k: int|
                #[trigger] agree_up_to(x, y, k) && k < y.len() && (k == x.len() || (x[k] as u32) < (y[k] as u32));
            assert forall|i: int| 0 <= i < k + 1 implies #[trigger] a[i] == b[i] by {
                if i > 0 {
                    assert(x[i - 1] == y[i - 1]);
                }
            }
            assert(agree_up_to(a, b, k + 1));
        }
    }
}

/// Hits are ranked by weight, the heaviest first, and equally heavy ones by their words.
pub proof fn law_heavier_words_come_first(hits: Seq<ContextHit>, i: int, j: int)
    requires
        0 <= i < j < hits.len(),
    ensures
        ({
            let a = ranked(hits)[i];
            let b = ranked(hits)[j];
            a.weight.key > b.weight.key || (a.weight.key == b.weight.key && (a.cue@ == b.cue@ || is_earlier_word(
                a.cue@,
                b.cue@,
            )))
        }),
{
    law_ranking_orders(hits);
    let a = ranked(hits)[i];
    let b = ranked(hits)[j];
    assert(!b.precedes(a));
    if a.weight.key == b.weight.key && a.cue@ != b.cue@ {
        lemma_lex_total(a.cue@, b.cue@);
        lemma_earlier_word(a.cue@, b.cue@);
    }
}

} // verus!
