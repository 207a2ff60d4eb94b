//! What holds of every masked text.

use vstd::prelude::*;
use crate::detect::verdict::FindingModel;
use crate::detect::entity::EntityKind;
use crate::mask::policy::{Policy, PolicySet};
use crate::mask::render::rendered;
use crate::mask::restore::{
    is_first_free, lemma_decimal_digits, lemma_decimal_value, number, opening, originals,
    prefix_name, restored, token, Restored, RestoreMap,
};
use crate::mask::{
    applied_of, applied_to, applies, cursor_at, end_before, entry_list, lemma_boundary_index,
    lemma_index_order, lemma_sorted_len, lemma_sorted_on_characters, on_characters, replacement_of,
    replacements_of, sorted, stretch_of, stretches_of, token_count, tokens_of, weave, woven,
    MaskOutput,
};
use crate::text::{decimal, first_from, is_digit, lemma_first_from_is, occurs, stands_at, utf8_len};

verus! {

broadcast use crate::text::lemma_text_char_range;

/// Stretches follow each other inside a text.
pub open spec fn in_sequence(t: Seq<char>, stretches: Seq<(int, int)>) -> bool {
    forall|k: int| #![trigger stretches[k]]
        0 <= k < stretches.len() ==> 0 <= end_before(stretches, k) <= stretches[k].0 <= stretches[k].1 <= t.len()
}

/// The findings that apply follow each other.
pub proof fn lemma_applied_in_sequence(t: Seq<char>, ms: Seq<FindingModel>, n: int)
    requires
        on_characters(t, ms),
        0 <= n <= ms.len(),
    ensures
        in_sequence(t, stretches_of(t, applied_of(ms, utf8_len(t) as int, n))),
        ({
            let s = stretches_of(t, applied_of(ms, utf8_len(t) as int, n));
            let e = end_before(s, s.len() as int);
            &&& 0 <= e <= t.len()
            &&& utf8_len(t.take(e)) == cursor_at(ms, utf8_len(t) as int, n)
        }),
        cursor_at(ms, utf8_len(t) as int, n) >= 0,
    decreases n,
{
    let len = utf8_len(t) as int;
    if n == 0 {
        assert(t.take(0) =~= Seq::<char>::empty());
    } else {
        lemma_applied_in_sequence(t, ms, n - 1);
        let f = ms[n - 1];
        let prev = applied_of(ms, len, n - 1);
        if applies(f, cursor_at(ms, len, n - 1), len) {
            let all = applied_of(ms, len, n);
            let s = stretches_of(t, all);
            let p = stretches_of(t, prev);
            let m = prev.len() as int;
            lemma_boundary_index(t, f.source.byte.start as int);
            lemma_boundary_index(t, f.source.byte.end as int);
            let (a, b) = stretch_of(t, f);
            lemma_index_order(t, end_before(p, m), a);
            lemma_index_order(t, a, b);
            assert(s[m] == (a, b));
            assert forall|k: int| #![trigger s[k]] 0 <= k < s.len() implies 0 <= end_before(s, k) <= s[k].0 <= s[k].1
                <= t.len() by {
                if k < m {
                    assert(s[k] == p[k]);
                    if k > 0 {
                        assert(s[k - 1] == p[k - 1]);
                    }
                } else {
                    if m > 0 {
                        assert(s[m - 1] == p[m - 1]);
                    }
                }
            }
        }
    }
}

/// The originals of stretches.
pub open spec fn parts(t: Seq<char>, stretches: Seq<(int, int)>) -> Seq<Seq<char>> {
    Seq::new(stretches.len(), |k: int| t.subrange(stretches[k].0, stretches[k].1))
}

proof fn lemma_weave_originals(t: Seq<char>, stretches: Seq<(int, int)>, n: int)
    requires
        in_sequence(t, stretches),
        0 <= n <= stretches.len(),
    ensures
        weave(t, stretches, parts(t, stretches), n) == t.take(end_before(stretches, n)),
        0 <= end_before(stretches, n) <= t.len(),
    decreases n,
{
    if n == 0 {
        assert(weave(t, stretches, parts(t, stretches), n) =~= t.take(0));
    } else {
        lemma_weave_originals(t, stretches, n - 1);
        let s = stretches[n - 1];
        assert(t.take(end_before(stretches, n - 1)) + t.subrange(end_before(stretches, n - 1), s.0) + t.subrange(s.0, s.1)
            =~= t.take(s.1));
    }
}

/// Masking leaves everything outside of the findings as it is: the masked text is the source with
/// pieces in place of stretches, and with the originals in those places it is the source itself.
pub proof fn law_text_outside_findings_is_untouched(t: Seq<char>, fs: Seq<FindingModel>, policies: PolicySet, out: MaskOutput)
    requires
        on_characters(t, fs),
        out.masks(t, fs, policies),
    ensures
        ({
            let stretches = stretches_of(t, applied_to(t, fs));
            &&& in_sequence(t, stretches)
            &&& exists|pieces: Seq<Seq<char>>|
                pieces.len() == stretches.len() && out.text@ == #[trigger] woven(t, stretches, pieces)
            &&& woven(t, stretches, parts(t, stretches)) == t
        }),
{
    let ms = sorted(fs);
    let applied = applied_to(t, fs);
    let stretches = stretches_of(t, applied);
    let n = stretches.len() as int;
    lemma_sorted_len(fs);
    lemma_sorted_on_characters(t, fs);
    lemma_applied_in_sequence(t, ms, fs.len() as int);
    lemma_weave_originals(t, stretches, n);
    assert(woven(t, stretches, parts(t, stretches)) =~= t);
    match out.restore {
        Some(map) => {
            let pieces = replacements_of(t, applied, policies, map.prefix@);
            assert(pieces.len() == stretches.len() && out.text@ == woven(t, stretches, pieces));
        },
        None => {
            let pieces = replacements_of(t, applied, policies, Seq::empty());
            assert(pieces.len() == stretches.len() && out.text@ == woven(t, stretches, pieces));
        },
    }
}

/// The woven text from the end of the first `k` stretches on.
spec fn rest(t: Seq<char>, stretches: Seq<(int, int)>, pieces: Seq<Seq<char>>, k: int) -> Seq<char>
    decreases stretches.len() - k,
{
    if k < 0 || k >= stretches.len() {
        t.skip(end_before(stretches, stretches.len() as int))
    } else {
        t.subrange(end_before(stretches, k), stretches[k].0) + pieces[k] + rest(t, stretches, pieces, k + 1)
    }
}

proof fn lemma_weave_rest(t: Seq<char>, stretches: Seq<(int, int)>, pieces: Seq<Seq<char>>, k: int)
    requires
        0 <= k <= stretches.len(),
        pieces.len() == stretches.len(),
    ensures
        woven(t, stretches, pieces) == weave(t, stretches, pieces, k) + rest(t, stretches, pieces, k),
    decreases stretches.len() - k,
{
    if k < stretches.len() {
        lemma_weave_rest(t, stretches, pieces, k + 1);
        let w = weave(t, stretches, pieces, k);
        let gap = t.subrange(end_before(stretches, k), stretches[k].0);
        let r = rest(t, stretches, pieces, k + 1);
        assert(w + gap + pieces[k] + r =~= w + (gap + pieces[k] + r));
    }
}

/// A prefix begins with a capital and holds no bracket.
proof fn lemma_prefix_shape(k: nat)
    ensures
        prefix_name(k).len() >= 3,
        forall|i: int| 0 <= i < prefix_name(k).len() ==> #[trigger] prefix_name(k)[i] != '[',
{
    reveal_strlit("PII");
    if k > 0 {
        lemma_decimal_digits((k - 1) as nat);
        let d = decimal((k - 1) as nat);
        let name = prefix_name(k);
        assert forall|i: int| 0 <= i < name.len() implies #[trigger] name[i] != '[' by {
            if i >= 3 {
                assert(name[i] == d[i - 3]);
            }
        }
    }
}

/// The first opening of a text that goes on with a token is that of the token.
proof fn lemma_first_opening(t: Seq<char>, prefix: Seq<char>, k: nat, a: int, b: int, n: nat, tail: Seq<char>)
    requires
        0 <= a <= b <= t.len(),
        !occurs(t, opening(prefix)),
        prefix == prefix_name(k),
    ensures
        first_from(t.subrange(a, b) + token(prefix, n) + tail, opening(prefix), 0) == Some(b - a),
{
    reveal_strlit("[[");
    reveal_strlit(":");
    reveal_strlit("]]");
    lemma_prefix_shape(k);
    let open = opening(prefix);
    let gap = t.subrange(a, b);
    let w = gap + token(prefix, n) + tail;
    let m = b - a;
    assert(open[0] == '[' && open[1] == '[');
    assert(open[2] == prefix[0]);
    assert(w.subrange(m, m + open.len()) =~= open);
    assert(w[m] == '[' && w[m + 1] == '[') by {
        assert(w[m] == open[0]);
        assert(w[m + 1] == open[1]);
    }
    assert forall|p: int| 0 <= p < m implies !#[trigger] stands_at(w, p, open) by {
        if stands_at(w, p, open) {
            let found = w.subrange(p, p + open.len());
            assert(found == open);
            if p + open.len() <= m {
                assert(t.subrange(a + p, a + p + open.len()) =~= found);
                assert(stands_at(t, a + p, open));
            } else {
                let s = m - p;
                assert(found[s] == w[m]);
                assert(open[s] == '[');
                if s >= 2 {
                    if s < open.len() - 1 {
                        assert(open[s] == prefix[s - 2]);
                    } else {
                        assert(open[s] == ':');
                    }
                }
                assert(s == 1);
                assert(found[2] == w[m + 1]);
                assert(prefix[0] != '[');
            }
        }
    }
    lemma_first_from_is(w, open, 0, m);
}

/// A token is closed right behind its number, and holds its number.
proof fn lemma_token_number(n: nat, tail: Seq<char>)
    requires
        n <= usize::MAX,
    ensures
        first_from(decimal(n) + "]]"@ + tail, "]]"@, 0) == Some(decimal(n).len() as int),
        number(decimal(n)) == Some(n),
{
    reveal_strlit("]]");
    lemma_decimal_digits(n);
    lemma_decimal_value(n);
    let d = decimal(n);
    let w = d + "]]"@ + tail;
    let m = d.len() as int;
    assert(w.subrange(m, m + 2) =~= "]]"@);
    assert forall|p: int| 0 <= p < m implies !#[trigger] stands_at(w, p, "]]"@) by {
        if stands_at(w, p, "]]"@) {
            assert(w.subrange(p, p + 2)[0] == ']');
            assert(w[p] == d[p]);
        }
    }
    lemma_first_from_is(w, "]]"@, 0, m);
    assert(is_digit(d[0]));
}

/// Restoring one token and what follows it.
proof fn lemma_restore_one(
    t: Seq<char>,
    prefix: Seq<char>,
    k: nat,
    table: Seq<Seq<char>>,
    a: int,
    b: int,
    n: nat,
    tail: Seq<char>,
    done: Seq<char>,
)
    requires
        0 <= a <= b <= t.len(),
        !occurs(t, opening(prefix)),
        prefix == prefix_name(k),
        n < table.len(),
        n <= usize::MAX,
        restored(tail, prefix, table) == Restored::Text(done),
    ensures
        restored(t.subrange(a, b) + token(prefix, n) + tail, prefix, table) == Restored::Text(
            t.subrange(a, b) + table[n as int] + done,
        ),
{
    let open = opening(prefix);
    let gap = t.subrange(a, b);
    let w = gap + token(prefix, n) + tail;
    let d = decimal(n);
    lemma_first_opening(t, prefix, k, a, b, n, tail);
    lemma_token_number(n, tail);
    reveal_strlit("]]");
    let behind = w.skip((b - a) + open.len());
    assert(behind =~= d + "]]"@ + tail);
    assert(behind.take(d.len() as int) =~= d);
    assert(behind.skip((d.len() + 2) as int) =~= tail);
    assert(w.take(b - a) =~= gap);
}

/// Restoring from any stretch on gives the source from there on.
proof fn lemma_restore_from(
    t: Seq<char>,
    stretches: Seq<(int, int)>,
    pieces: Seq<Seq<char>>,
    prefix: Seq<char>,
    k: nat,
    table: Seq<Seq<char>>,
    i: int,
)
    requires
        in_sequence(t, stretches),
        0 <= i <= stretches.len(),
        0 <= end_before(stretches, stretches.len() as int) <= t.len(),
        pieces.len() == stretches.len(),
        table.len() == stretches.len(),
        table.len() <= usize::MAX,
        prefix == prefix_name(k),
        !occurs(t, opening(prefix)),
        forall|j: int| #![trigger pieces[j]] 0 <= j < pieces.len() ==> pieces[j] == token(prefix, j as nat),
        forall|j: int| #![trigger table[j]] 0 <= j < table.len() ==> table[j] == t.subrange(stretches[j].0, stretches[j].1),
    ensures
        restored(rest(t, stretches, pieces, i), prefix, table) == Restored::Text(t.skip(end_before(stretches, i))),
    decreases stretches.len() - i,
{
    let open = opening(prefix);
    if i == stretches.len() {
        let e = end_before(stretches, i);
        let tail = t.skip(e);
        crate::text::lemma_first_from(tail, open, 0);
        if first_from(tail, open, 0) is Some {
            let p = first_from(tail, open, 0).unwrap();
            assert(tail.subrange(p, p + open.len()) =~= t.subrange(e + p, e + p + open.len()));
            assert(stands_at(t, e + p, open));
        }
    } else {
        lemma_restore_from(t, stretches, pieces, prefix, k, table, i + 1);
        let a = end_before(stretches, i);
        let s = stretches[i];
        assert(pieces[i] == token(prefix, i as nat));
        assert(table[i] == t.subrange(s.0, s.1));
        lemma_restore_one(t, prefix, k, table, a, s.0, i as nat, rest(t, stretches, pieces, i + 1), t.skip(s.1));
        assert(t.subrange(a, s.0) + t.subrange(s.0, s.1) + t.skip(s.1) =~= t.skip(a));
    }
}

/// If all findings become tokens, they are numbered one by one.
proof fn lemma_all_tokens(t: Seq<char>, fs: Seq<FindingModel>, policies: PolicySet, prefix: Seq<char>, n: int)
    requires
        0 <= n <= fs.len(),
        forall|k: int| 0 <= k < fs.len() ==> policies.assigned((#[trigger] fs[k]).entity) is Tokenize,
    ensures
        token_count(fs, policies, n) == n,
        tokens_of(t, fs, policies, prefix, n).len() == n,
        forall|k: int| #![trigger tokens_of(t, fs, policies, prefix, n)[k]]
            0 <= k < n ==> tokens_of(t, fs, policies, prefix, n)[k].1 == t.subrange(
                stretch_of(t, fs[k]).0,
                stretch_of(t, fs[k]).1,
            ),
    decreases n,
{
    if n > 0 {
        lemma_all_tokens(t, fs, policies, prefix, n - 1);
        assert(policies.assigned(fs[n - 1].entity) is Tokenize);
    }
}

/// Whatever was masked with tokens is restored exactly: restoring the masked text gives the source.
pub proof fn law_tokens_restore_the_source(
    t: Seq<char>,
    fs: Seq<FindingModel>,
    policies: PolicySet,
    out: MaskOutput,
    map: RestoreMap,
)
    requires
        on_characters(t, fs),
        out.masks(t, fs, policies),
        out.restore == Some(map),
        forall|k: int|
            0 <= k < applied_to(t, fs).len() ==> policies.assigned((#[trigger] applied_to(t, fs)[k]).entity) is Tokenize,
    ensures
        restored(out.text@, map.prefix@, originals(map.entries@)) == Restored::Text(t),
{
    let ms = sorted(fs);
    let applied = applied_to(t, fs);
    let stretches = stretches_of(t, applied);
    let prefix = map.prefix@;
    let pieces = replacements_of(t, applied, policies, prefix);
    let table = originals(map.entries@);
    let n = applied.len() as int;
    lemma_sorted_len(fs);
    lemma_sorted_on_characters(t, fs);
    lemma_applied_in_sequence(t, ms, fs.len() as int);
    let k = choose|k: nat| #[trigger] is_first_free(t, prefix, k);
    lemma_all_tokens(t, applied, policies, prefix, n);
    let list = entry_list(map.entries@);
    assert(list.len() == map.entries@.len());
    assert(map.entries.len() == map.entries@.len());
    assert forall|j: int| #![trigger pieces[j]] 0 <= j < pieces.len() implies pieces[j] == token(prefix, j as nat) by {
        assert(pieces[j] == replacement_of(t, applied, policies, prefix, j));
        lemma_all_tokens(t, applied, policies, prefix, j);
        assert(policies.assigned(applied[j].entity) is Tokenize);
    }
    assert forall|j: int| #![trigger table[j]] 0 <= j < table.len() implies table[j] == t.subrange(
        stretches[j].0,
        stretches[j].1,
    ) by {
        assert(list[j].1 == map.entries@[j].original@);
        assert(tokens_of(t, applied, policies, prefix, n)[j].1 == t.subrange(
            stretch_of(t, applied[j]).0,
            stretch_of(t, applied[j]).1,
        ));
    }
    lemma_restore_from(t, stretches, pieces, prefix, k, table, 0);
    lemma_weave_rest(t, stretches, pieces, 0);
    assert(weave(t, stretches, pieces, 0) + rest(t, stretches, pieces, 0) =~= rest(t, stretches, pieces, 0));
    assert(t.skip(0) =~= t);
}

/// Equal values of one kind become equal pseudonyms, wherever they stand and however many tokens
/// came before.
pub proof fn law_equal_values_become_equal_pseudonyms(
    policy: Policy,
    original: Seq<char>,
    entity: EntityKind,
    prefix: Seq<char>,
    n: nat,
    other_prefix: Seq<char>,
    m: nat,
)
    requires
        policy is Hash,
    ensures
        rendered(policy, original, entity, prefix, n) == rendered(policy, original, entity, other_prefix, m),
{
}

/// A text in which no token begins is restored as it is, whatever the map holds.
pub proof fn law_texts_without_tokens_stay(t: Seq<char>, prefix: Seq<char>, table: Seq<Seq<char>>)
    requires
        !occurs(t, opening(prefix)),
    ensures
        restored(t, prefix, table) == Restored::Text(t),
{
    crate::text::lemma_first_from(t, opening(prefix), 0);
    if first_from(t, opening(prefix), 0) is Some {
        assert(stands_at(t, first_from(t, opening(prefix), 0).unwrap(), opening(prefix)));
    }
}

/// A token whose number is not in the map is never passed over: restoring fails.
pub proof fn law_unknown_tokens_are_refused(gap: Seq<char>, k: nat, n: nat, tail: Seq<char>, table: Seq<Seq<char>>)
    requires
        !occurs(gap, opening(prefix_name(k))),
        n >= table.len(),
        n <= usize::MAX,
    ensures
        restored(gap + token(prefix_name(k), n) + tail, prefix_name(k), table) is Failed,
{
    let prefix = prefix_name(k);
    let open = opening(prefix);
    let w = gap + token(prefix, n) + tail;
    let d = decimal(n);
    assert(gap.subrange(0, gap.len() as int) =~= gap);
    lemma_first_opening(gap, prefix, k, 0, gap.len() as int, n, tail);
    lemma_token_number(n, tail);
    reveal_strlit("]]");
    let behind = w.skip((gap.len() + open.len()) as int);
    assert(behind =~= d + "]]"@ + tail);
    assert(behind.take(d.len() as int) =~= d);
}

/// A token is restored to what it stands for, and then the text goes on: what comes back of a text
/// that begins with a gap and a token is the gap, the value, and what comes back of the rest.
pub proof fn law_tokens_are_restored_one_by_one(
    gap: Seq<char>,
    k: nat,
    n: nat,
    tail: Seq<char>,
    table: Seq<Seq<char>>,
    done: Seq<char>,
)
    requires
        !occurs(gap, opening(prefix_name(k))),
        n < table.len(),
        n <= usize::MAX,
        restored(tail, prefix_name(k), table) == Restored::Text(done),
    ensures
        restored(gap + token(prefix_name(k), n) + tail, prefix_name(k), table) == Restored::Text(
            gap + table[n as int] + done,
        ),
{
    assert(gap.subrange(0, gap.len() as int) =~= gap);
    lemma_restore_one(gap, prefix_name(k), k, table, 0, gap.len() as int, n, tail, done);
}

/// The number of a token may have a plus sign before it, and zeros in front.
pub proof fn law_token_numbers_are_read(n: nat)
    requires
        n <= usize::MAX,
    ensures
        number(decimal(n)) == Some(n),
        number(seq!['+'] + decimal(n)) == Some(n),
        number(Seq::empty()) is None,
        number(seq!['-'] + decimal(n)) is None,
{
    lemma_token_number(n, Seq::empty());
    lemma_decimal_digits(n);
    lemma_decimal_value(n);
    let plus = seq!['+'] + decimal(n);
    assert(plus.drop_first() =~= decimal(n));
    let minus = seq!['-'] + decimal(n);
    assert(!is_digit(minus[0]));
}

} // verus!
