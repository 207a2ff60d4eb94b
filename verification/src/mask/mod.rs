//! Masking: replacing what was found.
//!
//! Policies apply to the source. Two things hold of every masked text: outside of what was found
//! it is the source, character by character, and what was masked with tokens can be restored
//! exactly.

pub mod coverage;
pub mod laws;
pub mod pieces;
pub mod policy;
pub mod render;
pub mod restore;

use vstd::prelude::*;
use vstd::utf8::{encode_utf8, is_char_boundary};
use crate::detect::entity::EntityKind;
use crate::detect::verdict::{models, place_at, Finding, FindingModel, Report};
use crate::mask::render::{render, rendered};
use crate::mask::restore::{is_free_prefix, token};
use crate::order::{in_order, lemma_in_order_map, ordered, Placed};
use crate::text::{
    byte_len, cut, lemma_boundary_is_offset, lemma_utf8_len_split, lemma_utf8_offset_injective,
    utf8_len,
};

pub use policy::{Policy, PolicySet, Redaction};
pub use restore::{unmask, RestoreEntry, RestoreMap};

verus! {

broadcast use crate::text::lemma_text_char_range;

/// A masked text.
#[derive(Debug, Clone, PartialEq, Eq)]
pub struct MaskOutput {
    /// The masked text.
    pub text: String,
    /// What was masked, in the order of the source.
    pub applied: Vec<Finding>,
    /// What was not masked because it overlaps something masked before, or lies outside of the
    /// text.
    pub skipped: Vec<Finding>,
    /// What the tokens stand for, if a policy makes tokens.
    ///
    /// The map is personal data itself.
    pub restore: Option<RestoreMap>,
}

/// The position of the character that begins at byte `b`.
pub open spec fn index_of(t: Seq<char>, b: int) -> int {
    choose|i: int| 0 <= i <= t.len() && utf8_len(#[trigger] t.take(i)) == b
}

/// The finding lies behind byte `cursor` and inside a text of `len` bytes.
pub open spec fn applies(f: FindingModel, cursor: int, len: int) -> bool {
    cursor <= f.source.byte.start && f.source.byte.start <= f.source.byte.end <= len
}

/// Where the last of the first `n` findings that apply ends.
pub open spec fn cursor_at(fs: Seq<FindingModel>, len: int, n: int) -> int
    decreases n,
{
    if n <= 0 {
        0
    } else if applies(fs[n - 1], cursor_at(fs, len, n - 1), len) {
        fs[n - 1].source.byte.end as int
    } else {
        cursor_at(fs, len, n - 1)
    }
}

/// The findings among the first `n` that apply.
pub open spec fn applied_of(fs: Seq<FindingModel>, len: int, n: int) -> Seq<FindingModel>
    decreases n,
{
    if n <= 0 {
        Seq::empty()
    } else if applies(fs[n - 1], cursor_at(fs, len, n - 1), len) {
        applied_of(fs, len, n - 1).push(fs[n - 1])
    } else {
        applied_of(fs, len, n - 1)
    }
}

/// The findings among the first `n` that do not apply.
pub open spec fn skipped_of(fs: Seq<FindingModel>, len: int, n: int) -> Seq<FindingModel>
    decreases n,
{
    if n <= 0 {
        Seq::empty()
    } else if applies(fs[n - 1], cursor_at(fs, len, n - 1), len) {
        skipped_of(fs, len, n - 1)
    } else {
        skipped_of(fs, len, n - 1).push(fs[n - 1])
    }
}

/// Where a finding begins and ends in a text, in characters.
pub open spec fn stretch_of(t: Seq<char>, f: FindingModel) -> (int, int) {
    (index_of(t, f.source.byte.start as int), index_of(t, f.source.byte.end as int))
}

/// Where findings begin and end in a text, in characters.
pub open spec fn stretches_of(t: Seq<char>, fs: Seq<FindingModel>) -> Seq<(int, int)> {
    Seq::new(fs.len(), |i: int| stretch_of(t, fs[i]))
}

/// How many of the first `n` findings become tokens.
pub open spec fn token_count(fs: Seq<FindingModel>, policies: PolicySet, n: int) -> nat
    decreases n,
{
    if n <= 0 {
        0
    } else if policies.assigned(fs[n - 1].entity) is Tokenize {
        token_count(fs, policies, n - 1) + 1
    } else {
        token_count(fs, policies, n - 1)
    }
}

/// What takes the place of finding `k`.
pub open spec fn replacement_of(t: Seq<char>, fs: Seq<FindingModel>, policies: PolicySet, prefix: Seq<char>, k: int) -> Seq<char> {
    let s = stretch_of(t, fs[k]);
    rendered(
        policies.assigned(fs[k].entity),
        t.subrange(s.0, s.1),
        fs[k].entity,
        prefix,
        token_count(fs, policies, k),
    )
}

/// What takes the place of each finding.
pub open spec fn replacements_of(t: Seq<char>, fs: Seq<FindingModel>, policies: PolicySet, prefix: Seq<char>) -> Seq<Seq<char>> {
    Seq::new(fs.len(), |k: int| replacement_of(t, fs, policies, prefix, k))
}

/// Where the stretch before stretch `n` ends.
pub open spec fn end_before(stretches: Seq<(int, int)>, n: int) -> int {
    if n <= 0 {
        0
    } else {
        stretches[n - 1].1
    }
}

/// The text up to the end of the first `n` stretches, with pieces in place of the stretches.
pub open spec fn weave(t: Seq<char>, stretches: Seq<(int, int)>, pieces: Seq<Seq<char>>, n: int) -> Seq<char>
    decreases n,
{
    if n <= 0 {
        Seq::empty()
    } else {
        weave(t, stretches, pieces, n - 1) + t.subrange(end_before(stretches, n - 1), stretches[n - 1].0) + pieces[n - 1]
    }
}

/// The text with pieces in place of stretches of it.
pub open spec fn woven(t: Seq<char>, stretches: Seq<(int, int)>, pieces: Seq<Seq<char>>) -> Seq<char> {
    weave(t, stretches, pieces, stretches.len() as int) + t.skip(end_before(stretches, stretches.len() as int))
}

/// The tokens of the first `n` findings: the token, what it stands for, and its kind.
pub open spec fn tokens_of(
    t: Seq<char>,
    fs: Seq<FindingModel>,
    policies: PolicySet,
    prefix: Seq<char>,
    n: int,
) -> Seq<(Seq<char>, Seq<char>, EntityKind)>
    decreases n,
{
    if n <= 0 {
        Seq::empty()
    } else {
        let so_far = tokens_of(t, fs, policies, prefix, n - 1);
        let f = fs[n - 1];
        let s = stretch_of(t, f);
        if policies.assigned(f.entity) is Tokenize {
            so_far.push((token(prefix, token_count(fs, policies, n - 1)), t.subrange(s.0, s.1), f.entity))
        } else {
            so_far
        }
    }
}

/// The entries of a map.
pub open spec fn entry_list(entries: Seq<RestoreEntry>) -> Seq<(Seq<char>, Seq<char>, EntityKind)> {
    entries.map_values(|e: RestoreEntry| (e.token@, e.original@, e.entity))
}

/// Findings in the order of the source.
pub open spec fn sorted(fs: Seq<FindingModel>) -> Seq<FindingModel> {
    in_order(fs, |f: FindingModel| place_at(f.source))
}

/// The findings of a list that apply to a text.
pub open spec fn applied_to(t: Seq<char>, fs: Seq<FindingModel>) -> Seq<FindingModel> {
    applied_of(sorted(fs), utf8_len(t) as int, fs.len() as int)
}

/// Every finding that lies inside the text begins and ends between two characters.
pub open spec fn on_characters(t: Seq<char>, fs: Seq<FindingModel>) -> bool {
    forall|i: int| #![trigger fs[i]]
        0 <= i < fs.len() && applies(fs[i], 0, utf8_len(t) as int) ==> is_char_boundary(
            encode_utf8(t),
            fs[i].source.byte.start as int,
        ) && is_char_boundary(encode_utf8(t), fs[i].source.byte.end as int)
}

impl MaskOutput {
    /// The output masks the findings in a text as the policies say.
    pub open spec fn masks(self, t: Seq<char>, fs: Seq<FindingModel>, policies: PolicySet) -> bool {
        let applied = applied_to(t, fs);
        &&& models(self.applied@) == applied
        &&& models(self.skipped@) == skipped_of(sorted(fs), utf8_len(t) as int, fs.len() as int)
        &&& self.restore is Some <==> policies.tokenizes()
        &&& self.restore is None ==> self.text@ == woven(
            t,
            stretches_of(t, applied),
            replacements_of(t, applied, policies, Seq::empty()),
        )
        &&& self.restore matches Some(map) ==> {
            &&& is_free_prefix(t, map.prefix@)
            &&& self.text@ == woven(
                t,
                stretches_of(t, applied),
                replacements_of(t, applied, policies, map.prefix@),
            )
            &&& entry_list(map.entries@) == tokens_of(t, applied, policies, map.prefix@, applied.len() as int)
        }
    }
}

/// A byte offset of a character has one position.
pub proof fn lemma_index_of(t: Seq<char>, i: int)
    requires
        0 <= i <= t.len(),
    ensures
        index_of(t, utf8_len(t.take(i)) as int) == i,
{
    let b = utf8_len(t.take(i)) as int;
    let k = index_of(t, b);
    assert(0 <= i <= t.len() && utf8_len(t.take(i)) == b);
    assert(0 <= k <= t.len() && utf8_len(t.take(k)) == b);
    lemma_utf8_offset_injective(t, i, k);
}

/// A character boundary is the offset of its position.
pub proof fn lemma_boundary_index(t: Seq<char>, b: int)
    requires
        is_char_boundary(encode_utf8(t), b),
    ensures
        0 <= index_of(t, b) <= t.len(),
        utf8_len(t.take(index_of(t, b))) == b,
{
    lemma_boundary_is_offset(t, b);
    let i = choose|i: int| 0 <= i <= t.len() && utf8_len(#[trigger] t.take(i)) == b;
    lemma_index_of(t, i);
}

/// Boundaries compare as their positions do.
pub proof fn lemma_index_order(t: Seq<char>, i: int, j: int)
    requires
        0 <= i <= t.len(),
        0 <= j <= t.len(),
        utf8_len(t.take(i)) <= utf8_len(t.take(j)),
    ensures
        i <= j,
{
    if j < i {
        lemma_utf8_len_split(t, j, i);
    }
}

/// Pieces before the last one do not depend on it.
proof fn lemma_weave_prefix(t: Seq<char>, s1: Seq<(int, int)>, p1: Seq<Seq<char>>, s2: Seq<(int, int)>, p2: Seq<Seq<char>>, n: int)
    requires
        0 <= n <= s1.len(),
        n <= s2.len(),
        n <= p1.len(),
        n <= p2.len(),
        forall|i: int| 0 <= i < n ==> s1[i] == s2[i] && p1[i] == p2[i],
    ensures
        weave(t, s1, p1, n) == weave(t, s2, p2, n),
        end_before(s1, n) == end_before(s2, n),
    decreases n,
{
    if n > 0 {
        lemma_weave_prefix(t, s1, p1, s2, p2, n - 1);
    }
}

/// Counting tokens looks only at the findings counted.
proof fn lemma_token_prefix(t: Seq<char>, a: Seq<FindingModel>, b: Seq<FindingModel>, policies: PolicySet, prefix: Seq<char>, n: int)
    requires
        0 <= n <= a.len(),
        n <= b.len(),
        forall|i: int| 0 <= i < n ==> a[i] == b[i],
    ensures
        token_count(a, policies, n) == token_count(b, policies, n),
        tokens_of(t, a, policies, prefix, n) == tokens_of(t, b, policies, prefix, n),
    decreases n,
{
    if n > 0 {
        lemma_token_prefix(t, a, b, policies, prefix, n - 1);
    }
}

/// What one more finding adds to a masked text.
proof fn lemma_one_more(t: Seq<char>, fs: Seq<FindingModel>, f: FindingModel, policies: PolicySet, prefix: Seq<char>)
    ensures
        ({
            let n = fs.len() as int;
            let more = fs.push(f);
            let s = stretch_of(t, f);
            let old_s = stretches_of(t, fs);
            let new_s = stretches_of(t, more);
            &&& token_count(more, policies, n) == token_count(fs, policies, n)
            &&& weave(t, new_s, replacements_of(t, more, policies, prefix), n + 1) == weave(
                t,
                old_s,
                replacements_of(t, fs, policies, prefix),
                n,
            ) + t.subrange(end_before(old_s, n), s.0) + rendered(
                policies.assigned(f.entity),
                t.subrange(s.0, s.1),
                f.entity,
                prefix,
                token_count(fs, policies, n),
            )
            &&& end_before(new_s, n + 1) == s.1
            &&& tokens_of(t, more, policies, prefix, n + 1) == if policies.assigned(f.entity) is Tokenize {
                tokens_of(t, fs, policies, prefix, n).push(
                    (token(prefix, token_count(fs, policies, n)), t.subrange(s.0, s.1), f.entity),
                )
            } else {
                tokens_of(t, fs, policies, prefix, n)
            }
        }),
{
    let n = fs.len() as int;
    let more = fs.push(f);
    let old_s = stretches_of(t, fs);
    let new_s = stretches_of(t, more);
    let old_p = replacements_of(t, fs, policies, prefix);
    let new_p = replacements_of(t, more, policies, prefix);
    lemma_token_prefix(t, fs, more, policies, prefix, n);
    assert forall|i: int| 0 <= i < n implies old_s[i] == new_s[i] && old_p[i] == new_p[i] by {
        lemma_token_prefix(t, fs, more, policies, prefix, i);
        assert(more[i] == fs[i]);
        assert(old_p[i] == replacement_of(t, fs, policies, prefix, i));
        assert(new_p[i] == replacement_of(t, more, policies, prefix, i));
    }
    lemma_weave_prefix(t, old_s, old_p, new_s, new_p, n);
    assert(new_p[n] == replacement_of(t, more, policies, prefix, n));
}

/// As many tokens are recorded as are counted.
pub proof fn lemma_tokens_len(t: Seq<char>, fs: Seq<FindingModel>, policies: PolicySet, prefix: Seq<char>, n: int)
    requires
        0 <= n <= fs.len(),
    ensures
        tokens_of(t, fs, policies, prefix, n).len() == token_count(fs, policies, n),
    decreases n,
{
    if n > 0 {
        lemma_tokens_len(t, fs, policies, prefix, n - 1);
    }
}

/// Whether a finding lies behind byte `cursor` and inside a text of `len` bytes.
fn does_apply(f: &Finding, cursor: usize, len: usize) -> (r: bool)
    ensures
        r == applies(f@, cursor as int, len as int),
{
    cursor <= f.source.byte.start as usize && f.source.byte.start <= f.source.byte.end && f.source.byte.end as usize
        <= len
}

/// Copies of findings.
fn copies(findings: &[Finding]) -> (r: Vec<Finding>)
    ensures
        models(r@) == models(findings@),
{
    let mut out: Vec<Finding> = Vec::new();
    let mut i: usize = 0;
    while i < findings.len()
        invariant
            i <= findings@.len(),
            out@.len() == i,
            forall|k: int| 0 <= k < i ==> (#[trigger] out@[k])@ == findings@[k]@,
        decreases findings@.len() - i,
    {
        out.push(findings[i].copy());
        i += 1;
    }
    assert(models(out@) =~= models(findings@));
    out
}

/// Masks findings in a text. They need not be in order.
pub fn mask_findings(text: &str, findings: &[Finding], policies: &PolicySet) -> (r: MaskOutput)
    requires
        on_characters(text@, models(findings@)),
    ensures
        r.masks(text@, models(findings@), *policies),
{
    let ghost t = text@;
    let given = copies(findings);
    let ghost fs = models(findings@);
    proof {
        lemma_in_order_map(given@, |f: Finding| f.at(), |f: Finding| f@, |m: FindingModel| place_at(m.source));
        lemma_sorted_on_characters(t, fs);
    }
    let list = ordered(given);
    let ghost ms = sorted(fs);
    assert(models(list@) == ms);
    let len: usize = byte_len(text);
    let tokens: bool = policies.uses_tokenize();
    let mut map = if tokens {
        RestoreMap::for_text(text)
    } else {
        RestoreMap::default()
    };
    let ghost prefix = map.prefix@;
    let mut out = String::new();
    let mut applied: Vec<Finding> = Vec::new();
    let mut skipped: Vec<Finding> = Vec::new();
    let mut cursor: usize = 0;
    let ghost mut at: int = 0;
    let mut i: usize = 0;
    proof {
        assert(t.take(0) =~= Seq::<char>::empty());
        assert(models(applied@) =~= applied_of(ms, len as int, 0));
        assert(models(skipped@) =~= skipped_of(ms, len as int, 0));
        assert(entry_list(map.entries@) =~= Seq::<(Seq<char>, Seq<char>, EntityKind)>::empty());
    }
    while i < list.len()
        invariant
            t == text@,
            len == utf8_len(t),
            models(list@) == ms,
            ms.len() == list@.len(),
            on_characters(t, ms),
            i <= list@.len(),
            cursor == cursor_at(ms, len as int, i as int),
            0 <= at <= t.len(),
            cursor == utf8_len(t.take(at)),
            models(applied@) == applied_of(ms, len as int, i as int),
            models(skipped@) == skipped_of(ms, len as int, i as int),
            map.prefix@ == prefix,
            at == end_before(stretches_of(t, models(applied@)), applied@.len() as int),
            out@ == weave(
                t,
                stretches_of(t, models(applied@)),
                replacements_of(t, models(applied@), *policies, prefix),
                applied@.len() as int,
            ),
            entry_list(map.entries@) == tokens_of(t, models(applied@), *policies, prefix, applied@.len() as int),
        decreases list@.len() - i,
    {
        let f = &list[i];
        assert(ms[i as int] == f@);
        if !does_apply(f, cursor, len) {
            let ghost before = skipped@;
            let c = f.copy();
            skipped.push(c);
            assert(models(skipped@) =~= models(before).push(c@));
            i += 1;
            continue;
        }
        let start: usize = f.source.byte.start as usize;
        let end: usize = f.source.byte.end as usize;
        let ghost (a, b) = stretch_of(t, f@);
        proof {
            lemma_boundary_index(t, start as int);
            lemma_boundary_index(t, end as int);
            lemma_index_order(t, at, a);
            lemma_index_order(t, a, b);
            lemma_one_more(t, models(applied@), f@, *policies, prefix);
            lemma_tokens_len(t, models(applied@), *policies, prefix, applied@.len() as int);
            assert(entry_list(map.entries@).len() == map.entries@.len());
        }
        let gap = cut(text, cursor, start, Ghost(at), Ghost(a));
        out.append(gap);
        let original = cut(text, start, end, Ghost(a), Ghost(b));
        let ghost old_entries = map.entries@;
        let piece = render(policies.policy_for(f.entity), original, f.entity, &mut map);
        out.append(piece.as_str());
        let ghost before = applied@;
        let c = f.copy();
        applied.push(c);
        proof {
            assert(models(applied@) =~= models(before).push(c@));
            at = b;
            if policies.assigned(f.entity) is Tokenize {
                let e = map.entries@.last();
                assert(map.entries@ =~= old_entries.push(e));
                assert(entry_list(map.entries@) =~= entry_list(old_entries).push((e.token@, e.original@, e.entity)));
            }
        }
        cursor = end;
        i += 1;
    }
    let ghost k = t.len() as int;
    proof {
        assert(t.take(k) =~= t);
        assert(t.subrange(at, k) =~= t.skip(at));
        lemma_sorted_len(fs);
        if !tokens {
            assert(prefix =~= Seq::<char>::empty());
        }
    }
    let tail = cut(text, cursor, len, Ghost(at), Ghost(k));
    out.append(tail);
    let restore: Option<RestoreMap> = if tokens {
        Some(map)
    } else {
        None
    };
    MaskOutput { text: out, applied, skipped, restore }
}

/// Sorting keeps the number of findings.
pub proof fn lemma_sorted_len(fs: Seq<FindingModel>)
    ensures
        sorted(fs).len() == fs.len(),
{
    crate::order::law_ordering_orders(fs, |f: FindingModel| place_at(f.source));
}

/// Sorting keeps what holds of each finding.
pub proof fn lemma_sorted_on_characters(t: Seq<char>, fs: Seq<FindingModel>)
    requires
        on_characters(t, fs),
    ensures
        on_characters(t, sorted(fs)),
{
    broadcast use vstd::seq_lib::group_to_multiset_ensures;

    let at = |f: FindingModel| place_at(f.source);
    crate::order::law_ordering_orders(fs, at);
    let ms = sorted(fs);
    assert forall|i: int| #![trigger ms[i]] 0 <= i < ms.len() && applies(ms[i], 0, utf8_len(t) as int) implies is_char_boundary(
        encode_utf8(t),
        ms[i].source.byte.start as int,
    ) && is_char_boundary(encode_utf8(t), ms[i].source.byte.end as int) by {
        assert(ms.contains(ms[i]));
        assert(fs.to_multiset().count(ms[i]) > 0);
        assert(fs.contains(ms[i]));
        let k = choose|k: int| 0 <= k < fs.len() && fs[k] == ms[i];
        assert(applies(fs[k], 0, utf8_len(t) as int));
    }
}

/// Masks what a report found.
pub fn mask_report(text: &str, report: &Report, policies: &PolicySet) -> (r: MaskOutput)
    requires
        on_characters(text@, models(report.findings@)),
    ensures
        r.masks(text@, models(report.findings@), *policies),
{
    mask_findings(text, report.findings.as_slice(), policies)
}

} // verus!
