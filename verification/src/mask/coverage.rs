//! Which findings are masked.

use vstd::prelude::*;
use crate::detect::laws::{law_findings_can_be_masked, law_findings_do_not_overlap};
use crate::detect::scan::Scan;
use crate::detect::verdict::{findings_of, overlap, place_at, rated, Config, FindingModel, Rating};
use crate::mask::{applied_of, applied_to, applies, cursor_at, lemma_sorted_len, skipped_of, sorted};
use crate::normalize::{pipeline, NormalizeConfig};
use crate::order::{before, in_order, positions, slot, Position};
use crate::text::{lemma_utf8_len_split, utf8_len};

verus! {

broadcast use crate::text::lemma_text_char_range;

/// Items that are in order stay as they are when they are brought in order.
proof fn lemma_in_order_already(fs: Seq<FindingModel>, at: spec_fn(FindingModel) -> Position)
    requires
        forall|i: int, j: int| 0 <= i < j < fs.len() ==> !before(at(#[trigger] fs[j]), at(#[trigger] fs[i])),
    ensures
        in_order(fs, at) == fs,
    decreases fs.len(),
{
    if fs.len() > 0 {
        let init = fs.drop_last();
        let x = fs.last();
        assert forall|i: int, j: int| 0 <= i < j < init.len() implies !before(
            at(#[trigger] init[j]),
            at(#[trigger] init[i]),
        ) by {
            assert(!before(at(fs[j]), at(fs[i])));
        }
        lemma_in_order_already(init, at);
        let places = positions(init, at);
        if init.len() > 0 {
            let n = init.len() as int;
            assert(!before(at(fs[n]), at(fs[n - 1])));
            assert(places.last() == at(init[n - 1]));
        }
        assert(slot(places, at(x)) == init.len());
        assert(init.insert(init.len() as int, x) =~= fs);
    } else {
        assert(in_order(fs, at) =~= fs);
    }
}

/// Findings that follow each other inside a text without overlapping all apply.
proof fn lemma_all_apply(fs: Seq<FindingModel>, len: int, n: int)
    requires
        0 <= n <= fs.len(),
        forall|i: int| 0 <= i < fs.len() ==> applies(#[trigger] fs[i], 0, len),
        forall|i: int, j: int| 0 <= i < j < fs.len() ==> !overlap(#[trigger] fs[i], #[trigger] fs[j]) && !before(
            place_at(fs[j].source),
            place_at(fs[i].source),
        ),
    ensures
        applied_of(fs, len, n) == fs.take(n),
        skipped_of(fs, len, n).len() == 0,
        n > 0 ==> cursor_at(fs, len, n) == fs[n - 1].source.byte.end,
        n == 0 ==> cursor_at(fs, len, n) == 0,
    decreases n,
{
    if n > 0 {
        lemma_all_apply(fs, len, n - 1);
        assert(applies(fs[n - 1], 0, len));
        if n > 1 {
            assert(!overlap(fs[n - 2], fs[n - 1]));
            assert(!before(place_at(fs[n - 1].source), place_at(fs[n - 2].source)));
            assert(applies(fs[n - 2], 0, len));
        }
        assert(fs.take(n) =~= fs.take(n - 1).push(fs[n - 1]));
    } else {
        assert(applied_of(fs, len, n) =~= fs.take(n));
    }
}

/// Everything that is reported of a text is masked in it, and nothing is skipped.
pub proof fn law_everything_reported_is_masked(
    text: Seq<char>,
    normalization: NormalizeConfig,
    scan: Scan,
    window: int,
    ratings: Seq<Vec<Rating>>,
    cfg: Config,
)
    requires
        scan.of(pipeline(text, normalization), window),
        rated(scan.stretches@, ratings),
    ensures
        applied_to(text, findings_of(scan, ratings, cfg)) == findings_of(scan, ratings, cfg),
        skipped_of(
            sorted(findings_of(scan, ratings, cfg)),
            utf8_len(text) as int,
            findings_of(scan, ratings, cfg).len() as int,
        ).len() == 0,
{
    let fs = findings_of(scan, ratings, cfg);
    let n = fs.len() as int;
    let len = utf8_len(text) as int;
    law_findings_can_be_masked(text, normalization, scan, window, ratings, cfg);
    assert forall|i: int, j: int| 0 <= i < j < fs.len() implies !overlap(#[trigger] fs[i], #[trigger] fs[j]) && !before(
        place_at(fs[j].source),
        place_at(fs[i].source),
    ) by {
        law_findings_do_not_overlap(scan, ratings, cfg, i, j);
    }
    assert forall|i: int| 0 <= i < fs.len() implies applies(#[trigger] fs[i], 0, len) by {
        let s = fs[i].source;
        assert(crate::detect::laws::stands_in(text, fs[i]));
        lemma_utf8_len_split(text, s.char.start as int, s.char.end as int);
        lemma_utf8_len_split(text, s.char.end as int, text.len() as int);
        assert(text.take(text.len() as int) =~= text);
    }
    let at = |f: FindingModel| place_at(f.source);
    lemma_in_order_already(fs, at);
    assert(sorted(fs) == fs);
    lemma_all_apply(fs, len, n);
    assert(fs.take(n) =~= fs);
}

/// The finding cannot be masked behind those before it: it lies outside of the text, or one of them
/// ends behind its beginning.
pub open spec fn is_in_the_way(earlier: Seq<FindingModel>, f: FindingModel, len: int) -> bool {
    ||| f.source.byte.end > len
    ||| f.source.byte.start > f.source.byte.end
    ||| exists|k: int| 0 <= k < earlier.len() && (#[trigger] earlier[k]).source.byte.end > f.source.byte.start
}

proof fn lemma_each_is_settled(ms: Seq<FindingModel>, len: int, n: int)
    requires
        0 <= n <= ms.len(),
    ensures
        applied_of(ms, len, n).len() + skipped_of(ms, len, n).len() == n,
        forall|k: int|
            0 <= k < applied_of(ms, len, n).len() ==> (#[trigger] applied_of(ms, len, n)[k]).source.byte.start
                <= applied_of(ms, len, n)[k].source.byte.end <= len && applied_of(ms, len, n)[k].source.byte.end <= cursor_at(
                ms,
                len,
                n,
            ),
        forall|j: int, k: int|
            0 <= j < k < applied_of(ms, len, n).len() ==> (#[trigger] applied_of(ms, len, n)[j]).source.byte.end <= (
            #[trigger] applied_of(ms, len, n)[k]).source.byte.start,
        forall|k: int|
            0 <= k < skipped_of(ms, len, n).len() ==> is_in_the_way(
                applied_of(ms, len, n),
                #[trigger] skipped_of(ms, len, n)[k],
                len,
            ),
        cursor_at(ms, len, n) > 0 ==> applied_of(ms, len, n).len() > 0 && applied_of(ms, len, n).last().source.byte.end
            == cursor_at(ms, len, n),
        cursor_at(ms, len, n) >= 0,
    decreases n,
{
    if n > 0 {
        lemma_each_is_settled(ms, len, n - 1);
        let f = ms[n - 1];
        let a = applied_of(ms, len, n - 1);
        let s = skipped_of(ms, len, n - 1);
        let all = applied_of(ms, len, n);
        let out = skipped_of(ms, len, n);
        assert forall|k: int| 0 <= k < out.len() implies is_in_the_way(all, #[trigger] out[k], len) by {
            if k < s.len() {
                assert(out[k] == s[k]);
                assert(is_in_the_way(a, s[k], len));
                if s[k].source.byte.end <= len && s[k].source.byte.start <= s[k].source.byte.end {
                    let j = choose|j: int| 0 <= j < a.len() && (#[trigger] a[j]).source.byte.end > s[k].source.byte.start;
                    assert(all[j] == a[j]);
                }
            } else {
                if f.source.byte.end <= len && f.source.byte.start <= f.source.byte.end {
                    assert(all[a.len() - 1].source.byte.end > f.source.byte.start);
                }
            }
        }
    }
}

/// Every finding is either masked or skipped. Those that are masked lie in the text one behind the
/// other. A finding is skipped only if it lies outside of the text or reaches into one that is
/// masked.
pub proof fn law_findings_are_masked_or_in_the_way(t: Seq<char>, fs: Seq<FindingModel>)
    ensures
        ({
            let len = utf8_len(t) as int;
            let applied = applied_to(t, fs);
            let skipped = skipped_of(sorted(fs), len, fs.len() as int);
            &&& applied.len() + skipped.len() == fs.len()
            &&& forall|k: int|
                0 <= k < applied.len() ==> (#[trigger] applied[k]).source.byte.start <= applied[k].source.byte.end <= len
            &&& forall|j: int, k: int|
                0 <= j < k < applied.len() ==> (#[trigger] applied[j]).source.byte.end <= (#[trigger] applied[k]).source.byte.start
            &&& forall|k: int| 0 <= k < skipped.len() ==> is_in_the_way(applied, #[trigger] skipped[k], len)
        }),
{
    lemma_sorted_len(fs);
    lemma_each_is_settled(sorted(fs), utf8_len(t) as int, fs.len() as int);
}

} // verus!
