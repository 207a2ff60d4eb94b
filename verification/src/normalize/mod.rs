//! Normalization: bringing a text into a form in which values can be found.
//!
//! Five passes run in order, and each gives its own span map. The maps are composed into one that
//! leads from the normalized text back to the source.
//!
//! | order | pass | what it does |
//! | --- | --- | --- |
//! | 1 | [`nfc`] | composes Hangul jamo |
//! | 2 | [`fold`] | folds full-width forms, spaces and dashes |
//! | 3 | [`hangul`] | reads Hangul numerals as digits |
//! | 4 | [`lookalike`] | reads letters between digits as digits |
//! | 5 | [`separator`] | absorbs separators between digits |
//!
//! Jamo are composed first so that numerals appear as syllables, full-width digits are folded
//! first so that they count as digits, and numerals are read first so that separators between
//! them have digits on both sides. Lookalikes come before separators: in `88-O1-O1` the letters
//! still see the digits around the hyphens.

pub mod ends;
pub mod fold;
pub mod hangul;
pub mod jamo;
pub mod laws;
pub mod lookalike;
pub mod meaning;
pub mod nfc;
pub mod numerals;
pub mod separator;
pub mod walk;

pub use hangul::NumeralConfig;

use vstd::prelude::*;
use crate::error::Result;
use crate::normalize::fold::{fold_steps, lemma_fold_steps};
use crate::normalize::hangul::{hangul_steps, lemma_hangul_growth, lemma_hangul_steps};
use crate::normalize::lookalike::{lemma_lookalike_steps, lookalike_steps};
use crate::normalize::nfc::{lemma_nfc_steps, nfc_steps};
use crate::normalize::separator::{lemma_separator_steps, separator_steps};
use crate::span::steps::{
    comp, dst_of, keeps, law_compose_identity_left, law_compose_identity_right, lemma_comp_sums,
    lemma_keeps, meets, src_of, valid, Step,
};
use crate::span::{lemma_limits, SpanMap};
use crate::text::{byte_len, utf8_len};

verus! {

/// A normalized text, and the map that leads back from it.
#[derive(Debug, Clone)]
pub struct Normalized {
    /// The normalized text.
    pub text: String,
    /// The alignment with the source.
    pub map: SpanMap,
}

/// Which passes run.
///
/// In documents full of decimals, for example, it can help to turn the separator pass off, since
/// it makes `15` of `1.5`.
#[derive(Debug, Clone, PartialEq, Eq)]
pub struct NormalizeConfig {
    /// Compose jamo.
    pub nfc: bool,
    /// Fold full-width forms, spaces and dashes.
    pub fold: bool,
    /// Read Hangul numerals.
    pub hangul: bool,
    /// Read letters between digits as digits.
    pub lookalike: bool,
    /// Absorb separators between digits.
    pub separator: bool,
    /// When a Hangul numeral is read.
    pub numeral: NumeralConfig,
}

impl Default for NormalizeConfig {
    fn default() -> (r: Self)
        ensures
            r.nfc,
            r.fold,
            r.hangul,
            r.lookalike,
            r.separator,
            r.numeral.min_digits_without_context == 6,
            r.numeral.min_digits_with_context == 2,
            r.numeral.context_window == 2,
    {
        NormalizeConfig {
            nfc: true,
            fold: true,
            hangul: true,
            lookalike: true,
            separator: true,
            numeral: NumeralConfig::default(),
        }
    }
}

impl NormalizeConfig {
    /// Only the passes that do not look at the surroundings of what they change. A part of a text
    /// that they normalize on its own comes out as it does within the text.
    pub fn context_free() -> (r: Self)
        ensures
            r.nfc,
            r.fold,
            !r.hangul,
            !r.lookalike,
            !r.separator,
            r.numeral.min_digits_without_context == 6,
            r.numeral.min_digits_with_context == 2,
            r.numeral.context_window == 2,
    {
        NormalizeConfig {
            nfc: true,
            fold: true,
            hangul: false,
            lookalike: false,
            separator: false,
            numeral: NumeralConfig::default(),
        }
    }
}

/// The steps of the first pass, if it runs.
pub open spec fn nfc_stage(text: Seq<char>, cfg: NormalizeConfig) -> Seq<Step> {
    if cfg.nfc {
        nfc_steps(text, 0)
    } else {
        keeps(text)
    }
}

/// The steps of the second pass, if it runs.
pub open spec fn fold_stage(text: Seq<char>, cfg: NormalizeConfig) -> Seq<Step> {
    if cfg.fold {
        fold_steps(text, 0)
    } else {
        keeps(text)
    }
}

/// The steps of the third pass, if it runs.
pub open spec fn hangul_stage(text: Seq<char>, cfg: NormalizeConfig) -> Seq<Step> {
    if cfg.hangul {
        hangul_steps(text, 0, cfg.numeral)
    } else {
        keeps(text)
    }
}

/// The steps of the fourth pass, if it runs.
pub open spec fn lookalike_stage(text: Seq<char>, cfg: NormalizeConfig) -> Seq<Step> {
    if cfg.lookalike {
        lookalike_steps(text, 0)
    } else {
        keeps(text)
    }
}

/// The steps of the fifth pass, if it runs.
pub open spec fn separator_stage(text: Seq<char>, cfg: NormalizeConfig) -> Seq<Step> {
    if cfg.separator {
        separator_steps(text, 0)
    } else {
        keeps(text)
    }
}

/// The steps of the first two passes.
pub open spec fn folding(text: Seq<char>, cfg: NormalizeConfig) -> Seq<Step> {
    let a = nfc_stage(text, cfg);
    comp(a, fold_stage(dst_of(a), cfg))
}

/// The steps of the first three passes.
pub open spec fn numbering(text: Seq<char>, cfg: NormalizeConfig) -> Seq<Step> {
    let a = folding(text, cfg);
    comp(a, hangul_stage(dst_of(a), cfg))
}

/// The steps of the first four passes.
pub open spec fn lettering(text: Seq<char>, cfg: NormalizeConfig) -> Seq<Step> {
    let a = numbering(text, cfg);
    comp(a, lookalike_stage(dst_of(a), cfg))
}

/// The steps of the whole pipeline.
pub open spec fn pipeline(text: Seq<char>, cfg: NormalizeConfig) -> Seq<Step> {
    let a = lettering(text, cfg);
    comp(a, separator_stage(dst_of(a), cfg))
}

/// The text fits 32-bit offsets, before and after its numerals are read. The other passes never
/// lengthen a text.
pub open spec fn fits(text: Seq<char>, cfg: NormalizeConfig) -> bool {
    &&& utf8_len(text) <= u32::MAX
    &&& utf8_len(dst_of(numbering(text, cfg))) <= u32::MAX
}

proof fn lemma_stages(text: Seq<char>, cfg: NormalizeConfig)
    ensures
        valid(nfc_stage(text, cfg)),
        src_of(nfc_stage(text, cfg)) == text,
        utf8_len(dst_of(nfc_stage(text, cfg))) <= utf8_len(text),
        valid(fold_stage(text, cfg)),
        src_of(fold_stage(text, cfg)) == text,
        utf8_len(dst_of(fold_stage(text, cfg))) <= utf8_len(text),
        valid(hangul_stage(text, cfg)),
        src_of(hangul_stage(text, cfg)) == text,
        utf8_len(dst_of(hangul_stage(text, cfg))) <= 4 * utf8_len(text),
        valid(lookalike_stage(text, cfg)),
        src_of(lookalike_stage(text, cfg)) == text,
        utf8_len(dst_of(lookalike_stage(text, cfg))) <= utf8_len(text),
        valid(separator_stage(text, cfg)),
        src_of(separator_stage(text, cfg)) == text,
        utf8_len(dst_of(separator_stage(text, cfg))) <= utf8_len(text),
{
    assert(text.skip(0) =~= text);
    lemma_keeps(text);
    lemma_nfc_steps(text, 0);
    lemma_fold_steps(text, 0);
    lemma_hangul_steps(text, 0, cfg.numeral);
    lemma_hangul_growth(text, 0, cfg.numeral);
    lemma_lookalike_steps(text, 0);
    lemma_separator_steps(text, 0);
}

/// What the pipeline consumes is the text itself, and up to the reading of numerals the text
/// never grows.
pub proof fn lemma_pipeline(text: Seq<char>, cfg: NormalizeConfig)
    ensures
        valid(folding(text, cfg)),
        src_of(folding(text, cfg)) == text,
        utf8_len(dst_of(folding(text, cfg))) <= utf8_len(text),
        valid(numbering(text, cfg)),
        src_of(numbering(text, cfg)) == text,
        utf8_len(dst_of(numbering(text, cfg))) <= 4 * utf8_len(text),
        valid(lettering(text, cfg)),
        src_of(lettering(text, cfg)) == text,
        utf8_len(dst_of(lettering(text, cfg))) <= utf8_len(dst_of(numbering(text, cfg))),
        valid(pipeline(text, cfg)),
        src_of(pipeline(text, cfg)) == text,
        utf8_len(dst_of(pipeline(text, cfg))) <= utf8_len(dst_of(numbering(text, cfg))),
        meets(nfc_stage(text, cfg), fold_stage(dst_of(nfc_stage(text, cfg)), cfg)),
        meets(folding(text, cfg), hangul_stage(dst_of(folding(text, cfg)), cfg)),
        meets(numbering(text, cfg), lookalike_stage(dst_of(numbering(text, cfg)), cfg)),
        meets(lettering(text, cfg), separator_stage(dst_of(lettering(text, cfg)), cfg)),
{
    let a = nfc_stage(text, cfg);
    lemma_stages(text, cfg);
    lemma_stages(dst_of(a), cfg);
    lemma_comp_sums(a, fold_stage(dst_of(a), cfg));
    let b = folding(text, cfg);
    lemma_stages(dst_of(b), cfg);
    lemma_comp_sums(b, hangul_stage(dst_of(b), cfg));
    let c = numbering(text, cfg);
    lemma_stages(dst_of(c), cfg);
    lemma_comp_sums(c, lookalike_stage(dst_of(c), cfg));
    let d = lettering(text, cfg);
    lemma_stages(dst_of(d), cfg);
    lemma_comp_sums(d, separator_stage(dst_of(d), cfg));
}

/// Normalizing never loses a character of the source, and a text of up to a quarter of the 32-bit
/// range always fits.
pub proof fn law_source_is_covered(text: Seq<char>, cfg: NormalizeConfig)
    ensures
        src_of(pipeline(text, cfg)) == text,
        4 * utf8_len(text) <= u32::MAX ==> fits(text, cfg),
{
    lemma_pipeline(text, cfg);
}

/// Adds one pass to the map.
fn follow(map: &SpanMap, pass: &SpanMap, Ghost(x): Ghost<Seq<Step>>, Ghost(y): Ghost<Seq<Step>>) -> (r: Result<SpanMap>)
    requires
        map.of(x),
        pass.of(y),
        meets(x, y),
    ensures
        r is Ok,
        r->Ok_0.of(comp(x, y)),
{
    proof {
        lemma_limits(*map, x);
        lemma_limits(*pass, y);
    }
    SpanMap::compose(map, pass)
}

/// Whether a text and its normalized form fit 32-bit offsets.
pub fn can_normalize(text: &str, cfg: &NormalizeConfig) -> (r: bool)
    ensures
        r == fits(text@, *cfg),
{
    let ghost t = text@;
    let n: usize = byte_len(text);
    if n > u32::MAX as usize {
        return false;
    }
    proof {
        law_source_is_covered(t, *cfg);
    }
    if n <= u32::MAX as usize / 4 {
        return true;
    }
    proof {
        lemma_pipeline(t, *cfg);
        lemma_stages(t, *cfg);
        lemma_keeps(t);
    }
    let mut current: String = text.to_owned();
    if cfg.nfc {
        let (out, _) = nfc::apply(current.as_str());
        current = out;
    }
    let ghost x = nfc_stage(t, *cfg);
    proof {
        lemma_stages(dst_of(x), *cfg);
        lemma_keeps(dst_of(x));
        lemma_comp_sums(x, fold_stage(dst_of(x), *cfg));
    }
    if cfg.fold {
        let (out, _) = fold::apply(current.as_str());
        current = out;
    }
    let ghost y = folding(t, *cfg);
    proof {
        lemma_keeps(dst_of(y));
        lemma_comp_sums(y, hangul_stage(dst_of(y), *cfg));
    }
    !cfg.hangul || hangul::output_len(current.as_str(), &cfg.numeral) <= u32::MAX as u64
}

/// Runs the passes.
pub fn normalize(text: &str, cfg: &NormalizeConfig) -> (r: Result<Normalized>)
    requires
        fits(text@, *cfg),
    ensures
        r is Ok,
        r->Ok_0.text@ == dst_of(pipeline(text@, *cfg)),
        r->Ok_0.map.of(pipeline(text@, *cfg)),
{
    let ghost t = text@;
    let mut current: String = text.to_owned();
    let mut map = SpanMap::identity(text);
    proof {
        lemma_pipeline(t, *cfg);
        lemma_stages(t, *cfg);
        lemma_keeps(t);
        law_compose_identity_left(nfc_stage(t, *cfg));
    }
    if cfg.nfc {
        let (out, pass) = nfc::apply(current.as_str());
        map = match follow(&map, &pass, Ghost(keeps(t)), Ghost(nfc_stage(t, *cfg))) {
            Ok(m) => m,
            Err(e) => {
                return Err(e);
            },
        };
        current = out;
    }
    let ghost x = nfc_stage(t, *cfg);
    proof {
        law_compose_identity_right(x);
    }
    if cfg.fold {
        let (out, pass) = fold::apply(current.as_str());
        map = match follow(&map, &pass, Ghost(x), Ghost(fold_stage(dst_of(x), *cfg))) {
            Ok(m) => m,
            Err(e) => {
                return Err(e);
            },
        };
        current = out;
    }
    let ghost x = folding(t, *cfg);
    proof {
        law_compose_identity_right(x);
        lemma_comp_sums(nfc_stage(t, *cfg), fold_stage(dst_of(nfc_stage(t, *cfg)), *cfg));
        lemma_comp_sums(x, hangul_stage(dst_of(x), *cfg));
    }
    if cfg.hangul {
        let (out, pass) = hangul::apply(current.as_str(), &cfg.numeral);
        map = match follow(&map, &pass, Ghost(x), Ghost(hangul_stage(dst_of(x), *cfg))) {
            Ok(m) => m,
            Err(e) => {
                return Err(e);
            },
        };
        current = out;
    }
    let ghost x = numbering(t, *cfg);
    proof {
        law_compose_identity_right(x);
        lemma_comp_sums(x, lookalike_stage(dst_of(x), *cfg));
    }
    if cfg.lookalike {
        let (out, pass) = lookalike::apply(current.as_str());
        map = match follow(&map, &pass, Ghost(x), Ghost(lookalike_stage(dst_of(x), *cfg))) {
            Ok(m) => m,
            Err(e) => {
                return Err(e);
            },
        };
        current = out;
    }
    let ghost x = lettering(t, *cfg);
    proof {
        law_compose_identity_right(x);
        lemma_comp_sums(x, separator_stage(dst_of(x), *cfg));
    }
    if cfg.separator {
        let (out, pass) = separator::apply(current.as_str());
        map = match follow(&map, &pass, Ghost(x), Ghost(separator_stage(dst_of(x), *cfg))) {
            Ok(m) => m,
            Err(e) => {
                return Err(e);
            },
        };
        current = out;
    }
    Ok(Normalized { text: current, map })
}

} // verus!
