//! Detects personal data in Korean text and masks it so that the source can be restored.
//!
//! No model is involved: forms, check digits and the words around a value decide. The library
//! recognizes values in many notations. Hangul numerals, separators, full-width digits, letters
//! that look like digits and values that are partly hidden are normalized first, and everything
//! found is led back to the exact place in the source.
//!
//! ```text
//! source -> normalize -> (text, span map) -> detect -> findings -> mask
//! ```
//!
//! | module | what it does |
//! | --- | --- |
//! | [`span`] | aligns a source with its normalized form |
//! | [`normalize`] | the five passes of normalization |
//! | [`detect`] | scanners, check digits, context, and what is reported |
//! | [`mask`] | policies, tokens and their restoration |
//! | [`synth`] | made-up samples with right check digits |

pub mod detect;
pub mod error;
pub mod mask;
pub mod name_laws;
pub mod names;
pub mod normalize;
pub mod order;
pub mod span;
pub mod synth;
pub mod text;

pub use error::{Error, Result};
pub use mask::{unmask, MaskOutput, Policy, PolicySet, Redaction, RestoreMap};
pub use normalize::{normalize, NormalizeConfig, Normalized, NumeralConfig};
pub use span::{
    Absorbed, NormalizationCost, RuleId, Segment, SegmentKind, SourceSpan, Span, SpanMap,
    SpanMapBuilder,
};
