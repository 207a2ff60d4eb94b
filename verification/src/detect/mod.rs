//! Detection: finding personal data in a text.
//!
//! A text is normalized and scanned for everything that may be personal data. Check digits and the
//! words around a value then decide. What is found is led back to the source.
//!
//! How much a candidate scores is computed with real numbers, outside of this library. [`scan`]
//! gives the candidates with all that their scores depend on, and [`report`] takes their ratings.

pub mod agreement;
pub mod check_laws;
pub mod checksum;
pub mod collect_laws;
pub mod context;
pub mod context_laws;
pub mod decision_laws;
pub mod entity;
pub mod form_laws;
pub mod laws;
pub mod name_laws;
pub mod scan;
pub mod scan_laws;
pub mod scanner;
pub mod verdict;
pub mod word_laws;

pub use checksum::ChecksumResult;
pub use context::{ContextHit, Score};
pub use entity::{Candidate, Certainty, EntityKind};
pub use scan::{scan, Scan, Stretch};
pub use verdict::{report, Config, Evidence, Finding, Rating, RejectReason, Rejection, Report};
