//! The names under which values appear in output, and the choices of a command line.

use vstd::prelude::*;
use crate::detect::checksum::ChecksumResult;
use crate::detect::entity::{Certainty, EntityKind};
use crate::detect::verdict::RejectReason;
use crate::mask::policy::{Policy, PolicySet, Redaction};
use crate::mask::MaskOutput;
use crate::span::{Absorbed, SegmentKind};
use crate::text::same_text;

verus! {

impl SegmentKind {
    /// The name of a kind of segment.
    pub open spec fn name_text(self) -> Seq<char> {
        match self {
            SegmentKind::Identity => "identity"@,
            SegmentKind::Replace => "replace"@,
            SegmentKind::Delete => "delete"@,
            SegmentKind::Expand => "expand"@,
        }
    }

    /// The name of the kind of segment.
    pub fn name(self) -> (r: &'static str)
        ensures
            r@ == self.name_text(),
    {
        match self {
            SegmentKind::Identity => "identity",
            SegmentKind::Replace => "replace",
            SegmentKind::Delete => "delete",
            SegmentKind::Expand => "expand",
        }
    }
}

impl Absorbed {
    /// The name of a class.
    pub open spec fn name_text(self) -> Seq<char> {
        match self {
            Absorbed::Whitespace => "whitespace"@,
            Absorbed::Separator => "separator"@,
            Absorbed::Other => "other"@,
        }
    }

    /// The class with a name.
    pub fn from_name(name: &str) -> (r: Option<Absorbed>)
        ensures
            r matches Some(class) ==> class.name_text() == name@,
            forall|class: Absorbed| #[trigger] class.name_text() == name@ ==> r == Some(class),
    {
        let r: Option<Absorbed> = if same_text(name, "whitespace") {
            Some(Absorbed::Whitespace)
        } else if same_text(name, "separator") {
            Some(Absorbed::Separator)
        } else if same_text(name, "other") {
            Some(Absorbed::Other)
        } else {
            None
        };
        proof {
            assert forall|class: Absorbed| #[trigger] class.name_text() == name@ implies r == Some(class) by {
                law_class_names_are_distinct(class, r.unwrap());
            }
        }
        r
    }
}

/// No two classes share a name.
pub proof fn law_class_names_are_distinct(a: Absorbed, b: Absorbed)
    requires
        a.name_text() == b.name_text(),
    ensures
        a == b,
{
    reveal_strlit("whitespace");
    reveal_strlit("separator");
    reveal_strlit("other");
    assert("whitespace"@.len() == 10);
    assert("separator"@.len() == 9);
    assert("other"@.len() == 5);
}

impl Certainty {
    /// The name of a degree of certainty.
    pub open spec fn name_text(self) -> Seq<char> {
        match self {
            Certainty::Possible => "possible"@,
            Certainty::Probable => "probable"@,
            Certainty::Certain => "certain"@,
        }
    }

    /// The name of the degree of certainty.
    pub fn name(self) -> (r: &'static str)
        ensures
            r@ == self.name_text(),
    {
        match self {
            Certainty::Possible => "possible",
            Certainty::Probable => "probable",
            Certainty::Certain => "certain",
        }
    }
}

impl RejectReason {
    /// The name of a reason.
    pub open spec fn name_text(self) -> Seq<char> {
        match self {
            RejectReason::ChecksumFailed => "checksum_failed"@,
            RejectReason::NoContext => "no_context"@,
            RejectReason::BelowThreshold => "below_threshold"@,
            RejectReason::Outranked => "outranked"@,
            RejectReason::BusinessContext => "business_context"@,
        }
    }

    /// The name of the reason.
    pub fn name(self) -> (r: &'static str)
        ensures
            r@ == self.name_text(),
    {
        match self {
            RejectReason::ChecksumFailed => "checksum_failed",
            RejectReason::NoContext => "no_context",
            RejectReason::BelowThreshold => "below_threshold",
            RejectReason::Outranked => "outranked",
            RejectReason::BusinessContext => "business_context",
        }
    }
}

impl ChecksumResult {
    /// The name of what a check digit says.
    pub open spec fn name_text(self) -> Seq<char> {
        match self {
            ChecksumResult::Passed => "passed"@,
            ChecksumResult::Failed => "failed"@,
            ChecksumResult::NotApplicable(_) => "not_applicable"@,
        }
    }

    /// The name of what the check digit says.
    pub fn name(&self) -> (r: &'static str)
        ensures
            r@ == self.name_text(),
    {
        match self {
            ChecksumResult::Passed => "passed",
            ChecksumResult::Failed => "failed",
            ChecksumResult::NotApplicable(_) => "not_applicable",
        }
    }

    /// Why the check digit does not apply, if it does not.
    pub fn reason(&self) -> (r: Option<&'static str>)
        ensures
            r == match *self {
                ChecksumResult::NotApplicable(why) => Some(why),
                _ => None,
            },
    {
        match self {
            ChecksumResult::NotApplicable(why) => Some(*why),
            _ => None,
        }
    }
}

/// A policy that can be chosen by name.
#[derive(Debug, Clone, Copy, PartialEq, Eq, Structural)]
pub enum PolicyChoice {
    Label,
    Code,
    Fill,
    Partial,
    Hash,
    Tokenize,
}

/// How many hexadecimal digits a chosen pseudonym has.
pub const HASH_DIGITS: usize = 12;

/// What a pseudonym lacks without a key.
pub const KEY_NEEDED: &'static str = "해시 정책에는 --key 가 필요하다";

/// What tokens lack without a place for their map.
pub const MAP_NEEDED: &'static str = "토큰화 정책은 --restore-map 이 필요하다. 맵 없이는 되돌릴 수 없다";

/// The policies of a choice. Only pseudonyms need a key.
pub fn build_policies(
    choice: PolicyChoice,
    keep_prefix: usize,
    keep_suffix: usize,
    fill: char,
    key: Option<&str>,
) -> (r: core::result::Result<PolicySet, &'static str>)
    ensures
        r is Err <==> choice == PolicyChoice::Hash && key is None,
        r matches Err(e) ==> e == KEY_NEEDED,
        r matches Ok(set) ==> set.overrides@.len() == 0 && match choice {
            PolicyChoice::Label => set.default == Policy::Redact(Redaction::Label),
            PolicyChoice::Code => set.default == Policy::Redact(Redaction::Code),
            PolicyChoice::Fill => set.default == Policy::Redact(Redaction::Fill(fill)),
            PolicyChoice::Partial => set.default == (Policy::Partial { keep_prefix, keep_suffix, fill }),
            PolicyChoice::Hash => set.default matches Policy::Hash { key: k, len } && k@ == vstd::utf8::encode_utf8(
                key.unwrap()@,
            ) && len == HASH_DIGITS,
            PolicyChoice::Tokenize => set.default == Policy::Tokenize,
        },
{
    let policy = match choice {
        PolicyChoice::Label => Policy::Redact(Redaction::Label),
        PolicyChoice::Code => Policy::Redact(Redaction::Code),
        PolicyChoice::Fill => Policy::Redact(Redaction::Fill(fill)),
        PolicyChoice::Partial => Policy::Partial { keep_prefix, keep_suffix, fill },
        PolicyChoice::Tokenize => Policy::Tokenize,
        PolicyChoice::Hash => match key {
            Some(text) => Policy::Hash { key: copy_bytes(text.as_bytes()), len: HASH_DIGITS },
            None => {
                return Err(KEY_NEEDED);
            },
        },
    };
    Ok(PolicySet::new(policy))
}

fn copy_bytes(bytes: &[u8]) -> (r: Vec<u8>)
    ensures
        r@ == bytes@,
{
    let mut out: Vec<u8> = Vec::new();
    let mut i: usize = 0;
    while i < bytes.len()
        invariant
            i <= bytes@.len(),
            out@ =~= bytes@.take(i as int),
        decreases bytes@.len() - i,
    {
        out.push(bytes[i]);
        i += 1;
    }
    assert(out@ =~= bytes@);
    out
}

/// Whether a masked text may be handed out: tokens must not leave without a place for their map.
pub fn may_hand_out(out: &MaskOutput, map_has_a_place: bool) -> (r: bool)
    ensures
        r == (out.restore is None || map_has_a_place),
{
    out.restore.is_none() || map_has_a_place
}

/// What a sample is answered with: the name of its kind, or that there is none.
pub fn answer(expected: Option<EntityKind>) -> (r: &'static str)
    ensures
        r@ == match expected {
            Some(entity) => entity.label_text(),
            None => "없음"@,
        },
{
    match expected {
        Some(entity) => entity.label(),
        None => "없음",
    }
}

} // verus!
