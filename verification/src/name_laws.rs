//! The names of values in output, letter by letter.

use vstd::prelude::*;
use crate::detect::checksum::ChecksumResult;
use crate::detect::entity::Certainty;
use crate::detect::verdict::RejectReason;
use crate::span::{Absorbed, SegmentKind};
use crate::synth::notation::Variant;

verus! {

/// Kinds of segments are called by what they do.
pub proof fn law_names_of_segment_kinds(kind: SegmentKind)
    ensures
        kind.name_text() == match kind {
            SegmentKind::Identity => seq!['i', 'd', 'e', 'n', 't', 'i', 't', 'y'],
            SegmentKind::Replace => seq!['r', 'e', 'p', 'l', 'a', 'c', 'e'],
            SegmentKind::Delete => seq!['d', 'e', 'l', 'e', 't', 'e'],
            SegmentKind::Expand => seq!['e', 'x', 'p', 'a', 'n', 'd'],
        },
{
    reveal_strlit("identity");
    reveal_strlit("replace");
    reveal_strlit("delete");
    reveal_strlit("expand");
    match kind {
        SegmentKind::Identity => assert(kind.name_text() =~= seq!['i', 'd', 'e', 'n', 't', 'i', 't', 'y']),
        SegmentKind::Replace => assert(kind.name_text() =~= seq!['r', 'e', 'p', 'l', 'a', 'c', 'e']),
        SegmentKind::Delete => assert(kind.name_text() =~= seq!['d', 'e', 'l', 'e', 't', 'e']),
        SegmentKind::Expand => assert(kind.name_text() =~= seq!['e', 'x', 'p', 'a', 'n', 'd']),
    }
}

/// Degrees of certainty have plain names.
pub proof fn law_names_of_certainties(level: Certainty)
    ensures
        level.name_text() == match level {
            Certainty::Possible => seq!['p', 'o', 's', 's', 'i', 'b', 'l', 'e'],
            Certainty::Probable => seq!['p', 'r', 'o', 'b', 'a', 'b', 'l', 'e'],
            Certainty::Certain => seq!['c', 'e', 'r', 't', 'a', 'i', 'n'],
        },
{
    reveal_strlit("possible");
    reveal_strlit("probable");
    reveal_strlit("certain");
    match level {
        Certainty::Possible => assert(level.name_text() =~= seq!['p', 'o', 's', 's', 'i', 'b', 'l', 'e']),
        Certainty::Probable => assert(level.name_text() =~= seq!['p', 'r', 'o', 'b', 'a', 'b', 'l', 'e']),
        Certainty::Certain => assert(level.name_text() =~= seq!['c', 'e', 'r', 't', 'a', 'i', 'n']),
    }
}

/// Classes of what is absorbed have plain names.
pub proof fn law_names_of_classes(class: Absorbed)
    ensures
        class.name_text() == match class {
            Absorbed::Whitespace => seq!['w', 'h', 'i', 't', 'e', 's', 'p', 'a', 'c', 'e'],
            Absorbed::Separator => seq!['s', 'e', 'p', 'a', 'r', 'a', 't', 'o', 'r'],
            Absorbed::Other => seq!['o', 't', 'h', 'e', 'r'],
        },
{
    reveal_strlit("whitespace");
    reveal_strlit("separator");
    reveal_strlit("other");
    match class {
        Absorbed::Whitespace => assert(class.name_text() =~= seq!['w', 'h', 'i', 't', 'e', 's', 'p', 'a', 'c', 'e']),
        Absorbed::Separator => assert(class.name_text() =~= seq!['s', 'e', 'p', 'a', 'r', 'a', 't', 'o', 'r']),
        Absorbed::Other => assert(class.name_text() =~= seq!['o', 't', 'h', 'e', 'r']),
    }
}

/// Reasons are called by what happened.
pub proof fn law_names_of_reasons(reason: RejectReason)
    ensures
        reason.name_text() == match reason {
            RejectReason::ChecksumFailed => seq!['c', 'h', 'e', 'c', 'k', 's', 'u', 'm', '_', 'f', 'a', 'i', 'l', 'e', 'd'],
            RejectReason::NoContext => seq!['n', 'o', '_', 'c', 'o', 'n', 't', 'e', 'x', 't'],
            RejectReason::BelowThreshold => seq!['b', 'e', 'l', 'o', 'w', '_', 't', 'h', 'r', 'e', 's', 'h', 'o', 'l', 'd'],
            RejectReason::Outranked => seq!['o', 'u', 't', 'r', 'a', 'n', 'k', 'e', 'd'],
            RejectReason::BusinessContext => seq!['b', 'u', 's', 'i', 'n', 'e', 's', 's', '_', 'c', 'o', 'n', 't', 'e', 'x', 't'],
        },
{
    reveal_strlit("checksum_failed");
    reveal_strlit("no_context");
    reveal_strlit("below_threshold");
    reveal_strlit("outranked");
    reveal_strlit("business_context");
    match reason {
        RejectReason::ChecksumFailed => assert(reason.name_text() =~= seq!['c', 'h', 'e', 'c', 'k', 's', 'u', 'm', '_', 'f', 'a', 'i', 'l', 'e', 'd']),
        RejectReason::NoContext => assert(reason.name_text() =~= seq!['n', 'o', '_', 'c', 'o', 'n', 't', 'e', 'x', 't']),
        RejectReason::BelowThreshold => assert(reason.name_text() =~= seq!['b', 'e', 'l', 'o', 'w', '_', 't', 'h', 'r', 'e', 's', 'h', 'o', 'l', 'd']),
        RejectReason::Outranked => assert(reason.name_text() =~= seq!['o', 'u', 't', 'r', 'a', 'n', 'k', 'e', 'd']),
        RejectReason::BusinessContext => assert(reason.name_text() =~= seq!['b', 'u', 's', 'i', 'n', 'e', 's', 's', '_', 'c', 'o', 'n', 't', 'e', 'x', 't']),
    }
}

/// Notations are called by how a value is written.
pub proof fn law_names_of_notations(variant: Variant)
    ensures
        variant.label_text() == match variant {
            Variant::Plain => seq!['숫', '자', '만'],
            Variant::Hyphen => seq!['하', '이', '픈'],
            Variant::Space => seq!['공', '백'],
            Variant::Fullwidth => seq!['전', '각'],
            Variant::HangulDigits => seq!['한', '글', '수', '사'],
            Variant::Lookalike => seq!['유', '사', '문', '자'],
            Variant::Masked => seq!['부', '분', '마', '스', '킹'],
            Variant::SentenceEnding => seq!['말', '끝'],
            Variant::Literal => seq!['원', '형'],
        },
{
    reveal_strlit("숫자만");
    reveal_strlit("하이픈");
    reveal_strlit("공백");
    reveal_strlit("전각");
    reveal_strlit("한글수사");
    reveal_strlit("유사문자");
    reveal_strlit("부분마스킹");
    reveal_strlit("말끝");
    reveal_strlit("원형");
    match variant {
        Variant::Plain => assert(variant.label_text() =~= seq!['숫', '자', '만']),
        Variant::Hyphen => assert(variant.label_text() =~= seq!['하', '이', '픈']),
        Variant::Space => assert(variant.label_text() =~= seq!['공', '백']),
        Variant::Fullwidth => assert(variant.label_text() =~= seq!['전', '각']),
        Variant::HangulDigits => assert(variant.label_text() =~= seq!['한', '글', '수', '사']),
        Variant::Lookalike => assert(variant.label_text() =~= seq!['유', '사', '문', '자']),
        Variant::Masked => assert(variant.label_text() =~= seq!['부', '분', '마', '스', '킹']),
        Variant::SentenceEnding => assert(variant.label_text() =~= seq!['말', '끝']),
        Variant::Literal => assert(variant.label_text() =~= seq!['원', '형']),
    }
}

/// What a check digit says is told in one word or two, whatever the reason.
pub proof fn law_names_of_check_digits(result: ChecksumResult)
    ensures
        result is Passed ==> result.name_text() == seq!['p', 'a', 's', 's', 'e', 'd'],
        result is Failed ==> result.name_text() == seq!['f', 'a', 'i', 'l', 'e', 'd'],
        result is NotApplicable ==> result.name_text() == seq!['n', 'o', 't', '_', 'a', 'p', 'p', 'l', 'i', 'c', 'a', 'b', 'l', 'e'],
{
    reveal_strlit("passed");
    reveal_strlit("failed");
    reveal_strlit("not_applicable");
    match result {
        ChecksumResult::Passed => assert(result.name_text() =~= seq!['p', 'a', 's', 's', 'e', 'd']),
        ChecksumResult::Failed => assert(result.name_text() =~= seq!['f', 'a', 'i', 'l', 'e', 'd']),
        ChecksumResult::NotApplicable(_) => assert(result.name_text() =~= seq!['n', 'o', 't', '_', 'a', 'p', 'p', 'l', 'i', 'c', 'a', 'b', 'l', 'e']),
    }
}

} // verus!
