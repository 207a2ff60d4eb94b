//! What each policy leaves of a value, and where it stands in the masked text.

use vstd::prelude::*;
use vstd::utf8::encode_utf8;
use crate::detect::checksum::all_digits;
use crate::detect::entity::EntityKind;
use crate::detect::verdict::FindingModel;
use crate::mask::laws::{in_sequence, lemma_applied_in_sequence};
use crate::mask::policy::{Policy, PolicySet, Redaction};
use crate::mask::render::{hex_text, hmac_sha256, rendered};
use crate::mask::restore::{lemma_decimal_digits, lemma_decimal_value, value};
use crate::mask::{
    applied_of, applied_to, applies, lemma_boundary_index, lemma_sorted_len,
    lemma_sorted_on_characters, on_characters, replacement_of, replacements_of, sorted,
    stretches_of, token_count, woven, MaskOutput,
};
use crate::text::{decimal, utf8_len};

verus! {

broadcast use crate::text::lemma_text_char_range;

/// The four bits at place `i` of some bytes, the higher half of a byte first.
pub open spec fn nibble(bytes: Seq<u8>, i: int) -> int {
    if i % 2 == 0 {
        bytes[i / 2] as int / 16
    } else {
        bytes[i / 2] as int % 16
    }
}

/// A hexadecimal digit stands for four bits: `0` to `9`, then `a` to `f`.
pub open spec fn is_hex_of(c: char, n: int) -> bool {
    (0 <= n < 10 && c as int - '0' as int == n) || (10 <= n < 16 && c as int - 'a' as int == n - 10)
}

/// The lesser of two numbers.
pub open spec fn lesser(a: nat, b: nat) -> nat {
    if a < b {
        a
    } else {
        b
    }
}

/// The piece is some text in square brackets.
pub open spec fn bracketed(piece: Seq<char>, inside: Seq<char>) -> bool {
    &&& piece.len() == inside.len() + 2
    &&& piece[0] == '['
    &&& piece.last() == ']'
    &&& piece.subrange(1, piece.len() - 1) == inside
}

/// The piece is a pseudonym: in brackets, the name of the kind, a colon, and the first `len`
/// hexadecimal digits of a code.
pub open spec fn is_pseudonym(piece: Seq<char>, name: Seq<char>, code: Seq<u8>, len: nat) -> bool {
    let k = name.len() as int;
    let m = lesser(len, 2 * code.len());
    &&& piece.len() == k + 3 + m
    &&& piece[0] == '['
    &&& piece.subrange(1, 1 + k) == name
    &&& piece[1 + k] == ':'
    &&& forall|i: int| 0 <= i < m ==> is_hex_of(#[trigger] piece[k + 2 + i], nibble(code, i))
    &&& piece.last() == ']'
}

/// The piece is token number `n`: in double brackets, the prefix, a colon, and the number in
/// decimal digits.
pub open spec fn is_token(piece: Seq<char>, prefix: Seq<char>, n: nat) -> bool {
    let k = prefix.len() as int;
    let m = piece.len() as int;
    &&& m > k + 5
    &&& piece[0] == '[' && piece[1] == '['
    &&& piece.subrange(2, 2 + k) == prefix
    &&& piece[2 + k] == ':'
    &&& all_digits(piece.subrange(3 + k, m - 2))
    &&& value(piece.subrange(3 + k, m - 2)) == n
    &&& piece[m - 2] == ']' && piece[m - 1] == ']'
}

/// The character at place `i` of a value shows under a policy that covers the middle: it belongs
/// to the first or the last ones that may show, and those are not all.
pub open spec fn shows_through(v: Seq<char>, keep_prefix: int, keep_suffix: int, i: int) -> bool {
    keep_prefix + keep_suffix < v.len() && (i < keep_prefix || v.len() - i <= keep_suffix)
}

/// The piece is what a policy leaves of a value.
pub open spec fn stands_for(piece: Seq<char>, policy: Policy, v: Seq<char>, entity: EntityKind, prefix: Seq<char>, n: nat) -> bool {
    match policy {
        Policy::Redact(Redaction::Label) => bracketed(piece, entity.label_text()),
        Policy::Redact(Redaction::Code) => bracketed(piece, entity.code_upper_text()),
        Policy::Redact(Redaction::Fill(c)) => piece.len() == v.len() && forall|i: int|
            0 <= i < piece.len() ==> #[trigger] piece[i] == c,
        Policy::Redact(Redaction::Fixed(s)) => piece == s@,
        Policy::Partial { keep_prefix, keep_suffix, fill } => piece.len() == v.len() && forall|i: int|
            #![trigger piece[i]]
            0 <= i < v.len() ==> piece[i] == if shows_through(v, keep_prefix as int, keep_suffix as int, i) {
                v[i]
            } else {
                fill
            },
        Policy::Hash { key, len } => is_pseudonym(
            piece,
            entity.code_upper_text(),
            hmac_sha256(key@, encode_utf8(v)),
            len as nat,
        ),
        Policy::Tokenize => is_token(piece, prefix, n),
    }
}

proof fn lemma_hex(code: Seq<u8>, len: nat)
    ensures
        hex_text(code, len).len() == lesser(len, 2 * code.len()),
        forall|i: int|
            0 <= i < lesser(len, 2 * code.len()) ==> is_hex_of(#[trigger] hex_text(code, len)[i], nibble(code, i)),
{
    assert forall|i: int| 0 <= i < lesser(len, 2 * code.len()) implies is_hex_of(
        #[trigger] hex_text(code, len)[i],
        nibble(code, i),
    ) by {
        let b = code[i / 2];
        assert(b / 16 < 16 && b % 16 < 16);
    }
}

/// Each policy leaves of a value what it is meant to leave.
pub proof fn law_policies_leave_what_they_say(policy: Policy, v: Seq<char>, entity: EntityKind, prefix: Seq<char>, n: nat)
    ensures
        stands_for(rendered(policy, v, entity, prefix, n), policy, v, entity, prefix, n),
{
    reveal_strlit("[");
    reveal_strlit("]");
    reveal_strlit(":");
    reveal_strlit("[[");
    reveal_strlit("]]");
    let r = rendered(policy, v, entity, prefix, n);
    match policy {
        Policy::Redact(Redaction::Label) => {
            assert(r.subrange(1, r.len() - 1) =~= entity.label_text());
        },
        Policy::Redact(Redaction::Code) => {
            assert(r.subrange(1, r.len() - 1) =~= entity.code_upper_text());
        },
        Policy::Hash { key, len } => {
            let code = hmac_sha256(key@, encode_utf8(v));
            let name = entity.code_upper_text();
            let k = name.len() as int;
            lemma_hex(code, len as nat);
            assert(r.subrange(1, 1 + k) =~= name);
            assert forall|i: int| 0 <= i < lesser(len as nat, 2 * code.len()) implies is_hex_of(
                #[trigger] r[k + 2 + i],
                nibble(code, i),
            ) by {
                assert(r[k + 2 + i] == hex_text(code, len as nat)[i]);
            }
        },
        Policy::Tokenize => {
            let k = prefix.len() as int;
            let m = r.len() as int;
            lemma_decimal_digits(n);
            lemma_decimal_value(n);
            assert(r.subrange(2, 2 + k) =~= prefix);
            assert(r.subrange(3 + k, m - 2) =~= decimal(n));
        },
        _ => {},
    }
}

/// Two values of one kind get the same pseudonym exactly if their codes under the key agree in all
/// the hexadecimal digits that remain.
pub proof fn law_pseudonyms_tell_values_apart(
    key: Vec<u8>,
    len: usize,
    a: Seq<char>,
    b: Seq<char>,
    entity: EntityKind,
    prefix: Seq<char>,
    n: nat,
    m: nat,
)
    ensures
        ({
            let policy = Policy::Hash { key, len };
            let x = hmac_sha256(key@, encode_utf8(a));
            let y = hmac_sha256(key@, encode_utf8(b));
            x.len() == y.len() ==> (rendered(policy, a, entity, prefix, n) == rendered(policy, b, entity, prefix, m)
                <==> forall|i: int| 0 <= i < lesser(len as nat, 2 * x.len()) ==> #[trigger] nibble(x, i) == nibble(y, i))
        }),
{
    let policy = Policy::Hash { key, len };
    let x = hmac_sha256(key@, encode_utf8(a));
    let y = hmac_sha256(key@, encode_utf8(b));
    let r = rendered(policy, a, entity, prefix, n);
    let q = rendered(policy, b, entity, prefix, m);
    let k = entity.code_upper_text().len() as int;
    if x.len() == y.len() {
        law_policies_leave_what_they_say(policy, a, entity, prefix, n);
        law_policies_leave_what_they_say(policy, b, entity, prefix, m);
        let count = lesser(len as nat, 2 * x.len()) as int;
        if r == q {
            assert forall|i: int| 0 <= i < count implies #[trigger] nibble(x, i) == nibble(y, i) by {
                assert(is_hex_of(r[k + 2 + i], nibble(x, i)));
                assert(is_hex_of(q[k + 2 + i], nibble(y, i)));
            }
        }
        if forall|i: int| 0 <= i < count ==> #[trigger] nibble(x, i) == nibble(y, i) {
            assert forall|i: int| 0 <= i < r.len() implies r[i] == q[i] by {
                if 1 <= i < 1 + k {
                    assert(r.subrange(1, 1 + k)[i - 1] == q.subrange(1, 1 + k)[i - 1]);
                } else if k + 2 <= i < k + 2 + count {
                    let d = i - (k + 2);
                    assert(nibble(x, d) == nibble(y, d));
                    assert(is_hex_of(r[k + 2 + d], nibble(x, d)));
                    assert(is_hex_of(q[k + 2 + d], nibble(y, d)));
                    crate::text::lemma_code_point_injective(r[i], q[i]);
                }
            }
            assert(r =~= q);
        }
    }
}

/// Two tokens with one prefix are equal only if their numbers are.
pub proof fn law_tokens_differ(v: Seq<char>, w: Seq<char>, entity: EntityKind, kind: EntityKind, prefix: Seq<char>, n: nat, m: nat)
    requires
        rendered(Policy::Tokenize, v, entity, prefix, n) == rendered(Policy::Tokenize, w, kind, prefix, m),
    ensures
        n == m,
{
    law_policies_leave_what_they_say(Policy::Tokenize, v, entity, prefix, n);
    law_policies_leave_what_they_say(Policy::Tokenize, w, kind, prefix, m);
}

/// What the tokens of a masked text are called, if it has any.
pub open spec fn prefix_of(out: MaskOutput) -> Seq<char> {
    match out.restore {
        Some(map) => map.prefix@,
        None => Seq::empty(),
    }
}

/// A piece stands for finding `k`, which covers the stretch, by the policy of its kind. Tokens are
/// numbered in the order of the findings.
pub open spec fn stands_for_finding(
    piece: Seq<char>,
    t: Seq<char>,
    applied: Seq<FindingModel>,
    k: int,
    stretch: (int, int),
    policies: PolicySet,
    prefix: Seq<char>,
) -> bool {
    let f = applied[k];
    &&& utf8_len(t.take(stretch.0)) == f.source.byte.start
    &&& utf8_len(t.take(stretch.1)) == f.source.byte.end
    &&& stands_for(
        piece,
        policies.assigned(f.entity),
        t.subrange(stretch.0, stretch.1),
        f.entity,
        prefix,
        token_count(applied, policies, k),
    )
}

/// Pieces stand for all findings.
pub open spec fn all_stand_for(
    pieces: Seq<Seq<char>>,
    t: Seq<char>,
    applied: Seq<FindingModel>,
    stretches: Seq<(int, int)>,
    policies: PolicySet,
    prefix: Seq<char>,
) -> bool {
    &&& pieces.len() == applied.len()
    &&& stretches.len() == applied.len()
    &&& forall|k: int|
        0 <= k < pieces.len() ==> stands_for_finding(
            #[trigger] pieces[k],
            t,
            applied,
            k,
            stretches[k],
            policies,
            prefix,
        )
}

proof fn lemma_applied_on_characters(t: Seq<char>, ms: Seq<FindingModel>, n: int)
    requires
        on_characters(t, ms),
        0 <= n <= ms.len(),
    ensures
        forall|k: int|
            0 <= k < applied_of(ms, utf8_len(t) as int, n).len() ==> applies(
                #[trigger] applied_of(ms, utf8_len(t) as int, n)[k],
                0,
                utf8_len(t) as int,
            ) && ms.contains(applied_of(ms, utf8_len(t) as int, n)[k]),
    decreases n,
{
    let len = utf8_len(t) as int;
    if n > 0 {
        lemma_applied_on_characters(t, ms, n - 1);
        lemma_applied_in_sequence(t, ms, n - 1);
        let prev = applied_of(ms, len, n - 1);
        let all = applied_of(ms, len, n);
        assert forall|k: int| 0 <= k < all.len() implies applies(#[trigger] all[k], 0, len) && ms.contains(all[k]) by {
            if k < prev.len() {
                assert(all[k] == prev[k]);
            } else {
                assert(all[k] == ms[n - 1]);
            }
        }
    } else {
        assert(applied_of(ms, len, n).len() == 0);
    }
}

/// In a masked text, in place of the bytes of each finding that applies, stands what the policy of
/// its kind leaves of exactly those bytes, and nothing else is changed.
pub proof fn law_masked_text_holds_the_pieces(t: Seq<char>, fs: Seq<FindingModel>, policies: PolicySet, out: MaskOutput)
    requires
        on_characters(t, fs),
        out.masks(t, fs, policies),
    ensures
        ({
            let applied = applied_to(t, fs);
            let stretches = stretches_of(t, applied);
            let prefix = prefix_of(out);
            &&& in_sequence(t, stretches)
            &&& exists|pieces: Seq<Seq<char>>|
                out.text@ == #[trigger] woven(t, stretches, pieces) && all_stand_for(
                    pieces,
                    t,
                    applied,
                    stretches,
                    policies,
                    prefix,
                )
        }),
{
    let ms = sorted(fs);
    let applied = applied_to(t, fs);
    let stretches = stretches_of(t, applied);
    let prefix = prefix_of(out);
    let pieces = replacements_of(t, applied, policies, prefix);
    lemma_sorted_len(fs);
    lemma_sorted_on_characters(t, fs);
    lemma_applied_in_sequence(t, ms, fs.len() as int);
    lemma_applied_on_characters(t, ms, fs.len() as int);
    assert forall|k: int| 0 <= k < pieces.len() implies stands_for_finding(
        #[trigger] pieces[k],
        t,
        applied,
        k,
        stretches[k],
        policies,
        prefix,
    ) by {
        let f = applied[k];
        assert(applies(f, 0, utf8_len(t) as int) && ms.contains(f));
        let i = choose|i: int| 0 <= i < ms.len() && ms[i] == f;
        assert(applies(ms[i], 0, utf8_len(t) as int));
        lemma_boundary_index(t, f.source.byte.start as int);
        lemma_boundary_index(t, f.source.byte.end as int);
        assert(pieces[k] == replacement_of(t, applied, policies, prefix, k));
        law_policies_leave_what_they_say(
            policies.assigned(f.entity),
            t.subrange(stretches[k].0, stretches[k].1),
            f.entity,
            prefix,
            token_count(applied, policies, k),
        );
    }
    assert(all_stand_for(pieces, t, applied, stretches, policies, prefix));
    assert(out.text@ == woven(t, stretches, pieces));
}

} // verus!
