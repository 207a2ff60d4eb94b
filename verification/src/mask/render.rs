//! What takes the place of a value.

use hmac::{Hmac, Mac};
use sha2::Sha256;
use vstd::prelude::*;
use vstd::utf8::encode_utf8;
use crate::detect::entity::EntityKind;
use crate::mask::policy::{Policy, Redaction};
use crate::mask::restore::{token, RestoreMap};
use crate::text::to_chars;

verus! {

broadcast use crate::text::lemma_text_char_range;

/// The message authentication code of some data under a key: HMAC with SHA-256.
pub uninterp spec fn hmac_sha256(key: Seq<u8>, data: Seq<u8>) -> Seq<u8>;

/// `hmac::Hmac<sha2::Sha256>`: `new_from_slice` with the key, `update` with the data, and
/// `finalize`. A key of any length is accepted. The code is a function of key and data, and it has
/// 32 bytes, the output size of SHA-256.
#[verifier::external_body]
fn authentication_code(key: &[u8], data: &[u8]) -> (r: Vec<u8>)
    ensures
        r@ == hmac_sha256(key@, data@),
        r@.len() == 32,
{
    let mut mac = <Hmac<Sha256> as Mac>::new_from_slice(key).expect("any key length is accepted");
    mac.update(data);
    mac.finalize().into_bytes().to_vec()
}

/// A hexadecimal digit.
pub open spec fn hex_digit(n: int) -> char {
    if n < 10 {
        (48 + n) as char
    } else {
        (87 + n) as char
    }
}

/// Hexadecimal digit number `i` of some bytes.
pub open spec fn hex_at(bytes: Seq<u8>, i: int) -> char {
    if i % 2 == 0 {
        hex_digit((bytes[i / 2] / 16) as int)
    } else {
        hex_digit((bytes[i / 2] % 16) as int)
    }
}

/// The first `len` hexadecimal digits of some bytes, or all if there are fewer.
pub open spec fn hex_text(bytes: Seq<u8>, len: nat) -> Seq<char> {
    Seq::new(
        if len < 2 * bytes.len() {
            len
        } else {
            2 * bytes.len()
        },
        |i: int| hex_at(bytes, i),
    )
}

fn hex_char(n: u8) -> (r: char)
    requires
        n < 16,
    ensures
        r == hex_digit(n as int),
{
    if n < 10 {
        (48 + n) as char
    } else {
        (87 + n) as char
    }
}

/// The first `len` hexadecimal digits of some bytes, or all if there are fewer.
pub fn hex_prefix(bytes: &[u8], len: usize) -> (r: String)
    ensures
        r@ == hex_text(bytes@, len as nat),
{
    let mut out = String::new();
    let mut count: usize = 0;
    let mut i: usize = 0;
    while i < bytes.len() && count < len
        invariant
            i <= bytes@.len(),
            count <= len,
            count < len ==> count == 2 * i,
            count <= 2 * bytes@.len(),
            out@.len() == count,
            forall|k: int| 0 <= k < count ==> #[trigger] out@[k] == hex_at(bytes@, k),
        decreases bytes@.len() - i,
    {
        let b: u8 = bytes[i];
        assert((2 * i) / 2 == i && (2 * i + 1) / 2 == i);
        out.push(hex_char(b / 16));
        count += 1;
        if count < len {
            out.push(hex_char(b % 16));
            count += 1;
        }
        i += 1;
    }
    assert(out@ =~= hex_text(bytes@, len as nat));
    out
}

/// The first `len` hexadecimal digits of the authentication code of a text.
pub fn hmac_hex(key: &[u8], data: &str, len: usize) -> (r: String)
    ensures
        r@ == hex_text(hmac_sha256(key@, encode_utf8(data@)), len as nat),
{
    let code = authentication_code(key, data.as_bytes());
    hex_prefix(code.as_slice(), len)
}

/// A character, `n` times.
pub open spec fn repeated(c: char, n: nat) -> Seq<char> {
    Seq::new(n, |i: int| c)
}

/// A text with its middle covered, or all of it if nothing would be covered.
pub open spec fn covered_middle(s: Seq<char>, keep_prefix: int, keep_suffix: int, fill: char) -> Seq<char> {
    if keep_prefix + keep_suffix >= s.len() {
        repeated(fill, s.len())
    } else {
        s.take(keep_prefix) + repeated(fill, (s.len() - keep_prefix - keep_suffix) as nat) + s.skip(s.len() - keep_suffix)
    }
}

/// Covers the middle of a text. Lengths count characters.
pub fn partial(original: &str, keep_prefix: usize, keep_suffix: usize, fill: char) -> (r: String)
    ensures
        r@ == covered_middle(original@, keep_prefix as int, keep_suffix as int, fill),
{
    let chars = to_chars(original);
    let total: usize = chars.len();
    let all: bool = keep_prefix >= total || keep_suffix >= total - keep_prefix;
    let mut out = String::new();
    let mut i: usize = 0;
    while i < total
        invariant
            chars@ == original@,
            total == chars@.len(),
            all == (keep_prefix + keep_suffix >= total),
            i <= total,
            out@.len() == i,
            forall|k: int|
                0 <= k < i ==> #[trigger] out@[k] == if !all && (k < keep_prefix || k >= total - keep_suffix) {
                    original@[k]
                } else {
                    fill
                },
        decreases total - i,
    {
        if !all && (i < keep_prefix || i >= total - keep_suffix) {
            out.push(chars[i]);
        } else {
            out.push(fill);
        }
        i += 1;
    }
    assert(out@ =~= covered_middle(original@, keep_prefix as int, keep_suffix as int, fill));
    out
}

/// What takes the place of a value. Token number `n` is the next one.
pub open spec fn rendered(policy: Policy, original: Seq<char>, entity: EntityKind, prefix: Seq<char>, n: nat) -> Seq<char> {
    match policy {
        Policy::Redact(Redaction::Label) => "["@ + entity.label_text() + "]"@,
        Policy::Redact(Redaction::Code) => "["@ + entity.code_upper_text() + "]"@,
        Policy::Redact(Redaction::Fill(c)) => repeated(c, original.len()),
        Policy::Redact(Redaction::Fixed(s)) => s@,
        Policy::Partial { keep_prefix, keep_suffix, fill } => covered_middle(
            original,
            keep_prefix as int,
            keep_suffix as int,
            fill,
        ),
        Policy::Hash { key, len } => "["@ + entity.code_upper_text() + ":"@ + hex_text(
            hmac_sha256(key@, encode_utf8(original)),
            len as nat,
        ) + "]"@,
        Policy::Tokenize => token(prefix, n),
    }
}

fn in_brackets(inside: &str) -> (r: String)
    ensures
        r@ == "["@ + inside@ + "]"@,
{
    let mut out = String::from_str("[");
    out.append(inside);
    out.append("]");
    out
}

fn repeat(c: char, n: usize) -> (r: String)
    ensures
        r@ == repeated(c, n as nat),
{
    let mut out = String::new();
    let mut i: usize = 0;
    while i < n
        invariant
            i <= n,
            out@ =~= repeated(c, i as nat),
        decreases n - i,
    {
        out.push(c);
        i += 1;
    }
    out
}

/// Applies a policy that makes no token.
fn render_plain(policy: &Policy, original: &str, entity: EntityKind) -> (r: String)
    requires
        !(*policy is Tokenize),
    ensures
        forall|prefix: Seq<char>, n: nat| r@ == #[trigger] rendered(*policy, original@, entity, prefix, n),
{
    match policy {
        Policy::Redact(Redaction::Label) => in_brackets(entity.label()),
        Policy::Redact(Redaction::Code) => in_brackets(entity.code_upper()),
        Policy::Redact(Redaction::Fill(c)) => repeat(*c, to_chars(original).len()),
        Policy::Redact(Redaction::Fixed(s)) => s.clone(),
        Policy::Partial { keep_prefix, keep_suffix, fill } => partial(original, *keep_prefix, *keep_suffix, *fill),
        Policy::Hash { key, len } => {
            let mut out = String::from_str("[");
            out.append(entity.code_upper());
            out.append(":");
            out.append(hmac_hex(key.as_slice(), original, *len).as_str());
            out.append("]");
            out
        },
        Policy::Tokenize => String::new(),
    }
}

/// Applies a policy to a value. A token is recorded in the map.
pub fn render(policy: &Policy, original: &str, entity: EntityKind, map: &mut RestoreMap) -> (r: String)
    ensures
        r@ == rendered(*policy, original@, entity, old(map).prefix@, old(map).entries@.len()),
        final(map).prefix@ == old(map).prefix@,
        !(*policy is Tokenize) ==> final(map).entries@ == old(map).entries@,
        *policy is Tokenize ==> {
            &&& final(map).entries@.len() == old(map).entries@.len() + 1
            &&& final(map).entries@.drop_last() == old(map).entries@
            &&& final(map).entries@.last().token@ == r@
            &&& final(map).entries@.last().original@ == original@
            &&& final(map).entries@.last().entity == entity
        },
{
    if let Policy::Tokenize = policy {
        map.push(entity, original)
    } else {
        render_plain(policy, original, entity)
    }
}

} // verus!
