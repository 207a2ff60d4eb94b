//! Characters, UTF-8 offsets and the few string operations that the rest of the library needs.
//!
//! A text is modelled as a `Seq<char>`. Byte offsets are the UTF-8 lengths of its prefixes.

use vstd::prelude::*;
use vstd::utf8::{
    encode_scalar, encode_utf8, encode_utf8_decode_utf8, encode_utf8_valid_utf8, is_char_boundary,
};

verus! {

/// Number of bytes in the UTF-8 encoding of a character.
pub open spec fn char_width(c: char) -> nat {
    if c as u32 <= 0x7f {
        1
    } else if c as u32 <= 0x7ff {
        2
    } else if c as u32 <= 0xffff {
        3
    } else {
        4
    }
}

/// Number of bytes in the UTF-8 encoding of a text.
pub open spec fn utf8_len(s: Seq<char>) -> nat
    decreases s.len(),
{
    if s.len() == 0 {
        0
    } else {
        utf8_len(s.drop_last()) + char_width(s.last())
    }
}

proof fn lemma_char_range(c: char)
    ensures
        0 <= c as int <= 0xd7ff || 0xe000 <= c as int <= 0x10ffff,
{
}

/// A character is what its code point stands for.
pub proof fn lemma_char_of(c: char, code: int)
    requires
        c as u32 == code,
    ensures
        code as char == c,
{
}

/// Every character of a text is a Unicode scalar value.
pub broadcast proof fn lemma_text_char_range(s: Seq<char>, i: int)
    ensures
        0 <= (#[trigger] s[i]) as int <= 0xd7ff || 0xe000 <= s[i] as int <= 0x10ffff,
{
    lemma_char_range(s[i]);
}

/// UTF-8 lengths add up.
pub proof fn lemma_utf8_len_add(a: Seq<char>, b: Seq<char>)
    ensures
        utf8_len(a + b) == utf8_len(a) + utf8_len(b),
    decreases b.len(),
{
    if b.len() == 0 {
        assert(a + b =~= a);
    } else {
        assert((a + b).drop_last() =~= a + b.drop_last());
        assert((a + b).last() == b.last());
        lemma_utf8_len_add(a, b.drop_last());
    }
}

pub proof fn lemma_utf8_len_push(s: Seq<char>, c: char)
    ensures
        utf8_len(s.push(c)) == utf8_len(s) + char_width(c),
{
    assert(s.push(c).drop_last() =~= s);
}

/// Between one and four bytes per character.
pub proof fn lemma_utf8_len_bounds(s: Seq<char>)
    ensures
        s.len() <= utf8_len(s) <= 4 * s.len(),
    decreases s.len(),
{
    if s.len() > 0 {
        lemma_utf8_len_bounds(s.drop_last());
    }
}

/// The byte offset of a character position grows with the position.
pub proof fn lemma_utf8_len_split(s: Seq<char>, i: int, j: int)
    requires
        0 <= i <= j <= s.len(),
    ensures
        utf8_len(s.take(j)) == utf8_len(s.take(i)) + utf8_len(s.subrange(i, j)),
        utf8_len(s.take(i)) + (j - i) <= utf8_len(s.take(j)),
        utf8_len(s) == utf8_len(s.take(j)) + utf8_len(s.skip(j)),
{
    assert(s.take(j) =~= s.take(i) + s.subrange(i, j));
    lemma_utf8_len_add(s.take(i), s.subrange(i, j));
    lemma_utf8_len_bounds(s.subrange(i, j));
    assert(s =~= s.take(j) + s.skip(j));
    lemma_utf8_len_add(s.take(j), s.skip(j));
}

/// Distinct character positions have distinct byte offsets.
pub proof fn lemma_utf8_offset_injective(s: Seq<char>, i: int, j: int)
    requires
        0 <= i <= s.len(),
        0 <= j <= s.len(),
        utf8_len(s.take(i)) == utf8_len(s.take(j)),
    ensures
        i == j,
{
    if i < j {
        lemma_utf8_len_split(s, i, j);
    } else if j < i {
        lemma_utf8_len_split(s, j, i);
    }
}

proof fn lemma_encode_scalar_len(c: char)
    ensures
        encode_scalar(c as u32).len() == char_width(c),
{
}

proof fn lemma_encode_concat(a: Seq<char>, b: Seq<char>)
    ensures
        encode_utf8(a + b) == encode_utf8(a) + encode_utf8(b),
    decreases a.len(),
{
    if a.len() == 0 {
        assert(a + b =~= b);
        assert(encode_utf8(a) + encode_utf8(b) =~= encode_utf8(b));
    } else {
        assert((a + b).drop_first() =~= a.drop_first() + b);
        lemma_encode_concat(a.drop_first(), b);
        assert(encode_utf8(a + b) =~= encode_utf8(a) + encode_utf8(b));
    }
}

/// The UTF-8 length is the length of the encoding.
pub proof fn lemma_utf8_len_is_encoding_len(s: Seq<char>)
    ensures
        utf8_len(s) == encode_utf8(s).len(),
    decreases s.len(),
{
    if s.len() > 0 {
        lemma_utf8_len_is_encoding_len(s.drop_last());
        let c = seq![s.last()];
        assert(s =~= s.drop_last() + c);
        lemma_encode_concat(s.drop_last(), c);
        assert(c.drop_first() =~= Seq::<char>::empty());
        assert(encode_utf8(c.drop_first()) =~= Seq::<u8>::empty());
        lemma_encode_scalar_len(s.last());
    }
}

/// Two texts with the same encoding are the same text.
pub proof fn lemma_encoding_injective(a: Seq<char>, b: Seq<char>)
    requires
        encode_utf8(a) == encode_utf8(b),
    ensures
        a == b,
{
    encode_utf8_decode_utf8(a);
    encode_utf8_decode_utf8(b);
}

/// The byte offset of a character position is a character boundary.
pub proof fn lemma_offset_is_boundary(s: Seq<char>, i: int)
    requires
        0 <= i <= s.len(),
    ensures
        is_char_boundary(encode_utf8(s), utf8_len(s.take(i)) as int),
        encode_utf8(s).subrange(0, utf8_len(s.take(i)) as int) == encode_utf8(s.take(i)),
        encode_utf8(s).subrange(utf8_len(s.take(i)) as int, encode_utf8(s).len() as int) == encode_utf8(
            s.skip(i),
        ),
    decreases i,
{
    let a = s.take(i);
    let b = s.skip(i);
    assert(s =~= a + b);
    lemma_encode_concat(a, b);
    lemma_utf8_len_is_encoding_len(a);
    assert(encode_utf8(s).subrange(0, utf8_len(a) as int) =~= encode_utf8(a));
    assert(encode_utf8(s).subrange(utf8_len(a) as int, encode_utf8(s).len() as int) =~= encode_utf8(b));
    encode_utf8_valid_utf8(s);
    if i > 0 {
        let t = s.drop_first();
        lemma_offset_is_boundary(t, i - 1);
        vstd::utf8::encode_utf8_first_scalar(s);
        let h = seq![s[0]];
        assert(a =~= h + t.take(i - 1));
        lemma_utf8_len_add(h, t.take(i - 1));
        reveal_with_fuel(utf8_len, 2);
        lemma_encode_scalar_len(s[0]);
        let bytes = encode_utf8(s);
        assert(vstd::utf8::pop_first_scalar(bytes) =~= encode_utf8(t));
        assert(utf8_len(a) == char_width(s[0]) + utf8_len(t.take(i - 1)));
        assert(vstd::utf8::length_of_first_scalar(bytes) == char_width(s[0]));
        lemma_utf8_len_split(s, 0, i);
        lemma_utf8_len_is_encoding_len(s);
    }
}

/// A character boundary is the byte offset of a character position.
pub proof fn lemma_boundary_is_offset(s: Seq<char>, b: int)
    requires
        is_char_boundary(encode_utf8(s), b),
    ensures
        exists|i: int| 0 <= i <= s.len() && utf8_len(#[trigger] s.take(i)) == b,
    decreases s.len(),
{
    encode_utf8_valid_utf8(s);
    if b == 0 {
        assert(s.take(0) =~= Seq::<char>::empty());
        assert(utf8_len(s.take(0)) == 0);
    } else {
        let bytes = encode_utf8(s);
        assert(s.len() > 0);
        let t = s.drop_first();
        let h = seq![s[0]];
        vstd::utf8::encode_utf8_first_scalar(s);
        lemma_encode_scalar_len(s[0]);
        assert(vstd::utf8::pop_first_scalar(bytes) =~= encode_utf8(t));
        lemma_boundary_is_offset(t, b - char_width(s[0]));
        let i = choose|i: int| 0 <= i <= t.len() && utf8_len(#[trigger] t.take(i)) == b - char_width(s[0]);
        assert(s.take(i + 1) =~= h + t.take(i));
        lemma_utf8_len_add(h, t.take(i));
        reveal_with_fuel(utf8_len, 2);
        assert(utf8_len(s.take(i + 1)) == b);
    }
}

/// UTF-8 width of a character.
pub fn width(c: char) -> (r: u32)
    ensures
        r == char_width(c),
{
    let v: u32 = c as u32;
    if v <= 0x7f {
        1
    } else if v <= 0x7ff {
        2
    } else if v <= 0xffff {
        3
    } else {
        4
    }
}

/// Byte length of a text.
pub fn byte_len(s: &str) -> (r: usize)
    ensures
        r == utf8_len(s@),
{
    proof {
        lemma_utf8_len_is_encoding_len(s@);
    }
    s.as_bytes().len()
}

/// The characters of a text.
pub fn to_chars(s: &str) -> (r: Vec<char>)
    ensures
        r@ == s@,
{
    let mut out: Vec<char> = Vec::new();
    for c in it: s.chars()
        invariant
            out@ =~= s@.take(it.index()),
            it.seq() == s@,
    {
        out.push(c);
    }
    out
}

/// Number of characters in a text.
pub fn char_count(s: &str) -> (r: usize)
    ensures
        r == s@.len(),
{
    to_chars(s).len()
}

/// The byte offset of every character position, the end included.
pub fn offsets(chars: &[char]) -> (r: Vec<u32>)
    requires
        utf8_len(chars@) <= u32::MAX,
    ensures
        r@.len() == chars@.len() + 1,
        forall|i: int| 0 <= i <= chars@.len() ==> #[trigger] r@[i] == utf8_len(chars@.take(i)),
{
    let mut out: Vec<u32> = Vec::new();
    let mut byte: u32 = 0;
    out.push(0);
    assert(chars@.take(0) =~= Seq::<char>::empty());
    let mut i: usize = 0;
    while i < chars.len()
        invariant
            i <= chars@.len(),
            utf8_len(chars@) <= u32::MAX,
            byte == utf8_len(chars@.take(i as int)),
            out@.len() == i + 1,
            forall|k: int| 0 <= k <= i ==> #[trigger] out@[k] == utf8_len(chars@.take(k)),
        decreases chars@.len() - i,
    {
        proof {
            lemma_utf8_len_split(chars@, i as int, i + 1);
            lemma_utf8_len_split(chars@, i + 1, i + 1);
            assert(chars@.take(i + 1) =~= chars@.take(i as int).push(chars@[i as int]));
            lemma_utf8_len_push(chars@.take(i as int), chars@[i as int]);
        }
        byte += width(chars[i]);
        out.push(byte);
        i += 1;
    }
    out
}

/// `String::push` appends one character.
pub assume_specification[ String::push ](s: &mut String, c: char)
    ensures
        final(s)@ == old(s)@.push(c),
;

/// The text made of a run of characters.
pub fn from_chars(chars: &[char]) -> (r: String)
    ensures
        r@ == chars@,
{
    let mut out: String = String::new();
    let mut i: usize = 0;
    while i < chars.len()
        invariant
            i <= chars.len(),
            out@ == chars@.take(i as int),
        decreases chars.len() - i,
    {
        out.push(chars[i]);
        assert(chars@.take(i + 1) =~= chars@.take(i as int).push(chars@[i as int]));
        i += 1;
    }
    assert(chars@.take(i as int) =~= chars@);
    out
}

/// The part of a text between two byte offsets that are known to be the character positions
/// `i` and `j`.
pub fn cut<'a>(s: &'a str, from: usize, to: usize, Ghost(i): Ghost<int>, Ghost(j): Ghost<int>) -> (r: &'a str)
    requires
        0 <= i <= j <= s@.len(),
        from == utf8_len(s@.take(i)),
        to == utf8_len(s@.take(j)),
    ensures
        r@ == s@.subrange(i, j),
{
    proof {
        lemma_offset_is_boundary(s@, j);
        lemma_utf8_len_split(s@, i, j);
        assert(s@.take(j).take(i) =~= s@.take(i));
        lemma_offset_is_boundary(s@.take(j), i);
        lemma_utf8_len_is_encoding_len(s@);
        assert(s@.take(j).skip(i) =~= s@.subrange(i, j));
    }
    let head = s.split_at(to).0;
    proof {
        lemma_encoding_injective(head@, s@.take(j));
    }
    let tail = head.split_at(from).1;
    proof {
        lemma_encoding_injective(tail@, s@.subrange(i, j));
    }
    tail
}

/// Whether two texts hold the same characters.
pub fn same_text(a: &str, b: &str) -> (r: bool)
    ensures
        r == (a@ == b@),
{
    let x = to_chars(a);
    let y = to_chars(b);
    if x.len() != y.len() {
        return false;
    }
    let mut i: usize = 0;
    while i < x.len()
        invariant
            i <= x.len(),
            x.len() == y.len(),
            x@ == a@,
            y@ == b@,
            forall|k: int| 0 <= k < i ==> x@[k] == y@[k],
        decreases x.len() - i,
    {
        if x[i] != y[i] {
            return false;
        }
        i += 1;
    }
    assert(a@ =~= b@);
    true
}

/// Strict lexicographic order by code point.
pub open spec fn lex_less(a: Seq<char>, b: Seq<char>) -> bool
    decreases a.len(),
{
    if b.len() == 0 {
        false
    } else if a.len() == 0 {
        true
    } else if a[0] != b[0] {
        (a[0] as u32) < (b[0] as u32)
    } else {
        lex_less(a.drop_first(), b.drop_first())
    }
}

pub proof fn lemma_code_point_injective(a: char, b: char)
    requires
        a as u32 == b as u32,
    ensures
        a == b,
{
}

pub proof fn lemma_lex_irreflexive(a: Seq<char>)
    ensures
        !lex_less(a, a),
    decreases a.len(),
{
    if a.len() > 0 {
        lemma_lex_irreflexive(a.drop_first());
    }
}

pub proof fn lemma_lex_transitive(a: Seq<char>, b: Seq<char>, c: Seq<char>)
    requires
        lex_less(a, b),
        lex_less(b, c),
    ensures
        lex_less(a, c),
    decreases a.len(),
{
    if a.len() > 0 && a[0] == b[0] && b[0] == c[0] {
        lemma_lex_transitive(a.drop_first(), b.drop_first(), c.drop_first());
    }
}

pub proof fn lemma_lex_total(a: Seq<char>, b: Seq<char>)
    ensures
        lex_less(a, b) || a == b || lex_less(b, a),
    decreases a.len(),
{
    if a.len() == 0 || b.len() == 0 {
        if a.len() == 0 && b.len() == 0 {
            assert(a =~= b);
        }
    } else if a[0] != b[0] {
        if a[0] as u32 == b[0] as u32 {
            lemma_code_point_injective(a[0], b[0]);
        }
    } else {
        lemma_lex_total(a.drop_first(), b.drop_first());
        if a.drop_first() == b.drop_first() {
            assert(a =~= seq![a[0]] + a.drop_first());
            assert(b =~= seq![b[0]] + b.drop_first());
        }
    }
}

/// Whether `a` comes strictly before `b` in code point order.
pub fn text_less(a: &str, b: &str) -> (r: bool)
    ensures
        r == lex_less(a@, b@),
{
    let x = to_chars(a);
    let y = to_chars(b);
    let mut i: usize = 0;
    proof {
        assert(a@.skip(0) =~= a@);
        assert(b@.skip(0) =~= b@);
    }
    while i < x.len() && i < y.len()
        invariant
            i <= x.len(),
            i <= y.len(),
            x@ == a@,
            y@ == b@,
            lex_less(a@, b@) == lex_less(a@.skip(i as int), b@.skip(i as int)),
        decreases x.len() - i,
    {
        if x[i] != y[i] {
            return (x[i] as u32) < (y[i] as u32);
        }
        assert(a@.skip(i as int).drop_first() =~= a@.skip(i + 1));
        assert(b@.skip(i as int).drop_first() =~= b@.skip(i + 1));
        i += 1;
    }
    i < y.len()
}

/// A decimal digit.
pub open spec fn is_digit(c: char) -> bool {
    '0' <= c <= '9'
}

/// Whether a character is a decimal digit.
pub fn digit_like(c: char) -> (r: bool)
    ensures
        r == is_digit(c),
{
    '0' <= c && c <= '9'
}

/// An ASCII letter.
pub open spec fn is_letter(c: char) -> bool {
    'a' <= c <= 'z' || 'A' <= c <= 'Z'
}

/// An ASCII letter or digit.
pub open spec fn is_word(c: char) -> bool {
    is_letter(c) || is_digit(c)
}

/// Whether a character is an ASCII letter.
pub fn letter_like(c: char) -> (r: bool)
    ensures
        r == is_letter(c),
{
    ('a' <= c && c <= 'z') || ('A' <= c && c <= 'Z')
}

/// Whether a character is an ASCII letter or digit.
pub fn word_like(c: char) -> (r: bool)
    ensures
        r == is_word(c),
{
    letter_like(c) || digit_like(c)
}

/// A character with the Unicode property `White_Space`.
pub open spec fn is_white(c: char) -> bool {
    let v = c as u32;
    ||| 0x09 <= v <= 0x0D
    ||| v == 0x20
    ||| v == 0x85
    ||| v == 0xA0
    ||| v == 0x1680
    ||| 0x2000 <= v <= 0x200A
    ||| v == 0x2028
    ||| v == 0x2029
    ||| v == 0x202F
    ||| v == 0x205F
    ||| v == 0x3000
}

/// Whether a character is whitespace.
pub fn white(c: char) -> (r: bool)
    ensures
        r == is_white(c),
{
    let v: u32 = c as u32;
    (0x09 <= v && v <= 0x0D) || v == 0x20 || v == 0x85 || v == 0xA0 || v == 0x1680 || (0x2000 <= v && v <= 0x200A) || v
        == 0x2028 || v == 0x2029 || v == 0x202F || v == 0x205F || v == 0x3000
}

/// The character for a decimal digit.
pub open spec fn digit_char(d: int) -> char
    recommends
        0 <= d < 10,
{
    (48 + d) as char
}

/// A number in decimal, without leading zeros.
pub open spec fn decimal(n: nat) -> Seq<char>
    decreases n,
{
    if n < 10 {
        seq![digit_char(n as int)]
    } else {
        decimal(n / 10).push(digit_char((n % 10) as int))
    }
}

/// The character for a decimal digit.
pub fn digit(d: u64) -> (r: char)
    requires
        d < 10,
    ensures
        r == digit_char(d as int),
{
    (48 + d as u8) as char
}

/// Appends a number in decimal.
pub fn push_decimal(out: &mut String, n: u64)
    ensures
        final(out)@ == old(out)@ + decimal(n as nat),
    decreases n,
{
    if n >= 10 {
        push_decimal(out, n / 10);
    }
    out.push(digit(n % 10));
    assert(out@ =~= old(out)@ + decimal(n as nat));
}

/// The word stands at position `i`.
pub open spec fn stands_at(t: Seq<char>, i: int, word: Seq<char>) -> bool {
    0 <= i && i + word.len() <= t.len() && t.subrange(i, i + word.len()) == word
}

/// Whether the word stands at position `i`.
pub fn matches_at(chars: &[char], i: usize, word: &[char]) -> (r: bool)
    requires
        i + word@.len() <= chars@.len(),
    ensures
        r == stands_at(chars@, i as int, word@),
{
    let n: usize = chars.len();
    let mut k: usize = 0;
    while k < word.len()
        invariant
            k <= word@.len(),
            n == chars@.len(),
            i + word@.len() <= chars@.len(),
            forall|j: int| 0 <= j < k ==> chars@[i + j] == #[trigger] word@[j],
        decreases word@.len() - k,
    {
        if chars[i + k] != word[k] {
            proof {
                if stands_at(chars@, i as int, word@) {
                    assert(chars@.subrange(i as int, i + word@.len())[k as int] == word@[k as int]);
                }
            }
            return false;
        }
        k += 1;
    }
    assert(chars@.subrange(i as int, i + word@.len()) =~= word@);
    true
}

/// The first position from `i` on at which the word stands.
pub open spec fn first_from(t: Seq<char>, word: Seq<char>, i: int) -> Option<int>
    decreases t.len() - i,
{
    if i < 0 || i + word.len() > t.len() {
        None
    } else if stands_at(t, i, word) {
        Some(i)
    } else if i >= t.len() {
        None
    } else {
        first_from(t, word, i + 1)
    }
}

/// The word stands somewhere in the text.
pub open spec fn occurs(t: Seq<char>, word: Seq<char>) -> bool {
    exists|i: int| #[trigger] stands_at(t, i, word)
}

/// The first position is one, and the first.
pub proof fn lemma_first_from(t: Seq<char>, word: Seq<char>, i: int)
    requires
        0 <= i,
    ensures
        first_from(t, word, i) matches Some(p) ==> i <= p && stands_at(t, p, word) && forall|k: int|
            i <= k < p ==> !#[trigger] stands_at(t, k, word),
        first_from(t, word, i) is None ==> forall|k: int| i <= k ==> !#[trigger] stands_at(t, k, word),
    decreases t.len() - i,
{
    if i + word.len() <= t.len() && !stands_at(t, i, word) && i < t.len() {
        lemma_first_from(t, word, i + 1);
    }
}

/// A position with no earlier one is the first.
pub proof fn lemma_first_from_is(t: Seq<char>, word: Seq<char>, i: int, p: int)
    requires
        0 <= i <= p,
        stands_at(t, p, word),
        forall|k: int| i <= k < p ==> !#[trigger] stands_at(t, k, word),
    ensures
        first_from(t, word, i) == Some(p),
    decreases p - i,
{
    if i < p {
        assert(!stands_at(t, i, word));
        lemma_first_from_is(t, word, i + 1, p);
    }
}

/// The first position from `i` on at which the word stands.
pub fn find_from(chars: &[char], word: &[char], i: usize) -> (r: Option<usize>)
    requires
        i <= chars@.len(),
    ensures
        r is Some <==> first_from(chars@, word@, i as int) is Some,
        r matches Some(p) ==> first_from(chars@, word@, i as int) == Some(p as int) && p + word@.len() <= chars@.len(),
{
    let n: usize = chars.len();
    let m: usize = word.len();
    let mut at: usize = i;
    while m <= n && at <= n - m
        invariant
            n == chars@.len(),
            m == word@.len(),
            i <= at <= n,
            first_from(chars@, word@, i as int) == first_from(chars@, word@, at as int),
        decreases n - at,
    {
        if matches_at(chars, at, word) {
            return Some(at);
        }
        if at == n {
            return None;
        }
        at += 1;
    }
    None
}

/// Inserting an item adds it to the items.
pub proof fn lemma_insert_multiset<A>(s: Seq<A>, i: int, a: A)
    requires
        0 <= i <= s.len(),
    ensures
        s.insert(i, a).to_multiset() == s.to_multiset().insert(a),
{
    broadcast use vstd::seq_lib::group_to_multiset_ensures;

    let t = s.insert(i, a);
    assert(t.remove(i) =~= s);
    assert(t[i] == a);
    assert(t.contains(a));
    assert(t.to_multiset() =~= s.to_multiset().insert(a));
}

} // verus!
