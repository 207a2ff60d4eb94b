//! Restoring what was masked with tokens.
//!
//! A token is chosen so that it does not occur in the text, and the map holds what each token
//! stands for. Nothing is guessed.

use vstd::prelude::*;
use vstd::set_lib::{lemma_int_range, lemma_len_subset, set_int_range};
use crate::detect::checksum::all_digits;
use crate::detect::entity::EntityKind;
use crate::error::{Error, Result};
use crate::text::{
    decimal, digit_char, digit_like, find_from, first_from, from_chars, is_digit, lemma_first_from,
    occurs, push_decimal, stands_at, to_chars,
};

verus! {

broadcast use crate::text::lemma_text_char_range;

/// A token and what it stands for.
#[derive(Debug, Clone, PartialEq, Eq)]
pub struct RestoreEntry {
    /// The token in the masked text.
    pub token: String,
    /// What stood there.
    pub original: String,
    /// What kind it was.
    pub entity: EntityKind,
}

/// What the tokens of a masked text stand for.
///
/// The map is personal data itself. Kept next to the masked text, it undoes the masking.
#[derive(Debug, Clone, PartialEq, Eq)]
pub struct RestoreMap {
    /// What tokens are called, between the opening brackets and the number.
    pub prefix: String,
    /// The tokens, by their numbers.
    pub entries: Vec<RestoreEntry>,
}

impl Default for RestoreMap {
    fn default() -> (r: Self)
        ensures
            r.prefix@.len() == 0,
            r.entries@.len() == 0,
    {
        RestoreMap { prefix: String::new(), entries: Vec::new() }
    }
}

/// How a token with the given prefix begins.
pub open spec fn opening(prefix: Seq<char>) -> Seq<char> {
    "[["@ + prefix + ":"@
}

/// Token number `n`.
pub open spec fn token(prefix: Seq<char>, n: nat) -> Seq<char> {
    opening(prefix) + decimal(n) + "]]"@
}

/// The prefixes, in the order in which they are tried.
pub open spec fn prefix_name(k: nat) -> Seq<char> {
    if k == 0 {
        "PII"@
    } else {
        "PII"@ + decimal((k - 1) as nat)
    }
}

/// `PII` if it does not collide with the text, and else the first of `PII0`, `PII1` and so on that
/// does not.
pub open spec fn is_free_prefix(text: Seq<char>, prefix: Seq<char>) -> bool {
    exists|k: nat| #[trigger] is_first_free(text, prefix, k)
}

/// The prefix is number `k`, and no earlier one is free.
pub open spec fn is_first_free(text: Seq<char>, prefix: Seq<char>, k: nat) -> bool {
    &&& prefix == prefix_name(k)
    &&& !occurs(text, opening(prefix))
    &&& forall|j: nat| j < k ==> #[trigger] occurs(text, opening(prefix_name(j)))
}

/// A decimal number is made of digits.
pub proof fn lemma_decimal_digits(n: nat)
    ensures
        decimal(n).len() >= 1,
        forall|i: int| 0 <= i < decimal(n).len() ==> is_digit(#[trigger] decimal(n)[i]),
    decreases n,
{
    if n >= 10 {
        lemma_decimal_digits(n / 10);
    }
}

/// The value of digits, read from the left.
pub open spec fn value(s: Seq<char>) -> nat
    decreases s.len(),
{
    if s.len() == 0 {
        0
    } else {
        value(s.drop_last()) * 10 + ((s.last() as int - 48) as nat)
    }
}

/// Reading a decimal number gives the number.
pub proof fn lemma_decimal_value(n: nat)
    ensures
        value(decimal(n)) == n,
    decreases n,
{
    reveal_with_fuel(value, 2);
    if n < 10 {
        assert(decimal(n).drop_last() =~= Seq::<char>::empty());
        assert(decimal(n).last() == digit_char(n as int));
    } else {
        lemma_decimal_value(n / 10);
        assert(decimal(n).drop_last() =~= decimal(n / 10));
        assert(decimal(n).last() == digit_char((n % 10) as int));
    }
}

/// Two different prefixes cannot both begin a token at one position.
proof fn lemma_one_prefix_at(text: Seq<char>, i: int, a: nat, b: nat)
    requires
        stands_at(text, i, opening(prefix_name(a))),
        stands_at(text, i, opening(prefix_name(b))),
        a <= b,
    ensures
        a == b,
{
    if a < b {
        reveal_strlit("[[");
        reveal_strlit("PII");
        reveal_strlit(":");
        let x = opening(prefix_name(a));
        let y = opening(prefix_name(b));
        let n = x.len() as int;
        let m = y.len() as int;
        let db = decimal((b - 1) as nat);
        lemma_decimal_digits((b - 1) as nat);
        assert(text.subrange(i, i + n)[n - 1] == ':');
        assert(text[i + n - 1] == ':');
        assert(text.subrange(i, i + m)[m - 1] == ':');
        assert(text[i + m - 1] == ':');
        if a == 0 {
            assert(y[5] == db[0]);
            assert(text.subrange(i, i + m)[5] == y[5]);
            assert(x[5] == ':');
        } else {
            let da = decimal((a - 1) as nat);
            lemma_decimal_digits((a - 1) as nat);
            if n < m {
                assert(y[n - 1] == db[n - 6]);
                assert(text.subrange(i, i + m)[n - 1] == y[n - 1]);
            } else if m < n {
                assert(x[m - 1] == da[m - 6]);
                assert(text.subrange(i, i + n)[m - 1] == x[m - 1]);
            } else {
                assert(x == y);
                assert(da =~= x.subrange(5, n - 1));
                assert(db =~= y.subrange(5, m - 1));
                lemma_decimal_value((a - 1) as nat);
                lemma_decimal_value((b - 1) as nat);
            }
        }
    }
}

fn make_opening(prefix: &str) -> (r: String)
    ensures
        r@ == opening(prefix@),
{
    let mut out = String::from_str("[[");
    out.append(prefix);
    out.append(":");
    out
}

impl RestoreMap {
    /// An empty map whose tokens do not collide with a text.
    pub fn for_text(text: &str) -> (r: Self)
        ensures
            r.entries@.len() == 0,
            is_free_prefix(text@, r.prefix@),
    {
        let chars = to_chars(text);
        let ghost t = text@;
        let mut prefix = String::from_str("PII");
        let mut nth: u64 = 0;
        let ghost mut used: Set<int> = Set::empty();
        let mut open = to_chars(make_opening(prefix.as_str()).as_str());
        let mut hit = find_from(chars.as_slice(), open.as_slice(), 0);
        let n: u64 = chars.len() as u64;
        while hit.is_some()
            invariant
                chars@ == t,
                n == t.len(),
                prefix@ == prefix_name(nth as nat),
                open@ == opening(prefix@),
                hit is Some <==> first_from(t, open@, 0) is Some,
                forall|j: nat| j < nth ==> #[trigger] occurs(t, opening(prefix_name(j))),
                used.finite(),
                used.len() == nth,
                nth <= n,
                used.subset_of(set_int_range(0, n as int)),
                forall|i: int| used.contains(i) ==> exists|j: nat| j < nth && #[trigger] stands_at(t, i, opening(prefix_name(j))),
            decreases n - nth,
        {
            proof {
                lemma_first_from(t, open@, 0);
                let p = first_from(t, open@, 0).unwrap();
                assert(stands_at(t, p, opening(prefix_name(nth as nat))));
                assert(occurs(t, opening(prefix_name(nth as nat))));
                reveal_strlit(":");
                if used.contains(p) {
                    let j = choose|j: nat| j < nth && #[trigger] stands_at(t, p, opening(prefix_name(j)));
                    lemma_one_prefix_at(t, p, j, nth as nat);
                }
                let more = used.insert(p);
                lemma_int_range(0, n as int);
                assert(more.subset_of(set_int_range(0, n as int)));
                lemma_len_subset(more, set_int_range(0, n as int));
                assert forall|i: int| more.contains(i) implies exists|j: nat|
                    j < nth + 1 && #[trigger] stands_at(t, i, opening(prefix_name(j))) by {
                    if i != p {
                        let j = choose|j: nat| j < nth && #[trigger] stands_at(t, i, opening(prefix_name(j)));
                        assert(j < nth + 1 && stands_at(t, i, opening(prefix_name(j))));
                    } else {
                        assert(nth < nth + 1 && stands_at(t, p, opening(prefix_name(nth as nat))));
                    }
                }
                used = more;
            }
            prefix = String::from_str("PII");
            push_decimal(&mut prefix, nth);
            nth += 1;
            open = to_chars(make_opening(prefix.as_str()).as_str());
            hit = find_from(chars.as_slice(), open.as_slice(), 0);
        }
        proof {
            lemma_first_from(t, open@, 0);
            assert(!occurs(t, opening(prefix@))) by {
                if occurs(t, opening(prefix@)) {
                    let i = choose|i: int| #[trigger] stands_at(t, i, opening(prefix@));
                    assert(!stands_at(t, i, open@));
                }
            }
            assert(is_first_free(t, prefix@, nth as nat));
        }
        RestoreMap { prefix, entries: Vec::new() }
    }

    /// Records a value and returns the token that takes its place.
    pub fn push(&mut self, entity: EntityKind, original: &str) -> (r: String)
        ensures
            r@ == token(old(self).prefix@, old(self).entries@.len()),
            final(self).prefix@ == old(self).prefix@,
            final(self).entries@.len() == old(self).entries@.len() + 1,
            final(self).entries@.drop_last() == old(self).entries@,
            final(self).entries@.last().token@ == r@,
            final(self).entries@.last().original@ == original@,
            final(self).entries@.last().entity == entity,
    {
        let mut out = make_opening(self.prefix.as_str());
        push_decimal(&mut out, self.entries.len() as u64);
        out.append("]]");
        self.entries.push(RestoreEntry { token: out.clone(), original: original.to_owned(), entity });
        assert(self.entries@.drop_last() =~= old(self).entries@);
        out
    }

    /// What tokens are called.
    pub fn prefix(&self) -> (r: &str)
        ensures
            r@ == self.prefix@,
    {
        self.prefix.as_str()
    }

    /// The tokens, by their numbers.
    pub fn entries(&self) -> (r: &[RestoreEntry])
        ensures
            r@ == self.entries@,
    {
        self.entries.as_slice()
    }

    /// Whether there is no token.
    pub fn is_empty(&self) -> (r: bool)
        ensures
            r == (self.entries@.len() == 0),
    {
        self.entries.len() == 0
    }

    /// The number of tokens.
    pub fn len(&self) -> (r: usize)
        ensures
            r == self.entries@.len(),
    {
        self.entries.len()
    }
}

/// The number that a token holds: digits, with a plus sign before them or not, and no more than
/// the machine can count.
pub open spec fn number(s: Seq<char>) -> Option<nat> {
    let digits = if s.len() > 0 && s[0] == '+' {
        s.drop_first()
    } else {
        s
    };
    if digits.len() > 0 && all_digits(digits) && value(digits) <= usize::MAX {
        Some(value(digits))
    } else {
        None
    }
}

/// What restoring a text comes to.
pub enum Restored {
    Text(Seq<char>),
    Failed(Seq<char>),
}

/// The text with every token replaced by what it stands for, or what is wrong with the first token
/// that is broken.
pub open spec fn restored(t: Seq<char>, prefix: Seq<char>, originals: Seq<Seq<char>>) -> Restored
    decreases t.len(),
{
    let open = opening(prefix);
    match first_from(t, open, 0) {
        None => Restored::Text(t),
        Some(at) => {
            let behind = t.skip(at + open.len());
            match first_from(behind, "]]"@, 0) {
                None => Restored::Failed(open + "...  에 닫는 괄호가 없다"@),
                Some(close) => match number(behind.take(close)) {
                    None => Restored::Failed("토큰 번호가 숫자가 아니다: '"@ + behind.take(close) + "'"@),
                    Some(n) => if n >= originals.len() {
                        Restored::Failed("표에 없는 토큰 번호 "@ + decimal(n))
                    } else if behind.skip(close + 2).len() >= t.len() {
                        Restored::Text(t)
                    } else {
                        match restored(behind.skip(close + 2), prefix, originals) {
                            Restored::Text(rest) => Restored::Text(t.take(at) + originals[n as int] + rest),
                            Restored::Failed(e) => Restored::Failed(e),
                        }
                    },
                },
            }
        },
    }
}

/// What the tokens of a map stand for.
pub open spec fn originals(entries: Seq<RestoreEntry>) -> Seq<Seq<char>> {
    Seq::new(entries.len(), |i: int| entries[i].original@)
}

/// The value of digits only grows with more digits.
proof fn lemma_value_grows(s: Seq<char>, k: int)
    requires
        0 <= k <= s.len(),
        all_digits(s),
    ensures
        value(s.take(k)) <= value(s),
    decreases s.len(),
{
    if k < s.len() {
        let init = s.drop_last();
        assert(all_digits(init)) by {
            assert forall|i: int| 0 <= i < init.len() implies is_digit(#[trigger] init[i]) by {
                assert(is_digit(s[i]));
            }
        }
        lemma_value_grows(init, k);
        assert(init.take(k) =~= s.take(k));
        assert(is_digit(s[s.len() - 1]));
    } else {
        assert(s.take(k) =~= s);
    }
}

/// Reads the number that stands between two positions.
fn read_number(chars: &[char], from: usize, to: usize) -> (r: Option<usize>)
    requires
        from <= to <= chars@.len(),
    ensures
        r is Some <==> number(chars@.subrange(from as int, to as int)) is Some,
        r matches Some(n) ==> number(chars@.subrange(from as int, to as int)) == Some(n as nat),
{
    let ghost s = chars@.subrange(from as int, to as int);
    let start: usize = if from < to && chars[from] == '+' {
        from + 1
    } else {
        from
    };
    let ghost digits = chars@.subrange(start as int, to as int);
    proof {
        if start > from {
            assert(s.drop_first() =~= digits);
        } else {
            assert(s =~= digits);
        }
    }
    if start == to {
        return None;
    }
    let mut n: usize = 0;
    let mut i: usize = start;
    assert(digits.take(0) =~= Seq::<char>::empty());
    while i < to
        invariant
            start <= i <= to <= chars@.len(),
            digits == chars@.subrange(start as int, to as int),
            s == chars@.subrange(from as int, to as int),
            number(s) is Some ==> all_digits(digits) && value(digits) <= usize::MAX,
            forall|k: int| 0 <= k < i - start ==> is_digit(#[trigger] digits[k]),
            n == value(digits.take(i - start)),
        decreases to - i,
    {
        let c: char = chars[i];
        let ghost k = i - start;
        assert(digits[k] == c);
        if !digit_like(c) {
            return None;
        }
        let d: usize = (c as u32 - 48) as usize;
        proof {
            let next = digits.take(k + 1);
            assert(next.drop_last() =~= digits.take(k));
            assert(next.last() == c);
            if number(s) is Some {
                lemma_value_grows(digits, k + 1);
            }
        }
        n = match n.checked_mul(10) {
            Some(m) => match m.checked_add(d) {
                Some(m) => m,
                None => {
                    return None;
                },
            },
            None => {
                return None;
            },
        };
        i += 1;
    }
    assert(digits.take(i - start) =~= digits);
    Some(n)
}

fn broken(detail: String) -> (r: Error)
    ensures
        r is RestoreToken,
        r->RestoreToken_detail@ == detail@,
{
    Error::RestoreToken { detail }
}

/// Puts what stands in the map back in place of its tokens.
///
/// Only what was masked with tokens comes back. A broken token is an error: whoever restores a text
/// must not be left to think that all of it is back.
pub fn unmask(masked: &str, map: &RestoreMap) -> (r: Result<String>)
    ensures
        match restored(masked@, map.prefix@, originals(map.entries@)) {
            Restored::Text(t) => r is Ok && r->Ok_0@ == t,
            Restored::Failed(detail) => r matches Err(e) && e is RestoreToken && e->RestoreToken_detail@ == detail,
        },
{
    let ghost t = masked@;
    let ghost prefix = map.prefix@;
    let ghost table = originals(map.entries@);
    let opener = make_opening(map.prefix.as_str());
    let chars = to_chars(masked);
    let open = to_chars(opener.as_str());
    let close = to_chars("]]");
    let n: usize = chars.len();
    let mut out = String::new();
    let mut at: usize = 0;
    let ghost whole = restored(t, prefix, table);
    proof {
        reveal_strlit("[[");
        reveal_strlit("]]");
        assert(t.skip(0) =~= t);
    }
    loop
        invariant
            t == masked@,
            chars@ == t,
            n == t.len(),
            at <= n,
            open@ == opening(prefix),
            open@.len() >= 2,
            opener@ == open@,
            close@ == "]]"@,
            close@.len() == 2,
            prefix == map.prefix@,
            table == originals(map.entries@),
            whole == restored(t, prefix, table),
            match restored(t.skip(at as int), prefix, table) {
                Restored::Text(rest) => whole == Restored::Text(out@ + rest),
                Restored::Failed(e) => whole == Restored::Failed(e),
            },
        decreases n - at,
    {
        let ghost here = t.skip(at as int);
        proof {
            lemma_first_shift(t, open@, at as int);
        }
        match find_from(chars.as_slice(), open.as_slice(), at) {
            None => {
                let rest = from_chars(slice_from(&chars, at, n));
                proof {
                    assert(t.subrange(at as int, n as int) =~= here);
                }
                out.append(rest.as_str());
                return Ok(out);
            },
            Some(p) => {
                let begin: usize = p + open.len();
                let ghost behind = t.skip(begin as int);
                proof {
                    assert(here.skip(p - at + open@.len()) =~= behind);
                    lemma_first_shift(t, close@, begin as int);
                }
                match find_from(chars.as_slice(), close.as_slice(), begin) {
                    None => {
                        let mut detail = opener;
                        detail.append("...  에 닫는 괄호가 없다");
                        return Err(broken(detail));
                    },
                    Some(c) => {
                        proof {
                            assert(behind.take(c - begin) =~= t.subrange(begin as int, c as int));
                            assert(behind.skip(c - begin + 2) =~= t.skip(c + 2));
                            assert(here.take(p - at) =~= t.subrange(at as int, p as int));
                        }
                        match read_number(chars.as_slice(), begin, c) {
                            None => {
                                let inside = from_chars(slice_from(&chars, begin, c));
                                let mut detail = String::from_str("토큰 번호가 숫자가 아니다: '");
                                detail.append(inside.as_str());
                                detail.append("'");
                                return Err(broken(detail));
                            },
                            Some(index) => {
                                if index >= map.entries.len() {
                                    let mut detail = String::from_str("표에 없는 토큰 번호 ");
                                    push_decimal(&mut detail, index as u64);
                                    return Err(broken(detail));
                                }
                                let gap = from_chars(slice_from(&chars, at, p));
                                let ghost before = out@;
                                out.append(gap.as_str());
                                out.append(map.entries[index].original.as_str());
                                at = c + 2;
                                proof {
                                    let o = table[index as int];
                                    if let Restored::Text(rest) = restored(t.skip(at as int), prefix, table) {
                                        assert(before + (gap@ + o + rest) =~= out@ + rest);
                                    }
                                }
                            },
                        }
                    },
                }
            },
        }
    }
}

/// Searching from a position is searching what follows it.
proof fn lemma_first_shift(t: Seq<char>, word: Seq<char>, i: int)
    requires
        0 <= i <= t.len(),
    ensures
        first_from(t, word, i) is Some <==> first_from(t.skip(i), word, 0) is Some,
        first_from(t, word, i) matches Some(p) ==> first_from(t.skip(i), word, 0) == Some(p - i) && i <= p && p + word.len()
            <= t.len(),
{
    lemma_first_shift_from(t, word, i, 0);
}

proof fn lemma_first_shift_from(t: Seq<char>, word: Seq<char>, i: int, d: int)
    requires
        0 <= i <= t.len(),
        0 <= d <= t.len() - i,
    ensures
        first_from(t, word, i + d) is Some <==> first_from(t.skip(i), word, d) is Some,
        first_from(t, word, i + d) matches Some(p) ==> first_from(t.skip(i), word, d) == Some(p - i) && i + d <= p && p
            + word.len() <= t.len(),
    decreases t.len() - i - d,
{
    let s = t.skip(i);
    if i + d + word.len() <= t.len() {
        assert(s.subrange(d, d + word.len()) =~= t.subrange(i + d, i + d + word.len()));
        if !stands_at(t, i + d, word) && i + d < t.len() {
            lemma_first_shift_from(t, word, i, d + 1);
        }
    }
}

fn slice_from(chars: &Vec<char>, from: usize, to: usize) -> (r: &[char])
    requires
        from <= to <= chars@.len(),
    ensures
        r@ == chars@.subrange(from as int, to as int),
{
    vstd::slice::slice_subrange(chars.as_slice(), from, to)
}

} // verus!
