//! Finding stretches of normalized text that may be values.
//!
//! Separators are absorbed before a text gets here, so that numbers are found by collecting runs
//! of digits. Addresses are found by widening from the `@` to both sides.

use vstd::prelude::*;
use crate::span::Span;
use crate::text::{
    digit_like, is_digit, is_letter, is_word, lemma_utf8_len_bounds, letter_like, offsets, to_chars,
    utf8_len, word_like,
};

verus! {

broadcast use crate::text::lemma_text_char_range;

/// A digit, or a character that hides one. Documents that were masked before must be found again.
pub open spec fn is_run_place(c: char) -> bool {
    is_digit(c) || c == '*' || c == 'X' || c == 'x'
}

/// The first position from `i` on that holds neither a digit nor a hidden digit.
pub open spec fn run_end(t: Seq<char>, i: int) -> int
    decreases t.len() - i,
{
    if 0 <= i < t.len() && is_run_place(t[i]) {
        run_end(t, i + 1)
    } else {
        i
    }
}

/// The number of digits between two positions.
pub open spec fn digit_count(t: Seq<char>, i: int, e: int) -> int
    decreases e - i,
{
    if i >= e {
        0
    } else {
        digit_count(t, i, e - 1) + if is_digit(t[e - 1]) {
            1int
        } else {
            0
        }
    }
}

/// The runs from position `i` on that hold at least two digits.
pub open spec fn runs_from(t: Seq<char>, i: int) -> Seq<(int, int)>
    decreases t.len() - i,
{
    if i < 0 || i >= t.len() {
        Seq::empty()
    } else {
        let e = run_end(t, i);
        if e <= i || e > t.len() {
            runs_from(t, i + 1)
        } else if digit_count(t, i, e) >= 2 {
            seq![(i, e)] + runs_from(t, e)
        } else {
            runs_from(t, e)
        }
    }
}

/// The spans are the stretches, in order.
pub open spec fn spans_are(spans: Seq<Span>, t: Seq<char>, stretches: Seq<(int, int)>) -> bool {
    &&& spans.len() == stretches.len()
    &&& forall|k: int|
        0 <= k < spans.len() ==> {
            let s = #[trigger] spans[k];
            &&& s.within(t)
            &&& s.char.start == stretches[k].0
            &&& s.char.end == stretches[k].1
        }
}

fn is_run_char(c: char) -> (r: bool)
    ensures
        r == is_run_place(c),
{
    digit_like(c) || c == '*' || c == 'X' || c == 'x'
}

/// Appends one stretch.
fn push_span(
    out: &mut Vec<Span>,
    bytes: &Vec<u32>,
    a: usize,
    b: usize,
    Ghost(t): Ghost<Seq<char>>,
    Ghost(stretches): Ghost<Seq<(int, int)>>,
)
    requires
        spans_are(old(out)@, t, stretches),
        a <= b <= t.len(),
        t.len() <= u32::MAX,
        bytes@.len() == t.len() + 1,
        forall|i: int| 0 <= i <= t.len() ==> #[trigger] bytes@[i] == utf8_len(t.take(i)),
    ensures
        spans_are(final(out)@, t, stretches.push((a as int, b as int))),
{
    out.push(Span::new(bytes[a]..bytes[b], a as u32..b as u32));
}

/// Finds all runs of digits, those with hidden digits included.
///
/// A run needs two digits that can be seen. Otherwise emphasis in Markdown and products such as
/// `3x4` would be taken for values.
pub fn digit_runs(text: &str) -> (r: Vec<Span>)
    requires
        utf8_len(text@) <= u32::MAX,
    ensures
        spans_are(r@, text@, runs_from(text@, 0)),
{
    let ghost t = text@;
    let chars = to_chars(text);
    let bytes = offsets(chars.as_slice());
    let mut out: Vec<Span> = Vec::new();
    let mut at: usize = 0;
    let ghost mut found: Seq<(int, int)> = Seq::empty();
    proof {
        lemma_utf8_len_bounds(t);
        assert(found + runs_from(t, 0) =~= runs_from(t, 0));
    }
    while at < chars.len()
        invariant
            chars@ == t,
            t.len() <= u32::MAX,
            at <= t.len(),
            bytes@.len() == t.len() + 1,
            forall|i: int| 0 <= i <= t.len() ==> #[trigger] bytes@[i] == utf8_len(t.take(i)),
            spans_are(out@, t, found),
            found + runs_from(t, at as int) == runs_from(t, 0),
        decreases t.len() - at,
    {
        let mut end: usize = at;
        let mut digits: usize = 0;
        while end < chars.len() && is_run_char(chars[end])
            invariant
                chars@ == t,
                at <= end <= t.len(),
                run_end(t, at as int) == run_end(t, end as int),
                digits == digit_count(t, at as int, end as int),
                digits <= end - at,
            decreases t.len() - end,
        {
            if digit_like(chars[end]) {
                digits += 1;
            }
            end += 1;
        }
        if end == at {
            at += 1;
            continue;
        }
        if digits >= 2 {
            push_span(&mut out, &bytes, at, end, Ghost(t), Ghost(found));
            proof {
                let rest = runs_from(t, end as int);
                assert(found + (seq![(at as int, end as int)] + rest) =~= found.push((at as int, end as int)) + rest);
                found = found.push((at as int, end as int));
            }
        }
        at = end;
    }
    proof {
        assert(found + runs_from(t, at as int) =~= found);
    }
    out
}

/// What may stand left of the `@`.
pub open spec fn is_local(c: char) -> bool {
    is_word(c) || c == '.' || c == '_' || c == '%' || c == '+' || c == '-'
}

/// What may stand right of the `@`.
pub open spec fn is_domain(c: char) -> bool {
    is_word(c) || c == '.' || c == '-'
}

/// How far the local part reaches to the left of position `i`.
pub open spec fn local_start(t: Seq<char>, i: int) -> int
    decreases i,
{
    if 0 < i <= t.len() && is_local(t[i - 1]) {
        local_start(t, i - 1)
    } else {
        i
    }
}

/// The first position from `i` on, up to `at`, that does not hold a dot.
pub open spec fn skip_dots(t: Seq<char>, i: int, at: int) -> int
    decreases at - i,
{
    if 0 <= i < at && t[i] == '.' {
        skip_dots(t, i + 1, at)
    } else {
        i
    }
}

/// How far the domain reaches from position `i` on.
pub open spec fn domain_end(t: Seq<char>, i: int) -> int
    decreases t.len() - i,
{
    if 0 <= i < t.len() && is_domain(t[i]) {
        domain_end(t, i + 1)
    } else {
        i
    }
}

/// The end of a domain, without the dots and hyphens of the sentence around it.
pub open spec fn trim_end(t: Seq<char>, e: int, from: int) -> int
    decreases e,
{
    if from < e <= t.len() && 0 < e && (t[e - 1] == '.' || t[e - 1] == '-') {
        trim_end(t, e - 1, from)
    } else {
        e
    }
}

/// A domain has a dot, no empty label, and ends in a label of at least two letters.
pub open spec fn plausible(d: Seq<char>) -> bool {
    exists|k: int| #[trigger] top_label(d, k)
}

/// The label behind the dot at `k` is the last one, and the domain is well formed.
pub open spec fn top_label(d: Seq<char>, k: int) -> bool {
    &&& 0 < k < d.len()
    &&& d[k] == '.'
    &&& d.len() - k > 2
    &&& forall|i: int| k < i < d.len() ==> is_letter(#[trigger] d[i])
    &&& d[0] != '.'
    &&& forall|i: int| 0 <= i < d.len() - 1 ==> !(#[trigger] d[i] == '.' && d[i + 1] == '.')
}

/// The address around the `@` at position `at`.
pub open spec fn email_at(t: Seq<char>, at: int) -> Option<(int, int)> {
    let start = skip_dots(t, local_start(t, at), at);
    let end = trim_end(t, domain_end(t, at + 1), at + 1);
    if t[at] == '@' && start < at && t[at - 1] != '.' && end > at + 1 && plausible(t.subrange(at + 1, end)) {
        Some((start, end))
    } else {
        None
    }
}

/// The addresses from position `i` on.
pub open spec fn emails_from(t: Seq<char>, i: int) -> Seq<(int, int)>
    decreases t.len() - i,
{
    if i < 0 || i >= t.len() {
        Seq::empty()
    } else {
        match email_at(t, i) {
            Some((s, e)) => if i < e <= t.len() {
                seq![(s, e)] + emails_from(t, e)
            } else {
                emails_from(t, i + 1)
            },
            None => emails_from(t, i + 1),
        }
    }
}

fn is_local_part(c: char) -> (r: bool)
    ensures
        r == is_local(c),
{
    word_like(c) || c == '.' || c == '_' || c == '%' || c == '+' || c == '-'
}

fn is_domain_part(c: char) -> (r: bool)
    ensures
        r == is_domain(c),
{
    word_like(c) || c == '.' || c == '-'
}

/// Whether the characters between two positions can be a domain.
fn plausible_domain(chars: &[char], from: usize, to: usize) -> (r: bool)
    requires
        from <= to <= chars@.len(),
    ensures
        r == plausible(chars@.subrange(from as int, to as int)),
{
    let ghost d = chars@.subrange(from as int, to as int);
    // The last label.
    let mut dot: usize = to;
    while dot > from && chars[dot - 1] != '.'
        invariant
            from <= dot <= to <= chars@.len(),
            d == chars@.subrange(from as int, to as int),
            forall|i: int| dot - from <= i < to - from ==> #[trigger] d[i] != '.',
        decreases dot,
    {
        dot -= 1;
    }
    if dot == from {
        proof {
            if plausible(d) {
                let k = choose|k: int| #[trigger] top_label(d, k);
                assert(d[k] == '.');
            }
        }
        return false;
    }
    let ghost last = dot - 1 - from;
    assert(d[last] == '.');
    proof {
        assert forall|k: int| #[trigger] top_label(d, k) implies k == last by {
            if k < last {
                assert(is_letter(d[last]));
            } else if k > last {
                assert(d[k] != '.');
            }
        }
    }
    if to - dot < 2 || dot - 1 == from || chars[from] == '.' {
        return false;
    }
    let mut i: usize = dot;
    while i < to
        invariant
            from < dot <= i <= to <= chars@.len(),
            last == dot - 1 - from,
            d == chars@.subrange(from as int, to as int),
            forall|k: int| #[trigger] top_label(d, k) ==> k == last,
            forall|k: int| last < k < i - from ==> is_letter(#[trigger] d[k]),
        decreases to - i,
    {
        if !letter_like(chars[i]) {
            proof {
                if plausible(d) {
                    let k = choose|k: int| #[trigger] top_label(d, k);
                    assert(is_letter(d[i - from]));
                }
            }
            return false;
        }
        i += 1;
    }
    let mut j: usize = from;
    while j + 1 < to
        invariant
            from <= j <= to <= chars@.len(),
            j < to,
            d == chars@.subrange(from as int, to as int),
            forall|k: int| 0 <= k < j - from ==> !(#[trigger] d[k] == '.' && d[k + 1] == '.'),
        decreases to - j,
    {
        if chars[j] == '.' && chars[j + 1] == '.' {
            proof {
                if plausible(d) {
                    let k = choose|k: int| #[trigger] top_label(d, k);
                    assert(!(d[j - from] == '.' && d[j - from + 1] == '.'));
                }
            }
            return false;
        }
        j += 1;
    }
    assert(top_label(d, last));
    true
}

/// The address around the `@` at position `at`.
fn find_email(chars: &[char], at: usize) -> (r: Option<(usize, usize)>)
    requires
        at < chars@.len(),
        chars@.len() <= u32::MAX,
    ensures
        r is Some <==> email_at(chars@, at as int) is Some,
        r matches Some(p) ==> email_at(chars@, at as int) == Some((p.0 as int, p.1 as int)),
        r matches Some(p) ==> p.0 < at < p.1 <= chars@.len(),
{
    let ghost t = chars@;
    if chars[at] != '@' {
        return None;
    }
    let mut start: usize = at;
    while start > 0 && is_local_part(chars[start - 1])
        invariant
            t == chars@,
            start <= at < t.len(),
            local_start(t, at as int) == local_start(t, start as int),
        decreases start,
    {
        start -= 1;
    }
    assert(start == local_start(t, at as int));
    let ghost left = start as int;
    while start < at && chars[start] == '.'
        invariant
            t == chars@,
            start <= at < t.len(),
            skip_dots(t, left, at as int) == skip_dots(t, start as int, at as int),
        decreases at - start,
    {
        start += 1;
    }
    let mut end: usize = at + 1;
    while end < chars.len() && is_domain_part(chars[end])
        invariant
            t == chars@,
            at < end <= t.len(),
            domain_end(t, at + 1) == domain_end(t, end as int),
        decreases t.len() - end,
    {
        end += 1;
    }
    assert(end == domain_end(t, at + 1));
    let ghost right = end as int;
    while end > at + 1 && (chars[end - 1] == '.' || chars[end - 1] == '-')
        invariant
            t == chars@,
            at < end <= t.len(),
            at < t.len() <= u32::MAX,
            trim_end(t, right, at + 1) == trim_end(t, end as int, at + 1),
        decreases end,
    {
        end -= 1;
    }
    if start < at && chars[at - 1] != '.' && end > at + 1 && plausible_domain(chars, at + 1, end) {
        Some((start, end))
    } else {
        None
    }
}

/// Finds all addresses.
pub fn emails(text: &str) -> (r: Vec<Span>)
    requires
        utf8_len(text@) <= u32::MAX,
    ensures
        spans_are(r@, text@, emails_from(text@, 0)),
{
    let ghost t = text@;
    let chars = to_chars(text);
    let bytes = offsets(chars.as_slice());
    let mut out: Vec<Span> = Vec::new();
    let mut at: usize = 0;
    let ghost mut found: Seq<(int, int)> = Seq::empty();
    proof {
        lemma_utf8_len_bounds(t);
        assert(found + emails_from(t, 0) =~= emails_from(t, 0));
    }
    while at < chars.len()
        invariant
            chars@ == t,
            t.len() <= u32::MAX,
            at <= t.len(),
            bytes@.len() == t.len() + 1,
            forall|i: int| 0 <= i <= t.len() ==> #[trigger] bytes@[i] == utf8_len(t.take(i)),
            spans_are(out@, t, found),
            found + emails_from(t, at as int) == emails_from(t, 0),
        decreases t.len() - at,
    {
        match find_email(chars.as_slice(), at) {
            Some((start, end)) => {
                push_span(&mut out, &bytes, start, end, Ghost(t), Ghost(found));
                proof {
                    let rest = emails_from(t, end as int);
                    let one = (start as int, end as int);
                    assert(found + (seq![one] + rest) =~= found.push(one) + rest);
                    found = found.push(one);
                }
                at = end;
            },
            None => {
                at += 1;
            },
        }
    }
    proof {
        assert(found + emails_from(t, at as int) =~= found);
    }
    out
}

/// An ASCII capital letter.
pub open spec fn is_capital(c: char) -> bool {
    'A' <= c <= 'Z'
}

/// The number of capital letters from position `i` on, two at most.
pub open spec fn capitals(t: Seq<char>, i: int) -> int {
    if 0 <= i < t.len() && is_capital(t[i]) {
        if i + 1 < t.len() && is_capital(t[i + 1]) {
            2
        } else {
            1
        }
    } else {
        0
    }
}

/// The first position from `i` on that does not hold a digit.
pub open spec fn digits_end(t: Seq<char>, i: int) -> int
    decreases t.len() - i,
{
    if 0 <= i < t.len() && is_digit(t[i]) {
        digits_end(t, i + 1)
    } else {
        i
    }
}

/// A passport number has one or two capital letters and seven or eight digits, eight or nine
/// characters in all, and is no part of a longer word.
pub open spec fn is_passport(t: Seq<char>, i: int) -> bool {
    let letters = capitals(t, i);
    let end = digits_end(t, i + letters);
    let digits = end - i - letters;
    &&& letters > 0
    &&& 7 <= digits <= 8
    &&& 8 <= letters + digits <= 9
    &&& end < t.len() ==> !is_word(t[end])
}

/// The passport numbers from position `i` on.
pub open spec fn passports_from(t: Seq<char>, i: int) -> Seq<(int, int)>
    decreases t.len() - i,
{
    if i < 0 || i >= t.len() {
        Seq::empty()
    } else if (i > 0 && is_word(t[i - 1])) || capitals(t, i) == 0 {
        passports_from(t, i + 1)
    } else {
        let end = digits_end(t, i + capitals(t, i));
        if end <= i || end > t.len() {
            passports_from(t, i + 1)
        } else if is_passport(t, i) {
            seq![(i, end)] + passports_from(t, end)
        } else {
            passports_from(t, end)
        }
    }
}

fn is_upper(c: char) -> (r: bool)
    ensures
        r == is_capital(c),
{
    'A' <= c && c <= 'Z'
}

/// Finds everything that has the form of a passport number.
///
/// There is no check digit, and product codes look alike. What is found here counts only next to
/// a word that speaks of passports.
pub fn passports(text: &str) -> (r: Vec<Span>)
    requires
        utf8_len(text@) <= u32::MAX,
    ensures
        spans_are(r@, text@, passports_from(text@, 0)),
{
    let ghost t = text@;
    let chars = to_chars(text);
    let n: usize = chars.len();
    let bytes = offsets(chars.as_slice());
    let mut out: Vec<Span> = Vec::new();
    let mut at: usize = 0;
    let ghost mut found: Seq<(int, int)> = Seq::empty();
    proof {
        lemma_utf8_len_bounds(t);
        assert(found + passports_from(t, 0) =~= passports_from(t, 0));
    }
    while at < n
        invariant
            chars@ == t,
            n == t.len(),
            t.len() <= u32::MAX,
            at <= t.len(),
            bytes@.len() == t.len() + 1,
            forall|i: int| 0 <= i <= t.len() ==> #[trigger] bytes@[i] == utf8_len(t.take(i)),
            spans_are(out@, t, found),
            found + passports_from(t, at as int) == passports_from(t, 0),
        decreases t.len() - at,
    {
        if (at > 0 && word_like(chars[at - 1])) || !is_upper(chars[at]) {
            at += 1;
            continue;
        }
        let letters: usize = if n - at > 1 && is_upper(chars[at + 1]) {
            2
        } else {
            1
        };
        let mut end: usize = at + letters;
        while end < n && digit_like(chars[end])
            invariant
                chars@ == t,
                n == t.len(),
                at + letters <= end <= t.len(),
                digits_end(t, at + letters) == digits_end(t, end as int),
            decreases t.len() - end,
        {
            end += 1;
        }
        let digits: usize = end - at - letters;
        let bounded: bool = end >= n || !word_like(chars[end]);
        let shaped: bool = 7 <= digits && digits <= 8 && letters + digits <= 9;
        if shaped && bounded {
            push_span(&mut out, &bytes, at, end, Ghost(t), Ghost(found));
            proof {
                let rest = passports_from(t, end as int);
                let one = (at as int, end as int);
                assert(found + (seq![one] + rest) =~= found.push(one) + rest);
                found = found.push(one);
            }
        }
        at = end;
    }
    proof {
        assert(found + passports_from(t, at as int) =~= found);
    }
    out
}

} // verus!
