//! What the scanners find, told by what it looks like.

use vstd::prelude::*;
use crate::detect::scanner::{
    capitals, digit_count, digits_end, domain_end, email_at, emails_from, is_capital, is_domain,
    is_local, is_passport, is_run_place, local_start, passports_from, plausible, run_end, runs_from,
    skip_dots, top_label, trim_end,
};
use crate::text::{is_digit, is_letter, is_word};

verus! {

broadcast use crate::text::lemma_text_char_range;

/// A digit, an asterisk or an X, which hide one.
pub open spec fn in_a_run(c: char) -> bool {
    '0' <= c <= '9' || c == '*' || c == 'X' || c == 'x'
}

/// An ASCII digit.
pub open spec fn ascii_digit(c: char) -> bool {
    '0' <= c <= '9'
}

/// An ASCII letter.
pub open spec fn ascii_letter(c: char) -> bool {
    'a' <= c <= 'z' || 'A' <= c <= 'Z'
}

/// An ASCII letter or digit.
pub open spec fn ascii_word(c: char) -> bool {
    ascii_letter(c) || '0' <= c <= '9'
}

/// A run that cannot be made longer on either side, with two digits or more in it.
pub open spec fn is_longest_run(t: Seq<char>, a: int, e: int) -> bool {
    &&& 0 <= a < e <= t.len()
    &&& forall|k: int| a <= k < e ==> in_a_run(#[trigger] t[k])
    &&& a > 0 ==> !in_a_run(t[a - 1])
    &&& e < t.len() ==> !in_a_run(t[e])
    &&& exists|i: int, j: int| a <= i < j < e && #[trigger] ascii_digit(t[i]) && #[trigger] ascii_digit(t[j])
}

/// Stretches follow each other.
pub open spec fn in_a_row(found: Seq<(int, int)>) -> bool {
    forall|k: int, m: int| 0 <= k < m < found.len() ==> (#[trigger] found[k]).1 <= (#[trigger] found[m]).0
}

proof fn lemma_run_end(t: Seq<char>, i: int)
    requires
        0 <= i <= t.len(),
    ensures
        i <= run_end(t, i) <= t.len(),
        forall|k: int| i <= k < run_end(t, i) ==> in_a_run(#[trigger] t[k]),
        run_end(t, i) < t.len() ==> !in_a_run(t[run_end(t, i)]),
    decreases t.len() - i,
{
    if i < t.len() && is_run_place(t[i]) {
        lemma_run_end(t, i + 1);
    }
}

proof fn lemma_digit_count(t: Seq<char>, a: int, e: int)
    requires
        0 <= a <= e <= t.len(),
    ensures
        digit_count(t, a, e) >= 0,
        digit_count(t, a, e) >= 1 <==> exists|i: int| a <= i < e && #[trigger] ascii_digit(t[i]),
        digit_count(t, a, e) >= 2 <==> exists|i: int, j: int|
            a <= i < j < e && #[trigger] ascii_digit(t[i]) && #[trigger] ascii_digit(t[j]),
    decreases e - a,
{
    if a < e {
        lemma_digit_count(t, a, e - 1);
        if digit_count(t, a, e) >= 1 {
            if ascii_digit(t[e - 1]) {
                assert(a <= e - 1 < e && ascii_digit(t[e - 1]));
            } else {
                let i = choose|i: int| a <= i < e - 1 && #[trigger] ascii_digit(t[i]);
                assert(a <= i < e && ascii_digit(t[i]));
            }
        }
        if exists|i: int| a <= i < e && #[trigger] ascii_digit(t[i]) {
            let i = choose|i: int| a <= i < e && #[trigger] ascii_digit(t[i]);
            if i < e - 1 {
                assert(a <= i < e - 1 && ascii_digit(t[i]));
            }
        }
        if digit_count(t, a, e) >= 2 {
            if ascii_digit(t[e - 1]) {
                let i = choose|i: int| a <= i < e - 1 && #[trigger] ascii_digit(t[i]);
                assert(a <= i < e - 1 < e && ascii_digit(t[i]) && ascii_digit(t[e - 1]));
            } else {
                let (i, j) = choose|i: int, j: int|
                    a <= i < j < e - 1 && #[trigger] ascii_digit(t[i]) && #[trigger] ascii_digit(t[j]);
                assert(a <= i < j < e && ascii_digit(t[i]) && ascii_digit(t[j]));
            }
        }
        if exists|i: int, j: int| a <= i < j < e && #[trigger] ascii_digit(t[i]) && #[trigger] ascii_digit(t[j]) {
            let (i, j) = choose|i: int, j: int|
                a <= i < j < e && #[trigger] ascii_digit(t[i]) && #[trigger] ascii_digit(t[j]);
            if j < e - 1 {
                assert(a <= i < j < e - 1 && ascii_digit(t[i]) && ascii_digit(t[j]));
            } else {
                assert(a <= i < e - 1 && ascii_digit(t[i]));
            }
        }
    }
}

proof fn lemma_runs(t: Seq<char>, i: int)
    requires
        0 <= i <= t.len(),
        0 < i < t.len() ==> !in_a_run(t[i - 1]) || !in_a_run(t[i]),
    ensures
        forall|k: int|
            0 <= k < runs_from(t, i).len() ==> i <= (#[trigger] runs_from(t, i)[k]).0 && is_longest_run(
                t,
                runs_from(t, i)[k].0,
                runs_from(t, i)[k].1,
            ),
        in_a_row(runs_from(t, i)),
        forall|a: int, e: int| i <= a && is_longest_run(t, a, e) ==> #[trigger] runs_from(t, i).contains((a, e)),
    decreases t.len() - i,
{
    let all = runs_from(t, i);
    if i < t.len() {
        lemma_run_end(t, i);
        let e = run_end(t, i);
        if e <= i {
            lemma_runs(t, i + 1);
            assert(all == runs_from(t, i + 1));
            assert forall|a: int, b: int| i <= a && is_longest_run(t, a, b) implies #[trigger] all.contains((a, b)) by {
                if a == i {
                    assert(in_a_run(t[a]));
                }
            }
        } else {
            lemma_runs(t, e);
            lemma_digit_count(t, i, e);
            let rest = runs_from(t, e);
            assert forall|a: int, b: int| i <= a < e && is_longest_run(t, a, b) implies a == i && b == e && digit_count(
                t,
                i,
                e,
            ) >= 2 by {
                if a > i {
                    assert(in_a_run(t[a - 1]));
                }
                if b < e {
                    assert(in_a_run(t[b]));
                } else if b > e {
                    assert(in_a_run(t[e]));
                }
            }
            if digit_count(t, i, e) >= 2 {
                assert(is_longest_run(t, i, e)) by {
                    if i > 0 {
                        assert(in_a_run(t[i]));
                    }
                }
                assert(all == seq![(i, e)] + rest);
                assert forall|k: int| 0 <= k < all.len() implies i <= (#[trigger] all[k]).0 && is_longest_run(
                    t,
                    all[k].0,
                    all[k].1,
                ) by {
                    if k > 0 {
                        assert(all[k] == rest[k - 1]);
                    }
                }
                assert forall|k: int, m: int| 0 <= k < m < all.len() implies (#[trigger] all[k]).1 <= (
                #[trigger] all[m]).0 by {
                    assert(all[m] == rest[m - 1]);
                    if k > 0 {
                        assert(all[k] == rest[k - 1]);
                    }
                }
                assert forall|a: int, b: int| i <= a && is_longest_run(t, a, b) implies #[trigger] all.contains((a, b)) by {
                    if a < e {
                        assert(all[0] == (a, b));
                    } else {
                        assert(rest.contains((a, b)));
                        let k = choose|k: int| 0 <= k < rest.len() && rest[k] == (a, b);
                        assert(all[k + 1] == (a, b));
                    }
                }
            } else {
                assert(all == rest);
            }
        }
    }
}

/// The runs of digits are exactly the longest stretches of digits and hidden digits that hold two
/// digits or more, in the order of the text.
pub proof fn law_runs_are_the_longest_ones(t: Seq<char>)
    ensures
        forall|k: int|
            0 <= k < runs_from(t, 0).len() ==> is_longest_run(
                t,
                (#[trigger] runs_from(t, 0)[k]).0,
                runs_from(t, 0)[k].1,
            ),
        in_a_row(runs_from(t, 0)),
        forall|a: int, e: int| is_longest_run(t, a, e) ==> #[trigger] runs_from(t, 0).contains((a, e)),
{
    lemma_runs(t, 0);
}

/// A character of the part before the `@`.
pub open spec fn in_local_part(c: char) -> bool {
    ascii_word(c) || c == '.' || c == '_' || c == '%' || c == '+' || c == '-'
}

/// A character of the part behind the `@`.
pub open spec fn in_domain_part(c: char) -> bool {
    ascii_word(c) || c == '.' || c == '-'
}

/// A local part: not empty, and with no dot at either end.
pub open spec fn is_local_name(s: Seq<char>) -> bool {
    &&& s.len() > 0
    &&& forall|i: int| 0 <= i < s.len() ==> in_local_part(#[trigger] s[i])
    &&& s[0] != '.'
    &&& s.last() != '.'
}

/// A domain: no empty label, and a last label of two letters or more behind a dot.
pub open spec fn is_domain_name(d: Seq<char>) -> bool {
    &&& forall|i: int| 0 <= i < d.len() ==> in_domain_part(#[trigger] d[i])
    &&& d.len() > 0 && d[0] != '.'
    &&& forall|i: int| 0 <= i && i + 1 < d.len() ==> !(#[trigger] d[i] == '.' && d[i + 1] == '.')
    &&& exists|k: int| #[trigger] ends_in_letters(d, k)
}

/// Behind the dot at `k` there is nothing but letters, two or more.
pub open spec fn ends_in_letters(d: Seq<char>, k: int) -> bool {
    &&& 0 < k
    &&& k + 2 < d.len()
    &&& d[k] == '.'
    &&& forall|i: int| k < i < d.len() ==> ascii_letter(#[trigger] d[i])
}

/// An address stands between two positions, with its `@` at `at`.
pub open spec fn is_address(t: Seq<char>, a: int, at: int, e: int) -> bool {
    &&& 0 <= a < at < e <= t.len()
    &&& t[at] == '@'
    &&& is_local_name(t.subrange(a, at))
    &&& is_domain_name(t.subrange(at + 1, e))
}

/// An address stands between two positions.
pub open spec fn holds_address(t: Seq<char>, a: int, e: int) -> bool {
    exists|at: int| #[trigger] is_address(t, a, at, e)
}

proof fn lemma_local_start(t: Seq<char>, i: int)
    requires
        0 <= i <= t.len(),
    ensures
        0 <= local_start(t, i) <= i,
        forall|k: int| local_start(t, i) <= k < i ==> in_local_part(#[trigger] t[k]),
        local_start(t, i) > 0 ==> !in_local_part(t[local_start(t, i) - 1]),
    decreases i,
{
    if i > 0 && is_local(t[i - 1]) {
        lemma_local_start(t, i - 1);
    }
}

proof fn lemma_skip_dots(t: Seq<char>, i: int, at: int)
    requires
        0 <= i <= at <= t.len(),
    ensures
        i <= skip_dots(t, i, at) <= at,
        skip_dots(t, i, at) < at ==> t[skip_dots(t, i, at)] != '.',
        forall|k: int| i <= k < skip_dots(t, i, at) ==> #[trigger] t[k] == '.',
    decreases at - i,
{
    if i < at && t[i] == '.' {
        lemma_skip_dots(t, i + 1, at);
    }
}

proof fn lemma_domain_end(t: Seq<char>, i: int)
    requires
        0 <= i <= t.len(),
    ensures
        i <= domain_end(t, i) <= t.len(),
        forall|k: int| i <= k < domain_end(t, i) ==> in_domain_part(#[trigger] t[k]),
        domain_end(t, i) < t.len() ==> !in_domain_part(t[domain_end(t, i)]),
    decreases t.len() - i,
{
    if i < t.len() && is_domain(t[i]) {
        lemma_domain_end(t, i + 1);
    }
}

proof fn lemma_trim_end(t: Seq<char>, e: int, from: int)
    requires
        0 <= from <= e <= t.len(),
    ensures
        from <= trim_end(t, e, from) <= e,
        trim_end(t, e, from) > from ==> t[trim_end(t, e, from) - 1] != '.' && t[trim_end(t, e, from) - 1] != '-',
        forall|k: int| trim_end(t, e, from) <= k < e ==> #[trigger] t[k] == '.' || t[k] == '-',
    decreases e,
{
    if from < e && (t[e - 1] == '.' || t[e - 1] == '-') {
        lemma_trim_end(t, e - 1, from);
    }
}

proof fn lemma_plausible(d: Seq<char>)
    requires
        forall|i: int| 0 <= i < d.len() ==> in_domain_part(#[trigger] d[i]),
    ensures
        plausible(d) <==> is_domain_name(d),
{
    if plausible(d) {
        let k = choose|k: int| #[trigger] top_label(d, k);
        assert forall|i: int| k < i < d.len() implies ascii_letter(#[trigger] d[i]) by {
            assert(is_letter(d[i]));
        }
        assert(ends_in_letters(d, k));
        assert forall|i: int| 0 <= i && i + 1 < d.len() implies !(#[trigger] d[i] == '.' && d[i + 1] == '.') by {}
    }
    if is_domain_name(d) {
        let k = choose|k: int| #[trigger] ends_in_letters(d, k);
        assert forall|i: int| k < i < d.len() implies is_letter(#[trigger] d[i]) by {
            assert(ascii_letter(d[i]));
        }
        assert(top_label(d, k));
    }
}

/// What is found around an `@` is an address.
proof fn lemma_email_at(t: Seq<char>, at: int)
    requires
        0 <= at < t.len(),
    ensures
        email_at(t, at) matches Some(p) ==> is_address(t, p.0, at, p.1),
{
    if let Some((s, e)) = email_at(t, at) {
        let from = local_start(t, at);
        lemma_local_start(t, at);
        lemma_skip_dots(t, from, at);
        lemma_domain_end(t, at + 1);
        lemma_trim_end(t, domain_end(t, at + 1), at + 1);
        let l = t.subrange(s, at);
        let d = t.subrange(at + 1, e);
        assert forall|i: int| 0 <= i < l.len() implies in_local_part(#[trigger] l[i]) by {
            assert(in_local_part(t[s + i]));
        }
        assert(l[0] == t[s] && l.last() == t[at - 1]);
        assert forall|i: int| 0 <= i < d.len() implies in_domain_part(#[trigger] d[i]) by {
            assert(in_domain_part(t[at + 1 + i]));
        }
        lemma_plausible(d);
    }
}

proof fn lemma_emails_sound(t: Seq<char>, i: int)
    requires
        0 <= i <= t.len(),
    ensures
        forall|k: int|
            0 <= k < emails_from(t, i).len() ==> holds_address(
                t,
                (#[trigger] emails_from(t, i)[k]).0,
                emails_from(t, i)[k].1,
            ),
    decreases t.len() - i,
{
    let all = emails_from(t, i);
    if i < t.len() {
        lemma_email_at(t, i);
        match email_at(t, i) {
            Some((s, e)) => {
                lemma_emails_sound(t, e);
                let rest = emails_from(t, e);
                assert(all == seq![(s, e)] + rest);
                assert forall|k: int| 0 <= k < all.len() implies holds_address(t, (#[trigger] all[k]).0, all[k].1) by {
                    if k == 0 {
                        assert(is_address(t, s, i, e));
                    } else {
                        assert(all[k] == rest[k - 1]);
                    }
                }
            },
            None => {
                lemma_emails_sound(t, i + 1);
                assert(all == emails_from(t, i + 1));
            },
        }
    } else {
        assert(all.len() == 0);
    }
}

/// Everything that is found as an address has the form of an address.
pub proof fn law_addresses_look_like_addresses(t: Seq<char>, k: int)
    requires
        0 <= k < emails_from(t, 0).len(),
    ensures
        holds_address(t, emails_from(t, 0)[k].0, emails_from(t, 0)[k].1),
{
    lemma_emails_sound(t, 0);
}

/// From positions without an `@` on, nothing is found until the next one.
proof fn lemma_no_at(t: Seq<char>, i: int, e: int)
    requires
        0 <= i <= e <= t.len(),
        forall|k: int| i <= k < e ==> #[trigger] t[k] != '@',
    ensures
        emails_from(t, i) == emails_from(t, e),
    decreases e - i,
{
    if i < e {
        lemma_no_at(t, i + 1, e);
        assert(t[i] != '@');
        assert(email_at(t, i) is None);
    }
}

/// An address is found exactly where it stands, whatever surrounds it: before it a text that does
/// not end like a local part, behind it one that does not go on like a domain.
pub proof fn law_an_address_is_found_where_it_stands(a: Seq<char>, local: Seq<char>, domain: Seq<char>, b: Seq<char>)
    requires
        is_local_name(local),
        is_domain_name(domain),
        a.len() > 0 ==> !in_local_part(a.last()),
        b.len() > 0 ==> !in_domain_part(b[0]),
        forall|i: int| 0 <= i < a.len() ==> #[trigger] a[i] != '@',
        forall|i: int| 0 <= i < b.len() ==> #[trigger] b[i] != '@',
    ensures
        ({
            let e = (a.len() + local.len() + 1 + domain.len()) as int;
            emails_from(a + local + seq!['@'] + domain + b, 0) == seq![(a.len() as int, e)]
        }),
{
    let t = a + local + seq!['@'] + domain + b;
    let s = a.len() as int;
    let at = (a.len() + local.len()) as int;
    let e = (at + 1 + domain.len()) as int;
    let n = t.len() as int;
    assert forall|k: int| 0 <= k < at implies #[trigger] t[k] != '@' by {
        if k < s {
            assert(t[k] == a[k]);
        } else {
            assert(t[k] == local[k - s]);
            assert(in_local_part(local[k - s]));
        }
    }
    assert forall|k: int| e <= k < n implies #[trigger] t[k] != '@' by {
        assert(t[k] == b[k - e]);
    }
    lemma_no_at(t, 0, at);
    lemma_no_at(t, e, n);
    assert(emails_from(t, n) =~= Seq::<(int, int)>::empty());
    assert(t[at] == '@');
    // The local part.
    lemma_local_start(t, at);
    let from = local_start(t, at);
    assert(from == s) by {
        if from < s {
            assert(in_local_part(t[s - 1]));
            assert(t[s - 1] == a.last());
        } else if from > s {
            assert(t[from - 1] == local[from - 1 - s]);
            assert(in_local_part(local[from - 1 - s]));
        }
    }
    assert(t[s] == local[0]);
    assert(skip_dots(t, s, at) == s);
    assert(t[at - 1] == local.last());
    // The domain.
    lemma_domain_end(t, at + 1);
    let de = domain_end(t, at + 1);
    assert(de == e) by {
        if de < e {
            assert(t[de] == domain[de - at - 1]);
            assert(in_domain_part(domain[de - at - 1]));
        } else if de > e {
            assert(in_domain_part(t[e]));
            assert(t[e] == b[0]);
        }
    }
    let k = choose|k: int| #[trigger] ends_in_letters(domain, k);
    assert(ascii_letter(domain[domain.len() - 1]));
    assert(t[e - 1] == domain[domain.len() - 1]);
    assert(trim_end(t, e, at + 1) == e);
    assert(t.subrange(at + 1, e) =~= domain);
    lemma_plausible(domain);
    assert(email_at(t, at) == Some((s, e)));
    assert(emails_from(t, at) =~= seq![(s, e)]);
}

/// An address stands between two positions, and what surrounds it does not belong to one: dots and
/// then no character of a local part before it, dots and hyphens and then no character of a domain
/// behind it.
pub open spec fn stands_apart(t: Seq<char>, a: int, e: int, first: int, last: int) -> bool {
    &&& 0 <= first <= a
    &&& forall|k: int| first <= k < a ==> #[trigger] t[k] == '.'
    &&& first > 0 ==> !in_local_part(t[first - 1])
    &&& e <= last <= t.len()
    &&& forall|k: int| e <= k < last ==> #[trigger] t[k] == '.' || t[k] == '-'
    &&& last < t.len() ==> !in_domain_part(t[last])
}

proof fn lemma_apart_is_found(t: Seq<char>, a: int, at: int, e: int, first: int, last: int)
    requires
        is_address(t, a, at, e),
        stands_apart(t, a, e, first, last),
    ensures
        email_at(t, at) == Some((a, e)),
{
    let l = t.subrange(a, at);
    let d = t.subrange(at + 1, e);
    assert forall|k: int| a <= k < at implies in_local_part(#[trigger] t[k]) by {
        assert(in_local_part(l[k - a]));
    }
    assert forall|k: int| at < k < e implies in_domain_part(#[trigger] t[k]) by {
        assert(in_domain_part(d[k - at - 1]));
    }
    lemma_local_start(t, at);
    let from = local_start(t, at);
    assert(from == first) by {
        if from < first {
            assert(in_local_part(t[first - 1]));
        } else if from > first {
            assert(in_local_part(t[from - 1]));
        }
    }
    lemma_skip_dots(t, first, at);
    let start = skip_dots(t, first, at);
    assert(t[a] == l[0] && t[at - 1] == l.last());
    assert(start == a) by {
        if start < a {
            assert(t[start] == '.');
        } else if start > a {
            assert(t[a] == '.');
        }
    }
    lemma_domain_end(t, at + 1);
    let de = domain_end(t, at + 1);
    assert(de == last) by {
        if de < last {
            assert(in_domain_part(t[de]));
        } else if de > last {
            assert(in_domain_part(t[last]));
        }
    }
    lemma_trim_end(t, last, at + 1);
    let end = trim_end(t, last, at + 1);
    let k = choose|k: int| #[trigger] ends_in_letters(d, k);
    assert(ascii_letter(d[d.len() - 1]));
    assert(t[e - 1] == d[d.len() - 1]);
    assert(end == e) by {
        if end < e {
            assert(t[e - 1] == '.' || t[e - 1] == '-');
        } else if end > e {
            assert(t[end - 1] == '.' || t[end - 1] == '-');
        }
    }
    lemma_plausible(d);
}

/// No `@` is passed over.
proof fn lemma_every_at_is_tried(t: Seq<char>, i: int, at: int)
    requires
        0 <= i <= at < t.len(),
        t[at] == '@',
        email_at(t, at) is Some,
    ensures
        emails_from(t, i).contains(email_at(t, at).unwrap()),
    decreases t.len() - i,
{
    let all = emails_from(t, i);
    lemma_email_at(t, i);
    match email_at(t, i) {
        Some((s, e)) => {
            let rest = emails_from(t, e);
            assert(all == seq![(s, e)] + rest);
            if i == at {
                assert(all[0] == (s, e));
            } else {
                assert(e <= at) by {
                    if at < e {
                        let d = t.subrange(i + 1, e);
                        assert(in_domain_part(d[at - i - 1]));
                    }
                }
                lemma_every_at_is_tried(t, e, at);
                let k = choose|k: int| 0 <= k < rest.len() && rest[k] == email_at(t, at).unwrap();
                assert(all[k + 1] == rest[k]);
            }
        },
        None => {
            lemma_every_at_is_tried(t, i + 1, at);
        },
    }
}

/// Every address that stands apart is found, however many others the text holds.
pub proof fn law_every_address_is_found(t: Seq<char>, a: int, at: int, e: int, first: int, last: int)
    requires
        is_address(t, a, at, e),
        stands_apart(t, a, e, first, last),
    ensures
        emails_from(t, 0).contains((a, e)),
{
    lemma_apart_is_found(t, a, at, e, first, last);
    lemma_every_at_is_tried(t, 0, at);
}

/// A passport number: one or two capital letters and seven or eight digits, eight or nine
/// characters in all.
pub open spec fn is_passport_number(s: Seq<char>) -> bool {
    exists|letters: int| #[trigger] is_lettered_number(s, letters)
}

/// The first `letters` characters are capitals, and all others digits.
pub open spec fn is_lettered_number(s: Seq<char>, letters: int) -> bool {
    &&& 1 <= letters <= 2
    &&& 8 <= s.len() <= 9
    &&& 7 <= s.len() - letters <= 8
    &&& forall|i: int| 0 <= i < letters ==> 'A' <= #[trigger] s[i] <= 'Z'
    &&& forall|i: int| letters <= i < s.len() ==> '0' <= #[trigger] s[i] <= '9'
}

/// A passport number stands between two positions, and is no part of a longer word.
pub open spec fn is_lone_passport(t: Seq<char>, a: int, e: int) -> bool {
    &&& 0 <= a < e <= t.len()
    &&& is_passport_number(t.subrange(a, e))
    &&& a > 0 ==> !ascii_word(t[a - 1])
    &&& e < t.len() ==> !ascii_word(t[e])
}

proof fn lemma_digits_end(t: Seq<char>, i: int)
    requires
        0 <= i <= t.len(),
    ensures
        i <= digits_end(t, i) <= t.len(),
        forall|k: int| i <= k < digits_end(t, i) ==> '0' <= #[trigger] t[k] <= '9',
        digits_end(t, i) < t.len() ==> !('0' <= t[digits_end(t, i)] <= '9'),
    decreases t.len() - i,
{
    if i < t.len() && is_digit(t[i]) {
        lemma_digits_end(t, i + 1);
    }
}

/// The form decides, and where it begins decides where it ends.
proof fn lemma_passport_form(t: Seq<char>, i: int)
    requires
        0 <= i < t.len(),
        i > 0 ==> !ascii_word(t[i - 1]),
    ensures
        is_passport(t, i) ==> is_lone_passport(t, i, digits_end(t, i + capitals(t, i))),
        forall|e: int| #[trigger] is_lone_passport(t, i, e) ==> is_passport(t, i) && e == digits_end(t, i + capitals(t, i)),
        i <= i + capitals(t, i) <= t.len(),
{
    let c = capitals(t, i);
    lemma_digits_end(t, i + c);
    let end = digits_end(t, i + c);
    if is_passport(t, i) {
        let s = t.subrange(i, end);
        assert forall|k: int| 0 <= k < c implies 'A' <= #[trigger] s[k] <= 'Z' by {
            assert(is_capital(t[i + k]));
        }
        assert forall|k: int| c <= k < s.len() implies '0' <= #[trigger] s[k] <= '9' by {
            assert('0' <= t[i + k] <= '9');
        }
        assert(is_lettered_number(s, c));
        if end < t.len() {
            assert(!is_word(t[end]));
        }
    }
    assert forall|e: int| #[trigger] is_lone_passport(t, i, e) implies is_passport(t, i) && e == end by {
        let s = t.subrange(i, e);
        let l = choose|l: int| #[trigger] is_lettered_number(s, l);
        assert(s[0] == t[i] && s[1] == t[i + 1]);
        assert('A' <= s[0] <= 'Z');
        assert(l == c) by {
            if l == 1 {
                assert('0' <= s[1] <= '9');
            } else {
                assert('A' <= s[1] <= 'Z');
            }
        }
        assert(end == e) by {
            if end < e {
                assert(s[end - i] == t[end]);
                assert('0' <= s[end - i] <= '9');
            } else if e < end {
                assert('0' <= t[e] <= '9');
            }
        }
    }
}

proof fn lemma_passports(t: Seq<char>, i: int)
    requires
        0 <= i <= t.len(),
    ensures
        forall|k: int|
            0 <= k < passports_from(t, i).len() ==> is_lone_passport(
                t,
                (#[trigger] passports_from(t, i)[k]).0,
                passports_from(t, i)[k].1,
            ) && i <= passports_from(t, i)[k].0,
        in_a_row(passports_from(t, i)),
        forall|a: int, e: int| i <= a && is_lone_passport(t, a, e) ==> #[trigger] passports_from(t, i).contains((a, e)),
    decreases t.len() - i,
{
    let all = passports_from(t, i);
    if i < t.len() {
        if (i > 0 && is_word(t[i - 1])) || capitals(t, i) == 0 {
            lemma_passports(t, i + 1);
            assert forall|a: int, e: int| i <= a && is_lone_passport(t, a, e) implies #[trigger] all.contains((a, e)) by {
                if a == i {
                    lemma_passport_form(t, i);
                }
            }
        } else {
            let c = capitals(t, i);
            lemma_passport_form(t, i);
            lemma_digits_end(t, i + c);
            let end = digits_end(t, i + c);
            lemma_passports(t, end);
            let rest = passports_from(t, end);
            assert forall|a: int, e: int| i < a < end implies !#[trigger] is_lone_passport(t, a, e) by {
                if is_lone_passport(t, a, e) {
                    if a - 1 >= i + c {
                        assert('0' <= t[a - 1] <= '9');
                    } else {
                        assert(is_capital(t[a - 1]));
                    }
                }
            }
            if is_passport(t, i) {
                assert(all == seq![(i, end)] + rest);
                assert forall|k: int| 0 <= k < all.len() implies is_lone_passport(t, (#[trigger] all[k]).0, all[k].1)
                    && i <= all[k].0 by {
                    if k > 0 {
                        assert(all[k] == rest[k - 1]);
                    }
                }
                assert forall|k: int, m: int| 0 <= k < m < all.len() implies (#[trigger] all[k]).1 <= (
                #[trigger] all[m]).0 by {
                    assert(all[m] == rest[m - 1]);
                    if k > 0 {
                        assert(all[k] == rest[k - 1]);
                    }
                }
                assert forall|a: int, e: int| i <= a && is_lone_passport(t, a, e) implies #[trigger] all.contains((a, e)) by {
                    if a == i {
                        assert(all[0] == (a, e));
                    } else {
                        assert(rest.contains((a, e)));
                        let k = choose|k: int| 0 <= k < rest.len() && rest[k] == (a, e);
                        assert(all[k + 1] == (a, e));
                    }
                }
            } else {
                assert(all == rest);
                assert forall|a: int, e: int| i <= a && is_lone_passport(t, a, e) implies #[trigger] all.contains((a, e)) by {
                    assert(a >= end);
                }
            }
        }
    }
}

/// Exactly the passport numbers that are no part of a longer word are found, in the order of the
/// text.
pub proof fn law_exactly_lone_passport_numbers_are_found(t: Seq<char>)
    ensures
        forall|k: int|
            0 <= k < passports_from(t, 0).len() ==> is_lone_passport(
                t,
                (#[trigger] passports_from(t, 0)[k]).0,
                passports_from(t, 0)[k].1,
            ),
        in_a_row(passports_from(t, 0)),
        forall|a: int, e: int| is_lone_passport(t, a, e) ==> #[trigger] passports_from(t, 0).contains((a, e)),
{
    lemma_passports(t, 0);
    assert forall|a: int, e: int| is_lone_passport(t, a, e) implies #[trigger] passports_from(t, 0).contains((a, e)) by {
        assert(0 <= a && is_lone_passport(t, a, e));
    }
}

} // verus!
