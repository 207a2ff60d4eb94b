//! Lists of rule names: ascending, without repetition.

use vstd::prelude::*;
use crate::span::{lists_rules, rule_names, RuleId};
use crate::text::{
    lemma_lex_irreflexive, lemma_lex_total, lemma_lex_transitive, lex_less, same_text, text_less,
};

verus! {

broadcast use crate::text::lemma_text_char_range;

/// Adds a rule to a list, at its place, unless it is there.
pub fn insert_rule(rules: &mut Vec<RuleId>, rule: RuleId, Ghost(set): Ghost<Set<Seq<char>>>)
    requires
        lists_rules(old(rules)@, set),
    ensures
        lists_rules(final(rules)@, set.insert(rule@)),
{
    let mut i: usize = 0;
    while i < rules.len() && text_less(rules[i], rule)
        invariant
            i <= rules.len(),
            rules@ == old(rules)@,
            forall|k: int| 0 <= k < i ==> lex_less(#[trigger] rules@[k]@, rule@),
        decreases rules.len() - i,
    {
        i += 1;
    }
    let ghost before = rules@;
    if i < rules.len() && same_text(rules[i], rule) {
        proof {
            let names = rule_names(before);
            assert(names[i as int] == rule@);
            assert(set.insert(rule@) =~= set);
        }
        return;
    }
    rules.insert(i, rule);
    proof {
        let after = rules@;
        assert(after == before.insert(i as int, rule));
        assert forall|a: int, b: int| 0 <= a < b < after.len() implies lex_less(
            #[trigger] after[a]@,
            #[trigger] after[b]@,
        ) by {
            let c = if b > i {
                b - 1
            } else {
                b
            };
            if a < i {
                assert(after[a] == before[a]);
                if b != i {
                    assert(after[b] == before[c]);
                }
            } else if a == i {
                assert(after[b] == before[b - 1]);
                lemma_lex_total(before[i as int]@, rule@);
                if b - 1 > i {
                    assert(lex_less(before[i as int]@, before[b - 1]@));
                    lemma_lex_transitive(rule@, before[i as int]@, before[b - 1]@);
                }
            } else {
                assert(after[a] == before[a - 1]);
                assert(after[b] == before[b - 1]);
            }
        }
        let names = rule_names(before);
        let now = rule_names(after);
        assert(now =~= names.insert(i as int, rule@));
        assert(now.to_set() =~= set.insert(rule@)) by {
            assert forall|s: Seq<char>| now.to_set().contains(s) <==> set.insert(rule@).contains(s) by {
                if names.to_set().contains(s) {
                    let k = choose|k: int| 0 <= k < names.len() && names[k] == s;
                    assert(now[if k < i { k } else { k + 1 }] == s);
                }
                if s == rule@ {
                    assert(now[i as int] == s);
                }
                if now.to_set().contains(s) {
                    let k = choose|k: int| 0 <= k < now.len() && now[k] == s;
                    if k != i {
                        assert(names[if k < i { k } else { k - 1 }] == s);
                    }
                }
            }
        }
    }
}

/// Adds every rule of another list.
pub fn insert_rules(
    rules: &mut Vec<RuleId>,
    more: &Vec<RuleId>,
    Ghost(set): Ghost<Set<Seq<char>>>,
    Ghost(added): Ghost<Set<Seq<char>>>,
)
    requires
        lists_rules(old(rules)@, set),
        lists_rules(more@, added),
    ensures
        lists_rules(final(rules)@, set.union(added)),
{
    let ghost names = rule_names(more@);
    let mut i: usize = 0;
    assert(set.union(names.take(0).to_set()) =~= set);
    while i < more.len()
        invariant
            i <= more.len(),
            names == rule_names(more@),
            lists_rules(rules@, set.union(names.take(i as int).to_set())),
        decreases more.len() - i,
    {
        insert_rule(rules, more[i], Ghost(set.union(names.take(i as int).to_set())));
        proof {
            let a = names.take(i as int);
            let b = names.take(i + 1);
            assert(b =~= a.push(names[i as int]));
            assert(set.union(b.to_set()) =~= set.union(a.to_set()).insert(more@[i as int]@)) by {
                assert forall|s: Seq<char>| b.to_set().contains(s) <==> a.to_set().insert(names[i as int]).contains(s) by {
                    if a.to_set().contains(s) {
                        let k = choose|k: int| 0 <= k < a.len() && a[k] == s;
                        assert(b[k] == s);
                    }
                    assert(b[i as int] == names[i as int]);
                }
            }
        }
        i += 1;
    }
    assert(names.take(i as int) =~= names);
}

/// A copy of a list of rules.
pub fn copy_rules(rules: &Vec<RuleId>) -> (r: Vec<RuleId>)
    ensures
        r@ == rules@,
{
    let mut out: Vec<RuleId> = Vec::new();
    let mut i: usize = 0;
    while i < rules.len()
        invariant
            i <= rules.len(),
            out@ =~= rules@.take(i as int),
        decreases rules.len() - i,
    {
        out.push(rules[i]);
        i += 1;
    }
    out
}

/// A set of rules has only one list.
pub proof fn lemma_rules_unique(a: Seq<RuleId>, b: Seq<RuleId>, set: Set<Seq<char>>)
    requires
        lists_rules(a, set),
        lists_rules(b, set),
    ensures
        rule_names(a) == rule_names(b),
{
    let x = rule_names(a);
    let y = rule_names(b);
    lemma_names_prefix(x, y, 0);
    assert(x =~= y);
}

/// Ascending lists of the same names agree from any position on which they agree before.
proof fn lemma_names_prefix(x: Seq<Seq<char>>, y: Seq<Seq<char>>, n: int)
    requires
        0 <= n <= x.len(),
        n <= y.len(),
        forall|i: int| 0 <= i < n ==> x[i] == y[i],
        forall|i: int, j: int| 0 <= i < j < x.len() ==> lex_less(#[trigger] x[i], #[trigger] x[j]),
        forall|i: int, j: int| 0 <= i < j < y.len() ==> lex_less(#[trigger] y[i], #[trigger] y[j]),
        x.to_set() == y.to_set(),
    ensures
        x.len() == y.len(),
        forall|i: int| 0 <= i < x.len() ==> x[i] == y[i],
    decreases x.len() - n,
{
    if n < x.len() {
        let k = lemma_name_in(x, y, n);
        let m = lemma_name_in(y, x, if n < y.len() { n } else { y.len() - 1 });
        if n < y.len() {
            assert(x[n] == y[n]) by {
                lemma_lex_total(x[n], y[n]);
                if lex_less(x[n], y[n]) {
                    if k < n {
                        assert(lex_less(x[k], x[n]));
                    } else if k > n {
                        assert(lex_less(y[n], y[k]));
                        lemma_lex_transitive(x[n], y[n], y[k]);
                    }
                    lemma_lex_irreflexive(x[n]);
                } else if lex_less(y[n], x[n]) {
                    if m < n {
                        assert(lex_less(y[m], y[n]));
                    } else if m > n {
                        assert(lex_less(x[n], x[m]));
                        lemma_lex_transitive(y[n], x[n], x[m]);
                    }
                    lemma_lex_irreflexive(y[n]);
                }
            }
            lemma_names_prefix(x, y, n + 1);
        } else {
            assert(k < n);
            assert(lex_less(x[k], x[n]));
            lemma_lex_irreflexive(x[n]);
        }
    } else if n < y.len() {
        let m = lemma_name_in(y, x, n);
        assert(lex_less(y[m], y[n]));
        lemma_lex_irreflexive(y[n]);
    }
}

proof fn lemma_name_in(x: Seq<Seq<char>>, y: Seq<Seq<char>>, n: int) -> (k: int)
    requires
        0 <= n < x.len(),
        x.to_set() == y.to_set(),
    ensures
        0 <= k < y.len(),
        y[k] == x[n],
{
    assert(x.to_set().contains(x[n]));
    choose|k: int| 0 <= k < y.len() && y[k] == x[n]
}

} // verus!
