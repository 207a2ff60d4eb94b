//! Bringing items in the order of their positions.

use vstd::prelude::*;
use crate::text::lemma_insert_multiset;

verus! {

/// The position of an item: where it begins, then where it ends.
pub type Position = (u32, u32);

/// The position comes before another.
pub open spec fn before(a: Position, b: Position) -> bool {
    a.0 < b.0 || (a.0 == b.0 && a.1 < b.1)
}

/// Something that has a position.
pub trait Placed: Sized {
    /// The position.
    spec fn at(&self) -> Position;

    /// The position.
    fn position(&self) -> (r: Position)
        ensures
            r == self.at(),
    ;
}

/// Where a position belongs among positions that are in order: behind all that are not behind it.
pub open spec fn slot(places: Seq<Position>, p: Position) -> int
    decreases places.len(),
{
    if places.len() > 0 && before(p, places.last()) {
        slot(places.drop_last(), p)
    } else {
        places.len() as int
    }
}

/// The positions of items.
pub open spec fn positions<T>(items: Seq<T>, at: spec_fn(T) -> Position) -> Seq<Position> {
    Seq::new(items.len(), |i: int| at(items[i]))
}

/// The items in the order of their positions. Items at one position keep their order.
pub open spec fn in_order<T>(items: Seq<T>, at: spec_fn(T) -> Position) -> Seq<T>
    decreases items.len(),
{
    if items.len() == 0 {
        Seq::empty()
    } else {
        let rest = in_order(items.drop_last(), at);
        rest.insert(slot(positions(rest, at), at(items.last())), items.last())
    }
}

pub proof fn lemma_slot(places: Seq<Position>, p: Position)
    ensures
        0 <= slot(places, p) <= places.len(),
        forall|i: int| slot(places, p) <= i < places.len() ==> before(p, #[trigger] places[i]),
        slot(places, p) > 0 ==> !before(p, places[slot(places, p) - 1]),
    decreases places.len(),
{
    if places.len() > 0 && before(p, places.last()) {
        let init = places.drop_last();
        lemma_slot(init, p);
        assert forall|i: int| slot(places, p) <= i < places.len() implies before(p, #[trigger] places[i]) by {
            if i < init.len() {
                assert(init[i] == places[i]);
            }
        }
    }
}

/// Ordering neither drops nor adds an item, and no item stands behind one that it comes before.
pub proof fn law_ordering_orders<T>(items: Seq<T>, at: spec_fn(T) -> Position)
    ensures
        in_order(items, at).len() == items.len(),
        in_order(items, at).to_multiset() == items.to_multiset(),
        forall|i: int, j: int|
            0 <= i < j < items.len() ==> !before(at(#[trigger] in_order(items, at)[j]), at(#[trigger] in_order(items, at)[i])),
    decreases items.len(),
{
    if items.len() == 0 {
        assert(in_order(items, at) =~= items);
    } else {
        let init = items.drop_last();
        let x = items.last();
        let rest = in_order(init, at);
        let places = positions(rest, at);
        let k = slot(places, at(x));
        law_ordering_orders(init, at);
        lemma_slot(places, at(x));
        lemma_insert_multiset(rest, k, x);
        lemma_insert_multiset(init, init.len() as int, x);
        assert(init.insert(init.len() as int, x) =~= items);
        let all = in_order(items, at);
        assert forall|i: int, j: int| 0 <= i < j < items.len() implies !before(
            at(#[trigger] all[j]),
            at(#[trigger] all[i]),
        ) by {
            if j == k {
                assert(!before(at(x), places[k - 1]));
                assert(places[k - 1] == at(rest[k - 1]));
                if i < k - 1 {
                    assert(!before(at(rest[k - 1]), at(rest[i])));
                }
                assert(all[i] == rest[i]);
            } else if i == k {
                assert(before(at(x), places[j - 1]));
                assert(all[j] == rest[j - 1]);
            } else {
                let a = if i < k {
                    i
                } else {
                    i - 1
                };
                let b = if j < k {
                    j
                } else {
                    j - 1
                };
                assert(all[i] == rest[a]);
                assert(all[j] == rest[b]);
            }
        }
    }
}

/// Whether an item stands at a position.
pub open spec fn is_at<T>(at: spec_fn(T) -> Position, p: Position) -> spec_fn(T) -> bool {
    |x: T| at(x) == p
}

/// The items at one position.
pub open spec fn at_position<T>(items: Seq<T>, at: spec_fn(T) -> Position, p: Position) -> Seq<T> {
    items.filter(is_at(at, p))
}

proof fn lemma_filter_insert<T>(s: Seq<T>, i: int, x: T, f: spec_fn(T) -> bool)
    requires
        0 <= i <= s.len(),
        forall|k: int| i <= k < s.len() ==> !f(#[trigger] s[k]),
    ensures
        s.insert(i, x).filter(f) == if f(x) {
            s.filter(f).push(x)
        } else {
            s.filter(f)
        },
    decreases s.len() - i,
{
    reveal(Seq::filter);
    let t = s.insert(i, x);
    if i == s.len() {
        assert(t.drop_last() =~= s);
        assert(t.last() == x);
    } else {
        let init = s.drop_last();
        assert forall|k: int| i <= k < init.len() implies !f(#[trigger] init[k]) by {
            assert(!f(s[k]));
        }
        lemma_filter_insert(init, i, x, f);
        assert(t.drop_last() =~= init.insert(i, x));
        assert(t.last() == s.last());
        assert(!f(s[s.len() - 1]));
    }
}

/// Items at one position keep the order in which they came.
pub proof fn law_equal_positions_keep_their_order<T>(items: Seq<T>, at: spec_fn(T) -> Position, p: Position)
    ensures
        at_position(in_order(items, at), at, p) == at_position(items, at, p),
    decreases items.len(),
{
    let f = is_at(at, p);
    if items.len() > 0 {
        let init = items.drop_last();
        let x = items.last();
        let rest = in_order(init, at);
        let places = positions(rest, at);
        let k = slot(places, at(x));
        law_equal_positions_keep_their_order(init, at, p);
        lemma_slot(places, at(x));
        reveal(Seq::filter);
        if at(x) == p {
            assert forall|j: int| k <= j < rest.len() implies !f(#[trigger] rest[j]) by {
                assert(before(at(x), places[j]));
            }
            lemma_filter_insert(rest, k, x, f);
        } else {
            lemma_filter_insert_other(rest, k, x, f);
        }
    } else {
        assert(in_order(items, at) =~= items);
    }
}

proof fn lemma_filter_insert_other<T>(s: Seq<T>, i: int, x: T, f: spec_fn(T) -> bool)
    requires
        0 <= i <= s.len(),
        !f(x),
    ensures
        s.insert(i, x).filter(f) == s.filter(f),
    decreases s.len() - i,
{
    reveal(Seq::filter);
    let t = s.insert(i, x);
    if i == s.len() {
        assert(t.drop_last() =~= s);
    } else {
        lemma_filter_insert_other(s.drop_last(), i, x, f);
        assert(t.drop_last() =~= s.drop_last().insert(i, x));
        assert(t.last() == s.last());
    }
}

/// Ordering does not depend on what the items carry besides their positions.
pub proof fn lemma_in_order_map<T, U>(items: Seq<T>, at: spec_fn(T) -> Position, f: spec_fn(T) -> U, to: spec_fn(U) -> Position)
    requires
        forall|x: T| to(#[trigger] f(x)) == at(x),
    ensures
        in_order(items, at).map_values(f) == in_order(items.map_values(f), to),
        in_order(items, at).len() == items.len(),
    decreases items.len(),
{
    let mapped = items.map_values(f);
    if items.len() == 0 {
        assert(in_order(items, at).map_values(f) =~= in_order(mapped, to));
    } else {
        let init = items.drop_last();
        let x = items.last();
        lemma_in_order_map(init, at, f, to);
        assert(mapped.drop_last() =~= init.map_values(f));
        assert(mapped.last() == f(x));
        let rest = in_order(init, at);
        let rest2 = in_order(init.map_values(f), to);
        assert(positions(rest, at) =~= positions(rest2, to)) by {
            assert forall|i: int| 0 <= i < rest.len() implies #[trigger] positions(rest, at)[i] == positions(rest2, to)[i] by {
                assert(rest2[i] == f(rest[i]));
            }
        }
        let k = slot(positions(rest, at), at(x));
        lemma_slot(positions(rest, at), at(x));
        assert(rest.insert(k, x).map_values(f) =~= rest2.insert(k, f(x)));
    }
}

fn comes_before(a: Position, b: Position) -> (r: bool)
    ensures
        r == before(a, b),
{
    a.0 < b.0 || (a.0 == b.0 && a.1 < b.1)
}

/// The items in the order of their positions.
pub fn ordered<T: Placed>(items: Vec<T>) -> (r: Vec<T>)
    ensures
        r@ == in_order(items@, |x: T| x.at()),
{
    let ghost all = items@;
    let ghost at = |x: T| x.at();
    let mut input: Vec<T> = items;
    // Turned round, so that the items can be taken from the end in their order.
    let mut queue: Vec<T> = Vec::new();
    while input.len() > 0
        invariant
            input@.len() + queue@.len() == all.len(),
            forall|i: int| 0 <= i < input@.len() ==> #[trigger] input@[i] == all[i],
            forall|i: int| 0 <= i < queue@.len() ==> #[trigger] queue@[i] == all[all.len() - 1 - i],
        decreases input@.len(),
    {
        let x = input.pop().unwrap();
        queue.push(x);
    }
    let mut out: Vec<T> = Vec::new();
    let ghost mut done: int = 0;
    assert(all.take(0) =~= Seq::<T>::empty());
    while queue.len() > 0
        invariant
            0 <= done,
            done + queue@.len() == all.len(),
            at == (|x: T| x.at()),
            forall|i: int| 0 <= i < queue@.len() ==> #[trigger] queue@[i] == all[all.len() - 1 - i],
            out@ == in_order(all.take(done), at),
            out@.len() == done,
        decreases queue@.len(),
    {
        let ghost last = queue@.len() - 1;
        let x = queue.pop().unwrap();
        assert(x == all[done]);
        let p = x.position();
        let ghost places = positions(out@, at);
        let mut k: usize = out.len();
        assert(places.take(k as int) =~= places);
        while k > 0 && comes_before(p, out[k - 1].position())
            invariant
                k <= out@.len(),
                places == positions(out@, at),
                at == (|x: T| x.at()),
                slot(places.take(k as int), p) == slot(places, p),
            decreases k,
        {
            assert(places.take(k as int).last() == at(out@[k - 1]));
            assert(places.take(k as int).drop_last() =~= places.take(k - 1));
            k -= 1;
        }
        proof {
            if k > 0 {
                assert(places.take(k as int).last() == at(out@[k - 1]));
            }
        }
        proof {
            let next = all.take(done + 1);
            assert(next.drop_last() =~= all.take(done));
            assert(next.last() == x);
            assert(at(x) == p);
        }
        out.insert(k, x);
        proof {
            done = done + 1;
        }
    }
    assert(all.take(done) =~= all);
    out
}

} // verus!
