//! A generator of numbers that always gives the same numbers from the same seed.

use vstd::prelude::*;

verus! {

/// A linear congruential generator.
///
/// It is meant for samples that can be made again, not for statistics.
#[derive(Debug, Clone)]
pub struct Rng {
    pub state: u64,
}

/// The state that follows a state.
pub open spec fn next(s: u64) -> u64 {
    s.wrapping_mul(6364136223846793005).wrapping_add(1442695040888963407)
}

/// The state `n` draws later.
pub open spec fn later(s: u64, n: nat) -> u64
    decreases n,
{
    if n == 0 {
        s
    } else {
        next(later(s, (n - 1) as nat))
    }
}

/// The number below `n` that is drawn in a state. Of a range without numbers zero is drawn.
pub open spec fn drawn(s: u64, n: u64) -> nat {
    ((next(s) >> 33) % if n == 0 {
        1
    } else {
        n
    }) as nat
}

/// The digits that are drawn, one after the other.
pub open spec fn digits_drawn(s: u64, n: nat) -> Seq<u8>
    decreases n,
{
    if n == 0 {
        Seq::empty()
    } else {
        digits_drawn(s, (n - 1) as nat).push(drawn(later(s, (n - 1) as nat), 10) as u8)
    }
}

/// Drawing in two goes is drawing in one.
pub proof fn lemma_later_add(s: u64, m: nat, n: nat)
    ensures
        later(later(s, m), n) == later(s, m + n),
    decreases n,
{
    if n > 0 {
        lemma_later_add(s, m, (n - 1) as nat);
    }
}

pub proof fn lemma_digits_drawn(s: u64, n: nat)
    ensures
        digits_drawn(s, n).len() == n,
        forall|i: int| 0 <= i < n ==> #[trigger] digits_drawn(s, n)[i] < 10,
    decreases n,
{
    if n > 0 {
        lemma_digits_drawn(s, (n - 1) as nat);
    }
}

impl Rng {
    /// A generator with a seed.
    pub fn new(seed: u64) -> (r: Self)
        ensures
            r.state == seed ^ 0x9e37_79b9_7f4a_7c15,
    {
        Rng { state: seed ^ 0x9e37_79b9_7f4a_7c15 }
    }

    /// A number below `n`.
    pub fn below(&mut self, n: u64) -> (r: usize)
        ensures
            r == drawn(old(self).state, n),
            n > 0 ==> r < n,
            final(self).state == next(old(self).state),
            final(self).state == later(old(self).state, 1),
    {
        reveal_with_fuel(later, 2);
        self.state = self.state.wrapping_mul(6364136223846793005).wrapping_add(1442695040888963407);
        let s: u64 = self.state;
        let m: u64 = if n == 0 {
            1
        } else {
            n
        };
        let v: u64 = s >> 33;
        assert(v < 0x8000_0000) by (bit_vector)
            requires
                v == s >> 33,
        ;
        assert(v % m <= v) by (nonlinear_arith)
            requires
                m > 0,
        ;
        (v % m) as usize
    }

    /// A digit.
    pub fn digit(&mut self) -> (r: u8)
        ensures
            r == drawn(old(self).state, 10),
            r < 10,
            final(self).state == next(old(self).state),
            final(self).state == later(old(self).state, 1),
    {
        self.below(10) as u8
    }

    /// Some digits.
    pub fn digits(&mut self, n: usize) -> (r: Vec<u8>)
        ensures
            r@ == digits_drawn(old(self).state, n as nat),
            r@.len() == n,
            forall|i: int| 0 <= i < n ==> #[trigger] r@[i] < 10,
            final(self).state == later(old(self).state, n as nat),
    {
        let mut out: Vec<u8> = Vec::new();
        let mut i: usize = 0;
        while i < n
            invariant
                i <= n,
                out@ == digits_drawn(old(self).state, i as nat),
                self.state == later(old(self).state, i as nat),
            decreases n - i,
        {
            let d = self.digit();
            out.push(d);
            i += 1;
        }
        proof {
            lemma_digits_drawn(old(self).state, n as nat);
        }
        out
    }
}

} // verus!
