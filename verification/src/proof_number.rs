//! Proof numbers: natural numbers extended with infinity.
//!
//! The value is packed into one `u32`: `0` stands for infinity and `n + 1`
//! for the finite value `n`.  Infinity absorbs addition, exceeds every
//! finite value, and cannot be subtracted.

use vstd::prelude::*;
use std::cmp::Ordering;

verus! {

#[derive(PartialEq, Eq, Structural, Copy, Clone, Debug)]
pub struct ProofNumber(pub u32);

impl ProofNumber {
    /// Does this value stand for infinity?
    pub open spec fn is_inf(self) -> bool {
        self.0 == 0
    }

    /// The finite value represented (meaningful only when not infinite).
    pub open spec fn fin(self) -> int {
        self.0 - 1
    }

    pub fn infinite() -> (r: ProofNumber)
        ensures
            r.is_inf(),
    {
        ProofNumber(0)
    }

    pub fn finite(n: u32) -> (r: ProofNumber)
        requires
            n < u32::MAX,
        ensures
            !r.is_inf(),
            r.fin() == n,
    {
        ProofNumber(n + 1)
    }

    /// Compares two values; infinity is greater than every finite value.
    pub fn cmp(&self, other: &ProofNumber) -> (r: Ordering)
        ensures
            r == Ordering::Equal <==> self.0 == other.0,
            r == Ordering::Greater <==> (!(self.0 == other.0) && (self.is_inf() || (!other.is_inf()
                && self.fin() > other.fin()))),
            r == Ordering::Less <==> (!(self.0 == other.0) && !(self.is_inf() || (!other.is_inf()
                && self.fin() > other.fin()))),
    {
        match (self.0, other.0) {
            (0, 0) => Ordering::Equal,
            (0, _) => Ordering::Greater,
            (_, 0) => Ordering::Less,
            (n, m) => if n == m {
                Ordering::Equal
            } else if n > m {
                Ordering::Greater
            } else {
                Ordering::Less
            },
        }
    }

    /// Addition; infinity absorbs.
    pub fn add(self, rhs: ProofNumber) -> (r: ProofNumber)
        requires
            (!self.is_inf() && !rhs.is_inf()) ==> self.fin() + rhs.fin() < u32::MAX,
        ensures
            r.is_inf() == (self.is_inf() || rhs.is_inf()),
            (!self.is_inf() && !rhs.is_inf()) ==> r.fin() == self.fin() + rhs.fin(),
    {
        match (self.0, rhs.0) {
            (0, _) => ProofNumber(0),
            (_, 0) => ProofNumber(0),
            (n, m) => ProofNumber((n - 1) + m),
        }
    }

    /// Subtraction.  Infinity may not be subtracted from anything, a finite
    /// value may be subtracted from infinity (leaving infinity), and a
    /// finite value may be subtracted from a finite value only when the
    /// result is not negative.
    pub fn sub(self, rhs: ProofNumber) -> (r: ProofNumber)
        requires
            !rhs.is_inf(),
            !self.is_inf() ==> rhs.fin() <= self.fin(),
        ensures
            r.is_inf() == self.is_inf(),
            !self.is_inf() ==> r.fin() == self.fin() - rhs.fin(),
    {
        match (self.0, rhs.0) {
            (_, 0) => vstd::pervasive::unreached(),
            (0, _) => ProofNumber::infinite(),
            (n, m) => if m <= n {
                ProofNumber::finite(n - m)
            } else {
                vstd::pervasive::unreached()
            },
        }
    }

    /// The sum of a list of values: infinity if any is infinite, else the
    /// finite total.
    pub fn sum(values: &Vec<ProofNumber>) -> (r: ProofNumber)
        requires
            spec_all_finite(values@) ==> spec_pn_total(values@) < u32::MAX,
        ensures
            r.is_inf() == !spec_all_finite(values@),
            spec_all_finite(values@) ==> r.fin() == spec_pn_total(values@),
    {
        let mut i: usize = 0;
        while i < values.len()
            invariant
                i <= values@.len(),
                forall|j: int| 0 <= j < i ==> !(#[trigger] values@[j]).is_inf(),
            decreases values@.len() - i,
        {
            if values[i].0 == 0 {
                return ProofNumber(0);
            }
            i = i + 1;
        }
        let mut total: u32 = 1;
        i = 0;
        while i < values.len()
            invariant
                i <= values@.len(),
                spec_all_finite(values@),
                spec_pn_total(values@) < u32::MAX,
                total == 1 + spec_pn_prefix(values@, i as int),
            decreases values@.len() - i,
        {
            let v = values[i];
            proof {
                lemma_pn_prefix_le_total(values@, i as int + 1);
            }
            total = total + (v.0 - 1);
            i = i + 1;
        }
        proof {
            lemma_pn_prefix_le_total(values@, values@.len() as int);
        }
        ProofNumber(total)
    }
}

/// Is every value in the list finite?
pub open spec fn spec_all_finite(s: Seq<ProofNumber>) -> bool {
    forall|j: int| 0 <= j < s.len() ==> !(#[trigger] s[j]).is_inf()
}

/// The total of the finite values among the first `n` entries.
pub open spec fn spec_pn_prefix(s: Seq<ProofNumber>, n: int) -> int
    decreases n,
{
    if n <= 0 {
        0
    } else {
        spec_pn_prefix(s, n - 1) + s[n - 1].fin()
    }
}

/// The total of all values in the list, taken as finite.
pub open spec fn spec_pn_total(s: Seq<ProofNumber>) -> int {
    spec_pn_prefix(s, s.len() as int)
}

/// When every value of the list is finite, each running prefix total is
/// bounded by the full total.
proof fn lemma_pn_prefix_le_total(s: Seq<ProofNumber>, n: int)
    requires
        0 <= n <= s.len(),
        spec_all_finite(s),
    ensures
        spec_pn_prefix(s, n) <= spec_pn_total(s),
        spec_pn_prefix(s, n) >= 0,
    decreases s.len() - n,
{
    lemma_pn_prefix_nonneg(s, n);
    if n < s.len() {
        lemma_pn_prefix_le_total(s, n + 1);
        assert(s[n].fin() >= 0);
    }
}

proof fn lemma_pn_prefix_nonneg(s: Seq<ProofNumber>, n: int)
    requires
        0 <= n <= s.len(),
        spec_all_finite(s),
    ensures
        spec_pn_prefix(s, n) >= 0,
    decreases n,
{
    if n > 0 {
        lemma_pn_prefix_nonneg(s, n - 1);
        assert(s[n - 1].fin() >= 0);
    }
}

} // verus!
