//! The candidate domain of one cell.

use vstd::prelude::*;

use crate::SIZE;

verus! {

/// What the search may still do with one cell.
#[derive(Clone, Copy, Debug)]
pub enum Domain {
    /// The cell is settled and takes no part in the search.
    Fixed,
    /// The cell is open. Value `v` is a candidate when entry `v - 1` is set.
    Open([bool; SIZE]),
}

impl Domain {
    /// Whether `v` is a candidate.
    pub open spec fn has(self, v: u8) -> bool {
        match self {
            Domain::Fixed => false,
            Domain::Open(present) => 1 <= v <= SIZE && present[v as int - 1],
        }
    }

    /// The number of candidates among the values `1..=n`.
    pub open spec fn count_upto(self, n: nat) -> nat
        decreases n,
    {
        if n == 0 {
            0
        } else {
            self.count_upto((n - 1) as nat) + if self.has(n as u8) {
                1nat
            } else {
                0nat
            }
        }
    }

    /// The number of candidates.
    pub open spec fn count(self) -> nat {
        self.count_upto(SIZE as nat)
    }

    /// Whether every candidate, if there is any, equals `v`.
    pub open spec fn at_most(self, v: u8) -> bool {
        forall|w: u8| self.has(w) ==> w == v
    }

    /// The number of candidates.
    pub fn len(&self) -> (n: usize)
        ensures
            n == self.count(),
            n <= SIZE,
    {
        match self {
            Domain::Fixed => {
                proof {
                    lemma_count_none(*self, SIZE as nat);
                }
                0
            },
            Domain::Open(present) => {
                let mut n: usize = 0;
                let mut v: usize = 0;
                while v < SIZE
                    invariant
                        v <= SIZE,
                        n <= v,
                        n == self.count_upto(v as nat),
                        *self == Domain::Open(*present),
                    decreases SIZE - v,
                {
                    if present[v] {
                        n += 1;
                    }
                    v += 1;
                }
                n
            },
        }
    }

    /// Whether `v` is a candidate.
    pub fn contains(&self, v: u8) -> (b: bool)
        ensures
            b == self.has(v),
    {
        match self {
            Domain::Fixed => false,
            Domain::Open(present) => 1 <= v && v as usize <= SIZE && present[(v - 1) as usize],
        }
    }

    /// Whether the cell is open and taking `v` away would leave it without a
    /// candidate.
    pub fn emptied_by(&self, v: u8) -> (b: bool)
        ensures
            b == (*self is Open && self.at_most(v)),
    {
        match self {
            Domain::Fixed => false,
            Domain::Open(present) => {
                let mut w: usize = 0;
                while w < SIZE
                    invariant
                        w <= SIZE,
                        *self == Domain::Open(*present),
                        forall|u: u8| 1 <= u <= w && self.has(u) ==> u == v,
                    decreases SIZE - w,
                {
                    if present[w] && w + 1 != v as usize {
                        assert(self.has((w + 1) as u8));
                        return false;
                    }
                    w += 1;
                }
                true
            },
        }
    }

    /// The domain without `v`.
    pub fn without(self, v: u8) -> (d: Domain)
        ensures
            d is Open == self is Open,
            forall|w: u8| d.has(w) == (self.has(w) && w != v),
    {
        match self {
            Domain::Fixed => Domain::Fixed,
            Domain::Open(mut present) => {
                if 1 <= v && v as usize <= SIZE {
                    present[(v - 1) as usize] = false;
                }
                Domain::Open(present)
            },
        }
    }

    /// The domain with `v` added, where the cell is open and `v` is a value
    /// of the board; the domain itself otherwise.
    pub fn with(self, v: u8) -> (d: Domain)
        ensures
            d is Open == self is Open,
            forall|w: u8| d.has(w) == (self.has(w) || (w == v && self is Open && 1 <= v <= SIZE)),
    {
        match self {
            Domain::Fixed => Domain::Fixed,
            Domain::Open(mut present) => {
                if 1 <= v && v as usize <= SIZE {
                    present[(v - 1) as usize] = true;
                }
                Domain::Open(present)
            },
        }
    }

    /// The open domain that holds every value of the board.
    pub fn full() -> (d: Domain)
        ensures
            d is Open,
            forall|w: u8| d.has(w) == (1 <= w <= SIZE),
    {
        Domain::Open([true; SIZE])
    }
}

/// A domain without candidates among `1..=n` counts none there.
pub proof fn lemma_count_none(d: Domain, n: nat)
    requires
        forall|w: u8| 1 <= w <= n ==> !d.has(w),
        n <= SIZE,
    ensures
        d.count_upto(n) == 0,
    decreases n,
{
    if n > 0 {
        lemma_count_none(d, (n - 1) as nat);
    }
}

/// A domain has at most `n` candidates among `1..=n`.
pub proof fn lemma_count_bound(d: Domain, n: nat)
    ensures
        d.count_upto(n) <= n,
    decreases n,
{
    if n > 0 {
        lemma_count_bound(d, (n - 1) as nat);
    }
}

/// A smaller domain counts no more.
pub proof fn lemma_count_monotone(a: Domain, b: Domain, n: nat)
    requires
        forall|w: u8| a.has(w) ==> b.has(w),
    ensures
        a.count_upto(n) <= b.count_upto(n),
    decreases n,
{
    if n > 0 {
        lemma_count_monotone(a, b, (n - 1) as nat);
    }
}

} // verus!
