//! Work division for the parallel brute-force gravity pass: the particles
//! after the focal one are cut into contiguous slices, one task per non-empty
//! slice, and the answers of one focal particle are gathered before any of
//! them is applied.
use vstd::prelude::*;
use vstd::arithmetic::div_mod::lemma_fundamental_div_mod;

verus! {

/// Length of each slice when `n` items are cut into `parts` slices: `n / parts`
/// rounded up.
pub open spec fn slice_len(n: int, parts: int) -> int {
    if n % parts == 0 {
        n / parts
    } else {
        n / parts + 1
    }
}

/// Slice `k` of `0 .. n` with slices of length `s`: the half-open range from
/// `k * s` to `(k + 1) * s`, cut short at `n`.
pub open spec fn slice_of(n: int, s: int, k: int) -> (int, int) {
    (k * s, if (k + 1) * s < n { (k + 1) * s } else { n })
}

/// Every position below `n` lies in slice `pos / s` of the slices of length
/// `s`, and slices of distinct indices do not overlap.
pub proof fn lemma_slices_cover(n: int, s: int, count: int)
    requires
        s > 0,
        count * s >= n,
    ensures
        forall|pos: int|
            0 <= pos < n ==> {
                let k = #[trigger] (pos / s);
                &&& 0 <= k < count
                &&& slice_of(n, s, k).0 <= pos < slice_of(n, s, k).1
            },
        forall|k1: int, k2: int|
            0 <= k1 < k2 ==> #[trigger] slice_of(n, s, k1).1 <= #[trigger] slice_of(n, s, k2).0,
{
    assert forall|pos: int| 0 <= pos < n implies {
        let k = #[trigger] (pos / s);
        &&& 0 <= k < count
        &&& slice_of(n, s, k).0 <= pos < slice_of(n, s, k).1
    } by {
        lemma_fundamental_div_mod(pos, s);
        let k = pos / s;
        assert(0 <= k * s <= pos < (k + 1) * s && 0 <= k) by (nonlinear_arith)
            requires
                pos == s * k + pos % s,
                0 <= pos % s < s,
                0 <= pos,
                s > 0,
        ;
        assert(k < count) by (nonlinear_arith)
            requires
                k * s <= pos,
                pos < n,
                n <= count * s,
                s > 0,
        ;
    }
    assert forall|k1: int, k2: int| 0 <= k1 < k2 implies #[trigger] slice_of(n, s, k1).1
        <= #[trigger] slice_of(n, s, k2).0 by {
        assert((k1 + 1) * s <= k2 * s) by (nonlinear_arith)
            requires
                k1 + 1 <= k2,
                s > 0,
        ;
    }
}

/// Cut the positions `0 .. n` into at most `parts` contiguous, non-empty,
/// half-open ranges `(start, end)` of `slice_len(n, parts)` positions each,
/// the last one possibly shorter; they follow each other and cover `0 .. n`.
pub fn partition(n: usize, parts: usize) -> (r: Vec<(usize, usize)>)
    requires
        parts > 0,
    ensures
        r@.len() <= parts,
        forall|k: int|
            0 <= k < r@.len() ==> ((#[trigger] r@[k]).0 as int, r@[k].1 as int) == slice_of(
                n as int,
                slice_len(n as int, parts as int),
                k,
            ),
        r@.len() * slice_len(n as int, parts as int) >= n,
        r@.len() > 0 ==> (r@.len() - 1) * slice_len(n as int, parts as int) < n,
        forall|k: int| 0 <= k < r@.len() ==> (#[trigger] r@[k]).0 < r@[k].1,
        n > 0 ==> r@.len() > 0 && r@[0].0 == 0 && r@.last().1 == n,
        forall|k: int| 0 <= k < r@.len() - 1 ==> (#[trigger] r@[k]).1 == r@[k + 1].0,
        forall|pos: int|
            0 <= pos < n ==> {
                let k = #[trigger] (pos / slice_len(n as int, parts as int));
                &&& 0 <= k < r@.len()
                &&& r@[k].0 <= pos < r@[k].1
            },
        forall|k1: int, k2: int|
            0 <= k1 < k2 < r@.len() ==> (#[trigger] r@[k1]).1 <= (#[trigger] r@[k2]).0,
{
    let s: usize = if n % parts == 0 {
        n / parts
    } else {
        assert(n / parts < n) by (nonlinear_arith)
            requires
                n % parts != 0,
                parts > 0,
        {
            if parts == 1 {
                assert(n % parts == 0);
            }
        }
        n / parts + 1
    };
    proof {
        lemma_fundamental_div_mod(n as int, parts as int);
        assert(s * parts >= n) by (nonlinear_arith)
            requires
                n == parts * (n / parts) + n % parts,
                n % parts < parts,
                s == slice_len(n as int, parts as int),
        ;
        assert(n > 0 ==> s > 0) by (nonlinear_arith)
            requires
                s * parts >= n,
                parts > 0,
        ;
    }
    let mut r: Vec<(usize, usize)> = Vec::new();
    let mut start: usize = 0;
    assert(r@.len() * s == 0);
    while start < n
        invariant
            s == slice_len(n as int, parts as int),
            s * parts >= n,
            n > 0 ==> s > 0,
            start <= n,
            start < n ==> start == r@.len() * s,
            start == n ==> r@.len() * s >= n,
            r@.len() > 0 ==> (r@.len() - 1) * s < n,
            r@.len() <= parts,
            forall|k: int|
                0 <= k < r@.len() ==> ((#[trigger] r@[k]).0 as int, r@[k].1 as int) == slice_of(
                    n as int,
                    s as int,
                    k,
                ),
            forall|k: int| 0 <= k < r@.len() ==> (#[trigger] r@[k]).0 < r@[k].1,
            r@.len() > 0 ==> r@[0].0 == 0 && r@.last().1 == start,
            r@.len() == 0 ==> start == 0,
            forall|k: int| 0 <= k < r@.len() - 1 ==> (#[trigger] r@[k]).1 == r@[k + 1].0,
        decreases n - start,
    {
        let ghost len = r@.len() as int;
        let end = if n - start <= s {
            n
        } else {
            start + s
        };
        proof {
            assert((len + 1) * s == len * s + s) by (nonlinear_arith);
            assert(len < parts) by (nonlinear_arith)
                requires
                    len * s < n,
                    n <= s * parts,
                    s > 0,
            ;
        }
        r.push((start, end));
        start = end;
        proof {
            assert(r@[len].0 as int == len * s && r@[len].1 == end);
        }
    }
    proof {
        if n > 0 {
            lemma_slices_cover(n as int, s as int, r@.len() as int);
            assert forall|pos: int| 0 <= pos < n implies {
                let k = #[trigger] (pos / slice_len(n as int, parts as int));
                &&& 0 <= k < r@.len()
                &&& r@[k].0 <= pos < r@[k].1
            } by {
                let k = pos / (s as int);
                assert(0 <= k < r@.len());
                assert((r@[k].0 as int, r@[k].1 as int) == slice_of(n as int, s as int, k));
            }
            assert forall|k1: int, k2: int| 0 <= k1 < k2 < r@.len() implies (#[trigger] r@[k1]).1
                <= (#[trigger] r@[k2]).0 by {
                assert((r@[k1].0 as int, r@[k1].1 as int) == slice_of(n as int, s as int, k1));
                assert((r@[k2].0 as int, r@[k2].1 as int) == slice_of(n as int, s as int, k2));
                assert(slice_of(n as int, s as int, k1).1 <= slice_of(n as int, s as int, k2).0);
            }
        }
    }
    r
}

/// The tasks for focal particle `focal` of `n`: the particles after it,
/// `focal + 1 .. n`, cut by `partition` into at most `parts` contiguous
/// non-empty ranges of global indices. Every unordered pair of particles is
/// thus handled once, under its lower index.
pub fn focal_tasks(n: usize, focal: usize, parts: usize) -> (r: Vec<(usize, usize)>)
    requires
        focal < n,
        parts > 0,
    ensures
        r@.len() <= parts,
        forall|k: int|
            0 <= k < r@.len() ==> ((#[trigger] r@[k]).0 - focal - 1, r@[k].1 - focal - 1) == slice_of(
                n - focal - 1,
                slice_len(n - focal - 1, parts as int),
                k,
            ),
        r@.len() * slice_len(n - focal - 1, parts as int) >= n - focal - 1,
        r@.len() > 0 ==> (r@.len() - 1) * slice_len(n - focal - 1, parts as int) < n - focal - 1,
        forall|k: int| 0 <= k < r@.len() ==> focal < (#[trigger] r@[k]).0 < r@[k].1 <= n,
        focal + 1 < n ==> r@.len() > 0 && r@[0].0 == focal + 1 && r@.last().1 == n,
        forall|k: int| 0 <= k < r@.len() - 1 ==> (#[trigger] r@[k]).1 == r@[k + 1].0,
        forall|other: int|
            focal < other < n ==> {
                let k = #[trigger] ((other - focal - 1) / slice_len(n - focal - 1, parts as int));
                &&& 0 <= k < r@.len()
                &&& r@[k].0 <= other < r@[k].1
            },
        forall|k1: int, k2: int|
            0 <= k1 < k2 < r@.len() ==> (#[trigger] r@[k1]).1 <= (#[trigger] r@[k2]).0,
{
    let m = n - focal - 1;
    let local = partition(m, parts);
    proof {
        assert forall|j: int| 0 <= j < local@.len() implies (#[trigger] local@[j]).1 <= m by {
            let s = slice_len(m as int, parts as int);
            assert((local@[j].0 as int, local@[j].1 as int) == slice_of(m as int, s, j));
        }
    }
    let mut r: Vec<(usize, usize)> = Vec::new();
    for k in 0..local.len()
        invariant
            m == n - focal - 1,
            forall|j: int|
                0 <= j < local@.len() ==> ((#[trigger] local@[j]).0 as int, local@[j].1 as int)
                    == slice_of(m as int, slice_len(m as int, parts as int), j),
            r@.len() == k,
            forall|j: int|
                0 <= j < local@.len() ==> (#[trigger] local@[j]).0 < local@[j].1 <= m,
            forall|j: int|
                0 <= j < k ==> (#[trigger] r@[j]).0 == local@[j].0 + focal + 1 && r@[j].1
                    == local@[j].1 + focal + 1,
            m > 0 ==> local@.len() > 0 && local@[0].0 == 0 && local@.last().1 == m,
            forall|j: int| 0 <= j < local@.len() - 1 ==> (#[trigger] local@[j]).1 == local@[j + 1].0,
            forall|pos: int|
                0 <= pos < m ==> {
                    let j = #[trigger] (pos / slice_len(m as int, parts as int));
                    &&& 0 <= j < local@.len()
                    &&& local@[j].0 <= pos < local@[j].1
                },
            forall|j1: int, j2: int|
                0 <= j1 < j2 < local@.len() ==> (#[trigger] local@[j1]).1 <= (#[trigger] local@[j2]).0,
    {
        let (a, b) = local[k];
        r.push((a + focal + 1, b + focal + 1));
    }
    proof {
        assert forall|other: int| focal < other < n implies {
            let k = #[trigger] ((other - focal - 1) / slice_len(n - focal - 1, parts as int));
            &&& 0 <= k < r@.len()
            &&& r@[k].0 <= other < r@[k].1
        } by {
            let pos = other - focal - 1;
            let j = pos / slice_len(m as int, parts as int);
            assert(0 <= j < local@.len() && local@[j].0 <= pos < local@[j].1);
        }
        assert forall|k1: int, k2: int| 0 <= k1 < k2 < r@.len() implies (#[trigger] r@[k1]).1
            <= (#[trigger] r@[k2]).0 by {
            assert(local@[k1].1 <= local@[k2].0);
        }
    }
    r
}

/// Mathematical model of one gather round.
pub struct GatherModel {
    pub expected: int,
    pub arrived: int,
    pub missed: int,
}

/// The answers awaited for one focal particle: as many as tasks were sent,
/// each either arrived or missed (a failed receive).
pub struct Gather {
    expected: usize,
    arrived: usize,
    missed: usize,
}

impl View for Gather {
    type V = GatherModel;

    closed spec fn view(&self) -> GatherModel {
        GatherModel {
            expected: self.expected as int,
            arrived: self.arrived as int,
            missed: self.missed as int,
        }
    }
}

impl Gather {
    /// A round that awaits `expected` answers, none seen yet.
    pub fn new(expected: usize) -> (g: Gather)
        ensures
            g@ == (GatherModel { expected: expected as int, arrived: 0, missed: 0 }),
    {
        Gather { expected, arrived: 0, missed: 0 }
    }

    /// Whether every awaited answer has been received or missed.
    pub fn is_done(&self) -> (r: bool)
        ensures
            r == (self@.arrived + self@.missed >= self@.expected),
    {
        self.missed >= self.expected || self.arrived >= self.expected - self.missed
    }

    /// Whether the gathered partial accelerations may be applied: every
    /// awaited answer arrived. A missed answer withholds the whole round.
    pub fn may_apply(&self) -> (r: bool)
        ensures
            r == (self@.arrived == self@.expected && self@.missed == 0),
    {
        self.arrived == self.expected && self.missed == 0
    }

    /// Count one receive on the result queue, which brought an answer or
    /// failed.
    pub fn record(&mut self, received: bool)
        requires
            old(self)@.arrived + old(self)@.missed < old(self)@.expected,
        ensures
            final(self)@ == (if received {
                GatherModel { arrived: old(self)@.arrived + 1, ..old(self)@ }
            } else {
                GatherModel { missed: old(self)@.missed + 1, ..old(self)@ }
            }),
    {
        if received {
            self.arrived = self.arrived + 1;
        } else {
            self.missed = self.missed + 1;
        }
    }
}

} // verus!
