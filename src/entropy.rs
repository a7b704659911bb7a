//! Block statistics of one generation: how often each pattern of `k`
//! consecutive cells occurs, reading around the ring. The Shannon entropy
//! of these frequencies is what the entropy analysis reports.

use vstd::prelude::*;
use crate::automaton::Automaton;
use crate::grid::{bits_value, cell_at, two_pow};

verus! {

/// The `k` cells that start at cell `i`, wrapping around the ring.
pub open spec fn window(s: Seq<bool>, i: int, k: nat) -> Seq<bool> {
    Seq::new(k, |j: int| cell_at(s, i + j))
}

/// The pattern of the window at `i`, read as a binary number, first cell
/// most significant.
pub open spec fn window_code(s: Seq<bool>, i: int, k: nat) -> nat {
    bits_value(window(s, i, k))
}

/// How many of the windows starting at cells `0..m` have pattern `p`.
pub open spec fn pattern_count(s: Seq<bool>, k: nat, p: nat, m: nat) -> nat
    decreases m,
{
    if m == 0 {
        0
    } else {
        pattern_count(s, k, p, (m - 1) as nat) + (if window_code(s, m - 1, k) == p {
            1nat
        } else {
            0nat
        })
    }
}

proof fn lemma_pattern_count_bound(s: Seq<bool>, k: nat, p: nat, m: nat)
    ensures
        pattern_count(s, k, p, m) <= m,
    decreases m,
{
    if m > 0 {
        lemma_pattern_count_bound(s, k, p, (m - 1) as nat);
    }
}

/// Where every window of length `k` shows the same pattern, that pattern is
/// counted at every one of the `n` positions and no other pattern occurs:
/// the frequencies are concentrated in one block, whose entropy is zero.
pub proof fn lemma_uniform_windows(s: Seq<bool>, k: nat, p: nat, m: nat)
    requires
        m <= s.len(),
        forall|i: int| 0 <= i < s.len() ==> #[trigger] window(s, i, k) == window(s, 0, k),
    ensures
        pattern_count(s, k, p, m) == (if p == window_code(s, 0, k) {
            m
        } else {
            0
        }),
    decreases m,
{
    if m > 0 {
        lemma_uniform_windows(s, k, p, (m - 1) as nat);
        assert(window(s, m - 1, k) == window(s, 0, k));
    }
}

/// Value of `window(cells, i, k)` computed digit by digit.
fn window_pattern(cells: &Vec<bool>, i: usize, k: usize) -> (r: usize)
    requires
        i < cells.len(),
        k <= cells.len(),
        two_pow(k as nat) <= usize::MAX,
    ensures
        r == window_code(cells@, i as int, k as nat),
        r < two_pow(k as nat),
{
    let n = cells.len();
    let ghost w = window(cells@, i as int, k as nat);
    let mut pattern: usize = 0;
    for j in 0..k
        invariant
            n == cells.len(),
            i < n,
            k <= n,
            two_pow(k as nat) <= usize::MAX,
            w == window(cells@, i as int, k as nat),
            pattern == bits_value(w.take(j as int)),
            pattern < two_pow(j as nat),
    {
        let idx: usize = if j < n - i { i + j } else { j - (n - i) };
        proof {
            assert(idx as int == (i + j) as int % (n as int)) by (nonlinear_arith)
                requires
                    idx == (if j < n - i { i + j } else { j - (n - i) }),
                    i < n,
                    j < n,
            ;
            assert(w.take(j + 1).drop_last() =~= w.take(j as int));
            assert(w[j as int] == cells@[idx as int]);
            lemma_two_pow_mono((j + 1) as nat, k as nat);
        }
        pattern = pattern * 2 + if cells[idx] { 1 } else { 0 };
    }
    assert(w.take(k as int) =~= w);
    pattern
}

proof fn lemma_two_pow_mono(a: nat, b: nat)
    requires
        a <= b,
    ensures
        two_pow(a) <= two_pow(b),
    decreases b,
{
    if a < b {
        lemma_two_pow_mono(a, (b - 1) as nat);
    }
}

impl Automaton {
    /// For `1 <= k <= width`, entry `p` counts the cells whose window of `k`
    /// cells (wrapping around) has pattern `p`; there are `2^k` entries,
    /// summing to the width. For `k == 0` or `k > width` the table is empty
    /// and the entropy is 0 by convention.
    pub fn block_counts(&self, k: usize) -> (r: Vec<usize>)
        requires
            1 <= k <= self.cells.len() ==> two_pow(k as nat) <= usize::MAX,
        ensures
            k == 0 || k > self.cells.len() ==> r.len() == 0,
            1 <= k <= self.cells.len() ==> {
                &&& r.len() == two_pow(k as nat)
                &&& forall|p: int| 0 <= p < r.len() ==> r@[p] == pattern_count(
                    self.cells@,
                    k as nat,
                    p as nat,
                    self.cells.len() as nat,
                )
            },
    {
        let n = self.cells.len();
        if k == 0 || k > n {
            return Vec::new();
        }
        let mut size: usize = 1;
        for j in 0..k
            invariant
                size == two_pow(j as nat),
                two_pow(k as nat) <= usize::MAX,
        {
            proof {
                lemma_two_pow_mono((j + 1) as nat, k as nat);
            }
            size = size * 2;
        }
        let mut counts: Vec<usize> = Vec::with_capacity(size);
        for p in 0..size
            invariant
                counts.len() == p,
                forall|q: int| 0 <= q < p ==> counts@[q] == 0,
        {
            counts.push(0);
        }
        for i in 0..n
            invariant
                n == self.cells.len(),
                1 <= k <= n,
                size == two_pow(k as nat),
                two_pow(k as nat) <= usize::MAX,
                counts.len() == size,
                forall|p: int| 0 <= p < size ==> counts@[p] == pattern_count(
                    self.cells@,
                    k as nat,
                    p as nat,
                    i as nat,
                ),
        {
            let pattern = window_pattern(&self.cells, i, k);
            proof {
                lemma_pattern_count_bound(self.cells@, k as nat, pattern as nat, i as nat);
            }
            let c = counts[pattern];
            counts.set(pattern, c + 1);
        }
        counts
    }
}

} // verus!
