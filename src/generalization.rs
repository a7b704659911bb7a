//! Out-of-distribution checks of a learned rule: run the true and the
//! learned rule side by side from sparse and dense rows, and count the
//! cells on which they disagree.

use vstd::prelude::*;
use crate::automaton::{copy_cells, Automaton};
use crate::grid::{evolve, lemma_evolve_len};
use crate::sampling::{
    dense_seed, dense_seed_of, seeded_cells, seeded_row, sparse_seed, sparse_seed_of,
    DENSE_DENSITY, SPARSE_DENSITY,
};

verus! {

/// Trials run from sparse rows, and as many from dense rows.
pub const TEST_TRIALS: usize = 5;

/// Positions among `0..m` at which `a` and `b` differ.
pub open spec fn mismatches(a: Seq<bool>, b: Seq<bool>, m: nat) -> nat
    decreases m,
{
    if m == 0 {
        0
    } else {
        mismatches(a, b, (m - 1) as nat) + (if a[m - 1] != b[m - 1] {
            1nat
        } else {
            0nat
        })
    }
}

/// Cells on which rules `a` and `b` disagree over generations `1..=g`
/// from the row `s`.
pub open spec fn disagreement_total(a: u8, b: u8, s: Seq<bool>, g: nat) -> nat
    decreases g,
{
    if g == 0 {
        0
    } else {
        disagreement_total(a, b, s, (g - 1) as nat) + mismatches(evolve(a, s, g), evolve(b, s, g), s.len())
    }
}

/// The row that test trial `t` starts from, sparse or dense.
pub open spec fn test_row(width: nat, dense: bool, t: nat) -> Seq<bool> {
    if dense {
        seeded_row(dense_seed(t) as usize, width, DENSE_DENSITY)
    } else {
        seeded_row(sparse_seed(t) as usize, width, SPARSE_DENSITY)
    }
}

/// Disagreements of `rule` and `learned` summed over the first `trials`
/// test trials of one kind.
pub open spec fn test_disagreements(rule: u8, learned: u8, width: nat, generations: nat, dense: bool, trials: nat) -> nat
    decreases trials,
{
    if trials == 0 {
        0
    } else {
        test_disagreements(rule, learned, width, generations, dense, (trials - 1) as nat)
            + disagreement_total(rule, learned, test_row(width, dense, (trials - 1) as nat), generations)
    }
}

proof fn lemma_mismatches_bound(a: Seq<bool>, b: Seq<bool>, m: nat)
    ensures
        mismatches(a, b, m) <= m,
    decreases m,
{
    if m > 0 {
        lemma_mismatches_bound(a, b, (m - 1) as nat);
    }
}

proof fn lemma_disagreement_bound(a: u8, b: u8, s: Seq<bool>, g: nat)
    ensures
        disagreement_total(a, b, s, g) <= g * s.len(),
    decreases g,
{
    if g > 0 {
        lemma_disagreement_bound(a, b, s, (g - 1) as nat);
        lemma_mismatches_bound(evolve(a, s, g), evolve(b, s, g), s.len());
        assert(((g - 1) as nat) * s.len() + s.len() == g * s.len()) by (nonlinear_arith)
            requires g > 0;
    }
}

proof fn lemma_test_disagreements_bound(rule: u8, learned: u8, width: nat, generations: nat, dense: bool, trials: nat)
    ensures
        test_disagreements(rule, learned, width, generations, dense, trials) <= trials * (generations * width),
    decreases trials,
{
    if trials > 0 {
        lemma_test_disagreements_bound(rule, learned, width, generations, dense, (trials - 1) as nat);
        lemma_disagreement_bound(rule, learned, test_row(width, dense, (trials - 1) as nat), generations);
        assert(((trials - 1) as nat) * (generations * width) + generations * width == trials * (generations * width)) by (nonlinear_arith)
            requires trials > 0;
    }
}

/// Runs rules `a` and `b` side by side from `cells` for `generations`
/// steps and counts the cells on which they disagree, over all steps.
pub fn count_disagreements(a: u8, b: u8, cells: &Vec<bool>, generations: usize) -> (r: usize)
    requires
        generations * cells.len() <= usize::MAX,
    ensures
        r == disagreement_total(a, b, cells@, generations as nat),
{
    let n = cells.len();
    let mut ca = Automaton::from_cells(copy_cells(cells), a);
    let mut cb = Automaton::from_cells(copy_cells(cells), b);
    let mut errors: usize = 0;
    for g in 0..generations
        invariant
            n == cells.len(),
            generations * n <= usize::MAX,
            ca.rule == a,
            cb.rule == b,
            ca.cells@ == evolve(a, cells@, g as nat),
            cb.cells@ == evolve(b, cells@, g as nat),
            errors == disagreement_total(a, b, cells@, g as nat),
    {
        ca.step();
        cb.step();
        proof {
            lemma_evolve_len(a, cells@, (g + 1) as nat);
            lemma_evolve_len(b, cells@, (g + 1) as nat);
            lemma_disagreement_bound(a, b, cells@, g as nat);
            assert((g + 1) * n <= generations * n) by (nonlinear_arith)
                requires g < generations;
            assert(g * n + n == (g + 1) * n) by (nonlinear_arith);
        }
        let ghost base = errors;
        for i in 0..n
            invariant
                n == cells.len(),
                ca.cells.len() == n,
                cb.cells.len() == n,
                errors == base + mismatches(ca.cells@, cb.cells@, i as nat),
                base + n <= usize::MAX,
        {
            proof {
                lemma_mismatches_bound(ca.cells@, cb.cells@, i as nat);
            }
            if ca.cells[i] != cb.cells[i] {
                errors = errors + 1;
            }
        }
    }
    errors
}

/// Runs `TEST_TRIALS` test trials of one kind (sparse rows at 10 live cells
/// per hundred, or dense ones at 90) and counts the cells on which `rule`
/// and `learned` disagree. The number of cells compared is
/// `TEST_TRIALS * generations * width`.
pub fn generalization_errors(rule: u8, learned: u8, width: usize, generations: usize, dense: bool) -> (r: usize)
    requires
        TEST_TRIALS * (generations * width) <= usize::MAX,
    ensures
        r == test_disagreements(rule, learned, width as nat, generations as nat, dense, TEST_TRIALS as nat),
{
    let mut errors: usize = 0;
    proof {
        assert(generations * width <= TEST_TRIALS * (generations * width)) by (nonlinear_arith);
    }
    for t in 0..TEST_TRIALS
        invariant
            TEST_TRIALS * (generations * width) <= usize::MAX,
            generations * width <= usize::MAX,
            errors == test_disagreements(rule, learned, width as nat, generations as nat, dense, t as nat),
    {
        let cells = if dense {
            seeded_cells(dense_seed_of(t), width, DENSE_DENSITY)
        } else {
            seeded_cells(sparse_seed_of(t), width, SPARSE_DENSITY)
        };
        proof {
            assert(generations * cells.len() == generations * width);
            lemma_test_disagreements_bound(rule, learned, width as nat, generations as nat, dense, (t + 1) as nat);
            assert((t + 1) * (generations * width) <= TEST_TRIALS * (generations * width)) by (nonlinear_arith)
                requires t < TEST_TRIALS;
        }
        let e = count_disagreements(rule, learned, &cells, generations);
        errors = errors + e;
    }
    errors
}

} // verus!
