//! Reproducible initial rows and the transitions observed from them.
//!
//! A row is drawn from a seed by plain multiplicative arithmetic: cell `i`
//! is live when `seed * (i + 1)`, wrapping at the width of `usize`, leaves a
//! remainder below `density` when divided by 100.

use vstd::prelude::*;
use crate::automaton::{copy_cells, Automaton};
use crate::grid::{evolve, lemma_evolve_len, step_seq};

verus! {

/// Live cells per hundred in the rows that training runs start from.
pub const TRAINING_DENSITY: usize = 50;

/// Live cells per hundred in the sparse rows of the generalization test.
pub const SPARSE_DENSITY: usize = 10;

/// Live cells per hundred in the dense rows of the generalization test.
pub const DENSE_DENSITY: usize = 90;

/// Cell `i` of the row drawn from `seed` at `density` live cells per hundred.
pub open spec fn seeded_cell(seed: usize, i: int, density: usize) -> bool {
    ((seed as nat * (i + 1) as nat) % (usize::MAX as nat + 1)) % 100 < density
}

/// The row of `width` cells drawn from `seed` at `density`.
pub open spec fn seeded_row(seed: usize, width: nat, density: usize) -> Seq<bool> {
    Seq::new(width, |i: int| seeded_cell(seed, i, density))
}

/// Seed of training trial `t`.
pub open spec fn training_seed(t: nat) -> int {
    (t * 12345 + 67890) as int
}

/// Seed of sparse test trial `t`.
pub open spec fn sparse_seed(t: nat) -> int {
    (t * 99999 + 11111) as int
}

/// Seed of dense test trial `t`.
pub open spec fn dense_seed(t: nat) -> int {
    (t * 77777 + 33333) as int
}

/// The row of `width` cells drawn from `seed` at `density` live cells per
/// hundred.
pub fn seeded_cells(seed: usize, width: usize, density: usize) -> (r: Vec<bool>)
    ensures
        r@ == seeded_row(seed, width as nat, density),
{
    let mut cells: Vec<bool> = Vec::with_capacity(width);
    for i in 0..width
        invariant
            cells@ == seeded_row(seed, i as nat, density),
    {
        let v = seed.wrapping_mul(i + 1);
        cells.push(v % 100 < density);
        assert(cells@ =~= seeded_row(seed, (i + 1) as nat, density));
    }
    cells
}

/// Seed of training trial `t`.
pub fn training_seed_of(t: usize) -> (r: usize)
    requires
        training_seed(t as nat) <= usize::MAX,
    ensures
        r == training_seed(t as nat),
{
    t * 12345 + 67890
}

/// Seed of sparse test trial `t`.
pub fn sparse_seed_of(t: usize) -> (r: usize)
    requires
        sparse_seed(t as nat) <= usize::MAX,
    ensures
        r == sparse_seed(t as nat),
{
    t * 99999 + 11111
}

/// Seed of dense test trial `t`.
pub fn dense_seed_of(t: usize) -> (r: usize)
    requires
        dense_seed(t as nat) <= usize::MAX,
    ensures
        r == dense_seed(t as nat),
{
    t * 77777 + 33333
}

/// One observed step: a row and the row that followed it.
#[derive(Clone, Debug, PartialEq, Eq)]
pub struct Transition {
    pub before: Vec<bool>,
    pub after: Vec<bool>,
}

/// Row `g` of training trial `t` of `rule` on `width` cells.
pub open spec fn training_row(rule: u8, width: nat, t: nat, g: nat) -> Seq<bool> {
    evolve(rule, seeded_row(training_seed(t) as usize, width, TRAINING_DENSITY), g)
}

/// Runs `trials` training trials of `rule` for `generations` steps each,
/// each from the row drawn from the trial's seed at 50 live cells per
/// hundred, and records every step: entry `t * generations + g` holds rows
/// `g` and `g + 1` of trial `t`.
pub fn sample_transitions(rule: u8, width: usize, generations: usize, trials: usize) -> (r: Vec<
    Transition,
>)
    requires
        training_seed(trials as nat) <= usize::MAX,
        trials * generations <= usize::MAX,
    ensures
        r.len() == trials * generations,
        forall|k: int|
            0 <= k < r.len() ==> {
                &&& (#[trigger] r@[k]).before.len() == width
                &&& r@[k].after.len() == width
                &&& r@[k].after@ == step_seq(rule, r@[k].before@)
            },
        forall|t: int, g: int|
            0 <= t < trials && 0 <= g < generations ==> {
                &&& (#[trigger] r@[t * generations + g]).before@ == training_row(
                    rule,
                    width as nat,
                    t as nat,
                    g as nat,
                )
                &&& r@[t * generations + g].after@ == training_row(
                    rule,
                    width as nat,
                    t as nat,
                    (g + 1) as nat,
                )
            },
{
    let mut out: Vec<Transition> = Vec::new();
    for t in 0..trials
        invariant
            training_seed(trials as nat) <= usize::MAX,
            trials * generations <= usize::MAX,
            out.len() == t * generations,
            forall|k: int|
                0 <= k < out.len() ==> {
                    &&& (#[trigger] out@[k]).before.len() == width
                    &&& out@[k].after.len() == width
                    &&& out@[k].after@ == step_seq(rule, out@[k].before@)
                },
            forall|tt: int, g: int|
                0 <= tt < t && 0 <= g < generations ==> {
                    &&& (#[trigger] out@[tt * generations + g]).before@ == training_row(
                        rule,
                        width as nat,
                        tt as nat,
                        g as nat,
                    )
                    &&& out@[tt * generations + g].after@ == training_row(
                        rule,
                        width as nat,
                        tt as nat,
                        (g + 1) as nat,
                    )
                },
    {
        let seed = training_seed_of(t);
        let mut ca = Automaton::from_cells(seeded_cells(seed, width, TRAINING_DENSITY), rule);
        for g in 0..generations
            invariant
                t < trials,
                trials * generations <= usize::MAX,
                seed == training_seed(t as nat),
                ca.rule == rule,
                ca.cells@ == training_row(rule, width as nat, t as nat, g as nat),
                out.len() == t * generations + g,
                forall|k: int|
                    0 <= k < out.len() ==> {
                        &&& (#[trigger] out@[k]).before.len() == width
                        &&& out@[k].after.len() == width
                        &&& out@[k].after@ == step_seq(rule, out@[k].before@)
                    },
                forall|tt: int, gg: int|
                    0 <= tt < t && 0 <= gg < generations ==> {
                        &&& (#[trigger] out@[tt * generations + gg]).before@ == training_row(
                            rule,
                            width as nat,
                            tt as nat,
                            gg as nat,
                        )
                        &&& out@[tt * generations + gg].after@ == training_row(
                            rule,
                            width as nat,
                            tt as nat,
                            (gg + 1) as nat,
                        )
                    },
                forall|gg: int|
                    0 <= gg < g ==> {
                        &&& (#[trigger] out@[t * generations + gg]).before@ == training_row(
                            rule,
                            width as nat,
                            t as nat,
                            gg as nat,
                        )
                        &&& out@[t * generations + gg].after@ == training_row(
                            rule,
                            width as nat,
                            t as nat,
                            (gg + 1) as nat,
                        )
                    },
        {
            let before = copy_cells(&ca.cells);
            proof {
                lemma_evolve_len(rule, seeded_row(training_seed(t as nat) as usize, width as nat, TRAINING_DENSITY), g as nat);
            }
            ca.step();
            let after = copy_cells(&ca.cells);
            proof {
                assert(t * generations + g < trials * generations) by (nonlinear_arith)
                    requires t < trials, g < generations;
            }
            let ghost old_out = out@;
            out.push(Transition { before, after });
            proof {
                assert forall|tt: int, gg: int| 0 <= tt < t && 0 <= gg < generations implies #[trigger] out@[tt * generations + gg] == old_out[tt * generations + gg] by {
                    assert(tt * generations + gg < t * generations) by (nonlinear_arith)
                        requires 0 <= tt < t, 0 <= gg < generations;
                }
            }
        }
        proof {
            assert((t + 1) * generations == t * generations + generations) by (nonlinear_arith);
            assert forall|tt: int, g: int| 0 <= tt < t + 1 && 0 <= g < generations implies {
                &&& (#[trigger] out@[tt * generations + g]).before@ == training_row(
                    rule,
                    width as nat,
                    tt as nat,
                    g as nat,
                )
                &&& out@[tt * generations + g].after@ == training_row(
                    rule,
                    width as nat,
                    tt as nat,
                    (g + 1) as nat,
                )
            } by {
                if tt < t {
                } else {
                    assert(tt * generations + g == t * generations + g);
                }
            }
        }
    }
    out
}

} // verus!
