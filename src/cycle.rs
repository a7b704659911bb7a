//! Running an automaton from a single live cell until it dies, revisits a
//! generation, or uses up its step budget.

use vstd::prelude::*;
use crate::automaton::{copy_cells, same_cells, Automaton};
use crate::grid::{
    all_dead, evolve, lemma_distinct_rows_bound, lemma_evolve_len, lemma_live_count_zero,
    live_count, single_seed, two_pow,
};

verus! {

/// What a bounded run from a single live cell ended with.
#[derive(Clone, Copy, Debug, PartialEq, Eq)]
pub struct CycleAnalysis {
    /// Steps before the cycle is entered (or before the row died).
    pub transient: usize,
    /// Length of the cycle; 0 when none was found within the budget, and 1
    /// for a row that died.
    pub period: usize,
    /// Whether the row reached all dead cells.
    pub died: bool,
    /// Live cells in the last generation computed.
    pub final_population: usize,
}

/// Generation `k` of `rule` from a single live cell on a ring of `width`.
pub open spec fn orbit(rule: u8, width: nat, k: nat) -> Seq<bool> {
    evolve(rule, single_seed(width), k)
}

/// Generation `m` equals an earlier one.
pub open spec fn repeats_earlier(rule: u8, width: nat, m: nat) -> bool {
    exists|j: nat| j < m && #[trigger] orbit(rule, width, j) == orbit(rule, width, m)
}

/// Generation `m` ends a run: it is all dead or it repeats an earlier one.
pub open spec fn resolved_at(rule: u8, width: nat, m: nat) -> bool {
    all_dead(orbit(rule, width, m)) || repeats_earlier(rule, width, m)
}

/// No generation from 1 to `m` ends a run.
pub open spec fn unresolved_through(rule: u8, width: nat, m: nat) -> bool {
    forall|k: nat| 1 <= k <= m ==> !#[trigger] resolved_at(rule, width, k)
}

/// Within an unresolved stretch the generations are pairwise different.
proof fn lemma_unresolved_distinct(rule: u8, width: nat, m: nat, j: nat, k: nat)
    requires
        unresolved_through(rule, width, m),
        j < k <= m,
    ensures
        orbit(rule, width, j) != orbit(rule, width, k),
{
    assert(!resolved_at(rule, width, k));
}

/// A deterministic ring of `n` cells cannot go on for `2^n` steps without
/// dying or revisiting a generation: a budget of `2^n + 1` steps always
/// resolves the run.
pub proof fn lemma_cycle_resolution(rule: u8, width: nat, max_steps: nat)
    requires
        max_steps >= two_pow(width) + 1,
    ensures
        exists|m: nat| 1 <= m <= max_steps && #[trigger] resolved_at(rule, width, m),
{
    if !exists|m: nat| 1 <= m <= max_steps && #[trigger] resolved_at(rule, width, m) {
        let rows = Seq::new((max_steps + 1) as nat, |k: int| orbit(rule, width, k as nat));
        assert forall|k: int| 0 <= k < rows.len() implies (#[trigger] rows[k]).len() == width by {
            lemma_evolve_len(rule, single_seed(width), k as nat);
        }
        assert forall|j: int, k: int| 0 <= j < k < rows.len() implies rows[j] != rows[k] by {
            lemma_unresolved_distinct(rule, width, max_steps, j as nat, k as nat);
        }
        lemma_distinct_rows_bound(rows, width);
    }
}

/// Index of the first row of `history` equal to `cells`, if any.
pub fn find_row(history: &Vec<Vec<bool>>, cells: &Vec<bool>) -> (r: Option<usize>)
    ensures
        match r {
            Some(j) => j < history.len() && history@[j as int]@ == cells@ && forall|i: int|
                0 <= i < j ==> history@[i]@ != cells@,
            None => forall|i: int| 0 <= i < history.len() ==> history@[i]@ != cells@,
        },
{
    for j in 0..history.len()
        invariant
            forall|i: int| 0 <= i < j ==> history@[i]@ != cells@,
    {
        if same_cells(&history[j], cells) {
            return Some(j);
        }
    }
    None
}

/// Runs `rule` from a single live cell on a ring of `width` cells for at
/// most `max_steps` steps. The run stops at the first generation that is all
/// dead (`died`, `period` 1, `transient` its index) or that equals an
/// earlier one (`transient` the index of that earlier one, `period` the
/// distance); with neither, `period` is 0 and `transient` is `max_steps`.
pub fn find_cycle(rule: u8, width: usize, max_steps: usize) -> (r: CycleAnalysis)
    requires
        width >= 1,
    ensures
        r.died ==> {
            &&& r.period == 1
            &&& 1 <= r.transient <= max_steps
            &&& all_dead(orbit(rule, width as nat, r.transient as nat))
            &&& unresolved_through(rule, width as nat, (r.transient - 1) as nat)
            &&& r.final_population == 0
        },
        !r.died && r.period > 0 ==> {
            &&& r.transient + r.period <= max_steps
            &&& unresolved_through(rule, width as nat, (r.transient + r.period - 1) as nat)
            &&& !all_dead(orbit(rule, width as nat, (r.transient + r.period) as nat))
            &&& orbit(rule, width as nat, r.transient as nat) == orbit(
                rule,
                width as nat,
                (r.transient + r.period) as nat,
            )
            &&& r.final_population == live_count(
                orbit(rule, width as nat, (r.transient + r.period) as nat),
            )
        },
        r.period == 0 ==> {
            &&& !r.died
            &&& r.transient == max_steps
            &&& unresolved_through(rule, width as nat, max_steps as nat)
            &&& r.final_population == live_count(orbit(rule, width as nat, max_steps as nat))
        },
        max_steps >= two_pow(width as nat) + 1 ==> r.period > 0,
{
    let ghost w = width as nat;
    let mut ca = Automaton::new(width, rule);
    let mut history: Vec<Vec<bool>> = Vec::new();
    history.push(copy_cells(&ca.cells));
    proof {
        lemma_live_count_zero(ca.cells@);
    }
    for step in 0..max_steps
        invariant
            width >= 1,
            w == width as nat,
            ca.rule == rule,
            ca.cells@ == orbit(rule, w, step as nat),
            history.len() == step + 1,
            forall|j: int| 0 <= j <= step ==> (#[trigger] history@[j])@ == orbit(rule, w, j as nat),
            unresolved_through(rule, w, step as nat),
    {
        ca.step();
        let ghost m = (step + 1) as nat;
        assert(ca.cells@ == orbit(rule, w, m));
        let population = ca.population();
        proof {
            lemma_live_count_zero(ca.cells@);
        }
        if population == 0 {
            assert(all_dead(orbit(rule, w, m)));
            return CycleAnalysis { transient: step + 1, period: 1, died: true, final_population: 0 };
        }
        match find_row(&history, &ca.cells) {
            Some(start) => {
                proof {
                    assert(history@[start as int]@ == orbit(rule, w, start as nat));
                }
                return CycleAnalysis {
                    transient: start,
                    period: step + 1 - start,
                    died: false,
                    final_population: population,
                };
            },
            None => {
                proof {
                    assert(!repeats_earlier(rule, w, m)) by {
                        if repeats_earlier(rule, w, m) {
                            let j = choose|j: nat| j < m && #[trigger] orbit(rule, w, j) == orbit(rule, w, m);
                            assert(history@[j as int]@ == orbit(rule, w, j));
                        }
                    }
                    assert(!resolved_at(rule, w, m));
                    assert forall|k: nat| 1 <= k <= m implies !#[trigger] resolved_at(rule, w, k) by {
                        if k < m {
                            assert(!resolved_at(rule, w, k));
                        }
                    }
                }
                history.push(copy_cells(&ca.cells));
            },
        }
    }
    let population = ca.population();
    proof {
        if max_steps >= two_pow(w) + 1 {
            lemma_cycle_resolution(rule, w, max_steps as nat);
        }
    }
    CycleAnalysis { transient: max_steps, period: 0, died: false, final_population: population }
}

/// Longest period that counts as a short cycle.
pub const SHORT_PERIOD: usize = 10;

/// How a bounded run ended.
#[derive(Clone, Copy, PartialEq, Eq, Structural, Debug)]
pub enum CycleClass {
    /// The row died.
    Died,
    /// A cycle of period at most `SHORT_PERIOD`.
    Short,
    /// A cycle of longer period.
    Long,
    /// No cycle within the step budget.
    Unresolved,
}

/// The class of a run: died, short or long cycle, or unresolved.
pub fn classify_cycle(a: &CycleAnalysis) -> (r: CycleClass)
    ensures
        r == (if a.died {
            CycleClass::Died
        } else if 0 < a.period <= SHORT_PERIOD {
            CycleClass::Short
        } else if a.period > SHORT_PERIOD {
            CycleClass::Long
        } else {
            CycleClass::Unresolved
        }),
{
    if a.died {
        CycleClass::Died
    } else if a.period > 0 && a.period <= SHORT_PERIOD {
        CycleClass::Short
    } else if a.period > SHORT_PERIOD {
        CycleClass::Long
    } else {
        CycleClass::Unresolved
    }
}

} // verus!
