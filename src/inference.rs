//! Learning a rule from observed transitions: per neighborhood code, count
//! how often it was seen and how often the next value was live, optionally
//! flipping each observed outcome by a deterministic noise decision, and
//! take the majority.

use vstd::prelude::*;
use crate::automaton::{copy_cells, neighborhood_of, Automaton};
use crate::grid::{neighborhood_at, step_seq};
use crate::rule::rule_output;
use crate::baseline::{baseline_live, baseline_seen, test_mistakes, train_baseline, SLOTS};
use crate::generalization::{generalization_errors, test_disagreements, TEST_TRIALS};
use crate::locality::{follows_rule, lemma_observations_step, lemma_sample_count_prefix, sample_count};
use crate::sampling::{Transition, seeded_cells, training_row, training_seed, training_seed_of, TRAINING_DENSITY};

verus! {

/// Positions among `0..m` of `s` whose neighborhood code is `c`.
pub open spec fn code_count(s: Seq<bool>, c: u8, m: nat) -> nat
    decreases m,
{
    if m == 0 {
        0
    } else {
        code_count(s, c, (m - 1) as nat) + (if neighborhood_at(s, m - 1) == c {
            1nat
        } else {
            0nat
        })
    }
}

/// The noise decision for position `i` when the running count of its
/// neighborhood code is `running`: flip where `seed + i + running` leaves a
/// remainder below `noise` (flips per thousand) on division by 1000.
pub open spec fn flipped(seed: int, i: int, running: int, noise: int) -> bool {
    (seed + i + running) % 1000 < noise
}

/// Positions among `0..m` with code `c` whose recorded outcome is live,
/// where `base` is how often `c` had been seen before this transition.
pub open spec fn noisy_ones(
    before: Seq<bool>,
    after: Seq<bool>,
    base: int,
    seed: int,
    noise: int,
    c: u8,
    m: nat,
) -> nat
    decreases m,
{
    if m == 0 {
        0
    } else {
        noisy_ones(before, after, base, seed, noise, c, (m - 1) as nat) + (if neighborhood_at(
            before,
            m - 1,
        ) == c && after[m - 1] != flipped(seed, m - 1, base + code_count(before, c, m), noise) {
            1nat
        } else {
            0nat
        })
    }
}

/// The majority vote for one code: live where it was seen and more than
/// half of its outcomes were live; dead where it was never seen.
pub open spec fn majority_live(observed: int, ones: int) -> bool {
    observed > 0 && 2 * ones > observed
}

/// Counts per neighborhood code: how often each was seen, and how often the
/// recorded outcome was live.
pub struct NeighborhoodTally {
    pub observed: Vec<usize>,
    pub ones: Vec<usize>,
}

/// The counts agree with `rule` without noise: every outcome of a code was
/// the rule's bit for it.
pub open spec fn noise_free(rule: u8, observed: Seq<usize>, ones: Seq<usize>) -> bool {
    forall|c: u8| c < 8 ==> #[trigger] ones[c as int] == (if rule_output(rule, c) {
        observed[c as int]
    } else {
        0
    })
}

proof fn lemma_code_count_bound(s: Seq<bool>, c: u8, m: nat)
    ensures
        code_count(s, c, m) <= m,
    decreases m,
{
    if m > 0 {
        lemma_code_count_bound(s, c, (m - 1) as nat);
    }
}

proof fn lemma_noisy_ones_bound(
    before: Seq<bool>,
    after: Seq<bool>,
    base: int,
    seed: int,
    noise: int,
    c: u8,
    m: nat,
)
    ensures
        noisy_ones(before, after, base, seed, noise, c, m) <= code_count(before, c, m),
    decreases m,
{
    if m > 0 {
        lemma_noisy_ones_bound(before, after, base, seed, noise, c, (m - 1) as nat);
    }
}

/// Without noise, and where `after` follows `before` under `rule`, the live
/// outcomes of code `c` are all of its occurrences or none, as the rule's
/// bit for `c` says.
pub proof fn lemma_noise_free_ones(
    rule: u8,
    before: Seq<bool>,
    after: Seq<bool>,
    base: int,
    seed: int,
    c: u8,
    m: nat,
)
    requires
        after == step_seq(rule, before),
        m <= before.len(),
    ensures
        noisy_ones(before, after, base, seed, 0, c, m) == (if rule_output(rule, c) {
            code_count(before, c, m)
        } else {
            0
        }),
    decreases m,
{
    if m > 0 {
        lemma_noise_free_ones(rule, before, after, base, seed, c, (m - 1) as nat);
    }
}

proof fn lemma_set_rule_bit(r: u8, c: u8, d: u8) by (bit_vector)
    requires
        c < 8,
        d < 8,
    ensures
        ((r | (1u8 << c)) >> d) & 1u8 == 1u8 <==> (d == c || (r >> d) & 1u8 == 1u8),
{
}

proof fn lemma_zero_rule(d: u8) by (bit_vector)
    requires
        d < 8,
    ensures
        !((0u8 >> d) & 1u8 == 1u8),
{
}

/// A rule is fixed by its eight output bits.
pub proof fn lemma_rule_from_bits(a: u8, b: u8)
    requires
        forall|c: u8| c < 8 ==> #[trigger] rule_output(a, c) == rule_output(b, c),
    ensures
        a == b,
{
    assert(rule_output(a, 0) == rule_output(b, 0));
    assert(rule_output(a, 1) == rule_output(b, 1));
    assert(rule_output(a, 2) == rule_output(b, 2));
    assert(rule_output(a, 3) == rule_output(b, 3));
    assert(rule_output(a, 4) == rule_output(b, 4));
    assert(rule_output(a, 5) == rule_output(b, 5));
    assert(rule_output(a, 6) == rule_output(b, 6));
    assert(rule_output(a, 7) == rule_output(b, 7));
    lemma_bytes_from_bits(a, b);
}

proof fn lemma_bytes_from_bits(a: u8, b: u8) by (bit_vector)
    requires
        ((a >> 0u8) & 1u8 == 1u8) == ((b >> 0u8) & 1u8 == 1u8),
        ((a >> 1u8) & 1u8 == 1u8) == ((b >> 1u8) & 1u8 == 1u8),
        ((a >> 2u8) & 1u8 == 1u8) == ((b >> 2u8) & 1u8 == 1u8),
        ((a >> 3u8) & 1u8 == 1u8) == ((b >> 3u8) & 1u8 == 1u8),
        ((a >> 4u8) & 1u8 == 1u8) == ((b >> 4u8) & 1u8 == 1u8),
        ((a >> 5u8) & 1u8 == 1u8) == ((b >> 5u8) & 1u8 == 1u8),
        ((a >> 6u8) & 1u8 == 1u8) == ((b >> 6u8) & 1u8 == 1u8),
        ((a >> 7u8) & 1u8 == 1u8) == ((b >> 7u8) & 1u8 == 1u8),
    ensures
        a == b,
{
}

/// Exact recovery: where the counts carry no noise, every neighborhood code
/// was seen at least once, and `inferred` has the majority bit of every
/// code (as `infer_rule` returns it), `inferred` is the true rule.
pub proof fn lemma_exact_recovery(rule: u8, inferred: u8, observed: Seq<usize>, ones: Seq<usize>)
    requires
        observed.len() == 8,
        ones.len() == 8,
        noise_free(rule, observed, ones),
        forall|c: int| 0 <= c < 8 ==> #[trigger] observed[c] > 0,
        forall|c: u8|
            c < 8 ==> #[trigger] rule_output(inferred, c) == majority_live(
                observed[c as int] as int,
                ones[c as int] as int,
            ),
    ensures
        inferred == rule,
{
    assert forall|c: u8| c < 8 implies #[trigger] rule_output(inferred, c) == rule_output(rule, c) by {
        assert(observed[c as int] > 0);
        assert(ones[c as int] == (if rule_output(rule, c) { observed[c as int] } else { 0 }));
    }
    lemma_rule_from_bits(inferred, rule);
}

impl NeighborhoodTally {
    /// Eight codes, each count no larger than how often the code was seen.
    pub open spec fn wf(&self) -> bool {
        &&& self.observed.len() == 8
        &&& self.ones.len() == 8
        &&& forall|c: int| 0 <= c < 8 ==> #[trigger] self.ones@[c] <= self.observed@[c]
    }

    /// All counts zero.
    pub fn new() -> (r: NeighborhoodTally)
        ensures
            r.wf(),
            forall|c: int| 0 <= c < 8 ==> #[trigger] r.observed@[c] == 0 && r.ones@[c] == 0,
    {
        let mut observed: Vec<usize> = Vec::new();
        let mut ones: Vec<usize> = Vec::new();
        for c in 0..8usize
            invariant
                observed.len() == c,
                ones.len() == c,
                forall|d: int| 0 <= d < c ==> observed@[d] == 0 && ones@[d] == 0,
        {
            observed.push(0);
            ones.push(0);
        }
        NeighborhoodTally { observed, ones }
    }

    /// Records one transition: for each position `i` in order, its code
    /// is counted, and its next value is counted as live or dead, flipped
    /// where `seed + i + (the code's count so far)` leaves a remainder below
    /// `noise` (flips per thousand) on division by 1000.
    pub fn record(&mut self, before: &Vec<bool>, after: &Vec<bool>, seed: usize, noise: usize)
        requires
            old(self).wf(),
            after.len() == before.len(),
            forall|c: int| 0 <= c < 8 ==> #[trigger] old(self).observed@[c] + seed + 2 * before.len() <= usize::MAX,
        ensures
            final(self).wf(),
            forall|c: u8|
                c < 8 ==> {
                    &&& #[trigger] final(self).observed@[c as int] == old(self).observed@[c as int]
                        + code_count(before@, c, before.len() as nat)
                    &&& final(self).ones@[c as int] == old(self).ones@[c as int] + noisy_ones(
                        before@,
                        after@,
                        old(self).observed@[c as int] as int,
                        seed as int,
                        noise as int,
                        c,
                        before.len() as nat,
                    )
                },
    {
        let n = before.len();
        for i in 0..n
            invariant
                n == before.len(),
                after.len() == n,
                self.wf(),
                forall|c: int| 0 <= c < 8 ==> #[trigger] old(self).observed@[c] + seed + 2 * n <= usize::MAX,
                forall|c: u8|
                    c < 8 ==> {
                        &&& #[trigger] self.observed@[c as int] == old(self).observed@[c as int]
                            + code_count(before@, c, i as nat)
                        &&& self.ones@[c as int] == old(self).ones@[c as int] + noisy_ones(
                            before@,
                            after@,
                            old(self).observed@[c as int] as int,
                            seed as int,
                            noise as int,
                            c,
                            i as nat,
                        )
                    },
        {
            let code = neighborhood_of(before, i);
            proof {
                lemma_code_count_bound(before@, code, i as nat);
                assert(self.observed@[code as int] == old(self).observed@[code as int] + code_count(before@, code, i as nat));
            }
            let seen = self.observed[code as usize] + 1;
            self.observed.set(code as usize, seen);
            let mut outcome = after[i];
            if (seed + i + seen) % 1000 < noise {
                outcome = !outcome;
            }
            if outcome {
                let o = self.ones[code as usize] + 1;
                self.ones.set(code as usize, o);
            }
            proof {
                assert forall|c: u8| c < 8 implies {
                    &&& #[trigger] self.observed@[c as int] == old(self).observed@[c as int]
                        + code_count(before@, c, (i + 1) as nat)
                    &&& self.ones@[c as int] == old(self).ones@[c as int] + noisy_ones(
                        before@,
                        after@,
                        old(self).observed@[c as int] as int,
                        seed as int,
                        noise as int,
                        c,
                        (i + 1) as nat,
                    )
                } by {
                    if c == code {
                        assert(seen == old(self).observed@[c as int] + code_count(before@, c, (i + 1) as nat));
                    }
                }
            }
        }
        proof {
            assert forall|c: int| 0 <= c < 8 implies #[trigger] self.ones@[c] <= self.observed@[c] by {
                lemma_noisy_ones_bound(
                    before@,
                    after@,
                    old(self).observed@[c] as int,
                    seed as int,
                    noise as int,
                    c as u8,
                    n as nat,
                );
                assert(self.ones@[c] == self.ones@[(c as u8) as int]);
            }
        }
    }

    /// The rule whose bit for each code is the majority vote of its
    /// recorded outcomes; a code never seen gives 0, as does a tie.
    pub fn infer_rule(&self) -> (r: u8)
        requires
            self.wf(),
        ensures
            forall|c: u8|
                c < 8 ==> #[trigger] rule_output(r, c) == majority_live(
                    self.observed@[c as int] as int,
                    self.ones@[c as int] as int,
                ),
    {
        let mut r: u8 = 0;
        proof {
            assert forall|d: u8| d < 8 implies !#[trigger] rule_output(r, d) by {
                lemma_zero_rule(d);
            }
        }
        for c in 0..8u8
            invariant
                self.wf(),
                forall|d: u8|
                    d < 8 ==> #[trigger] rule_output(r, d) == (d < c && majority_live(
                        self.observed@[d as int] as int,
                        self.ones@[d as int] as int,
                    )),
        {
            let seen = self.observed[c as usize];
            let live = self.ones[c as usize];
            if seen > 0 && live > seen - live {
                let ghost prev = r;
                r = r | (1u8 << c);
                proof {
                    assert forall|d: u8| d < 8 implies #[trigger] rule_output(r, d) == (d == c || rule_output(prev, d)) by {
                        lemma_set_rule_bit(prev, c, d);
                    }
                }
            }
        }
        r
    }
}

/// Training sample `s` is step `s % generations` of trial `s / generations`.
pub open spec fn sample_before(rule: u8, width: nat, generations: nat, s: nat) -> Seq<bool> {
    training_row(rule, width, s / generations, s % generations)
}

/// The row that followed training sample `s`.
pub open spec fn sample_after(rule: u8, width: nat, generations: nat, s: nat) -> Seq<bool> {
    training_row(rule, width, s / generations, (s % generations + 1) as nat)
}

/// How often code `c` was seen in the first `m` training samples.
pub open spec fn trained_observed(rule: u8, width: nat, generations: nat, c: u8, m: nat) -> nat
    decreases m,
{
    if m == 0 {
        0
    } else {
        trained_observed(rule, width, generations, c, (m - 1) as nat) + code_count(
            sample_before(rule, width, generations, (m - 1) as nat),
            c,
            width,
        )
    }
}

/// How often code `c` was recorded live in the first `m` training samples.
pub open spec fn trained_ones(rule: u8, width: nat, generations: nat, noise: nat, c: u8, m: nat) -> nat
    decreases m,
{
    if m == 0 {
        0
    } else {
        let s = (m - 1) as nat;
        trained_ones(rule, width, generations, noise, c, s) + noisy_ones(
            sample_before(rule, width, generations, s),
            sample_after(rule, width, generations, s),
            trained_observed(rule, width, generations, c, s) as int,
            training_seed(s / generations),
            noise as int,
            c,
            width,
        )
    }
}

proof fn lemma_trained_observed_bound(rule: u8, width: nat, generations: nat, c: u8, m: nat)
    ensures
        trained_observed(rule, width, generations, c, m) <= m * width,
    decreases m,
{
    if m > 0 {
        lemma_trained_observed_bound(rule, width, generations, c, (m - 1) as nat);
        lemma_code_count_bound(sample_before(rule, width, generations, (m - 1) as nat), c, width);
        assert(((m - 1) as nat) * width + width == m * width) by (nonlinear_arith)
            requires m > 0;
    }
}

/// Runs `trials` training trials of `rule` on `width` cells for
/// `generations` steps each and records every step with the trial's seed
/// and `noise` flips per thousand. Without noise the counts agree with the
/// rule.
pub fn train_tally(rule: u8, width: usize, generations: usize, trials: usize, noise: usize) -> (r:
    NeighborhoodTally)
    requires
        training_seed(trials as nat) + (trials * generations + 2) * width <= usize::MAX,
    ensures
        r.wf(),
        forall|c: u8|
            c < 8 ==> {
                &&& #[trigger] r.observed@[c as int] == trained_observed(
                    rule,
                    width as nat,
                    generations as nat,
                    c,
                    (trials * generations) as nat,
                )
                &&& r.ones@[c as int] == trained_ones(
                    rule,
                    width as nat,
                    generations as nat,
                    noise as nat,
                    c,
                    (trials * generations) as nat,
                )
            },
        noise == 0 ==> noise_free(rule, r.observed@, r.ones@),
{
    let mut tally = NeighborhoodTally::new();
    let ghost w = width as nat;
    let ghost gens = generations as nat;
    proof {
        assert(0 * generations == 0);
        assert forall|c: u8| c < 8 implies {
            &&& #[trigger] tally.observed@[c as int] == trained_observed(rule, w, gens, c, (0 * generations) as nat)
            &&& tally.ones@[c as int] == trained_ones(rule, w, gens, noise as nat, c, (0 * generations) as nat)
        } by {
        }
        assert(trials * generations <= trials * generations + 2);
        assert((trials * generations) * width <= (trials * generations + 2) * width) by (nonlinear_arith);
    }
    for t in 0..trials
        invariant
            w == width as nat,
            gens == generations as nat,
            training_seed(trials as nat) + (trials * generations + 2) * width <= usize::MAX,
            tally.wf(),
            forall|c: u8|
                c < 8 ==> {
                    &&& #[trigger] tally.observed@[c as int] == trained_observed(rule, w, gens, c, (t * generations) as nat)
                    &&& tally.ones@[c as int] == trained_ones(rule, w, gens, noise as nat, c, (t * generations) as nat)
                },
            noise == 0 ==> noise_free(rule, tally.observed@, tally.ones@),
    {
        let seed = training_seed_of(t);
        let mut ca = Automaton::from_cells(seeded_cells(seed, width, TRAINING_DENSITY), rule);
        for g in 0..generations
            invariant
                w == width as nat,
                gens == generations as nat,
                t < trials,
                seed == training_seed(t as nat),
                training_seed(trials as nat) + (trials * generations + 2) * width <= usize::MAX,
                ca.rule == rule,
                ca.cells@ == training_row(rule, w, t as nat, g as nat),
                tally.wf(),
                forall|c: u8|
                    c < 8 ==> {
                        &&& #[trigger] tally.observed@[c as int] == trained_observed(rule, w, gens, c, (t * generations + g) as nat)
                        &&& tally.ones@[c as int] == trained_ones(rule, w, gens, noise as nat, c, (t * generations + g) as nat)
                    },
                noise == 0 ==> noise_free(rule, tally.observed@, tally.ones@),
        {
            let ghost s = (t * generations + g) as nat;
            proof {
                vstd::arithmetic::div_mod::lemma_fundamental_div_mod_converse(
                    s as int,
                    generations as int,
                    t as int,
                    g as int,
                );
                assert(s < trials * generations) by (nonlinear_arith)
                    requires s == t * generations + g, t < trials, g < generations;
                assert(s * width <= (trials * generations) * width) by (nonlinear_arith)
                    requires s < trials * generations;
                assert((trials * generations) * width + 2 * width == (trials * generations + 2) * width) by (nonlinear_arith);
                assert forall|c: int| 0 <= c < 8 implies #[trigger] tally.observed@[c] + seed + 2 * width <= usize::MAX by {
                    lemma_trained_observed_bound(rule, w, gens, c as u8, s);
                    assert(tally.observed@[c] == tally.observed@[(c as u8) as int]);
                    assert(training_seed(t as nat) <= training_seed(trials as nat));
                }
            }
            let before = copy_cells(&ca.cells);
            ca.step();
            proof {
                crate::grid::lemma_evolve_len(rule, crate::sampling::seeded_row(training_seed(t as nat) as usize, w, TRAINING_DENSITY), g as nat);
                assert(before@ == sample_before(rule, w, gens, s));
                assert(ca.cells@ == sample_after(rule, w, gens, s));
            }
            let ghost prev_observed = tally.observed@;
            let ghost prev_ones = tally.ones@;
            tally.record(&before, &ca.cells, seed, noise);
            proof {
                assert((s + 1) as nat == (t * generations + (g + 1)) as nat);
                if noise == 0 {
                    assert forall|c: u8| c < 8 implies #[trigger] tally.ones@[c as int] == (if rule_output(rule, c) {
                        tally.observed@[c as int]
                    } else {
                        0
                    }) by {
                        lemma_noise_free_ones(rule, before@, ca.cells@, prev_observed[c as int] as int, seed as int, c, width as nat);
                        assert(prev_ones[c as int] == (if rule_output(rule, c) { prev_observed[c as int] } else { 0 }));
                    }
                }
            }
        }
        proof {
            assert(t * generations + generations == (t + 1) * generations) by (nonlinear_arith);
        }
    }
    tally
}

/// Training trials behind each inference.
pub const TRAINING_TRIALS: usize = 10;

/// Slot counts of the baseline trained on `trials` training trials.
pub open spec fn baseline_counts(rule: u8, width: nat, generations: nat, trials: nat) -> Seq<usize> {
    Seq::new(SLOTS as nat, |k: int| baseline_seen(rule, width, generations, k, trials * generations) as usize)
}

/// Live outcomes per slot of the baseline trained on `trials` trials.
pub open spec fn baseline_ones(rule: u8, width: nat, generations: nat, trials: nat) -> Seq<usize> {
    Seq::new(SLOTS as nat, |k: int| baseline_live(rule, width, generations, k, trials * generations) as usize)
}

/// Everything one inference run finds.
pub struct InferenceReport {
    /// The learned rule.
    pub inferred_rule: u8,
    /// Per neighborhood code: how often it was seen in training.
    pub observed: Vec<usize>,
    /// Per neighborhood code: how often its recorded outcome was live.
    pub ones: Vec<usize>,
    /// Cells compared per kind of test row: trials times steps times width.
    pub cells_compared: usize,
    /// Cells where the learned rule disagrees with the true one, sparse rows.
    pub sparse_errors: usize,
    /// Cells where the learned rule disagrees with the true one, dense rows.
    pub dense_errors: usize,
    /// Mispredicted cells of the correlational baseline, sparse rows.
    pub baseline_sparse_errors: usize,
    /// Mispredicted cells of the correlational baseline, dense rows.
    pub baseline_dense_errors: usize,
}

/// Learns `rule` from `TRAINING_TRIALS` training trials on `width` cells of
/// `generations` steps with `noise` flips per thousand, then compares the
/// learned rule and the correlational baseline with the truth on sparse and
/// dense rows.
pub fn infer_report(rule: u8, width: usize, generations: usize, noise: usize) -> (r: InferenceReport)
    requires
        training_seed(TRAINING_TRIALS as nat) + (TRAINING_TRIALS * generations + 2) * width <= usize::MAX,
        TEST_TRIALS * (generations * width) <= usize::MAX,
    ensures
        r.observed.len() == 8,
        r.ones.len() == 8,
        forall|c: u8|
            c < 8 ==> {
                &&& #[trigger] r.observed@[c as int] == trained_observed(
                    rule,
                    width as nat,
                    generations as nat,
                    c,
                    (TRAINING_TRIALS * generations) as nat,
                )
                &&& r.ones@[c as int] == trained_ones(
                    rule,
                    width as nat,
                    generations as nat,
                    noise as nat,
                    c,
                    (TRAINING_TRIALS * generations) as nat,
                )
                &&& rule_output(r.inferred_rule, c) == majority_live(
                    r.observed@[c as int] as int,
                    r.ones@[c as int] as int,
                )
            },
        noise == 0 && (forall|c: int| 0 <= c < 8 ==> #[trigger] r.observed@[c] > 0) ==> r.inferred_rule == rule,
        r.cells_compared == TEST_TRIALS * (generations * width),
        r.sparse_errors == test_disagreements(rule, r.inferred_rule, width as nat, generations as nat, false, TEST_TRIALS as nat),
        r.dense_errors == test_disagreements(rule, r.inferred_rule, width as nat, generations as nat, true, TEST_TRIALS as nat),
        r.baseline_sparse_errors == test_mistakes(
            baseline_counts(rule, width as nat, generations as nat, TRAINING_TRIALS as nat),
            baseline_ones(rule, width as nat, generations as nat, TRAINING_TRIALS as nat),
            rule,
            width as nat,
            generations as nat,
            false,
            TEST_TRIALS as nat,
        ),
        r.baseline_dense_errors == test_mistakes(
            baseline_counts(rule, width as nat, generations as nat, TRAINING_TRIALS as nat),
            baseline_ones(rule, width as nat, generations as nat, TRAINING_TRIALS as nat),
            rule,
            width as nat,
            generations as nat,
            true,
            TEST_TRIALS as nat,
        ),
{
    let tally = train_tally(rule, width, generations, TRAINING_TRIALS, noise);
    let inferred = tally.infer_rule();
    proof {
        if noise == 0 && (forall|c: int| 0 <= c < 8 ==> #[trigger] tally.observed@[c] > 0) {
            lemma_exact_recovery(rule, inferred, tally.observed@, tally.ones@);
        }
    }
    let ghost recovered = noise == 0 && (forall|c: int| 0 <= c < 8 ==> #[trigger] tally.observed@[c] > 0);
    assert(recovered ==> inferred == rule);
    let sparse_errors = generalization_errors(rule, inferred, width, generations, false);
    let dense_errors = generalization_errors(rule, inferred, width, generations, true);
    proof {
        assert((TRAINING_TRIALS * generations + 1) * width <= (TRAINING_TRIALS * generations + 2) * width) by (nonlinear_arith);
    }
    let model = train_baseline(rule, width, generations, TRAINING_TRIALS);
    proof {
        assert(model.counts@ =~= baseline_counts(rule, width as nat, generations as nat, TRAINING_TRIALS as nat));
        assert(model.ones@ =~= baseline_ones(rule, width as nat, generations as nat, TRAINING_TRIALS as nat));
    }
    let baseline_sparse_errors = model.test_errors(rule, width, generations, false);
    let baseline_dense_errors = model.test_errors(rule, width, generations, true);
    let ghost observed = tally.observed@;
    let report = InferenceReport {
        inferred_rule: inferred,
        observed: tally.observed,
        ones: tally.ones,
        cells_compared: TEST_TRIALS * (generations * width),
        sparse_errors,
        dense_errors,
        baseline_sparse_errors,
        baseline_dense_errors,
    };
    assert(report.observed@ == observed);
    report
}

/// Occurrences of code `c` over all positions of all transitions.
pub open spec fn total_code_count(ts: Seq<Transition>, c: u8) -> nat
    decreases ts.len(),
{
    if ts.len() == 0 {
        0
    } else {
        total_code_count(ts.drop_last(), c) + code_count(ts.last().before@, c, ts.last().before@.len())
    }
}

/// Occurrences of code `c` whose next value is live, over all transitions.
pub open spec fn total_live_count(ts: Seq<Transition>, c: u8) -> nat
    decreases ts.len(),
{
    if ts.len() == 0 {
        0
    } else {
        let init = ts.drop_last();
        total_live_count(init, c) + noisy_ones(
            ts.last().before@,
            ts.last().after@,
            total_code_count(init, c) as int,
            0,
            0,
            c,
            ts.last().before@.len(),
        )
    }
}

/// Code `c` occurs at some position of some transition.
pub open spec fn code_seen(ts: Seq<Transition>, c: u8) -> bool {
    exists|k: int, i: int|
        0 <= k < ts.len() && 0 <= i < ts[k].before@.len() && #[trigger] neighborhood_at(ts[k].before@, i) == c
}

/// Every neighborhood code occurs at some position of some transition.
pub open spec fn every_code_seen(ts: Seq<Transition>) -> bool {
    forall|c: u8| c < 8 ==> #[trigger] code_seen(ts, c)
}

proof fn lemma_code_count_positive(s: Seq<bool>, c: u8, i: int, m: nat)
    requires
        0 <= i < m,
        neighborhood_at(s, i) == c,
    ensures
        code_count(s, c, m) > 0,
    decreases m,
{
    if i < m - 1 {
        lemma_code_count_positive(s, c, i, (m - 1) as nat);
    }
}

proof fn lemma_total_code_count_positive(ts: Seq<Transition>, c: u8, k: int, i: int)
    requires
        0 <= k < ts.len(),
        0 <= i < ts[k].before@.len(),
        neighborhood_at(ts[k].before@, i) == c,
    ensures
        total_code_count(ts, c) > 0,
    decreases ts.len(),
{
    if k < ts.len() - 1 {
        assert(ts.drop_last()[k] == ts[k]);
        lemma_total_code_count_positive(ts.drop_last(), c, k, i);
    } else {
        lemma_code_count_positive(ts[k].before@, c, i, ts[k].before@.len());
    }
}

proof fn lemma_total_code_count_bound(ts: Seq<Transition>, c: u8)
    ensures
        total_code_count(ts, c) <= sample_count(ts),
    decreases ts.len(),
{
    if ts.len() > 0 {
        lemma_total_code_count_bound(ts.drop_last(), c);
        lemma_code_count_bound(ts.last().before@, c, ts.last().before@.len());
    }
}

/// Tallies every position of every transition, without noise.
pub fn tally_transitions(transitions: &Vec<Transition>) -> (r: NeighborhoodTally)
    requires
        forall|k: int| 0 <= k < transitions.len() ==> (#[trigger] transitions@[k]).after.len() == transitions@[k].before.len(),
        2 * sample_count(transitions@) <= usize::MAX,
    ensures
        r.wf(),
        forall|c: u8|
            c < 8 ==> {
                &&& #[trigger] r.observed@[c as int] == total_code_count(transitions@, c)
                &&& r.ones@[c as int] == total_live_count(transitions@, c)
            },
        forall|rule: u8| #[trigger] follows_rule(transitions@, rule) ==> noise_free(rule, r.observed@, r.ones@),
{
    let ghost ts = transitions@;
    let mut tally = NeighborhoodTally::new();
    assert(ts.take(0) =~= Seq::<Transition>::empty());
    for k in 0..transitions.len()
        invariant
            ts == transitions@,
            forall|k: int| 0 <= k < transitions.len() ==> (#[trigger] transitions@[k]).after.len() == transitions@[k].before.len(),
            2 * sample_count(ts) <= usize::MAX,
            tally.wf(),
            forall|c: u8|
                c < 8 ==> {
                    &&& #[trigger] tally.observed@[c as int] == total_code_count(ts.take(k as int), c)
                    &&& tally.ones@[c as int] == total_live_count(ts.take(k as int), c)
                },
            forall|rule: u8| #[trigger] follows_rule(ts, rule) ==> noise_free(rule, tally.observed@, tally.ones@),
    {
        let t = &transitions[k];
        let ghost prefix = ts.take(k as int);
        proof {
            lemma_observations_step(ts, k as int, 0);
            lemma_sample_count_prefix(ts, k + 1);
            assert(ts.take(k + 1).drop_last() =~= prefix);
            assert(ts.take(k + 1).last() == ts[k as int]);
            assert forall|c: int| 0 <= c < 8 implies #[trigger] tally.observed@[c] + 0 + 2 * t.before.len() <= usize::MAX by {
                lemma_total_code_count_bound(prefix, c as u8);
                assert(tally.observed@[c] == tally.observed@[(c as u8) as int]);
            }
        }
        let ghost prev_observed = tally.observed@;
        let ghost prev_ones = tally.ones@;
        tally.record(&t.before, &t.after, 0, 0);
        proof {
            assert forall|rule: u8| #[trigger] follows_rule(ts, rule) implies noise_free(rule, tally.observed@, tally.ones@) by {
                assert(ts[k as int].after@ == step_seq(rule, ts[k as int].before@));
                assert forall|c: u8| c < 8 implies #[trigger] tally.ones@[c as int] == (if rule_output(rule, c) {
                    tally.observed@[c as int]
                } else {
                    0
                }) by {
                    lemma_noise_free_ones(rule, t.before@, t.after@, prev_observed[c as int] as int, 0, c, t.before.len() as nat);
                    assert(prev_ones[c as int] == (if rule_output(rule, c) { prev_observed[c as int] } else { 0 }));
                }
            }
        }
    }
    assert(ts.take(transitions.len() as int) =~= ts);
    tally
}

/// Infers a rule from transitions by majority vote per neighborhood code.
/// Where every transition is one step of some rule and every code occurs,
/// the result is that rule.
pub fn infer_from_transitions(transitions: &Vec<Transition>) -> (r: u8)
    requires
        forall|k: int| 0 <= k < transitions.len() ==> (#[trigger] transitions@[k]).after.len() == transitions@[k].before.len(),
        2 * sample_count(transitions@) <= usize::MAX,
    ensures
        forall|c: u8|
            c < 8 ==> #[trigger] rule_output(r, c) == majority_live(
                total_code_count(transitions@, c) as int,
                total_live_count(transitions@, c) as int,
            ),
        forall|rule: u8|
            #[trigger] follows_rule(transitions@, rule) && every_code_seen(transitions@) ==> r == rule,
{
    let tally = tally_transitions(transitions);
    let r = tally.infer_rule();
    proof {
        assert forall|rule: u8| #[trigger] follows_rule(transitions@, rule) && every_code_seen(transitions@) implies r == rule by {
            assert forall|c: int| 0 <= c < 8 implies #[trigger] tally.observed@[c] > 0 by {
                let cc = c as u8;
                assert(cc < 8);
                assert(code_seen(transitions@, cc));
                let (k, i) = choose|k: int, i: int|
                    0 <= k < transitions@.len() && 0 <= i < transitions@[k].before@.len()
                        && #[trigger] neighborhood_at(transitions@[k].before@, i) == cc;
                lemma_total_code_count_positive(transitions@, cc, k, i);
                assert(tally.observed@[cc as int] == total_code_count(transitions@, cc));
            }
            lemma_exact_recovery(rule, r, tally.observed@, tally.ones@);
        }
    }
    r
}

} // verus!
