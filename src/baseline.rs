//! A correlational baseline for the learned rule: it predicts a cell's next
//! value from the row's density decile and the cell's own value only, not
//! from the local neighborhood that actually decides it.

use vstd::prelude::*;
use crate::automaton::{copy_cells, count_live, Automaton};
use crate::generalization::{test_row, TEST_TRIALS};
use crate::grid::{evolve, lemma_evolve_len, lemma_live_count_zero, live_count};
use crate::inference::{sample_after, sample_before};
use crate::sampling::{
    dense_seed_of, seeded_cells, sparse_seed_of, training_seed, training_seed_of,
    DENSE_DENSITY, SPARSE_DENSITY, TRAINING_DENSITY,
};

verus! {

/// Slots of the model: a density decile (0..10) and a cell value.
pub const SLOTS: usize = 20;

/// Decile of the density of a row with `population` live cells out of
/// `width`: `10 * population / width` rounded down, 9 at most.
pub open spec fn density_bucket(population: nat, width: nat) -> nat {
    if width == 0 {
        0
    } else if 10 * population / width > 9 {
        9
    } else {
        10 * population / width
    }
}

/// The slot of a cell with value `cell` in a row of decile `bucket`.
pub open spec fn slot_of(bucket: nat, cell: bool) -> nat {
    2 * bucket + (if cell { 1nat } else { 0nat })
}

/// Slot `k` reads cells whose value is odd-numbered: live for odd `k`.
pub open spec fn slot_cell(k: int) -> bool {
    k % 2 == 1
}

/// Positions among `0..m` whose cell in `before` is `v`.
pub open spec fn cells_equal(before: Seq<bool>, v: bool, m: nat) -> nat
    decreases m,
{
    if m == 0 {
        0
    } else {
        cells_equal(before, v, (m - 1) as nat) + (if before[m - 1] == v { 1nat } else { 0nat })
    }
}

/// Positions among `0..m` whose cell in `before` is `v` and in `after` live.
pub open spec fn cells_equal_live(before: Seq<bool>, after: Seq<bool>, v: bool, m: nat) -> nat
    decreases m,
{
    if m == 0 {
        0
    } else {
        cells_equal_live(before, after, v, (m - 1) as nat) + (if before[m - 1] == v && after[m - 1] {
            1nat
        } else {
            0nat
        })
    }
}

/// What one transition adds to slot `k`: the cells of value `slot_cell(k)`
/// where the row's decile is the slot's, nothing elsewhere.
pub open spec fn slot_seen(before: Seq<bool>, k: int) -> nat {
    if k / 2 == density_bucket(live_count(before), before.len()) {
        cells_equal(before, slot_cell(k), before.len())
    } else {
        0
    }
}

/// What one transition adds to the live outcomes of slot `k`.
pub open spec fn slot_live(before: Seq<bool>, after: Seq<bool>, k: int) -> nat {
    if k / 2 == density_bucket(live_count(before), before.len()) {
        cells_equal_live(before, after, slot_cell(k), before.len())
    } else {
        0
    }
}

/// The model's prediction for a slot seen `count` times, `ones` of them
/// live: live where more than half were, dead for an unseen slot.
pub open spec fn predicts_live(count: int, ones: int) -> bool {
    count > 0 && ones > count / 2
}

/// Positions among `0..m` where the model with slot counts `counts` and
/// `ones` mispredicts the next value.
pub open spec fn mistakes(counts: Seq<usize>, ones: Seq<usize>, before: Seq<bool>, after: Seq<bool>, m: nat) -> nat
    decreases m,
{
    if m == 0 {
        0
    } else {
        let k = slot_of(density_bucket(live_count(before), before.len()), before[m - 1]) as int;
        mistakes(counts, ones, before, after, (m - 1) as nat) + (if predicts_live(
            counts[k] as int,
            ones[k] as int,
        ) != after[m - 1] {
            1nat
        } else {
            0nat
        })
    }
}

/// Slot `k` counts over the first `m` training samples.
pub open spec fn baseline_seen(rule: u8, width: nat, generations: nat, k: int, m: nat) -> nat
    decreases m,
{
    if m == 0 {
        0
    } else {
        baseline_seen(rule, width, generations, k, (m - 1) as nat) + slot_seen(
            sample_before(rule, width, generations, (m - 1) as nat),
            k,
        )
    }
}

/// Live outcomes of slot `k` over the first `m` training samples.
pub open spec fn baseline_live(rule: u8, width: nat, generations: nat, k: int, m: nat) -> nat
    decreases m,
{
    if m == 0 {
        0
    } else {
        baseline_live(rule, width, generations, k, (m - 1) as nat) + slot_live(
            sample_before(rule, width, generations, (m - 1) as nat),
            sample_after(rule, width, generations, (m - 1) as nat),
            k,
        )
    }
}

/// Mistakes of the model over steps `0..g` of `rule` from row `s`.
pub open spec fn run_mistakes(counts: Seq<usize>, ones: Seq<usize>, rule: u8, s: Seq<bool>, g: nat) -> nat
    decreases g,
{
    if g == 0 {
        0
    } else {
        run_mistakes(counts, ones, rule, s, (g - 1) as nat) + mistakes(
            counts,
            ones,
            evolve(rule, s, (g - 1) as nat),
            evolve(rule, s, g),
            s.len(),
        )
    }
}

/// Mistakes of the model over the first `trials` test trials of one kind.
pub open spec fn test_mistakes(
    counts: Seq<usize>,
    ones: Seq<usize>,
    rule: u8,
    width: nat,
    generations: nat,
    dense: bool,
    trials: nat,
) -> nat
    decreases trials,
{
    if trials == 0 {
        0
    } else {
        test_mistakes(counts, ones, rule, width, generations, dense, (trials - 1) as nat) + run_mistakes(
            counts,
            ones,
            rule,
            test_row(width, dense, (trials - 1) as nat),
            generations,
        )
    }
}

/// Per slot (density decile and cell value): how often it was seen and how
/// often the next value was live.
pub struct CorrelationalModel {
    pub counts: Vec<usize>,
    pub ones: Vec<usize>,
}

/// Decile of the density of a row with `population` live cells of `width`.
pub fn bucket_of(population: usize, width: usize) -> (r: usize)
    requires
        population <= width,
    ensures
        r == density_bucket(population as nat, width as nat),
        r < 10,
{
    if width == 0 {
        return 0;
    }
    let b: u128 = (population as u128) * 10 / (width as u128);
    if b > 9 {
        9
    } else {
        b as usize
    }
}

proof fn lemma_cells_equal_bound(before: Seq<bool>, after: Seq<bool>, v: bool, m: nat)
    ensures
        cells_equal_live(before, after, v, m) <= cells_equal(before, v, m),
        cells_equal(before, v, m) <= m,
    decreases m,
{
    if m > 0 {
        lemma_cells_equal_bound(before, after, v, (m - 1) as nat);
    }
}

proof fn lemma_mistakes_bound(counts: Seq<usize>, ones: Seq<usize>, before: Seq<bool>, after: Seq<bool>, m: nat)
    ensures
        mistakes(counts, ones, before, after, m) <= m,
    decreases m,
{
    if m > 0 {
        lemma_mistakes_bound(counts, ones, before, after, (m - 1) as nat);
    }
}

impl CorrelationalModel {
    /// Twenty slots, none holding more live outcomes than observations.
    pub open spec fn wf(&self) -> bool {
        &&& self.counts.len() == SLOTS
        &&& self.ones.len() == SLOTS
        &&& forall|k: int| 0 <= k < SLOTS ==> #[trigger] self.ones@[k] <= self.counts@[k]
    }

    /// All counts zero.
    pub fn new() -> (r: CorrelationalModel)
        ensures
            r.wf(),
            forall|k: int| 0 <= k < SLOTS ==> #[trigger] r.counts@[k] == 0 && r.ones@[k] == 0,
    {
        let mut counts: Vec<usize> = Vec::new();
        let mut ones: Vec<usize> = Vec::new();
        for k in 0..SLOTS
            invariant
                counts.len() == k,
                ones.len() == k,
                forall|j: int| 0 <= j < k ==> counts@[j] == 0 && ones@[j] == 0,
        {
            counts.push(0);
            ones.push(0);
        }
        CorrelationalModel { counts, ones }
    }

    /// Records one transition: each cell counts in the slot of the row's
    /// density decile and its own value, and as live there where its next
    /// value is.
    pub fn train(&mut self, before: &Vec<bool>, after: &Vec<bool>)
        requires
            old(self).wf(),
            after.len() == before.len(),
            forall|k: int| 0 <= k < SLOTS ==> #[trigger] old(self).counts@[k] + before.len() <= usize::MAX,
        ensures
            final(self).wf(),
            forall|k: int|
                0 <= k < SLOTS ==> {
                    &&& #[trigger] final(self).counts@[k] == old(self).counts@[k] + slot_seen(before@, k)
                    &&& final(self).ones@[k] == old(self).ones@[k] + slot_live(before@, after@, k)
                },
    {
        let n = before.len();
        let population = count_live(before);
        proof {
            lemma_live_count_zero(before@);
        }
        let bucket = bucket_of(population, n);
        let mut i: usize = 0;
        while i < n
            invariant
                i <= n,
                n == before.len(),
                after.len() == n,
                bucket == density_bucket(live_count(before@), n as nat),
                bucket < 10,
                old(self).wf(),
                self.counts.len() == SLOTS,
                self.ones.len() == SLOTS,
                forall|k: int| 0 <= k < SLOTS ==> #[trigger] old(self).counts@[k] + n <= usize::MAX,
                forall|k: int| 0 <= k < SLOTS ==> #[trigger] old(self).ones@[k] <= old(self).counts@[k],
                forall|k: int|
                    0 <= k < SLOTS ==> {
                        &&& #[trigger] self.counts@[k] == old(self).counts@[k] + (if k / 2 == bucket {
                            cells_equal(before@, slot_cell(k), i as nat)
                        } else {
                            0
                        })
                        &&& self.ones@[k] == old(self).ones@[k] + (if k / 2 == bucket {
                            cells_equal_live(before@, after@, slot_cell(k), i as nat)
                        } else {
                            0
                        })
                    },
            decreases n - i,
        {
            let slot: usize = 2 * bucket + if before[i] { 1 } else { 0 };
            proof {
                assert(slot / 2 == bucket && slot_cell(slot as int) == before@[i as int]);
                lemma_cells_equal_bound(before@, after@, before@[i as int], i as nat);
                lemma_cells_equal_bound(before@, after@, before@[i as int], (i + 1) as nat);
            }
            let ghost pc = self.counts@;
            let ghost po = self.ones@;
            let c = self.counts[slot] + 1;
            self.counts.set(slot, c);
            if after[i] {
                let o = self.ones[slot] + 1;
                self.ones.set(slot, o);
            }
            proof {
                assert forall|k: int| 0 <= k < SLOTS implies {
                    &&& #[trigger] self.counts@[k] == old(self).counts@[k] + (if k / 2 == bucket {
                        cells_equal(before@, slot_cell(k), (i + 1) as nat)
                    } else {
                        0
                    })
                    &&& self.ones@[k] == old(self).ones@[k] + (if k / 2 == bucket {
                        cells_equal_live(before@, after@, slot_cell(k), (i + 1) as nat)
                    } else {
                        0
                    })
                } by {
                    assert(pc[k] == old(self).counts@[k] + (if k / 2 == bucket {
                        cells_equal(before@, slot_cell(k), i as nat)
                    } else {
                        0
                    }));
                    assert(po[k] == old(self).ones@[k] + (if k / 2 == bucket {
                        cells_equal_live(before@, after@, slot_cell(k), i as nat)
                    } else {
                        0
                    }));
                    if k / 2 == bucket && k != slot {
                        assert(k % 2 != slot as int % 2);
                        assert(slot_cell(k) != before@[i as int]);
                    }
                }
            }
            i = i + 1;
        }
        proof {
            assert forall|k: int| 0 <= k < SLOTS implies #[trigger] self.ones@[k] <= self.counts@[k] by {
                lemma_cells_equal_bound(before@, after@, slot_cell(k), n as nat);
            }
        }
    }

    /// The prediction for a cell with value `cell` in a row of decile
    /// `bucket`.
    pub fn predict(&self, bucket: usize, cell: bool) -> (r: bool)
        requires
            self.wf(),
            bucket < 10,
        ensures
            r == predicts_live(
                self.counts@[slot_of(bucket as nat, cell) as int] as int,
                self.ones@[slot_of(bucket as nat, cell) as int] as int,
            ),
    {
        let slot: usize = 2 * bucket + if cell { 1 } else { 0 };
        let count = self.counts[slot];
        let live = self.ones[slot];
        count > 0 && live > count / 2
    }

    /// Cells of `after` whose value the model mispredicts from `before`.
    pub fn count_mistakes(&self, before: &Vec<bool>, after: &Vec<bool>) -> (r: usize)
        requires
            self.wf(),
            after.len() == before.len(),
        ensures
            r == mistakes(self.counts@, self.ones@, before@, after@, before.len() as nat),
    {
        let n = before.len();
        let population = count_live(before);
        proof {
            lemma_live_count_zero(before@);
        }
        let bucket = bucket_of(population, n);
        let mut errors: usize = 0;
        for i in 0..n
            invariant
                n == before.len(),
                after.len() == n,
                self.wf(),
                bucket == density_bucket(live_count(before@), n as nat),
                bucket < 10,
                errors == mistakes(self.counts@, self.ones@, before@, after@, i as nat),
        {
            proof {
                lemma_mistakes_bound(self.counts@, self.ones@, before@, after@, i as nat);
            }
            if self.predict(bucket, before[i]) != after[i] {
                errors = errors + 1;
            }
        }
        errors
    }
}

proof fn lemma_baseline_seen_bound(rule: u8, width: nat, generations: nat, k: int, m: nat)
    ensures
        baseline_seen(rule, width, generations, k, m) <= m * width,
    decreases m,
{
    if m > 0 {
        let before = sample_before(rule, width, generations, (m - 1) as nat);
        lemma_baseline_seen_bound(rule, width, generations, k, (m - 1) as nat);
        lemma_cells_equal_bound(before, before, slot_cell(k), before.len());
        lemma_evolve_len(
            rule,
            crate::sampling::seeded_row(training_seed((m - 1) as nat / generations) as usize, width, TRAINING_DENSITY),
            ((m - 1) as nat % generations) as nat,
        );
        assert(((m - 1) as nat) * width + width == m * width) by (nonlinear_arith)
            requires m > 0;
    }
}

proof fn lemma_run_mistakes_bound(counts: Seq<usize>, ones: Seq<usize>, rule: u8, s: Seq<bool>, g: nat)
    ensures
        run_mistakes(counts, ones, rule, s, g) <= g * s.len(),
    decreases g,
{
    if g > 0 {
        lemma_run_mistakes_bound(counts, ones, rule, s, (g - 1) as nat);
        lemma_evolve_len(rule, s, (g - 1) as nat);
        lemma_mistakes_bound(counts, ones, evolve(rule, s, (g - 1) as nat), evolve(rule, s, g), s.len());
        assert(((g - 1) as nat) * s.len() + s.len() == g * s.len()) by (nonlinear_arith)
            requires g > 0;
    }
}

proof fn lemma_test_mistakes_bound(
    counts: Seq<usize>,
    ones: Seq<usize>,
    rule: u8,
    width: nat,
    generations: nat,
    dense: bool,
    trials: nat,
)
    ensures
        test_mistakes(counts, ones, rule, width, generations, dense, trials) <= trials * (generations * width),
    decreases trials,
{
    if trials > 0 {
        lemma_test_mistakes_bound(counts, ones, rule, width, generations, dense, (trials - 1) as nat);
        lemma_run_mistakes_bound(counts, ones, rule, test_row(width, dense, (trials - 1) as nat), generations);
        assert(((trials - 1) as nat) * (generations * width) + generations * width == trials * (generations
            * width)) by (nonlinear_arith)
            requires trials > 0;
    }
}

/// Trains the baseline on the same `trials` training trials of `rule` that
/// the rule inference sees.
pub fn train_baseline(rule: u8, width: usize, generations: usize, trials: usize) -> (r: CorrelationalModel)
    requires
        training_seed(trials as nat) <= usize::MAX,
        (trials * generations + 1) * width <= usize::MAX,
    ensures
        r.wf(),
        forall|k: int|
            0 <= k < SLOTS ==> {
                &&& #[trigger] r.counts@[k] == baseline_seen(
                    rule,
                    width as nat,
                    generations as nat,
                    k,
                    (trials * generations) as nat,
                )
                &&& r.ones@[k] == baseline_live(
                    rule,
                    width as nat,
                    generations as nat,
                    k,
                    (trials * generations) as nat,
                )
            },
{
    let mut model = CorrelationalModel::new();
    let ghost w = width as nat;
    let ghost gens = generations as nat;
    for t in 0..trials
        invariant
            w == width as nat,
            gens == generations as nat,
            training_seed(trials as nat) <= usize::MAX,
            (trials * generations + 1) * width <= usize::MAX,
            model.wf(),
            forall|k: int|
                0 <= k < SLOTS ==> {
                    &&& #[trigger] model.counts@[k] == baseline_seen(rule, w, gens, k, (t * generations) as nat)
                    &&& model.ones@[k] == baseline_live(rule, w, gens, k, (t * generations) as nat)
                },
    {
        let seed = training_seed_of(t);
        let mut ca = Automaton::from_cells(seeded_cells(seed, width, TRAINING_DENSITY), rule);
        for g in 0..generations
            invariant
                w == width as nat,
                gens == generations as nat,
                t < trials,
                seed == training_seed(t as nat),
                (trials * generations + 1) * width <= usize::MAX,
                ca.rule == rule,
                ca.cells@ == crate::sampling::training_row(rule, w, t as nat, g as nat),
                model.wf(),
                forall|k: int|
                    0 <= k < SLOTS ==> {
                        &&& #[trigger] model.counts@[k] == baseline_seen(rule, w, gens, k, (t * generations + g) as nat)
                        &&& model.ones@[k] == baseline_live(rule, w, gens, k, (t * generations + g) as nat)
                    },
        {
            let ghost s = (t * generations + g) as nat;
            proof {
                vstd::arithmetic::div_mod::lemma_fundamental_div_mod_converse(
                    s as int,
                    generations as int,
                    t as int,
                    g as int,
                );
                assert(s < trials * generations) by (nonlinear_arith)
                    requires s == t * generations + g, t < trials, g < generations;
                assert(s * width + width <= (trials * generations + 1) * width) by (nonlinear_arith)
                    requires s < trials * generations;
                lemma_evolve_len(rule, crate::sampling::seeded_row(training_seed(t as nat) as usize, w, TRAINING_DENSITY), g as nat);
                assert forall|k: int| 0 <= k < SLOTS implies #[trigger] model.counts@[k] + width <= usize::MAX by {
                    lemma_baseline_seen_bound(rule, w, gens, k, s);
                }
            }
            let before = copy_cells(&ca.cells);
            ca.step();
            proof {
                assert(before@ == sample_before(rule, w, gens, s));
                assert(ca.cells@ == sample_after(rule, w, gens, s));
            }
            model.train(&before, &ca.cells);
            proof {
                assert((s + 1) as nat == (t * generations + (g + 1)) as nat);
            }
        }
        proof {
            assert(t * generations + generations == (t + 1) * generations) by (nonlinear_arith);
        }
    }
    model
}

impl CorrelationalModel {
    /// Mistakes of the model over `TEST_TRIALS` test trials of `rule` of one
    /// kind (sparse or dense rows), `generations` steps each.
    pub fn test_errors(&self, rule: u8, width: usize, generations: usize, dense: bool) -> (r: usize)
        requires
            self.wf(),
            TEST_TRIALS * (generations * width) <= usize::MAX,
        ensures
            r == test_mistakes(
                self.counts@,
                self.ones@,
                rule,
                width as nat,
                generations as nat,
                dense,
                TEST_TRIALS as nat,
            ),
    {
        let mut errors: usize = 0;
        for t in 0..TEST_TRIALS
            invariant
                self.wf(),
                TEST_TRIALS * (generations * width) <= usize::MAX,
                errors == test_mistakes(self.counts@, self.ones@, rule, width as nat, generations as nat, dense, t as nat),
        {
            let cells = if dense {
                seeded_cells(dense_seed_of(t), width, DENSE_DENSITY)
            } else {
                seeded_cells(sparse_seed_of(t), width, SPARSE_DENSITY)
            };
            let ghost start = cells@;
            assert(start == test_row(width as nat, dense, t as nat));
            let mut ca = Automaton::from_cells(cells, rule);
            proof {
                lemma_test_mistakes_bound(self.counts@, self.ones@, rule, width as nat, generations as nat, dense, (t + 1) as nat);
                assert((t + 1) * (generations * width) <= TEST_TRIALS * (generations * width)) by (nonlinear_arith)
                    requires t < TEST_TRIALS;
            }
            let ghost base = errors;
            for g in 0..generations
                invariant
                    self.wf(),
                    start.len() == width,
                    ca.rule == rule,
                    ca.cells@ == evolve(rule, start, g as nat),
                    errors == base + run_mistakes(self.counts@, self.ones@, rule, start, g as nat),
                    base + run_mistakes(self.counts@, self.ones@, rule, start, generations as nat) <= usize::MAX,
            {
                proof {
                    lemma_run_mistakes_monotone(self.counts@, self.ones@, rule, start, (g + 1) as nat, generations as nat);
                    lemma_evolve_len(rule, start, g as nat);
                }
                let before = copy_cells(&ca.cells);
                ca.step();
                proof {
                    lemma_evolve_len(rule, start, (g + 1) as nat);
                }
                let e = self.count_mistakes(&before, &ca.cells);
                errors = errors + e;
            }
        }
        errors
    }
}

proof fn lemma_run_mistakes_monotone(counts: Seq<usize>, ones: Seq<usize>, rule: u8, s: Seq<bool>, a: nat, b: nat)
    requires
        a <= b,
    ensures
        run_mistakes(counts, ones, rule, s, a) <= run_mistakes(counts, ones, rule, s, b),
    decreases b,
{
    if a < b {
        lemma_run_mistakes_monotone(counts, ones, rule, s, a, (b - 1) as nat);
    }
}

} // verus!
