//! Locality inference: the smallest radius `r` such that the window of
//! `2r + 1` cells around a position decides its next value in every
//! observed transition.

use vstd::prelude::*;
use crate::cycle::find_row;
use crate::grid::{cell_at, neighborhood_at, step_seq};
use crate::rule::{code_of, rule_output};
use crate::sampling::Transition;

verus! {

/// The `2r + 1` cells centred on cell `i`, wrapping around the ring.
pub open spec fn radius_window(s: Seq<bool>, i: int, r: nat) -> Seq<bool> {
    Seq::new(2 * r + 1, |j: int| cell_at(s, i - r + j))
}

/// What one transition shows at radius `r`: per position, its window and
/// its next value.
pub open spec fn row_observations(t: Transition, r: nat) -> Seq<(Seq<bool>, bool)> {
    Seq::new(t.before.len() as nat, |i: int| (radius_window(t.before@, i, r), t.after@[i]))
}

/// What a sequence of transitions shows at radius `r`, in order.
pub open spec fn observations(ts: Seq<Transition>, r: nat) -> Seq<(Seq<bool>, bool)>
    decreases ts.len(),
{
    if ts.len() == 0 {
        Seq::empty()
    } else {
        observations(ts.drop_last(), r) + row_observations(ts.last(), r)
    }
}

/// Number of positions over all transitions.
pub open spec fn sample_count(ts: Seq<Transition>) -> nat
    decreases ts.len(),
{
    if ts.len() == 0 {
        0
    } else {
        sample_count(ts.drop_last()) + ts.last().before@.len()
    }
}

/// How often `(w, v)` occurs among the observations.
pub open spec fn obs_count(obs: Seq<(Seq<bool>, bool)>, w: Seq<bool>, v: bool) -> nat
    decreases obs.len(),
{
    if obs.len() == 0 {
        0
    } else {
        obs_count(obs.drop_last(), w, v) + (if obs.last() == (w, v) {
            1nat
        } else {
            0nat
        })
    }
}

/// The observations are a function of the window: equal windows never
/// show different next values.
pub open spec fn consistent(obs: Seq<(Seq<bool>, bool)>) -> bool {
    forall|j: int, k: int|
        0 <= j < obs.len() && 0 <= k < obs.len() && (#[trigger] obs[j]).0 == (#[trigger] obs[k]).0 ==> obs[j].1
            == obs[k].1
}

/// Distinct windows seen, each with how often the next value was dead and
/// how often live.
pub struct WindowTable {
    pub windows: Vec<Vec<bool>>,
    pub zeros: Vec<usize>,
    pub ones: Vec<usize>,
}

/// Entries among `0..m` of a table whose window was seen with both values.
pub open spec fn conflict_count(zeros: Seq<usize>, ones: Seq<usize>, m: nat) -> nat
    decreases m,
{
    if m == 0 {
        0
    } else {
        conflict_count(zeros, ones, (m - 1) as nat) + (if zeros[m - 1] > 0 && ones[m - 1] > 0 {
            1nat
        } else {
            0nat
        })
    }
}

impl WindowTable {
    /// The table lists each window of `obs` once, and no other, with its
    /// exact counts.
    pub open spec fn tabulates(&self, obs: Seq<(Seq<bool>, bool)>) -> bool {
        &&& self.zeros.len() == self.windows.len()
        &&& self.ones.len() == self.windows.len()
        &&& forall|a: int, b: int|
            0 <= a < b < self.windows.len() ==> (#[trigger] self.windows@[a])@ != (#[trigger] self.windows@[b])@
        &&& forall|e: int|
            0 <= e < self.windows.len() ==> {
                &&& #[trigger] self.zeros@[e] == obs_count(obs, self.windows@[e]@, false)
                &&& self.ones@[e] == obs_count(obs, self.windows@[e]@, true)
                &&& self.zeros@[e] + self.ones@[e] > 0
            }
        &&& forall|k: int|
            0 <= k < obs.len() ==> exists|e: int|
                0 <= e < self.windows.len() && (#[trigger] self.windows@[e])@ == (#[trigger] obs[k]).0
    }
}

proof fn lemma_obs_count_bound(obs: Seq<(Seq<bool>, bool)>, w: Seq<bool>, v: bool)
    ensures
        obs_count(obs, w, v) <= obs.len(),
    decreases obs.len(),
{
    if obs.len() > 0 {
        lemma_obs_count_bound(obs.drop_last(), w, v);
    }
}

proof fn lemma_obs_count_absent(obs: Seq<(Seq<bool>, bool)>, w: Seq<bool>, v: bool)
    requires
        forall|k: int| 0 <= k < obs.len() ==> (#[trigger] obs[k]).0 != w,
    ensures
        obs_count(obs, w, v) == 0,
    decreases obs.len(),
{
    if obs.len() > 0 {
        assert(obs.last() == obs[obs.len() - 1]);
        lemma_obs_count_absent(obs.drop_last(), w, v);
    }
}

proof fn lemma_obs_count_positive(obs: Seq<(Seq<bool>, bool)>, w: Seq<bool>, v: bool)
    ensures
        obs_count(obs, w, v) > 0 <==> exists|k: int| 0 <= k < obs.len() && #[trigger] obs[k] == (w, v),
    decreases obs.len(),
{
    if obs.len() > 0 {
        let init = obs.drop_last();
        lemma_obs_count_positive(init, w, v);
        if obs_count(obs, w, v) > 0 {
            if obs.last() != (w, v) {
                let k = choose|k: int| 0 <= k < init.len() && #[trigger] init[k] == (w, v);
                assert(obs[k] == init[k]);
            } else {
                assert(obs[obs.len() - 1] == (w, v));
            }
        }
        if exists|k: int| 0 <= k < obs.len() && #[trigger] obs[k] == (w, v) {
            let k = choose|k: int| 0 <= k < obs.len() && #[trigger] obs[k] == (w, v);
            if k < obs.len() - 1 {
                assert(init[k] == obs[k]);
            }
        }
    }
}

/// A table of `obs` has an entry seen with both values exactly when the
/// observations are not a function of the window.
pub proof fn lemma_table_consistency(table: WindowTable, obs: Seq<(Seq<bool>, bool)>)
    requires
        table.tabulates(obs),
    ensures
        consistent(obs) <==> forall|e: int|
            0 <= e < table.windows.len() ==> !(#[trigger] table.zeros@[e] > 0 && table.ones@[e] > 0),
{
    if !consistent(obs) {
        let (j, k) = choose|j: int, k: int|
            0 <= j < obs.len() && 0 <= k < obs.len() && (#[trigger] obs[j]).0 == (#[trigger] obs[k]).0 && obs[j].1
                != obs[k].1;
        let w = obs[j].0;
        let e = choose|e: int| 0 <= e < table.windows.len() && (#[trigger] table.windows@[e])@ == obs[j].0;
        lemma_obs_count_positive(obs, w, obs[j].1);
        lemma_obs_count_positive(obs, w, obs[k].1);
        assert(obs[k] == (w, obs[k].1));
        assert(obs[j] == (w, obs[j].1));
        assert(obs_count(obs, w, obs[j].1) > 0);
        assert(obs_count(obs, w, obs[k].1) > 0);
        assert(table.zeros@[e] == obs_count(obs, w, false));
        assert(table.ones@[e] == obs_count(obs, w, true));
        if obs[j].1 {
            assert(!obs[k].1);
        } else {
            assert(obs[k].1);
        }
        assert(table.zeros@[e] > 0 && table.ones@[e] > 0);
    }
    if exists|e: int| 0 <= e < table.windows.len() && (#[trigger] table.zeros@[e] > 0 && table.ones@[e] > 0) {
        let e = choose|e: int| 0 <= e < table.windows.len() && (#[trigger] table.zeros@[e] > 0 && table.ones@[e] > 0);
        let w = table.windows@[e]@;
        lemma_obs_count_positive(obs, w, false);
        lemma_obs_count_positive(obs, w, true);
        let j = choose|k: int| 0 <= k < obs.len() && #[trigger] obs[k] == (w, false);
        let k = choose|k: int| 0 <= k < obs.len() && #[trigger] obs[k] == (w, true);
        assert(obs[j].0 == obs[k].0 && obs[j].1 != obs[k].1);
    }
}

/// Index of the left end of the window of radius `r` around cell `i`.
fn window_start(i: usize, n: usize, r: usize) -> (s: usize)
    requires
        i < n,
    ensures
        s < n,
        s as int == (i as int - r as int) % (n as int),
{
    let rm = r % n;
    let s = if i >= rm { i - rm } else { i + (n - rm) };
    proof {
        let q = r as int / n as int;
        vstd::arithmetic::div_mod::lemma_fundamental_div_mod(r as int, n as int);
        vstd::arithmetic::div_mod::lemma_mod_multiples_vanish(-q, i as int - rm as int, n as int);
        assert(n as int * (-q) + (i as int - rm as int) == i as int - r as int) by (nonlinear_arith)
            requires r as int == n as int * q + rm as int;
        if i >= rm {
            vstd::arithmetic::div_mod::lemma_small_mod((i - rm) as nat, n as nat);
        } else {
            vstd::arithmetic::div_mod::lemma_mod_multiples_vanish(1, i as int - rm as int, n as int);
            vstd::arithmetic::div_mod::lemma_small_mod((i + (n - rm)) as nat, n as nat);
        }
    }
    s
}

/// The window of radius `r` around cell `i` of `cells`.
pub fn window_at(cells: &Vec<bool>, i: usize, r: usize) -> (w: Vec<bool>)
    requires
        i < cells.len(),
        2 * r + 1 <= usize::MAX,
    ensures
        w@ == radius_window(cells@, i as int, r as nat),
{
    let n = cells.len();
    let mut idx = window_start(i, n, r);
    let mut w: Vec<bool> = Vec::new();
    let size = 2 * r + 1;
    for j in 0..size
        invariant
            n == cells.len(),
            size == 2 * r + 1,
            idx < n,
            idx as int == (i as int - r as int + j as int) % (n as int),
            w@ == radius_window(cells@, i as int, r as nat).take(j as int),
    {
        w.push(cells[idx]);
        assert(w@ =~= radius_window(cells@, i as int, r as nat).take(j + 1));
        proof {
            let x = i as int - r as int + j as int;
            vstd::arithmetic::div_mod::lemma_add_mod_noop(x, 1, n as int);
            if n == 1 {
                vstd::arithmetic::div_mod::lemma_mod_self_0(1);
                assert((x + 1) % 1 == 0);
            } else {
                vstd::arithmetic::div_mod::lemma_small_mod(1, n as nat);
            }
            if idx + 1 < n {
                vstd::arithmetic::div_mod::lemma_small_mod((idx + 1) as nat, n as nat);
            } else {
                vstd::arithmetic::div_mod::lemma_mod_self_0(n as int);
            }
        }
        idx = if idx + 1 == n { 0 } else { idx + 1 };
    }
    assert(w@ =~= radius_window(cells@, i as int, r as nat));
    w
}

proof fn lemma_observations_len(ts: Seq<Transition>, r: nat)
    ensures
        observations(ts, r).len() == sample_count(ts),
    decreases ts.len(),
{
    if ts.len() > 0 {
        lemma_observations_len(ts.drop_last(), r);
    }
}

pub(crate) proof fn lemma_sample_count_prefix(ts: Seq<Transition>, k: int)
    requires
        0 <= k <= ts.len(),
    ensures
        sample_count(ts.take(k)) <= sample_count(ts),
    decreases ts.len(),
{
    if k < ts.len() {
        assert(ts.drop_last().take(k) =~= ts.take(k));
        lemma_sample_count_prefix(ts.drop_last(), k);
    } else {
        assert(ts.take(k) =~= ts);
    }
}

pub(crate) proof fn lemma_observations_step(ts: Seq<Transition>, k: int, r: nat)
    requires
        0 <= k < ts.len(),
    ensures
        observations(ts.take(k + 1), r) == observations(ts.take(k), r) + row_observations(ts[k], r),
        sample_count(ts.take(k + 1)) == sample_count(ts.take(k)) + ts[k].before@.len(),
{
    assert(ts.take(k + 1).drop_last() =~= ts.take(k));
}

/// Adds one observation to a table of `obs`.
fn add_observation(
    table: &mut WindowTable,
    window: Vec<bool>,
    next: bool,
    Ghost(obs): Ghost<Seq<(Seq<bool>, bool)>>,
)
    requires
        old(table).tabulates(obs),
        obs.len() < usize::MAX,
    ensures
        final(table).tabulates(obs.push((window@, next))),
{
    let ghost o = (window@, next);
    let ghost nobs = obs.push(o);
    assert(nobs.drop_last() =~= obs);
    let found = find_row(&table.windows, &window);
    match found {
        Some(e) => {
            proof {
                lemma_obs_count_bound(obs, window@, true);
                lemma_obs_count_bound(obs, window@, false);
            }
            let ghost old_zeros = table.zeros@;
            let ghost old_ones = table.ones@;
            assert(table.windows@[e as int]@ == window@);
            assert(table.zeros@[e as int] == obs_count(obs, window@, false));
            assert(table.ones@[e as int] == obs_count(obs, window@, true));
            if next {
                let c = table.ones[e] + 1;
                table.ones.set(e, c);
            } else {
                let c = table.zeros[e] + 1;
                table.zeros.set(e, c);
            }
            proof {
                assert forall|k: int| 0 <= k < nobs.len() implies exists|f: int|
                    0 <= f < table.windows.len() && (#[trigger] table.windows@[f])@ == (#[trigger] nobs[k]).0 by {
                    if k < obs.len() {
                        assert(nobs[k] == obs[k]);
                        let f = choose|f: int| 0 <= f < table.windows.len() && (#[trigger] table.windows@[f])@ == obs[k].0;
                        assert(table.windows@[f]@ == nobs[k].0);
                    } else {
                        assert(table.windows@[e as int]@ == nobs[k].0);
                    }
                }
                assert forall|f: int| 0 <= f < table.windows.len() implies {
                    &&& #[trigger] table.zeros@[f] == obs_count(nobs, table.windows@[f]@, false)
                    &&& table.ones@[f] == obs_count(nobs, table.windows@[f]@, true)
                    &&& table.zeros@[f] + table.ones@[f] > 0
                } by {
                    assert(old_zeros[f] == obs_count(obs, table.windows@[f]@, false));
                    assert(old_ones[f] == obs_count(obs, table.windows@[f]@, true));
                    assert(old_zeros[f] + old_ones[f] > 0);
                    if f != e {
                        if f < e {
                            assert(table.windows@[f]@ != table.windows@[e as int]@);
                        } else {
                            assert(table.windows@[e as int]@ != table.windows@[f]@);
                        }
                    }
                }
            }
        },
        None => {
            proof {
                assert forall|k: int| 0 <= k < obs.len() implies (#[trigger] obs[k]).0 != window@ by {
                    let f = choose|f: int| 0 <= f < table.windows.len() && (#[trigger] table.windows@[f])@ == obs[k].0;
                    assert(table.windows@[f]@ != window@);
                }
                lemma_obs_count_absent(obs, window@, false);
                lemma_obs_count_absent(obs, window@, false);
                lemma_obs_count_absent(obs, window@, true);
            }
            let ghost w = window@;
            let ghost old_windows = table.windows@;
            table.windows.push(window);
            table.zeros.push(if next { 0 } else { 1 });
            table.ones.push(if next { 1 } else { 0 });
            proof {
                let last = table.windows.len() - 1;
                assert(table.windows@[last]@ == w);
                assert forall|a: int, b: int| 0 <= a < b < table.windows.len() implies (#[trigger] table.windows@[a])@ != (#[trigger] table.windows@[b])@ by {
                    if b == last {
                        assert(table.windows@[a] == old_windows[a]);
                    } else {
                        assert(table.windows@[a] == old_windows[a]);
                        assert(table.windows@[b] == old_windows[b]);
                    }
                }
                assert forall|k: int| 0 <= k < nobs.len() implies exists|f: int|
                    0 <= f < table.windows.len() && (#[trigger] table.windows@[f])@ == (#[trigger] nobs[k]).0 by {
                    if k < obs.len() {
                        assert(nobs[k] == obs[k]);
                        let f = choose|f: int| 0 <= f < old_windows.len() && (#[trigger] old_windows[f])@ == obs[k].0;
                        assert(table.windows@[f] == old_windows[f]);
                        assert(table.windows@[f]@ == nobs[k].0);
                    } else {
                        assert(table.windows@[last]@ == nobs[k].0);
                    }
                }
            }
        },
    }
}

/// The table of windows of radius `radius` over all positions of all
/// transitions, each window listed once with how often the next value was
/// dead and how often live.
pub fn window_table(transitions: &Vec<Transition>, radius: usize) -> (r: WindowTable)
    requires
        forall|k: int| 0 <= k < transitions.len() ==> (#[trigger] transitions@[k]).after.len() == transitions@[k].before.len(),
        sample_count(transitions@) < usize::MAX,
        2 * radius + 1 <= usize::MAX,
    ensures
        r.tabulates(observations(transitions@, radius as nat)),
{
    let ghost ts = transitions@;
    let ghost rad = radius as nat;
    let mut table = WindowTable { windows: Vec::new(), zeros: Vec::new(), ones: Vec::new() };
    assert(ts.take(0) =~= Seq::<Transition>::empty());
    for k in 0..transitions.len()
        invariant
            ts == transitions@,
            rad == radius as nat,
            forall|k: int| 0 <= k < transitions.len() ==> (#[trigger] transitions@[k]).after.len() == transitions@[k].before.len(),
            sample_count(ts) < usize::MAX,
            2 * radius + 1 <= usize::MAX,
            table.tabulates(observations(ts.take(k as int), rad)),
    {
        let t = &transitions[k];
        let ghost prefix = observations(ts.take(k as int), rad);
        proof {
            lemma_observations_step(ts, k as int, rad);
            lemma_sample_count_prefix(ts, k + 1);
            lemma_observations_len(ts.take(k as int), rad);
        }
        let mut i: usize = 0;
        while i < t.before.len()
            invariant
                i <= t.before.len(),
                rad == radius as nat,
                k < transitions.len(),
                t == transitions@[k as int],
                t.after.len() == t.before.len(),
                2 * radius + 1 <= usize::MAX,
                prefix.len() + t.before.len() < usize::MAX,
                table.tabulates(prefix + row_observations(*t, rad).take(i as int)),
            decreases t.before.len() - i,
        {
            let w = window_at(&t.before, i, radius);
            let ghost current = prefix + row_observations(*t, rad).take(i as int);
            add_observation(&mut table, w, t.after[i], Ghost(current));
            assert(current.push((radius_window(t.before@, i as int, rad), t.after@[i as int])) =~= prefix
                + row_observations(*t, rad).take(i + 1));
            i = i + 1;
        }
        assert(row_observations(*t, rad).take(t.before.len() as int) =~= row_observations(*t, rad));
    }
    assert(ts.take(transitions.len() as int) =~= ts);
    table
}

impl WindowTable {
    /// Number of windows seen with both next values.
    pub fn conflicting_windows(&self) -> (r: usize)
        requires
            self.zeros.len() == self.windows.len(),
            self.ones.len() == self.windows.len(),
        ensures
            r == conflict_count(self.zeros@, self.ones@, self.windows.len() as nat),
            r == 0 <==> forall|e: int| 0 <= e < self.windows.len() ==> !(#[trigger] self.zeros@[e] > 0 && self.ones@[e] > 0),
    {
        let mut count: usize = 0;
        for e in 0..self.windows.len()
            invariant
                self.zeros.len() == self.windows.len(),
                self.ones.len() == self.windows.len(),
                count == conflict_count(self.zeros@, self.ones@, e as nat),
                count <= e,
                count == 0 <==> forall|f: int| 0 <= f < e ==> !(#[trigger] self.zeros@[f] > 0 && self.ones@[f] > 0),
        {
            if self.zeros[e] > 0 && self.ones[e] > 0 {
                count = count + 1;
            }
        }
        count
    }
}

/// Whether the windows of radius `radius` decide the next value in every
/// observed transition.
pub fn radius_consistent(transitions: &Vec<Transition>, radius: usize) -> (r: bool)
    requires
        forall|k: int| 0 <= k < transitions.len() ==> (#[trigger] transitions@[k]).after.len() == transitions@[k].before.len(),
        sample_count(transitions@) < usize::MAX,
        2 * radius + 1 <= usize::MAX,
    ensures
        r == consistent(observations(transitions@, radius as nat)),
{
    let table = window_table(transitions, radius);
    proof {
        lemma_table_consistency(table, observations(transitions@, radius as nat));
    }
    table.conflicting_windows() == 0
}

/// `r` is the smallest radius up to `max_radius` at which the observations
/// are consistent, or `max_radius + 1` where none is.
pub open spec fn is_minimal_radius(ts: Seq<Transition>, max_radius: nat, r: nat) -> bool {
    &&& r <= max_radius + 1
    &&& forall|q: nat| q < r ==> !#[trigger] consistent(observations(ts, q))
    &&& r <= max_radius ==> consistent(observations(ts, r))
}

/// Scans radii from 0 to `max_radius` and returns the first at which the
/// observations are consistent; `max_radius + 1` where none is.
pub fn minimal_radius(transitions: &Vec<Transition>, max_radius: usize) -> (r: usize)
    requires
        forall|k: int| 0 <= k < transitions.len() ==> (#[trigger] transitions@[k]).after.len() == transitions@[k].before.len(),
        sample_count(transitions@) < usize::MAX,
        2 * max_radius + 3 <= usize::MAX,
    ensures
        is_minimal_radius(transitions@, max_radius as nat, r as nat),
{
    let mut r: usize = 0;
    while r <= max_radius
        invariant
            r <= max_radius + 1,
            forall|k: int| 0 <= k < transitions.len() ==> (#[trigger] transitions@[k]).after.len() == transitions@[k].before.len(),
            sample_count(transitions@) < usize::MAX,
            2 * max_radius + 3 <= usize::MAX,
            forall|q: nat| q < r ==> !#[trigger] consistent(observations(transitions@, q)),
        decreases max_radius + 1 - r,
    {
        if radius_consistent(transitions, r) {
            return r;
        }
        r = r + 1;
    }
    r
}

/// Every transition of `ts` is one step of `rule`.
pub open spec fn follows_rule(ts: Seq<Transition>, rule: u8) -> bool {
    forall|k: int| 0 <= k < ts.len() ==> (#[trigger] ts[k]).after@ == step_seq(rule, ts[k].before@)
}

proof fn lemma_observations_follow_rule(ts: Seq<Transition>, rule: u8)
    requires
        follows_rule(ts, rule),
    ensures
        forall|j: int|
            0 <= j < observations(ts, 1).len() ==> (#[trigger] observations(ts, 1)[j]).1 == rule_output(
                rule,
                code_of(observations(ts, 1)[j].0[0], observations(ts, 1)[j].0[1], observations(ts, 1)[j].0[2]),
            ),
    decreases ts.len(),
{
    if ts.len() > 0 {
        let init = ts.drop_last();
        assert(follows_rule(init, rule)) by {
            assert forall|k: int| 0 <= k < init.len() implies (#[trigger] init[k]).after@ == step_seq(rule, init[k].before@) by {
                assert(init[k] == ts[k]);
            }
        }
        lemma_observations_follow_rule(init, rule);
        let last = ts.last();
        assert(ts[ts.len() - 1] == last);
        let prev = observations(init, 1);
        let row = row_observations(last, 1);
        assert forall|j: int| 0 <= j < observations(ts, 1).len() implies (#[trigger] observations(ts, 1)[j]).1
            == rule_output(
            rule,
            code_of(observations(ts, 1)[j].0[0], observations(ts, 1)[j].0[1], observations(ts, 1)[j].0[2]),
        ) by {
            if j < prev.len() {
                assert(observations(ts, 1)[j] == prev[j]);
            } else {
                let i = j - prev.len();
                let s = last.before@;
                assert(observations(ts, 1)[j] == row[i]);
                vstd::arithmetic::div_mod::lemma_small_mod(i as nat, s.len() as nat);
                assert(row[i].0[1] == s[i]);
            }
        }
    }
}

proof fn lemma_observation_present(ts: Seq<Transition>, r: nat, k: int, i: int)
    requires
        0 <= k < ts.len(),
        0 <= i < ts[k].before@.len(),
    ensures
        exists|j: int|
            0 <= j < observations(ts, r).len() && #[trigger] observations(ts, r)[j] == (radius_window(
                ts[k].before@,
                i,
                r,
            ), ts[k].after@[i]),
    decreases ts.len(),
{
    let init = ts.drop_last();
    let prev = observations(init, r);
    if k < ts.len() - 1 {
        assert(init[k] == ts[k]);
        lemma_observation_present(init, r, k, i);
        let j = choose|j: int|
            0 <= j < prev.len() && #[trigger] prev[j] == (radius_window(init[k].before@, i, r), init[k].after@[i]);
        assert(observations(ts, r)[j] == prev[j]);
    } else {
        let j = prev.len() + i;
        assert(observations(ts, r)[j] == row_observations(ts.last(), r)[i]);
    }
}

/// Observations drawn from an elementary rule are always consistent at
/// radius 1: the window of three cells is the neighborhood that decides.
pub proof fn lemma_radius_one_consistent(ts: Seq<Transition>, rule: u8)
    requires
        follows_rule(ts, rule),
    ensures
        consistent(observations(ts, 1)),
{
    lemma_observations_follow_rule(ts, rule);
}

/// Two positions, anywhere in the transitions, with the same centre cell
/// and different next values.
pub open spec fn centre_conflict(ts: Seq<Transition>) -> bool {
    exists|k1: int, i1: int, k2: int, i2: int|
        0 <= k1 < ts.len() && 0 <= i1 < ts[k1].before@.len() && 0 <= k2 < ts.len() && 0 <= i2
            < ts[k2].before@.len() && #[trigger] ts[k1].before@[i1] == #[trigger] ts[k2].before@[i2]
            && ts[k1].after@[i1] != ts[k2].after@[i2]
}

/// Locality soundness for Rule 110: on transitions of Rule 110 every
/// radius from 1 on is consistent, so with a radius bound of at least 1 the
/// minimal consistent radius is at most 1; and it is exactly 1, never 0,
/// once two positions with the same centre cell have different next values.
pub proof fn lemma_rule_110_radius(ts: Seq<Transition>, max_radius: nat, r: nat)
    requires
        follows_rule(ts, 110),
        max_radius >= 1,
        is_minimal_radius(ts, max_radius, r),
    ensures
        forall|q: nat| q >= 1 ==> #[trigger] consistent(observations(ts, q)),
        r <= 1,
        centre_conflict(ts) ==> r == 1,
{
    lemma_radius_one_consistent(ts, 110);
    assert forall|q: nat| q >= 1 implies #[trigger] consistent(observations(ts, q)) by {
        lemma_consistency_monotone(ts, 1, q);
    }
    if r > 1 {
        assert(!consistent(observations(ts, 1)));
    }
    if centre_conflict(ts) {
        let (k1, i1, k2, i2) = choose|k1: int, i1: int, k2: int, i2: int|
            0 <= k1 < ts.len() && 0 <= i1 < ts[k1].before@.len() && 0 <= k2 < ts.len() && 0 <= i2
                < ts[k2].before@.len() && #[trigger] ts[k1].before@[i1] == #[trigger] ts[k2].before@[i2]
                && ts[k1].after@[i1] != ts[k2].after@[i2];
        lemma_observation_present(ts, 0, k1, i1);
        lemma_observation_present(ts, 0, k2, i2);
        let obs = observations(ts, 0);
        let j1 = choose|j: int|
            0 <= j < obs.len() && #[trigger] obs[j] == (radius_window(ts[k1].before@, i1, 0), ts[k1].after@[i1]);
        let j2 = choose|j: int|
            0 <= j < obs.len() && #[trigger] obs[j] == (radius_window(ts[k2].before@, i2, 0), ts[k2].after@[i2]);
        let s1 = ts[k1].before@;
        let s2 = ts[k2].before@;
        vstd::arithmetic::div_mod::lemma_small_mod(i1 as nat, s1.len() as nat);
        vstd::arithmetic::div_mod::lemma_small_mod(i2 as nat, s2.len() as nat);
        assert(radius_window(s1, i1, 0) =~= radius_window(s2, i2, 0));
        assert(obs[j1].0 == obs[j2].0 && obs[j1].1 != obs[j2].1);
        assert(!consistent(obs));
    }
}

proof fn lemma_observations_parallel(ts: Seq<Transition>, r: nat, q: nat)
    requires
        r <= q,
    ensures
        observations(ts, r).len() == observations(ts, q).len(),
        forall|j: int|
            0 <= j < observations(ts, r).len() ==> {
                &&& (#[trigger] observations(ts, r)[j]).1 == observations(ts, q)[j].1
                &&& observations(ts, r)[j].0 == observations(ts, q)[j].0.subrange(q - r, (q + r + 1) as int)
            },
    decreases ts.len(),
{
    if ts.len() > 0 {
        let init = ts.drop_last();
        lemma_observations_parallel(init, r, q);
        let pr = observations(init, r);
        let pq = observations(init, q);
        let last = ts.last();
        assert forall|j: int| 0 <= j < observations(ts, r).len() implies {
            &&& (#[trigger] observations(ts, r)[j]).1 == observations(ts, q)[j].1
            &&& observations(ts, r)[j].0 == observations(ts, q)[j].0.subrange(q - r, (q + r + 1) as int)
        } by {
            if j < pr.len() {
                assert(observations(ts, r)[j] == pr[j]);
                assert(observations(ts, q)[j] == pq[j]);
            } else {
                let i = j - pr.len();
                assert(observations(ts, r)[j] == row_observations(last, r)[i]);
                assert(observations(ts, q)[j] == row_observations(last, q)[i]);
                assert(radius_window(last.before@, i, r) =~= radius_window(last.before@, i, q).subrange(
                    q - r,
                    (q + r + 1) as int,
                ));
            }
        }
    }
}

/// A larger window refines a smaller one: observations consistent at
/// radius `r` are consistent at every radius `q >= r`.
pub proof fn lemma_consistency_monotone(ts: Seq<Transition>, r: nat, q: nat)
    requires
        r <= q,
        consistent(observations(ts, r)),
    ensures
        consistent(observations(ts, q)),
{
    lemma_observations_parallel(ts, r, q);
    let or = observations(ts, r);
    let oq = observations(ts, q);
    assert forall|j: int, k: int|
        0 <= j < oq.len() && 0 <= k < oq.len() && (#[trigger] oq[j]).0 == (#[trigger] oq[k]).0 implies oq[j].1
        == oq[k].1 by {
        assert(or[j].0 == oq[j].0.subrange(q - r, (q + r + 1) as int));
        assert(or[k].0 == oq[k].0.subrange(q - r, (q + r + 1) as int));
        assert(or[j].0 == or[k].0);
        assert(or[j].1 == or[k].1);
    }
}

} // verus!
