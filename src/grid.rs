//! The mathematical model of a row of cells on a ring and of its evolution.

use vstd::prelude::*;
use crate::rule::{code_of, rule_output};

verus! {

/// Cell `i` of a ring of cells, the index taken modulo the ring's length.
pub open spec fn cell_at(s: Seq<bool>, i: int) -> bool {
    s[i % (s.len() as int)]
}

/// Neighborhood code of cell `i`: its left neighbour, itself, its right neighbour.
pub open spec fn neighborhood_at(s: Seq<bool>, i: int) -> u8 {
    code_of(cell_at(s, i - 1), s[i], cell_at(s, i + 1))
}

/// The generation that follows `s` under `rule`.
pub open spec fn step_seq(rule: u8, s: Seq<bool>) -> Seq<bool> {
    Seq::new(s.len(), |i: int| rule_output(rule, neighborhood_at(s, i)))
}

/// The generation `k` steps after `s` under `rule`.
pub open spec fn evolve(rule: u8, s: Seq<bool>, k: nat) -> Seq<bool>
    decreases k,
{
    if k == 0 {
        s
    } else {
        step_seq(rule, evolve(rule, s, (k - 1) as nat))
    }
}

/// A row of `width` dead cells but the one at `width / 2`.
pub open spec fn single_seed(width: nat) -> Seq<bool> {
    Seq::new(width, |i: int| i == width / 2)
}

/// Every cell is dead.
pub open spec fn all_dead(s: Seq<bool>) -> bool {
    forall|i: int| 0 <= i < s.len() ==> !s[i]
}

/// Number of live cells.
pub open spec fn live_count(s: Seq<bool>) -> nat
    decreases s.len(),
{
    if s.len() == 0 {
        0
    } else {
        live_count(s.drop_last()) + (if s.last() { 1nat } else { 0nat })
    }
}

/// A row has no live cell exactly when every cell is dead.
pub proof fn lemma_live_count_zero(s: Seq<bool>)
    ensures
        live_count(s) == 0 <==> all_dead(s),
        live_count(s) <= s.len(),
    decreases s.len(),
{
    if s.len() > 0 {
        lemma_live_count_zero(s.drop_last());
        if live_count(s) == 0 {
            assert forall|i: int| 0 <= i < s.len() implies !s[i] by {
                if i < s.len() - 1 {
                    assert(s[i] == s.drop_last()[i]);
                }
            }
        }
        if all_dead(s) {
            assert(all_dead(s.drop_last())) by {
                assert forall|i: int| 0 <= i < s.drop_last().len() implies !s.drop_last()[i] by {
                    assert(s.drop_last()[i] == s[i]);
                }
            }
        }
    }
}

/// Evolution is a function of the rule, the start and the step count:
/// running the same rule from the same row for `k` steps twice gives the
/// same row, and the row keeps its width.
pub proof fn lemma_evolve_deterministic(rule: u8, s: Seq<bool>, t: Seq<bool>, k: nat)
    requires
        s == t,
    ensures
        evolve(rule, s, k) == evolve(rule, t, k),
        evolve(rule, s, k).len() == s.len(),
    decreases k,
{
    if k > 0 {
        lemma_evolve_deterministic(rule, s, t, (k - 1) as nat);
    }
}

/// Evolution keeps the width of a row.
pub proof fn lemma_evolve_len(rule: u8, s: Seq<bool>, k: nat)
    ensures
        evolve(rule, s, k).len() == s.len(),
    decreases k,
{
    if k > 0 {
        lemma_evolve_len(rule, s, (k - 1) as nat);
    }
}

/// Rule 0 sends every neighborhood to a dead cell, so one step of it
/// leaves any row, of any width, all dead.
pub proof fn lemma_rule_zero_kills(s: Seq<bool>)
    ensures
        all_dead(step_seq(0, s)),
        all_dead(evolve(0, s, 1)),
{
    assert forall|c: u8| !#[trigger] rule_output(0, c) by {
        assert(!((0u8 >> c) & 1u8 == 1u8)) by (bit_vector);
    }
}

/// Two to the power `n`.
pub open spec fn two_pow(n: nat) -> nat
    decreases n,
{
    if n == 0 {
        1
    } else {
        2 * two_pow((n - 1) as nat)
    }
}

/// The number whose binary digits, most significant first, are the cells.
pub open spec fn bits_value(s: Seq<bool>) -> nat
    decreases s.len(),
{
    if s.len() == 0 {
        0
    } else {
        2 * bits_value(s.drop_last()) + (if s.last() { 1nat } else { 0nat })
    }
}

/// A row of `n` cells read as a binary number is below `2^n`.
pub proof fn lemma_bits_value_bound(s: Seq<bool>)
    ensures
        bits_value(s) < two_pow(s.len()),
    decreases s.len(),
{
    if s.len() > 0 {
        lemma_bits_value_bound(s.drop_last());
    }
}

/// Two rows of one width with the same binary value are the same row.
pub proof fn lemma_bits_value_injective(s: Seq<bool>, t: Seq<bool>)
    requires
        s.len() == t.len(),
        bits_value(s) == bits_value(t),
    ensures
        s == t,
    decreases s.len(),
{
    if s.len() > 0 {
        let a = bits_value(s.drop_last());
        let b = bits_value(t.drop_last());
        assert(s.last() == t.last());
        assert(a == b);
        lemma_bits_value_injective(s.drop_last(), t.drop_last());
        assert(s =~= s.drop_last().push(s.last()));
        assert(t =~= t.drop_last().push(t.last()));
    }
}

/// Pigeonhole on rows: `m` pairwise different rows of width `n` number at
/// most `2^n`.
pub proof fn lemma_distinct_rows_bound(rows: Seq<Seq<bool>>, n: nat)
    requires
        forall|k: int| 0 <= k < rows.len() ==> (#[trigger] rows[k]).len() == n,
        forall|j: int, k: int| 0 <= j < k < rows.len() ==> rows[j] != rows[k],
    ensures
        rows.len() <= two_pow(n),
{
    let values = Seq::new(rows.len(), |k: int| bits_value(rows[k]) as int);
    assert(values.no_duplicates()) by {
        assert forall|j: int, k: int| 0 <= j < values.len() && 0 <= k < values.len() && j != k
            implies values[j] != values[k] by {
            if values[j] == values[k] {
                lemma_bits_value_injective(rows[j], rows[k]);
            }
        }
    }
    values.unique_seq_to_set();
    let range = vstd::set_lib::set_int_range(0, two_pow(n) as int);
    vstd::set_lib::lemma_int_range(0, two_pow(n) as int);
    assert(values.to_set().subset_of(range)) by {
        assert forall|v: int| values.to_set().contains(v) implies range.contains(v) by {
            let k = choose|k: int| 0 <= k < values.len() && values[k] == v;
            lemma_bits_value_bound(rows[k]);
        }
    }
    vstd::set_lib::lemma_len_subset(values.to_set(), range);
}

} // verus!
