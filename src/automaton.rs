//! An elementary automaton: a ring of cells and the rule that updates it.

use vstd::prelude::*;
use std::collections::hash_map::DefaultHasher;
use std::hash::Hasher;
use vstd::std_specs::hash::DefaultHasherAdditionalSpecFns;
use crate::grid::{evolve, live_count, lemma_live_count_zero, neighborhood_at, single_seed, step_seq};
use crate::rule::{neighborhood_code, rule_bit};

verus! {

/// A ring of cells together with the rule that updates it.
#[derive(Clone, Debug, PartialEq, Eq)]
pub struct Automaton {
    pub cells: Vec<bool>,
    pub rule: u8,
}

/// Index of the left neighbour of cell `i` on a ring of `n` cells.
fn left_index(i: usize, n: usize) -> (r: usize)
    requires
        i < n,
    ensures
        r < n,
        r as int == (i as int - 1) % (n as int),
{
    if i == 0 {
        assert((-1int) % (n as int) == n as int - 1) by (nonlinear_arith)
            requires n > 0;
        n - 1
    } else {
        assert((i as int - 1) % (n as int) == i as int - 1) by (nonlinear_arith)
            requires 0 < i < n;
        i - 1
    }
}

/// Index of the right neighbour of cell `i` on a ring of `n` cells.
fn right_index(i: usize, n: usize) -> (r: usize)
    requires
        i < n,
    ensures
        r < n,
        r as int == (i as int + 1) % (n as int),
{
    if i + 1 == n {
        assert((n as int) % (n as int) == 0) by (nonlinear_arith)
            requires n > 0;
        0
    } else {
        assert((i as int + 1) % (n as int) == i as int + 1) by (nonlinear_arith)
            requires 0 <= i, i + 1 < n;
        i + 1
    }
}

/// Neighborhood code of cell `i` of `cells`, wrapping at both ends.
pub fn neighborhood_of(cells: &Vec<bool>, i: usize) -> (r: u8)
    requires
        i < cells.len(),
    ensures
        r == neighborhood_at(cells@, i as int),
        r < 8,
{
    let n = cells.len();
    let left = cells[left_index(i, n)];
    let right = cells[right_index(i, n)];
    neighborhood_code(left, cells[i], right)
}

/// The generation that follows `cells` under `rule`.
pub fn next_generation(rule: u8, cells: &Vec<bool>) -> (r: Vec<bool>)
    ensures
        r@ == step_seq(rule, cells@),
{
    let n = cells.len();
    let mut next: Vec<bool> = Vec::with_capacity(n);
    for i in 0..n
        invariant
            n == cells.len(),
            next.len() == i,
            forall|j: int| 0 <= j < i ==> next@[j] == step_seq(rule, cells@)[j],
    {
        let code = neighborhood_of(cells, i);
        next.push(rule_bit(rule, code));
    }
    assert(next@ =~= step_seq(rule, cells@));
    next
}

/// Whether two rows hold the same cells.
pub fn same_cells(a: &Vec<bool>, b: &Vec<bool>) -> (r: bool)
    ensures
        r == (a@ == b@),
{
    if a.len() != b.len() {
        return false;
    }
    for i in 0..a.len()
        invariant
            a.len() == b.len(),
            forall|j: int| 0 <= j < i ==> a@[j] == b@[j],
    {
        if a[i] != b[i] {
            return false;
        }
    }
    assert(a@ =~= b@);
    true
}

/// A copy of a row.
pub fn copy_cells(a: &Vec<bool>) -> (r: Vec<bool>)
    ensures
        r@ == a@,
{
    let mut r: Vec<bool> = Vec::with_capacity(a.len());
    for i in 0..a.len()
        invariant
            r@ == a@.take(i as int),
    {
        r.push(a[i]);
        assert(r@ =~= a@.take(i + 1));
    }
    assert(a@.take(a.len() as int) =~= a@);
    r
}

/// Number of live cells of `cells`.
pub fn count_live(cells: &Vec<bool>) -> (r: usize)
    ensures
        r == live_count(cells@),
{
    let mut count: usize = 0;
    for i in 0..cells.len()
        invariant
            count == live_count(cells@.take(i as int)),
            count <= i,
    {
        proof {
            assert(cells@.take(i + 1).drop_last() =~= cells@.take(i as int));
            lemma_live_count_zero(cells@.take(i as int));
        }
        if cells[i] {
            count = count + 1;
        }
    }
    assert(cells@.take(cells.len() as int) =~= cells@);
    count
}

/// The glyph of a cell: `#` for live, a space for dead.
pub open spec fn glyph(c: bool) -> char {
    if c {
        '#'
    } else {
        ' '
    }
}

/// A row drawn with one glyph per cell.
pub open spec fn rendering(s: Seq<bool>) -> Seq<char> {
    Seq::new(s.len(), |i: int| glyph(s[i]))
}

/// A row as bytes, 1 for a live cell and 0 for a dead one.
pub open spec fn cell_bytes(s: Seq<bool>) -> Seq<u8> {
    Seq::new(s.len(), |i: int| if s[i] { 1u8 } else { 0u8 })
}

/// Relies on `String::push`: appends one character at the end.
#[verifier::external_body]
fn push_char(s: &mut String, c: char)
    ensures
        final(s)@ == old(s)@.push(c),
{
    s.push(c);
}

impl Automaton {
    /// A ring of `width` dead cells but the middle one, at `width / 2`.
    pub fn new(width: usize, rule: u8) -> (r: Automaton)
        requires
            width >= 1,
        ensures
            r.cells@ == single_seed(width as nat),
            r.rule == rule,
    {
        let mut cells: Vec<bool> = Vec::with_capacity(width);
        for i in 0..width
            invariant
                cells.len() == i,
                forall|j: int| 0 <= j < i ==> cells@[j] == (j == width as int / 2),
        {
            cells.push(i == width / 2);
        }
        assert(cells@ =~= single_seed(width as nat));
        Automaton { cells, rule }
    }

    /// An automaton that starts from the given cells.
    pub fn from_cells(cells: Vec<bool>, rule: u8) -> (r: Automaton)
        ensures
            r.cells@ == cells@,
            r.rule == rule,
    {
        Automaton { cells, rule }
    }

    /// Replaces the cells by the next generation: each cell takes the bit of
    /// the rule that its neighborhood code selects.
    pub fn step(&mut self)
        ensures
            final(self).cells@ == step_seq(old(self).rule, old(self).cells@),
            final(self).rule == old(self).rule,
    {
        let next = next_generation(self.rule, &self.cells);
        self.cells = next;
    }

    /// Runs `steps` generations.
    pub fn run(&mut self, steps: usize)
        ensures
            final(self).cells@ == evolve(old(self).rule, old(self).cells@, steps as nat),
            final(self).rule == old(self).rule,
    {
        for k in 0..steps
            invariant
                self.rule == old(self).rule,
                self.cells@ == evolve(old(self).rule, old(self).cells@, k as nat),
        {
            self.step();
        }
    }

    /// Number of cells.
    pub fn width(&self) -> (r: usize)
        ensures
            r == self.cells@.len(),
    {
        self.cells.len()
    }

    /// The row drawn with `#` for each live cell and a space for each dead
    /// one.
    pub fn render(&self) -> (r: String)
        ensures
            r@ == rendering(self.cells@),
    {
        let mut out = String::new();
        for i in 0..self.cells.len()
            invariant
                out@ == rendering(self.cells@.take(i as int)),
        {
            push_char(&mut out, if self.cells[i] { '#' } else { ' ' });
            assert(out@ =~= rendering(self.cells@.take(i + 1)));
        }
        assert(self.cells@.take(self.cells.len() as int) =~= self.cells@);
        out
    }

    /// A 64-bit digest of the cells, from std's `DefaultHasher` fed with one
    /// byte per cell and nothing else: equal rows give equal digests. No
    /// length prefix is written, so the digest differs from the one that
    /// `Hash` on a `Vec<bool>` would give.
    pub fn state_hash(&self) -> (r: u64)
        ensures
            r == DefaultHasher::spec_finish(seq![cell_bytes(self.cells@)]),
    {
        let mut bytes: Vec<u8> = Vec::with_capacity(self.cells.len());
        for i in 0..self.cells.len()
            invariant
                bytes@ == cell_bytes(self.cells@.take(i as int)),
        {
            bytes.push(if self.cells[i] { 1 } else { 0 });
            assert(bytes@ =~= cell_bytes(self.cells@.take(i + 1)));
        }
        assert(self.cells@.take(self.cells.len() as int) =~= self.cells@);
        let mut hasher = DefaultHasher::new();
        hasher.write(bytes.as_slice());
        assert(hasher@ =~= seq![cell_bytes(self.cells@)]);
        hasher.finish()
    }

    /// Number of live cells.
    pub fn population(&self) -> (r: usize)
        ensures
            r == live_count(self.cells@),
    {
        count_live(&self.cells)
    }
}

} // verus!
