//! Which positions of the neighborhood (left, centre, right) affect the
//! next value: read directly off the rule, or inferred from majority votes
//! over observed transitions.

use vstd::prelude::*;
use crate::inference::{majority_live, noise_free, NeighborhoodTally};
use crate::rule::{code_of, neighborhood_code, rule_bit, rule_output};

verus! {

/// A position in the neighborhood.
#[derive(Clone, Copy, PartialEq, Eq, Structural, Debug)]
pub enum Position {
    Left,
    Center,
    Right,
}

/// The code of the neighborhood with `v` at position `p` and `a`, `b` at
/// the other two positions, in left-to-right order.
pub open spec fn code_with(p: Position, v: bool, a: bool, b: bool) -> u8 {
    match p {
        Position::Left => code_of(v, a, b),
        Position::Center => code_of(a, v, b),
        Position::Right => code_of(a, b, v),
    }
}

/// Flipping position `p` alone changes the rule's output for some setting
/// of the other two positions.
pub open spec fn position_matters(rule: u8, p: Position) -> bool {
    exists|a: bool, b: bool|
        rule_output(rule, #[trigger] code_with(p, false, a, b)) != rule_output(rule, code_with(p, true, a, b))
}

/// The majority vote of a code: none where it was never seen.
pub open spec fn vote(observed: Seq<usize>, ones: Seq<usize>, c: u8) -> Option<bool> {
    if observed[c as int] == 0 {
        None
    } else {
        Some(majority_live(observed[c as int] as int, ones[c as int] as int))
    }
}

/// For some setting of the other two positions, the votes with `p` dead
/// and with `p` live differ (a code seen on one side only counts as a
/// difference).
pub open spec fn position_votes_differ(observed: Seq<usize>, ones: Seq<usize>, p: Position) -> bool {
    exists|a: bool, b: bool|
        vote(observed, ones, #[trigger] code_with(p, false, a, b)) != vote(observed, ones, code_with(p, true, a, b))
}

/// Which positions affect the output.
#[derive(Clone, Copy, PartialEq, Eq, Structural, Debug)]
pub struct Dependencies {
    pub left: bool,
    pub center: bool,
    pub right: bool,
}

/// The neighborhood code with `v` at position `p` and `a`, `b` elsewhere.
pub fn code_at(p: Position, v: bool, a: bool, b: bool) -> (r: u8)
    ensures
        r == code_with(p, v, a, b),
        r < 8,
{
    match p {
        Position::Left => neighborhood_code(v, a, b),
        Position::Center => neighborhood_code(a, v, b),
        Position::Right => neighborhood_code(a, b, v),
    }
}

/// Whether position `p` affects the output of `rule`: some setting of the
/// other two positions where flipping `p` alone changes the output.
pub fn matters(rule: u8, p: Position) -> (r: bool)
    ensures
        r == position_matters(rule, p),
{
    let settings = [(false, false), (false, true), (true, false), (true, true)];
    let mut found = false;
    for k in 0..4usize
        invariant
            settings@ == seq![(false, false), (false, true), (true, false), (true, true)],
            found == exists|j: int|
                0 <= j < k && #[trigger] rule_output(rule, code_with(p, false, settings@[j].0, settings@[j].1))
                    != rule_output(rule, code_with(p, true, settings@[j].0, settings@[j].1)),
    {
        let (a, b) = settings[k];
        if rule_bit(rule, code_at(p, false, a, b)) != rule_bit(rule, code_at(p, true, a, b)) {
            found = true;
        }
    }
    proof {
        if position_matters(rule, p) {
            let (a, b) = choose|a: bool, b: bool|
                rule_output(rule, #[trigger] code_with(p, false, a, b)) != rule_output(rule, code_with(p, true, a, b));
            let j: int = (if a { 2int } else { 0 }) + (if b { 1int } else { 0 });
            assert(settings@[j] == (a, b));
        }
        if found {
            let j = choose|j: int|
                0 <= j < 4 && #[trigger] rule_output(rule, code_with(p, false, settings@[j].0, settings@[j].1))
                    != rule_output(rule, code_with(p, true, settings@[j].0, settings@[j].1));
            assert(rule_output(rule, code_with(p, false, settings@[j].0, settings@[j].1))
                != rule_output(rule, code_with(p, true, settings@[j].0, settings@[j].1)));
        }
    }
    found
}

/// The positions that `rule` depends on, read off its bits.
pub fn direct_dependencies(rule: u8) -> (r: Dependencies)
    ensures
        r.left == position_matters(rule, Position::Left),
        r.center == position_matters(rule, Position::Center),
        r.right == position_matters(rule, Position::Right),
{
    Dependencies {
        left: matters(rule, Position::Left),
        center: matters(rule, Position::Center),
        right: matters(rule, Position::Right),
    }
}

/// The majority vote of code `c` in a tally.
pub fn vote_of(tally: &NeighborhoodTally, c: u8) -> (r: Option<bool>)
    requires
        tally.wf(),
        c < 8,
    ensures
        r == vote(tally.observed@, tally.ones@, c),
{
    let seen = tally.observed[c as usize];
    let live = tally.ones[c as usize];
    if seen == 0 {
        None
    } else {
        Some(live > seen - live)
    }
}

/// Whether the votes of a tally show position `p` to matter.
pub fn votes_differ(tally: &NeighborhoodTally, p: Position) -> (r: bool)
    requires
        tally.wf(),
    ensures
        r == position_votes_differ(tally.observed@, tally.ones@, p),
{
    let settings = [(false, false), (false, true), (true, false), (true, true)];
    let mut found = false;
    let ghost obs = tally.observed@;
    let ghost ones = tally.ones@;
    for k in 0..4usize
        invariant
            tally.wf(),
            obs == tally.observed@,
            ones == tally.ones@,
            settings@ == seq![(false, false), (false, true), (true, false), (true, true)],
            found == exists|j: int|
                0 <= j < k && #[trigger] vote(obs, ones, code_with(p, false, settings@[j].0, settings@[j].1))
                    != vote(obs, ones, code_with(p, true, settings@[j].0, settings@[j].1)),
    {
        let (a, b) = settings[k];
        let dead = vote_of(tally, code_at(p, false, a, b));
        let live = vote_of(tally, code_at(p, true, a, b));
        let differ = match (dead, live) {
            (Some(x), Some(y)) => x != y,
            (None, None) => false,
            _ => true,
        };
        if differ {
            found = true;
        }
    }
    proof {
        if position_votes_differ(obs, ones, p) {
            let (a, b) = choose|a: bool, b: bool|
                vote(obs, ones, #[trigger] code_with(p, false, a, b)) != vote(obs, ones, code_with(p, true, a, b));
            let j: int = (if a { 2int } else { 0 }) + (if b { 1int } else { 0 });
            assert(settings@[j] == (a, b));
        }
        if found {
            let j = choose|j: int|
                0 <= j < 4 && #[trigger] vote(obs, ones, code_with(p, false, settings@[j].0, settings@[j].1))
                    != vote(obs, ones, code_with(p, true, settings@[j].0, settings@[j].1));
            assert(vote(obs, ones, code_with(p, false, settings@[j].0, settings@[j].1))
                != vote(obs, ones, code_with(p, true, settings@[j].0, settings@[j].1)));
        }
    }
    found
}

/// The positions that the observations show to matter, by majority votes.
pub fn inferred_dependencies(tally: &NeighborhoodTally) -> (r: Dependencies)
    requires
        tally.wf(),
    ensures
        r.left == position_votes_differ(tally.observed@, tally.ones@, Position::Left),
        r.center == position_votes_differ(tally.observed@, tally.ones@, Position::Center),
        r.right == position_votes_differ(tally.observed@, tally.ones@, Position::Right),
{
    Dependencies {
        left: votes_differ(tally, Position::Left),
        center: votes_differ(tally, Position::Center),
        right: votes_differ(tally, Position::Right),
    }
}

/// The two techniques agree given enough clean data: where the counts carry
/// no noise and every code was seen, the votes show a position to matter
/// exactly when the rule's bits do.
pub proof fn lemma_dependencies_agree(rule: u8, observed: Seq<usize>, ones: Seq<usize>, p: Position)
    requires
        observed.len() == 8,
        ones.len() == 8,
        noise_free(rule, observed, ones),
        forall|c: int| 0 <= c < 8 ==> #[trigger] observed[c] > 0,
    ensures
        position_votes_differ(observed, ones, p) == position_matters(rule, p),
{
    assert forall|c: u8| c < 8 implies #[trigger] vote(observed, ones, c) == Some(rule_output(rule, c)) by {
        assert(observed[c as int] > 0);
        assert(ones[c as int] == (if rule_output(rule, c) { observed[c as int] } else { 0 }));
    }
    assert forall|a: bool, b: bool| code_with(p, false, a, b) < 8 && #[trigger] code_with(p, true, a, b) < 8 by {
    }
    if position_matters(rule, p) {
        let (a, b) = choose|a: bool, b: bool|
            rule_output(rule, #[trigger] code_with(p, false, a, b)) != rule_output(rule, code_with(p, true, a, b));
        assert(vote(observed, ones, code_with(p, false, a, b)) != vote(observed, ones, code_with(p, true, a, b)));
    }
    if position_votes_differ(observed, ones, p) {
        let (a, b) = choose|a: bool, b: bool|
            vote(observed, ones, #[trigger] code_with(p, false, a, b)) != vote(observed, ones, code_with(p, true, a, b));
        assert(rule_output(rule, code_with(p, false, a, b)) != rule_output(rule, code_with(p, true, a, b)));
    }
}

/// The sixteen Boolean functions of a left and a right input.
#[derive(Clone, Copy, PartialEq, Eq, Structural, Debug)]
pub enum TwoInputFunction {
    False,
    And,
    LeftAndNotRight,
    Left,
    NotLeftAndRight,
    Right,
    Xor,
    Or,
    Nor,
    Xnor,
    NotRight,
    LeftOrNotRight,
    NotLeft,
    NotLeftOrRight,
    Nand,
    True,
}

impl TwoInputFunction {
    /// The value of the function on `l` and `r`.
    pub open spec fn apply(self, l: bool, r: bool) -> bool {
        match self {
            TwoInputFunction::False => false,
            TwoInputFunction::And => l && r,
            TwoInputFunction::LeftAndNotRight => l && !r,
            TwoInputFunction::Left => l,
            TwoInputFunction::NotLeftAndRight => !l && r,
            TwoInputFunction::Right => r,
            TwoInputFunction::Xor => l != r,
            TwoInputFunction::Or => l || r,
            TwoInputFunction::Nor => !(l || r),
            TwoInputFunction::Xnor => l == r,
            TwoInputFunction::NotRight => !r,
            TwoInputFunction::LeftOrNotRight => l || !r,
            TwoInputFunction::NotLeft => !l,
            TwoInputFunction::NotLeftOrRight => !l || r,
            TwoInputFunction::Nand => !(l && r),
            TwoInputFunction::True => true,
        }
    }
}

/// The function whose truth table is `f00, f01, f10, f11` (the value at
/// left and right inputs 00, 01, 10, 11).
pub fn two_input_function(f00: bool, f01: bool, f10: bool, f11: bool) -> (r: TwoInputFunction)
    ensures
        r.apply(false, false) == f00,
        r.apply(false, true) == f01,
        r.apply(true, false) == f10,
        r.apply(true, true) == f11,
{
    match (f00, f01, f10, f11) {
        (false, false, false, false) => TwoInputFunction::False,
        (false, false, false, true) => TwoInputFunction::And,
        (false, false, true, false) => TwoInputFunction::LeftAndNotRight,
        (false, false, true, true) => TwoInputFunction::Left,
        (false, true, false, false) => TwoInputFunction::NotLeftAndRight,
        (false, true, false, true) => TwoInputFunction::Right,
        (false, true, true, false) => TwoInputFunction::Xor,
        (false, true, true, true) => TwoInputFunction::Or,
        (true, false, false, false) => TwoInputFunction::Nor,
        (true, false, false, true) => TwoInputFunction::Xnor,
        (true, false, true, false) => TwoInputFunction::NotRight,
        (true, false, true, true) => TwoInputFunction::LeftOrNotRight,
        (true, true, false, false) => TwoInputFunction::NotLeft,
        (true, true, false, true) => TwoInputFunction::NotLeftOrRight,
        (true, true, true, false) => TwoInputFunction::Nand,
        (true, true, true, true) => TwoInputFunction::True,
    }
}

/// For a rule that ignores the centre, the function of the left and right
/// cells that it computes; `None` where the centre matters.
pub fn center_free_function(rule: u8) -> (r: Option<TwoInputFunction>)
    ensures
        r is Some <==> !position_matters(rule, Position::Center),
        r matches Some(f) ==> forall|l: bool, c: bool, x: bool| f.apply(l, x) == #[trigger] rule_output(rule, code_of(l, c, x)),
{
    if matters(rule, Position::Center) {
        return None;
    }
    let f00 = rule_bit(rule, neighborhood_code(false, false, false));
    let f01 = rule_bit(rule, neighborhood_code(false, false, true));
    let f10 = rule_bit(rule, neighborhood_code(true, false, false));
    let f11 = rule_bit(rule, neighborhood_code(true, false, true));
    let f = two_input_function(f00, f01, f10, f11);
    proof {
        assert forall|l: bool, c: bool, x: bool| f.apply(l, x) == #[trigger] rule_output(rule, code_of(l, c, x)) by {
            assert(rule_output(rule, code_with(Position::Center, false, l, x)) == rule_output(rule, code_with(Position::Center, true, l, x)));
        }
    }
    Some(f)
}

/// The value every neighborhood with centre `v` gives under `rule`, where
/// all four agree.
pub open spec fn center_constant(rule: u8, v: bool) -> Option<bool> {
    if forall|a: bool, b: bool| #[trigger] rule_output(rule, code_of(a, v, b)) == rule_output(rule, code_of(false, v, false)) {
        Some(rule_output(rule, code_of(false, v, false)))
    } else {
        None
    }
}

/// The output of `rule` with centre `v`, where it does not depend on the
/// neighbours.
fn center_value(rule: u8, v: bool) -> (r: Option<bool>)
    ensures
        r == center_constant(rule, v),
{
    let base = rule_bit(rule, neighborhood_code(false, v, false));
    let o01 = rule_bit(rule, neighborhood_code(false, v, true));
    let o10 = rule_bit(rule, neighborhood_code(true, v, false));
    let o11 = rule_bit(rule, neighborhood_code(true, v, true));
    if o01 == base && o10 == base && o11 == base {
        proof {
            assert forall|a: bool, b: bool| #[trigger] rule_output(rule, code_of(a, v, b)) == rule_output(rule, code_of(false, v, false)) by {
            }
        }
        Some(base)
    } else {
        proof {
            if o01 != base {
                assert(rule_output(rule, code_of(false, v, true)) != rule_output(rule, code_of(false, v, false)));
            } else if o10 != base {
                assert(rule_output(rule, code_of(true, v, false)) != rule_output(rule, code_of(false, v, false)));
            } else {
                assert(rule_output(rule, code_of(true, v, true)) != rule_output(rule, code_of(false, v, false)));
            }
        }
        None
    }
}

/// For a rule whose output depends on the centre cell alone, its value
/// with a dead and with a live centre; `None` otherwise.
pub fn center_function(rule: u8) -> (r: Option<(bool, bool)>)
    ensures
        r == (match (center_constant(rule, false), center_constant(rule, true)) {
            (Some(f0), Some(f1)) => Some((f0, f1)),
            _ => None,
        }),
{
    match (center_value(rule, false), center_value(rule, true)) {
        (Some(f0), Some(f1)) => Some((f0, f1)),
        _ => None,
    }
}

} // verus!
