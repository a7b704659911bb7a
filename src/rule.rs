//! The update rule of an elementary automaton: one byte whose bit `c` is the
//! next value of a cell whose neighborhood code is `c`.

use vstd::prelude::*;

verus! {

/// Output bit of `rule` for the neighborhood code `code` (0..8).
pub open spec fn rule_output(rule: u8, code: u8) -> bool {
    (rule >> code) & 1u8 == 1u8
}

/// Neighborhood code of three cells, the left one most significant.
pub open spec fn code_of(left: bool, center: bool, right: bool) -> u8 {
    ((if left { 4int } else { 0 }) + (if center { 2int } else { 0 }) + (if right { 1int } else { 0 })) as u8
}

/// Neighborhood code of three cells, the left one most significant.
pub fn neighborhood_code(left: bool, center: bool, right: bool) -> (r: u8)
    ensures
        r == code_of(left, center, right),
        r < 8,
{
    let l: u8 = if left { 4 } else { 0 };
    let c: u8 = if center { 2 } else { 0 };
    let rt: u8 = if right { 1 } else { 0 };
    l + c + rt
}

/// Output bit of `rule` for the neighborhood code `code`.
pub fn rule_bit(rule: u8, code: u8) -> (r: bool)
    requires
        code < 8,
    ensures
        r == rule_output(rule, code),
{
    (rule >> code) & 1 == 1
}

} // verus!
