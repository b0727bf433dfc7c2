//! Pheromone levels as fixed-point numbers, and the two formulas that change them.
//!
//! A level is a whole number of units of 2^-32. Rates are fractions in the
//! same units.

use vstd::prelude::*;

verus! {

/// Number of units in the level 1.
pub const UNIT: u64 = 0x1_0000_0000;

/// The largest level; a deposit that would pass it stops there.
pub const MAX_LEVEL: u64 = 0xffff_ffff_ffff_ffff;

/// Fraction of a full reward that a move of a complete tour receives: 1.
pub const DEPOSIT_RATE: u64 = 0x1_0000_0000;

/// A level after evaporation at `rate`: the level times `1 - rate`, rounded down
/// to a whole number of units.
pub open spec fn decayed(level: int, rate: int) -> int {
    level * (UNIT - rate) / (UNIT as int)
}

/// The reward of the move made at `step` of a walk of `num_moves` moves: the
/// deposit rate times the moves left when it was made, over the moves that were
/// left of a complete tour, rounded down to a whole number of units.
pub open spec fn reward(num_moves: int, step: int) -> int {
    DEPOSIT_RATE * (num_moves - step) / (63 - step)
}

/// A level after a deposit of `amount`.
pub open spec fn raised(level: int, amount: int) -> int {
    if level + amount <= MAX_LEVEL {
        level + amount
    } else {
        MAX_LEVEL as int
    }
}

/// The weight of a move in the choice among moves: its level to the power 1.
pub open spec fn weight_of(level: int) -> int {
    level
}

/// The level `num / den`, rounded down to a whole number of units.
pub open spec fn ratio(num: int, den: int) -> int {
    num * UNIT / den
}

/// The reward of a move lies above 0 and does not pass the deposit rate.
pub proof fn lemma_reward_bounds(num_moves: int, step: int)
    requires
        0 <= step < num_moves <= 63,
    ensures
        0 < reward(num_moves, step) <= DEPOSIT_RATE,
{
    let left = num_moves - step;
    let open = 63 - step;
    assert((DEPOSIT_RATE * left) / open <= DEPOSIT_RATE) by (nonlinear_arith)
        requires
            0 < left <= open,
    ;
    assert((DEPOSIT_RATE * left) / open > 0) by (nonlinear_arith)
        requires
            0 < left <= open <= 63,
            DEPOSIT_RATE == 0x1_0000_0000,
    ;
}

/// Evaporation rounds down by less than one unit: the level after it, in
/// units, is the whole part of the level times `1 - rate`.
pub proof fn lemma_decayed_exact(level: int, rate: int)
    requires
        0 <= level,
        0 <= rate < UNIT,
    ensures
        decayed(level, rate) * UNIT <= level * (UNIT - rate) < (decayed(level, rate) + 1) * UNIT,
        0 <= decayed(level, rate) <= level,
        rate == 0 ==> decayed(level, rate) == level,
{
    let product = level * (UNIT - rate);
    assert(0 <= product <= level * UNIT) by (nonlinear_arith)
        requires
            product == level * (UNIT - rate),
            0 <= level,
            0 <= rate < UNIT,
    ;
    assert((product / (UNIT as int)) * UNIT <= product < (product / (UNIT as int) + 1) * UNIT)
        by (nonlinear_arith)
        requires
            UNIT > 0,
    ;
    assert(product / (UNIT as int) <= level) by (nonlinear_arith)
        requires
            0 <= product <= level * UNIT,
            UNIT > 0,
    ;
    assert(0 <= product / (UNIT as int)) by (nonlinear_arith)
        requires
            0 <= product,
            UNIT > 0,
    ;
    assert(rate == 0 ==> product / (UNIT as int) == level) by (nonlinear_arith)
        requires
            product == level * (UNIT - rate),
            UNIT > 0,
    ;
}

/// Evaporation of one level.
pub fn decay(level: u64, rate: u64) -> (after: u64)
    requires
        rate < UNIT,
    ensures
        after == decayed(level as int, rate as int),
        after <= level,
        rate == 0 ==> after == level,
{
    let keep: u64 = UNIT - rate;
    proof {
        assert(level * keep <= level * UNIT) by (nonlinear_arith)
            requires
                0 < keep <= UNIT,
                level >= 0,
        ;
        assert(level * UNIT <= 0xffff_ffff_ffff_ffff * 0x1_0000_0000) by (nonlinear_arith)
            requires
                level <= 0xffff_ffff_ffff_ffff,
                UNIT == 0x1_0000_0000,
        ;
        assert((level * keep) / (UNIT as int) <= level) by (nonlinear_arith)
            requires
                level * keep <= level * UNIT,
                UNIT > 0,
                level >= 0,
        ;
        assert(keep == UNIT ==> (level * keep) / (UNIT as int) == level) by (nonlinear_arith)
            requires
                UNIT > 0,
        ;
    }
    let product: u128 = (level as u128) * (keep as u128);
    (product / (UNIT as u128)) as u64
}

/// The reward of the move made at `step` of a walk of `num_moves` moves.
pub fn reward_for(num_moves: usize, step: usize) -> (amount: u64)
    requires
        step < num_moves <= 63,
    ensures
        amount == reward(num_moves as int, step as int),
        0 < amount <= DEPOSIT_RATE,
{
    let left: u64 = (num_moves - step) as u64;
    let open: u64 = (63 - step) as u64;
    proof {
        assert(DEPOSIT_RATE * left <= DEPOSIT_RATE * 63) by (nonlinear_arith)
            requires
                left <= 63,
        ;
        assert((DEPOSIT_RATE * left) / (open as int) <= DEPOSIT_RATE) by (nonlinear_arith)
            requires
                0 < left <= open,
        ;
        assert((DEPOSIT_RATE * left) / (open as int) > 0) by (nonlinear_arith)
            requires
                0 < left <= open <= 63,
                DEPOSIT_RATE == 0x1_0000_0000,
        ;
    }
    DEPOSIT_RATE * left / open
}

/// A deposit of `amount` on a level.
pub fn raise(level: u64, amount: u64) -> (after: u64)
    ensures
        after == raised(level as int, amount as int),
        after >= level,
{
    if amount <= MAX_LEVEL - level {
        level + amount
    } else {
        MAX_LEVEL
    }
}

/// The weight of a move with this level.
pub fn weight(level: u64) -> (w: u64)
    ensures
        w == weight_of(level as int),
{
    level
}

/// The level `num / den` in units, rounded down; `None` where `den` is 0 or
/// the level would pass the largest one.
pub fn from_ratio(num: u64, den: u64) -> (level: Option<u64>)
    ensures
        level.is_some() <==> den != 0 && ratio(num as int, den as int) <= MAX_LEVEL,
        level.is_some() ==> level.unwrap() == ratio(num as int, den as int),
{
    if den == 0 {
        return None;
    }
    proof {
        assert(num * UNIT <= 0xffff_ffff_ffff_ffff * 0x1_0000_0000) by (nonlinear_arith)
            requires
                num <= 0xffff_ffff_ffff_ffff,
                UNIT == 0x1_0000_0000,
        ;
    }
    let scaled: u128 = (num as u128) * (UNIT as u128) / (den as u128);
    if scaled <= MAX_LEVEL as u128 {
        Some(scaled as u64)
    } else {
        None
    }
}

} // verus!
