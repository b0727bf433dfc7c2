//! Choice of one item among weighted items by a uniform draw.
//!
//! A draw `d` stands for the number `d / 2^32`, at least 0 and below 1. The
//! items are scanned in order; the scan stops at the first item at which the
//! share of the weights scanned so far is at least that number.

use vstd::prelude::*;

verus! {

/// Number of values of a draw.
pub const DRAWS: u64 = 0x1_0000_0000;

/// The largest number of weights among which a choice is made.
pub const MAX_ITEMS: usize = 0xffff_ffff;

/// Sum of the first `n` weights.
pub open spec fn sum_upto(weights: Seq<int>, n: int) -> int
    decreases n,
{
    if n <= 0 {
        0
    } else {
        sum_upto(weights, n - 1) + weights[n - 1]
    }
}

/// Sum of all the weights.
pub open spec fn total(weights: Seq<int>) -> int {
    sum_upto(weights, weights.len() as int)
}

/// The weights that decide: the given ones, or 1 for every item where the
/// given ones sum to 0.
pub open spec fn effective(weights: Seq<int>) -> Seq<int> {
    if total(weights) == 0 {
        Seq::new(weights.len(), |k: int| 1int)
    } else {
        weights
    }
}

/// Whether the share of the first `k + 1` weights is at least the draw.
pub open spec fn reaches(weights: Seq<int>, draw: int, k: int) -> bool {
    draw * total(weights) <= DRAWS * sum_upto(weights, k + 1)
}

/// The first item from `k` on that the draw reaches; the last item where it
/// reaches none before it.
pub open spec fn first_reached(weights: Seq<int>, draw: int, k: int) -> int
    decreases weights.len() - k,
{
    if k >= weights.len() - 1 || reaches(weights, draw, k) {
        k
    } else {
        first_reached(weights, draw, k + 1)
    }
}

/// The item chosen by `draw` among items with these weights.
pub open spec fn chosen(weights: Seq<int>, draw: int) -> int {
    first_reached(effective(weights), draw, 0)
}

/// The weights of a vector as mathematical integers.
pub open spec fn as_ints(weights: Seq<u64>) -> Seq<int> {
    Seq::new(weights.len(), |k: int| weights[k] as int)
}

/// Bounds of a sum of weights that lie between 0 and `bound`, and its growth.
pub proof fn lemma_sum_bounds(weights: Seq<int>, n: int, bound: int)
    requires
        0 <= n <= weights.len(),
        forall|k: int| 0 <= k < weights.len() ==> 0 <= #[trigger] weights[k] <= bound,
    ensures
        0 <= sum_upto(weights, n) <= n * bound,
        sum_upto(weights, n) <= total(weights),
    decreases weights.len() - n,
{
    lemma_sum_prefix_bound(weights, n, bound);
    if n < weights.len() {
        lemma_sum_bounds(weights, n + 1, bound);
    }
}

proof fn lemma_sum_prefix_bound(weights: Seq<int>, n: int, bound: int)
    requires
        0 <= n <= weights.len(),
        forall|k: int| 0 <= k < weights.len() ==> 0 <= #[trigger] weights[k] <= bound,
    ensures
        0 <= sum_upto(weights, n) <= n * bound,
    decreases n,
{
    if n > 0 {
        lemma_sum_prefix_bound(weights, n - 1, bound);
        assert((n - 1) * bound + bound == n * bound) by (nonlinear_arith);
    } else {
        assert(n * bound == 0) by (nonlinear_arith)
            requires
                n == 0,
        ;
    }
}

/// The sum of the first `n` of weights that all equal `each`.
pub proof fn lemma_sum_of_equal(weights: Seq<int>, n: int, each: int)
    requires
        0 <= n <= weights.len(),
        forall|k: int| 0 <= k < weights.len() ==> #[trigger] weights[k] == each,
    ensures
        sum_upto(weights, n) == n * each,
    decreases n,
{
    if n > 0 {
        lemma_sum_of_equal(weights, n - 1, each);
        assert((n - 1) * each + each == n * each) by (nonlinear_arith);
    } else {
        assert(n * each == 0) by (nonlinear_arith)
            requires
                n == 0,
        ;
    }
}

/// The weights that decide are not negative, they are as many as the given
/// ones, and their sum is positive.
pub proof fn lemma_effective(weights: Seq<int>)
    requires
        weights.len() > 0,
        forall|k: int| 0 <= k < weights.len() ==> 0 <= #[trigger] weights[k],
    ensures
        effective(weights).len() == weights.len(),
        forall|k: int| 0 <= k < weights.len() ==> 0 <= #[trigger] effective(weights)[k],
        total(effective(weights)) > 0,
        total(weights) == 0 ==> total(effective(weights)) == weights.len(),
{
    if total(weights) == 0 {
        lemma_sum_of_equal(effective(weights), weights.len() as int, 1);
    } else {
        let bound = total(weights) + 1;
        assert forall|k: int| 0 <= k < weights.len() implies 0 <= #[trigger] weights[k]
            <= bound by {
            lemma_weight_below_total(weights, k, weights.len() as int);
        }
        lemma_sum_bounds(weights, weights.len() as int, bound);
    }
}

proof fn lemma_weight_below_total(weights: Seq<int>, k: int, n: int)
    requires
        0 <= k < n <= weights.len(),
        forall|j: int| 0 <= j < weights.len() ==> 0 <= #[trigger] weights[j],
    ensures
        weights[k] <= sum_upto(weights, n),
        0 <= sum_upto(weights, n),
    decreases n,
{
    if n - 1 > k {
        lemma_weight_below_total(weights, k, n - 1);
    } else {
        lemma_sum_nonnegative(weights, n - 1);
    }
}

proof fn lemma_sum_nonnegative(weights: Seq<int>, n: int)
    requires
        0 <= n <= weights.len(),
        forall|j: int| 0 <= j < weights.len() ==> 0 <= #[trigger] weights[j],
    ensures
        0 <= sum_upto(weights, n),
    decreases n,
{
    if n > 0 {
        lemma_sum_nonnegative(weights, n - 1);
    }
}

/// The scan from `k` on stops at an item that the draw reaches, and at the
/// first such.
pub proof fn lemma_first_reached(weights: Seq<int>, draw: int, k: int)
    requires
        0 <= k < weights.len(),
        forall|j: int| 0 <= j < weights.len() ==> 0 <= #[trigger] weights[j],
        0 <= draw < DRAWS,
    ensures
        k <= first_reached(weights, draw, k) < weights.len(),
        reaches(weights, draw, first_reached(weights, draw, k)),
        forall|j: int| k <= j < first_reached(weights, draw, k) ==> !reaches(weights, draw, j),
    decreases weights.len() - k,
{
    if k >= weights.len() - 1 {
        lemma_sum_nonnegative(weights, weights.len() as int);
        assert(draw * total(weights) <= DRAWS * total(weights)) by (nonlinear_arith)
            requires
                0 <= draw < DRAWS,
                0 <= total(weights),
        ;
    } else if !reaches(weights, draw, k) {
        lemma_first_reached(weights, draw, k + 1);
    }
}

/// The chosen item is the first at which the share of the weights scanned so
/// far is at least the draw.
pub proof fn lemma_chosen(weights: Seq<int>, draw: int)
    requires
        weights.len() > 0,
        forall|j: int| 0 <= j < weights.len() ==> 0 <= #[trigger] weights[j],
        0 <= draw < DRAWS,
    ensures
        0 <= chosen(weights, draw) < weights.len(),
        reaches(effective(weights), draw, chosen(weights, draw)),
        forall|j: int| 0 <= j < chosen(weights, draw) ==> !reaches(effective(weights), draw, j),
{
    lemma_effective(weights);
    lemma_first_reached(effective(weights), draw, 0);
}

/// Among items of equal weight the choice is uniform: the draw, as a number
/// below 1, times the number of items lies above the chosen index and not
/// above the next.
pub proof fn lemma_equal_weights_uniform(weights: Seq<int>, draw: int, each: int)
    requires
        weights.len() > 0,
        0 <= each,
        forall|j: int| 0 <= j < weights.len() ==> #[trigger] weights[j] == each,
        0 <= draw < DRAWS,
    ensures
        0 <= chosen(weights, draw) < weights.len(),
        draw * weights.len() <= DRAWS * (chosen(weights, draw) + 1),
        chosen(weights, draw) > 0 ==> DRAWS * chosen(weights, draw) < draw * weights.len(),
{
    let n = weights.len() as int;
    let eff = effective(weights);
    lemma_chosen(weights, draw);
    lemma_effective(weights);
    let k = chosen(weights, draw);
    let unit: int = if total(weights) == 0 { 1 } else { each };
    lemma_sum_of_equal(weights, n, each);
    assert(unit > 0) by {
        if total(weights) != 0 && each == 0 {
            assert(n * 0 == 0);
        }
    }
    assert forall|j: int| 0 <= j < n implies #[trigger] eff[j] == unit by {}
    lemma_sum_of_equal(eff, n, unit);
    lemma_sum_of_equal(eff, k + 1, unit);
    assert(draw * n <= DRAWS * (k + 1)) by (nonlinear_arith)
        requires
            draw * (n * unit) <= DRAWS * ((k + 1) * unit),
            unit > 0,
    ;
    if k > 0 {
        assert(!reaches(eff, draw, k - 1));
        lemma_sum_of_equal(eff, k, unit);
        assert(DRAWS * k < draw * n) by (nonlinear_arith)
            requires
                draw * (n * unit) > DRAWS * (k * unit),
                unit > 0,
        ;
    }
}

/// The index of the item that `draw` chooses among items with these weights;
/// `None` where there is no item.
pub fn weighted_choice(weights: &Vec<u64>, draw: u32) -> (choice: Option<usize>)
    requires
        weights.len() <= MAX_ITEMS,
    ensures
        weights.len() == 0 ==> choice.is_none(),
        weights.len() > 0 ==> choice == Some(chosen(as_ints(weights@), draw as int) as usize),
        weights.len() > 0 ==> 0 <= chosen(as_ints(weights@), draw as int) < weights.len(),
{
    let n: usize = weights.len();
    if n == 0 {
        return None;
    }
    let ghost given = as_ints(weights@);
    let ghost eff = effective(given);
    let mut sum: u128 = 0;
    let mut i: usize = 0;
    while i < n
        invariant
            0 <= i <= n,
            n == weights.len(),
            n <= MAX_ITEMS,
            given == as_ints(weights@),
            sum == sum_upto(given, i as int),
            sum <= i * 0xffff_ffff_ffff_ffff,
        decreases n - i,
    {
        proof {
            assert((i + 1) * 0xffff_ffff_ffff_ffff <= 0x1_0000_0000 * 0xffff_ffff_ffff_ffff)
                by (nonlinear_arith)
                requires
                    i + 1 <= 0x1_0000_0000,
            ;
            assert((i + 1) * 0xffff_ffff_ffff_ffff == i * 0xffff_ffff_ffff_ffff
                + 0xffff_ffff_ffff_ffff) by (nonlinear_arith);
        }
        sum = sum + weights[i] as u128;
        i = i + 1;
    }
    let uniform: bool = sum == 0;
    let all: u128 = if uniform { n as u128 } else { sum };
    proof {
        lemma_effective(given);
        lemma_chosen(given, draw as int);
        assert(all == total(eff));
        assert(n * 0xffff_ffff_ffff_ffff <= 0x1_0000_0000 * 0xffff_ffff_ffff_ffff)
            by (nonlinear_arith)
            requires
                n <= 0x1_0000_0000,
        ;
        assert(draw * all <= 0xffff_ffff * (0x1_0000_0000 * 0xffff_ffff_ffff_ffff))
            by (nonlinear_arith)
            requires
                0 <= draw <= 0xffff_ffff,
                0 <= all <= 0x1_0000_0000 * 0xffff_ffff_ffff_ffff,
        ;
    }
    let goal: u128 = (draw as u128) * all;
    let mut scanned: u128 = 0;
    let mut k: usize = 0;
    while k < n - 1
        invariant
            0 <= k <= n - 1,
            n == weights.len(),
            0 < n <= MAX_ITEMS,
            given == as_ints(weights@),
            eff == effective(given),
            uniform == (total(given) == 0),
            all == total(eff),
            goal == draw * total(eff),
            scanned == sum_upto(eff, k as int),
            eff.len() == n,
            forall|j: int| 0 <= j < n ==> 0 <= #[trigger] eff[j] <= 0xffff_ffff_ffff_ffff,
            first_reached(eff, draw as int, 0) == first_reached(eff, draw as int, k as int),
        decreases n - 1 - k,
    {
        proof {
            lemma_sum_bounds(eff, k as int + 1, 0xffff_ffff_ffff_ffff);
            assert((k + 1) * 0xffff_ffff_ffff_ffff <= 0x1_0000_0000 * 0xffff_ffff_ffff_ffff)
                by (nonlinear_arith)
                requires
                    k + 1 <= 0x1_0000_0000,
            ;
            assert(DRAWS * sum_upto(eff, k as int + 1) <= 0x1_0000_0000 * (0x1_0000_0000
                * 0xffff_ffff_ffff_ffff)) by (nonlinear_arith)
                requires
                    DRAWS == 0x1_0000_0000,
                    0 <= sum_upto(eff, k as int + 1) <= 0x1_0000_0000 * 0xffff_ffff_ffff_ffff,
            ;
        }
        let weight: u64 = if uniform { 1 } else { weights[k] };
        scanned = scanned + weight as u128;
        if goal <= (DRAWS as u128) * scanned {
            return Some(k);
        }
        k = k + 1;
    }
    Some(k)
}

} // verus!
