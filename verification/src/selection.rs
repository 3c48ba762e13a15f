//! Linear ranking selection.
//!
//! In a population of `n` tours sorted by cost, rank 0 the best, the tour
//! of rank `r` is selected with probability
//! `(1/n) * (b - 2 * (b - 1) * r / (n - 1))`, where `b` is the selective
//! pressure. With `b` the ratio `num / den` this is the whole number
//! [`rank_weight`] over the total [`weight_total`]:
//! `(num * (n - 1) - 2 * (num - den) * r) / (n * (n - 1) * den)`.

use crate::random::weight_sum;
use crate::ratio::Ratio;
use vstd::prelude::*;

verus! {

/// The largest population that ranked selection serves: up to this size the
/// weights and their total fit in a `u128`.
pub const MAX_POPULATION: usize = 0xFFFF_FFFF;

/// The reasons for which a configuration is refused.
#[derive(Clone, Copy, Debug, PartialEq, Eq, Structural)]
pub enum ConfigError {
    /// Fewer than two individuals: no rank has a positive weight.
    PopulationTooSmall,
    /// More individuals than [`MAX_POPULATION`].
    PopulationTooLarge,
    /// The selective pressure lies outside the range from one to two.
    PressureOutOfRange,
    /// The mutation rate lies outside the range from zero to one.
    MutationRateOutOfRange,
}

/// The weight of rank `rank` among `n` ranks under the pressure `b`.
pub open spec fn rank_weight(n: nat, b: Ratio, rank: nat) -> int {
    b.numerator * (n - 1) - 2 * (b.numerator - b.denominator) * rank
}

/// The total that the weights of all `n` ranks come to.
pub open spec fn weight_total(n: nat, b: Ratio) -> int {
    n * (n - 1) * b.denominator
}

/// The summed weights of the first `k` ranks.
pub open spec fn rank_weight_sum(n: nat, b: Ratio, k: nat) -> int
    decreases k,
{
    if k == 0 {
        0
    } else {
        rank_weight_sum(n, b, (k - 1) as nat) + rank_weight(n, b, (k - 1) as nat)
    }
}

/// Why no weights can be made for `n` ranks under the pressure `b`, if
/// anything stands in the way.
pub open spec fn weights_error(n: nat, b: Ratio) -> Option<ConfigError> {
    if n > MAX_POPULATION {
        Some(ConfigError::PopulationTooLarge)
    } else if !b.is_pressure() {
        Some(ConfigError::PressureOutOfRange)
    } else {
        None
    }
}

/// Why no individual can be selected from a population of `n` under the
/// pressure `b`, if anything stands in the way.
pub open spec fn selection_error(n: nat, b: Ratio) -> Option<ConfigError> {
    if weights_error(n, b) is Some {
        weights_error(n, b)
    } else if n < 2 {
        Some(ConfigError::PopulationTooSmall)
    } else {
        None
    }
}

/// The first `k` weights sum to `k * num * (n - 1) - (num - den) * k * (k - 1)`.
pub proof fn lemma_rank_weight_sum(n: nat, b: Ratio, k: nat)
    ensures
        rank_weight_sum(n, b, k) == k * (b.numerator * (n - 1)) - (b.numerator - b.denominator) * (k
            * (k - 1)),
    decreases k,
{
    let top: int = b.numerator * (n - 1);
    let gap: int = b.numerator - b.denominator;
    let k0: int = k as int;
    if k == 0 {
        assert(k0 * top - gap * (k0 * (k0 - 1)) == 0) by (nonlinear_arith)
            requires
                k0 == 0,
        ;
    } else {
        lemma_rank_weight_sum(n, b, (k - 1) as nat);
        let j: int = k - 1;
        assert(rank_weight_sum(n, b, j as nat) == j * top - gap * (j * (j - 1)));
        assert(rank_weight(n, b, j as nat) == top - 2 * gap * j);
        assert(j * top - gap * (j * (j - 1)) + (top - 2 * gap * j) == k0 * top - gap * (k0 * (k0
            - 1))) by (nonlinear_arith)
            requires
                j == k0 - 1,
        ;
    }
}

/// The weights of all ranks sum to the total, whatever the pressure: the
/// selection probabilities sum to one.
pub proof fn lemma_weights_sum_to_total(n: nat, b: Ratio)
    ensures
        rank_weight_sum(n, b, n) == weight_total(n, b),
{
    lemma_rank_weight_sum(n, b, n);
    let num = b.numerator as int;
    let den = b.denominator as int;
    assert(n * (num * (n - 1)) - (num - den) * (n * (n - 1)) == n * (n - 1) * den)
        by (nonlinear_arith);
}

/// Under a pressure between one and two no rank has a negative weight, the
/// best rank has a positive one, and so has the total.
pub proof fn lemma_weights_in_range(n: nat, b: Ratio, rank: nat)
    requires
        n >= 2,
        b.is_pressure(),
        rank < n,
    ensures
        0 <= rank_weight(n, b, rank) <= b.numerator * (n - 1),
        rank_weight(n, b, 0) > 0,
        weight_total(n, b) > 0,
{
    let num = b.numerator as int;
    let den = b.denominator as int;
    assert(0 <= num * (n - 1) - 2 * (num - den) * rank <= num * (n - 1)) by (nonlinear_arith)
        requires
            0 < den <= num <= 2 * den,
            0 <= rank <= n - 1,
    ;
    assert(num * (n - 1) - 2 * (num - den) * 0 > 0) by (nonlinear_arith)
        requires
            0 < num,
            n >= 2,
    ;
    assert(n * (n - 1) * den > 0) by (nonlinear_arith)
        requires
            n >= 2,
            den > 0,
    ;
}

/// Under a pressure above two the worst rank has a negative weight.
pub proof fn lemma_pressure_above_two(n: nat, b: Ratio)
    requires
        n >= 2,
        b.numerator > 2 * b.denominator,
    ensures
        rank_weight(n, b, (n - 1) as nat) < 0,
{
    let num = b.numerator as int;
    let den = b.denominator as int;
    assert(num * (n - 1) - 2 * (num - den) * (n - 1) < 0) by (nonlinear_arith)
        requires
            num > 2 * den,
            den >= 0,
            n >= 2,
    ;
}

/// A list of the weights of all ranks sums to the total.
pub proof fn lemma_weight_list_sum(weights: Seq<u128>, n: nat, b: Ratio, k: nat)
    requires
        k <= weights.len(),
        forall|i: int| 0 <= i < k ==> weights[i] == rank_weight(n, b, i as nat),
    ensures
        weight_sum(weights.take(k as int)) == rank_weight_sum(n, b, k),
    decreases k,
{
    if k > 0 {
        lemma_weight_list_sum(weights, n, b, (k - 1) as nat);
        assert(weights.take(k as int).drop_last() =~= weights.take(k - 1));
    }
}

/// The selection weights of the ranks `0..n` under the pressure `b`, or the
/// reason why there are none.
pub fn selection_weights(n: usize, b: Ratio) -> (r: Result<Vec<u128>, ConfigError>)
    ensures
        match r {
            Ok(weights) => {
                &&& weights_error(n as nat, b) is None
                &&& weights@.len() == n
                &&& forall|i: int| 0 <= i < n ==> weights@[i] == rank_weight(n as nat, b, i as nat)
            },
            Err(e) => weights_error(n as nat, b) == Some(e),
        },
{
    if n > MAX_POPULATION {
        return Err(ConfigError::PopulationTooLarge);
    }
    if !b.in_pressure_range() {
        return Err(ConfigError::PressureOutOfRange);
    }
    let mut weights: Vec<u128> = Vec::new();
    if n == 0 {
        return Ok(weights);
    }
    let num: u128 = b.numerator as u128;
    let gap: u128 = (b.numerator - b.denominator) as u128;
    let ranks: u128 = (n - 1) as u128;
    assert(num * ranks <= 0xFFFF_FFFF * 0xFFFF_FFFF) by (nonlinear_arith)
        requires
            num <= 0xFFFF_FFFF,
            ranks <= 0xFFFF_FFFF,
    ;
    let top: u128 = num * ranks;
    let slope: u128 = 2 * gap;
    let mut rank: usize = 0;
    while rank < n
        invariant
            0 < n <= MAX_POPULATION,
            b.is_pressure(),
            num == b.numerator,
            gap == b.numerator - b.denominator,
            ranks == n - 1,
            top == num * ranks,
            slope == 2 * gap,
            rank <= n,
            weights@.len() == rank,
            forall|i: int| 0 <= i < rank ==> weights@[i] == rank_weight(n as nat, b, i as nat),
        decreases n - rank,
    {
        assert(slope * rank <= top && top - slope * rank == rank_weight(n as nat, b, rank as nat))
            by (nonlinear_arith)
            requires
                slope == 2 * gap,
                top == num * ranks,
                gap == b.numerator - b.denominator,
                num == b.numerator,
                ranks == n - 1,
                0 < b.denominator <= b.numerator <= 2 * b.denominator,
                0 <= rank <= n - 1,
        ;
        weights.push(top - slope * (rank as u128));
        rank += 1;
    }
    Ok(weights)
}

} // verus!
