//! The population: a fixed number of tours kept in ascending order of cost.

use crate::ga::GAConfig;
use crate::permutation::is_permutation;
use crate::permutation::lemma_rearranged_permutation;
use crate::random::new_sampler;
use crate::random::sample_rank;
use crate::random::sampler_weights;
use crate::random::shuffle;
use crate::random::weight_sum;
use crate::ratio::Ratio;
use crate::selection::lemma_weight_list_sum;
use crate::selection::lemma_weights_in_range;
use crate::selection::lemma_weights_sum_to_total;
use crate::selection::rank_weight;
use crate::selection::selection_error;
use crate::selection::selection_weights;
use crate::selection::weight_total;
use crate::selection::ConfigError;
use crate::tsp::Instance;
use crate::tsp::Tour;
use rand::thread_rng;
use vstd::prelude::*;
use vstd::seq_lib::*;

verus! {

/// Whether the tours stand in ascending order of cost.
pub open spec fn sorted_by_cost(s: Seq<Tour>) -> bool {
    forall|i: int, j: int| 0 <= i < j < s.len() ==> s[i].cost <= s[j].cost
}

/// The summed cost of the tours.
pub open spec fn total_cost(s: Seq<Tour>) -> nat
    decreases s.len(),
{
    if s.len() == 0 {
        0
    } else {
        total_cost(s.drop_last()) + s.last().cost as nat
    }
}

/// Whether every one of the tours is a tour of `inst` with its cost computed.
pub open spec fn all_tours(s: Seq<Tour>, inst: Instance) -> bool {
    forall|i: int|
        0 <= i < s.len() ==> {
            &&& (#[trigger] s[i]).is_tour_of(&inst)
            &&& s[i].evaluated(&inst)
        }
}

/// Whether the tours are a population of `size` for `inst`: that many
/// evaluated tours of the instance in ascending order of cost.
pub open spec fn is_generation(s: Seq<Tour>, inst: Instance, size: nat) -> bool {
    &&& s.len() == size
    &&& sorted_by_cost(s)
    &&& all_tours(s, inst)
}

/// Whether `pos` is where a tour of the given cost goes into `s`: behind
/// every tour that costs no more, before every tour that costs more.
pub open spec fn is_insertion_point(s: Seq<Tour>, cost: u64, pos: int) -> bool {
    &&& 0 <= pos <= s.len()
    &&& forall|i: int| 0 <= i < pos ==> (#[trigger] s[i]).cost <= cost
    &&& forall|i: int| pos <= i < s.len() ==> (#[trigger] s[i]).cost > cost
}

/// Whether `after` is what the replacement step makes of the sorted tours
/// `before` and a child: where the child costs less than the worst tour, the
/// worst tour leaves and the child goes in at its insertion point; where it
/// does not, nothing changes.
pub open spec fn is_replacement(before: Seq<Tour>, child: Tour, after: Seq<Tour>) -> bool {
    if child.cost < before.last().cost {
        exists|pos: int| #[trigger]
            is_insertion_point(before.drop_last(), child.cost, pos) && after
                == before.drop_last().insert(pos, child)
    } else {
        after == before
    }
}

/// A sum of tour costs is at most the number of tours times the largest cost.
pub proof fn lemma_total_cost_bound(s: Seq<Tour>)
    ensures
        total_cost(s) <= s.len() * u64::MAX,
    decreases s.len(),
{
    if s.len() > 0 {
        lemma_total_cost_bound(s.drop_last());
        assert((s.len() - 1) * u64::MAX + u64::MAX == s.len() * u64::MAX) by (nonlinear_arith);
    }
}

/// Putting a tour into a list raises the summed cost by the cost of the tour.
pub proof fn lemma_total_cost_insert(s: Seq<Tour>, pos: int, t: Tour)
    requires
        0 <= pos <= s.len(),
    ensures
        total_cost(s.insert(pos, t)) == total_cost(s) + t.cost,
    decreases s.len(),
{
    let grown = s.insert(pos, t);
    if pos == s.len() {
        assert(grown.drop_last() =~= s);
    } else {
        assert(grown.drop_last() =~= s.drop_last().insert(pos, t));
        lemma_total_cost_insert(s.drop_last(), pos, t);
    }
}

/// Putting a tour in at its insertion point keeps a sorted list sorted.
pub proof fn lemma_insert_keeps_sorted(s: Seq<Tour>, pos: int, t: Tour)
    requires
        sorted_by_cost(s),
        is_insertion_point(s, t.cost, pos),
    ensures
        sorted_by_cost(s.insert(pos, t)),
{
    let grown = s.insert(pos, t);
    assert forall|i: int, j: int| 0 <= i < j < grown.len() implies grown[i].cost
        <= grown[j].cost by {
        let a = if i < pos {
            i
        } else {
            i - 1
        };
        let b = if j < pos {
            j
        } else {
            j - 1
        };
        if i != pos && j != pos {
            assert(grown[i] == s[a] && grown[j] == s[b]);
        } else if i == pos {
            assert(grown[j] == s[b]);
        } else {
            assert(grown[i] == s[a]);
        }
    }
}

/// After a replacement every individual is the child or was there before,
/// and the best individual costs no more than the best one before.
pub proof fn lemma_replacement(before: Seq<Tour>, child: Tour, after: Seq<Tour>)
    requires
        before.len() > 0,
        is_replacement(before, child, after),
    ensures
        after.len() == before.len(),
        forall|i: int|
            0 <= i < after.len() ==> #[trigger] after[i] == child || before.contains(after[i]),
        after[0].cost <= before[0].cost,
        total_cost(after) == if child.cost < before.last().cost {
            total_cost(before) - before.last().cost + child.cost
        } else {
            total_cost(before) as int
        },
{
    if child.cost < before.last().cost {
        let rest = before.drop_last();
        let pos = choose|pos: int| #[trigger]
            is_insertion_point(rest, child.cost, pos) && after == rest.insert(pos, child);
        assert forall|i: int| 0 <= i < after.len() implies #[trigger] after[i] == child
            || before.contains(after[i]) by {
            if i < pos {
                assert(after[i] == before[i]);
            } else if i > pos {
                assert(after[i] == before[i - 1]);
            }
        }
        if pos == 0 {
            if rest.len() > 0 {
                assert(rest[0].cost > child.cost);
            }
        } else {
            assert(after[0] == before[0]);
        }
        lemma_total_cost_insert(rest, pos, child);
    } else {
        assert forall|i: int| 0 <= i < after.len() implies #[trigger] after[i] == child
            || before.contains(after[i]) by {
            assert(after[i] == before[i]);
        }
    }
}

/// A rearrangement of evaluated tours of an instance is again one, of the
/// same length.
pub proof fn lemma_same_tours(before: Seq<Tour>, after: Seq<Tour>, inst: Instance)
    requires
        all_tours(before, inst),
        after.to_multiset() == before.to_multiset(),
    ensures
        all_tours(after, inst),
        after.len() == before.len(),
{
    broadcast use to_multiset_contains;

    to_multiset_len(before);
    to_multiset_len(after);
    assert forall|i: int| 0 <= i < after.len() implies {
        &&& (#[trigger] after[i]).is_tour_of(&inst)
        &&& after[i].evaluated(&inst)
    } by {
        let t = after[i];
        assert(after.contains(t));
        assert(after.to_multiset().count(t) > 0);
        assert(before.contains(t));
    }
}

/// Finds the insertion point of a cost in a sorted list by bisection.
pub fn insertion_point(tours: &Vec<Tour>, cost: u64) -> (pos: usize)
    requires
        sorted_by_cost(tours@),
    ensures
        is_insertion_point(tours@, cost, pos as int),
{
    let mut lo: usize = 0;
    let mut hi: usize = tours.len();
    while lo < hi
        invariant
            sorted_by_cost(tours@),
            lo <= hi <= tours@.len(),
            forall|i: int| 0 <= i < lo ==> (#[trigger] tours@[i]).cost <= cost,
            forall|i: int| hi <= i < tours@.len() ==> (#[trigger] tours@[i]).cost > cost,
        decreases hi - lo,
    {
        let mid: usize = lo + (hi - lo) / 2;
        if tours[mid].cost <= cost {
            lo = mid + 1;
        } else {
            hi = mid;
        }
    }
    lo
}

/// The cities `0..n` in ascending order.
fn identity_tour(n: usize) -> (cities: Vec<usize>)
    ensures
        cities@.len() == n,
        forall|i: int| 0 <= i < n ==> cities@[i] == i,
        is_permutation(cities@),
{
    let mut cities: Vec<usize> = Vec::new();
    let mut i: usize = 0;
    while i < n
        invariant
            i <= n,
            cities@.len() == i,
            forall|k: int| 0 <= k < i ==> cities@[k] == k,
        decreases n - i,
    {
        cities.push(i);
        i += 1;
    }
    cities
}

/// The tours of one generation.
#[derive(Debug)]
pub struct Population {
    pub individuals: Vec<Tour>,
}

impl Population {
    /// The individuals stand in ascending order of cost.
    pub open spec fn sorted(&self) -> bool {
        sorted_by_cost(self.individuals@)
    }

    /// Every individual is a tour of `inst` with its cost computed.
    pub open spec fn all_tours_of(&self, inst: &Instance) -> bool {
        all_tours(self.individuals@, *inst)
    }

    /// A population of `config.population_size` tours, each a random
    /// permutation of the cities of `instance` with its cost computed, in
    /// ascending order of cost.
    pub fn new_random(instance: &Instance, config: &GAConfig) -> (p: Population)
        requires
            instance.wf(),
        ensures
            is_generation(p.individuals@, *instance, config.population_size as nat),
    {
        let mut rng = thread_rng();
        let mut inds: Vec<Tour> = Vec::with_capacity(config.population_size);
        let mut k: usize = 0;
        while k < config.population_size
            invariant
                instance.wf(),
                k <= config.population_size,
                inds@.len() == k,
                all_tours(inds@, *instance),
            decreases config.population_size - k,
        {
            let mut tour = Tour { cities: identity_tour(instance.num_cities), cost: 0 };
            let ghost ordered = tour.cities@;
            shuffle(&mut rng, &mut tour.cities);
            proof {
                lemma_rearranged_permutation(ordered, tour.cities@);
            }
            tour.calculate_cost(instance);
            inds.push(tour);
            k += 1;
        }
        let mut population = Population { individuals: inds };
        let ghost drawn = population.individuals@;
        population.sort_by_cost();
        proof {
            lemma_same_tours(drawn, population.individuals@, *instance);
        }
        population
    }

    /// Sorts the individuals by ascending cost.
    pub fn sort_by_cost(&mut self)
        ensures
            final(self).sorted(),
            final(self).individuals@.to_multiset() == old(self).individuals@.to_multiset(),
    {
        let mut sorted: Vec<Tour> = Vec::with_capacity(self.individuals.len());
        proof {
            broadcast use {vstd::multiset::group_multiset_axioms, to_multiset_contains};

            assert(sorted@.to_multiset().add(self.individuals@.to_multiset())
                =~= self.individuals@.to_multiset());
        }
        while self.individuals.len() > 0
            invariant
                sorted_by_cost(sorted@),
                sorted@.to_multiset().add(self.individuals@.to_multiset())
                    == old(self).individuals@.to_multiset(),
            decreases self.individuals@.len(),
        {
            let ghost rest = self.individuals@;
            let ghost done = sorted@;
            let tour: Tour = self.individuals.pop().unwrap();
            let pos: usize = insertion_point(&sorted, tour.cost);
            sorted.insert(pos, tour);
            proof {
                broadcast use vstd::multiset::group_multiset_axioms;

                lemma_insert_keeps_sorted(done, pos as int, tour);
                to_multiset_insert(done, pos as int, tour);
                assert(rest =~= self.individuals@.push(tour));
                to_multiset_build(self.individuals@, tour);
                assert(sorted@.to_multiset().add(self.individuals@.to_multiset())
                    =~= done.to_multiset().add(rest.to_multiset()));
            }
        }
        proof {
            broadcast use {vstd::multiset::group_multiset_axioms, to_multiset_contains};

            assert(sorted@.to_multiset().add(self.individuals@.to_multiset())
                =~= sorted@.to_multiset());
        }
        self.individuals = sorted;
    }

    /// Selects one individual by linear ranking under the pressure `b`: an
    /// individual whose rank has a positive weight, drawn with a probability
    /// in proportion to that weight. Each call draws afresh.
    pub fn ranked_select(&self, b: Ratio) -> (r: Result<&Tour, ConfigError>)
        ensures
            match r {
                Ok(tour) => {
                    &&& selection_error(self.individuals@.len(), b) is None
                    &&& exists|i: int|
                        0 <= i < self.individuals@.len() && rank_weight(
                            self.individuals@.len(),
                            b,
                            i as nat,
                        ) > 0 && *tour == #[trigger] self.individuals@[i]
                },
                Err(e) => selection_error(self.individuals@.len(), b) == Some(e),
            },
    {
        let n: usize = self.individuals.len();
        let weights: Vec<u128> = match selection_weights(n, b) {
            Ok(weights) => weights,
            Err(e) => {
                return Err(e);
            },
        };
        proof {
            lemma_weight_list_sum(weights@, n as nat, b, n as nat);
            lemma_weights_sum_to_total(n as nat, b);
            assert(weights@.take(n as int) =~= weights@);
            assert(weight_sum(weights@) == weight_total(n as nat, b));
            assert(n * (n - 1) * b.denominator <= 0xFFFF_FFFF * 0xFFFF_FFFF * 0xFFFF_FFFF)
                by (nonlinear_arith)
                requires
                    0 <= n <= 0xFFFF_FFFF,
                    0 <= b.denominator <= 0xFFFF_FFFF,
            ;
            if n >= 2 {
                lemma_weights_in_range(n as nat, b, 0);
            }
            if n == 1 {
                assert(weight_total(n as nat, b) == 0) by (nonlinear_arith)
                    requires
                        n == 1,
                        weight_total(n as nat, b) == n * (n - 1) * b.denominator,
                ;
            }
        }
        match new_sampler(&weights) {
            Ok(sampler) => {
                let mut rng = thread_rng();
                let i: usize = sample_rank(&mut rng, &sampler);
                proof {
                    assert(sampler_weights(sampler)[i as int] == rank_weight(
                        n as nat,
                        b,
                        i as nat,
                    ));
                }
                Ok(&self.individuals[i])
            },
            // With weights in hand the sampler fails only for want of a positive
            // one, which is the case below two individuals.
            Err(_) => Err(ConfigError::PopulationTooSmall),
        }
    }

    /// The replacement step: where `child` costs less than the worst
    /// individual, the worst one leaves and `child` goes in at its
    /// insertion point, which is returned; else nothing changes.
    pub fn replace_worst(&mut self, child: Tour) -> (r: Option<usize>)
        requires
            old(self).sorted(),
            old(self).individuals@.len() > 0,
        ensures
            final(self).sorted(),
            final(self).individuals@.len() == old(self).individuals@.len(),
            is_replacement(old(self).individuals@, child, final(self).individuals@),
            match r {
                Some(pos) => {
                    &&& child.cost < old(self).individuals@.last().cost
                    &&& is_insertion_point(
                        old(self).individuals@.drop_last(),
                        child.cost,
                        pos as int,
                    )
                    &&& final(self).individuals@ == old(self).individuals@.drop_last().insert(
                        pos as int,
                        child,
                    )
                },
                None => {
                    &&& child.cost >= old(self).individuals@.last().cost
                    &&& final(self).individuals@ == old(self).individuals@
                },
            },
    {
        let n: usize = self.individuals.len();
        if child.cost < self.individuals[n - 1].cost {
            self.individuals.pop();
            proof {
                assert(self.individuals@ =~= old(self).individuals@.drop_last());
            }
            let pos: usize = insertion_point(&self.individuals, child.cost);
            proof {
                lemma_insert_keeps_sorted(self.individuals@, pos as int, child);
            }
            self.individuals.insert(pos, child);
            Some(pos)
        } else {
            None
        }
    }

    /// The summed cost of the individuals.
    pub fn cost_sum(&self) -> (sum: u128)
        ensures
            sum == total_cost(self.individuals@),
    {
        let n: usize = self.individuals.len();
        let mut sum: u128 = 0;
        let mut i: usize = 0;
        while i < n
            invariant
                n == self.individuals@.len(),
                i <= n,
                sum == total_cost(self.individuals@.take(i as int)),
            decreases n - i,
        {
            proof {
                lemma_total_cost_bound(self.individuals@.take(i as int));
                assert(i * u64::MAX + u64::MAX <= u128::MAX) by (nonlinear_arith)
                    requires
                        i <= u64::MAX,
                ;
                assert(self.individuals@.take(i + 1).drop_last() =~= self.individuals@.take(
                    i as int,
                ));
            }
            sum = sum + self.individuals[i].cost as u128;
            i += 1;
        }
        proof {
            assert(self.individuals@.take(n as int) =~= self.individuals@);
        }
        sum
    }
}

} // verus!
