//! The steady-state search: breed one child per step, let it replace the
//! worst individual if it is better, and stop on stagnation or when the
//! evaluations are used up.

use crate::operators::edge_recombination_crossover;
use crate::operators::insertion_mutation;
use crate::operators::is_mutation_of;
use crate::operators::is_recombination;
use crate::permutation::lemma_rearranged_permutation;
use crate::population::all_tours;
use crate::population::is_generation;
use crate::population::is_replacement;
use crate::population::lemma_replacement;
use crate::population::sorted_by_cost;
use crate::population::total_cost;
use crate::population::Population;
use crate::ratio::Ratio;
use crate::selection::rank_weight;
use crate::selection::weights_error;
use crate::selection::ConfigError;
use crate::selection::MAX_POPULATION;
use crate::tsp::is_flat;
use crate::tsp::lemma_flat_costs;
use crate::tsp::lemma_small_instance_flat;
use crate::tsp::Instance;
use crate::tsp::Tour;
use vstd::prelude::*;
use vstd::seq_lib::*;

verus! {

/// The parameters of a search.
#[derive(Clone, Copy, Debug)]
pub struct GAConfig {
    /// The number of individuals, the same throughout the search.
    pub population_size: usize,
    /// The probability with which a child undergoes one displacement.
    pub mutation_rate: Ratio,
    /// The slope of linear ranking, between one and two.
    pub selective_pressure: Ratio,
    /// The cap on cost evaluations; the first population counts.
    pub max_evaluations: usize,
    /// The number of steps in a row without a lower mean cost that ends the
    /// search.
    pub stagnation_limit: usize,
}

/// Why a search came to its end.
#[derive(Clone, Copy, Debug, PartialEq, Eq, Structural)]
pub enum StopReason {
    /// The mean cost did not fall for `stagnation_limit` steps in a row.
    Stagnation,
    /// The number of evaluations reached `max_evaluations`.
    EvaluationsExhausted,
}

/// Why a configuration is refused, if it is. A population of one is too
/// small only where a step would be taken, since a step selects by rank; an
/// empty population is always too small.
pub open spec fn config_error(config: GAConfig) -> Option<ConfigError> {
    if weights_error(config.population_size as nat, config.selective_pressure) is Some {
        weights_error(config.population_size as nat, config.selective_pressure)
    } else if config.population_size == 0 || (config.population_size < 2
        && config.population_size < config.max_evaluations) {
        Some(ConfigError::PopulationTooSmall)
    } else if !config.mutation_rate.is_probability() {
        Some(ConfigError::MutationRateOutOfRange)
    } else {
        None
    }
}

/// What the termination checks say after a step: stagnation is looked at
/// first, the evaluation count second.
pub open spec fn verdict(stagnation: nat, evaluations: nat, config: GAConfig) -> Option<
    StopReason,
> {
    if stagnation >= config.stagnation_limit {
        Some(StopReason::Stagnation)
    } else if evaluations >= config.max_evaluations {
        Some(StopReason::EvaluationsExhausted)
    } else {
        None
    }
}

/// Whether a search under `config` can end with this count of evaluations
/// for this reason. The count never falls below the population size and
/// never passes `max_evaluations` unless the first population alone does.
/// A search stopped by stagnation took at least `stagnation_limit` steps and
/// at least one; one stopped by the evaluation cap reached it. With a
/// stagnation limit of zero the search ends after its first step.
pub open spec fn is_final_count(evaluations: nat, reason: StopReason, config: GAConfig) -> bool {
    &&& config.population_size <= evaluations
    &&& evaluations <= config.max_evaluations || evaluations == config.population_size
    &&& match reason {
        StopReason::Stagnation => evaluations > config.population_size && config.stagnation_limit
            <= evaluations - config.population_size,
        StopReason::EvaluationsExhausted => evaluations >= config.max_evaluations,
    }
    &&& config.stagnation_limit == 0 && config.max_evaluations > config.population_size
        ==> evaluations == config.population_size + 1 && reason == StopReason::Stagnation
}

/// The count and the reason with which a search ends on an instance whose
/// tours all cost the same. There every step is stagnant, so a search that
/// takes a step under a positive stagnation limit stops by stagnation after
/// `stagnation_limit` steps where the evaluation cap leaves room for them,
/// and at the cap where it does not.
pub open spec fn is_flat_final_count(
    evaluations: nat,
    reason: StopReason,
    config: GAConfig,
) -> bool {
    config.population_size < config.max_evaluations && config.stagnation_limit > 0 ==> {
        if config.stagnation_limit <= config.max_evaluations - config.population_size {
            &&& reason == StopReason::Stagnation
            &&& evaluations == config.population_size + config.stagnation_limit
        } else {
            &&& reason == StopReason::EvaluationsExhausted
            &&& evaluations == config.max_evaluations
        }
    }
}

/// Whether the cities `child` come of the parents `p1` and `p2` by way of
/// `bred`: `bred` is an edge recombination of the parents, and `child` is
/// what displacement mutation can make of `bred`.
pub open spec fn is_bred(
    p1: Seq<usize>,
    p2: Seq<usize>,
    bred: Seq<usize>,
    child: Seq<usize>,
) -> bool {
    is_recombination(p1, p2, bred) && is_mutation_of(bred, child)
}

/// Whether the cities `child` can be bred from the population `parents`
/// under `config`: both parents are individuals whose rank has a positive
/// selection weight; they may be one and the same.
pub open spec fn is_offspring(parents: Seq<Tour>, config: GAConfig, child: Seq<usize>) -> bool {
    exists|a: int, b: int, bred: Seq<usize>|
        {
            &&& 0 <= a < parents.len()
            &&& 0 <= b < parents.len()
            &&& rank_weight(parents.len(), config.selective_pressure, a as nat) > 0
            &&& rank_weight(parents.len(), config.selective_pressure, b as nat) > 0
            &&& #[trigger] is_bred(parents[a].cities@, parents[b].cities@, bred, child)
        }
}

/// Whether `after` can follow `before` as the population of a search on
/// `inst` under `config`: a child was bred from `before`, its cost was
/// computed, and the replacement step made `after` of it and `before`.
pub open spec fn is_step(
    before: Seq<Tour>,
    after: Seq<Tour>,
    inst: Instance,
    config: GAConfig,
) -> bool {
    exists|child: Tour|
        {
            &&& child.is_tour_of(&inst)
            &&& child.evaluated(&inst)
            &&& is_offspring(before, config, child.cities@)
            &&& #[trigger] is_replacement(before, child, after)
        }
}

/// Whether `history` can be the populations of a search on `inst` under
/// `config`: the first population and then the population after every step,
/// each one sorted and of the configured size, each one made of the one
/// before by a step.
pub open spec fn is_history(history: Seq<Seq<Tour>>, inst: Instance, config: GAConfig) -> bool {
    &&& history.len() > 0
    &&& forall|k: int|
        0 <= k < history.len() ==> is_generation(
            #[trigger] history[k],
            inst,
            config.population_size as nat,
        )
    &&& forall|k: int|
        1 <= k < history.len() ==> is_step(history[k - 1], #[trigger] history[k], inst, config)
}

/// The number of steps at the end of `history` in which the summed cost of
/// the population, and so its mean cost, did not fall.
pub open spec fn stagnant_steps(history: Seq<Seq<Tour>>) -> nat
    decreases history.len(),
{
    if history.len() <= 1 {
        0
    } else if total_cost(history.last()) >= total_cost(history[history.len() - 2]) {
        stagnant_steps(history.drop_last()) + 1
    } else {
        0
    }
}

/// What the termination checks say after step `k` of `history`.
pub open spec fn verdict_after(history: Seq<Seq<Tour>>, k: int, config: GAConfig) -> Option<
    StopReason,
> {
    verdict(stagnant_steps(history.take(k + 1)), (config.population_size + k) as nat, config)
}

/// Whether a search under `config` that went through `history` ends there
/// for `reason`. A search without a step ends at the loop guard: the first
/// population alone reaches the evaluation cap. Else the cap left room for
/// the first step, the termination checks let the search go on after every
/// step but the last, and after the last they gave `reason`.
pub open spec fn is_run(history: Seq<Seq<Tour>>, reason: StopReason, config: GAConfig) -> bool {
    &&& forall|k: int|
        1 <= k < history.len() - 1 ==> (#[trigger] verdict_after(history, k, config)) is None
    &&& if history.len() <= 1 {
        config.max_evaluations <= config.population_size && reason
            == StopReason::EvaluationsExhausted
    } else {
        config.population_size < config.max_evaluations && verdict_after(
            history,
            history.len() - 1,
            config,
        ) == Some(reason)
    }
}

/// The sort invariant: every population of a history holds the configured
/// number of tours in ascending order of cost.
pub proof fn lemma_history_sorted(
    history: Seq<Seq<Tour>>,
    inst: Instance,
    config: GAConfig,
    k: int,
)
    requires
        is_history(history, inst, config),
        0 <= k < history.len(),
    ensures
        history[k].len() == config.population_size,
        forall|i: int, j: int|
            0 <= i < j < config.population_size ==> history[k][i].cost <= history[k][j].cost,
{
    assert(is_generation(history[k], inst, config.population_size as nat));
}

/// The best cost never rises: in a history, the best individual of a later
/// population costs no more than the best individual of an earlier one.
pub proof fn lemma_best_never_rises(
    history: Seq<Seq<Tour>>,
    inst: Instance,
    config: GAConfig,
    j: int,
    k: int,
)
    requires
        is_history(history, inst, config),
        config.population_size > 0,
        0 <= j <= k < history.len(),
    ensures
        history[k][0].cost <= history[j][0].cost,
    decreases k - j,
{
    if j < k {
        lemma_best_never_rises(history, inst, config, j, k - 1);
        assert(is_step(history[k - 1], history[k], inst, config));
        let child = choose|child: Tour|
            {
                &&& child.is_tour_of(&inst)
                &&& child.evaluated(&inst)
                &&& is_offspring(history[k - 1], config, child.cities@)
                &&& #[trigger] is_replacement(history[k - 1], child, history[k])
            };
        assert(is_generation(history[k - 1], inst, config.population_size as nat));
        lemma_replacement(history[k - 1], child, history[k]);
    }
}

/// Taking a step extends a history by the new population; the verdicts
/// after the earlier steps stay what they were.
pub proof fn lemma_history_push(history: Seq<Seq<Tour>>, next: Seq<Tour>, config: GAConfig)
    requires
        history.len() > 0,
    ensures
        forall|k: int|
            0 <= k < history.len() ==> #[trigger] verdict_after(history.push(next), k, config)
                == verdict_after(history, k, config),
        stagnant_steps(history.push(next)) == if total_cost(next) >= total_cost(history.last()) {
            stagnant_steps(history) + 1
        } else {
            0
        },
        verdict_after(history.push(next), history.len() as int, config) == verdict(
            stagnant_steps(history.push(next)),
            (config.population_size + history.len()) as nat,
            config,
        ),
{
    let grown = history.push(next);
    assert(grown.drop_last() =~= history);
    assert(grown.take(history.len() as int + 1) =~= grown);
    assert forall|k: int| 0 <= k < history.len() implies #[trigger] verdict_after(grown, k, config)
        == verdict_after(history, k, config) by {
        assert(grown.take(k + 1) =~= history.take(k + 1));
    }
}

/// A step extends a history: the population that the replacement step makes
/// of the last population and an evaluated child bred from it is again a
/// population of the instance.
pub proof fn lemma_history_step(
    history: Seq<Seq<Tour>>,
    child: Tour,
    next: Seq<Tour>,
    inst: Instance,
    config: GAConfig,
)
    requires
        is_history(history, inst, config),
        config.population_size > 0,
        child.is_tour_of(&inst),
        child.evaluated(&inst),
        is_offspring(history.last(), config, child.cities@),
        is_replacement(history.last(), child, next),
        sorted_by_cost(next),
    ensures
        is_history(history.push(next), inst, config),
{
    let size = config.population_size as nat;
    let before = history.last();
    let grown = history.push(next);
    assert(is_generation(before, inst, size));
    lemma_replacement(before, child, next);
    assert(all_tours(next, inst)) by {
        assert forall|i: int| 0 <= i < next.len() implies {
            &&& (#[trigger] next[i]).is_tour_of(&inst)
            &&& next[i].evaluated(&inst)
        } by {
            let t = next[i];
            if t != child {
                let j = choose|j: int| 0 <= j < before.len() && before[j] == t;
                assert(before[j].is_tour_of(&inst));
            }
        }
    }
    assert(is_step(before, next, inst, config));
    assert forall|k: int| 0 <= k < grown.len() implies is_generation(
        #[trigger] grown[k],
        inst,
        size,
    ) by {
        if k < history.len() {
            assert(grown[k] == history[k]);
        }
    }
    assert forall|k: int| 1 <= k < grown.len() implies is_step(
        grown[k - 1],
        #[trigger] grown[k],
        inst,
        config,
    ) by {
        if k < history.len() {
            assert(grown[k] == history[k]);
            assert(grown[k - 1] == history[k - 1]);
        }
    }
}

impl GAConfig {
    /// Checks the configuration: a population of at most [`MAX_POPULATION`]
    /// individuals, a pressure between one and two, a mutation rate between
    /// zero and one, and at least two individuals where a step will be taken,
    /// at least one where none will.
    pub fn validate(&self) -> (r: Result<(), ConfigError>)
        ensures
            match r {
                Ok(_) => config_error(*self) is None,
                Err(e) => config_error(*self) == Some(e),
            },
    {
        if self.population_size > MAX_POPULATION {
            Err(ConfigError::PopulationTooLarge)
        } else if !self.selective_pressure.in_pressure_range() {
            Err(ConfigError::PressureOutOfRange)
        } else if self.population_size == 0 || (self.population_size < 2 && self.population_size
            < self.max_evaluations) {
            Err(ConfigError::PopulationTooSmall)
        } else if !self.mutation_rate.in_unit_interval() {
            Err(ConfigError::MutationRateOutOfRange)
        } else {
            Ok(())
        }
    }
}

/// The state of a search between two steps.
#[derive(Debug)]
pub struct SearchState {
    /// The current population, sorted by cost.
    pub population: Population,
    /// The best tour seen so far.
    pub best: Tour,
    /// The number of cost evaluations so far.
    pub evaluations: usize,
    /// The summed cost of the population after the last step. The size of
    /// the population never changes, so the mean cost falls exactly when
    /// this sum falls.
    pub last_total: u128,
    /// The number of steps in a row in which the mean cost did not fall.
    pub stagnation: usize,
}

impl SearchState {
    /// The population is sorted and not empty, the tracked best is a copy
    /// of the best individual, the stored sum is that of the population, and
    /// every step counted as stagnant was counted as an evaluation.
    pub open spec fn wf(&self) -> bool {
        &&& self.population.individuals@.len() > 0
        &&& self.population.sorted()
        &&& self.best.cities@ == self.population.individuals@[0].cities@
        &&& self.best.cost == self.population.individuals@[0].cost
        &&& self.last_total == total_cost(self.population.individuals@)
        &&& self.stagnation + self.population.individuals@.len() <= self.evaluations
    }

    /// The state before the first step: the best individual is the tracked
    /// best, and the first population counts as one evaluation each.
    pub fn start(population: Population) -> (s: SearchState)
        requires
            population.sorted(),
            population.individuals@.len() > 0,
        ensures
            s.wf(),
            s.population == population,
            s.evaluations == population.individuals@.len(),
            s.stagnation == 0,
    {
        let best: Tour = population.individuals[0].clone();
        let evaluations: usize = population.individuals.len();
        let last_total: u128 = population.cost_sum();
        SearchState { population, best, evaluations, last_total, stagnation: 0 }
    }

    /// Takes an evaluated child into the search: counts its evaluation, lets
    /// it replace the worst individual if it costs less, updates the tracked
    /// best and the stagnation count, and says whether the search ends here.
    pub fn absorb(&mut self, child: Tour, config: &GAConfig) -> (r: Option<StopReason>)
        requires
            old(self).wf(),
            old(self).evaluations < usize::MAX,
        ensures
            final(self).wf(),
            final(self).evaluations == old(self).evaluations + 1,
            is_replacement(
                old(self).population.individuals@,
                child,
                final(self).population.individuals@,
            ),
            final(self).population.individuals@.len() == old(self).population.individuals@.len(),
            final(self).best.cost <= old(self).best.cost,
            if final(self).population.individuals@[0].cost < old(self).best.cost {
                final(self).best.cities@ == final(self).population.individuals@[0].cities@
            } else {
                final(self).best == old(self).best
            },
            final(self).stagnation == if total_cost(final(self).population.individuals@)
                >= old(self).last_total {
                old(self).stagnation + 1
            } else {
                0
            },
            r == verdict(final(self).stagnation as nat, final(self).evaluations as nat, *config),
    {
        self.evaluations += 1;
        self.population.replace_worst(child);
        proof {
            lemma_replacement(
                old(self).population.individuals@,
                child,
                self.population.individuals@,
            );
        }
        if self.population.individuals[0].cost < self.best.cost {
            self.best = self.population.individuals[0].clone();
        }
        let total: u128 = self.population.cost_sum();
        if total >= self.last_total {
            self.stagnation += 1;
        } else {
            self.stagnation = 0;
        }
        self.last_total = total;
        if self.stagnation >= config.stagnation_limit {
            Some(StopReason::Stagnation)
        } else if self.evaluations >= config.max_evaluations {
            Some(StopReason::EvaluationsExhausted)
        } else {
            None
        }
    }
}

/// What a search hands back.
pub struct SearchOutcome {
    /// The best tour seen during the search.
    pub best: Tour,
    /// The number of cost evaluations made.
    pub evaluations: usize,
    /// Why the search stopped.
    pub reason: StopReason,
    /// The populations the search went through: the first one, and the one
    /// after every step.
    pub history: Ghost<Seq<Seq<Tour>>>,
}

/// Runs the search on `instance` under `config`.
///
/// A refused configuration is reported before anything is drawn. Else the
/// search starts from a random population and, step by step, selects two
/// parents by rank, breeds and mutates one child, computes its cost and
/// offers it to the population, until the termination checks end it. It
/// hands back a copy of the best individual of the last population, which
/// costs no more than any tour of any population before.
pub fn run_ga(instance: &Instance, config: &GAConfig) -> (r: Result<SearchOutcome, ConfigError>)
    requires
        instance.wf(),
    ensures
        match r {
            Ok(outcome) => {
                &&& config_error(*config) is None
                &&& is_history(outcome.history@, *instance, *config)
                &&& is_run(outcome.history@, outcome.reason, *config)
                &&& outcome.evaluations == config.population_size + outcome.history@.len() - 1
                &&& outcome.best.cities@ == outcome.history@.last()[0].cities@
                &&& outcome.best.cost == outcome.history@.last()[0].cost
                &&& outcome.best.cost <= outcome.history@[0][0].cost
                &&& outcome.best.is_tour_of(instance)
                &&& outcome.best.evaluated(instance)
                &&& is_final_count(outcome.evaluations as nat, outcome.reason, *config)
                &&& instance.num_cities <= 1 || is_flat(*instance) ==> is_flat_final_count(
                    outcome.evaluations as nat,
                    outcome.reason,
                    *config,
                )
            },
            Err(e) => config_error(*config) == Some(e),
        },
{
    match config.validate() {
        Ok(_) => {},
        Err(e) => {
            return Err(e);
        },
    }
    proof {
        if instance.num_cities <= 1 {
            lemma_small_instance_flat(*instance);
        }
    }
    let population = Population::new_random(instance, config);
    let ghost mut history: Seq<Seq<Tour>> = seq![population.individuals@];
    let mut state = SearchState::start(population);
    let mut reason = StopReason::EvaluationsExhausted;
    while state.evaluations < config.max_evaluations
        invariant_except_break
            reason == StopReason::EvaluationsExhausted,
            state.evaluations == config.population_size || state.stagnation
                < config.stagnation_limit,
            forall|k: int|
                1 <= k < history.len() ==> (#[trigger] verdict_after(history, k, *config)) is None,
        invariant
            instance.wf(),
            instance.num_cities <= 1 ==> is_flat(*instance),
            config_error(*config) is None,
            state.wf(),
            is_history(history, *instance, *config),
            history.last() == state.population.individuals@,
            state.stagnation == stagnant_steps(history),
            state.evaluations == config.population_size + history.len() - 1,
            state.evaluations <= config.max_evaluations || state.evaluations
                == config.population_size,
            is_flat(*instance) ==> state.stagnation + config.population_size == state.evaluations,
        ensures
            is_run(history, reason, *config),
            is_final_count(state.evaluations as nat, reason, *config),
            is_flat(*instance) ==> is_flat_final_count(state.evaluations as nat, reason, *config),
        decreases config.max_evaluations - state.evaluations,
    {
        let first = match state.population.ranked_select(config.selective_pressure) {
            Ok(tour) => tour,
            Err(e) => {
                return Err(e);
            },
        };
        let second = match state.population.ranked_select(config.selective_pressure) {
            Ok(tour) => tour,
            Err(e) => {
                return Err(e);
            },
        };
        let mut child = edge_recombination_crossover(first, second);
        let ghost before = state.population.individuals@;
        let ghost a = choose|i: int|
            0 <= i < before.len() && rank_weight(
                before.len(),
                config.selective_pressure,
                i as nat,
            ) > 0 && *first == #[trigger] before[i];
        let ghost b = choose|i: int|
            0 <= i < before.len() && rank_weight(
                before.len(),
                config.selective_pressure,
                i as nat,
            ) > 0 && *second == #[trigger] before[i];
        let ghost bred = child.cities@;
        insertion_mutation(&mut child, config.mutation_rate);
        proof {
            lemma_rearranged_permutation(bred, child.cities@);
        }
        child.calculate_cost(instance);
        let ghost earlier = history;
        let stop = state.absorb(child, config);
        proof {
            let after = state.population.individuals@;
            history = earlier.push(after);
            assert(is_bred(before[a].cities@, before[b].cities@, bred, child.cities@));
            lemma_history_step(earlier, child, after, *instance, *config);
            lemma_history_push(earlier, after, *config);
            if is_flat(*instance) {
                lemma_flat_costs(*instance, child, before.last());
            }
        }
        match stop {
            Some(r) => {
                reason = r;
                break ;
            },
            None => {},
        }
    }
    proof {
        lemma_best_never_rises(history, *instance, *config, 0, history.len() - 1);
    }
    Ok(
        SearchOutcome {
            best: state.best,
            evaluations: state.evaluations,
            reason,
            history: Ghost(history),
        },
    )
}

} // verus!
