use tsp_ga::ga::run_ga;
use tsp_ga::ga::GAConfig;
use tsp_ga::ga::SearchState;
use tsp_ga::ga::StopReason;
use tsp_ga::operators::edge_recombination_crossover;
use tsp_ga::operators::insertion_mutation;
use tsp_ga::population::Population;
use tsp_ga::ratio::Ratio;
use tsp_ga::selection::ConfigError;
use tsp_ga::selection::MAX_POPULATION;
use tsp_ga::tsp::Instance;
use tsp_ga::tsp::Tour;

fn tagged(tag: usize, cost: u64) -> Tour {
    Tour { cities: vec![tag], cost }
}

fn state_of(costs: &[u64]) -> SearchState {
    let individuals = costs.iter().enumerate().map(|(tag, &cost)| tagged(tag, cost)).collect();
    SearchState::start(Population { individuals })
}

fn costs(state: &SearchState) -> Vec<u64> {
    state.population.individuals.iter().map(|t| t.cost).collect()
}

fn config(population_size: usize, max_evaluations: usize, stagnation_limit: usize) -> GAConfig {
    GAConfig {
        population_size,
        mutation_rate: Ratio::new(1, 100),
        selective_pressure: Ratio::new(190, 100),
        max_evaluations,
        stagnation_limit,
    }
}

fn rounded_distances(points: &[(f64, f64)]) -> Vec<Vec<u32>> {
    let mut rows = Vec::new();
    for a in points {
        let mut row = Vec::new();
        for b in points {
            let dx = a.0 - b.0;
            let dy = a.1 - b.1;
            row.push(((dx * dx + dy * dy).sqrt() + 0.5).floor() as u32);
        }
        rows.push(row);
    }
    rows
}

fn ring(n: usize) -> Instance {
    let points: Vec<(f64, f64)> = (0..n)
        .map(|k| {
            let angle = 2.0 * std::f64::consts::PI * (k as f64) / (n as f64);
            (1000.0 * angle.cos(), 1000.0 * angle.sin())
        })
        .collect();
    Instance::new(rounded_distances(&points)).unwrap()
}

fn recomputed(inst: &Instance, tour: &Tour) -> u64 {
    let mut copy = tour.clone();
    copy.calculate_cost(inst);
    copy.cost
}

#[test]
fn start_tracks_the_best_individual() {
    let state = state_of(&[10, 20, 30]);
    assert_eq!(state.best.cost, 10);
    assert_eq!(state.best.cities, vec![0]);
    assert_eq!(state.evaluations, 3);
    assert_eq!(state.last_total, 60);
    assert_eq!(state.stagnation, 0);
    assert_eq!(costs(&state), vec![10, 20, 30]);
}

#[test]
fn absorb_takes_a_better_child_and_resets_stagnation() {
    let mut state = state_of(&[10, 20, 30]);
    state.stagnation = 2;
    state.evaluations = 7;
    let stop = state.absorb(tagged(9, 15), &config(3, 100, 5));
    assert_eq!(stop, None);
    assert_eq!(costs(&state), vec![10, 15, 20]);
    assert_eq!(state.evaluations, 8);
    assert_eq!(state.last_total, 45);
    assert_eq!(state.stagnation, 0);
    assert_eq!(state.best.cost, 10);
    assert_eq!(state.best.cities, vec![0]);
}

#[test]
fn absorb_updates_the_best_on_a_new_minimum() {
    let mut state = state_of(&[10, 20, 30]);
    let stop = state.absorb(tagged(9, 4), &config(3, 100, 5));
    assert_eq!(stop, None);
    assert_eq!(costs(&state), vec![4, 10, 20]);
    assert_eq!(state.best.cost, 4);
    assert_eq!(state.best.cities, vec![9]);
}

#[test]
fn absorb_counts_a_discarded_child_as_stagnation() {
    let mut state = state_of(&[10, 20, 30]);
    let cfg = config(3, 100, 3);
    assert_eq!(state.absorb(tagged(9, 30), &cfg), None);
    assert_eq!(state.stagnation, 1);
    assert_eq!(state.absorb(tagged(9, 99), &cfg), None);
    assert_eq!(state.stagnation, 2);
    assert_eq!(costs(&state), vec![10, 20, 30]);
    assert_eq!(state.evaluations, 5);
    assert_eq!(state.absorb(tagged(9, 31), &cfg), Some(StopReason::Stagnation));
    assert_eq!(state.stagnation, 3);
    assert_eq!(state.evaluations, 6);
}

#[test]
fn absorb_stops_when_the_evaluations_are_used_up() {
    let mut state = state_of(&[10, 20, 30]);
    let cfg = config(3, 5, 10);
    assert_eq!(state.absorb(tagged(9, 5), &cfg), None);
    assert_eq!(state.absorb(tagged(9, 4), &cfg), Some(StopReason::EvaluationsExhausted));
    assert_eq!(state.evaluations, 5);
}

#[test]
fn absorb_checks_stagnation_before_the_evaluation_cap() {
    let mut state = state_of(&[10, 20, 30]);
    let cfg = config(3, 4, 1);
    assert_eq!(state.absorb(tagged(9, 50), &cfg), Some(StopReason::Stagnation));
    assert_eq!(state.evaluations, 4);
}

#[test]
fn absorb_with_limit_zero_stops_at_once() {
    let cfg = config(3, 100, 0);
    let mut improving = state_of(&[10, 20, 30]);
    assert_eq!(improving.absorb(tagged(9, 1), &cfg), Some(StopReason::Stagnation));
    assert_eq!(improving.stagnation, 0);
    let mut stalling = state_of(&[10, 20, 30]);
    assert_eq!(stalling.absorb(tagged(9, 30), &cfg), Some(StopReason::Stagnation));
    assert_eq!(stalling.stagnation, 1);
}

#[test]
fn population_stays_sorted_and_best_never_rises() {
    let inst = ring(14);
    let cfg = config(20, usize::MAX, usize::MAX);
    let mut population = Population::new_random(&inst, &cfg);
    population.sort_by_cost();
    let mut state = SearchState::start(population);
    let mut last_best = state.best.cost;
    for step in 0..300 {
        let mut child = {
            let first = state.population.ranked_select(cfg.selective_pressure).unwrap();
            let second = state.population.ranked_select(cfg.selective_pressure).unwrap();
            edge_recombination_crossover(first, second)
        };
        insertion_mutation(&mut child, Ratio::new(1, 4));
        child.calculate_cost(&inst);
        assert_eq!(state.absorb(child, &cfg), None);
        let listed = costs(&state);
        assert_eq!(listed.len(), 20);
        assert!(listed.windows(2).all(|w| w[0] <= w[1]));
        assert!(state.best.cost <= last_best);
        assert_eq!(state.best.cost, listed[0]);
        assert_eq!(state.evaluations, 21 + step);
        assert_eq!(state.last_total, listed.iter().map(|&c| c as u128).sum::<u128>());
        for tour in &state.population.individuals {
            assert!(tour.is_valid());
            assert_eq!(tour.cost, recomputed(&inst, tour));
        }
        last_best = state.best.cost;
    }
}

#[test]
fn run_finds_the_unit_square_optimum() {
    let points = [(0.0, 0.0), (0.0, 1.0), (1.0, 1.0), (1.0, 0.0)];
    let inst = Instance::new(rounded_distances(&points)).unwrap();
    let outcome = run_ga(&inst, &config(10, 200, 50)).unwrap();
    assert_eq!(outcome.best.cost, 4);
    assert!(outcome.best.is_valid());
    assert_eq!(outcome.best.cities.len(), 4);
}

#[test]
fn run_improves_on_a_ring() {
    let inst = ring(16);
    let cfg = config(60, 6000, 2000);
    let outcome = run_ga(&inst, &cfg).unwrap();
    assert!(outcome.best.is_valid());
    assert_eq!(outcome.best.cities.len(), 16);
    assert_eq!(outcome.best.cost, recomputed(&inst, &outcome.best));
    let around = recomputed(&inst, &Tour { cities: (0..16).collect(), cost: 0 });
    assert!(outcome.best.cost >= around);
    assert!(outcome.best.cost < 3 * around);
    assert!(outcome.evaluations >= 60);
    assert!(outcome.evaluations <= 6000);
}

#[test]
fn run_never_exceeds_the_evaluation_cap() {
    let inst = ring(8);
    for max in [13usize, 20, 57, 300] {
        let outcome = run_ga(&inst, &config(12, max, usize::MAX)).unwrap();
        assert_eq!(outcome.evaluations, max);
        assert_eq!(outcome.reason, StopReason::EvaluationsExhausted);
    }
}

#[test]
fn run_with_a_cap_below_the_population_makes_no_step() {
    let inst = ring(8);
    for max in [0usize, 5, 12] {
        let outcome = run_ga(&inst, &config(12, max, 3)).unwrap();
        assert_eq!(outcome.evaluations, 12);
        assert_eq!(outcome.reason, StopReason::EvaluationsExhausted);
        assert!(outcome.best.is_valid());
    }
}

#[test]
fn run_with_limit_zero_stops_after_the_first_step() {
    let inst = ring(8);
    for _ in 0..20 {
        let outcome = run_ga(&inst, &config(12, 500, 0)).unwrap();
        assert_eq!(outcome.evaluations, 13);
        assert_eq!(outcome.reason, StopReason::Stagnation);
    }
}

#[test]
fn run_stops_on_stagnation() {
    let inst = ring(5);
    let cfg = config(8, 1_000_000, 25);
    let outcome = run_ga(&inst, &cfg).unwrap();
    assert_eq!(outcome.reason, StopReason::Stagnation);
    assert!(outcome.evaluations >= 8 + 25);
    assert!(outcome.evaluations < 1_000_000);
}

#[test]
fn run_on_degenerate_instances() {
    let none = Instance::new(Vec::new()).unwrap();
    let outcome = run_ga(&none, &config(4, 50, 5)).unwrap();
    assert!(outcome.best.cities.is_empty());
    assert_eq!(outcome.best.cost, 0);
    assert_eq!(outcome.reason, StopReason::Stagnation);
    assert_eq!(outcome.evaluations, 9);
    let one = Instance::new(vec![vec![0]]).unwrap();
    let outcome = run_ga(&one, &config(4, 6, 5)).unwrap();
    assert_eq!(outcome.best.cities, vec![0]);
    assert_eq!(outcome.best.cost, 0);
    assert_eq!(outcome.reason, StopReason::EvaluationsExhausted);
    assert_eq!(outcome.evaluations, 6);
}

#[test]
fn run_refuses_a_pressure_out_of_range() {
    let inst = ring(6);
    let mut cfg = config(10, 100, 10);
    cfg.selective_pressure = Ratio::new(25, 10);
    assert_eq!(run_ga(&inst, &cfg).err(), Some(ConfigError::PressureOutOfRange));
    cfg.selective_pressure = Ratio::new(5, 10);
    assert_eq!(run_ga(&inst, &cfg).err(), Some(ConfigError::PressureOutOfRange));
    cfg.max_evaluations = 0;
    assert_eq!(run_ga(&inst, &cfg).err(), Some(ConfigError::PressureOutOfRange));
}

#[test]
fn run_refuses_a_mutation_rate_out_of_range() {
    let inst = ring(6);
    let mut cfg = config(10, 100, 10);
    cfg.mutation_rate = Ratio::new(3, 2);
    assert_eq!(run_ga(&inst, &cfg).err(), Some(ConfigError::MutationRateOutOfRange));
    cfg.mutation_rate = Ratio::new(0, 0);
    assert_eq!(run_ga(&inst, &cfg).err(), Some(ConfigError::MutationRateOutOfRange));
}

#[test]
fn run_refuses_a_population_too_small_for_a_step() {
    let inst = ring(6);
    assert_eq!(run_ga(&inst, &config(1, 100, 10)).err(), Some(ConfigError::PopulationTooSmall));
    assert_eq!(run_ga(&inst, &config(1, 2, 10)).err(), Some(ConfigError::PopulationTooSmall));
}

#[test]
fn run_refuses_an_empty_population() {
    let inst = ring(6);
    assert_eq!(run_ga(&inst, &config(0, 100, 10)).err(), Some(ConfigError::PopulationTooSmall));
    assert_eq!(run_ga(&inst, &config(0, 0, 10)).err(), Some(ConfigError::PopulationTooSmall));
}

#[test]
fn run_with_one_individual_and_no_step_returns_it() {
    let inst = ring(6);
    for max in [0usize, 1] {
        let outcome = run_ga(&inst, &config(1, max, 10)).unwrap();
        assert_eq!(outcome.evaluations, 1);
        assert_eq!(outcome.reason, StopReason::EvaluationsExhausted);
        assert!(outcome.best.is_valid());
        assert_eq!(outcome.best.cities.len(), 6);
        assert_eq!(outcome.best.cost, recomputed(&inst, &outcome.best));
    }
}

#[test]
fn run_on_one_city_stops_by_stagnation() {
    let one = Instance::new(vec![vec![0]]).unwrap();
    let mut cfg = config(2, 5, 2);
    cfg.mutation_rate = Ratio::new(1, 1);
    cfg.selective_pressure = Ratio::new(3, 2);
    for _ in 0..20 {
        let outcome = run_ga(&one, &cfg).unwrap();
        assert_eq!(outcome.best.cities, vec![0]);
        assert_eq!(outcome.best.cost, 0);
        assert_eq!(outcome.reason, StopReason::Stagnation);
        assert_eq!(outcome.evaluations, 4);
    }
}

#[test]
fn run_on_a_flat_instance_is_stagnant_at_every_step() {
    let flat = Instance::new(vec![
        vec![0, 3, 3, 3],
        vec![3, 0, 3, 3],
        vec![3, 3, 0, 3],
        vec![3, 3, 3, 0],
    ])
    .unwrap();
    let by_limit = run_ga(&flat, &config(6, 40, 9)).unwrap();
    assert_eq!(by_limit.reason, StopReason::Stagnation);
    assert_eq!(by_limit.evaluations, 15);
    assert_eq!(by_limit.best.cost, 12);
    let by_cap = run_ga(&flat, &config(6, 10, 9)).unwrap();
    assert_eq!(by_cap.reason, StopReason::EvaluationsExhausted);
    assert_eq!(by_cap.evaluations, 10);
    let both = run_ga(&flat, &config(6, 15, 9)).unwrap();
    assert_eq!(both.reason, StopReason::Stagnation);
    assert_eq!(both.evaluations, 15);
}

#[test]
fn validate_names_the_first_fault() {
    assert_eq!(config(200, 50_000, 1000).validate(), Ok(()));
    assert_eq!(config(2, 0, 0).validate(), Ok(()));
    assert_eq!(config(1, 1, 10).validate(), Ok(()));
    assert_eq!(config(1, 0, 10).validate(), Ok(()));
    assert_eq!(config(1, 2, 10).validate(), Err(ConfigError::PopulationTooSmall));
    assert_eq!(config(0, 0, 10).validate(), Err(ConfigError::PopulationTooSmall));
    assert_eq!(config(1, 10, 10).validate(), Err(ConfigError::PopulationTooSmall));
    let mut cfg = config(1, 10, 10);
    cfg.selective_pressure = Ratio::new(3, 1);
    cfg.mutation_rate = Ratio::new(2, 1);
    assert_eq!(cfg.validate(), Err(ConfigError::PressureOutOfRange));
    cfg.selective_pressure = Ratio::new(2, 1);
    assert_eq!(cfg.validate(), Err(ConfigError::PopulationTooSmall));
    cfg.population_size = 2;
    assert_eq!(cfg.validate(), Err(ConfigError::MutationRateOutOfRange));
    if usize::MAX > MAX_POPULATION {
        let mut huge = config(usize::MAX, 10, 10);
        assert_eq!(huge.validate(), Err(ConfigError::PopulationTooLarge));
        assert_eq!(
            run_ga(&ring(3), &huge).err(),
            Some(ConfigError::PopulationTooLarge)
        );
        huge.selective_pressure = Ratio::new(0, 1);
        assert_eq!(huge.validate(), Err(ConfigError::PopulationTooLarge));
    }
}
