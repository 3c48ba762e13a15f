use tsp_ga::ga::GAConfig;
use tsp_ga::population::insertion_point;
use tsp_ga::population::Population;
use tsp_ga::ratio::Ratio;
use tsp_ga::tsp::Instance;
use tsp_ga::tsp::Tour;

fn tagged(tag: usize, cost: u64) -> Tour {
    Tour { cities: vec![tag], cost }
}

fn population_of(costs: &[u64]) -> Population {
    let individuals = costs.iter().enumerate().map(|(tag, &cost)| tagged(tag, cost)).collect();
    Population { individuals }
}

fn costs(population: &Population) -> Vec<u64> {
    population.individuals.iter().map(|t| t.cost).collect()
}

fn tags(population: &Population) -> Vec<usize> {
    population.individuals.iter().map(|t| t.cities[0]).collect()
}

fn line_instance(n: usize) -> Instance {
    let mut rows = Vec::new();
    for a in 0..n {
        let mut row = Vec::new();
        for b in 0..n {
            row.push(if a > b { (a - b) as u32 } else { (b - a) as u32 });
        }
        rows.push(row);
    }
    Instance::new(rows).unwrap()
}

fn config(population_size: usize) -> GAConfig {
    GAConfig {
        population_size,
        mutation_rate: Ratio::new(1, 100),
        selective_pressure: Ratio::new(190, 100),
        max_evaluations: 1000,
        stagnation_limit: 100,
    }
}

#[test]
fn new_random_fills_the_population_with_evaluated_tours() {
    let inst = line_instance(9);
    let population = Population::new_random(&inst, &config(30));
    assert_eq!(population.individuals.len(), 30);
    for tour in &population.individuals {
        assert_eq!(tour.cities.len(), 9);
        assert!(tour.is_valid());
        let mut again = tour.clone();
        again.cost = 0;
        again.calculate_cost(&inst);
        assert_eq!(tour.cost, again.cost);
        assert!(tour.cost >= 16);
    }
}

#[test]
fn new_random_comes_sorted_by_cost() {
    let inst = line_instance(11);
    for _ in 0..10 {
        let population = Population::new_random(&inst, &config(40));
        let listed = costs(&population);
        assert_eq!(listed.len(), 40);
        assert!(listed.windows(2).all(|w| w[0] <= w[1]));
    }
}

#[test]
fn new_random_shuffles_the_cities() {
    let inst = line_instance(12);
    let population = Population::new_random(&inst, &config(40));
    let ordered: Vec<usize> = (0..12).collect();
    assert!(population.individuals.iter().any(|t| t.cities != ordered));
    let first = &population.individuals[0].cities;
    assert!(population.individuals.iter().any(|t| &t.cities != first));
}

#[test]
fn new_random_of_size_zero_is_empty() {
    let population = Population::new_random(&line_instance(4), &config(0));
    assert!(population.individuals.is_empty());
}

#[test]
fn new_random_over_no_cities_holds_empty_tours() {
    let population = Population::new_random(&line_instance(0), &config(3));
    assert_eq!(population.individuals.len(), 3);
    for tour in &population.individuals {
        assert!(tour.cities.is_empty());
        assert_eq!(tour.cost, 0);
    }
}

#[test]
fn sort_by_cost_orders_ascending() {
    let mut population = population_of(&[50, 10, 40, 10, 30, 20]);
    population.sort_by_cost();
    assert_eq!(costs(&population), vec![10, 10, 20, 30, 40, 50]);
    let mut seen = tags(&population);
    seen.sort();
    assert_eq!(seen, vec![0, 1, 2, 3, 4, 5]);
}

#[test]
fn sort_by_cost_keeps_every_tour() {
    let inst = line_instance(10);
    let mut population = Population::new_random(&inst, &config(50));
    let mut before: Vec<(u64, Vec<usize>)> =
        population.individuals.iter().map(|t| (t.cost, t.cities.clone())).collect();
    population.sort_by_cost();
    let mut after: Vec<(u64, Vec<usize>)> =
        population.individuals.iter().map(|t| (t.cost, t.cities.clone())).collect();
    assert!(after.windows(2).all(|w| w[0].0 <= w[1].0));
    before.sort();
    after.sort();
    assert_eq!(before, after);
}

#[test]
fn sort_by_cost_of_an_empty_population() {
    let mut population = population_of(&[]);
    population.sort_by_cost();
    assert!(population.individuals.is_empty());
}

#[test]
fn insertion_point_lies_behind_equal_costs() {
    let population = population_of(&[1, 3, 3, 5]);
    assert_eq!(insertion_point(&population.individuals, 0), 0);
    assert_eq!(insertion_point(&population.individuals, 1), 1);
    assert_eq!(insertion_point(&population.individuals, 2), 1);
    assert_eq!(insertion_point(&population.individuals, 3), 3);
    assert_eq!(insertion_point(&population.individuals, 4), 3);
    assert_eq!(insertion_point(&population.individuals, 5), 4);
    assert_eq!(insertion_point(&population.individuals, 6), 4);
    assert_eq!(insertion_point(&Vec::new(), 6), 0);
}

#[test]
fn replace_worst_takes_a_better_child() {
    let mut population = population_of(&[10, 20, 30, 40]);
    assert_eq!(population.replace_worst(tagged(9, 25)), Some(2));
    assert_eq!(costs(&population), vec![10, 20, 25, 30]);
    assert_eq!(tags(&population), vec![0, 1, 9, 2]);
}

#[test]
fn replace_worst_puts_a_new_best_in_front() {
    let mut population = population_of(&[10, 20, 30, 40]);
    assert_eq!(population.replace_worst(tagged(9, 5)), Some(0));
    assert_eq!(costs(&population), vec![5, 10, 20, 30]);
    assert_eq!(tags(&population), vec![9, 0, 1, 2]);
}

#[test]
fn replace_worst_puts_a_child_behind_its_equals() {
    let mut population = population_of(&[10, 20, 20, 40]);
    assert_eq!(population.replace_worst(tagged(9, 20)), Some(3));
    assert_eq!(costs(&population), vec![10, 20, 20, 20]);
    assert_eq!(tags(&population), vec![0, 1, 2, 9]);
}

#[test]
fn replace_worst_discards_a_child_that_is_no_better() {
    let mut population = population_of(&[10, 20, 30, 40]);
    assert_eq!(population.replace_worst(tagged(9, 40)), None);
    assert_eq!(tags(&population), vec![0, 1, 2, 3]);
    assert_eq!(population.replace_worst(tagged(9, 41)), None);
    assert_eq!(costs(&population), vec![10, 20, 30, 40]);
    assert_eq!(tags(&population), vec![0, 1, 2, 3]);
}

#[test]
fn replace_worst_in_a_population_of_one() {
    let mut population = population_of(&[10]);
    assert_eq!(population.replace_worst(tagged(9, 10)), None);
    assert_eq!(population.replace_worst(tagged(8, 3)), Some(0));
    assert_eq!(tags(&population), vec![8]);
}

#[test]
fn cost_sum_adds_all_costs() {
    assert_eq!(population_of(&[]).cost_sum(), 0);
    assert_eq!(population_of(&[10, 20, 30]).cost_sum(), 60);
    assert_eq!(population_of(&[u64::MAX, u64::MAX, 1]).cost_sum(), 2 * (u64::MAX as u128) + 1);
}
