use std::collections::HashSet;

use tsp_ga::edges::EdgeMap;
use tsp_ga::ga::GAConfig;
use tsp_ga::operators::edge_recombination_crossover;
use tsp_ga::population::Population;
use tsp_ga::ratio::Ratio;
use tsp_ga::tsp::Instance;
use tsp_ga::tsp::Tour;

fn tour(cities: Vec<usize>) -> Tour {
    Tour { cities, cost: 0 }
}

fn sorted(list: &[usize]) -> Vec<usize> {
    let mut v = list.to_vec();
    v.sort();
    v
}

fn listed(set: &HashSet<usize>) -> Vec<usize> {
    let mut v: Vec<usize> = set.iter().copied().collect();
    v.sort();
    v
}

fn all_listed(map: &EdgeMap) -> Vec<Vec<usize>> {
    map.sets.iter().map(listed).collect()
}

fn edge_map(lists: Vec<Vec<usize>>) -> EdgeMap {
    EdgeMap { sets: lists.into_iter().map(|list| list.into_iter().collect()).collect() }
}

fn flat_instance(n: usize) -> Instance {
    let mut rows = Vec::new();
    for a in 0..n {
        let mut row = Vec::new();
        for b in 0..n {
            row.push(if a == b { 0 } else { 1 + ((a * 7 + b * 7) % 5) as u32 });
        }
        rows.push(row);
    }
    Instance::new(rows).unwrap()
}

fn random_tours(n: usize, count: usize) -> Vec<Tour> {
    let config = GAConfig {
        population_size: count,
        mutation_rate: Ratio::new(0, 1),
        selective_pressure: Ratio::new(1, 1),
        max_evaluations: 0,
        stagnation_limit: 0,
    };
    Population::new_random(&flat_instance(n), &config).individuals
}

#[test]
fn edge_map_unites_the_neighbours_of_both_parents() {
    let map = EdgeMap::build(&vec![0, 1, 2, 3, 4], &vec![0, 2, 4, 1, 3]);
    assert_eq!(map.sets.len(), 5);
    assert_eq!(listed(&map.sets[0]), vec![1, 2, 3, 4]);
    assert_eq!(listed(&map.sets[1]), vec![0, 2, 3, 4]);
    assert_eq!(listed(&map.sets[2]), vec![0, 1, 3, 4]);
    assert_eq!(listed(&map.sets[3]), vec![0, 1, 2, 4]);
    assert_eq!(listed(&map.sets[4]), vec![0, 1, 2, 3]);
}

#[test]
fn edge_map_collapses_shared_edges() {
    let map = EdgeMap::build(&vec![0, 1, 2, 3, 4, 5], &vec![0, 1, 2, 3, 5, 4]);
    assert_eq!(listed(&map.sets[0]), vec![1, 4, 5]);
    assert_eq!(listed(&map.sets[1]), vec![0, 2]);
    assert_eq!(listed(&map.sets[2]), vec![1, 3]);
    assert_eq!(listed(&map.sets[3]), vec![2, 4, 5]);
    assert_eq!(listed(&map.sets[4]), vec![0, 3, 5]);
    assert_eq!(listed(&map.sets[5]), vec![0, 3, 4]);
}

#[test]
fn edge_map_of_two_cities_holds_one_edge_each() {
    let map = EdgeMap::build(&vec![0, 1], &vec![1, 0]);
    assert_eq!(all_listed(&map), vec![vec![1], vec![0]]);
}

#[test]
fn edge_map_of_one_city_holds_the_city_itself() {
    let map = EdgeMap::build(&vec![0], &vec![0]);
    assert_eq!(all_listed(&map), vec![vec![0]]);
}

#[test]
fn add_edge_keeps_each_neighbour_once() {
    let mut map = EdgeMap::empty(3);
    assert_eq!(all_listed(&map), vec![Vec::<usize>::new(), Vec::new(), Vec::new()]);
    map.add_edge(0, 2);
    map.add_edge(0, 1);
    map.add_edge(0, 2);
    map.add_edge(2, 0);
    assert_eq!(all_listed(&map), vec![vec![1, 2], vec![], vec![0]]);
}

#[test]
fn strike_closes_the_edges_to_a_city() {
    let mut map = EdgeMap::build(&vec![0, 1, 2, 3], &vec![0, 2, 1, 3]);
    map.strike(0);
    assert_eq!(listed(&map.sets[0]), vec![1, 2, 3]);
    assert_eq!(listed(&map.sets[1]), vec![2, 3]);
    assert_eq!(listed(&map.sets[2]), vec![1, 3]);
    assert_eq!(listed(&map.sets[3]), vec![1, 2]);
    map.strike(3);
    assert_eq!(listed(&map.sets[0]), vec![1, 2]);
    assert_eq!(listed(&map.sets[1]), vec![2]);
    assert_eq!(listed(&map.sets[2]), vec![1]);
    assert_eq!(listed(&map.sets[3]), vec![1, 2]);
}

#[test]
fn most_constrained_prefers_the_fewest_open_edges() {
    let map = edge_map(vec![vec![1, 2, 3], vec![0, 2, 3], vec![0], vec![0, 1]]);
    assert_eq!(map.most_constrained(0), Some(2));
    assert_eq!(map.most_constrained(1), Some(2));
    assert_eq!(map.most_constrained(2), Some(0));
    let uneven = edge_map(vec![vec![1, 2], vec![0, 2, 3], vec![0, 1], vec![1]]);
    assert_eq!(uneven.most_constrained(1), Some(3));
    assert_eq!(uneven.most_constrained(2), Some(0));
}

#[test]
fn most_constrained_breaks_ties_by_the_smaller_city() {
    let map = edge_map(vec![vec![3, 1, 2], vec![0, 2], vec![0, 1], vec![0, 2]]);
    assert_eq!(map.most_constrained(0), Some(1));
    let swapped = edge_map(vec![vec![2, 3, 1], vec![0, 2], vec![0, 1], vec![0, 2]]);
    assert_eq!(swapped.most_constrained(0), Some(1));
}

#[test]
fn most_constrained_of_a_closed_city_is_none() {
    let map = edge_map(vec![vec![], vec![0]]);
    assert_eq!(map.most_constrained(0), None);
    assert_eq!(map.most_constrained(1), Some(0));
}

#[test]
fn crossover_of_no_cities_is_empty() {
    let child = edge_recombination_crossover(&tour(vec![]), &tour(vec![]));
    assert!(child.cities.is_empty());
    assert_eq!(child.cost, 0);
}

#[test]
fn crossover_of_one_city_is_that_city() {
    let child = edge_recombination_crossover(&tour(vec![0]), &tour(vec![0]));
    assert_eq!(child.cities, vec![0]);
    assert_eq!(child.cost, 0);
}

#[test]
fn crossover_of_equal_parents_follows_their_cycle() {
    let parent = tour(vec![0, 1, 2, 3, 4]);
    for _ in 0..20 {
        let child = edge_recombination_crossover(&parent, &parent);
        assert_eq!(child.cities, vec![0, 1, 2, 3, 4]);
    }
}

#[test]
fn crossover_breaks_ties_by_the_smaller_city() {
    let parent = tour(vec![0, 3, 1, 2]);
    for _ in 0..20 {
        let child = edge_recombination_crossover(&parent, &parent);
        assert_eq!(child.cities, vec![0, 2, 1, 3]);
    }
}

#[test]
fn crossover_starts_where_a_parent_starts() {
    let p1 = tour(vec![3, 0, 4, 1, 2]);
    let p2 = tour(vec![1, 4, 2, 0, 3]);
    let mut from_first = false;
    let mut from_second = false;
    for _ in 0..200 {
        let child = edge_recombination_crossover(&p1, &p2);
        assert!(child.cities[0] == 3 || child.cities[0] == 1);
        from_first = from_first || child.cities[0] == 3;
        from_second = from_second || child.cities[0] == 1;
    }
    assert!(from_first && from_second);
}

#[test]
fn crossover_leaves_the_cost_unset() {
    let p1 = Tour { cities: vec![0, 1, 2], cost: 17 };
    let p2 = Tour { cities: vec![2, 1, 0], cost: 23 };
    assert_eq!(edge_recombination_crossover(&p1, &p2).cost, 0);
}

#[test]
fn crossover_yields_a_permutation_of_the_parents_cities() {
    for n in [2usize, 3, 5, 8, 13, 30] {
        let tours = random_tours(n, 24);
        for pair in tours.chunks(2) {
            let child = edge_recombination_crossover(&pair[0], &pair[1]);
            assert_eq!(child.cities.len(), n);
            assert!(child.is_valid());
            assert_eq!(sorted(&child.cities), sorted(&pair[0].cities));
            assert_eq!(sorted(&child.cities), sorted(&pair[1].cities));
        }
    }
}

#[test]
fn crossover_follows_an_open_edge_while_there_is_one() {
    let tours = random_tours(12, 40);
    for pair in tours.chunks(2) {
        let child = edge_recombination_crossover(&pair[0], &pair[1]);
        let mut map = EdgeMap::build(&pair[0].cities, &pair[1].cities);
        for k in 0..child.cities.len() - 1 {
            let current = child.cities[k];
            map.strike(current);
            match map.most_constrained(current) {
                Some(next) => assert_eq!(child.cities[k + 1], next),
                None => assert!(!child.cities[..=k].contains(&child.cities[k + 1])),
            }
        }
    }
}
