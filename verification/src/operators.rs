//! The two search operators: edge-recombination crossover, which breeds one
//! child from two parents, and displacement mutation, which moves one city
//! of a tour to another position.

use crate::edges::edge_set;
use crate::edges::goes_before;
use crate::edges::lemma_open_edges_push;
use crate::edges::open_edges;
use crate::edges::EdgeMap;
use crate::permutation::is_permutation;
use crate::permutation::lemma_covering_len;
use crate::permutation::lemma_distinct_below;
use crate::permutation::lemma_permutations_same_multiset;
use crate::random::choose_one;
use crate::random::random_below;
use crate::random::random_ratio;
use crate::ratio::Ratio;
use crate::tsp::Tour;
use rand::thread_rng;
use vstd::prelude::*;
use vstd::seq_lib::*;

verus! {

/// Whether `next` may follow the cities `placed`, the last of which is the
/// current city. While the current city has open edges, `next` is the
/// neighbour with the fewest open edges of its own, the smallest of several
/// such. Once it has none, `next` is any city not yet placed.
pub open spec fn is_next(p1: Seq<usize>, p2: Seq<usize>, placed: Seq<usize>, next: usize) -> bool {
    let open = open_edges(p1, p2, placed, placed.last());
    if open.is_empty() {
        next < p1.len() && !placed.contains(next)
    } else {
        &&& open.contains(next)
        &&& forall|d: usize| #[trigger]
            open.contains(d) ==> goes_before(
                open_edges(p1, p2, placed, next).len(),
                next,
                open_edges(p1, p2, placed, d).len(),
                d,
            )
    }
}

/// Whether `child` is an edge recombination of the parents `p1` and `p2`:
/// it starts where one of them starts, and every later city follows the
/// cities before it as [`is_next`] says.
pub open spec fn is_recombination(p1: Seq<usize>, p2: Seq<usize>, child: Seq<usize>) -> bool {
    &&& child.len() == p1.len()
    &&& child.len() > 0 ==> child[0] == p1[0] || child[0] == p2[0]
    &&& forall|k: int| 1 <= k < child.len() ==> is_next(p1, p2, child.take(k), #[trigger] child[k])
}

/// The cities not yet marked as visited, in ascending order.
fn unplaced(visited: &Vec<bool>) -> (pool: Vec<usize>)
    ensures
        forall|v: usize| pool@.contains(v) <==> (v < visited@.len() && !visited@[v as int]),
{
    let n: usize = visited.len();
    let mut pool: Vec<usize> = Vec::new();
    let mut i: usize = 0;
    while i < n
        invariant
            n == visited@.len(),
            i <= n,
            forall|v: usize| pool@.contains(v) <==> (v < i && !visited@[v as int]),
        decreases n - i,
    {
        if !visited[i] {
            let ghost before = pool@;
            pool.push(i);
            proof {
                assert forall|v: usize|
                    pool@.contains(v) <==> (v < i + 1 && !visited@[v as int]) by {
                    if before.contains(v) {
                        let k = choose|k: int| 0 <= k < before.len() && before[k] == v;
                        assert(pool@[k] == v);
                    }
                    if v == i {
                        assert(pool@[before.len() as int] == v);
                    }
                    if pool@.contains(v) {
                        let k = choose|k: int| 0 <= k < pool@.len() && pool@[k] == v;
                        if k < before.len() {
                            assert(before[k] == v);
                        }
                    }
                }
            }
        }
        i += 1;
    }
    pool
}

/// Breeds one child from two parents by edge recombination.
///
/// The child starts at the first city of one parent, picked by a fair coin.
/// From each city it moves on to the neighbour, in either parent, that has
/// the fewest neighbours left, the smallest of several such; where no
/// neighbour is left it moves to a city drawn from those not yet placed.
/// The cost of the child is left at zero for the caller to compute.
pub fn edge_recombination_crossover(p1: &Tour, p2: &Tour) -> (child: Tour)
    requires
        is_permutation(p1.cities@),
        is_permutation(p2.cities@),
        p1.cities@.len() == p2.cities@.len(),
    ensures
        is_recombination(p1.cities@, p2.cities@, child.cities@),
        is_permutation(child.cities@),
        child.cities@.to_multiset() == p1.cities@.to_multiset(),
        child.cost == 0,
{
    let n: usize = p1.cities.len();
    if n == 0 {
        let child = Tour { cities: Vec::new(), cost: 0 };
        proof {
            assert(child.cities@ =~= p1.cities@);
        }
        return child;
    }
    let mut edge_map = EdgeMap::build(&p1.cities, &p2.cities);
    let mut rng = thread_rng();
    let mut current: usize = if random_ratio(&mut rng, 1, 2) {
        p1.cities[0]
    } else {
        p2.cities[0]
    };
    let mut child_cities: Vec<usize> = Vec::with_capacity(n);
    let mut visited: Vec<bool> = Vec::new();
    let mut k: usize = 0;
    while k < n
        invariant
            k <= n,
            visited@.len() == k,
            forall|v: int| 0 <= v < k ==> !(#[trigger] visited@[v]),
        decreases n - k,
    {
        visited.push(false);
        k += 1;
    }
    proof {
        assert forall|c: int| 0 <= c < n implies #[trigger] edge_map.edges(c) == open_edges(
            p1.cities@,
            p2.cities@,
            child_cities@,
            c as usize,
        ) by {
            assert(edge_map.edges(c) == edge_set(p1.cities@, p2.cities@, c as usize));
            assert(open_edges(p1.cities@, p2.cities@, child_cities@, c as usize) =~= edge_set(
                p1.cities@,
                p2.cities@,
                c as usize,
            ));
        }
    }
    while child_cities.len() < n
        invariant_except_break
            current < n,
            !child_cities@.contains(current),
            child_cities@.len() == 0 ==> current == p1.cities@[0] || current == p2.cities@[0],
            child_cities@.len() > 0 ==> is_next(p1.cities@, p2.cities@, child_cities@, current),
        invariant
            0 < n <= usize::MAX,
            n == p1.cities@.len(),
            n == p2.cities@.len(),
            edge_map.wf(),
            edge_map.len() == n,
            edge_map.tracks(p1.cities@, p2.cities@, child_cities@),
            visited@.len() == n,
            forall|v: int|
                0 <= v < n ==> (#[trigger] visited@[v] <==> child_cities@.contains(v as usize)),
            child_cities@.no_duplicates(),
            forall|i: int| 0 <= i < child_cities@.len() ==> #[trigger] child_cities@[i] < n,
            child_cities@.len() <= n,
            child_cities@.len() > 0 ==> child_cities@[0] == p1.cities@[0] || child_cities@[0]
                == p2.cities@[0],
            forall|k: int|
                1 <= k < child_cities@.len() ==> is_next(
                    p1.cities@,
                    p2.cities@,
                    child_cities@.take(k),
                    #[trigger] child_cities@[k],
                ),
        ensures
            child_cities@.len() == n,
        decreases n - child_cities@.len(),
    {
        let ghost placed = child_cities@;
        let ghost before = edge_map;
        child_cities.push(current);
        visited.set(current, true);
        edge_map.strike(current);
        proof {
            let grown = child_cities@;
            assert(grown == placed.push(current));
            assert forall|d: usize| grown.contains(d) <==> (placed.contains(d) || d == current) by {
                lemma_seq_contains_after_push(placed, current, d);
            }
            assert forall|c: int| 0 <= c < n implies #[trigger] edge_map.edges(c) == open_edges(
                p1.cities@,
                p2.cities@,
                grown,
                c as usize,
            ) by {
                lemma_open_edges_push(p1.cities@, p2.cities@, placed, current, c as usize);
                assert(before.edges(c) == open_edges(p1.cities@, p2.cities@, placed, c as usize));
            }
            assert forall|k: int| 1 <= k < grown.len() implies is_next(
                p1.cities@,
                p2.cities@,
                grown.take(k),
                #[trigger] grown[k],
            ) by {
                if k < placed.len() {
                    assert(grown.take(k) =~= placed.take(k));
                    assert(grown[k] == placed[k]);
                } else {
                    assert(grown.take(k) =~= placed);
                }
            }
        }
        let by_edge: Option<usize> = edge_map.most_constrained(current);
        let ghost mut candidates: Seq<usize> = Seq::empty();
        let next_opt: Option<usize> = match by_edge {
            Some(x) => Some(x),
            None => {
                let pool = unplaced(&visited);
                proof {
                    candidates = pool@;
                }
                choose_one(&mut rng, pool)
            },
        };
        match next_opt {
            Some(next) => {
                proof {
                    let grown = child_cities@;
                    let open = open_edges(p1.cities@, p2.cities@, grown, current);
                    assert(edge_map.edges(current as int) == open);
                    if by_edge is Some {
                        assert(open.contains(next));
                        assert forall|d: usize| #[trigger] open.contains(d) implies goes_before(
                            open_edges(p1.cities@, p2.cities@, grown, next).len(),
                            next,
                            open_edges(p1.cities@, p2.cities@, grown, d).len(),
                            d,
                        ) by {
                            assert(edge_map.sets@[current as int]@.contains(d));
                            assert(d < n);
                            assert(edge_map.edges(d as int) == open_edges(
                                p1.cities@,
                                p2.cities@,
                                grown,
                                d,
                            ));
                            assert(edge_map.edges(next as int) == open_edges(
                                p1.cities@,
                                p2.cities@,
                                grown,
                                next,
                            ));
                        }
                        assert(!grown.contains(next));
                    } else {
                        assert(candidates.contains(next));
                        assert(next < n && !visited@[next as int]);
                        assert(!grown.contains(next));
                    }
                    assert(is_next(p1.cities@, p2.cities@, grown, next));
                    let longer = grown.push(next);
                    assert(longer.no_duplicates());
                    assert forall|i: int| 0 <= i < longer.len() implies #[trigger] longer[i]
                        < n by {}
                    lemma_distinct_below(longer, n as nat);
                }
                current = next;
            },
            None => {
                proof {
                    let grown = child_cities@;
                    assert forall|v: usize| v < n implies grown.contains(v) by {
                        if !visited@[v as int] {
                            assert(candidates.contains(v));
                        }
                    }
                    lemma_covering_len(grown, n as nat);
                }
                break ;
            },
        }
    }
    proof {
        lemma_permutations_same_multiset(child_cities@, p1.cities@);
    }
    Tour { cities: child_cities, cost: 0 }
}

/// The position at which a city taken from position `from` goes back in
/// when position `to` was drawn for it: `to` itself, or the position after
/// it, wrapping round, when `to` is where the city came from.
pub open spec fn landing(from: int, to: int, n: int) -> int {
    if to == from {
        (to + 1) % n
    } else {
        to
    }
}

/// The cities `s` after the one at position `from` was taken out and put
/// back in at the landing position for `to`.
pub open spec fn displaced(s: Seq<usize>, from: int, to: int) -> Seq<usize> {
    s.remove(from).insert(landing(from, to, s.len() as int), s[from])
}

/// Whether `after` is what displacement mutation can make of `before`:
/// the same cities, or one of them displaced.
pub open spec fn is_mutation_of(before: Seq<usize>, after: Seq<usize>) -> bool {
    after == before || (before.len() > 1 && exists|from: int, to: int|
        0 <= from < before.len() && 0 <= to < before.len() && after == #[trigger] displaced(
            before,
            from,
            to,
        ))
}

/// A displacement keeps the cities and moves exactly one of them: the moved
/// city lands away from where it stood, the others keep their order, and
/// among distinct cities the result differs from what it was made of.
pub proof fn lemma_displaced(s: Seq<usize>, from: int, to: int)
    requires
        s.len() > 1,
        0 <= from < s.len(),
        0 <= to < s.len(),
    ensures
        displaced(s, from, to).len() == s.len(),
        displaced(s, from, to).to_multiset() == s.to_multiset(),
        0 <= landing(from, to, s.len() as int) < s.len(),
        landing(from, to, s.len() as int) != from,
        displaced(s, from, to)[landing(from, to, s.len() as int)] == s[from],
        displaced(s, from, to).remove(landing(from, to, s.len() as int)) == s.remove(from),
        s.no_duplicates() ==> displaced(s, from, to) != s,
{
    let n = s.len() as int;
    let target = landing(from, to, n);
    assert(0 <= target < n && target != from) by {
        if to == from {
            if to + 1 == n {
                assert((to + 1) % n == 0) by (nonlinear_arith)
                    requires
                        to + 1 == n,
                        n > 0,
                ;
            } else {
                assert((to + 1) % n == to + 1) by (nonlinear_arith)
                    requires
                        0 <= to,
                        to + 1 < n,
                ;
            }
        }
    }
    let rest = s.remove(from);
    let moved = displaced(s, from, to);
    to_multiset_remove(s, from);
    to_multiset_insert(rest, target, s[from]);
    assert(moved.to_multiset() =~= s.to_multiset()) by {
        broadcast use {vstd::multiset::group_multiset_axioms, to_multiset_contains};

        assert(s.contains(s[from]));
    }
    assert(moved.remove(target) =~= rest);
    if s.no_duplicates() {
        assert(moved[target] == s[from]);
        assert(s[target] != s[from]);
    }
}

/// Takes the city at position `from` out of the tour and puts it back in at
/// the landing position for `to`. The stored cost is not touched.
pub fn displace(tour: &mut Tour, from: usize, to: usize)
    requires
        from < old(tour).cities@.len(),
        to < old(tour).cities@.len(),
    ensures
        final(tour).cities@ == displaced(old(tour).cities@, from as int, to as int),
        final(tour).cost == old(tour).cost,
{
    let n: usize = tour.cities.len();
    let city: usize = tour.cities.remove(from);
    let mut target: usize = to;
    if target == from {
        target = (target + 1) % n;
    }
    tour.cities.insert(target, city);
}

/// Displacement mutation: with probability `mutation_rate`, and only in a
/// tour of more than one city, moves one city drawn at random to another
/// position drawn at random. At most one city moves, and the stored cost is
/// left as it was, so the caller has to compute it anew.
pub fn insertion_mutation(tour: &mut Tour, mutation_rate: Ratio)
    requires
        mutation_rate.is_probability(),
    ensures
        final(tour).cost == old(tour).cost,
        is_mutation_of(old(tour).cities@, final(tour).cities@),
        final(tour).cities@.len() == old(tour).cities@.len(),
        final(tour).cities@.to_multiset() == old(tour).cities@.to_multiset(),
        old(tour).cities@.len() <= 1 || mutation_rate.numerator == 0
            ==> final(tour).cities@ == old(tour).cities@,
        old(tour).cities@.len() > 1 && mutation_rate.numerator == mutation_rate.denominator
            ==> exists|from: int, to: int|
            0 <= from < old(tour).cities@.len() && 0 <= to < old(tour).cities@.len()
                && final(tour).cities@ == #[trigger] displaced(old(tour).cities@, from, to),
        old(tour).cities@.len() > 1 && mutation_rate.numerator == mutation_rate.denominator
            && old(tour).cities@.no_duplicates() ==> final(tour).cities@ != old(tour).cities@,
{
    let n: usize = tour.cities.len();
    let mut rng = thread_rng();
    if n > 1 && random_ratio(&mut rng, mutation_rate.numerator, mutation_rate.denominator) {
        let from: usize = random_below(&mut rng, n);
        let to: usize = random_below(&mut rng, n);
        displace(tour, from, to);
        proof {
            lemma_displaced(old(tour).cities@, from as int, to as int);
        }
    }
}

} // verus!
