//! The edge map of edge-recombination crossover: for every city, the set of
//! cities that stand next to it in either parent and are still to be placed.

use std::collections::HashSet;
use vstd::prelude::*;
use vstd::std_specs::hash::*;

verus! {

/// The position after `i` on a cycle of `n` positions.
pub open spec fn wrap_next(i: int, n: int) -> int {
    if i + 1 == n {
        0
    } else {
        i + 1
    }
}

/// The position before `i` on a cycle of `n` positions.
pub open spec fn wrap_prev(i: int, n: int) -> int {
    if i == 0 {
        n - 1
    } else {
        i - 1
    }
}

/// Whether `d` stands directly before or after position `i` of the cycle `p`.
pub open spec fn beside(p: Seq<usize>, i: int, d: usize) -> bool {
    p[wrap_next(i, p.len() as int)] == d || p[wrap_prev(i, p.len() as int)] == d
}

/// The cities that stand next to `c` at one of the first `k` positions of
/// the cycle `p`.
pub open spec fn neighbours_before(p: Seq<usize>, c: usize, k: int) -> Set<usize> {
    Set::new(
        |d: usize|
            exists|i: int| 0 <= i < k && i < p.len() && #[trigger] p[i] == c && beside(p, i, d),
    )
}

/// The cities that stand next to `c` on the cycle `p`.
pub open spec fn neighbours(p: Seq<usize>, c: usize) -> Set<usize> {
    neighbours_before(p, c, p.len() as int)
}

/// The cities that stand next to `c` in either parent.
pub open spec fn edge_set(p1: Seq<usize>, p2: Seq<usize>, c: usize) -> Set<usize> {
    neighbours(p1, c).union(neighbours(p2, c))
}

/// The neighbours of `c` that are not among the cities `placed`.
pub open spec fn open_edges(p1: Seq<usize>, p2: Seq<usize>, placed: Seq<usize>, c: usize) -> Set<
    usize,
> {
    edge_set(p1, p2, c).filter(|d: usize| !placed.contains(d))
}

/// Whether a city with `da` open edges goes before a city with `db` of them:
/// the fewer edges win, and of two equals the smaller city.
pub open spec fn goes_before(da: nat, a: usize, db: nat, b: usize) -> bool {
    da < db || (da == db && a <= b)
}

/// Position `i` of the cycle adds its two neighbours to the set of the city
/// that stands there, and nothing to the set of any other city.
pub proof fn lemma_neighbours_step(p: Seq<usize>, c: usize, i: int)
    requires
        0 <= i < p.len(),
    ensures
        p[i] == c ==> neighbours_before(p, c, i + 1) == neighbours_before(p, c, i).insert(
            p[wrap_next(i, p.len() as int)],
        ).insert(p[wrap_prev(i, p.len() as int)]),
        p[i] != c ==> neighbours_before(p, c, i + 1) == neighbours_before(p, c, i),
{
    let before = neighbours_before(p, c, i);
    let after = neighbours_before(p, c, i + 1);
    let right = p[wrap_next(i, p.len() as int)];
    let left = p[wrap_prev(i, p.len() as int)];
    assert forall|d: usize| before.contains(d) implies after.contains(d) by {
        let j = choose|j: int| 0 <= j < i && j < p.len() && #[trigger] p[j] == c && beside(p, j, d);
        assert(0 <= j < i + 1 && j < p.len() && p[j] == c && beside(p, j, d));
    }
    if p[i] == c {
        assert(beside(p, i, right) && beside(p, i, left));
        assert(after.contains(right));
        assert(after.contains(left));
        assert forall|d: usize| after.contains(d) implies before.insert(right).insert(
            left,
        ).contains(d) by {
            let j = choose|j: int|
                0 <= j < i + 1 && j < p.len() && #[trigger] p[j] == c && beside(p, j, d);
            if j < i {
                assert(before.contains(d));
            }
        }
        assert(after =~= before.insert(right).insert(left));
    } else {
        assert forall|d: usize| after.contains(d) implies before.contains(d) by {
            let j = choose|j: int|
                0 <= j < i + 1 && j < p.len() && #[trigger] p[j] == c && beside(p, j, d);
            assert(j < i);
        }
        assert(after =~= before);
    }
}

/// Placing a city closes the edges that lead to it.
pub proof fn lemma_open_edges_push(
    p1: Seq<usize>,
    p2: Seq<usize>,
    placed: Seq<usize>,
    city: usize,
    c: usize,
)
    ensures
        open_edges(p1, p2, placed.push(city), c) == open_edges(p1, p2, placed, c).remove(city),
{
    let grown = placed.push(city);
    assert forall|d: usize| grown.contains(d) <==> (placed.contains(d) || d == city) by {
        if placed.contains(d) {
            let i = choose|i: int| 0 <= i < placed.len() && placed[i] == d;
            assert(grown[i] == d);
        }
        if d == city {
            assert(grown[placed.len() as int] == d);
        }
        if grown.contains(d) {
            let i = choose|i: int| 0 <= i < grown.len() && grown[i] == d;
            if i < placed.len() {
                assert(placed[i] == d);
            }
        }
    }
    assert(open_edges(p1, p2, grown, c) =~= open_edges(p1, p2, placed, c).remove(city));
}

/// Adjacency sets for the cities `0..len`.
#[derive(Debug)]
pub struct EdgeMap {
    pub sets: Vec<HashSet<usize>>,
}

impl EdgeMap {
    /// Every city in an adjacency set has an adjacency set of its own.
    pub open spec fn wf(&self) -> bool {
        forall|c: int, d: usize|
            0 <= c < self.sets@.len() && #[trigger] self.sets@[c]@.contains(d) ==> d
                < self.sets@.len()
    }

    /// The number of cities.
    pub open spec fn len(&self) -> nat {
        self.sets@.len()
    }

    /// The adjacency set of city `c`.
    pub open spec fn edges(&self, c: int) -> Set<usize> {
        self.sets@[c]@
    }

    /// The size of the adjacency set of city `c`.
    pub open spec fn degree(&self, c: int) -> nat {
        self.sets@[c]@.len()
    }

    /// Whether every adjacency set equals the open edges of its city, given
    /// the parents and the cities placed so far.
    pub open spec fn tracks(&self, p1: Seq<usize>, p2: Seq<usize>, placed: Seq<usize>) -> bool {
        forall|c: int|
            0 <= c < self.sets@.len() ==> #[trigger] self.edges(c) == open_edges(
                p1,
                p2,
                placed,
                c as usize,
            )
    }

    /// A map of `n` empty adjacency sets.
    pub fn empty(n: usize) -> (map: EdgeMap)
        ensures
            map.wf(),
            map.len() == n,
            forall|c: int| 0 <= c < n ==> #[trigger] map.edges(c) == Set::<usize>::empty(),
    {
        let mut sets: Vec<HashSet<usize>> = Vec::new();
        let mut k: usize = 0;
        while k < n
            invariant
                k <= n,
                sets@.len() == k,
                forall|c: int| 0 <= c < k ==> (#[trigger] sets@[c])@ == Set::<usize>::empty(),
            decreases n - k,
        {
            sets.push(HashSet::new());
            k += 1;
        }
        EdgeMap { sets }
    }

    /// Puts `d` into the adjacency set of `c`.
    pub fn add_edge(&mut self, c: usize, d: usize)
        requires
            old(self).wf(),
            c < old(self).len(),
            d < old(self).len(),
        ensures
            final(self).wf(),
            final(self).len() == old(self).len(),
            final(self).edges(c as int) == old(self).edges(c as int).insert(d),
            forall|o: int|
                0 <= o < old(self).len() && o != c ==> #[trigger] final(self).sets@[o]
                    == old(self).sets@[o],
    {
        broadcast use group_hash_axioms;

        self.sets[c].insert(d);
    }

    /// Gives every city its two neighbours on the cycle `p`.
    pub fn add_cycle(&mut self, p: &Vec<usize>)
        requires
            old(self).wf(),
            p@.len() == old(self).len(),
            forall|i: int| 0 <= i < p@.len() ==> #[trigger] p@[i] < p@.len(),
        ensures
            final(self).wf(),
            final(self).len() == old(self).len(),
            forall|c: int|
                0 <= c < old(self).len() ==> #[trigger] final(self).edges(c)
                    == old(self).edges(c).union(neighbours(p@, c as usize)),
    {
        let n: usize = p.len();
        let mut i: usize = 0;
        proof {
            assert forall|c: int| 0 <= c < n implies #[trigger] self.edges(c)
                == old(self).edges(c).union(neighbours_before(p@, c as usize, 0)) by {
                assert(neighbours_before(p@, c as usize, 0) =~= Set::empty());
                assert(self.edges(c).union(Set::empty()) =~= self.edges(c));
            }
        }
        while i < n
            invariant
                self.wf(),
                self.len() == n,
                old(self).len() == n,
                p@.len() == n,
                i <= n,
                forall|k: int| 0 <= k < p@.len() ==> #[trigger] p@[k] < p@.len(),
                forall|c: int|
                    0 <= c < n ==> #[trigger] self.edges(c) == old(self).edges(c).union(
                        neighbours_before(p@, c as usize, i as int),
                    ),
            decreases n - i,
        {
            let city: usize = p[i];
            let right: usize = p[if i + 1 == n {
                0
            } else {
                i + 1
            }];
            let left: usize = p[if i == 0 {
                n - 1
            } else {
                i - 1
            }];
            let ghost before = *self;
            self.add_edge(city, right);
            self.add_edge(city, left);
            proof {
                assert forall|c: int| 0 <= c < n implies #[trigger] self.edges(c)
                    == old(self).edges(c).union(neighbours_before(p@, c as usize, i + 1)) by {
                    lemma_neighbours_step(p@, c as usize, i as int);
                    if c == city {
                        assert(self.edges(c) == before.edges(c).insert(right).insert(left));
                        assert(old(self).edges(c).union(
                            neighbours_before(p@, c as usize, i as int),
                        ).insert(right).insert(left) =~= old(self).edges(c).union(
                            neighbours_before(p@, c as usize, i as int).insert(right).insert(left),
                        ));
                    } else {
                        assert(self.edges(c) == before.edges(c));
                    }
                }
            }
            i += 1;
        }
    }

    /// The edge map of two parents: each city with the cities that stand
    /// next to it in either of them.
    pub fn build(p1: &Vec<usize>, p2: &Vec<usize>) -> (map: EdgeMap)
        requires
            p1@.len() == p2@.len(),
            forall|i: int| 0 <= i < p1@.len() ==> #[trigger] p1@[i] < p1@.len(),
            forall|i: int| 0 <= i < p2@.len() ==> #[trigger] p2@[i] < p2@.len(),
        ensures
            map.wf(),
            map.len() == p1@.len(),
            forall|c: int|
                0 <= c < p1@.len() ==> #[trigger] map.edges(c) == edge_set(p1@, p2@, c as usize),
    {
        let mut map = EdgeMap::empty(p1.len());
        let ghost blank = map;
        map.add_cycle(p1);
        let ghost half = map;
        map.add_cycle(p2);
        proof {
            assert forall|c: int| 0 <= c < p1@.len() implies #[trigger] map.edges(c) == edge_set(
                p1@,
                p2@,
                c as usize,
            ) by {
                assert(blank.edges(c) == Set::<usize>::empty());
                assert(half.edges(c) == blank.edges(c).union(neighbours(p1@, c as usize)));
                assert(map.edges(c) == half.edges(c).union(neighbours(p2@, c as usize)));
                assert(map.edges(c) =~= edge_set(p1@, p2@, c as usize));
            }
        }
        map
    }

    /// Takes `city` out of every adjacency set.
    pub fn strike(&mut self, city: usize)
        requires
            old(self).wf(),
        ensures
            final(self).wf(),
            final(self).len() == old(self).len(),
            forall|c: int|
                0 <= c < old(self).len() ==> #[trigger] final(self).edges(c)
                    == old(self).edges(c).remove(city),
    {
        broadcast use group_hash_axioms;

        let n: usize = self.sets.len();
        let mut c: usize = 0;
        while c < n
            invariant
                self.len() == n,
                old(self).len() == n,
                old(self).wf(),
                c <= n,
                forall|o: int|
                    0 <= o < c ==> #[trigger] self.edges(o) == old(self).edges(o).remove(city),
                forall|o: int| c <= o < n ==> #[trigger] self.sets@[o] == old(self).sets@[o],
            decreases n - c,
        {
            let ghost before = *self;
            self.sets[c].remove(&city);
            proof {
                assert forall|o: int| 0 <= o < c + 1 implies #[trigger] self.edges(o)
                    == old(self).edges(o).remove(city) by {
                    if o < c {
                        assert(self.sets@[o] == before.sets@[o]);
                        assert(before.edges(o) == old(self).edges(o).remove(city));
                    }
                }
            }
            c += 1;
        }
        proof {
            assert forall|o: int, d: usize|
                0 <= o < self.sets@.len() && #[trigger] self.sets@[o]@.contains(d) implies d
                < self.sets@.len() by {
                assert(self.edges(o) == old(self).edges(o).remove(city));
                assert(old(self).sets@[o]@.contains(d));
            }
        }
    }

    /// The neighbour of `current` that goes before all its other neighbours:
    /// the one with the fewest open edges, and of several such the smallest.
    /// `None` when `current` has no neighbour left.
    pub fn most_constrained(&self, current: usize) -> (r: Option<usize>)
        requires
            self.wf(),
            current < self.len(),
        ensures
            match r {
                None => self.edges(current as int).is_empty(),
                Some(x) => {
                    &&& x < self.len()
                    &&& self.edges(current as int).contains(x)
                    &&& forall|d: usize| #[trigger]
                        self.edges(current as int).contains(d) ==> goes_before(
                            self.degree(x as int),
                            x,
                            self.degree(d as int),
                            d,
                        )
                },
            },
    {
        broadcast use group_hash_axioms;

        let open: &HashSet<usize> = &self.sets[current];
        let mut best: Option<usize> = None;
        for d in iter: open.iter()
            invariant
                self.wf(),
                current < self.len(),
                *open == self.sets@[current as int],
                match best {
                    None => iter.index() == 0,
                    Some(x) => {
                        &&& x < self.len()
                        &&& self.edges(current as int).contains(x)
                        &&& forall|j: int|
                            0 <= j < iter.index() ==> goes_before(
                                self.degree(x as int),
                                x,
                                self.degree(*(#[trigger] iter.seq()[j]) as int),
                                *iter.seq()[j],
                            )
                    },
                },
        {
            let candidate: usize = *d;
            assert(self.sets@[current as int]@.contains(candidate));
            match best {
                None => {
                    best = Some(candidate);
                },
                Some(x) => {
                    let dc: usize = self.sets[candidate].len();
                    let dx: usize = self.sets[x].len();
                    if dc < dx || (dc == dx && candidate < x) {
                        best = Some(candidate);
                    }
                },
            }
        }
        best
    }
}

} // verus!
