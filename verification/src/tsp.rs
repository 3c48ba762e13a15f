//! Problem instances and tours.
//!
//! An instance is a square table of whole-number distances between cities;
//! a tour is an ordering of the cities together with the length of the
//! closed path it describes.

use crate::permutation::is_permutation;
use vstd::prelude::*;

verus! {

/// The largest number of cities an instance may hold. With at most this many
/// legs of at most `u32::MAX` each, the length of a tour fits in a `u64`.
pub const MAX_CITIES: usize = 0xFFFF_FFFF;

/// Whether `rows` is a table of pairwise distances: square, zero on the
/// diagonal and symmetric.
pub open spec fn is_distance_matrix(rows: Seq<Vec<u32>>) -> bool {
    &&& rows.len() <= MAX_CITIES
    &&& forall|i: int| 0 <= i < rows.len() ==> (#[trigger] rows[i])@.len() == rows.len()
    &&& forall|i: int| 0 <= i < rows.len() ==> (#[trigger] rows[i])@[i] == 0
    &&& forall|i: int, j: int|
        0 <= i < rows.len() && 0 <= j < rows.len() ==> #[trigger] rows[i]@[j] == rows[j]@[i]
}

/// The distances between the cities `0..num_cities`.
#[derive(Debug)]
pub struct Instance {
    pub distances: Vec<Vec<u32>>,
    pub num_cities: usize,
}

impl Instance {
    /// The table is a distance matrix over exactly `num_cities` cities.
    pub open spec fn wf(&self) -> bool {
        &&& self.num_cities == self.distances@.len()
        &&& is_distance_matrix(self.distances@)
    }

    /// The distance between the cities `a` and `b`.
    pub open spec fn dist(&self, a: int, b: int) -> nat {
        self.distances@[a]@[b] as nat
    }

    /// Wraps a table of distances, or refuses it when it is no distance
    /// matrix.
    pub fn new(distances: Vec<Vec<u32>>) -> (r: Option<Instance>)
        ensures
            r is Some <==> is_distance_matrix(distances@),
            r matches Some(inst) ==> inst.wf() && inst.distances == distances,
    {
        let n: usize = distances.len();
        if n > MAX_CITIES {
            return None;
        }
        let mut i: usize = 0;
        while i < n
            invariant
                n == distances@.len(),
                n <= MAX_CITIES,
                i <= n,
                forall|k: int| 0 <= k < i ==> (#[trigger] distances@[k])@.len() == n,
            decreases n - i,
        {
            if distances[i].len() != n {
                return None;
            }
            i += 1;
        }
        let mut i: usize = 0;
        while i < n
            invariant
                n == distances@.len(),
                n <= MAX_CITIES,
                i <= n,
                forall|k: int| 0 <= k < n ==> (#[trigger] distances@[k])@.len() == n,
                forall|k: int| 0 <= k < i ==> (#[trigger] distances@[k])@[k] == 0,
                forall|k: int, j: int|
                    0 <= k < i && 0 <= j < n ==> #[trigger] distances@[k]@[j] == distances@[j]@[k],
            decreases n - i,
        {
            if distances[i][i] != 0 {
                return None;
            }
            let mut j: usize = 0;
            while j < n
                invariant
                    n == distances@.len(),
                    i < n,
                    j <= n,
                    forall|k: int| 0 <= k < n ==> (#[trigger] distances@[k])@.len() == n,
                    forall|m: int|
                        0 <= m < j ==> #[trigger] distances@[i as int]@[m]
                            == distances@[m]@[i as int],
                decreases n - j,
            {
                if distances[i][j] != distances[j][i] {
                    return None;
                }
                j += 1;
            }
            i += 1;
        }
        Some(Instance { distances, num_cities: n })
    }

    /// Looks up the distance between two cities.
    pub fn distance(&self, a: usize, b: usize) -> (d: u32)
        requires
            self.wf(),
            a < self.num_cities,
            b < self.num_cities,
        ensures
            d == self.dist(a as int, b as int),
    {
        self.distances[a][b]
    }
}

/// The length of leg `k` of the closed path through `cities`: from the city
/// at position `k` to the one after it, the first city following the last.
pub open spec fn leg(inst: Instance, cities: Seq<usize>, k: int) -> nat {
    inst.dist(cities[k] as int, cities[(k + 1) % (cities.len() as int)] as int)
}

/// The summed length of the first `k` legs.
pub open spec fn legs(inst: Instance, cities: Seq<usize>, k: nat) -> nat
    decreases k,
{
    if k == 0 {
        0
    } else {
        legs(inst, cities, (k - 1) as nat) + leg(inst, cities, k - 1)
    }
}

/// The length of the closed path through `cities`; zero below two cities.
pub open spec fn tour_cost(inst: Instance, cities: Seq<usize>) -> nat {
    if cities.len() < 2 {
        0
    } else {
        legs(inst, cities, cities.len())
    }
}

/// Whether all tours of the instance cost the same, so that no tour can
/// cost less than another.
#[verifier::opaque]
pub open spec fn is_flat(inst: Instance) -> bool {
    forall|s: Seq<usize>, t: Seq<usize>|
        #![trigger tour_cost(inst, s), tour_cost(inst, t)]
        is_permutation(s) && is_permutation(t) && s.len() == inst.num_cities && t.len()
            == inst.num_cities ==> tour_cost(inst, s) == tour_cost(inst, t)
}

/// An instance of at most one city is flat: every tour costs nothing.
pub proof fn lemma_small_instance_flat(inst: Instance)
    requires
        inst.num_cities <= 1,
    ensures
        is_flat(inst),
{
    reveal(is_flat);
}

/// On a flat instance two evaluated tours carry the same cost.
pub proof fn lemma_flat_costs(inst: Instance, a: Tour, b: Tour)
    requires
        is_flat(inst),
        a.is_tour_of(&inst),
        a.evaluated(&inst),
        b.is_tour_of(&inst),
        b.evaluated(&inst),
    ensures
        a.cost == b.cost,
{
    reveal(is_flat);
}

/// A sum of `k` legs is at most `k` times the largest distance.
pub proof fn lemma_legs_bound(inst: Instance, cities: Seq<usize>, k: nat)
    ensures
        legs(inst, cities, k) <= k * u32::MAX,
    decreases k,
{
    if k > 0 {
        lemma_legs_bound(inst, cities, (k - 1) as nat);
        assert((k - 1) * u32::MAX + u32::MAX == k * u32::MAX) by (nonlinear_arith);
    }
}

/// A candidate solution: the cities in visiting order, and the length of the
/// closed path through them as last computed by [`Tour::calculate_cost`].
#[derive(Debug)]
pub struct Tour {
    pub cities: Vec<usize>,
    pub cost: u64,
}

impl Tour {
    /// Every entry names a city of `inst`.
    pub open spec fn within(&self, inst: &Instance) -> bool {
        forall|i: int| 0 <= i < self.cities@.len() ==> #[trigger] self.cities@[i] < inst.num_cities
    }

    /// The tour visits each city of `inst` exactly once.
    pub open spec fn is_tour_of(&self, inst: &Instance) -> bool {
        &&& is_permutation(self.cities@)
        &&& self.cities@.len() == inst.num_cities
    }

    /// The stored cost is the length of the tour under `inst`.
    pub open spec fn evaluated(&self, inst: &Instance) -> bool {
        self.cost == tour_cost(*inst, self.cities@)
    }

    /// Recomputes the stored cost from the cities, which stay as they are.
    pub fn calculate_cost(&mut self, inst: &Instance)
        requires
            inst.wf(),
            old(self).within(inst),
            old(self).cities@.len() <= MAX_CITIES,
        ensures
            final(self).cities@ == old(self).cities@,
            final(self).cost == tour_cost(*inst, old(self).cities@),
    {
        let n: usize = self.cities.len();
        if n < 2 {
            self.cost = 0;
            return;
        }
        let mut cost: u64 = 0;
        let mut i: usize = 0;
        while i < n - 1
            invariant
                inst.wf(),
                self.within(inst),
                n == self.cities@.len(),
                2 <= n <= MAX_CITIES,
                i <= n - 1,
                cost == legs(*inst, self.cities@, i as nat),
            decreases n - 1 - i,
        {
            let a: usize = self.cities[i];
            let b: usize = self.cities[i + 1];
            proof {
                lemma_legs_bound(*inst, self.cities@, i as nat);
                assert(i * u32::MAX + u32::MAX <= MAX_CITIES * u32::MAX) by (nonlinear_arith)
                    requires
                        i < MAX_CITIES,
                ;
                assert((i + 1) % (n as int) == i + 1) by (nonlinear_arith)
                    requires
                        0 <= i,
                        i + 1 < n,
                ;
            }
            cost = cost + inst.distance(a, b) as u64;
            i += 1;
        }
        let first: usize = self.cities[0];
        let last: usize = self.cities[n - 1];
        proof {
            lemma_legs_bound(*inst, self.cities@, (n - 1) as nat);
            assert((n - 1) * u32::MAX + u32::MAX <= MAX_CITIES * u32::MAX) by (nonlinear_arith)
                requires
                    n <= MAX_CITIES,
            ;
            assert(((n - 1) + 1) % (n as int) == 0) by (nonlinear_arith)
                requires
                    n > 0,
            ;
        }
        cost = cost + inst.distance(last, first) as u64;
        self.cost = cost;
    }

    /// Whether the cities are a permutation of `0..len`.
    pub fn is_valid(&self) -> (ok: bool)
        ensures
            ok == is_permutation(self.cities@),
    {
        let n: usize = self.cities.len();
        let mut seen: Vec<bool> = Vec::new();
        let mut k: usize = 0;
        while k < n
            invariant
                k <= n,
                seen@.len() == k,
                forall|v: int| 0 <= v < k ==> !(#[trigger] seen@[v]),
            decreases n - k,
        {
            seen.push(false);
            k += 1;
        }
        let mut i: usize = 0;
        while i < n
            invariant
                n == self.cities@.len(),
                seen@.len() == n,
                i <= n,
                forall|j: int| 0 <= j < i ==> #[trigger] self.cities@[j] < n,
                forall|a: int, b: int| 0 <= a < b < i ==> self.cities@[a] != self.cities@[b],
                forall|v: int|
                    0 <= v < n ==> (#[trigger] seen@[v] <==> exists|j: int|
                        0 <= j < i && self.cities@[j] == v),
            decreases n - i,
        {
            let c: usize = self.cities[i];
            if c >= n {
                return false;
            }
            if seen[c] {
                proof {
                    let j = choose|j: int| 0 <= j < i && self.cities@[j] == c;
                    assert(self.cities@[j] == self.cities@[i as int]);
                }
                return false;
            }
            seen.set(c, true);
            proof {
                assert forall|v: int| 0 <= v < n implies (#[trigger] seen@[v] <==> exists|j: int|
                    0 <= j < i + 1 && self.cities@[j] == v) by {
                    if v == c {
                        assert(self.cities@[i as int] == v);
                    } else if seen@[v] {
                        let j = choose|j: int| 0 <= j < i && self.cities@[j] == v;
                        assert(0 <= j < i + 1 && self.cities@[j] == v);
                    }
                }
            }
            i += 1;
        }
        true
    }
}

impl Clone for Instance {
    /// A copy with the same distances.
    fn clone(&self) -> (r: Self)
        ensures
            r.num_cities == self.num_cities,
            r.distances@.len() == self.distances@.len(),
            forall|i: int|
                0 <= i < self.distances@.len() ==> (#[trigger] r.distances@[i])@
                    == self.distances@[i]@,
            self.wf() ==> r.wf(),
    {
        let mut rows: Vec<Vec<u32>> = Vec::with_capacity(self.distances.len());
        let mut i: usize = 0;
        while i < self.distances.len()
            invariant
                i <= self.distances@.len(),
                rows@.len() == i,
                forall|k: int| 0 <= k < i ==> (#[trigger] rows@[k])@ == self.distances@[k]@,
            decreases self.distances@.len() - i,
        {
            rows.push(self.distances[i].clone());
            i += 1;
        }
        Instance { distances: rows, num_cities: self.num_cities }
    }
}

impl Clone for Tour {
    /// A copy with the same cities and the same stored cost.
    fn clone(&self) -> (r: Self)
        ensures
            r.cities@ == self.cities@,
            r.cost == self.cost,
    {
        Tour { cities: self.cities.clone(), cost: self.cost }
    }
}

} // verus!
