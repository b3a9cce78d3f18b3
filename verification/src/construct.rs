//! The nearest-neighbour construction of a first tour.

use vstd::prelude::*;
use crate::instance::Instance;
use crate::tour::is_tour;

verus! {

/// The cities in the order of their numbers.
pub open spec fn identity_tour(n: nat) -> Seq<u32> {
    Seq::new(n, |k: int| k as u32)
}

/// `t` with the entries at the positions `a` and `b` exchanged.
pub open spec fn swapped(t: Seq<u32>, a: int, b: int) -> Seq<u32> {
    Seq::new(
        t.len(),
        |k: int|
            if k == a {
                t[b]
            } else if k == b {
                t[a]
            } else {
                t[k]
            },
    )
}

/// `p` is the first position after `i` whose city is nearest to the city
/// at position `i`, among all positions after `i`.
pub open spec fn is_nearest_pos(inst: &Instance, t: Seq<u32>, i: int, p: int) -> bool {
    &&& i + 1 <= p < t.len()
    &&& forall|k: int|
        i + 1 <= k < t.len() ==> inst.spec_dist(t[i] as int, t[p] as int) <= inst.spec_dist(
            t[i] as int,
            #[trigger] t[k] as int,
        )
    &&& forall|k: int|
        i + 1 <= k < p ==> inst.spec_dist(t[i] as int, t[p] as int) < inst.spec_dist(
            t[i] as int,
            #[trigger] t[k] as int,
        )
}

/// The position that `is_nearest_pos` describes.
pub open spec fn nearest_pos(inst: &Instance, t: Seq<u32>, i: int) -> int {
    choose|p: int| is_nearest_pos(inst, t, i, p)
}

/// The tour that the construction makes of `t` once the positions up to
/// `i` are settled: the nearest city to the one at `i` comes to `i + 1`,
/// and so on from there.
pub open spec fn nn_from(inst: &Instance, t: Seq<u32>, i: int) -> Seq<u32>
    decreases t.len() - i,
{
    if i < 0 || i + 2 >= t.len() {
        t
    } else {
        nn_from(inst, swapped(t, i + 1, nearest_pos(inst, t, i)), i + 1)
    }
}

/// Only one position is the first nearest.
pub proof fn lemma_nearest_pos_unique(inst: &Instance, t: Seq<u32>, i: int, p: int)
    requires
        is_nearest_pos(inst, t, i, p),
    ensures
        nearest_pos(inst, t, i) == p,
{
    let q = nearest_pos(inst, t, i);
    assert(is_nearest_pos(inst, t, i, q));
    if q < p {
        assert(inst.spec_dist(t[i] as int, t[p] as int) < inst.spec_dist(t[i] as int, t[q] as int));
        assert(inst.spec_dist(t[i] as int, t[q] as int) <= inst.spec_dist(t[i] as int, t[p] as int));
    } else if p < q {
        assert(inst.spec_dist(t[i] as int, t[q] as int) < inst.spec_dist(t[i] as int, t[p] as int));
        assert(inst.spec_dist(t[i] as int, t[p] as int) <= inst.spec_dist(t[i] as int, t[q] as int));
    }
}

/// Exchanging two entries of a tour leaves a tour.
pub proof fn lemma_swapped_is_tour(t: Seq<u32>, n: nat, a: int, b: int)
    requires
        is_tour(t, n),
        0 <= a < n,
        0 <= b < n,
    ensures
        is_tour(swapped(t, a, b), n),
{
    let r = swapped(t, a, b);
    assert forall|k: int| 0 <= k < r.len() implies (#[trigger] r[k]) < n by {
        let k2 = if k == a { b } else if k == b { a } else { k };
        assert(r[k] == t[k2]);
    }
    assert forall|x: int, y: int| 0 <= x < y < r.len() implies r[x] != r[y] by {
        let x2 = if x == a { b } else if x == b { a } else { x };
        let y2 = if y == a { b } else if y == b { a } else { y };
        assert(r[x] == t[x2]);
        assert(r[y] == t[y2]);
        if x2 < y2 {
            assert(t[x2] != t[y2]);
        } else {
            assert(t[y2] != t[x2]);
        }
    }
}

/// Builds a tour that starts at city 0 and goes on, from each city, to the
/// nearest city not yet visited; of several nearest cities the one that
/// stands first in the working order is taken. With two cities or fewer
/// the tour is the cities in the order of their numbers.
pub fn nn_tour(inst: &Instance) -> (tour: Vec<u32>)
    requires
        inst.wf(),
    ensures
        tour@ == nn_from(inst, identity_tour(inst.spec_size()), 0),
        is_tour(tour@, inst.spec_size()),
        inst.spec_size() > 0 ==> tour@[0] == 0,
        inst.spec_size() <= 2 ==> tour@ == identity_tour(inst.spec_size()),
        forall|a: int, p: int|
            0 <= a && a + 2 < tour@.len() && a < p < tour@.len() ==> inst.spec_dist(
                tour@[a] as int,
                tour@[a + 1] as int,
            ) <= #[trigger] inst.spec_dist(tour@[a] as int, tour@[p] as int),
{
    let n: usize = inst.size();
    let mut tour: Vec<u32> = Vec::new();
    let mut c: usize = 0;
    while c < n
        invariant
            c <= n,
            n == inst.spec_size(),
            n <= u32::MAX,
            tour@.len() == c,
            forall|k: int| 0 <= k < c ==> #[trigger] tour@[k] == k as u32,
        decreases n - c,
    {
        tour.push(c as u32);
        c += 1;
    }
    assert(tour@ =~= identity_tour(n as nat));
    if n <= 2 {
        return tour;
    }
    let mut i: usize = 0;
    while i < n - 2
        invariant
            i <= n - 2,
            n > 2,
            n == inst.spec_size(),
            inst.wf(),
            is_tour(tour@, n as nat),
            tour@[0] == 0,
            nn_from(inst, tour@, i as int) == nn_from(inst, identity_tour(n as nat), 0),
            forall|a: int, p: int|
                0 <= a < i && a < p < n ==> inst.spec_dist(tour@[a] as int, tour@[a + 1] as int)
                    <= #[trigger] inst.spec_dist(tour@[a] as int, tour@[p] as int),
        decreases n - 2 - i,
    {
        let mut nearest: usize = i + 1;
        let mut d_nearest: i32 = inst.dist(tour[i], tour[i + 1]);
        let mut j: usize = i + 2;
        while j < n
            invariant
                i + 2 <= j <= n,
                i + 1 <= nearest < j,
                n == inst.spec_size(),
                inst.wf(),
                is_tour(tour@, n as nat),
                d_nearest == inst.spec_dist(tour@[i as int] as int, tour@[nearest as int] as int),
                forall|k: int|
                    i + 1 <= k < j ==> d_nearest <= inst.spec_dist(
                        tour@[i as int] as int,
                        #[trigger] tour@[k] as int,
                    ),
                forall|k: int|
                    i + 1 <= k < nearest ==> d_nearest < inst.spec_dist(
                        tour@[i as int] as int,
                        #[trigger] tour@[k] as int,
                    ),
            decreases n - j,
        {
            let d_candidate: i32 = inst.dist(tour[i], tour[j]);
            if d_candidate < d_nearest {
                nearest = j;
                d_nearest = d_candidate;
            }
            j += 1;
        }
        proof {
            assert(is_nearest_pos(inst, tour@, i as int, nearest as int));
            lemma_nearest_pos_unique(inst, tour@, i as int, nearest as int);
            lemma_swapped_is_tour(tour@, n as nat, i + 1, nearest as int);
        }
        let ghost before: Seq<u32> = tour@;
        let a: u32 = tour[i + 1];
        let b: u32 = tour[nearest];
        tour.set(i + 1, b);
        tour.set(nearest, a);
        assert(tour@ =~= swapped(before, i + 1, nearest as int));
        proof {
            assert forall|a: int, p: int| 0 <= a < i + 1 && a < p < n implies inst.spec_dist(
                tour@[a] as int,
                tour@[a + 1] as int,
            ) <= #[trigger] inst.spec_dist(tour@[a] as int, tour@[p] as int) by {
                let p2 = if p == i + 1 {
                    nearest as int
                } else if p == nearest {
                    i + 1
                } else {
                    p
                };
                assert(tour@[p] == before[p2]);
                assert(tour@[a] == before[a]);
                if a < i {
                    assert(tour@[a + 1] == before[a + 1]);
                }
            }
        }
        i += 1;
    }
    tour
}

} // verus!
