//! Tours as sequences of cities: what a tour is, what it costs, and how
//! reversing a stretch of it changes that cost.

use vstd::prelude::*;
use crate::distance::{lemma_cost_bounds, lemma_cost_symmetric, max_cost};
use crate::instance::Instance;
use vstd::set_lib::{lemma_int_range, lemma_subset_equality, set_int_range};

verus! {

/// `t` visits each of the cities `0 .. n` once: it has `n` entries, each
/// names a city, and no city is named twice.
pub open spec fn is_tour(t: Seq<u32>, n: nat) -> bool {
    &&& t.len() == n
    &&& forall|k: int| 0 <= k < t.len() ==> (#[trigger] t[k]) < n
    &&& forall|a: int, b: int| 0 <= a < b < t.len() ==> t[a] != t[b]
}

/// The cost of the edges between consecutive positions from `a` to `b`.
pub open spec fn seg_len(inst: &Instance, t: Seq<u32>, a: int, b: int) -> int
    decreases b - a,
{
    if b <= a {
        0
    } else {
        seg_len(inst, t, a, b - 1) + inst.spec_dist(t[b - 1] as int, t[b] as int)
    }
}

/// The cost of the closed tour: all edges between consecutive positions,
/// and the edge from the last position back to the first.
pub open spec fn tour_len(inst: &Instance, t: Seq<u32>) -> int {
    if t.len() == 0 {
        0
    } else {
        seg_len(inst, t, 0, t.len() - 1) + inst.spec_dist(t[t.len() - 1] as int, t[0] as int)
    }
}

/// `t` with the entries at positions `beg ..= end` in reverse order.
pub open spec fn reversed(t: Seq<u32>, beg: int, end: int) -> Seq<u32> {
    Seq::new(
        t.len(),
        |k: int|
            if beg <= k <= end {
                t[beg + end - k]
            } else {
                t[k]
            },
    )
}

/// The position after `j` on a cyclic tour of `n` positions.
pub open spec fn next_pos(n: int, j: int) -> int {
    if j != n - 1 {
        j + 1
    } else {
        0
    }
}

/// What the exchange at positions `i` and `j` saves: the cost of the two
/// edges it removes less the cost of the two edges it adds.
pub open spec fn gain(inst: &Instance, t: Seq<u32>, i: int, j: int) -> int {
    let jn = next_pos(t.len() as int, j);
    (inst.spec_dist(t[i] as int, t[i + 1] as int) + inst.spec_dist(t[j] as int, t[jn] as int)) - (
    inst.spec_dist(t[i] as int, t[j] as int) + inst.spec_dist(t[i + 1] as int, t[jn] as int))
}

/// No exchange of two edges makes `t` shorter.
pub open spec fn is_two_opt_optimal(inst: &Instance, t: Seq<u32>) -> bool {
    forall|i: int, j: int| 0 <= i && i + 2 <= j < t.len() ==> #[trigger] gain(inst, t, i, j) <= 0
}

proof fn lemma_seg_single(inst: &Instance, t: Seq<u32>, a: int)
    ensures
        seg_len(inst, t, a, a + 1) == inst.spec_dist(t[a] as int, t[a + 1] as int),
{
    assert(seg_len(inst, t, a, a) == 0);
}

proof fn lemma_seg_split(inst: &Instance, t: Seq<u32>, a: int, m: int, b: int)
    requires
        a <= m <= b,
    ensures
        seg_len(inst, t, a, b) == seg_len(inst, t, a, m) + seg_len(inst, t, m, b),
    decreases b - m,
{
    if m < b {
        lemma_seg_split(inst, t, a, m, b - 1);
    }
}

proof fn lemma_seg_agree(inst: &Instance, t: Seq<u32>, t2: Seq<u32>, a: int, b: int)
    requires
        forall|k: int| a <= k <= b ==> t[k] == t2[k],
    ensures
        seg_len(inst, t, a, b) == seg_len(inst, t2, a, b),
    decreases b - a,
{
    if a < b {
        lemma_seg_agree(inst, t, t2, a, b - 1);
    }
}

proof fn lemma_seg_reverse(inst: &Instance, t: Seq<u32>, t2: Seq<u32>, a: int, b: int, c: int)
    requires
        a <= b,
        forall|k: int| a <= k <= b ==> t2[k] == t[c - k],
    ensures
        seg_len(inst, t2, a, b) == seg_len(inst, t, c - b, c - a),
    decreases b - a,
{
    if a < b {
        lemma_seg_reverse(inst, t, t2, a, b - 1, c);
        lemma_seg_split(inst, t, c - b, c - b + 1, c - a);
        lemma_seg_single(inst, t, c - b);
        lemma_cost_symmetric(
            inst.spec_kind(),
            inst.spec_coords()[t[c - b] as int],
            inst.spec_coords()[t[c - b + 1] as int],
        );
    }
}

/// The cost of an edge does not depend on its direction.
pub proof fn lemma_dist_symmetric(inst: &Instance, v: int, u: int)
    ensures
        inst.spec_dist(v, u) == inst.spec_dist(u, v),
{
    lemma_cost_symmetric(inst.spec_kind(), inst.spec_coords()[v], inst.spec_coords()[u]);
}

/// Between two cities of the instance the cost is not negative and stays
/// below 2^30.
pub proof fn lemma_dist_bounds(inst: &Instance, v: int, u: int)
    requires
        inst.wf(),
        0 <= v < inst.spec_size(),
        0 <= u < inst.spec_size(),
    ensures
        0 <= inst.spec_dist(v, u) <= max_cost(),
{
    lemma_cost_bounds(inst.spec_kind(), inst.spec_coords()[v], inst.spec_coords()[u]);
}

proof fn lemma_seg_bounds(inst: &Instance, t: Seq<u32>, a: int, b: int)
    requires
        inst.wf(),
        0 <= a <= b < t.len(),
        forall|k: int| 0 <= k < t.len() ==> (#[trigger] t[k]) < inst.spec_size(),
    ensures
        0 <= seg_len(inst, t, a, b) <= (b - a) * max_cost(),
    decreases b - a,
{
    if a < b {
        lemma_seg_bounds(inst, t, a, b - 1);
        lemma_dist_bounds(inst, t[b - 1] as int, t[b] as int);
        assert((b - a) * max_cost() == (b - 1 - a) * max_cost() + max_cost()) by (nonlinear_arith);
    } else {
        assert((b - a) * max_cost() == 0) by (nonlinear_arith)
            requires
                b - a == 0,
        ;
    }
}

/// A tour costs nothing negative, and at most the largest cost for each of
/// its edges.
pub proof fn lemma_tour_len_bounds(inst: &Instance, t: Seq<u32>)
    requires
        inst.wf(),
        is_tour(t, inst.spec_size()),
    ensures
        0 <= tour_len(inst, t) <= t.len() * max_cost(),
        tour_len(inst, t) <= 0x3fff_ffff_ffff_ffff,
{
    assert(t.len() * max_cost() <= 0x3fff_ffff_ffff_ffff) by (nonlinear_arith)
        requires
            t.len() <= 0xffff_ffff,
            max_cost() == 0x3fff_ffff,
    ;
    if t.len() > 0 {
        let n = t.len() as int;
        lemma_seg_bounds(inst, t, 0, n - 1);
        lemma_dist_bounds(inst, t[n - 1] as int, t[0] as int);
        assert(n * max_cost() == (n - 1 - 0) * max_cost() + max_cost()) by (nonlinear_arith);
    } else {
        assert(t.len() * max_cost() == 0) by (nonlinear_arith)
            requires
                t.len() == 0,
        ;
    }
}

/// Reversing a stretch of a tour leaves a tour.
pub proof fn lemma_reversed_is_tour(t: Seq<u32>, n: nat, beg: int, end: int)
    requires
        is_tour(t, n),
        0 <= beg <= end < n,
    ensures
        is_tour(reversed(t, beg, end), n),
{
    let r = reversed(t, beg, end);
    assert forall|k: int| 0 <= k < r.len() implies (#[trigger] r[k]) < n by {
        if beg <= k <= end {
            assert(r[k] == t[beg + end - k]);
        }
    }
    assert forall|a: int, b: int| 0 <= a < b < r.len() implies r[a] != r[b] by {
        let a2 = if beg <= a <= end { beg + end - a } else { a };
        let b2 = if beg <= b <= end { beg + end - b } else { b };
        assert(r[a] == t[a2]);
        assert(r[b] == t[b2]);
        assert(a2 != b2);
        if a2 < b2 {
            assert(t[a2] != t[b2]);
        } else {
            assert(t[b2] != t[a2]);
        }
    }
}

/// The exchange at positions `i` and `j` reverses the stretch between
/// them, and makes the tour shorter by exactly its gain.
pub proof fn lemma_exchange_saves_gain(inst: &Instance, t: Seq<u32>, i: int, j: int)
    requires
        0 <= i,
        i + 2 <= j < t.len(),
    ensures
        tour_len(inst, reversed(t, i + 1, j)) == tour_len(inst, t) - gain(inst, t, i, j),
{
    let n = t.len() as int;
    let r = reversed(t, i + 1, j);
    assert(r.len() == n);
    assert(r[i] == t[i]);
    assert(r[i + 1] == t[j]);
    assert(r[j] == t[i + 1]);
    assert(r[0] == t[0]);
    lemma_seg_split(inst, t, 0, i, j);
    lemma_seg_split(inst, t, i, i + 1, j);
    lemma_seg_single(inst, t, i);
    lemma_seg_split(inst, r, 0, i, j);
    lemma_seg_split(inst, r, i, i + 1, j);
    lemma_seg_single(inst, r, i);
    lemma_seg_agree(inst, t, r, 0, i);
    lemma_seg_reverse(inst, t, r, i + 1, j, i + 1 + j);
    if j < n - 1 {
        assert(r[j + 1] == t[j + 1]);
        assert(r[n - 1] == t[n - 1]);
        lemma_seg_split(inst, t, 0, j, n - 1);
        lemma_seg_split(inst, t, j, j + 1, n - 1);
        lemma_seg_single(inst, t, j);
        lemma_seg_split(inst, r, 0, j, n - 1);
        lemma_seg_split(inst, r, j, j + 1, n - 1);
        lemma_seg_single(inst, r, j);
        lemma_seg_agree(inst, t, r, j + 1, n - 1);
    }
}

/// A tour leaves no city out: every city stands at some position.
pub proof fn lemma_tour_visits_every_city(t: Seq<u32>, n: nat, c: int)
    requires
        is_tour(t, n),
        0 <= c < n,
    ensures
        exists|k: int| 0 <= k < n && #[trigger] t[k] == c,
{
    let s = Seq::new(n, |k: int| t[k] as int);
    assert forall|a: int, b: int| 0 <= a < s.len() && 0 <= b < s.len() && a != b implies s[a]
        != s[b] by {
        if a < b {
            assert(t[a] != t[b]);
        } else {
            assert(t[b] != t[a]);
        }
    }
    s.unique_seq_to_set();
    s.lemma_cardinality_of_set();
    lemma_int_range(0, n as int);
    let all = set_int_range(0, n as int);
    assert forall|x: int| s.to_set().contains(x) implies all.contains(x) by {
        let k = choose|k: int| 0 <= k < s.len() && s[k] == x;
        assert(t[k] < n);
    }
    vstd::seq_lib::seq_to_set_is_finite(s);
    lemma_subset_equality(s.to_set(), all);
    assert(all.contains(c));
    assert(s.to_set().contains(c));
    let k = choose|k: int| 0 <= k < s.len() && s[k] == c;
    assert(t[k] == c);
}

} // verus!
