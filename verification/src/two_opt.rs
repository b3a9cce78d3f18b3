//! The 2-opt local search: the gain of an exchange, the reversal that
//! carries it out, the scan from one position, and the search to a local
//! optimum.

use vstd::prelude::*;
use crate::instance::Instance;
use crate::tour::{
    gain, is_tour, is_two_opt_optimal, lemma_dist_symmetric, lemma_exchange_saves_gain,
    lemma_reversed_is_tour, lemma_tour_len_bounds, lemma_tour_visits_every_city, next_pos,
    reversed, seg_len, tour_len,
};

verus! {

/// The cost of the closed tour.
pub fn tour_length(inst: &Instance, tour: &[u32]) -> (length: i64)
    requires
        inst.wf(),
        is_tour(tour@, inst.spec_size()),
    ensures
        length == tour_len(inst, tour@),
{
    let n: usize = tour.len();
    if n == 0 {
        return 0;
    }
    let mut length: i64 = 0;
    let mut v: usize = 1;
    while v < n
        invariant
            1 <= v <= n,
            n == tour@.len(),
            inst.wf(),
            is_tour(tour@, inst.spec_size()),
            length == seg_len(inst, tour@, 0, v - 1),
            0 <= length <= (v - 1) * 0x3fff_ffff,
        decreases n - v,
    {
        let l: i32 = inst.dist(tour[v - 1], tour[v]);
        length += l as i64;
        v += 1;
    }
    let l: i32 = inst.dist(tour[n - 1], tour[0]);
    length + l as i64
}

/// What the exchange at positions `i` and `j` saves: the cost of the edges
/// after `i` and after `j`, less the cost of the two edges that replace
/// them.
pub fn two_opt_gain(inst: &Instance, tour: &[u32], i: usize, j: usize) -> (g: i32)
    requires
        inst.wf(),
        is_tour(tour@, inst.spec_size()),
        i + 1 < tour@.len(),
        j < tour@.len(),
    ensures
        g == gain(inst, tour@, i as int, j as int),
{
    let n: usize = inst.size();
    let jnext: usize = if j != n - 1 {
        j + 1
    } else {
        0
    };
    let added: i32 = inst.dist(tour[i], tour[j]) + inst.dist(tour[i + 1], tour[jnext]);
    let removed: i32 = inst.dist(tour[i], tour[i + 1]) + inst.dist(tour[j], tour[jnext]);
    removed - added
}

/// Reverses the entries at positions `i + 1 ..= j`, with two cursors that
/// move inward from both ends and exchange what they point at.
pub fn two_opt_apply(tour: &mut Vec<u32>, i: usize, j: usize)
    requires
        i <= j < old(tour)@.len(),
    ensures
        final(tour)@ == reversed(old(tour)@, i + 1, j as int),
{
    let n: usize = tour.len();
    let mut lo: usize = i + 1;
    let mut hi: usize = j;
    while lo < hi
        invariant
            i + 1 <= lo,
            hi <= j,
            lo + hi == i + 1 + j,
            j < tour@.len(),
            tour@.len() == old(tour)@.len(),
            forall|k: int|
                0 <= k < tour@.len() && !(lo <= k <= hi) ==> #[trigger] tour@[k] == reversed(
                    old(tour)@,
                    i + 1,
                    j as int,
                )[k],
            forall|k: int| lo <= k <= hi ==> #[trigger] tour@[k] == old(tour)@[k],
        decreases hi + 1 - lo,
    {
        let a: u32 = tour[lo];
        let b: u32 = tour[hi];
        tour.set(lo, b);
        tour.set(hi, a);
        lo += 1;
        hi -= 1;
    }
    assert(tour@ =~= reversed(old(tour)@, i + 1, j as int));
}

/// Reverses the entries at positions `i + 1 ..= j`, by exchanging the
/// entry at each offset into the first half of the stretch with the entry
/// at the same offset from its end.
pub fn two_opt_apply2(tour: &mut Vec<u32>, i: usize, j: usize)
    requires
        i <= j < old(tour)@.len(),
    ensures
        final(tour)@ == reversed(old(tour)@, i + 1, j as int),
{
    let n: usize = tour.len();
    let beg: usize = i + 1;
    let end: usize = j + 1;
    let sz: usize = (end - beg) / 2;
    let mut k: usize = 0;
    while k < sz
        invariant
            k <= sz,
            beg == i + 1,
            end == j + 1,
            sz == (end - beg) / 2,
            end <= tour@.len(),
            tour@.len() == old(tour)@.len(),
            forall|m: int|
                0 <= m < tour@.len() && !(beg + k <= m < end - k) ==> #[trigger] tour@[m]
                    == reversed(old(tour)@, i + 1, j as int)[m],
            forall|m: int| beg + k <= m < end - k ==> #[trigger] tour@[m] == old(tour)@[m],
        decreases sz - k,
    {
        let a: u32 = tour[beg + k];
        let b: u32 = tour[end - 1 - k];
        tour.set(beg + k, b);
        tour.set(end - 1 - k, a);
        k += 1;
    }
    assert(tour@ =~= reversed(old(tour)@, i + 1, j as int));
}

/// The tour and the don't-look bits after the scan from position `i` has
/// tried the partners `j ..`: each exchange with a positive gain is carried
/// out at once, and clears the bits of the two cities at the ends of the
/// reversed stretch.
pub open spec fn scan_from(inst: &Instance, t: Seq<u32>, bits: Seq<bool>, i: int, j: int) -> (
    Seq<u32>,
    Seq<bool>,
)
    decreases t.len() - j,
{
    if j >= t.len() {
        (t, bits)
    } else if gain(inst, t, i, j) > 0 {
        let r = reversed(t, i + 1, j);
        scan_from(
            inst,
            r,
            bits.update(r[i + 1] as int, false).update(r[j] as int, false),
            i,
            j + 1,
        )
    } else {
        scan_from(inst, t, bits, i, j + 1)
    }
}

/// The tour and the don't-look bits after the whole scan from position
/// `i`: where the scan has left the tour as it was, the city at position
/// `i` gets its bit.
pub open spec fn scan_at(inst: &Instance, t: Seq<u32>, bits: Seq<bool>, i: int) -> (
    Seq<u32>,
    Seq<bool>,
) {
    let s = scan_from(inst, t, bits, i, i + 2);
    if s.0 == t {
        (t, bits.update(t[i] as int, true))
    } else {
        s
    }
}

/// The tour and the don't-look bits after an inner pass has dealt with the
/// positions `i ..` of a tour of `n` cities: each position whose city has
/// no bit is scanned, the others are passed over.
pub open spec fn pass_from(inst: &Instance, t: Seq<u32>, bits: Seq<bool>, i: int, n: int) -> (
    Seq<u32>,
    Seq<bool>,
)
    decreases n - i,
{
    if i < 0 || i + 2 >= n {
        (t, bits)
    } else if bits[t[i] as int] {
        pass_from(inst, t, bits, i + 1, n)
    } else {
        let s = scan_at(inst, t, bits, i);
        pass_from(inst, s.0, s.1, i + 1, n)
    }
}

/// Don't-look bits for `n` cities, none of them set.
pub open spec fn no_bits(n: int) -> Seq<bool> {
    Seq::new(n as nat, |c: int| false)
}

/// The tour that the search reaches from `t` with the bits `bits`, where
/// `first` says that no inner pass of the current outer pass has run yet.
/// An inner pass that makes the tour shorter is followed by another on the
/// same bits. One that does not ends the outer pass: if it was the first of
/// its outer pass the search is over, otherwise a new outer pass starts on
/// cleared bits.
pub open spec fn search_from(
    inst: &Instance,
    t: Seq<u32>,
    bits: Seq<bool>,
    first: bool,
) -> Seq<u32>
    decreases tour_len(inst, t), (if first { 0int } else { 1int }),
{
    let p = pass_from(inst, t, bits, 0, t.len() as int);
    if 0 <= tour_len(inst, p.0) < tour_len(inst, t) {
        search_from(inst, p.0, p.1, false)
    } else if first {
        t
    } else {
        search_from(inst, t, no_bits(t.len() as int), true)
    }
}

/// Scans the partners `i + 2 ..` of position `i`, carries out every
/// exchange that has a positive gain, and returns the sum of those gains.
/// Where nothing was gained, the city at position `i` gets its don't-look
/// bit. The bits are kept by city, not by position.
pub fn i_loop(
    inst: &Instance,
    tour: &mut Vec<u32>,
    n: usize,
    i: usize,
    skipbits: &mut Vec<bool>,
) -> (i_gain: i64)
    requires
        inst.wf(),
        n == inst.spec_size(),
        is_tour(old(tour)@, n as nat),
        i + 2 <= n,
        old(skipbits)@.len() == n,
    ensures
        (final(tour)@, final(skipbits)@) == scan_at(inst, old(tour)@, old(skipbits)@, i as int),
        i_gain == tour_len(inst, old(tour)@) - tour_len(inst, final(tour)@),
        i_gain >= 0,
        is_tour(final(tour)@, n as nat),
        final(skipbits)@.len() == n,
        i_gain == 0 ==> final(tour)@ == old(tour)@,
        i_gain == 0 <==> forall|k: int|
            i + 2 <= k < n ==> #[trigger] gain(inst, old(tour)@, i as int, k) <= 0,
{
    let mut i_gain: i64 = 0;
    let mut j: usize = i + 2;
    proof {
        lemma_tour_len_bounds(inst, tour@);
    }
    while j < n
        invariant
            i + 2 <= j <= n,
            n == inst.spec_size(),
            inst.wf(),
            skipbits@.len() == n,
            is_tour(tour@, n as nat),
            is_tour(old(tour)@, n as nat),
            scan_from(inst, tour@, skipbits@, i as int, j as int) == scan_from(
                inst,
                old(tour)@,
                old(skipbits)@,
                i as int,
                i + 2,
            ),
            i_gain == tour_len(inst, old(tour)@) - tour_len(inst, tour@),
            0 <= i_gain,
            0 <= tour_len(inst, tour@),
            tour_len(inst, old(tour)@) <= 0x3fff_ffff_ffff_ffff,
            i_gain == 0 ==> tour@ == old(tour)@ && skipbits@ == old(skipbits)@,
            i_gain == 0 <==> forall|k: int|
                i + 2 <= k < j ==> #[trigger] gain(inst, old(tour)@, i as int, k) <= 0,
        decreases n - j,
    {
        let g: i32 = two_opt_gain(inst, tour.as_slice(), i, j);
        if g > 0 {
            proof {
                lemma_exchange_saves_gain(inst, tour@, i as int, j as int);
                lemma_reversed_is_tour(tour@, n as nat, i + 1, j as int);
                lemma_tour_len_bounds(inst, reversed(tour@, i + 1, j as int));
            }
            i_gain += g as i64;
            two_opt_apply(tour, i, j);
            let a: usize = tour[i + 1] as usize;
            skipbits.set(a, false);
            let b: usize = tour[j] as usize;
            skipbits.set(b, false);
        }
        j += 1;
    }
    if i_gain == 0 {
        let c: usize = tour[i] as usize;
        skipbits.set(c, true);
    }
    i_gain
}

/// A tour of fewer than four cities admits no exchange that gains.
pub proof fn lemma_small_tour_is_optimal(inst: &Instance, t: Seq<u32>)
    requires
        t.len() < 4,
    ensures
        is_two_opt_optimal(inst, t),
{
    assert forall|i: int, j: int| 0 <= i && i + 2 <= j < t.len() implies #[trigger] gain(
        inst,
        t,
        i,
        j,
    ) <= 0 by {
        assert(i == 0 && j == 2 && next_pos(t.len() as int, j) == 0);
        lemma_dist_symmetric(inst, t[0] as int, t[1] as int);
        lemma_dist_symmetric(inst, t[0] as int, t[2] as int);
    }
}

/// What a search makes of the tour `before`: `after` is a tour that no
/// exchange of two edges shortens, `total` is how much shorter it is than
/// `before`, which is never negative, and a tour that was such an optimum
/// already, or has fewer than four cities, is left as it was.
pub open spec fn is_optimized(
    inst: &Instance,
    before: Seq<u32>,
    after: Seq<u32>,
    total: int,
) -> bool {
    &&& is_tour(after, inst.spec_size())
    &&& is_two_opt_optimal(inst, after)
    &&& total == tour_len(inst, before) - tour_len(inst, after)
    &&& total >= 0
    &&& is_two_opt_optimal(inst, before) ==> after == before
    &&& before.len() < 4 ==> after == before
}

/// Across any run of searches, each on the tour that the one before it
/// left, the tour never gets longer.
pub proof fn lemma_searches_never_lengthen(
    inst: &Instance,
    tours: Seq<Seq<u32>>,
    gains: Seq<int>,
    a: int,
    b: int,
)
    requires
        tours.len() == gains.len() + 1,
        forall|k: int|
            0 <= k < gains.len() ==> is_optimized(inst, tours[k], tours[k + 1], #[trigger] gains[k]),
        0 <= a <= b < tours.len(),
    ensures
        tour_len(inst, tours[b]) <= tour_len(inst, tours[a]),
    decreases b - a,
{
    if a < b {
        lemma_searches_never_lengthen(inst, tours, gains, a, b - 1);
        assert(is_optimized(inst, tours[b - 1], tours[b], gains[b - 1]));
    }
}

/// A second search, on the tour that a first search left, gains nothing
/// and leaves that tour as it is.
pub proof fn lemma_search_is_idempotent(
    inst: &Instance,
    start: Seq<u32>,
    first: Seq<u32>,
    first_gain: int,
    second: Seq<u32>,
    second_gain: int,
)
    requires
        is_optimized(inst, start, first, first_gain),
        is_optimized(inst, first, second, second_gain),
    ensures
        second == first,
        second_gain == 0,
{
}

/// A search leaves every city on the tour, each at one position.
pub proof fn lemma_search_keeps_every_city(
    inst: &Instance,
    before: Seq<u32>,
    after: Seq<u32>,
    total: int,
    c: int,
)
    requires
        is_optimized(inst, before, after, total),
        0 <= c < inst.spec_size(),
    ensures
        after.len() == inst.spec_size(),
        exists|k: int| 0 <= k < after.len() && #[trigger] after[k] == c,
        forall|a: int, b: int| 0 <= a < b < after.len() ==> after[a] != after[b],
{
    lemma_tour_visits_every_city(after, inst.spec_size(), c);
}

fn clear_bits(bits: &mut Vec<bool>)
    ensures
        final(bits)@ == no_bits(old(bits)@.len() as int),
{
    let n: usize = bits.len();
    let mut c: usize = 0;
    while c < n
        invariant
            c <= n,
            bits@.len() == n,
            forall|m: int| 0 <= m < c ==> !(#[trigger] bits@[m]),
        decreases n - c,
    {
        bits.set(c, false);
        c += 1;
    }
    assert(bits@ =~= no_bits(n as int));
}

/// Improves the tour by exchanges of two edges until none gains, and
/// returns how much shorter the tour has become.
///
/// An outer pass clears the don't-look bits and repeats inner passes until
/// one of them gains nothing; an inner pass runs the scan from every
/// position whose city has no don't-look bit. The search ends with the
/// outer pass that gains nothing: its first inner pass has scanned every
/// position of the tour as it stands and found no exchange, so the tour is
/// a local optimum whatever the bits left out in earlier passes. A tour of
/// fewer than four cities is returned as it is.
pub fn two_opt_full(inst: &Instance, tour: &mut Vec<u32>) -> (total: i64)
    requires
        inst.wf(),
        is_tour(old(tour)@, inst.spec_size()),
    ensures
        is_optimized(inst, old(tour)@, final(tour)@, total as int),
        inst.spec_size() >= 4 ==> final(tour)@ == search_from(
            inst,
            old(tour)@,
            no_bits(inst.spec_size() as int),
            true,
        ),
{
    let n: usize = inst.size();
    if n < 4 {
        proof {
            lemma_small_tour_is_optimal(inst, tour@);
        }
        return 0;
    }
    let mut skipbits: Vec<bool> = Vec::new();
    let mut c: usize = 0;
    while c < n
        invariant
            c <= n,
            skipbits@.len() == c,
        decreases n - c,
    {
        skipbits.push(false);
        c += 1;
    }
    proof {
        lemma_tour_len_bounds(inst, tour@);
    }
    let mut total: i64 = 0;
    let mut ext_pass_gain: i64 = 1;
    while ext_pass_gain > 0
        invariant
            n == inst.spec_size(),
            n >= 4,
            inst.wf(),
            is_tour(tour@, n as nat),
            skipbits@.len() == n,
            total == tour_len(inst, old(tour)@) - tour_len(inst, tour@),
            total >= 0,
            ext_pass_gain >= 0,
            0 <= tour_len(inst, tour@),
            tour_len(inst, old(tour)@) <= 0x3fff_ffff_ffff_ffff,
            ext_pass_gain == 0 ==> is_two_opt_optimal(inst, tour@),
            is_two_opt_optimal(inst, old(tour)@) ==> tour@ == old(tour)@,
            search_from(inst, old(tour)@, no_bits(n as int), true) == if ext_pass_gain > 0 {
                search_from(inst, tour@, no_bits(n as int), true)
            } else {
                tour@
            },
        decreases
                tour_len(inst, tour@) + (if ext_pass_gain > 0 {
                    1int
                } else {
                    0int
                }),
    {
        ext_pass_gain = 0;
        clear_bits(&mut skipbits);
        let mut pass_gain: i64 = 1;
        let ghost mut fresh: bool = true;
        while pass_gain > 0
            invariant
                n == inst.spec_size(),
                n >= 4,
                inst.wf(),
                is_tour(tour@, n as nat),
                skipbits@.len() == n,
                total + ext_pass_gain == tour_len(inst, old(tour)@) - tour_len(inst, tour@),
                total >= 0,
                pass_gain >= 0,
                ext_pass_gain >= 0,
                0 <= tour_len(inst, tour@),
                tour_len(inst, old(tour)@) <= 0x3fff_ffff_ffff_ffff,
                fresh ==> pass_gain > 0 && ext_pass_gain == 0,
                fresh ==> skipbits@ == no_bits(n as int),
                !fresh && pass_gain > 0 ==> ext_pass_gain > 0,
                search_from(inst, old(tour)@, no_bits(n as int), true) == if pass_gain > 0 {
                    search_from(inst, tour@, skipbits@, fresh)
                } else if ext_pass_gain > 0 {
                    search_from(inst, tour@, no_bits(n as int), true)
                } else {
                    tour@
                },
                !fresh && ext_pass_gain == 0 ==> is_two_opt_optimal(inst, tour@),
                is_two_opt_optimal(inst, old(tour)@) ==> tour@ == old(tour)@,
            decreases
                    tour_len(inst, tour@) + (if pass_gain > 0 {
                        1int
                    } else {
                        0int
                    }),
        {
            pass_gain = 0;
            let ghost pass_start: Seq<u32> = tour@;
            let ghost bits_start: Seq<bool> = skipbits@;
            let mut i: usize = 0;
            while i < n - 2
                invariant
                    i <= n - 2,
                    n == inst.spec_size(),
                    n >= 4,
                    inst.wf(),
                    is_tour(tour@, n as nat),
                    skipbits@.len() == n,
                    pass_gain == tour_len(inst, pass_start) - tour_len(inst, tour@),
                    pass_gain >= 0,
                    0 <= tour_len(inst, tour@),
                    tour_len(inst, pass_start) <= tour_len(inst, old(tour)@),
                    tour_len(inst, old(tour)@) <= 0x3fff_ffff_ffff_ffff,
                    pass_gain == 0 ==> tour@ == pass_start,
                    fresh ==> bits_start == no_bits(n as int),
                    pass_from(inst, tour@, skipbits@, i as int, n as int) == pass_from(
                        inst,
                        pass_start,
                        bits_start,
                        0,
                        n as int,
                    ),
                    fresh && pass_gain == 0 ==> forall|p: int|
                        i <= p < n ==> !(#[trigger] skipbits@[tour@[p] as int]),
                    fresh && pass_gain == 0 ==> forall|a: int, b: int|
                        0 <= a < i && a + 2 <= b < n ==> #[trigger] gain(inst, tour@, a, b) <= 0,
                    is_two_opt_optimal(inst, old(tour)@) ==> tour@ == old(tour)@,
                decreases n - 2 - i,
            {
                let city: usize = tour[i] as usize;
                if !skipbits[city] {
                    let g: i64 = i_loop(inst, tour, n, i, &mut skipbits);
                    proof {
                        lemma_tour_len_bounds(inst, tour@);
                        if fresh && pass_gain == 0 && g == 0 {
                            assert forall|p: int| i + 1 <= p < n implies !(
                            #[trigger] skipbits@[tour@[p] as int]) by {
                                assert(tour@[p] != tour@[i as int]);
                            }
                        }
                    }
                    pass_gain += g;
                }
                i += 1;
            }
            ext_pass_gain += pass_gain;
            proof {
                fresh = false;
            }
        }
        total += ext_pass_gain;
    }
    total
}

} // verus!
