//! The cost model: four integer-valued distance formulas on planar points.
//!
//! Coordinates are integers, so every formula is computed exactly: the
//! square of the straight-line distance is an integer, and each rounding
//! rule becomes a pair of inequalities between integers.

use vstd::prelude::*;

verus! {

/// Largest absolute value a coordinate may have. It keeps every squared
/// distance within `u64` and every cost below 2^30, so that sums and
/// differences of two costs stay within `i32`.
pub const MAX_COORD: i64 = 268_435_456;

/// A point of the plane.
#[derive(Clone, Copy, Debug, PartialEq, Eq, Structural)]
pub struct Coords {
    pub x: i64,
    pub y: i64,
}

/// The formula by which an instance measures the cost of an edge.
#[derive(Clone, Copy, Debug, PartialEq, Eq, Structural)]
pub enum DistKind {
    /// Every edge costs 1.
    Constant,
    /// The straight-line distance, rounded to the nearest integer.
    Euclidean2D,
    /// The pseudo-Euclidean distance of the ATT instances.
    PseudoEuclideanAtt,
    /// The straight-line distance, rounded up.
    Euclidean2DCeil,
}

impl Coords {
    /// Both coordinates lie within `MAX_COORD` of the origin.
    pub open spec fn in_range(self) -> bool {
        &&& -MAX_COORD <= self.x <= MAX_COORD
        &&& -MAX_COORD <= self.y <= MAX_COORD
    }

    /// Tells whether both coordinates lie within `MAX_COORD` of the origin.
    pub fn is_in_range(&self) -> (b: bool)
        ensures
            b == self.in_range(),
    {
        -MAX_COORD <= self.x && self.x <= MAX_COORD && -MAX_COORD <= self.y && self.y
            <= MAX_COORD
    }
}

/// The integer part of the square root of `m`.
pub open spec fn floor_sqrt(m: nat) -> nat
    decreases m,
{
    if m == 0 {
        0
    } else {
        let s = floor_sqrt((m - 1) as nat);
        if (s + 1) * (s + 1) <= m {
            s + 1
        } else {
            s
        }
    }
}

/// The square of the straight-line distance between two points.
pub open spec fn sq_dist(v: Coords, u: Coords) -> nat {
    ((v.x - u.x) * (v.x - u.x) + (v.y - u.y) * (v.y - u.y)) as nat
}

/// The square root of `q`, rounded to the nearest integer (halves go up).
pub open spec fn round_sqrt(q: nat) -> nat {
    (floor_sqrt(4 * q) + 1) / 2
}

/// The square root of `q`, rounded up.
pub open spec fn ceil_sqrt(q: nat) -> nat {
    let s = floor_sqrt(q);
    if s * s == q {
        s
    } else {
        s + 1
    }
}

/// The pseudo-Euclidean cost for a squared distance `q`: the square root of
/// `q / 10` is rounded to the nearest integer, and one is added where that
/// rounding went down.
pub open spec fn att_cost(q: nat) -> nat {
    let t = (floor_sqrt((4 * q) / 10) + 1) / 2;
    if 10 * (t * t) < q {
        t + 1
    } else {
        t
    }
}

/// `r` is the nearest integer to the square root of `q`, halves going up:
/// `r - 1/2 <= sqrt(q) < r + 1/2`, with both sides doubled and squared.
pub open spec fn is_nearest_to_sqrt(q: nat, r: int) -> bool {
    &&& r >= 0
    &&& 4 * q < (2 * r + 1) * (2 * r + 1)
    &&& r > 0 ==> (2 * r - 1) * (2 * r - 1) <= 4 * q
}

/// `r` is the least integer that is not below the square root of `q`.
pub open spec fn is_least_above_sqrt(q: nat, r: int) -> bool {
    &&& r >= 0
    &&& q <= r * r
    &&& r > 0 ==> (r - 1) * (r - 1) < q
}

/// `t` is the nearest integer to the square root of `q / 10`, halves going
/// up: `t - 1/2 <= sqrt(q / 10) < t + 1/2`, doubled, squared and multiplied
/// by ten.
pub open spec fn is_nearest_to_sqrt_of_tenth(q: nat, t: int) -> bool {
    &&& t >= 0
    &&& 4 * q < 10 * ((2 * t + 1) * (2 * t + 1))
    &&& t > 0 ==> 10 * ((2 * t - 1) * (2 * t - 1)) <= 4 * q
}

/// `d` is the pseudo-Euclidean cost for the squared distance `q`: the
/// nearest integer `t` to the square root of `q / 10`, and one more where
/// `t` is below that root.
pub open spec fn is_att_cost(q: nat, d: int) -> bool {
    exists|t: int|
        #[trigger] is_nearest_to_sqrt_of_tenth(q, t) && d == if 10 * (t * t) < q {
            t + 1
        } else {
            t
        }
}

pub open spec fn spec_dist_one(v: Coords, u: Coords) -> int {
    1
}

pub open spec fn spec_dist_euc2d(v: Coords, u: Coords) -> int {
    round_sqrt(sq_dist(v, u)) as int
}

pub open spec fn spec_dist_att(v: Coords, u: Coords) -> int {
    att_cost(sq_dist(v, u)) as int
}

pub open spec fn spec_dist_ceil2d(v: Coords, u: Coords) -> int {
    ceil_sqrt(sq_dist(v, u)) as int
}

/// The cost of the edge between `v` and `u` under the formula `kind`.
pub open spec fn spec_cost(kind: DistKind, v: Coords, u: Coords) -> int {
    match kind {
        DistKind::Constant => spec_dist_one(v, u),
        DistKind::Euclidean2D => spec_dist_euc2d(v, u),
        DistKind::PseudoEuclideanAtt => spec_dist_att(v, u),
        DistKind::Euclidean2DCeil => spec_dist_ceil2d(v, u),
    }
}

/// Upper bound of every cost between two points in range.
pub open spec fn max_cost() -> int {
    0x3fff_ffff
}

proof fn lemma_square_le(a: int, b: int)
    requires
        0 <= a <= b,
    ensures
        a * a <= b * b,
{
    assert(a * a <= b * b) by (nonlinear_arith)
        requires
            0 <= a <= b,
    ;
}

proof fn lemma_square_lt(a: int, b: int)
    requires
        0 <= a < b,
    ensures
        a * a < b * b,
{
    assert(a * a < b * b) by (nonlinear_arith)
        requires
            0 <= a < b,
    ;
}

/// `floor_sqrt(m)` is the integer whose square is at most `m` while the
/// square of its successor is not.
pub proof fn lemma_floor_sqrt(m: nat)
    ensures
        floor_sqrt(m) * floor_sqrt(m) <= m,
        m < (floor_sqrt(m) + 1) * (floor_sqrt(m) + 1),
    decreases m,
{
    if m > 0 {
        let s = floor_sqrt((m - 1) as nat);
        lemma_floor_sqrt((m - 1) as nat);
        if (s + 1) * (s + 1) <= m {
            assert(floor_sqrt(m) == s + 1);
            lemma_square_lt(s as int + 1, s as int + 2);
        } else {
            assert(floor_sqrt(m) == s);
        }
    } else {
        assert(floor_sqrt(m) == 0);
        assert(0 < (0 + 1) * (0 + 1)) by (nonlinear_arith);
    }
}

/// No other integer lies that close below the square root of `m`.
pub proof fn lemma_floor_sqrt_unique(m: nat, s: nat)
    requires
        s * s <= m,
        m < (s + 1) * (s + 1),
    ensures
        s == floor_sqrt(m),
{
    let f = floor_sqrt(m);
    lemma_floor_sqrt(m);
    if s < f {
        lemma_square_le(s as int + 1, f as int);
    } else if f < s {
        lemma_square_le(f as int + 1, s as int);
    }
}

/// The integer part of the square root, found by bisection.
pub fn isqrt(m: u64) -> (s: u64)
    ensures
        s == floor_sqrt(m as nat),
        s * s <= m,
        m < (s + 1) * (s + 1),
{
    let mut lo: u64 = 0;
    let mut hi: u64 = 4_294_967_296;
    assert(m < hi * hi) by (nonlinear_arith)
        requires
            hi == 4_294_967_296,
            m <= u64::MAX,
    ;
    while hi - lo > 1
        invariant
            lo < hi <= 4_294_967_296,
            lo * lo <= m,
            m < hi * hi,
        decreases hi - lo,
    {
        let mid: u64 = lo + (hi - lo) / 2;
        proof {
            lemma_square_le(mid as int, 4_294_967_295);
        }
        if mid * mid <= m {
            lo = mid;
        } else {
            hi = mid;
        }
    }
    proof {
        lemma_floor_sqrt_unique(m as nat, lo as nat);
    }
    lo
}

/// The square root of `m` stays below every `b` whose square exceeds `m`.
pub proof fn lemma_floor_sqrt_below(m: nat, b: nat)
    requires
        m < b * b,
    ensures
        floor_sqrt(m) < b,
{
    lemma_floor_sqrt(m);
    if floor_sqrt(m) >= b {
        lemma_square_le(b as int, floor_sqrt(m) as int);
    }
}

/// `round_sqrt(q)` is the nearest integer to the square root of `q`.
pub proof fn lemma_round_sqrt_is_nearest(q: nat)
    ensures
        is_nearest_to_sqrt(q, round_sqrt(q) as int),
{
    let s = floor_sqrt(4 * q) as int;
    let r = round_sqrt(q) as int;
    lemma_floor_sqrt(4 * q);
    if s == 2 * r {
        if r > 0 {
            lemma_square_le(2 * r - 1, s);
        }
    } else {
        assert(s == 2 * r - 1);
        lemma_square_le(s + 1, 2 * r + 1);
    }
}

/// Only one integer is the nearest to the square root of `q`.
pub proof fn lemma_nearest_to_sqrt_unique(q: nat, r: int)
    requires
        is_nearest_to_sqrt(q, r),
    ensures
        r == round_sqrt(q),
{
    let r2 = round_sqrt(q) as int;
    lemma_round_sqrt_is_nearest(q);
    if r < r2 {
        lemma_square_le(2 * r + 1, 2 * r2 - 1);
    } else if r2 < r {
        lemma_square_le(2 * r2 + 1, 2 * r - 1);
    }
}

/// `ceil_sqrt(q)` is the least integer not below the square root of `q`.
pub proof fn lemma_ceil_sqrt_is_least(q: nat)
    ensures
        is_least_above_sqrt(q, ceil_sqrt(q) as int),
{
    let s = floor_sqrt(q);
    lemma_floor_sqrt(q);
    if s * s == q && s > 0 {
        lemma_square_lt(s - 1, s as int);
    }
}

/// Only one integer is the least not below the square root of `q`.
pub proof fn lemma_least_above_sqrt_unique(q: nat, r: int)
    requires
        is_least_above_sqrt(q, r),
    ensures
        r == ceil_sqrt(q),
{
    let r2 = ceil_sqrt(q) as int;
    lemma_ceil_sqrt_is_least(q);
    if r < r2 {
        lemma_square_le(r, r2 - 1);
    } else if r2 < r {
        lemma_square_le(r2, r - 1);
    }
}

/// `att_cost(q)` is the pseudo-Euclidean cost for the squared distance `q`.
pub proof fn lemma_att_cost_is_att(q: nat)
    ensures
        is_att_cost(q, att_cost(q) as int),
{
    let m = (4 * q) / 10;
    let s = floor_sqrt(m) as int;
    let t = (s + 1) / 2;
    lemma_floor_sqrt(m);
    lemma_square_le(s + 1, 2 * t + 1);
    if t > 0 {
        lemma_square_le(2 * t - 1, s);
    }
    assert(is_nearest_to_sqrt_of_tenth(q, t));
}

/// Only one integer is the pseudo-Euclidean cost for `q`.
pub proof fn lemma_att_cost_unique(q: nat, d: int)
    requires
        is_att_cost(q, d),
    ensures
        d == att_cost(q),
{
    let t = choose|t: int|
        #[trigger] is_nearest_to_sqrt_of_tenth(q, t) && d == if 10 * (t * t) < q {
            t + 1
        } else {
            t
        };
    let m = (4 * q) / 10;
    let s = floor_sqrt(m) as int;
    let t2 = (s + 1) / 2;
    lemma_floor_sqrt(m);
    lemma_square_le(s + 1, 2 * t2 + 1);
    if t2 > 0 {
        lemma_square_le(2 * t2 - 1, s);
    }
    if t < t2 {
        lemma_square_le(2 * t + 1, 2 * t2 - 1);
    } else if t2 < t {
        lemma_square_le(2 * t2 + 1, 2 * t - 1);
    }
    assert(t == t2);
}

/// The squared distance does not depend on the order of the two points.
pub proof fn lemma_sq_dist_symmetric(v: Coords, u: Coords)
    ensures
        sq_dist(v, u) == sq_dist(u, v),
{
    let dx = v.x - u.x;
    let dy = v.y - u.y;
    assert(dx * dx == (-dx) * (-dx)) by (nonlinear_arith);
    assert(dy * dy == (-dy) * (-dy)) by (nonlinear_arith);
    assert(u.x - v.x == -dx);
    assert(u.y - v.y == -dy);
}

/// Between two points in range the squared distance is at most 2^59.
pub proof fn lemma_sq_dist_bound(v: Coords, u: Coords)
    requires
        v.in_range(),
        u.in_range(),
    ensures
        (v.x - u.x) * (v.x - u.x) + (v.y - u.y) * (v.y - u.y) >= 0,
        sq_dist(v, u) <= 0x0800_0000_0000_0000,
{
    let dx = v.x - u.x;
    let dy = v.y - u.y;
    assert(0 <= dx * dx <= 0x0400_0000_0000_0000) by (nonlinear_arith)
        requires
            -0x2000_0000 <= dx <= 0x2000_0000,
    ;
    assert(0 <= dy * dy <= 0x0400_0000_0000_0000) by (nonlinear_arith)
        requires
            -0x2000_0000 <= dy <= 0x2000_0000,
    ;
}

/// Every formula is symmetric in its two points.
pub proof fn lemma_cost_symmetric(kind: DistKind, v: Coords, u: Coords)
    ensures
        spec_cost(kind, v, u) == spec_cost(kind, u, v),
{
    lemma_sq_dist_symmetric(v, u);
}

/// Between two points in range every formula gives a cost that is not
/// negative and stays below 2^30, so that the sum of two costs fits in `i32`.
pub proof fn lemma_cost_bounds(kind: DistKind, v: Coords, u: Coords)
    requires
        v.in_range(),
        u.in_range(),
    ensures
        0 <= spec_cost(kind, v, u) <= max_cost(),
{
    lemma_sq_dist_bound(v, u);
    let q = sq_dist(v, u);
    lemma_floor_sqrt_below(4 * q, 0x7fff_ffff);
    lemma_floor_sqrt_below((4 * q) / 10, 0x2000_0000);
    lemma_floor_sqrt_below(q, 0x3fff_ffff);
}

fn squared_distance(v: Coords, u: Coords) -> (q: u64)
    requires
        v.in_range(),
        u.in_range(),
    ensures
        q == sq_dist(v, u),
        q <= 0x0800_0000_0000_0000,
{
    let dx: i64 = v.x - u.x;
    let dy: i64 = v.y - u.y;
    proof {
        lemma_sq_dist_bound(v, u);
        assert(0 <= dx * dx <= 0x0400_0000_0000_0000) by (nonlinear_arith)
            requires
                -0x2000_0000 <= dx <= 0x2000_0000,
        ;
        assert(0 <= dy * dy <= 0x0400_0000_0000_0000) by (nonlinear_arith)
            requires
                -0x2000_0000 <= dy <= 0x2000_0000,
        ;
    }
    let q: i64 = dx * dx + dy * dy;
    q as u64
}

/// The constant formula: every edge costs 1.
pub fn dist_one(v: Coords, u: Coords) -> (d: i32)
    ensures
        d == spec_dist_one(v, u),
{
    1
}

/// The straight-line distance, rounded to the nearest integer.
pub fn dist_euc2d(v: Coords, u: Coords) -> (d: i32)
    requires
        v.in_range(),
        u.in_range(),
    ensures
        d == spec_dist_euc2d(v, u),
        is_nearest_to_sqrt(sq_dist(v, u), d as int),
{
    proof {
        lemma_round_sqrt_is_nearest(sq_dist(v, u));
    }
    let q: u64 = squared_distance(v, u);
    let s: u64 = isqrt(4 * q);
    proof {
        lemma_floor_sqrt_below((4 * q) as nat, 0x8000_0000);
    }
    ((s + 1) / 2) as i32
}

/// The pseudo-Euclidean distance of the ATT instances.
pub fn dist_att(v: Coords, u: Coords) -> (d: i32)
    requires
        v.in_range(),
        u.in_range(),
    ensures
        d == spec_dist_att(v, u),
        is_att_cost(sq_dist(v, u), d as int),
{
    proof {
        lemma_att_cost_is_att(sq_dist(v, u));
    }
    let q: u64 = squared_distance(v, u);
    let s: u64 = isqrt((4 * q) / 10);
    proof {
        lemma_floor_sqrt_below(((4 * q) / 10) as nat, 0x8000_0000);
    }
    let t: u64 = (s + 1) / 2;
    proof {
        lemma_square_le(t as int, 0x4000_0000);
    }
    if 10 * (t * t) < q {
        (t + 1) as i32
    } else {
        t as i32
    }
}

/// The straight-line distance, rounded up.
pub fn dist_ceil2d(v: Coords, u: Coords) -> (d: i32)
    requires
        v.in_range(),
        u.in_range(),
    ensures
        d == spec_dist_ceil2d(v, u),
        is_least_above_sqrt(sq_dist(v, u), d as int),
{
    proof {
        lemma_ceil_sqrt_is_least(sq_dist(v, u));
    }
    let q: u64 = squared_distance(v, u);
    let s: u64 = isqrt(q);
    proof {
        lemma_floor_sqrt_below(q as nat, 0x4000_0000);
    }
    if s * s == q {
        s as i32
    } else {
        (s + 1) as i32
    }
}

/// The cost of the edge between `v` and `u` under the formula `kind`.
pub fn cost(kind: DistKind, v: Coords, u: Coords) -> (d: i32)
    requires
        v.in_range(),
        u.in_range(),
    ensures
        d == spec_cost(kind, v, u),
        0 <= d <= max_cost(),
{
    proof {
        lemma_cost_bounds(kind, v, u);
    }
    match kind {
        DistKind::Constant => dist_one(v, u),
        DistKind::Euclidean2D => dist_euc2d(v, u),
        DistKind::PseudoEuclideanAtt => dist_att(v, u),
        DistKind::Euclidean2DCeil => dist_ceil2d(v, u),
    }
}

/// The label `EUC_2D`, as bytes in ASCII.
pub open spec fn tag_euc_2d() -> Seq<u8> {
    seq![0x45u8, 0x55u8, 0x43u8, 0x5fu8, 0x32u8, 0x44u8]
}

/// The label `CEIL_2D`, as bytes in ASCII.
pub open spec fn tag_ceil_2d() -> Seq<u8> {
    seq![0x43u8, 0x45u8, 0x49u8, 0x4cu8, 0x5fu8, 0x32u8, 0x44u8]
}

/// The label `ATT`, as bytes in ASCII.
pub open spec fn tag_att() -> Seq<u8> {
    seq![0x41u8, 0x54u8, 0x54u8]
}

/// The formula that a label names, if it names one.
pub open spec fn spec_kind_of_tag(tag: Seq<u8>) -> Option<DistKind> {
    if tag == tag_euc_2d() {
        Some(DistKind::Euclidean2D)
    } else if tag == tag_ceil_2d() {
        Some(DistKind::Euclidean2DCeil)
    } else if tag == tag_att() {
        Some(DistKind::PseudoEuclideanAtt)
    } else {
        None
    }
}

/// Resolves the label of a distance formula: `EUC_2D`, `CEIL_2D` or `ATT`.
/// Any other label names no formula, and none is put in its place.
pub fn kind_of_tag(tag: &[u8]) -> (kind: Option<DistKind>)
    ensures
        kind == spec_kind_of_tag(tag@),
{
    if tag.len() == 6 && tag[0] == 0x45u8 && tag[1] == 0x55u8 && tag[2] == 0x43u8 && tag[3] == 0x5fu8
        && tag[4] == 0x32u8 && tag[5] == 0x44u8 {
        assert(tag@ =~= tag_euc_2d());
        Some(DistKind::Euclidean2D)
    } else if tag.len() == 7 && tag[0] == 0x43u8 && tag[1] == 0x45u8 && tag[2] == 0x49u8 && tag[3]
        == 0x4cu8 && tag[4] == 0x5fu8 && tag[5] == 0x32u8 && tag[6] == 0x44u8 {
        assert(tag@ =~= tag_ceil_2d());
        Some(DistKind::Euclidean2DCeil)
    } else if tag.len() == 3 && tag[0] == 0x41u8 && tag[1] == 0x54u8 && tag[2] == 0x54u8 {
        assert(tag@ =~= tag_att());
        Some(DistKind::PseudoEuclideanAtt)
    } else {
        assert(tag@ != tag_euc_2d()) by {
            if tag@ == tag_euc_2d() {
                assert(tag@.len() == 6);
                assert(tag@[0] == 0x45u8 && tag@[1] == 0x55u8 && tag@[2] == 0x43u8 && tag@[3] == 0x5fu8
                    && tag@[4] == 0x32u8 && tag@[5] == 0x44u8);
            }
        }
        assert(tag@ != tag_ceil_2d()) by {
            if tag@ == tag_ceil_2d() {
                assert(tag@.len() == 7);
                assert(tag@[0] == 0x43u8 && tag@[1] == 0x45u8 && tag@[2] == 0x49u8 && tag@[3] == 0x4cu8
                    && tag@[4] == 0x5fu8 && tag@[5] == 0x32u8 && tag@[6] == 0x44u8);
            }
        }
        assert(tag@ != tag_att()) by {
            if tag@ == tag_att() {
                assert(tag@.len() == 3);
                assert(tag@[0] == 0x41u8 && tag@[1] == 0x54u8 && tag@[2] == 0x54u8);
            }
        }
        None
    }
}

} // verus!
