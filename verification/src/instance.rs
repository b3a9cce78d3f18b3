//! A problem instance: named, with its cities and its distance formula.

use vstd::prelude::*;
use crate::distance::{cost, max_cost, spec_cost, Coords, DistKind};

verus! {

/// An undirected edge between two cities.
#[derive(Clone, Copy, Debug, PartialEq, Eq, Structural)]
pub struct Edge {
    pub v: usize,
    pub u: usize,
}

/// The cities of one problem, with the formula that prices its edges.
/// Cities are known by their index in the list of coordinates.
#[derive(Clone)]
pub struct Instance {
    name: String,
    dist_type: String,
    coords: Vec<Coords>,
    kind: DistKind,
}

impl Instance {
    /// The coordinates of the cities, by city.
    pub closed spec fn spec_coords(&self) -> Seq<Coords> {
        self.coords@
    }

    /// The distance formula of the instance.
    pub closed spec fn spec_kind(&self) -> DistKind {
        self.kind
    }

    /// The name of the instance.
    pub closed spec fn spec_name(&self) -> Seq<char> {
        self.name@
    }

    /// The label of the distance formula, as the instance was given it.
    pub closed spec fn spec_dist_type(&self) -> Seq<char> {
        self.dist_type@
    }

    /// The number of cities.
    pub open spec fn spec_size(&self) -> nat {
        self.spec_coords().len()
    }

    /// Every city can be named by a `u32` and lies in range.
    pub open spec fn wf(&self) -> bool {
        &&& self.spec_coords().len() <= u32::MAX
        &&& forall|k: int|
            0 <= k < self.spec_coords().len() ==> (#[trigger] self.spec_coords()[k]).in_range()
    }

    /// The cost of the edge between the cities `v` and `u`.
    pub open spec fn spec_dist(&self, v: int, u: int) -> int {
        spec_cost(self.spec_kind(), self.spec_coords()[v], self.spec_coords()[u])
    }

    /// Builds an instance, or refuses one with too many cities or with a
    /// coordinate out of range.
    pub fn new(
        name: String,
        dist_type: String,
        kind: DistKind,
        coords: Vec<Coords>,
    ) -> (r: Option<Instance>)
        ensures
            r.is_some() <==> (coords@.len() <= u32::MAX && forall|k: int|
                0 <= k < coords@.len() ==> (#[trigger] coords@[k]).in_range()),
            r.is_some() ==> {
                &&& r.unwrap().wf()
                &&& r.unwrap().spec_coords() == coords@
                &&& r.unwrap().spec_kind() == kind
                &&& r.unwrap().spec_name() == name@
                &&& r.unwrap().spec_dist_type() == dist_type@
            },
    {
        if coords.len() > 0xffff_ffff {
            return None;
        }
        let mut k: usize = 0;
        while k < coords.len()
            invariant
                k <= coords@.len(),
                forall|m: int| 0 <= m < k ==> (#[trigger] coords@[m]).in_range(),
            decreases coords@.len() - k,
        {
            if !coords[k].is_in_range() {
                return None;
            }
            k += 1;
        }
        Some(Instance { name, dist_type, coords, kind })
    }

    /// The name of the instance.
    pub fn get_name(&self) -> (r: &str)
        ensures
            r@ == self.spec_name(),
    {
        self.name.as_str()
    }

    /// The label of the distance formula, as the instance was given it.
    pub fn get_dist_type(&self) -> (r: &str)
        ensures
            r@ == self.spec_dist_type(),
    {
        self.dist_type.as_str()
    }

    /// The distance formula of the instance.
    pub fn get_kind(&self) -> (r: DistKind)
        ensures
            r == self.spec_kind(),
    {
        self.kind
    }

    /// The number of cities.
    pub fn size(&self) -> (n: usize)
        ensures
            n == self.spec_size(),
    {
        self.coords.len()
    }

    /// The first coordinate of city `i`.
    pub fn get_x(&self, i: u32) -> (x: i64)
        requires
            i < self.spec_size(),
        ensures
            x == self.spec_coords()[i as int].x,
    {
        self.coords[i as usize].x
    }

    /// The second coordinate of city `i`.
    pub fn get_y(&self, i: u32) -> (y: i64)
        requires
            i < self.spec_size(),
        ensures
            y == self.spec_coords()[i as int].y,
    {
        self.coords[i as usize].y
    }

    /// The cost of the edge between the cities `v` and `u`.
    pub fn dist(&self, v: u32, u: u32) -> (d: i32)
        requires
            self.wf(),
            v < self.spec_size(),
            u < self.spec_size(),
        ensures
            d == self.spec_dist(v as int, u as int),
            0 <= d <= max_cost(),
    {
        cost(self.kind, self.coords[v as usize], self.coords[u as usize])
    }
}

} // verus!
