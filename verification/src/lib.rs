//! Approximate solver for the symmetric travelling salesman problem on
//! planar instances: a nearest-neighbour construction followed by 2-opt
//! local search, with every function proved against its contract.

pub mod construct;
pub mod distance;
pub mod instance;
pub mod tour;
pub mod two_opt;
