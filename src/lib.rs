use vstd::prelude::*;

pub mod cells;
pub mod chance;
pub mod citizen;
pub mod counts;
pub mod geometry;
pub mod grid;
pub mod location_map;

verus! {

} // verus!
