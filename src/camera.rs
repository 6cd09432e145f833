//! The identity of a camera and the sightings it reports.

use vstd::prelude::*;

verus! {

/// The self-reported identity of a camera: its road, its position in miles,
/// and the road's limit in miles per hour.
#[derive(Clone, Copy, Debug, PartialEq, Eq, Hash)]
pub struct Camera {
    pub road: u16,
    pub mile: u16,
    pub limit: u16,
}

/// One sighting of a plate, at a time in seconds.
#[derive(Clone, Debug, PartialEq, Eq, Hash)]
pub struct PlateRecord {
    pub plate: String,
    pub timestamp: u32,
}

} // verus!
