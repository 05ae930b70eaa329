//! Users and their locations.
//!
//! A location is carried as a pair of microdegree coordinates — plain
//! integers that the contracts can speak about.  Whatever source the
//! records come from, the scorer only ever reads each record's location.

use vstd::prelude::*;

verus! {

/// A point on the sphere in microdegrees (degrees times one million) of
/// latitude and longitude.
#[derive(Clone, Copy, Debug, PartialEq, Eq, Structural)]
pub struct Location {
    /// Latitude in microdegrees.
    pub lat_e6: i32,
    /// Longitude in microdegrees.
    pub lng_e6: i32,
}

impl Location {
    /// Builds a location from microdegree coordinates.
    pub fn new(lat_e6: i32, lng_e6: i32) -> (r: Location)
        ensures
            r.lat_e6 == lat_e6,
            r.lng_e6 == lng_e6,
    {
        Location { lat_e6, lng_e6 }
    }
}

/// A record that needs to be distributed: all the pipeline reads of it
/// is a location, from which the owning cell is found.  The location is
/// a fixed attribute of the record: every call returns the one value
/// the specification names, so scoring and lookup agree on where a
/// record lives.
pub trait User {
    /// The record's location, as the contracts speak of it.  The
    /// default leaves it unconstrained; a verified implementation
    /// overrides it with the location it returns.
    open spec fn spec_location(&self) -> Location {
        vstd::pervasive::arbitrary()
    }

    /// The location used to find the record's cell.
    fn location(&self) -> (r: Location)
        ensures
            r == self.spec_location(),
    ;
}

} // verus!
