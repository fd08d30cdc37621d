use vstd::prelude::*;

verus! {

/// Smallest latitude, in nanodegrees.
pub const MIN_LAT_NANO: i64 = -900_000_000;

/// Largest latitude, in nanodegrees.
pub const MAX_LAT_NANO: i64 = 900_000_000;

/// Smallest longitude, in nanodegrees.
pub const MIN_LON_NANO: i64 = -1_800_000_000;

/// Largest longitude, in nanodegrees.
pub const MAX_LON_NANO: i64 = 1_800_000_000;

/// True when `nd` nanodegrees lies in the latitude band.
pub open spec fn is_lat(nd: int) -> bool {
    MIN_LAT_NANO <= nd <= MAX_LAT_NANO
}

/// True when `nd` nanodegrees lies in the longitude band.
pub open spec fn is_lon(nd: int) -> bool {
    MIN_LON_NANO <= nd <= MAX_LON_NANO
}

/// A value in nanodegrees (1e-9 degrees).
#[derive(Debug, Clone, Copy, PartialEq, Eq, Hash)]
pub struct NanoDegree(pub i64);

impl NanoDegree {
    /// Creates a value from nanodegrees; it must lie in the longitude band,
    /// which holds the latitude band too.
    pub fn new(nd: i64) -> (r: NanoDegree)
        requires
            is_lon(nd as int),
        ensures
            r.0 == nd,
    {
        NanoDegree(nd)
    }

    /// The raw nanodegree count.
    pub fn raw(self) -> (r: i64)
        ensures
            r == self.0,
    {
        self.0
    }

    /// True when the value lies in `[-90°, 90°]`.
    pub fn is_valid_latitude(self) -> (r: bool)
        ensures
            r == is_lat(self.0 as int),
    {
        MIN_LAT_NANO <= self.0 && self.0 <= MAX_LAT_NANO
    }

    /// True when the value lies in `[-180°, 180°]`.
    pub fn is_valid_longitude(self) -> (r: bool)
        ensures
            r == is_lon(self.0 as int),
    {
        MIN_LON_NANO <= self.0 && self.0 <= MAX_LON_NANO
    }
}

} // verus!
