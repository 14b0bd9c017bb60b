//! Wind.

use crate::scalar::Single;
use vstd::prelude::*;

verus! {

/// Wind specification for a query.
#[derive(Debug, Clone, Copy, PartialEq, Eq, Structural)]
pub struct Wind {
    /// Meteorological direction: where the wind is coming FROM, degrees from N.
    pub from_deg: Single,
    pub speed_kmh: Single,
}

impl Wind {
    pub fn new(from_deg: Single, speed_kmh: Single) -> (r: Self)
        ensures
            r.from_deg == from_deg,
            r.speed_kmh == speed_kmh,
    {
        Wind { from_deg, speed_kmh }
    }
}

} // verus!
