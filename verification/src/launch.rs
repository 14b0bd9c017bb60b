//! Launch sites.

use crate::geom::{norm_deg, CellIdx, HALF};
use crate::math::{minus, steady, times, Math};
use crate::scalar::Single;
use vstd::prelude::*;

verus! {

pub type LaunchId = u32;

#[derive(Debug, Clone, Copy, PartialEq, Eq, Structural)]
pub enum LaunchKind {
    /// SHV / ParaglidingEarth listed.
    Official,
    /// Known hike-and-fly spot (community-curated).
    HikeAndFly,
    /// Synthesized from terrain analysis.
    AutoDiscovered,
}

#[derive(Debug, Clone, Copy, PartialEq, Eq, Structural)]
pub enum WarningSeverity {
    Critical,
    High,
    Medium,
    Low,
}

/// A remark on a launch.
#[derive(Debug)]
pub struct Warning {
    pub severity: WarningSeverity,
    pub message: String,
}

#[derive(Debug)]
pub struct Launch {
    pub id: LaunchId,
    pub cell: CellIdx,
    pub altitude_m: Single,
    /// Direction the slope faces, degrees from N (0=N, 90=E, 180=S, 270=W).
    pub aspect_deg: Single,
    /// Usable launch arc, half-open. (lo, hi) measured clockwise from N.
    pub aspect_window_deg: (Single, Single),
    pub slope_deg: Single,
    pub kind: LaunchKind,
    pub warnings: Vec<Warning>,
}

impl Clone for Warning {
    fn clone(&self) -> (r: Self)
        ensures
            r == *self,
    {
        Warning { severity: self.severity, message: self.message.clone() }
    }
}

/// Whether two launches hold the same.
pub open spec fn same_launch(a: Launch, b: Launch) -> bool {
    &&& a.id == b.id
    &&& a.cell == b.cell
    &&& a.altitude_m == b.altitude_m
    &&& a.aspect_deg == b.aspect_deg
    &&& a.aspect_window_deg == b.aspect_window_deg
    &&& a.slope_deg == b.slope_deg
    &&& a.kind == b.kind
    &&& a.warnings@ == b.warnings@
}

impl Clone for Launch {
    fn clone(&self) -> (r: Self)
        ensures
            same_launch(r, *self),
    {
        Launch {
            id: self.id,
            cell: self.cell,
            altitude_m: self.altitude_m,
            aspect_deg: self.aspect_deg,
            aspect_window_deg: (self.aspect_window_deg.0, self.aspect_window_deg.1),
            slope_deg: self.slope_deg,
            kind: self.kind,
            warnings: self.warnings.clone(),
        }
    }
}

impl Launch {
    /// Half the width of the usable launch arc, in degrees.
    pub fn aspect_window_half_width<M: Math>(&self, m: &M) -> (r: Single)
        requires
            steady(m),
        ensures
            r == times(
                m,
                norm_deg(m, minus(m, self.aspect_window_deg.1, self.aspect_window_deg.0)),
                Single { bits: HALF },
            ),
    {
        let (lo, hi) = self.aspect_window_deg;
        let width = norm_deg(m, minus(m, hi, lo));
        times(m, width, Single { bits: HALF })
    }
}

} // verus!
