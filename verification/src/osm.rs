//! Map features as OpenStreetMap's Overpass service delivers them.

use crate::math::{write_double, Math};
use crate::scalar::Double;
use crate::text::same_text;
use vstd::prelude::*;

verus! {

/// A point of a geometry, WGS84 degrees.
#[derive(Debug, Clone, Copy, PartialEq, Eq, Structural)]
pub struct OverpassPoint {
    pub lat: Double,
    pub lon: Double,
}

/// One tag of a map feature.
#[derive(Debug)]
pub struct Tag {
    pub key: String,
    pub value: String,
}

/// The tags of a map feature.
#[derive(Debug)]
pub struct Tags {
    pub entries: Vec<Tag>,
}

/// Value of the first of the tags with this key.
pub open spec fn tag_value(entries: Seq<Tag>, key: Seq<char>) -> Option<Seq<char>>
    decreases entries.len(),
{
    if entries.len() == 0 {
        None
    } else if entries[0].key@ == key {
        Some(entries[0].value@)
    } else {
        tag_value(entries.drop_first(), key)
    }
}

/// The text inside an optional string.
pub open spec fn text_of(t: Option<&str>) -> Option<Seq<char>> {
    match t {
        Some(s) => Some(s@),
        None => None,
    }
}

impl Tags {
    /// The value under this key.
    pub open spec fn value(self, key: Seq<char>) -> Option<Seq<char>> {
        tag_value(self.entries@, key)
    }

    /// The value under this key.
    pub fn get(&self, key: &str) -> (r: Option<&str>)
        ensures
            text_of(r) == self.value(key@),
    {
        let n: usize = self.entries.len();
        let mut i: usize = 0;
        assert(self.entries@.subrange(0, n as int) =~= self.entries@);
        while i < n
            invariant
                n == self.entries@.len(),
                i <= n,
                tag_value(self.entries@, key@) == tag_value(
                    self.entries@.subrange(i as int, n as int),
                    key@,
                ),
            decreases n - i,
        {
            let ghost rest = self.entries@.subrange(i as int, n as int);
            assert(rest.drop_first() =~= self.entries@.subrange(i + 1, n as int));
            if same_text(self.entries[i].key.as_str(), key) {
                return Some(self.entries[i].value.as_str());
            }
            i = i + 1;
        }
        None
    }
}

/// A bounding box as Overpass takes it: south, west, north, east.
pub open spec fn box_text<M: Math>(
    m: &M,
    lon_min: Double,
    lat_min: Double,
    lon_max: Double,
    lat_max: Double,
) -> Seq<char> {
    "("@ + crate::math::show_double_of(m, lat_min) + ","@ + crate::math::show_double_of(m, lon_min)
        + ","@ + crate::math::show_double_of(m, lat_max) + ","@ + crate::math::show_double_of(
        m,
        lon_max,
    ) + ")"@
}

/// Writes a bounding box as Overpass takes it.
pub fn write_box<M: Math>(
    m: &M,
    lon_min: Double,
    lat_min: Double,
    lon_max: Double,
    lat_max: Double,
) -> (r: String)
    requires
        crate::math::steady(m),
    ensures
        r@ == box_text(m, lon_min, lat_min, lon_max, lat_max),
{
    let mut s: String = "(".to_owned();
    s.append(write_double(m, lat_min).as_str());
    s.append(",");
    s.append(write_double(m, lon_min).as_str());
    s.append(",");
    s.append(write_double(m, lat_max).as_str());
    s.append(",");
    s.append(write_double(m, lon_max).as_str());
    s.append(")");
    s
}

} // verus!
