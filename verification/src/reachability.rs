//! The footprint of one launch.

use crate::dem::Dem;
use crate::glide::{flood, is_flood};
use crate::launch::Launch;
use crate::math::{steady, Math};
use crate::png_util::{mask_pixels, png_of, reachability_mask_png, spread};
use crate::queries::ReachQuery;
use crate::scalar::Single;
use vstd::prelude::*;

verus! {

/// Where the first launch of an id is, if there is one.
pub open spec fn place_of(launches: Seq<Launch>, id: u32) -> Option<int>
    decreases launches.len(),
{
    if launches.len() == 0 {
        None
    } else {
        match place_of(launches.drop_last(), id) {
            Some(i) => Some(i),
            None => if launches.last().id == id {
                Some(launches.len() - 1)
            } else {
                None
            },
        }
    }
}

/// Where the first launch of an id is, if there is one.
pub fn find_launch(launches: &[Launch], id: u32) -> (r: Option<usize>)
    ensures
        place_of(launches@, id) == match r {
            Some(i) => Some(i as int),
            None => None,
        },
        r matches Some(i) ==> i < launches@.len() && launches@[i as int].id == id,
        r is None ==> forall|i: int| 0 <= i < launches@.len() ==> (#[trigger] launches@[i]).id != id,
{
    let mut i: usize = 0;
    assert(launches@.take(0) =~= Seq::empty());
    while i < launches.len()
        invariant
            i <= launches@.len(),
            place_of(launches@.take(i as int), id) is None,
            forall|j: int| 0 <= j < i ==> (#[trigger] launches@[j]).id != id,
        decreases launches@.len() - i,
    {
        assert(launches@.take(i + 1).drop_last() =~= launches@.take(i as int));
        if launches[i].id == id {
            proof {
                lemma_place(launches@, id, i + 1);
            }
            return Some(i);
        }
        i = i + 1;
    }
    assert(launches@.take(i as int) =~= launches@);
    None
}

/// A launch once found stays the first.
proof fn lemma_place(launches: Seq<Launch>, id: u32, i: int)
    requires
        0 <= i <= launches.len(),
        place_of(launches.take(i), id) is Some,
    ensures
        place_of(launches, id) == place_of(launches.take(i), id),
    decreases launches.len() - i,
{
    if i < launches.len() {
        assert(launches.take(i + 1).drop_last() =~= launches.take(i));
        lemma_place(launches, id, i + 1);
    } else {
        assert(launches.take(i) =~= launches);
    }
}

/// Whether this is the PNG file of the mask of a launch's footprint, or what is
/// wrong with it.
pub open spec fn is_footprint<M: Math>(
    m: &M,
    dem: &Dem,
    launch: &Launch,
    q: &ReachQuery,
    png: Result<Seq<u8>, Seq<char>>,
) -> bool {
    exists|alts: Seq<Single>| #[trigger]
        is_flood(m, dem, launch, &q.glide(m).1, alts) && png == png_of(
            dem.cols,
            dem.rows,
            spread(mask_pixels(m, dem, alts)),
        )
}

/// The mask of the footprint of the launch of an id, as a PNG file; `None` if
/// there is no such launch.
pub fn footprint<M: Math>(m: &M, dem: &Dem, launches: &[Launch], id: u32, q: &ReachQuery) -> (r:
    Option<Result<Vec<u8>, String>>)
    requires
        steady(m),
        dem.wf(),
        forall|i: int| 0 <= i < launches@.len() ==> dem.has_cell((#[trigger] launches@[i]).cell),
    ensures
        match (r, place_of(launches@, id)) {
            (Some(png), Some(i)) => is_footprint(
                m,
                dem,
                &launches@[i],
                q,
                match png {
                    Ok(v) => Ok(v@),
                    Err(e) => Err(e@),
                },
            ),
            (None, None) => true,
            _ => false,
        },
{
    match find_launch(launches, id) {
        Some(i) => {
            assert(dem.has_cell(launches@[i as int].cell));
            // Compute the full per-cell flood for this one launch.
            let (_, p) = q.glide(m);
            let f = flood(m, dem, &launches[i], &p);
            let png = reachability_mask_png(m, dem, &f);
            Some(png)
        },
        None => None,
    }
}

} // verus!
