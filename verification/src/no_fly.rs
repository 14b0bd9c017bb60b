//! Launches that lie in restricted areas.

use crate::dem::Dem;
use crate::launch::{same_launch, Launch};
use crate::lv95::lv95_to_wgs84;
use crate::math::{steady, Math};
use crate::trail_graph::cell_to_lv95;
use crate::warnings::{point_in_polygon, spec_point_in_polygon, Warning};
use vstd::prelude::*;

verus! {

/// Whether a launch lies in a restricted area.
pub open spec fn within<M: Math>(m: &M, dem: &Dem, launch: &Launch, warning: &Warning) -> bool {
    let (e, n) = cell_to_lv95(m, dem, launch.cell);
    let (lon, lat) = lv95_to_wgs84(m, e, n);
    spec_point_in_polygon(m, lat, lon, warning.polygon@)
}

/// The areas, by their places in the list, that a launch lies in.
pub open spec fn areas_of<M: Math>(
    m: &M,
    dem: &Dem,
    launch: &Launch,
    warnings: Seq<Warning>,
) -> Seq<u32>
    decreases warnings.len(),
{
    if warnings.len() == 0 {
        Seq::empty()
    } else {
        let before = areas_of(m, dem, launch, warnings.drop_last());
        if within(m, dem, launch, &warnings.last()) {
            before.push((warnings.len() - 1) as u32)
        } else {
            before
        }
    }
}

/// The areas, by their places in the list, that a launch lies in.
pub fn launch_areas<M: Math>(m: &M, dem: &Dem, launch: &Launch, warnings: &[Warning]) -> (r: Vec<
    u32,
>)
    requires
        steady(m),
        warnings@.len() <= u32::MAX,
    ensures
        r@ == areas_of(m, dem, launch, warnings@),
        are_areas(r@, warnings@.len()),
{
    let (e, n) = cell_to_lv95(m, dem, launch.cell);
    let (lon, lat) = lv95_to_wgs84(m, e, n);
    let mut found: Vec<u32> = Vec::new();
    let mut i: usize = 0;
    assert(warnings@.take(0) =~= Seq::empty());
    while i < warnings.len()
        invariant
            steady(m),
            warnings@.len() <= u32::MAX,
            (e, n) == cell_to_lv95(m, dem, launch.cell),
            (lon, lat) == lv95_to_wgs84(m, e, n),
            i <= warnings@.len(),
            found@ == areas_of(m, dem, launch, warnings@.take(i as int)),
        decreases warnings@.len() - i,
    {
        assert(warnings@.take(i + 1).drop_last() =~= warnings@.take(i as int));
        if point_in_polygon(m, lat, lon, &warnings[i].polygon) {
            found.push(i as u32);
        }
        i = i + 1;
    }
    proof {
        assert(warnings@.take(i as int) =~= warnings@);
        lemma_areas(m, dem, launch, warnings@);
    }
    found
}

/// Whether none of some areas is closed to takeoffs.
pub open spec fn open_to_takeoff(warnings: Seq<Warning>, areas: Seq<u32>) -> bool {
    forall|k: int| 0 <= k < areas.len() ==> !warnings[(#[trigger] areas[k]) as int].severity.no_fly()
}

/// The places of the launches that are open to takeoff.
pub open spec fn flyable(warnings: Seq<Warning>, areas: Seq<Vec<u32>>) -> Seq<int>
    decreases areas.len(),
{
    if areas.len() == 0 {
        Seq::empty()
    } else {
        let before = flyable(warnings, areas.drop_last());
        if open_to_takeoff(warnings, areas.last()@) {
            before.push(areas.len() - 1)
        } else {
            before
        }
    }
}

/// Whether a list of areas names areas that are there.
pub open spec fn are_areas(areas: Seq<u32>, count: nat) -> bool {
    forall|k: int| 0 <= k < areas.len() ==> (#[trigger] areas[k]) < count
}

/// Whether these are the launches at some places, with their areas.
pub open spec fn kept_at(
    launches: Seq<Launch>,
    areas: Seq<Vec<u32>>,
    places: Seq<int>,
    kept: Seq<Launch>,
    kept_areas: Seq<Vec<u32>>,
) -> bool {
    &&& kept.len() == places.len()
    &&& kept_areas.len() == places.len()
    &&& forall|k: int|
        0 <= k < places.len() ==> 0 <= #[trigger] places[k] < launches.len() && same_launch(
            kept[k],
            launches[places[k]],
        ) && kept_areas[k]@ == areas[places[k]]@
}

fn is_open(warnings: &[Warning], areas: &Vec<u32>) -> (r: bool)
    requires
        are_areas(areas@, warnings@.len()),
    ensures
        r == open_to_takeoff(warnings@, areas@),
{
    let mut k: usize = 0;
    while k < areas.len()
        invariant
            are_areas(areas@, warnings@.len()),
            k <= areas@.len(),
            forall|j: int|
                0 <= j < k ==> !warnings@[(#[trigger] areas@[j]) as int].severity.no_fly(),
        decreases areas@.len() - k,
    {
        let a = areas[k];
        assert(areas@[k as int] < warnings@.len());
        if warnings[a as usize].severity.no_fly() {
            return false;
        }
        k = k + 1;
    }
    true
}

/// Drops any launch inside a Critical or High polygon: those are no-fly takeoffs
/// (hunting reserves year-round, Wildruhezonen seasonally, airports). Gives the
/// launches that remain, in order, with their areas.
pub fn drop_no_fly(launches: &[Launch], areas: &[Vec<u32>], warnings: &[Warning]) -> (r: (
    Vec<Launch>,
    Vec<Vec<u32>>,
))
    requires
        areas@.len() == launches@.len(),
        forall|i: int|
            0 <= i < areas@.len() ==> are_areas((#[trigger] areas@[i])@, warnings@.len()),
    ensures
        kept_at(launches@, areas@, flyable(warnings@, areas@), r.0@, r.1@),
        forall|k: int| 0 <= k < r.1@.len() ==> are_areas((#[trigger] r.1@[k])@, warnings@.len()),
{
    let mut kept: Vec<Launch> = Vec::new();
    let mut kept_areas: Vec<Vec<u32>> = Vec::new();
    let mut i: usize = 0;
    assert(areas@.take(0) =~= Seq::empty());
    while i < launches.len()
        invariant
            areas@.len() == launches@.len(),
            forall|i: int|
                0 <= i < areas@.len() ==> are_areas((#[trigger] areas@[i])@, warnings@.len()),
            i <= launches@.len(),
            kept_at(
                launches@,
                areas@,
                flyable(warnings@, areas@.take(i as int)),
                kept@,
                kept_areas@,
            ),
            forall|k: int|
                0 <= k < kept_areas@.len() ==> are_areas(
                    (#[trigger] kept_areas@[k])@,
                    warnings@.len(),
                ),
        decreases launches@.len() - i,
    {
        assert(areas@.take(i + 1).drop_last() =~= areas@.take(i as int));
        let ghost before = flyable(warnings@, areas@.take(i as int));
        let ghost kept0 = kept@;
        let ghost kept_areas0 = kept_areas@;
        assert(are_areas(areas@[i as int]@, warnings@.len()));
        if is_open(warnings, &areas[i]) {
            kept.push(launches[i].clone());
            kept_areas.push(areas[i].clone());
            proof {
                let now = flyable(warnings@, areas@.take(i + 1));
                assert forall|k: int| 0 <= k < now.len() implies 0 <= #[trigger] now[k]
                    < launches@.len() && same_launch(kept@[k], launches@[now[k]])
                    && kept_areas@[k]@ == areas@[now[k]]@ by {
                    if k < before.len() {
                        assert(now[k] == before[k]);
                        assert(kept@[k] == kept0[k]);
                        assert(kept_areas@[k] == kept_areas0[k]);
                    } else {
                        assert(kept_areas@[k]@ =~= areas@[i as int]@);
                    }
                }
            }
        }
        i = i + 1;
    }
    assert(areas@.take(i as int) =~= areas@);
    (kept, kept_areas)
}

proof fn lemma_flyable(warnings: Seq<Warning>, areas: Seq<Vec<u32>>)
    ensures
        forall|k: int|
            0 <= k < flyable(warnings, areas).len() ==> 0 <= #[trigger] flyable(warnings, areas)[k]
                < areas.len() && open_to_takeoff(
                warnings,
                areas[flyable(warnings, areas)[k]]@,
            ),
        forall|j: int, k: int|
            0 <= j < k < flyable(warnings, areas).len() ==> #[trigger] flyable(warnings, areas)[j]
                < #[trigger] flyable(warnings, areas)[k],
        forall|i: int|
            0 <= i < areas.len() && open_to_takeoff(warnings, (#[trigger] areas[i])@) ==> flyable(
                warnings,
                areas,
            ).contains(i),
    decreases areas.len(),
{
    if areas.len() > 0 {
        let less = areas.drop_last();
        lemma_flyable(warnings, less);
        let before = flyable(warnings, less);
        let now = flyable(warnings, areas);
        assert forall|k: int| 0 <= k < now.len() implies 0 <= #[trigger] now[k] < areas.len()
            && open_to_takeoff(warnings, areas[now[k]]@) by {
            if k < before.len() {
                assert(now[k] == before[k]);
                assert(less[before[k]] == areas[before[k]]);
            }
        }
        assert forall|j: int, k: int| 0 <= j < k < now.len() implies #[trigger] now[j]
            < #[trigger] now[k] by {
            assert(now[j] == before[j]);
            if k < before.len() {
                assert(now[k] == before[k]);
            }
        }
        assert forall|i: int|
            0 <= i < areas.len() && open_to_takeoff(
                warnings,
                (#[trigger] areas[i])@,
            ) implies now.contains(i) by {
            if i < less.len() {
                assert(less[i] == areas[i]);
                let k = choose|k: int| 0 <= k < before.len() && before[k] == i;
                assert(now[k] == i);
            } else {
                assert(now[before.len() as int] == i);
            }
        }
    }
}

proof fn lemma_areas<M: Math>(m: &M, dem: &Dem, launch: &Launch, warnings: Seq<Warning>)
    requires
        warnings.len() <= u32::MAX,
    ensures
        forall|k: int|
            0 <= k < areas_of(m, dem, launch, warnings).len() ==> (#[trigger] areas_of(
                m,
                dem,
                launch,
                warnings,
            )[k]) < warnings.len() && within(
                m,
                dem,
                launch,
                &warnings[areas_of(m, dem, launch, warnings)[k] as int],
            ),
        forall|a: int|
            0 <= a < warnings.len() && within(m, dem, launch, &#[trigger] warnings[a]) ==> areas_of(
                m,
                dem,
                launch,
                warnings,
            ).contains(a as u32),
    decreases warnings.len(),
{
    if warnings.len() > 0 {
        let less = warnings.drop_last();
        lemma_areas(m, dem, launch, less);
        let before = areas_of(m, dem, launch, less);
        let now = areas_of(m, dem, launch, warnings);
        assert forall|k: int| 0 <= k < now.len() implies (#[trigger] now[k]) < warnings.len()
            && within(m, dem, launch, &warnings[now[k] as int]) by {
            if k < before.len() {
                assert(now[k] == before[k]);
                assert(less[before[k] as int] == warnings[before[k] as int]);
            }
        }
        assert forall|a: int|
            0 <= a < warnings.len() && within(
                m,
                dem,
                launch,
                &#[trigger] warnings[a],
            ) implies now.contains(a as u32) by {
            if a < less.len() {
                assert(less[a] == warnings[a]);
                let k = choose|k: int| 0 <= k < before.len() && before[k] == a as u32;
                assert(now[k] == a as u32);
            } else {
                assert(now[before.len() as int] == a as u32);
            }
        }
    }
}

/// A launch remains if and only if no restricted area that it lies in is closed
/// to takeoffs; those that remain keep their order.
pub proof fn remaining_launches_may_take_off<M: Math>(
    m: &M,
    dem: &Dem,
    launches: Seq<Launch>,
    areas: Seq<Vec<u32>>,
    warnings: Seq<Warning>,
)
    requires
        warnings.len() <= u32::MAX,
        areas.len() == launches.len(),
        forall|i: int|
            0 <= i < areas.len() ==> (#[trigger] areas[i])@ == areas_of(
                m,
                dem,
                &launches[i],
                warnings,
            ),
    ensures
        forall|i: int|
            0 <= i < launches.len() ==> (flyable(warnings, areas).contains(i) <==> forall|a: int|
                0 <= a < warnings.len() && within(m, dem, &#[trigger] launches[i], &#[trigger] warnings[a])
                    ==> !warnings[a].severity.no_fly()),
        forall|j: int, k: int|
            0 <= j < k < flyable(warnings, areas).len() ==> #[trigger] flyable(warnings, areas)[j]
                < #[trigger] flyable(warnings, areas)[k],
{
    lemma_flyable(warnings, areas);
    assert forall|i: int| 0 <= i < launches.len() implies (flyable(warnings, areas).contains(i)
        <==> forall|a: int|
        0 <= a < warnings.len() && within(m, dem, &#[trigger] launches[i], &#[trigger] warnings[a])
            ==> !warnings[a].severity.no_fly()) by {
        lemma_areas(m, dem, &launches[i], warnings);
        let found = areas_of(m, dem, &launches[i], warnings);
        assert(areas[i]@ == found);
        if flyable(warnings, areas).contains(i) {
            let k = choose|k: int|
                0 <= k < flyable(warnings, areas).len() && flyable(warnings, areas)[k] == i;
            assert(open_to_takeoff(warnings, areas[flyable(warnings, areas)[k]]@));
            assert forall|a: int|
                0 <= a < warnings.len() && within(
                    m,
                    dem,
                    &launches[i],
                    &#[trigger] warnings[a],
                ) implies !warnings[a].severity.no_fly() by {
                assert(found.contains(a as u32));
                let c = choose|c: int| 0 <= c < found.len() && found[c] == a as u32;
                assert(!warnings[found[c] as int].severity.no_fly());
            }
        } else {
            assert(!open_to_takeoff(warnings, areas[i]@));
            let c = choose|c: int|
                0 <= c < found.len() && warnings[(#[trigger] found[c]) as int].severity.no_fly();
            assert(within(m, dem, &launches[i], &warnings[found[c] as int]));
        }
    }
}

} // verus!
