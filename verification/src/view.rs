//! What the 3D view shows of the CPU lists: one scene per standing
//! building, chosen by type and level, and one marker per zoned tile.

use vstd::prelude::*;

use crate::buildings::{Building, MAX_LEVEL};
use crate::grid::{CityGrid, Tile, ZoneType};

verus! {

/// The model stage shown for a building level: levels above the last stage
/// show the last stage.
pub open spec fn spec_scene_level(level: u32) -> u32 {
    if level < MAX_LEVEL {
        level
    } else {
        MAX_LEVEL
    }
}

pub fn scene_level(level: u32) -> (s: u32)
    ensures
        s == spec_scene_level(level),
{
    if level < MAX_LEVEL {
        level
    } else {
        MAX_LEVEL
    }
}

/// A building view that exists: the building id it shows and the level its
/// scene was made for.
pub open spec fn view_kept(v: (u32, u32), items: Seq<Building>) -> bool {
    v.0 < items.len() && items[v.0 as int].capacity > 0
}

/// Some existing view of building `j` is kept.
pub open spec fn shown(views: Seq<(u32, u32)>, items: Seq<Building>, j: int) -> bool {
    exists|k: int| 0 <= k < views.len() && #[trigger] views[k].0 == j && view_kept(views[k], items)
}

/// Buildings among the first `n` that stand (nonzero capacity) and have no
/// view yet, in id order.
pub open spec fn views_to_spawn(views: Seq<(u32, u32)>, items: Seq<Building>, n: int) -> Seq<u32>
    decreases n,
{
    if n <= 0 {
        Seq::empty()
    } else {
        let rest = views_to_spawn(views, items, n - 1);
        if items[n - 1].capacity > 0 && !shown(views, items, n - 1) {
            rest.push((n - 1) as u32)
        } else {
            rest
        }
    }
}

/// After the update every standing building among the first `n` is shown
/// exactly once: by a kept view, or by a new one, and new views go to
/// distinct buildings in id order.
pub proof fn lemma_views_cover(views: Seq<(u32, u32)>, items: Seq<Building>, n: int)
    requires
        0 <= n <= items.len(),
        items.len() <= u32::MAX,
    ensures
        forall|j: int|
            0 <= j < n && items[j].capacity > 0 ==> (shown(views, items, j) <==> !views_to_spawn(views, items, n).contains(
                j as u32,
            )),
        forall|a: int, b: int|
            0 <= a < b < views_to_spawn(views, items, n).len() ==> views_to_spawn(views, items, n)[a]
                < views_to_spawn(views, items, n)[b],
        forall|a: int| 0 <= a < views_to_spawn(views, items, n).len() ==> views_to_spawn(views, items, n)[a] < n,
    decreases n,
{
    if n > 0 {
        lemma_views_cover(views, items, n - 1);
        let rest = views_to_spawn(views, items, n - 1);
        let all = views_to_spawn(views, items, n);
        assert forall|j: int|
            0 <= j < n && items[j].capacity > 0 implies (shown(views, items, j) <==> !all.contains(j as u32)) by {
            if j < n - 1 {
                if all.contains(j as u32) {
                    let a = choose|a: int| 0 <= a < all.len() && all[a] == j as u32;
                    if a == rest.len() {
                        assert(all[a] == (n - 1) as u32);
                    } else {
                        assert(rest[a] == all[a]);
                    }
                }
                if rest.contains(j as u32) {
                    let a = choose|a: int| 0 <= a < rest.len() && rest[a] == j as u32;
                    assert(all[a] == rest[a]);
                }
            } else {
                if !shown(views, items, j) {
                    assert(all[all.len() - 1] == j as u32);
                } else {
                    if all.contains(j as u32) {
                        let a = choose|a: int| 0 <= a < all.len() && all[a] == j as u32;
                        assert(a < rest.len());
                        assert(rest[a] == all[a]);
                    }
                }
            }
        }
    }
}

/// What to do with the building views after the building list changed.
pub struct BuildingViewPlan {
    /// Per existing view: `None` to remove it (its building is gone or
    /// abandoned), or the level its scene must show now.
    pub existing: Vec<Option<u32>>,
    /// Buildings that need a new view, in id order.
    pub spawn: Vec<u32>,
}

/// Plans the building views: views of buildings that are gone or abandoned
/// are removed, the others follow their building's level, and every
/// standing building without a view gets one.
pub fn plan_building_views(views: &Vec<(u32, u32)>, items: &Vec<Building>) -> (plan: BuildingViewPlan)
    requires
        items@.len() <= u32::MAX,
    ensures
        plan.existing@.len() == views@.len(),
        forall|k: int|
            0 <= k < views@.len() ==> #[trigger] plan.existing@[k] == (if view_kept(views@[k], items@) {
                Some(items@[views@[k].0 as int].level)
            } else {
                None
            }),
        plan.spawn@ == views_to_spawn(views@, items@, items@.len() as int),
{
    let n = items.len();
    let mut seen: Vec<bool> = Vec::new();
    let mut j: usize = 0;
    while j < n
        invariant
            n == items@.len(),
            j <= n,
            seen@.len() == j,
            forall|i: int| 0 <= i < j ==> !(#[trigger] seen@[i]),
        decreases n - j,
    {
        seen.push(false);
        j = j + 1;
    }
    let mut existing: Vec<Option<u32>> = Vec::new();
    let mut k: usize = 0;
    while k < views.len()
        invariant
            n == items@.len(),
            n <= u32::MAX,
            k <= views@.len(),
            seen@.len() == n,
            existing@.len() == k,
            forall|i: int|
                0 <= i < k ==> #[trigger] existing@[i] == (if view_kept(views@[i], items@) {
                    Some(items@[views@[i].0 as int].level)
                } else {
                    None
                }),
            forall|i: int|
                0 <= i < n ==> (#[trigger] seen@[i] <==> exists|q: int|
                    0 <= q < k && #[trigger] views@[q].0 == i && view_kept(views@[q], items@)),
        decreases views@.len() - k,
    {
        let (id, _level) = views[k];
        if (id as usize) < n && items[id as usize].capacity > 0 {
            existing.push(Some(items[id as usize].level));
            seen.set(id as usize, true);
        } else {
            existing.push(None);
        }
        proof {
            assert forall|i: int| 0 <= i < n implies (#[trigger] seen@[i] <==> exists|q: int|
                0 <= q < k + 1 && #[trigger] views@[q].0 == i && view_kept(views@[q], items@)) by {
                if seen@[i] {
                    if i == id && view_kept(views@[k as int], items@) {
                        assert(views@[k as int].0 == i);
                    } else {
                        let q = choose|q: int| 0 <= q < k && #[trigger] views@[q].0 == i && view_kept(views@[q], items@);
                        assert(views@[q].0 == i);
                    }
                }
                if exists|q: int| 0 <= q < k + 1 && #[trigger] views@[q].0 == i && view_kept(views@[q], items@) {
                    let q = choose|q: int| 0 <= q < k + 1 && #[trigger] views@[q].0 == i && view_kept(views@[q], items@);
                    if q < k {
                        assert(exists|q2: int| 0 <= q2 < k && #[trigger] views@[q2].0 == i && view_kept(views@[q2], items@));
                    }
                }
            }
        }
        k = k + 1;
    }
    let mut spawn: Vec<u32> = Vec::new();
    let mut i: usize = 0;
    while i < n
        invariant
            n == items@.len(),
            n <= u32::MAX,
            i <= n,
            seen@.len() == n,
            forall|t: int| 0 <= t < n ==> (#[trigger] seen@[t] <==> shown(views@, items@, t)),
            spawn@ == views_to_spawn(views@, items@, i as int),
        decreases n - i,
    {
        if items[i].capacity > 0 && !seen[i] {
            spawn.push(i as u32);
        }
        i = i + 1;
    }
    BuildingViewPlan { existing, spawn }
}

/// The zoned tiles among the first `n` tiles in row-major order, as
/// `(x, y, zone)`.
pub open spec fn zone_markers_upto(grid: CityGrid, n: int) -> Seq<(u32, u32, ZoneType)>
    decreases n,
{
    if n <= 0 || grid.width == 0 {
        Seq::empty()
    } else {
        let rest = zone_markers_upto(grid, n - 1);
        let x = (n - 1) % (grid.width as int);
        let y = (n - 1) / (grid.width as int);
        match grid.tile_at(x, y) {
            Tile::Zone(z) => rest.push((x as u32, y as u32, z)),
            _ => rest,
        }
    }
}

/// One marker per zoned tile, row by row.
pub fn zone_markers(grid: &CityGrid) -> (m: Vec<(u32, u32, ZoneType)>)
    requires
        grid.wf(),
    ensures
        m@ == zone_markers_upto(*grid, grid.width * grid.height),
{
    let mut m: Vec<(u32, u32, ZoneType)> = Vec::new();
    let w = grid.width;
    let h = grid.height;
    if w == 0 {
        return m;
    }
    let mut y: u32 = 0;
    while y < h
        invariant
            grid.wf(),
            w == grid.width,
            h == grid.height,
            w > 0,
            y <= h,
            m@ == zone_markers_upto(*grid, y * w),
        decreases h - y,
    {
        let mut x: u32 = 0;
        while x < w
            invariant
                grid.wf(),
                w == grid.width,
                h == grid.height,
                w > 0,
                y < h,
                x <= w,
                m@ == zone_markers_upto(*grid, y * w + x),
            decreases w - x,
        {
            proof {
                let n = y * w + x + 1;
                assert((n - 1) % (w as int) == x && (n - 1) / (w as int) == y) by (nonlinear_arith)
                    requires
                        n - 1 == y * w + x,
                        x < w,
                ;
                assert(y * w + x + 1 <= w * h) by (nonlinear_arith)
                    requires
                        y < h,
                        x < w,
                ;
            }
            if let Some(Tile::Zone(z)) = grid.get(x, y) {
                m.push((x, y, z));
            }
            x = x + 1;
        }
        proof {
            assert(y * w + w == (y + 1) * w) by (nonlinear_arith);
        }
        y = y + 1;
    }
    proof {
        assert(h * w == w * h) by (nonlinear_arith);
    }
    m
}

} // verus!
