//! The inspector: what a click selects, which GPU rows are read back for
//! the selection, and how a building's read-back row updates the CPU lists.

use vstd::prelude::*;

use crate::buildings::{footprint, in_square, spec_footprint, Building, BuildingData};
use crate::counters::SimCounters;
use crate::grid::{CityGrid, Tile, ZoneType};
use crate::schedule::GpuSimParams;
use crate::tools::ActiveTool;

verus! {

/// What the inspector shows.
#[derive(Clone, Copy, Debug, PartialEq, Eq, Structural)]
pub enum SelectedObj {
    Building(u32),
    Person(u32),
    Zone(ZoneType),
    Road(u32),
}

/// The current selection, and a counter bumped at every change so that
/// readbacks can tell a new selection from an old one.
#[derive(Clone, Copy, Debug, PartialEq, Eq, Structural)]
pub struct Selection {
    pub obj: Option<SelectedObj>,
    pub changed_frame: u32,
}

/// What a click picks: the car under the cursor if there is one, else the
/// building, zone or road on the tile under the cursor.
pub open spec fn picked(car: Option<u32>, cursor: Option<(u32, u32)>, grid: CityGrid) -> Option<SelectedObj> {
    match car {
        Some(id) => Some(SelectedObj::Person(id)),
        None => match cursor {
            Some(p) => if grid.in_bounds(p.0 as int, p.1 as int) {
                match grid.tile_at(p.0 as int, p.1 as int) {
                    Tile::Building(b) => Some(SelectedObj::Building(b)),
                    Tile::Zone(z) => Some(SelectedObj::Zone(z)),
                    Tile::Road(r) => Some(SelectedObj::Road(r)),
                    _ => None,
                }
            } else {
                None
            },
            None => None,
        },
    }
}

impl Selection {
    /// Nothing selected.
    pub fn new() -> (s: Selection)
        ensures
            s.obj is None,
            s.changed_frame == 0,
    {
        Selection { obj: None, changed_frame: 0 }
    }

    /// A left click outside the UI. With the camera tool active, the click
    /// selects what `picked` gives (`car` is the car nearest the view ray,
    /// if any is close enough), or clears the selection; the change counter
    /// moves on whenever something is selected or a selection is cleared.
    /// With a build tool active the click selects nothing.
    pub fn handle_selection(&mut self, tool: ActiveTool, car: Option<u32>, cursor: Option<(u32, u32)>, grid: &CityGrid)
        requires
            grid.wf(),
            old(self).changed_frame < u32::MAX,
        ensures
            tool != ActiveTool::Camera ==> *final(self) == *old(self),
            tool == ActiveTool::Camera ==> {
                &&& final(self).obj == picked(car, cursor, *grid)
                &&& final(self).changed_frame == (if picked(car, cursor, *grid) is Some || old(self).obj is Some {
                    old(self).changed_frame + 1
                } else {
                    old(self).changed_frame as int
                })
            },
    {
        if tool != ActiveTool::Camera {
            return;
        }
        if let Some(id) = car {
            self.obj = Some(SelectedObj::Person(id));
            self.changed_frame = self.changed_frame + 1;
            return;
        }
        if let Some((x, z)) = cursor {
            let hit = match grid.get(x, z) {
                Some(Tile::Building(bid)) => Some(SelectedObj::Building(bid)),
                Some(Tile::Zone(zt)) => Some(SelectedObj::Zone(zt)),
                Some(Tile::Road(rid)) => Some(SelectedObj::Road(rid)),
                _ => None,
            };
            if hit.is_some() {
                self.obj = hit;
                self.changed_frame = self.changed_frame + 1;
                return;
            }
        }
        if self.obj.is_some() {
            self.changed_frame = self.changed_frame + 1;
        }
        self.obj = None;
    }
}

/// Which frames the CPU-side readbacks were last requested for.
#[derive(Clone, Copy, Debug, PartialEq, Eq, Structural)]
pub struct ReadbackState {
    /// Recount slice of the last statistics readback.
    pub last_readback_frame: u32,
    /// Selection change counter of the last inspector readback.
    pub last_copy_frame: u32,
}

/// Readbacks to request this frame: the statistics block, and the GPU row
/// of the selected person or building.
#[derive(Clone, Copy, Debug, PartialEq, Eq, Structural)]
pub struct ReadbackRequests {
    pub stats: bool,
    pub inspector: Option<SelectedObj>,
}

/// The GPU row worth reading back for a selection: people and buildings
/// have one, zones and roads do not.
pub open spec fn readback_target(obj: Option<SelectedObj>) -> Option<SelectedObj> {
    match obj {
        Some(SelectedObj::Person(p)) => Some(SelectedObj::Person(p)),
        Some(SelectedObj::Building(b)) => Some(SelectedObj::Building(b)),
        _ => None,
    }
}

fn target_of(obj: Option<SelectedObj>) -> (t: Option<SelectedObj>)
    ensures
        t == readback_target(obj),
{
    match obj {
        Some(SelectedObj::Person(p)) => Some(SelectedObj::Person(p)),
        Some(SelectedObj::Building(b)) => Some(SelectedObj::Building(b)),
        _ => None,
    }
}

/// One frame of readback decisions from state `s`: statistics are read
/// once per recount slice while statistics readback is on; the selected
/// person's or building's row is read once per selection change while
/// inspector readback is on.
pub open spec fn readback_step(s: ReadbackState, p: GpuSimParams, selection: Option<Selection>) -> (ReadbackState, ReadbackRequests) {
    let stats = p.do_stats_readback > 0 && s.last_readback_frame != p.recount_slice;
    match selection {
        Some(sel) => {
            let fresh = sel.changed_frame != s.last_copy_frame && p.do_inspector_readback > 0;
            (
                ReadbackState {
                    last_readback_frame: p.recount_slice,
                    last_copy_frame: if fresh { sel.changed_frame } else { s.last_copy_frame },
                },
                ReadbackRequests { stats, inspector: if fresh { readback_target(sel.obj) } else { None } },
            )
        },
        None => (
            ReadbackState { last_readback_frame: p.recount_slice, last_copy_frame: s.last_copy_frame },
            ReadbackRequests { stats, inspector: None },
        ),
    }
}

/// Readbacks are not repeated: a second frame with the same recount slice
/// and the same selection requests nothing.
pub proof fn lemma_readback_once(s: ReadbackState, p: GpuSimParams, selection: Option<Selection>)
    ensures
        !readback_step(readback_step(s, p, selection).0, p, selection).1.stats,
        readback_step(readback_step(s, p, selection).0, p, selection).1.inspector is None,
{
}

impl ReadbackState {
    pub fn new() -> (s: ReadbackState)
        ensures
            s.last_readback_frame == 0,
            s.last_copy_frame == 0,
    {
        ReadbackState { last_readback_frame: 0, last_copy_frame: 0 }
    }

    /// Decides the readbacks of this frame: see `readback_step`.
    pub fn plan_readbacks(&mut self, params: &GpuSimParams, selection: Option<Selection>) -> (req: ReadbackRequests)
        ensures
            (*final(self), req) == readback_step(*old(self), *params, selection),
    {
        let stats = params.do_stats_readback > 0 && self.last_readback_frame != params.recount_slice;
        self.last_readback_frame = params.recount_slice;
        let mut inspector = None;
        if let Some(sel) = selection {
            if sel.changed_frame != self.last_copy_frame && params.do_inspector_readback > 0 {
                inspector = target_of(sel.obj);
                self.last_copy_frame = sel.changed_frame;
            }
        }
        ReadbackRequests { stats, inspector }
    }
}

/// A texture copy of one person's row (two texels) or building's row (three
/// texels), starting at texel `(x, y)`.
#[derive(Clone, Copy, Debug, PartialEq, Eq, Structural)]
pub struct RowCopy {
    pub building: bool,
    pub x: u32,
    pub y: u32,
}

/// Where the row of item `id` starts in a texture `width` texels wide, with
/// `per_item` texels per item.
pub open spec fn row_origin(id: int, width: int, per_item: int) -> (int, int) {
    ((id * per_item) % width, (id * per_item) / width)
}

/// The render side of the inspector readback: while inspector readback is
/// on and a person or building is selected, its row is copied every frame;
/// `last_copy` follows the selection counter whenever it changed or a copy
/// is made.
pub fn plan_row_copy(params: &GpuSimParams, selection: Option<Selection>, last_copy: &mut u32) -> (copy: Option<RowCopy>)
    requires
        params.people_tex_w > 0,
        params.buildings_tex_w > 0,
        selection matches Some(sel) ==> match sel.obj {
            Some(SelectedObj::Person(p)) => p * 2 <= u32::MAX,
            Some(SelectedObj::Building(b)) => b * 3 <= u32::MAX,
            _ => true,
        },
    ensures
        match selection {
            None => copy is None && *final(last_copy) == *old(last_copy),
            Some(sel) => {
                let changed = sel.changed_frame != *old(last_copy);
                &&& params.do_inspector_readback > 0 ==> match sel.obj {
                    Some(SelectedObj::Person(p)) => {
                        &&& copy == Some(RowCopy {
                            building: false,
                            x: row_origin(p as int, params.people_tex_w as int, 2).0 as u32,
                            y: row_origin(p as int, params.people_tex_w as int, 2).1 as u32,
                        })
                        &&& *final(last_copy) == sel.changed_frame
                    },
                    Some(SelectedObj::Building(b)) => {
                        &&& copy == Some(RowCopy {
                            building: true,
                            x: row_origin(b as int, params.buildings_tex_w as int, 3).0 as u32,
                            y: row_origin(b as int, params.buildings_tex_w as int, 3).1 as u32,
                        })
                        &&& *final(last_copy) == sel.changed_frame
                    },
                    _ => copy is None && *final(last_copy) == (if changed { sel.changed_frame } else { *old(last_copy) }),
                }
                &&& params.do_inspector_readback == 0 ==> copy is None && *final(last_copy) == (if changed {
                    sel.changed_frame
                } else {
                    *old(last_copy)
                })
            },
        },
{
    match selection {
        None => None,
        Some(sel) => {
            let changed = sel.changed_frame != *last_copy;
            if params.do_inspector_readback > 0 {
                match sel.obj {
                    Some(SelectedObj::Person(p)) => {
                        let t = p * 2;
                        *last_copy = sel.changed_frame;
                        Some(RowCopy { building: false, x: t % params.people_tex_w, y: t / params.people_tex_w })
                    },
                    Some(SelectedObj::Building(b)) => {
                        let t = b * 3;
                        *last_copy = sel.changed_frame;
                        Some(RowCopy { building: true, x: t % params.buildings_tex_w, y: t / params.buildings_tex_w })
                    },
                    _ => {
                        if changed {
                            *last_copy = sel.changed_frame;
                        }
                        None
                    },
                }
            } else {
                if changed {
                    *last_copy = sel.changed_frame;
                }
                None
            }
        },
    }
}

/// Applying the same read-back row twice is applying it once, and the
/// second application never abandons the building again (so a destroyed
/// building is counted once).
pub proof fn lemma_readback_applied_once(b: Building, r: BuildingReadback)
    ensures
        building_after_readback(building_after_readback(b, r), r) == building_after_readback(b, r),
        !abandons(building_after_readback(b, r), r),
{
}

/// A building's GPU row as read back: occupants and assigned counts, level,
/// capacity and income, the growth and age bit patterns, and whether the
/// GPU has abandoned it (capacity at or below zero).
#[derive(Clone, Copy, Debug, PartialEq, Eq, Structural)]
pub struct BuildingReadback {
    pub occupants: u32,
    pub assigned: u32,
    pub growth_bits: u32,
    pub age_bits: u32,
    pub level: u32,
    pub capacity: u32,
    pub income: u32,
    pub abandoned: bool,
}

/// Building `b` after its read-back row `r`: the occupant and assigned
/// counts, growth and age are copied, a new level
/// brings its capacity and income, and a building that still had capacity
/// but is abandoned on the GPU loses it.
pub open spec fn building_after_readback(b: Building, r: BuildingReadback) -> Building {
    let b1 = Building { occupants: r.occupants, assigned: r.assigned, growth_bits: r.growth_bits, age_bits: r.age_bits, ..b };
    let b2 = if b1.level != r.level {
        Building { level: r.level, capacity: r.capacity, income: r.income, ..b1 }
    } else {
        b1
    };
    if b2.capacity > 0 && r.abandoned {
        Building { capacity: 0, ..b2 }
    } else {
        b2
    }
}

/// A read-back always copies the occupant and assigned counts, growth and
/// age, whether or not the level changed; the building then has the
/// read-back level. A new level brings the read-back capacity and income,
/// an unchanged level keeps the building's own, and an abandoned building
/// ends with capacity 0. Position, type and road are never touched.
pub proof fn lemma_readback_fields(b: Building, r: BuildingReadback)
    ensures
        building_after_readback(b, r).occupants == r.occupants,
        building_after_readback(b, r).assigned == r.assigned,
        building_after_readback(b, r).growth_bits == r.growth_bits,
        building_after_readback(b, r).age_bits == r.age_bits,
        building_after_readback(b, r).level == r.level,
        building_after_readback(b, r).income == (if b.level != r.level { r.income } else { b.income }),
        building_after_readback(b, r).capacity == (if abandons(b, r) {
            0
        } else if b.level != r.level {
            r.capacity
        } else {
            b.capacity
        }),
        building_after_readback(b, r).tile == b.tile,
        building_after_readback(b, r).btype == b.btype,
        building_after_readback(b, r).road_seg == b.road_seg,
        building_after_readback(b, r).road_t == b.road_t,
{
}

/// Whether applying `r` to `b` abandons it: it had capacity (after a level
/// change) and the GPU reports none.
pub open spec fn abandons(b: Building, r: BuildingReadback) -> bool {
    let cap = if b.level != r.level { r.capacity } else { b.capacity };
    cap > 0 && r.abandoned
}

/// Within the `size` square at `tile`, the tiles that show building `bid`
/// go back to zone `zone`; every other tile stays.
fn revert_footprint(grid: &mut CityGrid, bid: u32, tile: (u32, u32), size: u32, zone: ZoneType)
    requires
        old(grid).wf(),
        size <= 4,
    ensures
        final(grid).wf(),
        final(grid).width == old(grid).width,
        final(grid).height == old(grid).height,
        forall|x: int, y: int|
            old(grid).in_bounds(x, y) ==> #[trigger] final(grid).tile_at(x, y) == (if in_square(tile, size as int, x, y)
                && old(grid).tile_at(x, y) == Tile::Building(bid) {
                Tile::Zone(zone)
            } else {
                old(grid).tile_at(x, y)
            }),
{
    let ghost g0 = *grid;
    let mut dy: u32 = 0;
    while dy < size
        invariant
            grid.wf(),
            grid.width == g0.width,
            grid.height == g0.height,
            size <= 4,
            dy <= size,
            forall|x: int, y: int|
                g0.in_bounds(x, y) ==> #[trigger] grid.tile_at(x, y) == (if in_square(tile, size as int, x, y) && y
                    < tile.1 + dy && g0.tile_at(x, y) == Tile::Building(bid) {
                    Tile::Zone(zone)
                } else {
                    g0.tile_at(x, y)
                }),
        decreases size - dy,
    {
        let mut dx: u32 = 0;
        while dx < size
            invariant
                grid.wf(),
                grid.width == g0.width,
                grid.height == g0.height,
                size <= 4,
                dy < size,
                dx <= size,
                forall|x: int, y: int|
                    g0.in_bounds(x, y) ==> #[trigger] grid.tile_at(x, y) == (if in_square(tile, size as int, x, y) && (y
                        < tile.1 + dy || (y == tile.1 + dy && x < tile.0 + dx)) && g0.tile_at(x, y) == Tile::Building(
                        bid,
                    ) {
                        Tile::Zone(zone)
                    } else {
                        g0.tile_at(x, y)
                    }),
            decreases size - dx,
        {
            if (tile.0 as u64) + (dx as u64) < grid.width as u64 && (tile.1 as u64) + (dy as u64) < grid.height as u64 {
                let x = tile.0 + dx;
                let y = tile.1 + dy;
                if grid.get(x, y) == Some(Tile::Building(bid)) {
                    let ghost g1 = *grid;
                    grid.set(x, y, Tile::Zone(zone));
                    proof {
                        CityGrid::lemma_set_tile(g1, *grid, x as int, y as int, Tile::Zone(zone));
                    }
                }
            }
            dx = dx + 1;
        }
        dy = dy + 1;
    }
}

/// Applies the read-back row of building `bid`. When the building is
/// abandoned and its anchor tile still shows it, every tile of its
/// footprint that still shows it goes back to a zone of its type (the
/// building reverts to an empty zone) and the destroyed counter goes up. An unknown `bid`
/// changes nothing.
pub fn apply_building_readback(
    buildings: &mut BuildingData,
    grid: &mut CityGrid,
    counters: &mut SimCounters,
    bid: u32,
    r: BuildingReadback,
)
    requires
        old(grid).wf(),
        old(counters).destroyed_buildings < u32::MAX,
    ensures
        final(grid).wf(),
        final(grid).width == old(grid).width,
        final(grid).height == old(grid).height,
        final(buildings).rows == old(buildings).rows,
        final(buildings).tex_width == old(buildings).tex_width,
        final(buildings).tex_height == old(buildings).tex_height,
        final(buildings).dirty == old(buildings).dirty,
        bid >= old(buildings).items@.len() ==> final(buildings).items == old(buildings).items && *final(grid) == *old(grid)
            && *final(counters) == *old(counters),
        bid < old(buildings).items@.len() ==> {
            let b = old(buildings).items@[bid as int];
            let cleared = abandons(b, r) && old(grid).in_bounds(b.tile.0 as int, b.tile.1 as int)
                && old(grid).tile_at(b.tile.0 as int, b.tile.1 as int) == Tile::Building(bid);
            &&& final(buildings).items@ == old(buildings).items@.update(bid as int, building_after_readback(b, r))
            &&& forall|x: int, y: int|
                old(grid).in_bounds(x, y) ==> #[trigger] final(grid).tile_at(x, y) == (if cleared && in_square(
                    b.tile,
                    spec_footprint(b.btype) as int,
                    x,
                    y,
                ) && old(grid).tile_at(x, y) == Tile::Building(bid) {
                    Tile::Zone(b.btype)
                } else {
                    old(grid).tile_at(x, y)
                })
            &&& *final(counters) == (if cleared {
                SimCounters { destroyed_buildings: (old(counters).destroyed_buildings + 1) as u32, ..*old(counters) }
            } else {
                *old(counters)
            })
        },
{
    if bid as usize >= buildings.items.len() {
        return;
    }
    let mut b = buildings.items[bid as usize];
    b.occupants = r.occupants;
    b.assigned = r.assigned;
    b.growth_bits = r.growth_bits;
    b.age_bits = r.age_bits;
    if b.level != r.level {
        b.level = r.level;
        b.capacity = r.capacity;
        b.income = r.income;
    }
    if b.capacity > 0 && r.abandoned {
        b.capacity = 0;
        if grid.get(b.tile.0, b.tile.1) == Some(Tile::Building(bid)) {
            revert_footprint(grid, bid, b.tile, footprint(b.btype), b.btype);
            counters.destroyed_buildings = counters.destroyed_buildings + 1;
        }
    }
    buildings.items.set(bid as usize, b);
}

/// The car-picking readback is requested once per click: when picking has
/// just become active.
pub open spec fn picking_due(last_active: u32, is_active: u32) -> bool {
    is_active > 0 && last_active == 0
}

/// One readback per activation: while picking stays active, later frames
/// request nothing.
pub proof fn lemma_picking_once(is_active: u32)
    ensures
        !picking_due(is_active, is_active),
{
}

pub fn picking_readback_due(last_active: &mut u32, is_active: u32) -> (due: bool)
    ensures
        due == picking_due(*old(last_active), is_active),
        *final(last_active) == is_active,
{
    let due = is_active > 0 && *last_active == 0;
    *last_active = is_active;
    due
}

/// The picking shader's answer: the id of the car hit, or all ones for no
/// car.
pub fn decode_picked(raw: u32) -> (id: Option<u32>)
    ensures
        id == (if raw == 0xFFFF_FFFF {
            None
        } else {
            Some(raw)
        }),
{
    if raw != 0xFFFF_FFFF {
        Some(raw)
    } else {
        None
    }
}

} // verus!
