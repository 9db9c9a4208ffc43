//! Buildings: the list the simulation works on, their GPU rows, and how a
//! building materialises on zoned tiles.

use vstd::arithmetic::power2::{lemma2_to64, lemma_pow2_strictly_increases, lemma_pow2_unfold, pow2};
use vstd::prelude::*;

use crate::grid::{CityGrid, Tile, ZoneType};
use crate::layout::{BUILDING_CAPACITY, TEXELS_PER_BUILDING};

verus! {

/// Highest building level (five visual stages, 0 to 4).
pub const MAX_LEVEL: u32 = 4;

/// A building.
#[derive(Clone, Copy, Debug, PartialEq, Eq)]
pub struct Building {
    pub tile: (u32, u32),
    pub btype: ZoneType,
    pub level: u32,
    pub occupants: u32,
    pub assigned: u32,
    pub capacity: u32,
    /// Income or rent per cycle.
    pub income: u32,
    pub road_seg: u32,
    /// Position along the road segment as the fraction `num / den`.
    pub road_t: (u32, u32),
    /// The accumulator that drives upgrades and abandonment, as the bit
    /// pattern of the `f32` the GPU keeps (the library only carries it).
    pub growth_bits: u32,
    /// Seconds since construction, as the bit pattern of the GPU's `f32`.
    pub age_bits: u32,
}

/// A building's row of the building texture, three texels of four values:
/// `[x, y, btype, level]`, `[income, occupants, capacity, road_seg]` and
/// `[growth, age_seconds, road_t, assigned]`. The centre is stored doubled
/// (`x2 / 2` is the centre's x), `road_t` as the fraction
/// `road_t_num / road_t_den`, growth and age as their `f32` bit patterns;
/// all other values are whole numbers.
#[derive(Clone, Copy, Debug, PartialEq, Eq, Structural)]
pub struct BuildingRow {
    pub x2: u64,
    pub y2: u64,
    pub btype: u32,
    pub level: u32,
    pub income: u32,
    pub occupants: u32,
    pub capacity: u32,
    pub road_seg: u32,
    pub growth_bits: u32,
    pub age_bits: u32,
    pub road_t_num: u32,
    pub road_t_den: u32,
    pub assigned: u32,
}

/// Side length of a building's square footprint: 3 for houses, 4 otherwise.
pub open spec fn spec_footprint(t: ZoneType) -> u32 {
    if t == ZoneType::Residential {
        3
    } else {
        4
    }
}

pub fn footprint(t: ZoneType) -> (s: u32)
    ensures
        s == spec_footprint(t),
{
    match t {
        ZoneType::Residential => 3,
        _ => 4,
    }
}

/// Numeric code of a zone type in the building texture.
pub open spec fn spec_zone_code(t: ZoneType) -> u32 {
    match t {
        ZoneType::Residential => 0,
        ZoneType::Office => 1,
        ZoneType::Shop => 2,
    }
}

pub fn zone_code(t: ZoneType) -> (c: u32)
    ensures
        c == spec_zone_code(t),
{
    match t {
        ZoneType::Residential => 0,
        ZoneType::Office => 1,
        ZoneType::Shop => 2,
    }
}

/// Capacity of a level-0 building: 72 for houses, 192 for offices, 256 for
/// shops.
pub open spec fn spec_base_capacity(t: ZoneType) -> nat {
    match t {
        ZoneType::Residential => 72,
        ZoneType::Office => 192,
        ZoneType::Shop => 256,
    }
}

/// Income of a level-0 building: 18 for houses, 80 for offices, 48 for
/// shops.
pub open spec fn spec_base_income(t: ZoneType) -> nat {
    match t {
        ZoneType::Residential => 18,
        ZoneType::Office => 80,
        ZoneType::Shop => 48,
    }
}

/// Capacity by level: each level doubles the base capacity.
pub fn capacity_for(btype: ZoneType, level: u32) -> (c: u32)
    requires
        spec_base_capacity(btype) * pow2(level as nat) <= u32::MAX,
    ensures
        c == spec_base_capacity(btype) * pow2(level as nat),
{
    let base: u32 = match btype {
        ZoneType::Residential => 72,
        ZoneType::Office => 192,
        ZoneType::Shop => 256,
    };
    let mut c = base;
    let mut i: u32 = 0;
    proof {
        lemma2_to64();
    }
    while i < level
        invariant
            i <= level,
            base == spec_base_capacity(btype),
            c == base * pow2(i as nat),
            base * pow2(level as nat) <= u32::MAX,
        decreases level - i,
    {
        proof {
            lemma_pow2_unfold((i + 1) as nat);
            if i + 1 < level {
                lemma_pow2_strictly_increases((i + 1) as nat, level as nat);
            }
            assert(base * pow2((i + 1) as nat) <= base * pow2(level as nat)) by (nonlinear_arith)
                requires
                    pow2((i + 1) as nat) <= pow2(level as nat),
                    base >= 0,
            ;
            assert(base * pow2((i + 1) as nat) == 2 * (base * pow2(i as nat))) by (nonlinear_arith)
                requires
                    pow2((i + 1) as nat) == 2 * pow2(i as nat),
            ;
        }
        c = c * 2;
        i = i + 1;
    }
    c
}

/// Income by level: base income times `level + 1`.
pub fn income_for(btype: ZoneType, level: u32) -> (v: u32)
    requires
        spec_base_income(btype) * (level + 1) <= u32::MAX,
    ensures
        v == spec_base_income(btype) * (level + 1),
{
    let base: u32 = match btype {
        ZoneType::Residential => 18,
        ZoneType::Office => 80,
        ZoneType::Shop => 48,
    };
    base * (level + 1)
}

/// The texture row describing `b`.
pub open spec fn building_row_of(b: Building) -> BuildingRow {
    BuildingRow {
        x2: (2 * b.tile.0 + spec_footprint(b.btype)) as u64,
        y2: (2 * b.tile.1 + spec_footprint(b.btype)) as u64,
        btype: spec_zone_code(b.btype),
        level: b.level,
        income: b.income,
        occupants: b.occupants,
        capacity: b.capacity,
        road_seg: b.road_seg,
        growth_bits: b.growth_bits,
        age_bits: b.age_bits,
        road_t_num: b.road_t.0,
        road_t_den: b.road_t.1,
        assigned: b.assigned,
    }
}

pub open spec fn spec_empty_building_row() -> BuildingRow {
    BuildingRow {
        x2: 0,
        y2: 0,
        btype: 0,
        level: 0,
        income: 0,
        occupants: 0,
        capacity: 0,
        road_seg: 0,
        growth_bits: 0,
        age_bits: 0,
        road_t_num: 0,
        road_t_den: 0,
        assigned: 0,
    }
}

pub fn empty_building_row() -> (r: BuildingRow)
    ensures
        r == spec_empty_building_row(),
{
    BuildingRow {
        x2: 0,
        y2: 0,
        btype: 0,
        level: 0,
        income: 0,
        occupants: 0,
        capacity: 0,
        road_seg: 0,
        growth_bits: 0,
        age_bits: 0,
        road_t_num: 0,
        road_t_den: 0,
        assigned: 0,
    }
}

/// The building list with its GPU texture rows.
pub struct BuildingData {
    pub items: Vec<Building>,
    pub rows: Vec<BuildingRow>,
    pub tex_width: u32,
    pub tex_height: u32,
    pub dirty: bool,
}

impl BuildingData {
    /// One texture row per possible building, and no more buildings than
    /// that.
    pub open spec fn wf(&self) -> bool {
        &&& self.rows@.len() == BUILDING_CAPACITY
        &&& self.items@.len() <= BUILDING_CAPACITY
    }

    /// No buildings; `BUILDING_CAPACITY` empty rows in a texture laid out for
    /// `BUILDING_CAPACITY` buildings of `TEXELS_PER_BUILDING` texels.
    pub fn new() -> (d: BuildingData)
        ensures
            d.wf(),
            d.items@.len() == 0,
            d.dirty,
            forall|i: int| 0 <= i < BUILDING_CAPACITY ==> #[trigger] d.rows@[i] == spec_empty_building_row(),
            d.tex_width == 1257,
            d.tex_height == 1252,
    {
        let mut rows: Vec<BuildingRow> = Vec::new();
        let mut i: u32 = 0;
        while i < BUILDING_CAPACITY
            invariant
                i <= BUILDING_CAPACITY,
                rows@.len() == i,
                forall|j: int| 0 <= j < i ==> #[trigger] rows@[j] == spec_empty_building_row(),
            decreases BUILDING_CAPACITY - i,
        {
            rows.push(empty_building_row());
            i = i + 1;
        }
        let (w, h) = crate::layout::texture_layout(BUILDING_CAPACITY * TEXELS_PER_BUILDING, TEXELS_PER_BUILDING);
        proof {
            let s = choose|s: int| crate::layout::is_ceil_sqrt(1572864, s) && w == crate::layout::ceil_div(s, 3) * 3;
            assert(s == 1255) by (nonlinear_arith)
                requires
                    s >= 0,
                    s * s >= 1572864,
                    s == 0 || (s - 1) * (s - 1) < 1572864,
            ;
            assert(w == 1257);
            assert(h == crate::layout::ceil_div(1572864, 1257));
            assert((1572864 + 1257 - 1) / 1257 == 1252) by (nonlinear_arith);
        }
        BuildingData { items: Vec::new(), rows, tex_width: w, tex_height: h, dirty: true }
    }

    /// Rewrites texture row `id` from building `id`.
    pub fn refresh_row(&mut self, id: u32)
        requires
            id < old(self).items@.len(),
            id < old(self).rows@.len(),
        ensures
            final(self).rows@ == old(self).rows@.update(id as int, building_row_of(old(self).items@[id as int])),
            final(self).items == old(self).items,
            final(self).dirty == old(self).dirty,
            final(self).tex_width == old(self).tex_width,
            final(self).tex_height == old(self).tex_height,
    {
        let b = self.items[id as usize];
        let size = footprint(b.btype) as u64;
        let row = BuildingRow {
            x2: 2 * (b.tile.0 as u64) + size,
            y2: 2 * (b.tile.1 as u64) + size,
            btype: zone_code(b.btype),
            level: b.level,
            income: b.income,
            occupants: b.occupants,
            capacity: b.capacity,
            road_seg: b.road_seg,
            growth_bits: b.growth_bits,
            age_bits: b.age_bits,
            road_t_num: b.road_t.0,
            road_t_den: b.road_t.1,
            assigned: b.assigned,
        };
        self.rows.set(id as usize, row);
    }

    /// Appends `b` and writes its row, unless the list is full.
    pub fn push(&mut self, b: Building) -> (id: Option<u32>)
        requires
            old(self).wf(),
        ensures
            final(self).wf(),
            old(self).items@.len() >= BUILDING_CAPACITY ==> id is None && final(self).items == old(self).items
                && final(self).rows == old(self).rows && final(self).dirty == old(self).dirty,
            old(self).items@.len() < BUILDING_CAPACITY ==> {
                &&& id == Some(old(self).items@.len() as u32)
                &&& final(self).items@ == old(self).items@.push(b)
                &&& final(self).rows@ == old(self).rows@.update(old(self).items@.len() as int, building_row_of(b))
                &&& final(self).dirty
            },
            final(self).tex_width == old(self).tex_width,
            final(self).tex_height == old(self).tex_height,
    {
        if self.items.len() as u32 >= BUILDING_CAPACITY {
            return None;
        }
        let id = self.items.len() as u32;
        self.items.push(b);
        self.refresh_row(id);
        self.dirty = true;
        Some(id)
    }
}

/// Every tile of the `size x size` square with top-left corner `tile` lies
/// in the grid and is empty or zoned.
pub open spec fn footprint_clear(grid: CityGrid, tile: (u32, u32), size: int) -> bool {
    &&& tile.0 + size <= grid.width
    &&& tile.1 + size <= grid.height
    &&& forall|dx: int, dy: int|
        0 <= dx < size && 0 <= dy < size ==> {
            let t = #[trigger] grid.tile_at(tile.0 + dx, tile.1 + dy);
            t is Empty || t is Zone
        }
}

/// `(x, y)` lies in the `size x size` square with top-left corner `tile`.
pub open spec fn in_square(tile: (u32, u32), size: int, x: int, y: int) -> bool {
    tile.0 <= x < tile.0 + size && tile.1 <= y < tile.1 + size
}

/// The level-0 building of type `btype` on `tile`, served by road segment
/// `road_seg` at position `road_t`.
pub open spec fn new_building(tile: (u32, u32), btype: ZoneType, road_seg: u32, road_t: (u32, u32)) -> Building {
    Building {
        tile,
        btype,
        level: 0,
        occupants: 0,
        assigned: 0,
        capacity: spec_base_capacity(btype) as u32,
        income: spec_base_income(btype) as u32,
        road_seg,
        road_t,
        growth_bits: 0,
        age_bits: 0,
    }
}

/// What `spawn_building` does: it succeeds exactly when the footprint lies
/// in the grid, is empty or zoned everywhere, and the list is not full; then
/// the building is appended with its row and its footprint tiles become
/// `Building(id)`. Otherwise nothing changes.
pub open spec fn spawn_outcome(
    d0: BuildingData,
    g0: CityGrid,
    d1: BuildingData,
    g1: CityGrid,
    tile: (u32, u32),
    btype: ZoneType,
    road_seg: u32,
    road_t: (u32, u32),
    id: Option<u32>,
) -> bool {
    &&& (id is Some) == (footprint_clear(g0, tile, spec_footprint(btype) as int) && d0.items@.len() < BUILDING_CAPACITY)
    &&& id is None ==> d1 == d0 && g1 == g0
    &&& id matches Some(i) ==> {
        &&& i == d0.items@.len()
        &&& g1.width == g0.width
        &&& g1.height == g0.height
        &&& d1.items@ == d0.items@.push(new_building(tile, btype, road_seg, road_t))
        &&& d1.rows@ == d0.rows@.update(i as int, building_row_of(new_building(tile, btype, road_seg, road_t)))
        &&& d1.dirty
        &&& forall|x: int, y: int|
            g0.in_bounds(x, y) ==> #[trigger] g1.tile_at(x, y) == (if in_square(tile, spec_footprint(btype) as int, x, y) {
                Tile::Building(i)
            } else {
                g0.tile_at(x, y)
            })
    }
}

/// A spawn never touches a tile that is not empty or zoned.
pub proof fn lemma_spawn_keeps_occupied(
    d0: BuildingData,
    g0: CityGrid,
    d1: BuildingData,
    g1: CityGrid,
    tile: (u32, u32),
    btype: ZoneType,
    road_seg: u32,
    road_t: (u32, u32),
    id: Option<u32>,
    x: int,
    y: int,
)
    requires
        spawn_outcome(d0, g0, d1, g1, tile, btype, road_seg, road_t, id),
        g0.in_bounds(x, y),
        !(g0.tile_at(x, y) is Empty),
        !(g0.tile_at(x, y) is Zone),
    ensures
        g1.tile_at(x, y) == g0.tile_at(x, y),
{
    if id is Some {
        if in_square(tile, spec_footprint(btype) as int, x, y) {
            let dx = x - tile.0;
            let dy = y - tile.1;
            assert(g0.tile_at(tile.0 + dx, tile.1 + dy) == g0.tile_at(x, y));
        }
    }
}

/// Checks that the footprint of a `btype` building at `tile` is clear.
fn check_footprint(grid: &CityGrid, tile: (u32, u32), size: u32) -> (ok: bool)
    requires
        grid.wf(),
    ensures
        ok == footprint_clear(*grid, tile, size as int),
{
    if tile.0 as u64 + size as u64 > grid.width as u64 || tile.1 as u64 + size as u64 > grid.height as u64 {
        return false;
    }
    let mut dy: u32 = 0;
    while dy < size
        invariant
            grid.wf(),
            tile.0 + size <= grid.width,
            tile.1 + size <= grid.height,
            dy <= size,
            forall|ex: int, ey: int| 0 <= ex < size && 0 <= ey < dy ==> {
                let t = #[trigger] grid.tile_at(tile.0 + ex, tile.1 + ey);
                t is Empty || t is Zone
            },
        decreases size - dy,
    {
        let mut dx: u32 = 0;
        while dx < size
            invariant
                grid.wf(),
                tile.0 + size <= grid.width,
                tile.1 + size <= grid.height,
                dy < size,
                dx <= size,
                forall|ex: int, ey: int| 0 <= ex < size && 0 <= ey < dy ==> {
                    let t = #[trigger] grid.tile_at(tile.0 + ex, tile.1 + ey);
                    t is Empty || t is Zone
                },
                forall|ex: int| 0 <= ex < dx ==> {
                    let t = #[trigger] grid.tile_at(tile.0 + ex, tile.1 + dy);
                    t is Empty || t is Zone
                },
            decreases size - dx,
        {
            match grid.get(tile.0 + dx, tile.1 + dy) {
                Some(Tile::Empty) | Some(Tile::Zone(_)) => {},
                _ => {
                    return false;
                },
            }
            dx = dx + 1;
        }
        dy = dy + 1;
    }
    true
}

/// Writes `t` on every tile of the `size x size` square at `tile`, which
/// lies in the grid.
pub fn stamp_square(grid: &mut CityGrid, tile: (u32, u32), size: u32, t: Tile)
    requires
        old(grid).wf(),
        tile.0 + size <= old(grid).width,
        tile.1 + size <= old(grid).height,
    ensures
        final(grid).wf(),
        final(grid).width == old(grid).width,
        final(grid).height == old(grid).height,
        final(grid).biomes == old(grid).biomes,
        forall|x: int, y: int|
            old(grid).in_bounds(x, y) ==> #[trigger] final(grid).tile_at(x, y) == (if in_square(tile, size as int, x, y) {
                t
            } else {
                old(grid).tile_at(x, y)
            }),
{
    grid.fill_rect(tile.0, tile.1, tile.0 + size, tile.1 + size, t);
}

/// Materialises a level-0 building of type `btype` with its top-left corner
/// on `tile` (a 3x3 house or a 4x4 office or shop), served by road segment
/// `road_seg` at position `road_t`.
///
/// Succeeds exactly when the footprint lies in the grid, every footprint
/// tile is empty or zoned, and the building list is not full; then the
/// building is appended and every footprint tile becomes `Building(id)`.
/// Otherwise nothing changes.
pub fn spawn_building(
    data: &mut BuildingData,
    grid: &mut CityGrid,
    tile: (u32, u32),
    btype: ZoneType,
    road_seg: u32,
    road_t: (u32, u32),
) -> (id: Option<u32>)
    requires
        old(data).wf(),
        old(grid).wf(),
    ensures
        final(data).wf(),
        final(grid).wf(),
        final(grid).width == old(grid).width,
        final(grid).height == old(grid).height,
        final(grid).biomes == old(grid).biomes,
        final(data).tex_width == old(data).tex_width,
        final(data).tex_height == old(data).tex_height,
        spawn_outcome(*old(data), *old(grid), *final(data), *final(grid), tile, btype, road_seg, road_t, id),
{
    let size = footprint(btype);
    if !check_footprint(grid, tile, size) {
        return None;
    }
    proof {
        lemma2_to64();
    }
    let level: u32 = 0;
    let b = Building {
        tile,
        btype,
        level,
        occupants: 0,
        assigned: 0,
        capacity: capacity_for(btype, level),
        income: income_for(btype, level),
        road_seg,
        road_t,
        growth_bits: 0,
        age_bits: 0,
    };
    let id = match data.push(b) {
        Some(id) => id,
        None => {
            return None;
        },
    };
    stamp_square(grid, tile, size, Tile::Building(id));
    Some(id)
}

} // verus!
