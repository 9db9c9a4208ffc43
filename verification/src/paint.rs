//! Painting with the build tools: placing zoned buildings next to roads and
//! laying roads, which rebuilds the road network, stamps the road footprint
//! on the grid and materialises buildings on nearby zoned tiles.

use vstd::prelude::*;

use crate::buildings::{lemma_spawn_keeps_occupied, spawn_building, BuildingData};
use crate::grid::{spec_neighbours4, tile_index, CityGrid, Tile, ZoneType};
use crate::roads::{decomposes, flat_tiles, has_link, spec_tile_t, RoadData, RoadLink, RoadType};
use crate::tools::{spec_as_zone, ActiveTool};

verus! {

/// How far a road's footprint reaches around its tile, as (before, after):
/// normal roads cover the tile and the next one, highways one tile before
/// and two after, the wide highway kinds two before and three after, or four
/// before and five after.
pub open spec fn spec_road_reach(t: RoadType) -> (u32, u32) {
    match t {
        RoadType::Normal => (0, 1),
        RoadType::Highway => (1, 2),
        RoadType::Highway2x4 => (2, 3),
        RoadType::Highway2x8 => (4, 5),
    }
}

pub fn road_reach(t: RoadType) -> (r: (u32, u32))
    ensures
        r == spec_road_reach(t),
{
    match t {
        RoadType::Normal => (0, 1),
        RoadType::Highway => (1, 2),
        RoadType::Highway2x4 => (2, 3),
        RoadType::Highway2x8 => (4, 5),
    }
}

/// Radius searched for zoned tiles around a new road tile: twice the
/// footprint's reach plus two.
pub open spec fn spec_search_radius(t: RoadType) -> u32 {
    (2 * spec_road_reach(t).1 + 2) as u32
}

/// `(x, y)` lies in the footprint of a road of type `t` on `tile`.
pub open spec fn in_road_footprint(tile: (u32, u32), t: RoadType, x: int, y: int) -> bool {
    let (lo, hi) = spec_road_reach(t);
    &&& tile.0 - lo <= x <= tile.0 + hi
    &&& tile.1 - lo <= y <= tile.1 + hi
}

/// Marks the footprint of a road of type `t` on `tile` (clipped to the
/// grid) as `Road(seg_id)`.
pub fn stamp_road(grid: &mut CityGrid, tile: (u32, u32), seg_id: u32, t: RoadType)
    requires
        old(grid).wf(),
    ensures
        final(grid).wf(),
        final(grid).width == old(grid).width,
        final(grid).height == old(grid).height,
        final(grid).biomes == old(grid).biomes,
        forall|x: int, y: int|
            old(grid).in_bounds(x, y) ==> #[trigger] final(grid).tile_at(x, y) == (if in_road_footprint(tile, t, x, y) {
                Tile::Road(seg_id)
            } else {
                old(grid).tile_at(x, y)
            }),
{
    let (lo, hi) = road_reach(t);
    let x0 = if tile.0 >= lo {
        tile.0 - lo
    } else {
        0
    };
    let y0 = if tile.1 >= lo {
        tile.1 - lo
    } else {
        0
    };
    let xe = tile.0 as u64 + hi as u64 + 1;
    let ye = tile.1 as u64 + hi as u64 + 1;
    let x1 = if xe < grid.width as u64 {
        xe as u32
    } else {
        grid.width
    };
    let y1 = if ye < grid.height as u64 {
        ye as u32
    } else {
        grid.height
    };
    grid.fill_rect(x0, y0, x1, y1, Tile::Road(seg_id));
}

/// The tile at `p`, or `None` outside the grid.
pub open spec fn tile_opt(grid: CityGrid, p: (u32, u32)) -> Option<Tile> {
    if grid.in_bounds(p.0 as int, p.1 as int) {
        Some(grid.tile_at(p.0 as int, p.1 as int))
    } else {
        None
    }
}

/// The road tiles among `cells`, in order, as (segment id, tile).
pub open spec fn roads_among(grid: CityGrid, cells: Seq<(u32, u32)>) -> Seq<(u32, (u32, u32))>
    decreases cells.len(),
{
    if cells.len() == 0 {
        Seq::empty()
    } else {
        roads_among(grid, cells.drop_last()) + (match tile_opt(grid, cells.last()) {
            Some(Tile::Road(s)) => seq![(s, cells.last())],
            _ => Seq::empty(),
        })
    }
}

/// Road tiles next to footprint cell `(x + dx, y + dy)`, if that cell lies
/// in the grid.
pub open spec fn cell_hits(grid: CityGrid, x: int, y: int, dx: int, dy: int) -> Seq<(u32, (u32, u32))> {
    if x + dx < grid.width && y + dy < grid.height {
        roads_among(grid, spec_neighbours4(grid.width as int, grid.height as int, x + dx, y + dy))
    } else {
        Seq::empty()
    }
}

/// Road tiles next to the first `n` cells of footprint row `dy`.
pub open spec fn row_hits(grid: CityGrid, x: int, y: int, dy: int, n: int) -> Seq<(u32, (u32, u32))>
    decreases n,
{
    if n <= 0 {
        Seq::empty()
    } else {
        row_hits(grid, x, y, dy, n - 1) + cell_hits(grid, x, y, n - 1, dy)
    }
}

/// Road tiles next to the first `m` rows of a `size`-wide footprint at
/// `(x, y)`, scanning rows top to bottom, cells left to right, and each
/// cell's neighbours left, right, up, down.
pub open spec fn square_hits(grid: CityGrid, x: int, y: int, size: int, m: int) -> Seq<(u32, (u32, u32))>
    decreases m,
{
    if m <= 0 {
        Seq::empty()
    } else {
        square_hits(grid, x, y, size, m - 1) + row_hits(grid, x, y, m - 1, size)
    }
}

/// The first road tile next to the `size x size` footprint at `(x, y)`.
pub open spec fn spec_adjacent_road(grid: CityGrid, x: int, y: int, size: int) -> Option<(u32, (u32, u32))> {
    let h = square_hits(grid, x, y, size, size);
    if h.len() > 0 {
        Some(h[0])
    } else {
        None
    }
}

/// `q` is one of the four orthogonal neighbours of `c`.
pub open spec fn orth_adjacent(c: (int, int), q: (int, int)) -> bool {
    ||| (q.1 == c.1 && (q.0 == c.0 + 1 || q.0 + 1 == c.0))
    ||| (q.0 == c.0 && (q.1 == c.1 + 1 || q.1 + 1 == c.1))
}

/// `q` is a road tile of the grid beside cell `(x + dx, y + dy)` of the
/// `size x size` footprint at `(x, y)`, and that cell lies in the grid.
pub open spec fn road_beside_cell(grid: CityGrid, x: int, y: int, size: int, dx: int, dy: int, q: (u32, u32)) -> bool {
    &&& 0 <= dx < size
    &&& 0 <= dy < size
    &&& x + dx < grid.width
    &&& y + dy < grid.height
    &&& grid.in_bounds(q.0 as int, q.1 as int)
    &&& orth_adjacent((x + dx, y + dy), (q.0 as int, q.1 as int))
    &&& grid.tile_at(q.0 as int, q.1 as int) is Road
}

/// `e` names a road tile `e.1` of segment `e.0` beside some cell of the
/// `size x size` footprint at `(x, y)` lying in the grid.
pub open spec fn road_beside_footprint(grid: CityGrid, x: int, y: int, size: int, e: (u32, (u32, u32))) -> bool {
    &&& exists|dx: int, dy: int| #[trigger] road_beside_cell(grid, x, y, size, dx, dy, e.1)
    &&& grid.tile_at(e.1.0 as int, e.1.1 as int) == Tile::Road(e.0)
}

proof fn lemma_roads_among(grid: CityGrid, cells: Seq<(u32, u32)>)
    ensures
        forall|k: int|
            0 <= k < roads_among(grid, cells).len() ==> exists|m: int|
                0 <= m < cells.len() && #[trigger] roads_among(grid, cells)[k].1 == cells[m] && tile_opt(grid, cells[m])
                    == Some(Tile::Road(roads_among(grid, cells)[k].0)),
        forall|m: int|
            0 <= m < cells.len() && (#[trigger] tile_opt(grid, cells[m]) matches Some(Tile::Road(_))) ==> roads_among(
                grid,
                cells,
            ).len() > 0,
    decreases cells.len(),
{
    if cells.len() > 0 {
        let pre = cells.drop_last();
        lemma_roads_among(grid, pre);
        let rp = roads_among(grid, pre);
        let ra = roads_among(grid, cells);
        assert forall|k: int| 0 <= k < ra.len() implies exists|m: int|
            0 <= m < cells.len() && #[trigger] ra[k].1 == cells[m] && tile_opt(grid, cells[m]) == Some(Tile::Road(ra[k].0)) by {
            if k < rp.len() {
                assert(ra[k] == rp[k]);
                let m = choose|m: int| 0 <= m < pre.len() && rp[k].1 == pre[m] && tile_opt(grid, pre[m]) == Some(Tile::Road(rp[k].0));
                assert(cells[m] == pre[m]);
            } else {
                assert(ra[k].1 == cells[cells.len() - 1]);
            }
        }
        assert forall|m: int| 0 <= m < cells.len() && (#[trigger] tile_opt(grid, cells[m]) matches Some(Tile::Road(_))) implies ra.len() > 0 by {
            if m < pre.len() {
                assert(pre[m] == cells[m]);
                assert(tile_opt(grid, pre[m]) matches Some(Tile::Road(_)));
            }
        }
    }
}

proof fn lemma_neighbours_adjacent(w: int, h: int, cx: int, cy: int)
    requires
        0 <= cx < w <= u32::MAX,
        0 <= cy < h <= u32::MAX,
    ensures
        forall|k: int|
            0 <= k < spec_neighbours4(w, h, cx, cy).len() ==> {
                let q = #[trigger] spec_neighbours4(w, h, cx, cy)[k];
                &&& q.0 < w
                &&& q.1 < h
                &&& orth_adjacent((cx, cy), (q.0 as int, q.1 as int))
            },
        forall|q: (u32, u32)|
            q.0 < w && q.1 < h && orth_adjacent((cx, cy), (q.0 as int, q.1 as int)) ==> exists|k: int|
                0 <= k < spec_neighbours4(w, h, cx, cy).len() && #[trigger] spec_neighbours4(w, h, cx, cy)[k] == q,
{
    let nb = spec_neighbours4(w, h, cx, cy);
    let left: Seq<(u32, u32)> = if 0 < cx && cx - 1 < w && 0 <= cy < h {
        seq![((cx - 1) as u32, cy as u32)]
    } else {
        seq![]
    };
    let right: Seq<(u32, u32)> = if 0 <= cx + 1 < w && 0 <= cy < h {
        seq![((cx + 1) as u32, cy as u32)]
    } else {
        seq![]
    };
    let up: Seq<(u32, u32)> = if 0 <= cx < w && 0 < cy && cy - 1 < h {
        seq![(cx as u32, (cy - 1) as u32)]
    } else {
        seq![]
    };
    let down: Seq<(u32, u32)> = if 0 <= cx < w && 0 <= cy + 1 < h {
        seq![(cx as u32, (cy + 1) as u32)]
    } else {
        seq![]
    };
    assert(nb == left + right + up + down);
    let all = left + right + up + down;
    assert forall|k: int| 0 <= k < all.len() implies {
        let q = #[trigger] all[k];
        &&& q.0 < w
        &&& q.1 < h
        &&& orth_adjacent((cx, cy), (q.0 as int, q.1 as int))
    } by {
        if k < left.len() {
            assert(all[k] == left[k]);
        } else if k < left.len() + right.len() {
            assert(all[k] == right[k - left.len()]);
        } else if k < left.len() + right.len() + up.len() {
            assert(all[k] == up[k - left.len() - right.len()]);
        } else {
            assert(all[k] == down[k - left.len() - right.len() - up.len()]);
        }
    }
    assert forall|q: (u32, u32)| q.0 < w && q.1 < h && orth_adjacent((cx, cy), (q.0 as int, q.1 as int)) implies exists|k: int|
        0 <= k < all.len() && #[trigger] all[k] == q by {
        if q.1 == cy && q.0 + 1 == cx {
            assert(all[0] == q);
        } else if q.1 == cy && q.0 == cx + 1 {
            assert(all[left.len() as int] == q);
        } else if q.0 == cx && q.1 + 1 == cy {
            assert(all[(left.len() + right.len()) as int] == q);
        } else {
            assert(all[(left.len() + right.len() + up.len()) as int] == q);
        }
    }
}

/// The hits at one footprint cell are exactly the road tiles beside it.
proof fn lemma_cell_hits(grid: CityGrid, x: int, y: int, size: int, dx: int, dy: int)
    requires
        grid.wf(),
        0 <= x,
        0 <= y,
        0 <= dx < size,
        0 <= dy < size,
    ensures
        forall|k: int|
            0 <= k < cell_hits(grid, x, y, dx, dy).len() ==> road_beside_footprint(
                grid,
                x,
                y,
                size,
                #[trigger] cell_hits(grid, x, y, dx, dy)[k],
            ),
        forall|q: (u32, u32)| #[trigger] road_beside_cell(grid, x, y, size, dx, dy, q) ==> cell_hits(grid, x, y, dx, dy).len() > 0,
{
    if x + dx < grid.width && y + dy < grid.height {
        let cells = spec_neighbours4(grid.width as int, grid.height as int, x + dx, y + dy);
        lemma_neighbours_adjacent(grid.width as int, grid.height as int, x + dx, y + dy);
        lemma_roads_among(grid, cells);
        let ch = cell_hits(grid, x, y, dx, dy);
        assert forall|k: int| 0 <= k < ch.len() implies road_beside_footprint(grid, x, y, size, #[trigger] ch[k]) by {
            let m = choose|m: int| 0 <= m < cells.len() && ch[k].1 == cells[m] && tile_opt(grid, cells[m]) == Some(Tile::Road(ch[k].0));
            let q = cells[m];
            assert(q.0 < grid.width && q.1 < grid.height && orth_adjacent((x + dx, y + dy), (q.0 as int, q.1 as int)));
            assert(road_beside_cell(grid, x, y, size, dx, dy, ch[k].1));
        }
        assert forall|q: (u32, u32)| #[trigger] road_beside_cell(grid, x, y, size, dx, dy, q) implies ch.len() > 0 by {
            let k = choose|k: int| 0 <= k < cells.len() && cells[k] == q;
            assert(tile_opt(grid, cells[k]) matches Some(Tile::Road(_)));
        }
    }
}

proof fn lemma_row_hits(grid: CityGrid, x: int, y: int, size: int, dy: int, n: int)
    requires
        grid.wf(),
        0 <= x,
        0 <= y,
        0 <= dy < size,
        0 <= n <= size,
    ensures
        forall|k: int|
            0 <= k < row_hits(grid, x, y, dy, n).len() ==> road_beside_footprint(
                grid,
                x,
                y,
                size,
                #[trigger] row_hits(grid, x, y, dy, n)[k],
            ),
        forall|dx: int, q: (u32, u32)|
            dx < n && #[trigger] road_beside_cell(grid, x, y, size, dx, dy, q) ==> row_hits(grid, x, y, dy, n).len() > 0,
    decreases n,
{
    if n > 0 {
        lemma_row_hits(grid, x, y, size, dy, n - 1);
        lemma_cell_hits(grid, x, y, size, n - 1, dy);
        let a = row_hits(grid, x, y, dy, n - 1);
        let b = cell_hits(grid, x, y, n - 1, dy);
        let r = row_hits(grid, x, y, dy, n);
        assert(r == a + b);
        assert forall|k: int| 0 <= k < r.len() implies road_beside_footprint(grid, x, y, size, #[trigger] r[k]) by {
            if k < a.len() {
                assert(r[k] == a[k]);
            } else {
                assert(r[k] == b[k - a.len()]);
            }
        }
        assert forall|dx: int, q: (u32, u32)| dx < n && #[trigger] road_beside_cell(grid, x, y, size, dx, dy, q) implies r.len() > 0 by {
            if dx < n - 1 {
                assert(a.len() > 0);
            } else {
                assert(b.len() > 0);
            }
        }
    }
}

proof fn lemma_square_hits(grid: CityGrid, x: int, y: int, size: int, m: int)
    requires
        grid.wf(),
        0 <= x,
        0 <= y,
        0 <= m <= size,
    ensures
        forall|k: int|
            0 <= k < square_hits(grid, x, y, size, m).len() ==> road_beside_footprint(
                grid,
                x,
                y,
                size,
                #[trigger] square_hits(grid, x, y, size, m)[k],
            ),
        forall|dx: int, dy: int, q: (u32, u32)|
            dy < m && #[trigger] road_beside_cell(grid, x, y, size, dx, dy, q) ==> square_hits(grid, x, y, size, m).len() > 0,
    decreases m,
{
    if m > 0 {
        lemma_square_hits(grid, x, y, size, m - 1);
        lemma_row_hits(grid, x, y, size, m - 1, size);
        let a = square_hits(grid, x, y, size, m - 1);
        let b = row_hits(grid, x, y, m - 1, size);
        let r = square_hits(grid, x, y, size, m);
        assert(r == a + b);
        assert forall|k: int| 0 <= k < r.len() implies road_beside_footprint(grid, x, y, size, #[trigger] r[k]) by {
            if k < a.len() {
                assert(r[k] == a[k]);
            } else {
                assert(r[k] == b[k - a.len()]);
            }
        }
        assert forall|dx: int, dy: int, q: (u32, u32)| dy < m && #[trigger] road_beside_cell(grid, x, y, size, dx, dy, q) implies r.len() > 0 by {
            if dy < m - 1 {
                assert(a.len() > 0);
            } else {
                assert(b.len() > 0);
            }
        }
    }
}

/// The zone tool looks for a road beside every cell of the footprint, the
/// last row and column included: a road is found exactly when some road
/// tile of the grid is an orthogonal neighbour of a footprint cell inside
/// the grid, and the road found is such a tile, with its segment.
pub proof fn lemma_adjacent_road_exact(grid: CityGrid, x: int, y: int, size: int)
    requires
        grid.wf(),
        0 <= x,
        0 <= y,
        0 <= size,
    ensures
        spec_adjacent_road(grid, x, y, size) matches Some(e) ==> road_beside_footprint(grid, x, y, size, e),
        (exists|dx: int, dy: int, q: (u32, u32)| #[trigger] road_beside_cell(grid, x, y, size, dx, dy, q))
            ==> spec_adjacent_road(grid, x, y, size) is Some,
{
    lemma_square_hits(grid, x, y, size, size);
}

fn road_hits_at(grid: &CityGrid, cx: u32, cy: u32, out: &mut Vec<(u32, (u32, u32))>)
    requires
        grid.wf(),
    ensures
        final(out)@ == old(out)@ + roads_among(*grid, spec_neighbours4(grid.width as int, grid.height as int, cx as int, cy as int)),
{
    let nb = grid.neighbours4(cx, cy);
    let ghost base = out@;
    let n = nb.len();
    let mut k: usize = 0;
    while k < n
        invariant
            grid.wf(),
            n == nb@.len(),
            k <= n,
            out@ == base + roads_among(*grid, nb@.take(k as int)),
        decreases n - k,
    {
        proof {
            assert(nb@.take(k as int + 1).drop_last() =~= nb@.take(k as int));
            assert(nb@.take(k as int + 1).last() == nb@[k as int]);
        }
        let p = nb[k];
        match grid.get(p.0, p.1) {
            Some(Tile::Road(s)) => {
                out.push((s, p));
                proof {
                    assert(out@ =~= base + roads_among(*grid, nb@.take(k as int + 1)));
                }
            },
            _ => {
                proof {
                    assert(out@ =~= base + roads_among(*grid, nb@.take(k as int + 1)));
                }
            },
        }
        k = k + 1;
    }
    proof {
        assert(nb@.take(n as int) =~= nb@);
    }
}

/// The first road tile next to the `size x size` footprint at `(x, y)`,
/// as (segment id, road tile).
pub fn adjacent_road(grid: &CityGrid, x: u32, y: u32, size: u32) -> (r: Option<(u32, (u32, u32))>)
    requires
        grid.wf(),
        size <= 4,
    ensures
        r == spec_adjacent_road(*grid, x as int, y as int, size as int),
{
    let mut all: Vec<(u32, (u32, u32))> = Vec::new();
    let mut dy: u32 = 0;
    while dy < size
        invariant
            grid.wf(),
            size <= 4,
            dy <= size,
            all@ == square_hits(*grid, x as int, y as int, size as int, dy as int),
        decreases size - dy,
    {
        let ghost before_row = all@;
        let mut dx: u32 = 0;
        while dx < size
            invariant
                grid.wf(),
                size <= 4,
                dy < size,
                dx <= size,
                all@ == before_row + row_hits(*grid, x as int, y as int, dy as int, dx as int),
            decreases size - dx,
        {
            if (x as u64) + (dx as u64) < grid.width as u64 && (y as u64) + (dy as u64) < grid.height as u64 {
                let ghost b = all@;
                road_hits_at(grid, x + dx, y + dy, &mut all);
                proof {
                    assert(all@ =~= before_row + row_hits(*grid, x as int, y as int, dy as int, dx as int + 1));
                }
            } else {
                proof {
                    assert(all@ =~= before_row + row_hits(*grid, x as int, y as int, dy as int, dx as int + 1));
                }
            }
            dx = dx + 1;
        }
        dy = dy + 1;
    }
    if all.len() > 0 {
        Some(all[0])
    } else {
        None
    }
}

/// What the zone tool at `(x, y)` does, from grid `g0` and buildings `b0`
/// to `g1` and `b1`: see `paint_zone`.
pub open spec fn zone_painted(
    g0: CityGrid,
    b0: BuildingData,
    roads: RoadData,
    g1: CityGrid,
    b1: BuildingData,
    zone: ZoneType,
    x: u32,
    y: u32,
    changed: bool,
) -> bool {
    let size = crate::buildings::spec_footprint(zone) as int;
    let hit = spec_adjacent_road(g0, x as int, y as int, size);
    &&& changed == (tile_opt(g0, (x, y)) == Some(Tile::Empty))
    &&& !changed ==> g1 == g0 && b1 == b0
    &&& changed && hit is None ==> {
        &&& b1 == b0
        &&& g1.width == g0.width
        &&& g1.height == g0.height
        &&& g1.biomes == g0.biomes
        &&& g1.tiles@ == g0.tiles@.update(tile_index(g0.width as int, x as int, y as int), Tile::Zone(zone))
    }
    &&& changed && hit is Some ==> exists|id: Option<u32>| crate::buildings::spawn_outcome(
        b0,
        g0,
        b1,
        g1,
        (x, y),
        zone,
        hit.unwrap().0,
        spec_tile_t(roads.segments@, hit.unwrap().0 as int, hit.unwrap().1),
        id,
    )
}

/// The zone tool on an empty tile: when a road tile lies beside any cell of
/// the footprint (its last row and column included), the footprint is clear
/// and the building list has room, a level-0 building of the zone is added
/// with its corner on the tile and its road beside the footprint; when no
/// road lies beside the footprint, the tile just becomes a zone and no
/// building is added.
pub proof fn lemma_zone_tool_outcome(
    g0: CityGrid,
    b0: BuildingData,
    roads: RoadData,
    g1: CityGrid,
    b1: BuildingData,
    zone: ZoneType,
    x: u32,
    y: u32,
    changed: bool,
)
    requires
        g0.wf(),
        zone_painted(g0, b0, roads, g1, b1, zone, x, y, changed),
        tile_opt(g0, (x, y)) == Some(Tile::Empty),
    ensures
        changed,
        (exists|dx: int, dy: int, q: (u32, u32)|
            #[trigger] road_beside_cell(g0, x as int, y as int, crate::buildings::spec_footprint(zone) as int, dx, dy, q))
            && crate::buildings::footprint_clear(g0, (x, y), crate::buildings::spec_footprint(zone) as int)
            && b0.items@.len() < crate::layout::BUILDING_CAPACITY ==> {
            &&& b1.items@.len() == b0.items@.len() + 1
            &&& b1.items@.last().tile == (x, y)
            &&& b1.items@.last().btype == zone
            &&& b1.items@.last().level == 0
            &&& road_beside_footprint(
                g0,
                x as int,
                y as int,
                crate::buildings::spec_footprint(zone) as int,
                (b1.items@.last().road_seg, spec_adjacent_road(g0, x as int, y as int, crate::buildings::spec_footprint(zone) as int).unwrap().1),
            )
        },
        !(exists|dx: int, dy: int, q: (u32, u32)|
            #[trigger] road_beside_cell(g0, x as int, y as int, crate::buildings::spec_footprint(zone) as int, dx, dy, q))
            ==> b1 == b0 && g1.tile_at(x as int, y as int) == Tile::Zone(zone),
{
    let size = crate::buildings::spec_footprint(zone) as int;
    lemma_adjacent_road_exact(g0, x as int, y as int, size);
    let hit = spec_adjacent_road(g0, x as int, y as int, size);
    if hit is Some {
        let id = choose|id: Option<u32>| crate::buildings::spawn_outcome(
            b0,
            g0,
            b1,
            g1,
            (x, y),
            zone,
            hit.unwrap().0,
            spec_tile_t(roads.segments@, hit.unwrap().0 as int, hit.unwrap().1),
            id,
        );
        if crate::buildings::footprint_clear(g0, (x, y), size) && b0.items@.len() < crate::layout::BUILDING_CAPACITY {
            assert(id is Some);
        }
    } else {
        crate::grid::lemma_index_in_grid(x as int, y as int, g0.width as int, g0.height as int);
        if exists|dx: int, dy: int, q: (u32, u32)| #[trigger] road_beside_cell(g0, x as int, y as int, size, dx, dy, q) {
            assert(hit is Some);
        }
    }
}

/// The zone tool at `(x, y)`: an empty tile is zoned. When a road tile is
/// adjacent to the footprint of a building of the tool's zone there, the
/// zone materialises at once: the building is placed (as `spawn_building`
/// does) against the first such road tile, at that tile's position along
/// the road; otherwise the tile becomes a zone of the tool's type and waits
/// for a road. Returns whether the tile was empty (the grid is then marked
/// changed).
pub fn paint_zone(zone: ZoneType, x: u32, y: u32, grid: &mut CityGrid, roads: &RoadData, buildings: &mut BuildingData) -> (changed: bool)
    requires
        old(grid).wf(),
        old(buildings).wf(),
    ensures
        final(grid).wf(),
        final(buildings).wf(),
        final(grid).width == old(grid).width,
        final(grid).height == old(grid).height,
        zone_painted(*old(grid), *old(buildings), *roads, *final(grid), *final(buildings), zone, x, y, changed),
{
    match grid.get(x, y) {
        Some(Tile::Empty) => {},
        _ => {
            return false;
        },
    }
    let size = crate::buildings::footprint(zone);
    match adjacent_road(grid, x, y, size) {
        Some((seg_id, road_tile)) => {
            let road_t = roads.get_tile_t(seg_id, road_tile);
            let id = spawn_building(buildings, grid, (x, y), zone, seg_id, road_t);
            true
        },
        None => {
            grid.set(x, y, Tile::Zone(zone));
            true
        },
    }
}

/// The links a road tool asks for at `(x, y)`: one to every orthogonal
/// neighbour that is a road tile of an existing segment of the same type
/// (left, right, up, down), then the tile's own self-link.
pub open spec fn road_link_requests(grid: CityGrid, roads: RoadData, x: u32, y: u32, t: RoadType) -> Seq<RoadLink> {
    neighbour_links(grid, roads, (x, y), spec_neighbours4(grid.width as int, grid.height as int, x as int, y as int), t).push(
        RoadLink { a: (x, y), b: (x, y), road_type: t },
    )
}

pub open spec fn neighbour_links(grid: CityGrid, roads: RoadData, p: (u32, u32), cells: Seq<(u32, u32)>, t: RoadType) -> Seq<RoadLink>
    decreases cells.len(),
{
    if cells.len() == 0 {
        Seq::empty()
    } else {
        neighbour_links(grid, roads, p, cells.drop_last(), t) + (match tile_opt(grid, cells.last()) {
            Some(Tile::Road(s)) => if s < roads.segments@.len() && roads.segments@[s as int].road_type == t {
                seq![RoadLink { a: p, b: cells.last(), road_type: t }]
            } else {
                Seq::empty()
            },
            _ => Seq::empty(),
        })
    }
}

/// `links` after `push_link` of each requested link in order.
pub open spec fn links_after(links: Seq<RoadLink>, reqs: Seq<RoadLink>) -> Seq<RoadLink>
    decreases reqs.len(),
{
    if reqs.len() == 0 {
        links
    } else {
        let before = links_after(links, reqs.drop_last());
        let r = reqs.last();
        if has_link(before, r.a, r.b, r.road_type) {
            before
        } else {
            before.push(r)
        }
    }
}

/// Position visited at step `k` of a scan of the square of `radius`
/// around `tile`: columns left to right, each column top to bottom.
pub open spec fn scan_pos(tile: (u32, u32), radius: int, k: int) -> (int, int) {
    let side = 2 * radius + 1;
    (tile.0 + k / side - radius, tile.1 + k % side - radius)
}

/// One step of materialisation at position `p`: a zoned tile in the grid
/// gets a building of its zone there, served by `seg` at `road_t`, as
/// `spawn_building` places it (which may refuse); anything else is left
/// alone.
pub open spec fn materialize_step(
    g0: CityGrid,
    d0: BuildingData,
    g1: CityGrid,
    d1: BuildingData,
    p: (int, int),
    seg: u32,
    road_t: (u32, u32),
) -> bool {
    if g0.in_bounds(p.0, p.1) {
        match g0.tile_at(p.0, p.1) {
            Tile::Zone(z) => exists|id: Option<u32>|
                #[trigger] crate::buildings::spawn_outcome(d0, g0, d1, g1, (p.0 as u32, p.1 as u32), z, seg, road_t, id),
            _ => g1 == g0 && d1 == d0,
        }
    } else {
        g1 == g0 && d1 == d0
    }
}

/// `gs` and `ds` are the grids and building lists after each of the first
/// `n` steps of a materialising scan (`gs[0]`, `ds[0]` before any).
pub open spec fn materialize_trace(
    gs: Seq<CityGrid>,
    ds: Seq<BuildingData>,
    tile: (u32, u32),
    radius: int,
    seg: u32,
    road_t: (u32, u32),
    n: int,
) -> bool {
    &&& gs.len() == n + 1
    &&& ds.len() == n + 1
    &&& forall|k: int|
        0 <= k < n ==> #[trigger] materialize_step(gs[k], ds[k], gs[k + 1], ds[k + 1], scan_pos(tile, radius, k), seg, road_t)
}

/// From `g0`, `d0` the whole scan of the square of `radius` around `tile`
/// leads to `g1`, `d1`.
pub open spec fn materialized(
    g0: CityGrid,
    d0: BuildingData,
    g1: CityGrid,
    d1: BuildingData,
    tile: (u32, u32),
    radius: int,
    seg: u32,
    road_t: (u32, u32),
) -> bool {
    let n = (2 * radius + 1) * (2 * radius + 1);
    exists|gs: Seq<CityGrid>, ds: Seq<BuildingData>|
        #[trigger] materialize_trace(gs, ds, tile, radius, seg, road_t, n) && gs[0] == g0 && ds[0] == d0 && gs[n] == g1
            && ds[n] == d1
}

/// One step of a materialising scan keeps the grid's size, never shrinks
/// the building list, turns tiles only into buildings, and keeps every tile
/// that is neither empty nor zoned.
proof fn lemma_materialize_step_facts(
    g0: CityGrid,
    d0: BuildingData,
    g1: CityGrid,
    d1: BuildingData,
    p: (int, int),
    seg: u32,
    road_t: (u32, u32),
)
    requires
        materialize_step(g0, d0, g1, d1, p, seg, road_t),
    ensures
        g1.width == g0.width,
        g1.height == g0.height,
        d1.items@.len() >= d0.items@.len(),
        forall|x: int, y: int|
            g0.in_bounds(x, y) ==> #[trigger] g1.tile_at(x, y) == g0.tile_at(x, y) || g1.tile_at(x, y) is Building,
        forall|x: int, y: int|
            g0.in_bounds(x, y) && !(g0.tile_at(x, y) is Empty) && !(g0.tile_at(x, y) is Zone) ==> #[trigger] g1.tile_at(
                x,
                y,
            ) == g0.tile_at(x, y),
{
    if g0.in_bounds(p.0, p.1) {
        if let Tile::Zone(z) = g0.tile_at(p.0, p.1) {
            let id = choose|id: Option<u32>|
                #[trigger] crate::buildings::spawn_outcome(d0, g0, d1, g1, (p.0 as u32, p.1 as u32), z, seg, road_t, id);
            assert forall|x: int, y: int|
                g0.in_bounds(x, y) && !(g0.tile_at(x, y) is Empty) && !(g0.tile_at(x, y) is Zone) implies #[trigger] g1.tile_at(
                x,
                y,
            ) == g0.tile_at(x, y) by {
                lemma_spawn_keeps_occupied(d0, g0, d1, g1, (p.0 as u32, p.1 as u32), z, seg, road_t, id, x, y);
            }
        }
    }
}

/// A footprint that is not clear stays so while only empty or zoned tiles
/// change and the grid keeps its size.
proof fn lemma_not_clear_kept(g0: CityGrid, g1: CityGrid, q: (u32, u32), size: int)
    requires
        g1.width == g0.width,
        g1.height == g0.height,
        forall|x: int, y: int|
            g0.in_bounds(x, y) && !(g0.tile_at(x, y) is Empty) && !(g0.tile_at(x, y) is Zone) ==> #[trigger] g1.tile_at(
                x,
                y,
            ) == g0.tile_at(x, y),
        !crate::buildings::footprint_clear(g0, q, size),
    ensures
        !crate::buildings::footprint_clear(g1, q, size),
{
    if q.0 + size <= g0.width && q.1 + size <= g0.height {
        let (dx, dy) = choose|dx: int, dy: int|
            0 <= dx < size && 0 <= dy < size && !(#[trigger] g0.tile_at(q.0 + dx, q.1 + dy) is Empty || g0.tile_at(
                q.0 + dx,
                q.1 + dy,
            ) is Zone);
        assert(g0.in_bounds(q.0 + dx, q.1 + dy));
        assert(g1.tile_at(q.0 + dx, q.1 + dy) == g0.tile_at(q.0 + dx, q.1 + dy));
    }
}

/// From step `j` to the end of a materialising scan: the grid keeps its
/// size, the building list does not shrink, a tile zoned at the end was
/// zoned alike at step `j`, and a footprint not clear at step `j` is not
/// clear at the end.
proof fn lemma_materialize_trace_from(
    gs: Seq<CityGrid>,
    ds: Seq<BuildingData>,
    tile: (u32, u32),
    radius: int,
    seg: u32,
    road_t: (u32, u32),
    n: int,
    j: int,
    q: (u32, u32),
    size: int,
)
    requires
        materialize_trace(gs, ds, tile, radius, seg, road_t, n),
        0 <= j <= n,
    ensures
        gs[n].width == gs[j].width,
        gs[n].height == gs[j].height,
        ds[n].items@.len() >= ds[j].items@.len(),
        gs[j].in_bounds(q.0 as int, q.1 as int) && gs[n].tile_at(q.0 as int, q.1 as int) is Zone ==> gs[j].tile_at(
            q.0 as int,
            q.1 as int,
        ) == gs[n].tile_at(q.0 as int, q.1 as int),
        !crate::buildings::footprint_clear(gs[j], q, size) ==> !crate::buildings::footprint_clear(gs[n], q, size),
    decreases n - j,
{
    if j < n {
        assert(materialize_step(gs[j], ds[j], gs[j + 1], ds[j + 1], scan_pos(tile, radius, j), seg, road_t));
        lemma_materialize_step_facts(gs[j], ds[j], gs[j + 1], ds[j + 1], scan_pos(tile, radius, j), seg, road_t);
        lemma_materialize_trace_from(gs, ds, tile, radius, seg, road_t, n, j + 1, q, size);
        if gs[j].in_bounds(q.0 as int, q.1 as int) {
            assert(gs[j + 1].tile_at(q.0 as int, q.1 as int) == gs[j].tile_at(q.0 as int, q.1 as int) || gs[j + 1].tile_at(
                q.0 as int,
                q.1 as int,
            ) is Building);
        }
        if !crate::buildings::footprint_clear(gs[j], q, size) {
            lemma_not_clear_kept(gs[j], gs[j + 1], q, size);
        }
    }
}

/// After the materialising scan of the square of `radius` around `tile`, no
/// zoned tile of that square could still take a building: each one that is
/// still zoned lacks a clear footprint for its zone, or the building list is
/// full.
pub proof fn lemma_materialized_leaves_no_buildable_zone(
    g0: CityGrid,
    d0: BuildingData,
    g1: CityGrid,
    d1: BuildingData,
    tile: (u32, u32),
    radius: int,
    seg: u32,
    road_t: (u32, u32),
    x: int,
    y: int,
    z: ZoneType,
)
    requires
        materialized(g0, d0, g1, d1, tile, radius, seg, road_t),
        0 <= radius,
        g0.in_bounds(x, y),
        tile.0 - radius <= x <= tile.0 + radius,
        tile.1 - radius <= y <= tile.1 + radius,
        g1.tile_at(x, y) == Tile::Zone(z),
    ensures
        !crate::buildings::footprint_clear(g1, (x as u32, y as u32), crate::buildings::spec_footprint(z) as int)
            || d1.items@.len() >= crate::layout::BUILDING_CAPACITY,
{
    let side = 2 * radius + 1;
    let n = side * side;
    let (gs, ds) = choose|gs: Seq<CityGrid>, ds: Seq<BuildingData>|
        #[trigger] materialize_trace(gs, ds, tile, radius, seg, road_t, n) && gs[0] == g0 && ds[0] == d0 && gs[n] == g1
            && ds[n] == d1;
    let a = x - tile.0 + radius;
    let b = y - tile.1 + radius;
    let k = a * side + b;
    assert(0 <= k < n) by (nonlinear_arith)
        requires
            k == a * side + b,
            0 <= a < side,
            0 <= b < side,
            n == side * side,
    ;
    vstd::arithmetic::div_mod::lemma_fundamental_div_mod_converse(k, side, a, b);
    assert(scan_pos(tile, radius, k) == (x, y));
    let q = (x as u32, y as u32);
    let size = crate::buildings::spec_footprint(z) as int;
    lemma_materialize_trace_from(gs, ds, tile, radius, seg, road_t, n, 0, q, size);
    lemma_materialize_trace_from(gs, ds, tile, radius, seg, road_t, n, k, q, size);
    lemma_materialize_trace_from(gs, ds, tile, radius, seg, road_t, n, k + 1, q, size);
    assert(materialize_step(gs[k], ds[k], gs[k + 1], ds[k + 1], scan_pos(tile, radius, k), seg, road_t));
    lemma_materialize_step_facts(gs[k], ds[k], gs[k + 1], ds[k + 1], (x, y), seg, road_t);
    assert(gs[k + 1].tile_at(x, y) == Tile::Zone(z));
    assert(gs[k].tile_at(x, y) == Tile::Zone(z));
    let id = choose|id: Option<u32>|
        #[trigger] crate::buildings::spawn_outcome(ds[k], gs[k], ds[k + 1], gs[k + 1], q, z, seg, road_t, id);
    if id is Some {
        assert(crate::buildings::in_square(q, size, x, y));
        assert(gs[k + 1].tile_at(x, y) is Building);
    }
    lemma_materialize_trace_from(gs, ds, tile, radius, seg, road_t, n, k, q, size);
}

/// Materialises buildings on zoned tiles within `radius` of road tile
/// `tile` of segment `seg_id`, scanning columns then rows: each zoned tile
/// met gets a building of its zone with its corner there (when
/// `spawn_building` accepts it), served by the segment at the tile's
/// position along it. Tiles that are neither empty nor zoned never change,
/// and buildings are only appended.
pub fn materialize_near(
    grid: &mut CityGrid,
    roads: &RoadData,
    buildings: &mut BuildingData,
    tile: (u32, u32),
    seg_id: u32,
    radius: u32,
)
    requires
        old(grid).wf(),
        old(buildings).wf(),
        radius <= 12,
    ensures
        final(grid).wf(),
        final(grid).width == old(grid).width,
        final(grid).height == old(grid).height,
        final(buildings).wf(),
        materialized(
            *old(grid),
            *old(buildings),
            *final(grid),
            *final(buildings),
            tile,
            radius as int,
            seg_id,
            spec_tile_t(roads.segments@, seg_id as int, tile),
        ),
        old(buildings).items@.is_prefix_of(final(buildings).items@),
        forall|x: int, y: int|
            old(grid).in_bounds(x, y) && !(old(grid).tile_at(x, y) is Empty) && !(old(grid).tile_at(x, y) is Zone)
                ==> #[trigger] final(grid).tile_at(x, y) == old(grid).tile_at(x, y),
{
    let road_t = roads.get_tile_t(seg_id, tile);
    let ghost g0 = *grid;
    let ghost items0 = buildings.items@;
    let span = 2 * radius;
    let ghost side: int = span + 1;
    let ghost mut gs: Seq<CityGrid> = seq![*grid];
    let ghost mut ds: Seq<BuildingData> = seq![*buildings];
    let mut ox: u32 = 0;
    while ox <= span
        invariant
            grid.wf(),
            buildings.wf(),
            grid.width == g0.width,
            grid.height == g0.height,
            span == 2 * radius,
            side == span + 1,
            radius <= 12,
            ox <= span + 1,
            items0.is_prefix_of(buildings.items@),
            forall|x: int, y: int|
                g0.in_bounds(x, y) && !(g0.tile_at(x, y) is Empty) && !(g0.tile_at(x, y) is Zone)
                    ==> #[trigger] grid.tile_at(x, y) == g0.tile_at(x, y),
            materialize_trace(gs, ds, tile, radius as int, seg_id, road_t, ox * side),
            gs[0] == g0,
            ds[0] == *old(buildings),
            gs[ox * side] == *grid,
            ds[ox * side] == *buildings,
        decreases span + 1 - ox,
    {
        let mut oy: u32 = 0;
        while oy <= span
            invariant
                grid.wf(),
                buildings.wf(),
                grid.width == g0.width,
                grid.height == g0.height,
                span == 2 * radius,
                side == span + 1,
                radius <= 12,
                ox <= span,
                oy <= span + 1,
                items0.is_prefix_of(buildings.items@),
                forall|x: int, y: int|
                    g0.in_bounds(x, y) && !(g0.tile_at(x, y) is Empty) && !(g0.tile_at(x, y) is Zone)
                        ==> #[trigger] grid.tile_at(x, y) == g0.tile_at(x, y),
                materialize_trace(gs, ds, tile, radius as int, seg_id, road_t, ox * side + oy),
                gs[0] == g0,
                ds[0] == *old(buildings),
                gs[ox * side + oy] == *grid,
                ds[ox * side + oy] == *buildings,
            decreases span + 1 - oy,
        {
            let ghost k: int = ox * side + oy;
            proof {
                assert(k / side == ox && k % side == oy) by (nonlinear_arith)
                    requires
                        k == ox * side + oy,
                        0 <= oy < side,
                        0 <= ox,
                ;
            }
            let ghost gb = *grid;
            let ghost db = *buildings;
            let nx = tile.0 as i64 + ox as i64 - radius as i64;
            let ny = tile.1 as i64 + oy as i64 - radius as i64;
            if nx >= 0 && ny >= 0 && nx < grid.width as i64 && ny < grid.height as i64 {
                match grid.get(nx as u32, ny as u32) {
                    Some(Tile::Zone(z)) => {
                        let id = spawn_building(buildings, grid, (nx as u32, ny as u32), z, seg_id, road_t);
                        proof {
                            assert forall|x: int, y: int|
                                g0.in_bounds(x, y) && !(g0.tile_at(x, y) is Empty) && !(g0.tile_at(x, y) is Zone)
                                    implies #[trigger] grid.tile_at(x, y) == g0.tile_at(x, y) by {
                                lemma_spawn_keeps_occupied(db, gb, *buildings, *grid, (nx as u32, ny as u32), z, seg_id, road_t, id, x, y);
                            }
                            assert(db.items@.is_prefix_of(buildings.items@));
                            assert(materialize_step(gb, db, *grid, *buildings, scan_pos(tile, radius as int, k), seg_id, road_t));
                        }
                    },
                    _ => {
                        proof {
                            assert(materialize_step(gb, db, *grid, *buildings, scan_pos(tile, radius as int, k), seg_id, road_t));
                        }
                    },
                }
            } else {
                proof {
                    assert(materialize_step(gb, db, *grid, *buildings, scan_pos(tile, radius as int, k), seg_id, road_t));
                }
            }
            proof {
                let gs2 = gs.push(*grid);
                let ds2 = ds.push(*buildings);
                assert forall|j: int| 0 <= j < k + 1 implies #[trigger] materialize_step(
                    gs2[j],
                    ds2[j],
                    gs2[j + 1],
                    ds2[j + 1],
                    scan_pos(tile, radius as int, j),
                    seg_id,
                    road_t,
                ) by {
                    if j < k {
                        assert(materialize_step(gs[j], ds[j], gs[j + 1], ds[j + 1], scan_pos(tile, radius as int, j), seg_id, road_t));
                    }
                }
                gs = gs2;
                ds = ds2;
            }
            oy = oy + 1;
        }
        proof {
            assert(ox * side + side == (ox + 1) * side) by (nonlinear_arith);
        }
        ox = ox + 1;
    }
    proof {
        assert(materialize_trace(gs, ds, tile, radius as int, seg_id, road_t, side * side));
    }
}

/// Road type stamped for segment `id`: the segment's own type, or a normal
/// road for an id past the list.
pub open spec fn seg_type(segs: Seq<crate::roads::RoadSegment>, id: u32) -> RoadType {
    if id < segs.len() {
        segs[id as int].road_type
    } else {
        RoadType::Normal
    }
}

/// `g1` is `g0` with the footprint of a road of type `t` on `tile` stamped
/// as `Road(seg)`, as `stamp_road` does.
pub open spec fn stamped(g0: CityGrid, g1: CityGrid, tile: (u32, u32), seg: u32, t: RoadType) -> bool {
    &&& g1.wf()
    &&& g1.width == g0.width
    &&& g1.height == g0.height
    &&& g1.biomes == g0.biomes
    &&& forall|x: int, y: int|
        g0.in_bounds(x, y) ==> #[trigger] g1.tile_at(x, y) == (if in_road_footprint(tile, t, x, y) {
            Tile::Road(seg)
        } else {
            g0.tile_at(x, y)
        })
}

/// One point `p` (tile and segment) of the rebuilt network: its road
/// footprint is stamped, then buildings materialise around it within the
/// search radius of its type.
pub open spec fn road_point_step(
    g0: CityGrid,
    d0: BuildingData,
    g1: CityGrid,
    d1: BuildingData,
    segs: Seq<crate::roads::RoadSegment>,
    p: ((u32, u32), u32),
) -> bool {
    let t = seg_type(segs, p.1);
    exists|gm: CityGrid|
        #[trigger] stamped(g0, gm, p.0, p.1, t) && materialized(
            gm,
            d0,
            g1,
            d1,
            p.0,
            spec_search_radius(t) as int,
            p.1,
            spec_tile_t(segs, p.1 as int, p.0),
        )
}

/// Handling one point of a new road: around the point, within 4 tiles for a
/// normal road, 6 for a highway, 8 for a 2x4 highway and 12 for a 2x8
/// highway (on both axes), no zoned tile is left that could take a
/// building: each one still zoned afterwards lacks a clear footprint for its
/// zone, or the building list is full.
pub proof fn lemma_road_point_builds_nearby_zones(
    g0: CityGrid,
    d0: BuildingData,
    g1: CityGrid,
    d1: BuildingData,
    segs: Seq<crate::roads::RoadSegment>,
    p: ((u32, u32), u32),
    x: int,
    y: int,
    z: ZoneType,
)
    requires
        road_point_step(g0, d0, g1, d1, segs, p),
        g0.in_bounds(x, y),
        ({
            let r: int = match seg_type(segs, p.1) {
                RoadType::Normal => 4,
                RoadType::Highway => 6,
                RoadType::Highway2x4 => 8,
                RoadType::Highway2x8 => 12,
            };
            p.0.0 - r <= x <= p.0.0 + r && p.0.1 - r <= y <= p.0.1 + r
        }),
        g1.tile_at(x, y) == Tile::Zone(z),
    ensures
        !crate::buildings::footprint_clear(g1, (x as u32, y as u32), crate::buildings::spec_footprint(z) as int)
            || d1.items@.len() >= crate::layout::BUILDING_CAPACITY,
{
    let t = seg_type(segs, p.1);
    let gm = choose|gm: CityGrid|
        #[trigger] stamped(g0, gm, p.0, p.1, t) && materialized(
            gm,
            d0,
            g1,
            d1,
            p.0,
            spec_search_radius(t) as int,
            p.1,
            spec_tile_t(segs, p.1 as int, p.0),
        );
    lemma_materialized_leaves_no_buildable_zone(
        gm,
        d0,
        g1,
        d1,
        p.0,
        spec_search_radius(t) as int,
        p.1,
        spec_tile_t(segs, p.1 as int, p.0),
        x,
        y,
        z,
    );
}

/// `gs`, `ds` are the grids and building lists after each of the first `n`
/// points of `tts` was handled.
pub open spec fn road_trace(
    gs: Seq<CityGrid>,
    ds: Seq<BuildingData>,
    segs: Seq<crate::roads::RoadSegment>,
    tts: Seq<((u32, u32), u32)>,
    n: int,
) -> bool {
    &&& gs.len() == n + 1
    &&& ds.len() == n + 1
    &&& forall|q: int| 0 <= q < n ==> #[trigger] road_point_step(gs[q], ds[q], gs[q + 1], ds[q + 1], segs, tts[q])
}

proof fn lemma_road_trace_push(
    gs: Seq<CityGrid>,
    ds: Seq<BuildingData>,
    segs: Seq<crate::roads::RoadSegment>,
    tts: Seq<((u32, u32), u32)>,
    n: int,
    g: CityGrid,
    d: BuildingData,
)
    requires
        0 <= n,
        road_trace(gs, ds, segs, tts, n),
        road_point_step(gs[n], ds[n], g, d, segs, tts[n]),
    ensures
        road_trace(gs.push(g), ds.push(d), segs, tts, n + 1),
        gs.push(g)[0] == gs[0],
        ds.push(d)[0] == ds[0],
{
    let gs2 = gs.push(g);
    let ds2 = ds.push(d);
    assert forall|j: int| 0 <= j < n + 1 implies #[trigger] road_point_step(gs2[j], ds2[j], gs2[j + 1], ds2[j + 1], segs, tts[j]) by {
        if j < n {
            assert(road_point_step(gs[j], ds[j], gs[j + 1], ds[j + 1], segs, tts[j]));
        }
    }
}

/// From `g0`, `b0` handling every point of the network `segs`, in order,
/// leads to `g1`, `b1`.
pub open spec fn network_stamped(
    g0: CityGrid,
    b0: BuildingData,
    g1: CityGrid,
    b1: BuildingData,
    segs: Seq<crate::roads::RoadSegment>,
) -> bool {
    let tts = flat_tiles(segs, segs.len() as int);
    exists|gs: Seq<CityGrid>, ds: Seq<BuildingData>|
        #[trigger] road_trace(gs, ds, segs, tts, tts.len() as int) && gs[0] == g0 && ds[0] == b0 && gs[tts.len() as int] == g1
            && ds[tts.len() as int] == b1
}

/// What the road tool at `(x, y)` does, from `g0`, `r0`, `b0` to `g1`,
/// `r1`, `b1`: see `paint_road`.
pub open spec fn road_painted(
    g0: CityGrid,
    r0: RoadData,
    b0: BuildingData,
    g1: CityGrid,
    r1: RoadData,
    b1: BuildingData,
    t: RoadType,
    x: u32,
    y: u32,
    changed: bool,
) -> bool {
    &&& changed == (tile_opt(g0, (x, y)) == Some(Tile::Empty) || (tile_opt(g0, (x, y)) matches Some(Tile::Zone(_))))
    &&& g1.width == g0.width
    &&& g1.height == g0.height
    &&& !changed ==> g1 == g0 && r1 == r0 && b1 == b0
    &&& changed ==> {
        &&& r1.links@ == links_after(r0.links@, road_link_requests(g0, r0, x, y, t))
        &&& decomposes(r1.links@, r1.segments@)
        &&& network_stamped(g0, b0, g1, b1, r1.segments@)
        &&& b0.items@.is_prefix_of(b1.items@)
        &&& forall|q: int|
            0 <= q < flat_tiles(r1.segments@, r1.segments@.len() as int).len() && g1.in_bounds(
                flat_tiles(r1.segments@, r1.segments@.len() as int)[q].0.0 as int,
                flat_tiles(r1.segments@, r1.segments@.len() as int)[q].0.1 as int,
            ) ==> (#[trigger] g1.tile_at(
                flat_tiles(r1.segments@, r1.segments@.len() as int)[q].0.0 as int,
                flat_tiles(r1.segments@, r1.segments@.len() as int)[q].0.1 as int,
            )) is Road
    }
}

/// `d1` keeps the buildings of `d0` and every building added is a fresh
/// level-0 building with its type's base capacity and income, and nobody in
/// it yet.
pub open spec fn only_fresh_added(d0: BuildingData, d1: BuildingData) -> bool {
    &&& d0.items@.is_prefix_of(d1.items@)
    &&& forall|i: int|
        d0.items@.len() <= i < d1.items@.len() ==> {
            let b = #[trigger] d1.items@[i];
            &&& b.level == 0
            &&& b.occupants == 0
            &&& b.assigned == 0
            &&& b.capacity == crate::buildings::spec_base_capacity(b.btype)
            &&& b.income == crate::buildings::spec_base_income(b.btype)
        }
}

proof fn lemma_fresh_trans(d0: BuildingData, d1: BuildingData, d2: BuildingData)
    requires
        only_fresh_added(d0, d1),
        only_fresh_added(d1, d2),
    ensures
        only_fresh_added(d0, d2),
{
    assert forall|i: int| 0 <= i < d0.items@.len() implies d2.items@[i] == d0.items@[i] by {
        assert(d1.items@[i] == d0.items@[i]);
    }
    assert(d0.items@ =~= d2.items@.subrange(0, d0.items@.len() as int));
    assert forall|i: int| d0.items@.len() <= i < d2.items@.len() implies {
        let b = #[trigger] d2.items@[i];
        &&& b.level == 0
        &&& b.occupants == 0
        &&& b.assigned == 0
        &&& b.capacity == crate::buildings::spec_base_capacity(b.btype)
        &&& b.income == crate::buildings::spec_base_income(b.btype)
    } by {
        if i < d1.items@.len() {
            assert(d2.items@[i] == d1.items@[i]);
        }
    }
}

proof fn lemma_fresh_refl(d: BuildingData)
    ensures
        only_fresh_added(d, d),
{
    assert(d.items@ =~= d.items@.subrange(0, d.items@.len() as int));
}

proof fn lemma_materialize_fresh_upto(
    gs: Seq<CityGrid>,
    ds: Seq<BuildingData>,
    tile: (u32, u32),
    radius: int,
    seg: u32,
    road_t: (u32, u32),
    n: int,
    k: int,
)
    requires
        materialize_trace(gs, ds, tile, radius, seg, road_t, n),
        0 <= k <= n,
    ensures
        only_fresh_added(ds[0], ds[k]),
    decreases k,
{
    if k == 0 {
        lemma_fresh_refl(ds[0]);
    } else {
        let j = k - 1;
        lemma_materialize_fresh_upto(gs, ds, tile, radius, seg, road_t, n, j);
        assert(materialize_step(gs[j], ds[j], gs[j + 1], ds[j + 1], scan_pos(tile, radius, j), seg, road_t));
        let p = scan_pos(tile, radius, j);
        if gs[j].in_bounds(p.0, p.1) && gs[j].tile_at(p.0, p.1) is Zone {
            let z = gs[j].tile_at(p.0, p.1)->Zone_0;
            let id = choose|id: Option<u32>|
                #[trigger] crate::buildings::spawn_outcome(ds[j], gs[j], ds[j + 1], gs[j + 1], (p.0 as u32, p.1 as u32), z, seg, road_t, id);
            if id is Some {
                assert(ds[j + 1].items@ == ds[j].items@.push(crate::buildings::new_building((p.0 as u32, p.1 as u32), z, seg, road_t)));
                assert(ds[j].items@ =~= ds[j + 1].items@.subrange(0, ds[j].items@.len() as int));
            }
            assert(only_fresh_added(ds[j], ds[j + 1]));
        } else {
            lemma_fresh_refl(ds[j]);
        }
        lemma_fresh_trans(ds[0], ds[j], ds[j + 1]);
    }
}

proof fn lemma_road_fresh_upto(
    gs: Seq<CityGrid>,
    ds: Seq<BuildingData>,
    segs: Seq<crate::roads::RoadSegment>,
    tts: Seq<((u32, u32), u32)>,
    n: int,
    q: int,
)
    requires
        road_trace(gs, ds, segs, tts, n),
        0 <= q <= n,
    ensures
        only_fresh_added(ds[0], ds[q]),
    decreases q,
{
    if q == 0 {
        lemma_fresh_refl(ds[0]);
    } else {
        let j = q - 1;
        lemma_road_fresh_upto(gs, ds, segs, tts, n, j);
        assert(road_point_step(gs[j], ds[j], gs[j + 1], ds[j + 1], segs, tts[j]));
        let st = seg_type(segs, tts[j].1);
        let r = spec_search_radius(st) as int;
        let rt = spec_tile_t(segs, tts[j].1 as int, tts[j].0);
        let gm = choose|gm: CityGrid|
            #[trigger] stamped(gs[j], gm, tts[j].0, tts[j].1, st) && materialized(gm, ds[j], gs[j + 1], ds[j + 1], tts[j].0, r, tts[j].1, rt);
        let m = (2 * r + 1) * (2 * r + 1);
        let (gs2, ds2) = choose|gs2: Seq<CityGrid>, ds2: Seq<BuildingData>|
            #[trigger] materialize_trace(gs2, ds2, tts[j].0, r, tts[j].1, rt, m) && gs2[0] == gm && ds2[0] == ds[j] && gs2[m] == gs[j + 1]
                && ds2[m] == ds[j + 1];
        assert(m >= 0) by (nonlinear_arith)
            requires
                m == (2 * r + 1) * (2 * r + 1),
        ;
        lemma_materialize_fresh_upto(gs2, ds2, tts[j].0, r, tts[j].1, rt, m, m);
        lemma_fresh_trans(ds[0], ds[j], ds[j + 1]);
    }
}

/// Buildings that appear while painting a road are fresh level-0 buildings
/// of their zone (with base capacity and income, and nobody in them yet);
/// the existing ones are kept.
pub proof fn lemma_painted_buildings_fresh(
    g0: CityGrid,
    r0: RoadData,
    b0: BuildingData,
    g1: CityGrid,
    r1: RoadData,
    b1: BuildingData,
    t: RoadType,
    x: u32,
    y: u32,
    changed: bool,
)
    requires
        road_painted(g0, r0, b0, g1, r1, b1, t, x, y, changed),
    ensures
        only_fresh_added(b0, b1),
{
    if !changed {
        lemma_fresh_refl(b0);
    } else {
        let segs = r1.segments@;
        let tts = flat_tiles(segs, segs.len() as int);
        let n = tts.len() as int;
        let (gs, ds) = choose|gs: Seq<CityGrid>, ds: Seq<BuildingData>|
            #[trigger] road_trace(gs, ds, segs, tts, n) && gs[0] == g0 && ds[0] == b0 && gs[n] == g1 && ds[n] == b1;
        lemma_road_fresh_upto(gs, ds, segs, tts, n, n);
    }
}

/// A painted road tile is a road afterwards, so painting a road on the same
/// tile again changes nothing.
pub proof fn lemma_painted_tile_is_road(
    g0: CityGrid,
    r0: RoadData,
    b0: BuildingData,
    g1: CityGrid,
    r1: RoadData,
    b1: BuildingData,
    t: RoadType,
    x: u32,
    y: u32,
)
    requires
        road_painted(g0, r0, b0, g1, r1, b1, t, x, y, true),
    ensures
        g1.in_bounds(x as int, y as int),
        g1.tile_at(x as int, y as int) is Road,
{
    let reqs = road_link_requests(g0, r0, x, y, t);
    let rest = reqs.drop_last();
    let me = RoadLink { a: (x, y), b: (x, y), road_type: t };
    assert(reqs.last() == me);
    let before = links_after(r0.links@, rest);
    assert(r1.links@ == crate::roads::links_after_push(before, (x, y), (x, y), t));
    crate::roads::lemma_pushed_link_present(before, (x, y), (x, y), t);
    let i = choose|i: int| 0 <= i < r1.links@.len() && crate::roads::same_link(#[trigger] r1.links@[i], me);
    assert(r1.links@[i].a == (x, y));
    crate::roads::lemma_link_ends_on_network(r1.links@, r1.segments@, i);
    let n = r1.segments@.len() as int;
    let q = choose|q: int| 0 <= q < flat_tiles(r1.segments@, n).len() && (#[trigger] flat_tiles(r1.segments@, n)[q]).0 == r1.links@[i].a;
    assert(flat_tiles(r1.segments@, n)[q].0 == (x, y));
}

/// A road tool of type `t` at `(x, y)`: on an empty or zoned tile, links
/// the tile to every neighbouring road tile of the same type and to itself,
/// rebuilds the network, then for every point of every segment (in order)
/// stamps the segment's road footprint and materialises buildings on zoned
/// tiles around it. Returns whether anything was laid.
///
/// Afterwards the links are the old ones plus the requested ones, the
/// segments decompose them, every segment point inside the grid is a road
/// tile, and buildings are only appended.
pub fn paint_road(t: RoadType, x: u32, y: u32, grid: &mut CityGrid, roads: &mut RoadData, buildings: &mut BuildingData) -> (changed: bool)
    requires
        old(grid).wf(),
        old(buildings).wf(),
        old(roads).links@.len() + 5 <= 0x3fff_ffff,
    ensures
        final(grid).wf(),
        final(buildings).wf(),
        final(grid).width == old(grid).width,
        final(grid).height == old(grid).height,
        road_painted(*old(grid), *old(roads), *old(buildings), *final(grid), *final(roads), *final(buildings), t, x, y, changed),
{
    match grid.get(x, y) {
        Some(Tile::Empty) | Some(Tile::Zone(_)) => {},
        _ => {
            return false;
        },
    }
    let ghost g0 = *grid;
    let ghost r0 = *roads;
    let ghost b0 = *buildings;
    let nb = grid.neighbours4(x, y);
    let n = nb.len();
    let mut k: usize = 0;
    while k < n
        invariant
            grid.wf(),
            *grid == g0,
            n == nb@.len(),
            nb@ == spec_neighbours4(g0.width as int, g0.height as int, x as int, y as int),
            k <= n,
            roads.segments == r0.segments,
            roads.links@ == links_after(r0.links@, neighbour_links(g0, r0, (x, y), nb@.take(k as int), t)),
            roads.links@.len() <= r0.links@.len() + k,
            n <= 4,
        decreases n - k,
    {
        let p = nb[k];
        proof {
            assert(nb@.take(k as int + 1).drop_last() =~= nb@.take(k as int));
            assert(nb@.take(k as int + 1).last() == p);
        }
        match grid.get(p.0, p.1) {
            Some(Tile::Road(sid)) => {
                if (sid as usize) < roads.segments.len() && roads.segments[sid as usize].road_type == t {
                    roads.push_link((x, y), p, t);
                    proof {
                        let reqs = neighbour_links(g0, r0, (x, y), nb@.take(k as int + 1), t);
                        assert(reqs == neighbour_links(g0, r0, (x, y), nb@.take(k as int), t).push(RoadLink { a: (x, y), b: p, road_type: t }));
                        assert(reqs.drop_last() == neighbour_links(g0, r0, (x, y), nb@.take(k as int), t));
                    }
                } else {
                    proof {
                        assert(neighbour_links(g0, r0, (x, y), nb@.take(k as int + 1), t) =~= neighbour_links(g0, r0, (x, y), nb@.take(k as int), t));
                    }
                }
            },
            _ => {
                proof {
                    assert(neighbour_links(g0, r0, (x, y), nb@.take(k as int + 1), t) =~= neighbour_links(g0, r0, (x, y), nb@.take(k as int), t));
                }
            },
        }
        k = k + 1;
    }
    roads.push_link((x, y), (x, y), t);
    proof {
        assert(nb@.take(n as int) =~= nb@);
        let reqs = road_link_requests(g0, r0, x, y, t);
        assert(reqs.drop_last() == neighbour_links(g0, r0, (x, y), nb@, t));
    }
    let tile_to_seg = roads.rebuild_topology();
    let ghost segs = roads.segments@;
    let ghost tts = tile_to_seg@;
    let m = tile_to_seg.len();
    let ghost items0 = buildings.items@;
    let ghost mut gs: Seq<CityGrid> = seq![*grid];
    let ghost mut ds: Seq<BuildingData> = seq![*buildings];
    let mut q: usize = 0;
    while q < m
        invariant
            grid.wf(),
            buildings.wf(),
            grid.width == g0.width,
            grid.height == g0.height,
            road_trace(gs, ds, segs, tts, q as int),
            gs[0] == g0,
            ds[0] == b0,
            gs[q as int] == *grid,
            ds[q as int] == *buildings,
            m == tts.len(),
            tts == tile_to_seg@,
            tts == flat_tiles(segs, segs.len() as int),
            roads.segments@ == segs,
            q <= m,
            items0.is_prefix_of(buildings.items@),
            forall|j: int| 0 <= j < q && grid.in_bounds(tts[j].0.0 as int, tts[j].0.1 as int) ==> (#[trigger] grid.tile_at(tts[j].0.0 as int, tts[j].0.1 as int)) is Road,
        decreases m - q,
    {
        let (p, seg_id) = tile_to_seg[q];
        let rt = if (seg_id as usize) < roads.segments.len() {
            roads.segments[seg_id as usize].road_type
        } else {
            RoadType::Normal
        };
        let ghost g_pre = *grid;
        stamp_road(grid, p, seg_id, rt);
        let (_, hi) = road_reach(rt);
        let ghost gm = *grid;
        let ghost dm = buildings.items@;
        let ghost db = *buildings;
        materialize_near(grid, roads, buildings, p, seg_id, 2 * hi + 2);
        proof {
            assert(stamped(g_pre, gm, p, seg_id, rt));
            assert(road_point_step(gs[q as int], ds[q as int], *grid, *buildings, segs, tts[q as int]));
            lemma_road_trace_push(gs, ds, segs, tts, q as int, *grid, *buildings);
            gs = gs.push(*grid);
            ds = ds.push(*buildings);
        }
        proof {
            assert forall|j: int| 0 <= j < q + 1 && grid.in_bounds(tts[j].0.0 as int, tts[j].0.1 as int) implies (#[trigger] grid.tile_at(tts[j].0.0 as int, tts[j].0.1 as int)) is Road by {
                let px = tts[j].0.0 as int;
                let py = tts[j].0.1 as int;
                if j < q {
                    assert(g_pre.tile_at(px, py) is Road);
                } else {
                    assert(in_road_footprint(p, rt, px, py));
                }
                assert(gm.tile_at(px, py) is Road);
            }
        }
        q = q + 1;
    }
    true
}

/// One tick of the painting system: applies `tool` at the hovered tile,
/// if any. Returns whether the grid changed.
pub fn paint_tick_system(
    tool: ActiveTool,
    cursor: Option<(u32, u32)>,
    grid: &mut CityGrid,
    roads: &mut RoadData,
    buildings: &mut BuildingData,
) -> (changed: bool)
    requires
        old(grid).wf(),
        old(buildings).wf(),
        old(roads).links@.len() + 5 <= 0x3fff_ffff,
    ensures
        final(grid).wf(),
        final(buildings).wf(),
        final(grid).width == old(grid).width,
        final(grid).height == old(grid).height,
        cursor is None || tool is Camera ==> !changed && *final(grid) == *old(grid) && *final(roads) == *old(roads)
            && *final(buildings) == *old(buildings),
        cursor matches Some(c) ==> match tool {
            ActiveTool::Camera => true,
            ActiveTool::Zone(tag) => *final(roads) == *old(roads) && zone_painted(
                *old(grid),
                *old(buildings),
                *old(roads),
                *final(grid),
                *final(buildings),
                spec_as_zone(tag),
                c.0,
                c.1,
                changed,
            ),
            ActiveTool::Road => road_painted(*old(grid), *old(roads), *old(buildings), *final(grid), *final(roads), *final(buildings), RoadType::Normal, c.0, c.1, changed),
            ActiveTool::Highway2x4 => road_painted(*old(grid), *old(roads), *old(buildings), *final(grid), *final(roads), *final(buildings), RoadType::Highway2x4, c.0, c.1, changed),
            ActiveTool::Highway2x8 => road_painted(*old(grid), *old(roads), *old(buildings), *final(grid), *final(roads), *final(buildings), RoadType::Highway2x8, c.0, c.1, changed),
        },
        old(buildings).items@.is_prefix_of(final(buildings).items@),
{
    let (x, y) = match cursor {
        Some(c) => c,
        None => {
            return false;
        },
    };
    match tool {
        ActiveTool::Camera => false,
        ActiveTool::Zone(tag) => {
            let changed = paint_zone(tag.as_zone(), x, y, grid, roads, buildings);
            proof {
                if changed {
                    let id = choose|id: Option<u32>| crate::buildings::spawn_outcome(
                        *old(buildings),
                        *old(grid),
                        *buildings,
                        *grid,
                        (x, y),
                        spec_as_zone(tag),
                        spec_adjacent_road(*old(grid), x as int, y as int, crate::buildings::spec_footprint(spec_as_zone(tag)) as int).unwrap().0,
                        spec_tile_t(roads.segments@, spec_adjacent_road(*old(grid), x as int, y as int, crate::buildings::spec_footprint(spec_as_zone(tag)) as int).unwrap().0 as int, spec_adjacent_road(*old(grid), x as int, y as int, crate::buildings::spec_footprint(spec_as_zone(tag)) as int).unwrap().1),
                        id,
                    );
                    assert(old(buildings).items@.is_prefix_of(buildings.items@));
                }
            }
            changed
        },
        ActiveTool::Road => paint_road(RoadType::Normal, x, y, grid, roads, buildings),
        ActiveTool::Highway2x4 => paint_road(RoadType::Highway2x4, x, y, grid, roads, buildings),
        ActiveTool::Highway2x8 => paint_road(RoadType::Highway2x8, x, y, grid, roads, buildings),
    }
}

} // verus!
