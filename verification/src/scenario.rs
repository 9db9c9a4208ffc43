//! The starter scenario: 64 small cities on an 8x8 lattice, each a street
//! grid of square blocks, joined by a lattice of highways, with every block
//! zoned and built up.

use vstd::prelude::*;

use crate::buildings::{
    in_square, lemma_spawn_keeps_occupied, spawn_building, spawn_outcome, spec_footprint,
    BuildingData,
};
use crate::grid::{CityGrid, Tile, ZoneType};
use crate::paint::{adjacent_road, in_road_footprint, links_after, seg_type, spec_road_reach, stamp_road, tile_opt};
use crate::roads::{decomposes, flat_tiles, links_after_push, RoadData, RoadLink, RoadType};
use crate::tools::MenuSettings;

verus! {

/// Side of a city block in tiles.
pub const BLOCK_SIZE: u32 = 8;
/// Distance between the origins of neighbouring cities.
pub const CITY_SPACING: u32 = 100;
/// Origin of the first city on both axes.
pub const CITY_BASE: u32 = 100;
/// Cities per row and per column.
pub const CITIES_PER_SIDE: u32 = 8;
/// Links are bounded so that segment ids and point offsets fit in `u32`.
pub const LINK_LIMIT: usize = 0x3fff_ffff;

/// What the scenario reports back: the segment of the entry road, the first
/// building placed (if any), and how many people to spawn.
pub struct ScenarioOutcome {
    pub entry_seg: u32,
    pub first_building: Option<u32>,
    pub population: u32,
}

/// Origin of city `i`: the cities fill the lattice row by row.
pub open spec fn city_origin(i: int) -> (u32, u32) {
    ((CITY_BASE + (i % 8) * CITY_SPACING) as u32, (CITY_BASE + (i / 8) * CITY_SPACING) as u32)
}

/// The 64 city origins, row by row.
pub fn city_offsets() -> (o: Vec<(u32, u32)>)
    ensures
        o@.len() == 64,
        forall|i: int| 0 <= i < 64 ==> #[trigger] o@[i] == city_origin(i),
{
    let mut o: Vec<(u32, u32)> = Vec::new();
    let mut cy: u32 = 0;
    while cy < CITIES_PER_SIDE
        invariant
            cy <= 8,
            o@.len() == cy * 8,
            forall|i: int| 0 <= i < cy * 8 ==> #[trigger] o@[i] == city_origin(i),
        decreases 8 - cy,
    {
        let mut cx: u32 = 0;
        while cx < CITIES_PER_SIDE
            invariant
                cy < 8,
                cx <= 8,
                o@.len() == cy * 8 + cx,
                forall|i: int| 0 <= i < cy * 8 + cx ==> #[trigger] o@[i] == city_origin(i),
            decreases 8 - cx,
        {
            proof {
                let i = cy * 8 + cx;
                assert(i % 8 == cx && i / 8 == cy) by (nonlinear_arith)
                    requires
                        i == cy * 8 + cx,
                        cx < 8,
                ;
            }
            o.push((CITY_BASE + cx * CITY_SPACING, CITY_BASE + cy * CITY_SPACING));
            cx = cx + 1;
        }
        cy = cy + 1;
    }
    o
}

/// What every link-laying step guarantees: old links are kept, at most
/// `max_new` links are added, all of type `t`.
pub open spec fn links_grown(old_links: Seq<crate::roads::RoadLink>, links: Seq<crate::roads::RoadLink>, max_new: int, t: RoadType) -> bool {
    &&& old_links.is_prefix_of(links)
    &&& links.len() <= old_links.len() + max_new
    &&& forall|i: int| old_links.len() <= i < links.len() ==> (#[trigger] links[i]).road_type == t
}

/// Two growth steps in a row make one, within the sum of their bounds.
proof fn lemma_links_grown_chain(
    a: Seq<crate::roads::RoadLink>,
    b: Seq<crate::roads::RoadLink>,
    c: Seq<crate::roads::RoadLink>,
    m: int,
    n: int,
    total: int,
    t: RoadType,
)
    requires
        links_grown(a, b, m, t),
        links_grown(b, c, n, t),
        m + n <= total,
    ensures
        links_grown(a, c, total, t),
{
    assert forall|i: int| 0 <= i < a.len() implies c[i] == a[i] by {
        assert(b[i] == a[i]);
        assert(c[i] == b[i]);
    }
    assert(a =~= c.subrange(0, a.len() as int));
    assert forall|i: int| a.len() <= i < c.len() implies (#[trigger] c[i]).road_type == t by {
        if i < b.len() {
            assert(c[i] == b[i]);
        }
    }
}

/// Nothing laid is growth by nothing.
proof fn lemma_links_grown_none(a: Seq<crate::roads::RoadLink>, t: RoadType)
    ensures
        links_grown(a, a, 0, t),
{
    assert(a =~= a.subrange(0, a.len() as int));
}

/// `links_after` appends in order: the requests of `a` then those of `b`
/// give what `a + b` gives.
proof fn lemma_links_after_concat(links: Seq<RoadLink>, a: Seq<RoadLink>, b: Seq<RoadLink>)
    ensures
        links_after(links_after(links, a), b) == links_after(links, a + b),
    decreases b.len(),
{
    if b.len() == 0 {
        assert(a + b =~= a);
    } else {
        lemma_links_after_concat(links, a, b.drop_last());
        assert((a + b).drop_last() =~= a + b.drop_last());
        assert((a + b).last() == b.last());
    }
}

/// One more request: `links_after` of `reqs.push(r)` is `links_after_push`
/// of `r` after `reqs`.
proof fn lemma_links_after_push(links: Seq<RoadLink>, reqs: Seq<RoadLink>, r: RoadLink)
    ensures
        links_after(links, reqs.push(r)) == links_after_push(links_after(links, reqs), r.a, r.b, r.road_type),
{
    assert(reqs.push(r).drop_last() =~= reqs);
}

/// Tile `i` of a street from `start`, along x or along y.
pub open spec fn street_tile(start: (u32, u32), along_x: bool, i: int) -> (u32, u32) {
    if along_x {
        ((start.0 + i) as u32, start.1)
    } else {
        (start.0, (start.1 + i) as u32)
    }
}

/// The links the first `n` tiles of a street ask for: a tile that is not
/// water links to the tile before it when that one is not water either,
/// else to itself; water tiles ask for nothing.
pub open spec fn street_links(grid: CityGrid, start: (u32, u32), along_x: bool, n: int) -> Seq<RoadLink>
    decreases n,
{
    if n <= 0 {
        Seq::empty()
    } else {
        let rest = street_links(grid, start, along_x, n - 1);
        let here = street_tile(start, along_x, n - 1);
        if tile_opt(grid, here) == Some(Tile::Water) {
            rest
        } else if n - 1 > 0 && tile_opt(grid, street_tile(start, along_x, n - 2)) != Some(Tile::Water) {
            rest.push(RoadLink { a: here, b: street_tile(start, along_x, n - 2), road_type: RoadType::Normal })
        } else {
            rest.push(RoadLink { a: here, b: here, road_type: RoadType::Normal })
        }
    }
}

/// Lays a city street of `len + 1` tiles from `start`, along x or along y.
/// Water tiles are skipped and break the street; the first tile of each
/// piece gets a self-link, every later tile a link to the previous one.
fn lay_street(grid: &CityGrid, roads: &mut RoadData, start: (u32, u32), along_x: bool, len: u32)
    requires
        grid.wf(),
        len <= 2000,
        start.0 + 2000 <= u32::MAX,
        start.1 + 2000 <= u32::MAX,
    ensures
        final(roads).links@ == links_after(old(roads).links@, street_links(*grid, start, along_x, len + 1)),
        links_grown(old(roads).links@, final(roads).links@, len + 1, RoadType::Normal),
        final(roads).segments == old(roads).segments,
{
    let mut prev: Option<(u32, u32)> = None;
    let mut i: u32 = 0;
    proof {
        lemma_links_grown_none(roads.links@, RoadType::Normal);
    }
    while i <= len
        invariant
            grid.wf(),
            len <= 2000,
            start.0 + 2000 <= u32::MAX,
            start.1 + 2000 <= u32::MAX,
            i <= len + 1,
            roads.links@ == links_after(old(roads).links@, street_links(*grid, start, along_x, i as int)),
            prev == (if i > 0 && tile_opt(*grid, street_tile(start, along_x, i - 1)) != Some(Tile::Water) {
                Some(street_tile(start, along_x, i - 1))
            } else {
                None
            }),
            links_grown(old(roads).links@, roads.links@, i as int, RoadType::Normal),
            roads.segments == old(roads).segments,
        decreases len + 1 - i,
    {
        let here = if along_x {
            (start.0 + i, start.1)
        } else {
            (start.0, start.1 + i)
        };
        let ghost before = street_links(*grid, start, along_x, i as int);
        proof {
            assert(here == street_tile(start, along_x, i as int));
        }
        if grid.get(here.0, here.1) == Some(Tile::Water) {
            prev = None;
        } else {
            match prev {
                Some(other) => {
                    roads.push_link(here, other, RoadType::Normal);
                    proof {
                        lemma_links_after_push(old(roads).links@, before, RoadLink { a: here, b: other, road_type: RoadType::Normal });
                    }
                },
                None => {
                    roads.push_link(here, here, RoadType::Normal);
                    proof {
                        lemma_links_after_push(old(roads).links@, before, RoadLink { a: here, b: here, road_type: RoadType::Normal });
                    }
                },
            }
            prev = Some(here);
        }
        i = i + 1;
    }
}

/// Tile `v` of a highway at `fixed`, along x or along y.
pub open spec fn highway_tile(fixed: u32, along_x: bool, v: int) -> (u32, u32) {
    if along_x {
        (v as u32, fixed)
    } else {
        (fixed, v as u32)
    }
}

/// The links the first `n` tiles of a highway from `lo` ask for: each
/// links to the tile before it, the first (and the second) to `lo`.
pub open spec fn highway_links(fixed: u32, lo: int, along_x: bool, n: int) -> Seq<RoadLink>
    decreases n,
{
    if n <= 0 {
        Seq::empty()
    } else {
        let v = lo + n - 1;
        let back = if v >= 1 && v - 1 > lo {
            v - 1
        } else {
            lo
        };
        highway_links(fixed, lo, along_x, n - 1).push(
            RoadLink { a: highway_tile(fixed, along_x, v), b: highway_tile(fixed, along_x, back), road_type: RoadType::Highway },
        )
    }
}

/// Number of tiles of the highway `lo..=hi`.
pub open spec fn span_len(lo: int, hi: int) -> int {
    if hi >= lo {
        hi - lo + 1
    } else {
        0
    }
}

/// Lays a straight highway over `lo..=hi` along x (at height `fixed`) or
/// along y (at column `fixed`): each tile is linked to the previous one, the
/// first tile to itself.
fn lay_highway(roads: &mut RoadData, fixed: u32, lo: u32, hi: u32, along_x: bool)
    requires
        hi <= lo + 2000,
        hi < u32::MAX,
    ensures
        final(roads).links@ == links_after(old(roads).links@, highway_links(fixed, lo as int, along_x, span_len(lo as int, hi as int))),
        links_grown(old(roads).links@, final(roads).links@, 2001, RoadType::Highway),
        final(roads).segments == old(roads).segments,
{
    let mut v = lo;
    let mut k: u32 = 0;
    proof {
        lemma_links_grown_none(roads.links@, RoadType::Highway);
    }
    while v <= hi
        invariant
            hi <= lo + 2000,
            hi < u32::MAX,
            lo <= v,
            v == lo || v <= hi + 1,
            k == v - lo,
            roads.links@ == links_after(old(roads).links@, highway_links(fixed, lo as int, along_x, k as int)),
            links_grown(old(roads).links@, roads.links@, k as int, RoadType::Highway),
            roads.segments == old(roads).segments,
        decreases hi + 1 - v,
    {
        let back = if v >= 1 && v - 1 > lo {
            v - 1
        } else {
            lo
        };
        let ghost before = highway_links(fixed, lo as int, along_x, k as int);
        if along_x {
            roads.push_link((v, fixed), (back, fixed), RoadType::Highway);
            proof {
                lemma_links_after_push(old(roads).links@, before, RoadLink { a: (v, fixed), b: (back, fixed), road_type: RoadType::Highway });
            }
        } else {
            roads.push_link((fixed, v), (fixed, back), RoadType::Highway);
            proof {
                lemma_links_after_push(old(roads).links@, before, RoadLink { a: (fixed, v), b: (fixed, back), road_type: RoadType::Highway });
            }
        }
        v = v + 1;
        k = k + 1;
    }
}

/// Every tile in the city layout lies below this coordinate.
pub open spec fn small_settings(s: MenuSettings) -> bool {
    s.grid_x <= 12 && s.grid_y <= 12
}

/// Left end of row street `gy` of the city at `o`: the middle row starts
/// 10 tiles further left (not past 0) as the entry road.
pub open spec fn row_street_start(o: (u32, u32), s: MenuSettings, gy: int) -> u32 {
    if gy == s.grid_y / 2 {
        if o.0 >= 10 {
            (o.0 - 10) as u32
        } else {
            0
        }
    } else {
        o.0
    }
}

/// The links of the first `n` row streets of the city at `o`.
pub open spec fn city_row_links(grid: CityGrid, s: MenuSettings, o: (u32, u32), n: int) -> Seq<RoadLink>
    decreases n,
{
    if n <= 0 {
        Seq::empty()
    } else {
        let gy = n - 1;
        let sx = row_street_start(o, s, gy);
        city_row_links(grid, s, o, n - 1) + street_links(
            grid,
            (sx, (o.1 + gy * BLOCK_SIZE) as u32),
            true,
            o.0 + s.grid_x * BLOCK_SIZE - sx + 1,
        )
    }
}

/// The links of the first `n` column streets of the city at `o`.
pub open spec fn city_col_links(grid: CityGrid, s: MenuSettings, o: (u32, u32), n: int) -> Seq<RoadLink>
    decreases n,
{
    if n <= 0 {
        Seq::empty()
    } else {
        city_col_links(grid, s, o, n - 1) + street_links(
            grid,
            ((o.0 + (n - 1) * BLOCK_SIZE) as u32, o.1),
            false,
            s.grid_y * BLOCK_SIZE + 1,
        )
    }
}

/// The street links of the first `n` cities: each city's `grid_y + 1` row
/// streets, then its `grid_x + 1` column streets.
pub open spec fn all_city_links(grid: CityGrid, s: MenuSettings, n: int) -> Seq<RoadLink>
    decreases n,
{
    if n <= 0 {
        Seq::empty()
    } else {
        let o = city_origin(n - 1);
        all_city_links(grid, s, n - 1) + city_row_links(grid, s, o, s.grid_y + 1) + city_col_links(grid, s, o, s.grid_x + 1)
    }
}

/// The street grid of every city: `grid_y + 1` streets along x (the middle
/// one extended 10 tiles to the left as the entry road) and `grid_x + 1`
/// streets along y, `BLOCK_SIZE` apart.
fn lay_city_streets(grid: &CityGrid, roads: &mut RoadData, offsets: &Vec<(u32, u32)>, settings: MenuSettings)
    requires
        grid.wf(),
        small_settings(settings),
        offsets@.len() == 64,
        forall|i: int| 0 <= i < 64 ==> #[trigger] offsets@[i] == city_origin(i),
    ensures
        final(roads).links@ == links_after(old(roads).links@, all_city_links(*grid, settings, 64)),
        links_grown(old(roads).links@, final(roads).links@, (64 * 26 * 2001) as int, RoadType::Normal),
        final(roads).segments == old(roads).segments,
{
    let gx_n = settings.grid_x;
    let gy_n = settings.grid_y;
    let mid_gy = gy_n / 2;
    let mut c: usize = 0;
    proof {
        lemma_links_grown_none(roads.links@, RoadType::Normal);
    }
    while c < 64
        invariant
            grid.wf(),
            small_settings(settings),
            gx_n == settings.grid_x,
            gy_n == settings.grid_y,
            mid_gy == gy_n / 2,
            offsets@.len() == 64,
            forall|i: int| 0 <= i < 64 ==> #[trigger] offsets@[i] == city_origin(i),
            c <= 64,
            roads.links@ == links_after(old(roads).links@, all_city_links(*grid, settings, c as int)),
            links_grown(old(roads).links@, roads.links@, c * 26 * 2001, RoadType::Normal),
            roads.segments == old(roads).segments,
        decreases 64 - c,
    {
        let (start_x, start_y) = offsets[c];
        proof {
            assert(offsets@[c as int] == city_origin(c as int));
            assert(start_x <= 800 && start_y <= 800) by (nonlinear_arith)
                requires
                    start_x == CITY_BASE + (c % 8) * CITY_SPACING,
                    start_y == CITY_BASE + (c / 8) * CITY_SPACING,
                    c < 64,
            ;
        }
        let ghost links_c = roads.links@;
        let mut gy: u32 = 0;
        proof {
            lemma_links_grown_none(links_c, RoadType::Normal);
        }
        while gy <= gy_n
            invariant
                grid.wf(),
                gy_n <= 12,
                gx_n <= 12,
                start_x <= 800,
                start_y <= 800,
                gy <= gy_n + 1,
                c < 64,
                (start_x, start_y) == city_origin(c as int),
                gy_n == settings.grid_y,
                gx_n == settings.grid_x,
                mid_gy == gy_n / 2,
                roads.links@ == links_after(links_c, city_row_links(*grid, settings, (start_x, start_y), gy as int)),
                links_grown(links_c, roads.links@, gy * 2001, RoadType::Normal),
                roads.segments == old(roads).segments,
            decreases gy_n + 1 - gy,
        {
            let y = start_y + gy * BLOCK_SIZE;
            let row_start_x = if gy == mid_gy {
                start_x.saturating_sub(10)
            } else {
                start_x
            };
            let row_end_x = start_x + gx_n * BLOCK_SIZE;
            let ghost before = roads.links@;
            lay_street(grid, roads, (row_start_x, y), true, row_end_x - row_start_x);
            proof {
                assert(row_start_x == row_street_start(city_origin(c as int), settings, gy as int));
                let rows = city_row_links(*grid, settings, (start_x, start_y), gy as int);
                let st = street_links(*grid, (row_start_x, y), true, (row_end_x - row_start_x + 1) as int);
                lemma_links_after_concat(links_c, rows, st);
                assert(city_row_links(*grid, settings, (start_x, start_y), gy + 1) == rows + st);
                lemma_links_grown_chain(links_c, before, roads.links@, (gy * 2001) as int, (row_end_x - row_start_x + 1) as int, ((gy + 1) * 2001) as int, RoadType::Normal);
            }
            gy = gy + 1;
        }
        let ghost links_h = roads.links@;
        let mut gx: u32 = 0;
        proof {
            lemma_links_grown_none(links_h, RoadType::Normal);
        }
        while gx <= gx_n
            invariant
                grid.wf(),
                gy_n <= 12,
                gx_n <= 12,
                start_x <= 800,
                start_y <= 800,
                gx <= gx_n + 1,
                c < 64,
                (start_x, start_y) == city_origin(c as int),
                gy_n == settings.grid_y,
                gx_n == settings.grid_x,
                roads.links@ == links_after(links_h, city_col_links(*grid, settings, (start_x, start_y), gx as int)),
                links_grown(links_h, roads.links@, gx * 2001, RoadType::Normal),
                roads.segments == old(roads).segments,
            decreases gx_n + 1 - gx,
        {
            let x = start_x + gx * BLOCK_SIZE;
            let ghost before = roads.links@;
            lay_street(grid, roads, (x, start_y), false, gy_n * BLOCK_SIZE);
            proof {
                let cols = city_col_links(*grid, settings, (start_x, start_y), gx as int);
                let st = street_links(*grid, (x, start_y), false, (gy_n * BLOCK_SIZE + 1) as int);
                lemma_links_after_concat(links_h, cols, st);
                assert(city_col_links(*grid, settings, (start_x, start_y), gx + 1) == cols + st);
                lemma_links_grown_chain(links_h, before, roads.links@, (gx * 2001) as int, (gy_n * BLOCK_SIZE + 1) as int, ((gx + 1) * 2001) as int, RoadType::Normal);
            }
            gx = gx + 1;
        }
        proof {
            let prev = all_city_links(*grid, settings, c as int);
            let rows = city_row_links(*grid, settings, (start_x, start_y), gy_n + 1);
            let cols = city_col_links(*grid, settings, (start_x, start_y), gx_n + 1);
            lemma_links_after_concat(links_c, rows, cols);
            lemma_links_after_concat(old(roads).links@, prev, rows + cols);
            assert(all_city_links(*grid, settings, c + 1) =~= prev + (rows + cols));
            lemma_links_grown_chain(links_c, links_h, roads.links@, ((gy_n + 1) * 2001) as int, ((gx_n + 1) * 2001) as int, (26 * 2001) as int, RoadType::Normal);
            lemma_links_grown_chain(old(roads).links@, links_c, roads.links@, (c * 26 * 2001) as int, (26 * 2001) as int, ((c + 1) * 26 * 2001) as int, RoadType::Normal);
        }
        c = c + 1;
    }
}

/// Width and height of a city in tiles, and the gaps between cities.
pub open spec fn spec_city_w(s: MenuSettings) -> int {
    s.grid_x * BLOCK_SIZE
}

pub open spec fn spec_city_h(s: MenuSettings) -> int {
    s.grid_y * BLOCK_SIZE
}

pub open spec fn spec_gap_w(s: MenuSettings) -> int {
    CITY_SPACING - spec_city_w(s)
}

pub open spec fn spec_gap_h(s: MenuSettings) -> int {
    CITY_SPACING - spec_city_h(s)
}

/// The links of the first `n` pairs of lattice highways: for each `i`, the
/// north-south highway in the middle of the gap after city column `i`,
/// then the east-west one after city row `i`, both spanning the whole map
/// from 80 to 20 tiles past the last city.
pub open spec fn lattice_links(s: MenuSettings, n: int) -> Seq<RoadLink>
    decreases n,
{
    if n <= 0 {
        Seq::empty()
    } else {
        let i = n - 1;
        lattice_links(s, n - 1) + highway_links(
            (CITY_BASE + i * CITY_SPACING + spec_city_w(s) + spec_gap_w(s) / 2) as u32,
            80,
            false,
            span_len(80, 820 + spec_city_h(s)),
        ) + highway_links(
            (CITY_BASE + i * CITY_SPACING + spec_city_h(s) + spec_gap_h(s) / 2) as u32,
            80,
            true,
            span_len(80, 820 + spec_city_w(s)),
        )
    }
}

/// The connectors of city `c` from its middle streets to the neighbouring
/// highways: east, west, south and north, where a highway lies on that side.
pub open spec fn connector_links(s: MenuSettings, c: int) -> Seq<RoadLink> {
    let cur = city_origin(c);
    let cx = c % 8;
    let cy = c / 8;
    let row = (cur.1 + (s.grid_y / 2) * BLOCK_SIZE) as u32;
    let col = (cur.0 + (s.grid_x / 2) * BLOCK_SIZE) as u32;
    let east: Seq<RoadLink> = if cx < 7 {
        highway_links(row, cur.0 + spec_city_w(s), true, span_len(cur.0 + spec_city_w(s), cur.0 + spec_city_w(s) + spec_gap_w(s) / 2))
    } else {
        Seq::empty()
    };
    let west: Seq<RoadLink> = if cx > 0 {
        highway_links(row, cur.0 - spec_gap_w(s) / 2, true, span_len(cur.0 - spec_gap_w(s) / 2, cur.0 as int))
    } else {
        Seq::empty()
    };
    let south: Seq<RoadLink> = if cy < 7 {
        highway_links(col, cur.1 + spec_city_h(s), false, span_len(cur.1 + spec_city_h(s), cur.1 + spec_city_h(s) + spec_gap_h(s) / 2))
    } else {
        Seq::empty()
    };
    let north: Seq<RoadLink> = if cy > 0 {
        highway_links(col, cur.1 - spec_gap_h(s) / 2, false, span_len(cur.1 - spec_gap_h(s) / 2, cur.1 as int))
    } else {
        Seq::empty()
    };
    east + west + south + north
}

/// The connectors of the first `n` cities.
pub open spec fn all_connector_links(s: MenuSettings, n: int) -> Seq<RoadLink>
    decreases n,
{
    if n <= 0 {
        Seq::empty()
    } else {
        all_connector_links(s, n - 1) + connector_links(s, n - 1)
    }
}

/// The highway lattice between the cities, and the connectors from each
/// city's middle streets to the neighbouring highways.
fn lay_highways(roads: &mut RoadData, offsets: &Vec<(u32, u32)>, settings: MenuSettings)
    requires
        small_settings(settings),
        offsets@.len() == 64,
        forall|i: int| 0 <= i < 64 ==> #[trigger] offsets@[i] == city_origin(i),
    ensures
        final(roads).links@ == links_after(old(roads).links@, lattice_links(settings, 7) + all_connector_links(settings, 64)),
        links_grown(old(roads).links@, final(roads).links@, ((14 + 256) * 2001) as int, RoadType::Highway),
        final(roads).segments == old(roads).segments,
{
    let city_w = settings.grid_x * BLOCK_SIZE;
    let city_h = settings.grid_y * BLOCK_SIZE;
    let mid_ox = (settings.grid_x / 2) * BLOCK_SIZE;
    let mid_oy = (settings.grid_y / 2) * BLOCK_SIZE;
    let gap_w = CITY_SPACING - city_w;
    let gap_h = CITY_SPACING - city_h;
    proof {
        assert(offsets@[0] == city_origin(0));
        assert(offsets@[63] == city_origin(63));
    }
    let x_min = offsets[0].0.saturating_sub(20);
    let x_max = offsets[63].0 + city_w + 20;
    let y_min = offsets[0].1.saturating_sub(20);
    let y_max = offsets[63].1 + city_h + 20;
    let mut i: u32 = 0;
    proof {
        lemma_links_grown_none(roads.links@, RoadType::Highway);
    }
    while i < 7
        invariant
            i <= 7,
            city_w <= 96,
            city_h <= 96,
            gap_w == CITY_SPACING - city_w,
            gap_h == CITY_SPACING - city_h,
            x_min == 80,
            y_min == 80,
            x_max == 820 + city_w,
            y_max == 820 + city_h,
            city_w == spec_city_w(settings),
            city_h == spec_city_h(settings),
            roads.links@ == links_after(old(roads).links@, lattice_links(settings, i as int)),
            links_grown(old(roads).links@, roads.links@, 2 * i * 2001, RoadType::Highway),
            roads.segments == old(roads).segments,
        decreases 7 - i,
    {
        let ghost before = roads.links@;
        let hx = CITY_BASE + i * CITY_SPACING + city_w + gap_w / 2;
        lay_highway(roads, hx, y_min, y_max, false);
        let ghost mid = roads.links@;
        let hy = CITY_BASE + i * CITY_SPACING + city_h + gap_h / 2;
        lay_highway(roads, hy, x_min, x_max, true);
        proof {
            let prev = lattice_links(settings, i as int);
            let ns = highway_links(hx, 80, false, span_len(80, y_max as int));
            let ew = highway_links(hy, 80, true, span_len(80, x_max as int));
            lemma_links_after_concat(old(roads).links@, prev, ns);
            lemma_links_after_concat(old(roads).links@, prev + ns, ew);
            assert(lattice_links(settings, i + 1) == prev + ns + ew);
            lemma_links_grown_chain(before, mid, roads.links@, 2001int, 2001int, (2 * 2001) as int, RoadType::Highway);
            lemma_links_grown_chain(old(roads).links@, before, roads.links@, (2 * i * 2001) as int, (2 * 2001) as int, (2 * (i + 1) * 2001) as int, RoadType::Highway);
        }
        i = i + 1;
    }
    let ghost links_hw = roads.links@;
    let mut c: u32 = 0;
    proof {
        lemma_links_grown_none(links_hw, RoadType::Highway);
    }
    while c < 64
        invariant
            c <= 64,
            city_w <= 96,
            city_h <= 96,
            mid_ox <= 48,
            mid_oy <= 48,
            gap_w == CITY_SPACING - city_w,
            gap_h == CITY_SPACING - city_h,
            offsets@.len() == 64,
            forall|k: int| 0 <= k < 64 ==> #[trigger] offsets@[k] == city_origin(k),
            links_grown(old(roads).links@, links_hw, (14 * 2001) as int, RoadType::Highway),
            links_grown(links_hw, roads.links@, 4 * c * 2001, RoadType::Highway),
            city_w == spec_city_w(settings),
            city_h == spec_city_h(settings),
            mid_ox == (settings.grid_x / 2) * BLOCK_SIZE,
            mid_oy == (settings.grid_y / 2) * BLOCK_SIZE,
            links_hw == links_after(old(roads).links@, lattice_links(settings, 7)),
            roads.links@ == links_after(links_hw, all_connector_links(settings, c as int)),
            roads.segments == old(roads).segments,
        decreases 64 - c,
    {
        let cy = c / 8;
        let cx = c % 8;
        let current = offsets[c as usize];
        proof {
            assert(offsets@[c as int] == city_origin(c as int));
            assert(100 <= current.0 <= 800 && 100 <= current.1 <= 800) by (nonlinear_arith)
                requires
                    current.0 == CITY_BASE + (c % 8) * CITY_SPACING,
                    current.1 == CITY_BASE + (c / 8) * CITY_SPACING,
                    c < 64,
            ;
        }
        let ghost before = roads.links@;
        let ghost cur = city_origin(c as int);
        let ghost row = (cur.1 + (settings.grid_y / 2) * BLOCK_SIZE) as u32;
        let ghost col = (cur.0 + (settings.grid_x / 2) * BLOCK_SIZE) as u32;
        let ghost east: Seq<RoadLink> = if cx < 7 {
            highway_links(row, cur.0 + spec_city_w(settings), true, span_len(cur.0 + spec_city_w(settings), cur.0 + spec_city_w(settings) + spec_gap_w(settings) / 2))
        } else {
            Seq::empty()
        };
        let ghost west: Seq<RoadLink> = if cx > 0 {
            highway_links(row, cur.0 - spec_gap_w(settings) / 2, true, span_len(cur.0 - spec_gap_w(settings) / 2, cur.0 as int))
        } else {
            Seq::empty()
        };
        let ghost south: Seq<RoadLink> = if cy < 7 {
            highway_links(col, cur.1 + spec_city_h(settings), false, span_len(cur.1 + spec_city_h(settings), cur.1 + spec_city_h(settings) + spec_gap_h(settings) / 2))
        } else {
            Seq::empty()
        };
        let ghost north: Seq<RoadLink> = if cy > 0 {
            highway_links(col, cur.1 - spec_gap_h(settings) / 2, false, span_len(cur.1 - spec_gap_h(settings) / 2, cur.1 as int))
        } else {
            Seq::empty()
        };
        proof {
            lemma_links_grown_none(before, RoadType::Highway);
            assert(connector_links(settings, c as int) == east + west + south + north);
            assert(cx == (c as int) % 8 && cy == (c as int) / 8);
            assert(links_after(before, Seq::<RoadLink>::empty()) == before);
        }
        if cx < 7 {
            let hx = current.0 + city_w + gap_w / 2;
            let x_start = current.0 + city_w;
            lay_highway(roads, current.1 + mid_oy, x_start, hx, true);
        }
        let ghost b1 = roads.links@;
        proof {
            if cx >= 7 {
                assert(b1 == before);
            }
            assert(b1 == links_after(before, east));
        }
        if cx > 0 {
            let hx = current.0 - gap_w / 2;
            lay_highway(roads, current.1 + mid_oy, hx, current.0, true);
        }
        let ghost b2 = roads.links@;
        proof {
            if cx == 0 {
                assert(b2 == b1);
            }
            assert(b2 == links_after(b1, west));
            lemma_links_after_concat(before, east, west);
            lemma_links_grown_chain(before, b1, b2, 2001int, 2001int, (2 * 2001) as int, RoadType::Highway);
        }
        if cy < 7 {
            let hy = current.1 + city_h + gap_h / 2;
            let y_start = current.1 + city_h;
            lay_highway(roads, current.0 + mid_ox, y_start, hy, false);
        }
        let ghost b3 = roads.links@;
        proof {
            if cy >= 7 {
                assert(b3 == b2);
            }
            assert(b3 == links_after(b2, south));
            lemma_links_after_concat(before, east + west, south);
            lemma_links_grown_chain(before, b2, b3, (2 * 2001) as int, 2001int, (3 * 2001) as int, RoadType::Highway);
        }
        if cy > 0 {
            let hy = current.1 - gap_h / 2;
            lay_highway(roads, current.0 + mid_ox, hy, current.1, false);
        }
        proof {
            if cy == 0 {
                assert(roads.links@ == b3);
            }
            assert(roads.links@ == links_after(b3, north));
            lemma_links_after_concat(before, east + west + south, north);
            lemma_links_after_concat(links_hw, all_connector_links(settings, c as int), connector_links(settings, c as int));
            assert(all_connector_links(settings, c + 1) == all_connector_links(settings, c as int) + connector_links(settings, c as int));
            lemma_links_grown_chain(before, b3, roads.links@, (3 * 2001) as int, 2001int, (4 * 2001) as int, RoadType::Highway);
            lemma_links_grown_chain(links_hw, before, roads.links@, (4 * c * 2001) as int, (4 * 2001) as int, (4 * (c + 1) * 2001) as int, RoadType::Highway);
        }
        c = c + 1;
    }
    proof {
        lemma_links_after_concat(old(roads).links@, lattice_links(settings, 7), all_connector_links(settings, 64));
        lemma_links_grown_chain(old(roads).links@, links_hw, roads.links@, (14 * 2001) as int, (256 * 2001) as int, ((14 + 256) * 2001) as int, RoadType::Highway);
    }
}

/// The last segment listed at `p` among the first `upto` entries, or 0.
pub open spec fn last_seg_at(tts: Seq<((u32, u32), u32)>, p: (u32, u32), upto: int) -> u32
    decreases upto,
{
    if upto <= 0 {
        0
    } else if tts[upto - 1].0 == p {
        tts[upto - 1].1
    } else {
        last_seg_at(tts, p, upto - 1)
    }
}

/// Footprint type used when stamping the scenario's roads: highways as
/// highways, everything else as a normal road.
pub open spec fn stamp_type(t: RoadType) -> RoadType {
    if t == RoadType::Highway {
        RoadType::Highway
    } else {
        RoadType::Normal
    }
}

/// The segment of the last of the first `n` points of `tts` whose road
/// footprint covers `(x, y)`; each point is stamped as a highway when its
/// segment is one and as a normal road otherwise.
pub open spec fn last_cover(segs: Seq<crate::roads::RoadSegment>, tts: Seq<((u32, u32), u32)>, x: int, y: int, n: int) -> Option<u32>
    decreases n,
{
    if n <= 0 {
        None
    } else if in_road_footprint(tts[n - 1].0, stamp_type(seg_type(segs, tts[n - 1].1)), x, y) {
        Some(tts[n - 1].1)
    } else {
        last_cover(segs, tts, x, y, n - 1)
    }
}

/// `g1` is `g0` with the footprints of all points of the network `segs`
/// stamped in order: a tile covered by some footprint shows the segment of
/// the last one, other tiles are unchanged.
pub open spec fn scenario_roads_stamped(g0: CityGrid, g1: CityGrid, segs: Seq<crate::roads::RoadSegment>) -> bool {
    let tts = flat_tiles(segs, segs.len() as int);
    &&& g1.wf()
    &&& g1.width == g0.width
    &&& g1.height == g0.height
    &&& g1.biomes == g0.biomes
    &&& forall|x: int, y: int|
        g0.in_bounds(x, y) ==> #[trigger] g1.tile_at(x, y) == match last_cover(segs, tts, x, y, tts.len() as int) {
            Some(seg) => Tile::Road(seg),
            None => g0.tile_at(x, y),
        }
}

/// Stamps the footprint of every segment point on the grid and reports the
/// segment of the entry tile.
fn stamp_scenario_roads(grid: &mut CityGrid, roads: &RoadData, tile_to_seg: &Vec<((u32, u32), u32)>, entry: (u32, u32)) -> (entry_seg: u32)
    requires
        old(grid).wf(),
    ensures
        final(grid).wf(),
        final(grid).width == old(grid).width,
        final(grid).height == old(grid).height,
        final(grid).biomes == old(grid).biomes,
        entry_seg == last_seg_at(tile_to_seg@, entry, tile_to_seg@.len() as int),
        forall|x: int, y: int|
            old(grid).in_bounds(x, y) ==> #[trigger] final(grid).tile_at(x, y) == match last_cover(
                roads.segments@,
                tile_to_seg@,
                x,
                y,
                tile_to_seg@.len() as int,
            ) {
                Some(seg) => Tile::Road(seg),
                None => old(grid).tile_at(x, y),
            },
        forall|j: int|
            0 <= j < tile_to_seg@.len() && final(grid).in_bounds(tile_to_seg@[j].0.0 as int, tile_to_seg@[j].0.1 as int)
                ==> (#[trigger] final(grid).tile_at(tile_to_seg@[j].0.0 as int, tile_to_seg@[j].0.1 as int)) is Road,
{
    let ghost tts = tile_to_seg@;
    let ghost g0 = *grid;
    let m = tile_to_seg.len();
    let mut entry_seg: u32 = 0;
    let mut q: usize = 0;
    while q < m
        invariant
            grid.wf(),
            grid.width == g0.width,
            grid.height == g0.height,
            m == tts.len(),
            tts == tile_to_seg@,
            q <= m,
            entry_seg == last_seg_at(tts, entry, q as int),
            grid.biomes == g0.biomes,
            forall|x: int, y: int|
                g0.in_bounds(x, y) ==> #[trigger] grid.tile_at(x, y) == match last_cover(roads.segments@, tts, x, y, q as int) {
                    Some(seg) => Tile::Road(seg),
                    None => g0.tile_at(x, y),
                },
            forall|j: int| 0 <= j < q && grid.in_bounds(tts[j].0.0 as int, tts[j].0.1 as int) ==> (#[trigger] grid.tile_at(tts[j].0.0 as int, tts[j].0.1 as int)) is Road,
        decreases m - q,
    {
        let (p, seg_id) = tile_to_seg[q];
        let rt = if (seg_id as usize) < roads.segments.len() && roads.segments[seg_id as usize].road_type == RoadType::Highway {
            RoadType::Highway
        } else {
            RoadType::Normal
        };
        let ghost gs = *grid;
        stamp_road(grid, p, seg_id, rt);
        proof {
            assert(rt == stamp_type(seg_type(roads.segments@, seg_id)));
            assert forall|x: int, y: int| g0.in_bounds(x, y) implies #[trigger] grid.tile_at(x, y) == match last_cover(
                roads.segments@,
                tts,
                x,
                y,
                q + 1,
            ) {
                Some(seg) => Tile::Road(seg),
                None => g0.tile_at(x, y),
            } by {
                assert(gs.tile_at(x, y) == match last_cover(roads.segments@, tts, x, y, q as int) {
                    Some(seg) => Tile::Road(seg),
                    None => g0.tile_at(x, y),
                });
            }
            assert forall|j: int| 0 <= j < q + 1 && grid.in_bounds(tts[j].0.0 as int, tts[j].0.1 as int) implies (#[trigger] grid.tile_at(tts[j].0.0 as int, tts[j].0.1 as int)) is Road by {
                let px = tts[j].0.0 as int;
                let py = tts[j].0.1 as int;
                if j < q {
                    assert(gs.tile_at(px, py) is Road);
                } else {
                    assert(in_road_footprint(p, rt, px, py));
                }
            }
        }
        if p.0 == entry.0 && p.1 == entry.1 {
            entry_seg = seg_id;
        }
        q = q + 1;
    }
    entry_seg
}

/// Turns every empty tile of the `size x size` square at `tile` that lies
/// in the grid into a `zone` tile.
fn zone_square(grid: &mut CityGrid, tile: (u32, u32), size: u32, zone: ZoneType)
    requires
        old(grid).wf(),
        size <= 4,
        tile.0 + 4 <= u32::MAX,
        tile.1 + 4 <= u32::MAX,
    ensures
        final(grid).wf(),
        final(grid).width == old(grid).width,
        final(grid).height == old(grid).height,
        final(grid).biomes == old(grid).biomes,
        forall|x: int, y: int|
            old(grid).in_bounds(x, y) ==> #[trigger] final(grid).tile_at(x, y) == (if in_square(tile, size as int, x, y)
                && old(grid).tile_at(x, y) is Empty {
                Tile::Zone(zone)
            } else {
                old(grid).tile_at(x, y)
            }),
{
    let ghost g0 = *grid;
    let mut oy: u32 = 0;
    while oy < size
        invariant
            grid.wf(),
            grid.width == g0.width,
            grid.height == g0.height,
            grid.biomes == g0.biomes,
            size <= 4,
            tile.0 + 4 <= u32::MAX,
            tile.1 + 4 <= u32::MAX,
            oy <= size,
            forall|x: int, y: int|
                g0.in_bounds(x, y) ==> #[trigger] grid.tile_at(x, y) == (if in_square(tile, size as int, x, y) && y < tile.1 + oy
                    && g0.tile_at(x, y) is Empty {
                    Tile::Zone(zone)
                } else {
                    g0.tile_at(x, y)
                }),
        decreases size - oy,
    {
        let mut ox: u32 = 0;
        while ox < size
            invariant
                grid.wf(),
                grid.width == g0.width,
                grid.height == g0.height,
                grid.biomes == g0.biomes,
                size <= 4,
                tile.0 + 4 <= u32::MAX,
                tile.1 + 4 <= u32::MAX,
                oy < size,
                ox <= size,
                forall|x: int, y: int|
                    g0.in_bounds(x, y) ==> #[trigger] grid.tile_at(x, y) == (if in_square(tile, size as int, x, y) && (y < tile.1 + oy
                        || (y == tile.1 + oy && x < tile.0 + ox)) && g0.tile_at(x, y) is Empty {
                        Tile::Zone(zone)
                    } else {
                        g0.tile_at(x, y)
                    }),
            decreases size - ox,
        {
            let tx = tile.0 + ox;
            let ty = tile.1 + oy;
            if tx < grid.width && ty < grid.height {
                if grid.get(tx, ty) == Some(Tile::Empty) {
                    let ghost before = *grid;
                    grid.set(tx, ty, Tile::Zone(zone));
                    proof {
                        CityGrid::lemma_set_tile(before, *grid, tx as int, ty as int, Tile::Zone(zone));
                    }
                }
            }
            ox = ox + 1;
        }
        oy = oy + 1;
    }
}

/// Every building from index `from` on stands on its footprint: all its
/// footprint tiles lie in the grid and read `Building(its id)`.
pub open spec fn buildings_stand(grid: CityGrid, data: BuildingData, from: int) -> bool {
    forall|j: int, x: int, y: int|
        from <= j < data.items@.len() && in_square(data.items@[j].tile, spec_footprint(data.items@[j].btype) as int, x, y)
            ==> grid.in_bounds(x, y) && #[trigger] grid.tile_at(x, y) == Tile::Building(j as u32) && #[trigger] data.items@[j] == data.items@[j]
}

/// Tiles that are neither empty nor zoned in `g0` read the same in `g1`.
pub open spec fn occupied_kept(g0: CityGrid, g1: CityGrid) -> bool {
    forall|x: int, y: int|
        g0.in_bounds(x, y) && !(g0.tile_at(x, y) is Empty) && !(g0.tile_at(x, y) is Zone) ==> #[trigger] g1.tile_at(x, y)
            == g0.tile_at(x, y)
}

/// The zone of a block from its position: 40% houses, 30% offices, 30%
/// shops, by `(gx * 7 + gy * 13 + x + y) % 10`.
pub open spec fn spec_block_zone(v: int) -> ZoneType {
    if v % 10 <= 3 {
        ZoneType::Residential
    } else if v % 10 <= 6 {
        ZoneType::Office
    } else {
        ZoneType::Shop
    }
}

fn block_zone(v: u32) -> (z: ZoneType)
    ensures
        z == spec_block_zone(v as int),
{
    let r = v % 10;
    if r <= 3 {
        ZoneType::Residential
    } else if r <= 6 {
        ZoneType::Office
    } else {
        ZoneType::Shop
    }
}

/// `g1` is `g0` with every empty tile of the `size x size` square at
/// `tile` (that lies in the grid) zoned `zone`, as `zone_square` does.
pub open spec fn zoned_square(g0: CityGrid, g1: CityGrid, tile: (u32, u32), size: int, zone: ZoneType) -> bool {
    &&& g1.wf()
    &&& g1.width == g0.width
    &&& g1.height == g0.height
    &&& g1.biomes == g0.biomes
    &&& forall|x: int, y: int|
        g0.in_bounds(x, y) ==> #[trigger] g1.tile_at(x, y) == (if in_square(tile, size, x, y) && g0.tile_at(x, y) is Empty {
            Tile::Zone(zone)
        } else {
            g0.tile_at(x, y)
        })
}

/// One position `tile` of a block scan: when a road is adjacent to the
/// footprint of a `zone` building there, the footprint's empty tiles are
/// zoned and the building is placed (as `spawn_building` does, which may
/// refuse) against the first adjacent road tile, at that tile's position
/// along its segment. Otherwise nothing changes.
pub open spec fn block_step(
    g0: CityGrid,
    d0: BuildingData,
    g1: CityGrid,
    d1: BuildingData,
    segs: Seq<crate::roads::RoadSegment>,
    tile: (u32, u32),
    zone: ZoneType,
) -> bool {
    let size = spec_footprint(zone) as int;
    match crate::paint::spec_adjacent_road(g0, tile.0 as int, tile.1 as int, size) {
        Some(hit) => exists|gz: CityGrid, id: Option<u32>|
            #[trigger] zoned_square(g0, gz, tile, size, zone) && #[trigger] spawn_outcome(
                d0,
                gz,
                d1,
                g1,
                tile,
                zone,
                hit.0,
                crate::roads::spec_tile_t(segs, hit.0 as int, hit.1),
                id,
            ),
        None => g1 == g0 && d1 == d0,
    }
}

/// Tries one position of a block scan (see `block_step`); returns whether a
/// building was placed.
#[verifier::spinoff_prover]
#[verifier::rlimit(40)]
fn try_block_position(
    grid: &mut CityGrid,
    roads: &RoadData,
    buildings: &mut BuildingData,
    tile: (u32, u32),
    zone: ZoneType,
    Ghost(from): Ghost<int>,
) -> (placed: bool)
    requires
        old(grid).wf(),
        old(buildings).wf(),
        tile.0 <= 4000,
        tile.1 <= 4000,
        0 <= from <= old(buildings).items@.len(),
        buildings_stand(*old(grid), *old(buildings), from),
    ensures
        final(grid).wf(),
        final(buildings).wf(),
        final(grid).width == old(grid).width,
        final(grid).height == old(grid).height,
        block_step(*old(grid), *old(buildings), *final(grid), *final(buildings), roads.segments@, tile, zone),
        placed == (final(buildings).items@.len() > old(buildings).items@.len()),
        occupied_kept(*old(grid), *final(grid)),
        old(buildings).items@.is_prefix_of(final(buildings).items@),
        buildings_stand(*final(grid), *final(buildings), from),
{
    let b_size = crate::buildings::footprint(zone);
    match adjacent_road(grid, tile.0, tile.1, b_size) {
        Some((seg_id, road_tile)) => {
            let road_t = roads.get_tile_t(seg_id, road_tile);
            let ghost g0 = *grid;
            zone_square(grid, tile, b_size, zone);
            let ghost gz = *grid;
            let ghost db = *buildings;
            let id = spawn_building(buildings, grid, tile, zone, seg_id, road_t);
            proof {
                assert(zoned_square(g0, gz, tile, b_size as int, zone));
                assert(spawn_outcome(db, gz, *buildings, *grid, tile, zone, seg_id, road_t, id));
                assert forall|x: int, y: int|
                    g0.in_bounds(x, y) && !(g0.tile_at(x, y) is Empty) && !(g0.tile_at(x, y) is Zone) implies #[trigger] grid.tile_at(x, y)
                    == g0.tile_at(x, y) by {
                    assert(gz.tile_at(x, y) == g0.tile_at(x, y));
                    lemma_spawn_keeps_occupied(db, gz, *buildings, *grid, tile, zone, seg_id, road_t, id, x, y);
                }
                assert forall|j: int, x: int, y: int|
                    from <= j < buildings.items@.len() && in_square(buildings.items@[j].tile, spec_footprint(buildings.items@[j].btype) as int, x, y)
                        implies grid.in_bounds(x, y) && #[trigger] grid.tile_at(x, y) == Tile::Building(j as u32) && #[trigger] buildings.items@[j] == buildings.items@[j] by {
                    if j < db.items@.len() {
                        assert(db.items@[j] == buildings.items@[j]);
                        assert(g0.in_bounds(x, y) && g0.tile_at(x, y) == Tile::Building(j as u32));
                        assert(gz.tile_at(x, y) == g0.tile_at(x, y));
                        lemma_spawn_keeps_occupied(db, gz, *buildings, *grid, tile, zone, seg_id, road_t, id, x, y);
                    } else {
                        assert(id is Some);
                        let size = spec_footprint(zone) as int;
                        assert(crate::buildings::footprint_clear(gz, tile, size));
                    }
                }
                assert(db.items@.is_prefix_of(buildings.items@));
            }
            id.is_some()
        },
        None => {
            proof {
                assert(buildings.items@ =~= buildings.items@.subrange(0, buildings.items@.len() as int));
            }
            false
        },
    }
}

/// The position visited after `(dy, dx)` in a block scan with rows and
/// columns `2..=last`: the next column, or the start of the next row after
/// the row's end or after a building was placed.
pub open spec fn next_scan_pos(p: (int, int), placed: bool, last: int) -> (int, int) {
    if placed || p.1 >= last {
        (p.0 + 1, 2)
    } else {
        (p.0, p.1 + 1)
    }
}

/// A building was placed at step `j` of a trace.
pub open spec fn placed_at(ds: Seq<BuildingData>, j: int) -> bool {
    ds[j + 1].items@.len() > ds[j].items@.len()
}

/// `ps` lists the positions `(dy, dx)` a block scan visits, with `gs`, `ds`
/// the grids and building lists around each visit: the scan starts at
/// `(2, 2)` and follows `next_scan_pos` while rows remain, and stops after
/// the first building of size 4.
pub open spec fn block_trace(
    gs: Seq<CityGrid>,
    ds: Seq<BuildingData>,
    ps: Seq<(int, int)>,
    segs: Seq<crate::roads::RoadSegment>,
    bx: int,
    by: int,
    zone: ZoneType,
) -> bool {
    let size = spec_footprint(zone) as int;
    let last = BLOCK_SIZE - size;
    &&& gs.len() == ps.len() + 1
    &&& ds.len() == ps.len() + 1
    &&& forall|j: int|
        0 <= j < ps.len() ==> #[trigger] block_step(
            gs[j],
            ds[j],
            gs[j + 1],
            ds[j + 1],
            segs,
            ((bx + ps[j].1) as u32, (by + ps[j].0) as u32),
            zone,
        )
    &&& ps.len() > 0 ==> ps[0] == (2int, 2int)
    &&& forall|j: int|
        0 <= j < ps.len() - 1 ==> !(placed_at(ds, j) && size == 4) && #[trigger] ps[j + 1] == next_scan_pos(
            ps[j],
            placed_at(ds, j),
            last,
        )
}

/// A block scan from `g0`, `d0` that has run to its end at `g1`, `d1`.
pub open spec fn block_built(
    g0: CityGrid,
    d0: BuildingData,
    g1: CityGrid,
    d1: BuildingData,
    segs: Seq<crate::roads::RoadSegment>,
    bx: int,
    by: int,
    zone: ZoneType,
) -> bool {
    let size = spec_footprint(zone) as int;
    let last = BLOCK_SIZE - size;
    exists|gs: Seq<CityGrid>, ds: Seq<BuildingData>, ps: Seq<(int, int)>|
        #[trigger] block_trace(gs, ds, ps, segs, bx, by, zone) && gs[0] == g0 && ds[0] == d0 && gs[ps.len() as int] == g1
            && ds[ps.len() as int] == d1 && ps.len() > 0 && {
            let j = ps.len() - 1;
            (placed_at(ds, j) && size == 4) || next_scan_pos(ps[j], placed_at(ds, j), last).0 > last
        }
}

#[verifier::spinoff_prover]
proof fn lemma_block_trace_push(
    gs: Seq<CityGrid>,
    ds: Seq<BuildingData>,
    ps: Seq<(int, int)>,
    segs: Seq<crate::roads::RoadSegment>,
    bx: int,
    by: int,
    zone: ZoneType,
    p: (int, int),
    g: CityGrid,
    d: BuildingData,
)
    requires
        block_trace(gs, ds, ps, segs, bx, by, zone),
        block_step(gs[ps.len() as int], ds[ps.len() as int], g, d, segs, ((bx + p.1) as u32, (by + p.0) as u32), zone),
        ps.len() == 0 ==> p == (2int, 2int),
        ps.len() > 0 ==> !(placed_at(ds, ps.len() - 1) && spec_footprint(zone) == 4) && p == next_scan_pos(
            ps[ps.len() - 1],
            placed_at(ds, ps.len() - 1),
            BLOCK_SIZE - spec_footprint(zone),
        ),
    ensures
        block_trace(gs.push(g), ds.push(d), ps.push(p), segs, bx, by, zone),
        gs.push(g)[0] == gs[0],
        ds.push(d)[0] == ds[0],
{
    let gs2 = gs.push(g);
    let ds2 = ds.push(d);
    let ps2 = ps.push(p);
    let n = ps.len() as int;
    if n > 0 {
        assert(ps2[0] == ps[0]);
    }
    assert(ps2[n] == p);
    assert(gs2[n] == gs[n] && ds2[n] == ds[n]);
    assert forall|j: int| 0 <= j < ps2.len() implies #[trigger] block_step(
        gs2[j],
        ds2[j],
        gs2[j + 1],
        ds2[j + 1],
        segs,
        ((bx + ps2[j].1) as u32, (by + ps2[j].0) as u32),
        zone,
    ) by {
        if j < n {
            assert(block_step(gs[j], ds[j], gs[j + 1], ds[j + 1], segs, ((bx + ps[j].1) as u32, (by + ps[j].0) as u32), zone));
        }
    }
    assert forall|j: int| 0 <= j < ps2.len() - 1 implies !(placed_at(ds2, j) && (spec_footprint(zone) as int) == 4) && #[trigger] ps2[j + 1]
        == next_scan_pos(ps2[j], placed_at(ds2, j), BLOCK_SIZE - (spec_footprint(zone) as int)) by {
        if j < n - 1 {
            assert(ps[j + 1] == next_scan_pos(ps[j], placed_at(ds, j), BLOCK_SIZE - spec_footprint(zone)));
            assert(!(placed_at(ds, j) && spec_footprint(zone) == 4));
        }
        assert(placed_at(ds2, j) == placed_at(ds, j));
    }
    assert(gs2.len() == ps2.len() + 1 && ds2.len() == ps2.len() + 1);
    assert(ps2.len() > 0 ==> ps2[0] == (2int, 2int));
    assert(block_trace(gs2, ds2, ps2, segs, bx, by, zone));
}

/// Builds up one block: scans the positions inside the block (rows from 2
/// to `BLOCK_SIZE - size`, columns likewise); at each position next to a
/// road, zones the empty footprint tiles and tries to place a building;
/// after a building the rest of the row is skipped, and after a 4x4
/// building the rest of the block. Returns whether a building was placed.
fn build_block(grid: &mut CityGrid, roads: &RoadData, buildings: &mut BuildingData, bx: u32, by: u32, zone: ZoneType) -> (placed: bool)
    requires
        old(grid).wf(),
        old(buildings).wf(),
        bx <= 2000,
        by <= 2000,
    ensures
        final(grid).wf(),
        final(buildings).wf(),
        final(grid).width == old(grid).width,
        final(grid).height == old(grid).height,
        block_built(*old(grid), *old(buildings), *final(grid), *final(buildings), roads.segments@, bx as int, by as int, zone),
        occupied_kept(*old(grid), *final(grid)),
        old(buildings).items@.is_prefix_of(final(buildings).items@),
        buildings_stand(*final(grid), *final(buildings), old(buildings).items@.len() as int),
        placed == (final(buildings).items@.len() > old(buildings).items@.len()),
{
    let ghost g0 = *grid;
    let ghost n0 = buildings.items@.len();
    let b_size = crate::buildings::footprint(zone);
    let last = BLOCK_SIZE - b_size;
    let mut placed_any = false;
    let ghost mut gs: Seq<CityGrid> = seq![*grid];
    let ghost mut ds: Seq<BuildingData> = seq![*buildings];
    let ghost mut ps: Seq<(int, int)> = Seq::empty();
    let mut dy: u32 = 2;
    while dy <= last
        invariant_except_break
            2 <= dy <= last + 1,
            b_size == 4 ==> !placed_any,
            ps.len() == 0 <==> dy == 2,
            ps.len() > 0 ==> !(placed_at(ds, ps.len() - 1) && b_size == 4) && next_scan_pos(
                ps[ps.len() - 1],
                placed_at(ds, ps.len() - 1),
                last as int,
            ) == (dy as int, 2int),
        invariant
            grid.wf(),
            buildings.wf(),
            grid.width == g0.width,
            grid.height == g0.height,
            bx <= 2000,
            by <= 2000,
            b_size == spec_footprint(zone),
            last == BLOCK_SIZE - b_size,
            occupied_kept(g0, *grid),
            n0 <= buildings.items@.len(),
            old(buildings).items@.is_prefix_of(buildings.items@),
            n0 == old(buildings).items@.len(),
            buildings_stand(*grid, *buildings, n0 as int),
            placed_any == (buildings.items@.len() > n0),
            block_trace(gs, ds, ps, roads.segments@, bx as int, by as int, zone),
            gs[0] == g0,
            ds[0] == *old(buildings),
            gs[ps.len() as int] == *grid,
            ds[ps.len() as int] == *buildings,
        ensures
            ps.len() > 0,
            (placed_at(ds, ps.len() - 1) && b_size == 4) || next_scan_pos(
                ps[ps.len() - 1],
                placed_at(ds, ps.len() - 1),
                last as int,
            ).0 > last,
        decreases last + 1 - dy,
    {
        let mut dx: u32 = 2;
        let mut row_placed = false;
        while dx <= last
            invariant_except_break
                2 <= dx <= last + 1,
                !row_placed,
                b_size == 4 ==> !placed_any,
                dx > 2 ==> ps.len() > 0 && !placed_at(ds, ps.len() - 1),
                ps.len() == 0 <==> (dy == 2 && dx == 2),
                ps.len() > 0 ==> !(placed_at(ds, ps.len() - 1) && b_size == 4) && next_scan_pos(
                    ps[ps.len() - 1],
                    placed_at(ds, ps.len() - 1),
                    last as int,
                ) == (if dx <= last { (dy as int, dx as int) } else { (dy + 1, 2int) }),
            invariant
                grid.wf(),
                buildings.wf(),
                grid.width == g0.width,
                grid.height == g0.height,
                bx <= 2000,
                by <= 2000,
                b_size == spec_footprint(zone),
                last == BLOCK_SIZE - b_size,
                2 <= dy <= last,
                occupied_kept(g0, *grid),
                n0 <= buildings.items@.len(),
                old(buildings).items@.is_prefix_of(buildings.items@),
                n0 == old(buildings).items@.len(),
                buildings_stand(*grid, *buildings, n0 as int),
                placed_any == (buildings.items@.len() > n0),
                block_trace(gs, ds, ps, roads.segments@, bx as int, by as int, zone),
                gs[0] == g0,
                ds[0] == *old(buildings),
                gs[ps.len() as int] == *grid,
                ds[ps.len() as int] == *buildings,
            ensures
                ps.len() > 0,
                row_placed ==> placed_at(ds, ps.len() - 1),
                !row_placed ==> !placed_at(ds, ps.len() - 1),
                b_size == 4 ==> (placed_any <==> row_placed),
                !(row_placed && b_size == 4) ==> next_scan_pos(
                    ps[ps.len() - 1],
                    placed_at(ds, ps.len() - 1),
                    last as int,
                ) == (dy + 1, 2int),
            decreases last + 1 - dx,
        {
            let tx = bx + dx;
            let ty = by + dy;
            let ghost db = *buildings;
            let placed = try_block_position(grid, roads, buildings, (tx, ty), zone, Ghost(n0 as int));
            proof {
                lemma_block_trace_push(gs, ds, ps, roads.segments@, bx as int, by as int, zone, (dy as int, dx as int), *grid, *buildings);
                gs = gs.push(*grid);
                ds = ds.push(*buildings);
                ps = ps.push((dy as int, dx as int));
                assert(placed_at(ds, ps.len() - 1) == placed);
                assert(old(buildings).items@.is_prefix_of(buildings.items@)) by {
                    assert(db.items@.is_prefix_of(buildings.items@));
                }
            }
            if placed {
                placed_any = true;
                row_placed = true;
                break;
            }
            dx = dx + 1;
        }
        if placed_any && b_size == 4 {
            break;
        }
        dy = dy + 1;
    }
    placed_any
}

/// Block `b` in the order the blocks are built: city by city, each city
/// row by row; as (left, top, zone). The zone cycles with the block's
/// position: `spec_block_zone(gx * 7 + gy * 13 + x + y)` for block
/// `(gx, gy)` of the city at `(x, y)`.
pub open spec fn block_at(s: MenuSettings, b: int) -> (int, int, ZoneType) {
    let per_city = s.grid_x * s.grid_y;
    let c = b / per_city;
    let r = b % per_city;
    let gy = r / (s.grid_x as int);
    let gx = r % (s.grid_x as int);
    let o = city_origin(c);
    (o.0 + gx * BLOCK_SIZE, o.1 + gy * BLOCK_SIZE, spec_block_zone(gx * 7 + gy * 13 + o.0 + o.1))
}

/// Number of blocks in the scenario.
pub open spec fn block_count(s: MenuSettings) -> int {
    64 * (s.grid_x * s.grid_y)
}

/// `gs`, `ds` are the grids and building lists after each of the first `n`
/// blocks was built.
pub open spec fn blocks_trace(
    gs: Seq<CityGrid>,
    ds: Seq<BuildingData>,
    s: MenuSettings,
    segs: Seq<crate::roads::RoadSegment>,
    n: int,
) -> bool {
    &&& gs.len() == n + 1
    &&& ds.len() == n + 1
    &&& forall|b: int|
        0 <= b < n ==> #[trigger] block_built(
            gs[b],
            ds[b],
            gs[b + 1],
            ds[b + 1],
            segs,
            block_at(s, b).0,
            block_at(s, b).1,
            block_at(s, b).2,
        )
}

/// Building every block of the scenario, in order, leads from `g0`, `d0`
/// to `g1`, `d1`.
pub open spec fn blocks_built(
    g0: CityGrid,
    d0: BuildingData,
    g1: CityGrid,
    d1: BuildingData,
    s: MenuSettings,
    segs: Seq<crate::roads::RoadSegment>,
) -> bool {
    exists|gs: Seq<CityGrid>, ds: Seq<BuildingData>|
        #[trigger] blocks_trace(gs, ds, s, segs, block_count(s)) && gs[0] == g0 && ds[0] == d0 && gs[block_count(s)] == g1
            && ds[block_count(s)] == d1
}

/// Block `(gx, gy)` of city `c` is block `(c * grid_y + gy) * grid_x + gx`.
proof fn lemma_block_index(s: MenuSettings, c: int, gy: int, gx: int)
    requires
        0 <= c < 64,
        0 <= gy < s.grid_y,
        0 <= gx < s.grid_x,
    ensures
        block_at(s, (c * s.grid_y + gy) * s.grid_x + gx) == (
            city_origin(c).0 + gx * BLOCK_SIZE,
            city_origin(c).1 + gy * BLOCK_SIZE,
            spec_block_zone(gx * 7 + gy * 13 + city_origin(c).0 + city_origin(c).1),
        ),
{
    let w = s.grid_x as int;
    let h = s.grid_y as int;
    let b = (c * h + gy) * w + gx;
    let r = gy * w + gx;
    assert(b == c * (w * h) + r && 0 <= r < w * h) by (nonlinear_arith)
        requires
            b == (c * h + gy) * w + gx,
            r == gy * w + gx,
            0 <= gy < h,
            0 <= gx < w,
    ;
    vstd::arithmetic::div_mod::lemma_fundamental_div_mod_converse(b, w * h, c, r);
    vstd::arithmetic::div_mod::lemma_fundamental_div_mod_converse(r, w, gy, gx);
}

/// The blocks of the starter scenario: block `(gx, gy)` of city `c` is one
/// of the scenario's blocks, has its top-left corner `8 * (gx, gy)` from the
/// city's origin `(x, y)`, and with `v = (gx * 7 + gy * 13 + x + y) % 10` it
/// is zoned residential when `v` is 0 to 3, office when `v` is 4 to 6 and
/// shop when `v` is 7 to 9 (four, three and three values in ten).
pub proof fn lemma_block_zones(s: MenuSettings, c: int, gy: int, gx: int)
    requires
        0 <= c < 64,
        0 <= gy < s.grid_y,
        0 <= gx < s.grid_x,
    ensures
        ({
            let b = (c * s.grid_y + gy) * s.grid_x + gx;
            let o = city_origin(c);
            let v = (gx * 7 + gy * 13 + o.0 + o.1) % 10;
            &&& 0 <= b < block_count(s)
            &&& block_at(s, b).0 == o.0 + 8 * gx
            &&& block_at(s, b).1 == o.1 + 8 * gy
            &&& (0 <= v <= 3 ==> block_at(s, b).2 == ZoneType::Residential)
            &&& (4 <= v <= 6 ==> block_at(s, b).2 == ZoneType::Office)
            &&& (7 <= v <= 9 ==> block_at(s, b).2 == ZoneType::Shop)
        }),
{
    lemma_block_index(s, c, gy, gx);
    let w = s.grid_x as int;
    let h = s.grid_y as int;
    let b = (c * h + gy) * w + gx;
    assert(0 <= b < 64 * (w * h)) by (nonlinear_arith)
        requires
            b == (c * h + gy) * w + gx,
            0 <= c < 64,
            0 <= gy < h,
            0 <= gx < w,
    ;
}

proof fn lemma_blocks_trace_push(
    gs: Seq<CityGrid>,
    ds: Seq<BuildingData>,
    s: MenuSettings,
    segs: Seq<crate::roads::RoadSegment>,
    n: int,
    g: CityGrid,
    d: BuildingData,
)
    requires
        0 <= n,
        blocks_trace(gs, ds, s, segs, n),
        block_built(gs[n], ds[n], g, d, segs, block_at(s, n).0, block_at(s, n).1, block_at(s, n).2),
    ensures
        blocks_trace(gs.push(g), ds.push(d), s, segs, n + 1),
        gs.push(g)[0] == gs[0],
        ds.push(d)[0] == ds[0],
{
    let gs2 = gs.push(g);
    let ds2 = ds.push(d);
    assert forall|b: int| 0 <= b < n + 1 implies #[trigger] block_built(
        gs2[b],
        ds2[b],
        gs2[b + 1],
        ds2[b + 1],
        segs,
        block_at(s, b).0,
        block_at(s, b).1,
        block_at(s, b).2,
    ) by {
        if b < n {
            assert(block_built(gs[b], ds[b], gs[b + 1], ds[b + 1], segs, block_at(s, b).0, block_at(s, b).1, block_at(s, b).2));
        }
    }
}

/// Zones and builds up every block of every city, city by city and row by
/// row (see `block_at` and `build_block`).
fn zone_city_blocks(grid: &mut CityGrid, roads: &RoadData, buildings: &mut BuildingData, offsets: &Vec<(u32, u32)>, settings: MenuSettings)
    requires
        old(grid).wf(),
        old(buildings).wf(),
        small_settings(settings),
        offsets@.len() == 64,
        forall|i: int| 0 <= i < 64 ==> #[trigger] offsets@[i] == city_origin(i),
    ensures
        final(grid).wf(),
        final(buildings).wf(),
        final(grid).width == old(grid).width,
        final(grid).height == old(grid).height,
        blocks_built(*old(grid), *old(buildings), *final(grid), *final(buildings), settings, roads.segments@),
        occupied_kept(*old(grid), *final(grid)),
        old(buildings).items@.is_prefix_of(final(buildings).items@),
        buildings_stand(*final(grid), *final(buildings), old(buildings).items@.len() as int),
{
    let ghost g0 = *grid;
    let ghost n0 = buildings.items@.len();
    let ghost w = settings.grid_x as int;
    let ghost h = settings.grid_y as int;
    let ghost segs = roads.segments@;
    let ghost mut gs: Seq<CityGrid> = seq![*grid];
    let ghost mut ds: Seq<BuildingData> = seq![*buildings];
    let mut c: usize = 0;
    proof {
        assert(0 * h * w == 0) by (nonlinear_arith);
        assert(blocks_trace(gs, ds, settings, segs, 0));
    }
    while c < 64
        invariant
            grid.wf(),
            buildings.wf(),
            grid.width == g0.width,
            grid.height == g0.height,
            small_settings(settings),
            w == settings.grid_x,
            h == settings.grid_y,
            segs == roads.segments@,
            offsets@.len() == 64,
            forall|i: int| 0 <= i < 64 ==> #[trigger] offsets@[i] == city_origin(i),
            c <= 64,
            occupied_kept(g0, *grid),
            old(buildings).items@.is_prefix_of(buildings.items@),
            n0 == old(buildings).items@.len(),
            buildings_stand(*grid, *buildings, n0 as int),
            blocks_trace(gs, ds, settings, segs, c * h * w),
            gs[0] == g0,
            ds[0] == *old(buildings),
            gs[c * h * w] == *grid,
            ds[c * h * w] == *buildings,
        decreases 64 - c,
    {
        let (start_x, start_y) = offsets[c];
        proof {
            assert(offsets@[c as int] == city_origin(c as int));
            assert(start_x <= 800 && start_y <= 800) by (nonlinear_arith)
                requires
                    start_x == CITY_BASE + (c % 8) * CITY_SPACING,
                    start_y == CITY_BASE + (c / 8) * CITY_SPACING,
                    c < 64,
            ;
            assert(c * h * w == (c * h + 0) * w) by (nonlinear_arith);
        }
        let mut gy: u32 = 0;
        while gy < settings.grid_y
            invariant
                grid.wf(),
                buildings.wf(),
                grid.width == g0.width,
                grid.height == g0.height,
                small_settings(settings),
                w == settings.grid_x,
                h == settings.grid_y,
                segs == roads.segments@,
                c < 64,
                (start_x, start_y) == city_origin(c as int),
                start_x <= 800,
                start_y <= 800,
                gy <= settings.grid_y,
                occupied_kept(g0, *grid),
                old(buildings).items@.is_prefix_of(buildings.items@),
                n0 == old(buildings).items@.len(),
                buildings_stand(*grid, *buildings, n0 as int),
                blocks_trace(gs, ds, settings, segs, (c * h + gy) * w),
                gs[0] == g0,
                ds[0] == *old(buildings),
                gs[(c * h + gy) * w] == *grid,
                ds[(c * h + gy) * w] == *buildings,
            decreases settings.grid_y - gy,
        {
            let mut gx: u32 = 0;
            while gx < settings.grid_x
                invariant
                    grid.wf(),
                    buildings.wf(),
                    grid.width == g0.width,
                    grid.height == g0.height,
                    small_settings(settings),
                    w == settings.grid_x,
                    h == settings.grid_y,
                    segs == roads.segments@,
                    c < 64,
                    (start_x, start_y) == city_origin(c as int),
                    start_x <= 800,
                    start_y <= 800,
                    gy < settings.grid_y,
                    gx <= settings.grid_x,
                    occupied_kept(g0, *grid),
                    old(buildings).items@.is_prefix_of(buildings.items@),
                    n0 == old(buildings).items@.len(),
                    buildings_stand(*grid, *buildings, n0 as int),
                    blocks_trace(gs, ds, settings, segs, (c * h + gy) * w + gx),
                    gs[0] == g0,
                    ds[0] == *old(buildings),
                    gs[(c * h + gy) * w + gx] == *grid,
                    ds[(c * h + gy) * w + gx] == *buildings,
                decreases settings.grid_x - gx,
            {
                let zone = block_zone(gx * 7 + gy * 13 + start_x + start_y);
                let bx = start_x + gx * BLOCK_SIZE;
                let by = start_y + gy * BLOCK_SIZE;
                let ghost gb = *grid;
                let ghost db = *buildings;
                build_block(grid, roads, buildings, bx, by, zone);
                proof {
                    let b = (c * h + gy) * w + gx;
                    lemma_block_index(settings, c as int, gy as int, gx as int);
                    lemma_blocks_trace_push(gs, ds, settings, segs, b, *grid, *buildings);
                    gs = gs.push(*grid);
                    ds = ds.push(*buildings);
                    assert forall|x: int, y: int|
                        g0.in_bounds(x, y) && !(g0.tile_at(x, y) is Empty) && !(g0.tile_at(x, y) is Zone) implies #[trigger] grid.tile_at(x, y)
                        == g0.tile_at(x, y) by {
                        assert(gb.tile_at(x, y) == g0.tile_at(x, y));
                    }
                    assert forall|j: int, x: int, y: int|
                        n0 <= j < buildings.items@.len() && in_square(buildings.items@[j].tile, spec_footprint(buildings.items@[j].btype) as int, x, y)
                            implies grid.in_bounds(x, y) && #[trigger] grid.tile_at(x, y) == Tile::Building(j as u32) && #[trigger] buildings.items@[j] == buildings.items@[j] by {
                        if j < db.items@.len() {
                            assert(db.items@[j] == buildings.items@[j]);
                            assert(gb.tile_at(x, y) == Tile::Building(j as u32));
                        }
                    }
                }
                gx = gx + 1;
            }
            proof {
                assert((c * h + gy) * w + w == (c * h + (gy + 1)) * w) by (nonlinear_arith);
            }
            gy = gy + 1;
        }
        proof {
            assert((c * h + h) * w == (c + 1) * h * w) by (nonlinear_arith);
        }
        c = c + 1;
    }
    proof {
        assert(64 * h * w == block_count(settings)) by (nonlinear_arith)
            requires
                w == settings.grid_x,
                h == settings.grid_y,
        ;
    }
}

/// Every link the scenario asks for, in order: the streets of all cities
/// (whose water tiles, read on `grid`, are left out), then the highway
/// lattice, then the connectors.
pub open spec fn scenario_links(grid: CityGrid, s: MenuSettings) -> Seq<RoadLink> {
    all_city_links(grid, s, 64) + (lattice_links(s, 7) + all_connector_links(s, 64))
}

/// Builds the starter scenario: the streets of 64 cities, the highway
/// lattice and its connectors, the rebuilt road network stamped on the grid,
/// and every block zoned and built up.
///
/// Afterwards the links are the old ones after pushing `scenario_links` in
/// order, the segments decompose them, the grid is the old one with the
/// network stamped (`scenario_roads_stamped`) and then every block built in
/// order (`blocks_built`); every segment point inside the grid is a road
/// tile and every building placed stands on its footprint. The entry
/// segment is the last segment listed at the entry tile (10 tiles left of
/// the first city's middle street), the first building placed (if any) is
/// reported, and the population to spawn is the menu's.
pub fn build_starter_scenario(grid: &mut CityGrid, roads: &mut RoadData, buildings: &mut BuildingData, settings: &MenuSettings) -> (out: ScenarioOutcome)
    requires
        old(grid).wf(),
        old(buildings).wf(),
        small_settings(*settings),
        old(roads).links@.len() <= 0x3000_0000,
    ensures
        final(grid).wf(),
        final(buildings).wf(),
        final(grid).width == old(grid).width,
        final(grid).height == old(grid).height,
        final(roads).links@ == links_after(old(roads).links@, scenario_links(*old(grid), *settings)),
        old(roads).links@.is_prefix_of(final(roads).links@),
        forall|i: int|
            old(roads).links@.len() <= i < final(roads).links@.len() ==> (#[trigger] final(roads).links@[i]).road_type
                == RoadType::Normal || final(roads).links@[i].road_type == RoadType::Highway,
        decomposes(final(roads).links@, final(roads).segments@),
        forall|q: int|
            0 <= q < flat_tiles(final(roads).segments@, final(roads).segments@.len() as int).len() && final(grid).in_bounds(
                flat_tiles(final(roads).segments@, final(roads).segments@.len() as int)[q].0.0 as int,
                flat_tiles(final(roads).segments@, final(roads).segments@.len() as int)[q].0.1 as int,
            ) ==> (#[trigger] final(grid).tile_at(
                flat_tiles(final(roads).segments@, final(roads).segments@.len() as int)[q].0.0 as int,
                flat_tiles(final(roads).segments@, final(roads).segments@.len() as int)[q].0.1 as int,
            )) is Road,
        exists|gr: CityGrid|
            #[trigger] scenario_roads_stamped(*old(grid), gr, final(roads).segments@) && blocks_built(
                gr,
                *old(buildings),
                *final(grid),
                *final(buildings),
                *settings,
                final(roads).segments@,
            ),
        old(buildings).items@.is_prefix_of(final(buildings).items@),
        buildings_stand(*final(grid), *final(buildings), old(buildings).items@.len() as int),
        out.entry_seg == last_seg_at(
            flat_tiles(final(roads).segments@, final(roads).segments@.len() as int),
            ((CITY_BASE - 10) as u32, (CITY_BASE + (settings.grid_y / 2) * BLOCK_SIZE) as u32),
            flat_tiles(final(roads).segments@, final(roads).segments@.len() as int).len() as int,
        ),
        out.first_building == (if final(buildings).items@.len() > old(buildings).items@.len() {
            Some(old(buildings).items@.len() as u32)
        } else {
            None
        }),
        out.population == settings.population,
{
    let offsets = city_offsets();
    let ghost l0 = roads.links@;
    lay_city_streets(grid, roads, &offsets, *settings);
    let ghost l1 = roads.links@;
    lay_highways(roads, &offsets, *settings);
    let ghost l2 = roads.links@;
    proof {
        lemma_links_after_concat(l0, all_city_links(*grid, *settings, 64), lattice_links(*settings, 7) + all_connector_links(*settings, 64));
        assert forall|i: int| l0.len() <= i < roads.links@.len() implies (#[trigger] roads.links@[i]).road_type == RoadType::Normal
            || roads.links@[i].road_type == RoadType::Highway by {
            if i < l1.len() {
                assert(roads.links@[i] == l1[i]);
            }
        }
    }
    let tile_to_seg = roads.rebuild_topology();
    let mid_gy = settings.grid_y / 2;
    let entry = (offsets[0].0.saturating_sub(10), offsets[0].1 + mid_gy * BLOCK_SIZE);
    proof {
        assert(offsets@[0] == city_origin(0));
    }
    let ghost g1 = *grid;
    let entry_seg = stamp_scenario_roads(grid, roads, &tile_to_seg, entry);
    let ghost g2 = *grid;
    let n0 = buildings.items.len();
    zone_city_blocks(grid, roads, buildings, &offsets, *settings);
    proof {
        assert(scenario_roads_stamped(g1, g2, roads.segments@));
        let tts = tile_to_seg@;
        assert forall|q: int| 0 <= q < tts.len() && grid.in_bounds(tts[q].0.0 as int, tts[q].0.1 as int) implies (#[trigger] grid.tile_at(tts[q].0.0 as int, tts[q].0.1 as int)) is Road by {
            assert(g2.tile_at(tts[q].0.0 as int, tts[q].0.1 as int) is Road);
        }
    }
    let first_building = if buildings.items.len() > n0 {
        Some(n0 as u32)
    } else {
        None
    };
    ScenarioOutcome { entry_seg, first_building, population: settings.population }
}

} // verus!
