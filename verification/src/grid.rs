//! The 2D tile grid: zoning, roads, buildings and terrain classes per tile.
//!
//! Each tile is one of `Empty`, `Water`, `Zone(..)`, `Road(segment)` or
//! `Building(id)`. Tiles are stored row-major: tile `(x, y)` lives at index
//! `y * width + x`.

use vstd::prelude::*;

verus! {

/// The three kinds of zone a tile can be painted with.
#[derive(Clone, Copy, Debug, PartialEq, Eq, Structural)]
pub enum ZoneType {
    Residential,
    Office,
    Shop,
}

/// Terrain class of a tile.
#[derive(Clone, Copy, Debug, PartialEq, Eq, Structural)]
pub enum Biome {
    Water,
    Plains,
    Forest,
    Desert,
}

/// What occupies a tile.
#[derive(Clone, Copy, Debug, PartialEq, Eq, Structural)]
pub enum Tile {
    Empty,
    Water,
    Zone(ZoneType),
    /// Index into the road segments.
    Road(u32),
    /// Index into the building list.
    Building(u32),
}

/// The tile grid. Per-tile elevations are floating-point terrain data and are
/// kept beside the grid by the application.
pub struct CityGrid {
    pub width: u32,
    pub height: u32,
    pub tiles: Vec<Tile>,
    pub biomes: Vec<Biome>,
}

/// `y * w + x` stays below `w * h` for a coordinate inside the grid.
pub proof fn lemma_index_in_grid(x: int, y: int, w: int, h: int)
    requires
        0 <= x < w,
        0 <= y < h,
    ensures
        0 <= y * w + x < w * h,
{
    assert(y * w + x < w * h) by (nonlinear_arith)
        requires
            0 <= x < w,
            0 <= y < h,
    ;
    assert(0 <= y * w) by (nonlinear_arith)
        requires
            0 <= y,
            0 <= w,
    ;
}

/// Distinct in-bounds coordinates have distinct indices.
pub proof fn lemma_index_injective(x1: int, y1: int, x2: int, y2: int, w: int)
    requires
        0 <= x1 < w,
        0 <= x2 < w,
        0 <= y1,
        0 <= y2,
        y1 * w + x1 == y2 * w + x2,
    ensures
        x1 == x2,
        y1 == y2,
{
    if y1 < y2 {
        assert(y1 * w + x1 < y2 * w + x2) by (nonlinear_arith)
            requires
                y1 < y2,
                0 <= x1 < w,
                0 <= x2,
        ;
    } else if y2 < y1 {
        assert(y2 * w + x2 < y1 * w + x1) by (nonlinear_arith)
            requires
                y2 < y1,
                0 <= x2 < w,
                0 <= x1,
        ;
    }
}

/// Row-major index of tile `(x, y)` in a grid of width `w`.
pub open spec fn tile_index(w: int, x: int, y: int) -> int {
    y * w + x
}

/// The in-bounds orthogonal neighbours of `(x, y)`, in the order
/// left, right, up, down.
pub open spec fn spec_neighbours4(w: int, h: int, x: int, y: int) -> Seq<(u32, u32)> {
    let left: Seq<(u32, u32)> = if 0 < x && x - 1 < w && 0 <= y < h {
        seq![((x - 1) as u32, y as u32)]
    } else {
        seq![]
    };
    let right: Seq<(u32, u32)> = if 0 <= x + 1 < w && 0 <= y < h {
        seq![((x + 1) as u32, y as u32)]
    } else {
        seq![]
    };
    let up: Seq<(u32, u32)> = if 0 <= x < w && 0 < y && y - 1 < h {
        seq![(x as u32, (y - 1) as u32)]
    } else {
        seq![]
    };
    let down: Seq<(u32, u32)> = if 0 <= x < w && 0 <= y + 1 < h {
        seq![(x as u32, (y + 1) as u32)]
    } else {
        seq![]
    };
    left + right + up + down
}

impl CityGrid {
    /// The vectors hold exactly one entry per tile.
    pub open spec fn wf(&self) -> bool {
        &&& self.width * self.height <= u32::MAX
        &&& self.tiles@.len() == self.width * self.height
        &&& self.biomes@.len() == self.width * self.height
    }

    pub open spec fn in_bounds(&self, x: int, y: int) -> bool {
        0 <= x < self.width && 0 <= y < self.height
    }

    /// The tile at `(x, y)`; meaningful only in bounds.
    pub open spec fn tile_at(&self, x: int, y: int) -> Tile {
        self.tiles@[tile_index(self.width as int, x, y)]
    }

    /// After `set(x0, y0, t)` on an in-bounds tile, that tile holds `t` and
    /// every other tile is unchanged.
    pub proof fn lemma_set_tile(old_g: CityGrid, new_g: CityGrid, x0: int, y0: int, t: Tile)
        requires
            old_g.wf(),
            old_g.in_bounds(x0, y0),
            new_g.width == old_g.width,
            new_g.height == old_g.height,
            new_g.tiles@ == old_g.tiles@.update(tile_index(old_g.width as int, x0, y0), t),
        ensures
            forall|x: int, y: int|
                old_g.in_bounds(x, y) ==> #[trigger] new_g.tile_at(x, y) == (if x == x0 && y == y0 {
                    t
                } else {
                    old_g.tile_at(x, y)
                }),
    {
        assert forall|x: int, y: int| old_g.in_bounds(x, y) implies #[trigger] new_g.tile_at(x, y) == (if x == x0 && y == y0 {
            t
        } else {
            old_g.tile_at(x, y)
        }) by {
            lemma_index_in_grid(x, y, old_g.width as int, old_g.height as int);
            lemma_index_in_grid(x0, y0, old_g.width as int, old_g.height as int);
            if tile_index(old_g.width as int, x, y) == tile_index(old_g.width as int, x0, y0) {
                lemma_index_injective(x, y, x0, y0, old_g.width as int);
            }
        }
    }

    /// An empty grid with no tiles.
    pub fn new() -> (g: CityGrid)
        ensures
            g.wf(),
            g.width == 0,
            g.height == 0,
    {
        CityGrid { width: 0, height: 0, tiles: Vec::new(), biomes: Vec::new() }
    }

    /// Resizes the grid to `w x h`, every tile `Empty` on `Plains`.
    pub fn reset(&mut self, w: u32, h: u32)
        requires
            w * h <= u32::MAX,
        ensures
            final(self).wf(),
            final(self).width == w,
            final(self).height == h,
            forall|i: int| 0 <= i < w * h ==> #[trigger] final(self).tiles@[i] == Tile::Empty,
            forall|i: int| 0 <= i < w * h ==> #[trigger] final(self).biomes@[i] == Biome::Plains,
    {
        let count = (w * h) as usize;
        let mut tiles: Vec<Tile> = Vec::with_capacity(count);
        let mut biomes: Vec<Biome> = Vec::with_capacity(count);
        let mut i: usize = 0;
        while i < count
            invariant
                count == w * h,
                i <= count,
                tiles@.len() == i,
                biomes@.len() == i,
                forall|j: int| 0 <= j < i ==> #[trigger] tiles@[j] == Tile::Empty,
                forall|j: int| 0 <= j < i ==> #[trigger] biomes@[j] == Biome::Plains,
            decreases count - i,
        {
            tiles.push(Tile::Empty);
            biomes.push(Biome::Plains);
            i = i + 1;
        }
        self.width = w;
        self.height = h;
        self.tiles = tiles;
        self.biomes = biomes;
    }

    /// Row-major index of `(x, y)`.
    pub fn idx(&self, x: u32, y: u32) -> (i: usize)
        requires
            y * self.width + x <= u32::MAX,
        ensures
            i == tile_index(self.width as int, x as int, y as int),
    {
        (y * self.width + x) as usize
    }

    /// The tile at `(x, y)`, or `None` outside the grid.
    pub fn get(&self, x: u32, y: u32) -> (t: Option<Tile>)
        requires
            self.wf(),
        ensures
            t == (if self.in_bounds(x as int, y as int) {
                Some(self.tile_at(x as int, y as int))
            } else {
                None
            }),
    {
        if x < self.width && y < self.height {
            proof {
                lemma_index_in_grid(x as int, y as int, self.width as int, self.height as int);
            }
            Some(self.tiles[self.idx(x, y)])
        } else {
            None
        }
    }

    /// Writes `t` at `(x, y)`; does nothing outside the grid.
    pub fn set(&mut self, x: u32, y: u32, t: Tile)
        requires
            old(self).wf(),
        ensures
            final(self).wf(),
            final(self).width == old(self).width,
            final(self).height == old(self).height,
            final(self).biomes == old(self).biomes,
            final(self).tiles@ == (if old(self).in_bounds(x as int, y as int) {
                old(self).tiles@.update(tile_index(old(self).width as int, x as int, y as int), t)
            } else {
                old(self).tiles@
            }),
    {
        if x < self.width && y < self.height {
            proof {
                lemma_index_in_grid(x as int, y as int, self.width as int, self.height as int);
            }
            let i = self.idx(x, y);
            self.tiles.set(i, t);
        }
    }

    /// The orthogonal neighbours of `(x, y)` that lie inside the grid, in the
    /// order left, right, up, down.
    pub fn neighbours4(&self, x: u32, y: u32) -> (n: Vec<(u32, u32)>)
        ensures
            n@ == spec_neighbours4(self.width as int, self.height as int, x as int, y as int),
    {
        let w = self.width;
        let h = self.height;
        let mut n: Vec<(u32, u32)> = Vec::new();
        if x > 0 && x - 1 < w && y < h {
            n.push((x - 1, y));
        }
        let ghost n1 = n@;
        if x < u32::MAX && x + 1 < w && y < h {
            n.push((x + 1, y));
        }
        let ghost n2 = n@;
        if x < w && y > 0 && y - 1 < h {
            n.push((x, y - 1));
        }
        let ghost n3 = n@;
        if x < w && y < u32::MAX && y + 1 < h {
            n.push((x, y + 1));
        }
        proof {
            let ghost s = spec_neighbours4(w as int, h as int, x as int, y as int);
            assert(n@ =~= s);
        }
        n
    }

    /// Installs the terrain classes: `biomes` becomes the grid's biome layer
    /// and every water tile becomes `Tile::Water`; other tiles are unchanged.
    pub fn apply_biomes(&mut self, biomes: Vec<Biome>)
        requires
            old(self).wf(),
            biomes@.len() == old(self).tiles@.len(),
        ensures
            final(self).wf(),
            final(self).width == old(self).width,
            final(self).height == old(self).height,
            final(self).biomes@ == biomes@,
            final(self).tiles@.len() == old(self).tiles@.len(),
            forall|i: int|
                0 <= i < biomes@.len() ==> #[trigger] final(self).tiles@[i] == (if biomes@[i]
                    == Biome::Water {
                    Tile::Water
                } else {
                    old(self).tiles@[i]
                }),
    {
        let n = biomes.len();
        let mut i: usize = 0;
        while i < n
            invariant
                n == biomes@.len(),
                i <= n,
                self.tiles@.len() == n,
                self.width == old(self).width,
                self.height == old(self).height,
                self.biomes == old(self).biomes,
                forall|j: int|
                    0 <= j < n ==> #[trigger] self.tiles@[j] == (if j < i && biomes@[j]
                        == Biome::Water {
                        Tile::Water
                    } else {
                        old(self).tiles@[j]
                    }),
            decreases n - i,
        {
            if biomes[i] == Biome::Water {
                self.tiles.set(i, Tile::Water);
            }
            i = i + 1;
        }
        self.biomes = biomes;
    }

    /// Writes `t` on every tile `(x, y)` with `x0 <= x < x1` and
    /// `y0 <= y < y1`; the rectangle lies in the grid.
    pub fn fill_rect(&mut self, x0: u32, y0: u32, x1: u32, y1: u32, t: Tile)
        requires
            old(self).wf(),
            x1 <= old(self).width,
            y1 <= old(self).height,
        ensures
            final(self).wf(),
            final(self).width == old(self).width,
            final(self).height == old(self).height,
            final(self).biomes == old(self).biomes,
            forall|x: int, y: int|
                old(self).in_bounds(x, y) ==> #[trigger] final(self).tile_at(x, y) == (if x0 <= x < x1
                    && y0 <= y < y1 {
                    t
                } else {
                    old(self).tile_at(x, y)
                }),
    {
        let ghost g0 = *self;
        let mut y = y0;
        while y < y1
            invariant
                self.wf(),
                self.width == g0.width,
                self.height == g0.height,
                self.biomes == g0.biomes,
                x1 <= g0.width,
                y1 <= g0.height,
                y0 <= y,
                y0 >= y1 ==> y == y0,
                y0 < y1 ==> y <= y1,
                forall|x: int, yy: int|
                    g0.in_bounds(x, yy) ==> #[trigger] self.tile_at(x, yy) == (if x0 <= x < x1 && y0 <= yy
                        < y {
                        t
                    } else {
                        g0.tile_at(x, yy)
                    }),
            decreases y1 - y,
        {
            let mut x = x0;
            while x < x1
                invariant
                    self.wf(),
                    self.width == g0.width,
                    self.height == g0.height,
                    self.biomes == g0.biomes,
                    x1 <= g0.width,
                    y1 <= g0.height,
                    y0 <= y < y1,
                    x0 <= x,
                    x0 < x1 ==> x <= x1,
                    forall|xx: int, yy: int|
                        g0.in_bounds(xx, yy) ==> #[trigger] self.tile_at(xx, yy) == (if x0 <= xx < x1 && (y0
                            <= yy < y || (yy == y && x0 <= xx < x)) {
                            t
                        } else {
                            g0.tile_at(xx, yy)
                        }),
                decreases x1 - x,
            {
                let ghost before = *self;
                self.set(x, y, t);
                proof {
                    CityGrid::lemma_set_tile(before, *self, x as int, y as int, t);
                }
                x = x + 1;
            }
            y = y + 1;
        }
    }

    /// The road mask of the terrain: one byte per tile, 255 on road tiles and
    /// 0 elsewhere.
    pub fn road_mask(&self) -> (m: Vec<u8>)
        ensures
            m@.len() == self.tiles@.len(),
            forall|i: int|
                0 <= i < m@.len() ==> #[trigger] m@[i] == (if self.tiles@[i] is Road {
                    255u8
                } else {
                    0u8
                }),
    {
        let n = self.tiles.len();
        let mut m: Vec<u8> = Vec::with_capacity(n);
        let mut i: usize = 0;
        while i < n
            invariant
                n == self.tiles@.len(),
                i <= n,
                m@.len() == i,
                forall|j: int|
                    0 <= j < i ==> #[trigger] m@[j] == (if self.tiles@[j] is Road {
                        255u8
                    } else {
                        0u8
                    }),
            decreases n - i,
        {
            match self.tiles[i] {
                Tile::Road(_) => m.push(255u8),
                _ => m.push(0u8),
            }
            i = i + 1;
        }
        m
    }
}

} // verus!
