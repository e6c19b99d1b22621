//! The ordered refinement passes: water-edge smoothing, tree thinning, and
//! border walling — and the generation entry point that runs them.
//!
//! Each pass is total and side-effect-free: it reads one grid and returns
//! the next.  Which passes run is decided by the biome's control switches.

use vstd::prelude::*;
use crate::biome::Biome;
use crate::biome::spec_biome_control;
use crate::biome::spec_default_floor;
use crate::biome::spec_default_wall;
use crate::gen::lemma_nearest_minimal;
use crate::gen::seed_ok;
use crate::grid::Grid;
use crate::grid::GridV;
use crate::grid::lemma_index_to_coord;
use crate::grid::margin;
use crate::grid::spec_neighbors;
use crate::grid::wf;
use crate::rng::rand_below;
use crate::tile::Coord;
use crate::tile::MAX_DIM;
use crate::tile::Tile;
use crate::tile::copy_coords;
use crate::tile::TileKind;
use crate::tile::TileV;

verus! {

/// Rejection of a generation request before it starts.
#[derive(Clone, Copy, Debug, PartialEq, Eq, Structural)]
pub enum GenError {
    /// A dimension was zero or exceeded `MAX_DIM`.
    InvalidSize,
}

/// The same tile with another type.
pub open spec fn tile_retyped(t: TileV, k: TileKind) -> TileV {
    TileV { x: t.x, y: t.y, kind: k, neighbors: t.neighbors }
}

/// A tile type that blocks water and crowds trees.
pub open spec fn rough(k: TileKind) -> bool {
    k == TileKind::Wall || k == TileKind::Tree
}

/// A tile farther than two cells from every border; only such tiles are
/// touched by the smoothing and thinning passes.
pub open spec fn deep_interior(v: GridV, i: int) -> bool {
    margin(v.tiles[i].x, v.size_x) > 2 && margin(v.tiles[i].y, v.size_y) > 2
}

/// Whether some listed neighbor of tile `i` is a wall or a tree.
pub open spec fn has_rough_neighbor(v: GridV, i: int) -> bool {
    exists|j: int|
        0 <= j < v.tiles[i].neighbors.len() && rough(
            v.kind_at(
                (#[trigger] v.tiles[i].neighbors[j]).x as int,
                v.tiles[i].neighbors[j].y as int,
            ),
        )
}

/// The water-edge smoothing transform: a deep-interior water tile touching
/// a wall or tree becomes the biome's default floor; everything else
/// passes through.
pub open spec fn water_edged(v: GridV, floor: TileKind) -> GridV {
    GridV {
        size_x: v.size_x,
        size_y: v.size_y,
        default_floor: v.default_floor,
        default_wall: v.default_wall,
        tiles: Seq::new(
            v.tiles.len(),
            |i: int|
                if deep_interior(v, i) && v.tiles[i].kind == TileKind::Water && has_rough_neighbor(
                    v,
                    i,
                ) {
                    tile_retyped(v.tiles[i], floor)
                } else {
                    v.tiles[i]
                },
        ),
    }
}

/// Whether a coordinate lies on the outermost ring of the grid.
pub open spec fn on_border(x: int, y: int, sx: int, sy: int) -> bool {
    x == 0 || y == 0 || x == sx - 1 || y == sy - 1
}

/// The border-walling transform: every border tile becomes the given wall
/// type; all other tiles pass through unchanged.
pub open spec fn border_walled(v: GridV, wall: TileKind) -> GridV {
    GridV {
        size_x: v.size_x,
        size_y: v.size_y,
        default_floor: v.default_floor,
        default_wall: v.default_wall,
        tiles: Seq::new(
            v.tiles.len(),
            |i: int|
                if on_border(v.tiles[i].x, v.tiles[i].y, v.size_x, v.size_y) {
                    tile_retyped(v.tiles[i], wall)
                } else {
                    v.tiles[i]
                },
        ),
    }
}

/// Border walling is idempotent: applying the pass twice yields the same
/// grid as applying it once.
pub proof fn lemma_border_walling_idempotent(v: GridV, wall: TileKind)
    ensures
        border_walled(border_walled(v, wall), wall) == border_walled(v, wall),
{
    let a = border_walled(v, wall);
    let b = border_walled(a, wall);
    assert forall|i: int| 0 <= i < a.tiles.len() implies b.tiles[i] == a.tiles[i] by {}
    assert(b.tiles =~= a.tiles);
}

/// How many of the listed neighbors, among the first `n`, are rough.
pub open spec fn count_rough(v: GridV, nbs: Seq<Coord>, n: int) -> int
    decreases n,
{
    if n <= 0 {
        0
    } else {
        count_rough(v, nbs, n - 1) + if rough(
            v.kind_at(nbs[n - 1].x as int, nbs[n - 1].y as int),
        ) {
            1int
        } else {
            0int
        }
    }
}

pub proof fn lemma_count_rough_bound(v: GridV, nbs: Seq<Coord>, n: int)
    requires
        0 <= n <= nbs.len(),
    ensures
        0 <= count_rough(v, nbs, n) <= n,
    decreases n,
{
    if n > 0 {
        lemma_count_rough_bound(v, nbs, n - 1);
    }
}

/// The crowding score of tile `i`: itself plus its rough neighbors.
pub open spec fn crowd(v: GridV, i: int) -> int {
    1 + count_rough(v, v.tiles[i].neighbors, v.tiles[i].neighbors.len() as int)
}

impl Grid {
    /// Water-edge smoothing.  One pass only: it does not iterate to a
    /// fixed point, so contact created by the pass itself stays.
    pub fn add_water_edges(&self, biome: &Biome) -> (g: Grid)
        requires
            wf(self@),
        ensures
            wf(g@),
            g@ == water_edged(self@, spec_default_floor(biome.biome_name@)),
    {
        let floor = biome.default_floor();
        let sx = self.size_x;
        let sy = self.size_y;
        let n = self.tiles.len();
        let ghost target = water_edged(self@, spec_default_floor(biome.biome_name@));
        let mut tiles: Vec<Tile> = Vec::new();
        let mut i: usize = 0;
        while i < n
            invariant
                i <= n,
                n == self@.tiles.len(),
                wf(self@),
                sx == self@.size_x,
                sy == self@.size_y,
                floor == spec_default_floor(biome.biome_name@),
                target == water_edged(self@, floor),
                tiles@.len() == i,
                forall|k: int| 0 <= k < i ==> (#[trigger] tiles@[k])@ == target.tiles[k],
            decreases n - i,
        {
            let tile = &self.tiles[i];
            proof {
                lemma_index_to_coord(self@, i as int);
            }
            let x = tile.x;
            let y = tile.y;
            let mut kind = tile.kind;
            if x >= 3 && y >= 3 && x + 4 <= sx && y + 4 <= sy && kind == TileKind::Water {
                let m = tile.neighbors.len();
                let mut found = false;
                let mut j: usize = 0;
                while j < m
                    invariant
                        j <= m,
                        wf(self@),
                        i < self@.tiles.len(),
                        tile@ == self@.tiles[i as int],
                        m == tile.neighbors@.len(),
                        found <==> exists|q: int|
                            0 <= q < j && rough(
                                self@.kind_at(
                                    (#[trigger] tile.neighbors@[q]).x as int,
                                    tile.neighbors@[q].y as int,
                                ),
                            ),
                    decreases m - j,
                {
                    let c = tile.neighbors[j];
                    proof {
                        assert(c == self@.tiles[i as int].neighbors[j as int]);
                        assert(self@.contains_coord(c));
                    }
                    let nk = self.tile_at(c.x, c.y).kind;
                    if nk == TileKind::Wall || nk == TileKind::Tree {
                        found = true;
                    }
                    j = j + 1;
                }
                if found {
                    kind = floor;
                }
                proof {
                    assert(found == has_rough_neighbor(self@, i as int));
                }
            }
            let neighbors = copy_coords(&tile.neighbors);
            tiles.push(Tile::new(x, y, kind, neighbors));
            proof {
                assert(tiles@[i as int]@ == target.tiles[i as int]);
            }
            i = i + 1;
        }
        let g = Grid {
            size_x: sx,
            size_y: sy,
            tiles,
            default_floor: self.default_floor,
            default_wall: self.default_wall,
        };
        proof {
            assert(g@.tiles =~= target.tiles);
            assert forall|i2: int, j: int|
                0 <= i2 < g@.tiles.len() && 0 <= j < g@.tiles[i2].neighbors.len() implies g
                @.contains_coord(#[trigger] g@.tiles[i2].neighbors[j]) by {}
        }
        g
    }

    /// Tree thinning.  A deep-interior tree draws a random number below
    /// its crowding score; a draw of three or more turns it into the
    /// biome's default floor.  Sparse trees (score below four) can never
    /// reach three and are kept.
    pub fn add_sparse_trees(&self, biome: &Biome) -> (g: Grid)
        requires
            wf(self@),
        ensures
            wf(g@),
            g@.size_x == self@.size_x,
            g@.size_y == self@.size_y,
            g@.default_floor == self@.default_floor,
            g@.default_wall == self@.default_wall,
            g@.tiles.len() == self@.tiles.len(),
            forall|i: int|
                0 <= i < g@.tiles.len() ==> {
                    let t = #[trigger] g@.tiles[i];
                    let s = self@.tiles[i];
                    &&& t.x == s.x
                    &&& t.y == s.y
                    &&& t.neighbors == s.neighbors
                    &&& (t.kind == s.kind || t.kind == spec_default_floor(biome.biome_name@))
                    &&& (!(deep_interior(self@, i) && s.kind == TileKind::Tree && crowd(self@, i)
                        >= 4) ==> t.kind == s.kind)
                },
    {
        let floor = biome.default_floor();
        let sx = self.size_x;
        let sy = self.size_y;
        let n = self.tiles.len();
        let mut tiles: Vec<Tile> = Vec::new();
        let mut i: usize = 0;
        while i < n
            invariant
                i <= n,
                n == self@.tiles.len(),
                wf(self@),
                sx == self@.size_x,
                sy == self@.size_y,
                floor == spec_default_floor(biome.biome_name@),
                tiles@.len() == i,
                forall|k: int|
                    0 <= k < i ==> {
                        let t = (#[trigger] tiles@[k])@;
                        let s = self@.tiles[k];
                        &&& t.x == s.x
                        &&& t.y == s.y
                        &&& t.neighbors == s.neighbors
                        &&& (t.kind == s.kind || t.kind == floor)
                        &&& (!(deep_interior(self@, k) && s.kind == TileKind::Tree && crowd(
                            self@,
                            k,
                        ) >= 4) ==> t.kind == s.kind)
                    },
            decreases n - i,
        {
            let tile = &self.tiles[i];
            proof {
                lemma_index_to_coord(self@, i as int);
            }
            let x = tile.x;
            let y = tile.y;
            let mut kind = tile.kind;
            if x >= 3 && y >= 3 && x + 4 <= sx && y + 4 <= sy && kind == TileKind::Tree {
                let m = tile.neighbors.len();
                let mut number_of_trees: usize = 1;
                let mut j: usize = 0;
                while j < m
                    invariant
                        j <= m,
                        wf(self@),
                        i < self@.tiles.len(),
                        tile@ == self@.tiles[i as int],
                        m == tile.neighbors@.len(),
                        number_of_trees == 1 + count_rough(self@, tile.neighbors@, j as int),
                        1 <= number_of_trees <= 1 + j,
                        m <= 8,
                    decreases m - j,
                {
                    let c = tile.neighbors[j];
                    proof {
                        assert(c == self@.tiles[i as int].neighbors[j as int]);
                        assert(self@.contains_coord(c));
                    }
                    let nk = self.tile_at(c.x, c.y).kind;
                    if nk == TileKind::Wall || nk == TileKind::Tree {
                        number_of_trees = number_of_trees + 1;
                    }
                    j = j + 1;
                }
                let delete_chance = rand_below(number_of_trees);
                if delete_chance >= 3 {
                    proof {
                        assert(crowd(self@, i as int) == number_of_trees);
                    }
                    kind = floor;
                }
            }
            let neighbors = copy_coords(&tile.neighbors);
            tiles.push(Tile::new(x, y, kind, neighbors));
            i = i + 1;
        }
        let g = Grid {
            size_x: sx,
            size_y: sy,
            tiles,
            default_floor: self.default_floor,
            default_wall: self.default_wall,
        };
        proof {
            assert forall|i2: int, j: int|
                0 <= i2 < g@.tiles.len() && 0 <= j < g@.tiles[i2].neighbors.len() implies g
                @.contains_coord(#[trigger] g@.tiles[i2].neighbors[j]) by {}
        }
        g
    }

    /// Border walling: every tile on the outermost ring becomes the
    /// biome's default wall type.
    pub fn add_wall_borders(&self, biome: &Biome) -> (g: Grid)
        requires
            wf(self@),
        ensures
            wf(g@),
            g@ == border_walled(self@, spec_default_wall(biome.biome_name@)),
    {
        let wall = biome.default_wall();
        let sx = self.size_x;
        let sy = self.size_y;
        let n = self.tiles.len();
        let ghost target = border_walled(self@, spec_default_wall(biome.biome_name@));
        let mut tiles: Vec<Tile> = Vec::new();
        let mut i: usize = 0;
        while i < n
            invariant
                i <= n,
                n == self@.tiles.len(),
                wf(self@),
                sx == self@.size_x,
                sy == self@.size_y,
                wall == spec_default_wall(biome.biome_name@),
                target == border_walled(self@, wall),
                tiles@.len() == i,
                forall|k: int| 0 <= k < i ==> (#[trigger] tiles@[k])@ == target.tiles[k],
            decreases n - i,
        {
            let tile = &self.tiles[i];
            proof {
                lemma_index_to_coord(self@, i as int);
            }
            let x = tile.x;
            let y = tile.y;
            let kind = if x == 0 || y == 0 || x == sx - 1 || y == sy - 1 {
                wall
            } else {
                tile.kind
            };
            let neighbors = copy_coords(&tile.neighbors);
            tiles.push(Tile::new(x, y, kind, neighbors));
            proof {
                assert(tiles@[i as int]@ == target.tiles[i as int]);
            }
            i = i + 1;
        }
        let g = Grid {
            size_x: sx,
            size_y: sy,
            tiles,
            default_floor: self.default_floor,
            default_wall: self.default_wall,
        };
        proof {
            assert(g@.tiles =~= target.tiles);
            assert forall|i2: int, j: int|
                0 <= i2 < g@.tiles.len() && 0 <= j < g@.tiles[i2].neighbors.len() implies g
                @.contains_coord(#[trigger] g@.tiles[i2].neighbors[j]) by {}
        }
        g
    }
}

/// A tile type that seed assignment and refinement can produce: the five
/// seeded types.  A finished grid holds nothing else, which is what lets
/// the storage codec round-trip it.
pub open spec fn generated_kind(k: TileKind) -> bool {
    k == TileKind::Floor || k == TileKind::Wall || k == TileKind::Water || k == TileKind::Sand
        || k == TileKind::Tree
}

impl Grid {
    /// Generates a map of the named biome: random seeds, nearest-seed
    /// assignment, neighbor indexing, then the biome's refinement passes
    /// in their fixed order.  Degenerate dimensions are rejected before
    /// generation starts; an unknown name is not an error.
    pub fn new_biome(sizex: usize, sizey: usize, biome_name: String) -> (r: Result<Grid, GenError>)
        ensures
            r is Ok <==> (1 <= sizex <= MAX_DIM && 1 <= sizey <= MAX_DIM),
            r matches Err(e) ==> e == GenError::InvalidSize,
            r matches Ok(g) ==> {
                let name = biome_name@;
                &&& wf(g@)
                &&& g@.size_x == sizex
                &&& g@.size_y == sizey
                &&& g@.default_floor == spec_default_floor(name)
                &&& g@.default_wall == spec_default_wall(name)
                &&& forall|i: int|
                    0 <= i < g@.tiles.len() ==> (#[trigger] g@.tiles[i]).neighbors
                        == spec_neighbors(g@.tiles[i].x, g@.tiles[i].y, sizex as int, sizey as int)
                &&& forall|i: int|
                    0 <= i < g@.tiles.len() ==> generated_kind((#[trigger] g@.tiles[i]).kind)
                &&& spec_biome_control(name).outer_wall ==> forall|i: int|
                    0 <= i < g@.tiles.len() && on_border(
                        (#[trigger] g@.tiles[i]).x,
                        g@.tiles[i].y,
                        sizex as int,
                        sizey as int,
                    ) ==> g@.tiles[i].kind == spec_default_wall(name)
            },
    {
        if sizex == 0 || sizey == 0 || sizex > MAX_DIM || sizey > MAX_DIM {
            return Err(GenError::InvalidSize);
        }
        let biome = Biome::new(biome_name);
        proof {
            assert(biome.tile_chance.floor <= 100 && biome.tile_chance.wall <= 100
                && biome.tile_chance.water <= 100 && biome.tile_chance.sand <= 100
                && biome.tile_chance.tree <= 100);
        }
        let base = sizex + sizey;
        let number_of_regions = base + rand_below(base);
        let voronoi_regions = Grid::create_voronoi_points(sizex, sizey, &biome, number_of_regions);
        let ghost seeds = voronoi_regions@;
        proof {
            assert forall|j: int| 0 <= j < seeds.len() implies generated_kind(
                (#[trigger] seeds[j]).kind,
            ) by {}
            assert forall|j: int| 0 <= j < seeds.len() implies (#[trigger] seeds[j]).x <= MAX_DIM
                && seeds[j].y <= MAX_DIM by {
                assert(seed_ok(seeds[j], sizex as int, sizey as int));
            }
        }
        let g0 = Grid::empty_tileset(sizex, sizey);
        let g1 = g0.tiles_to_voronoi(&voronoi_regions);
        proof {
            assert forall|i: int| 0 <= i < g1@.tiles.len() implies generated_kind(
                (#[trigger] g1@.tiles[i]).kind,
            ) by {
                lemma_nearest_minimal(
                    seeds,
                    g0@.tiles[i].x,
                    g0@.tiles[i].y,
                    seeds.len() as int,
                );
            }
        }
        let g2 = g1.update_all_neighbors();
        let mut g = g2;
        if biome.biome_control.water_edges {
            g = g.add_water_edges(&biome);
        }
        if biome.biome_control.sparse_trees {
            g = g.add_sparse_trees(&biome);
        }
        if biome.biome_control.outer_wall {
            g = g.add_wall_borders(&biome);
        }
        let mut g = g;
        g.default_floor = biome.default_floor();
        g.default_wall = biome.default_wall();
        Ok(g)
    }
}

} // verus!
