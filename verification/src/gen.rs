//! Seed placement and nearest-seed assignment: an empty grid becomes a
//! typed grid by giving every tile the type of its closest seed.

use vstd::prelude::*;
use crate::biome::Biome;
use crate::biome::spec_default_floor;
use crate::grid::Grid;
use crate::grid::lemma_index_to_coord;
use crate::grid::wf;
use crate::rng::rand_below;
use crate::tile::Coord;
use crate::tile::MAX_DIM;
use crate::tile::Tile;
use crate::tile::TileKind;
use crate::tile::spec_manhattan;

verus! {

/// Manhattan distance from the seed `s` to the coordinate `(x, y)`.
pub open spec fn seed_dist(s: Tile, x: int, y: int) -> int {
    spec_manhattan(s.x as int, s.y as int, x, y)
}

/// The index of the seed nearest to `(x, y)` among the first `n` seeds,
/// scanning left to right and keeping only strictly closer seeds — so the
/// first seed of a tied distance wins.
pub open spec fn nearest_upto(seeds: Seq<Tile>, x: int, y: int, n: int) -> int
    decreases n,
{
    if n <= 1 {
        0
    } else {
        let b = nearest_upto(seeds, x, y, n - 1);
        if seed_dist(seeds[n - 1], x, y) < seed_dist(seeds[b], x, y) {
            n - 1
        } else {
            b
        }
    }
}

/// The nearest seed is a minimum of the scanned prefix, and the earliest
/// one among those at its distance: first seen wins ties.
pub proof fn lemma_nearest_minimal(seeds: Seq<Tile>, x: int, y: int, n: int)
    requires
        1 <= n <= seeds.len(),
    ensures
        0 <= nearest_upto(seeds, x, y, n) < n,
        forall|j: int|
            0 <= j < n ==> seed_dist(seeds[nearest_upto(seeds, x, y, n)], x, y) <= seed_dist(
                #[trigger] seeds[j],
                x,
                y,
            ),
        forall|j: int|
            0 <= j < nearest_upto(seeds, x, y, n) ==> seed_dist(
                seeds[nearest_upto(seeds, x, y, n)],
                x,
                y,
            ) < seed_dist(#[trigger] seeds[j], x, y),
    decreases n,
{
    if n > 1 {
        lemma_nearest_minimal(seeds, x, y, n - 1);
    }
}

/// A seed usable by nearest-seed assignment: its coordinate lies in the
/// `size_x` by `size_y` space and it carries no neighbors.
pub open spec fn seed_ok(s: Tile, sx: int, sy: int) -> bool {
    s.x < sx && s.y < sy && s.neighbors@ == Seq::<Coord>::empty()
}

impl Tile {
    /// Appends `number_of_tiles` seeds of the given type at independently
    /// uniform random coordinates.
    pub fn new_voronoi_tiles(
        sizex: usize,
        sizey: usize,
        number_of_tiles: usize,
        tile_type: TileKind,
        voronoi_regions: Vec<Tile>,
    ) -> (r: Vec<Tile>)
        requires
            1 <= sizex <= MAX_DIM,
            1 <= sizey <= MAX_DIM,
            voronoi_regions@.len() + number_of_tiles <= usize::MAX,
        ensures
            r@.len() == voronoi_regions@.len() + number_of_tiles,
            forall|i: int|
                0 <= i < voronoi_regions@.len() ==> (#[trigger] r@[i]).x == voronoi_regions@[i].x
                    && r@[i].y == voronoi_regions@[i].y && r@[i].kind == voronoi_regions@[i].kind
                    && r@[i].neighbors@ == voronoi_regions@[i].neighbors@,
            forall|i: int|
                voronoi_regions@.len() <= i < r@.len() ==> (#[trigger] r@[i]).kind == tile_type
                    && seed_ok(r@[i], sizex as int, sizey as int),
    {
        let mut regions = voronoi_regions;
        let ghost orig = regions@;
        let mut remaining = number_of_tiles;
        while remaining > 0
            invariant
                regions@.len() + remaining == orig.len() + number_of_tiles,
                remaining <= number_of_tiles,
                1 <= sizex <= MAX_DIM,
                1 <= sizey <= MAX_DIM,
                forall|i: int|
                    0 <= i < orig.len() ==> (#[trigger] regions@[i]).x == orig[i].x
                        && regions@[i].y == orig[i].y && regions@[i].kind == orig[i].kind
                        && regions@[i].neighbors@ == orig[i].neighbors@,
                forall|i: int|
                    orig.len() <= i < regions@.len() ==> (#[trigger] regions@[i]).kind == tile_type
                        && seed_ok(regions@[i], sizex as int, sizey as int),
            decreases remaining,
        {
            remaining = remaining - 1;
            let x = rand_below(sizex);
            let y = rand_below(sizey);
            let ghost prev = regions@;
            regions.push(Tile::new(x, y, tile_type, Vec::new()));
            proof {
                assert(regions@.len() == prev.len() + 1);
                assert forall|i: int|
                    0 <= i < orig.len() implies (#[trigger] regions@[i]).x == orig[i].x
                    && regions@[i].y == orig[i].y && regions@[i].kind == orig[i].kind
                    && regions@[i].neighbors@ == orig[i].neighbors@ by {
                    assert(regions@[i] == prev[i]);
                }
                assert forall|i: int|
                    orig.len() <= i < regions@.len() implies (#[trigger] regions@[i]).kind
                    == tile_type && seed_ok(regions@[i], sizex as int, sizey as int) by {
                    if i < prev.len() {
                        assert(regions@[i] == prev[i]);
                    } else {
                        assert(regions@[i].neighbors@ =~= Seq::<Coord>::empty());
                    }
                }
            }
        }
        regions
    }
}

/// How many seeds a percentage share claims out of `regions`.
pub open spec fn chance_count(pct: u32, regions: int) -> int {
    pct * regions / 100
}

impl Grid {
    /// Draws the typed seed points for one generation run: each tile type
    /// claims `floor(share * regions)` seeds at random coordinates, in the
    /// fixed order floor, wall, water, sand, tree, and one guaranteed seed
    /// of the biome's default floor type closes the list at the map center.
    pub fn create_voronoi_points(
        sizex: usize,
        sizey: usize,
        biome: &Biome,
        number_of_regions: usize,
    ) -> (r: Vec<Tile>)
        requires
            1 <= sizex <= MAX_DIM,
            1 <= sizey <= MAX_DIM,
            number_of_regions <= 4 * MAX_DIM,
            biome.tile_chance.floor <= 100,
            biome.tile_chance.wall <= 100,
            biome.tile_chance.water <= 100,
            biome.tile_chance.sand <= 100,
            biome.tile_chance.tree <= 100,
        ensures
            ({
                let n = number_of_regions as int;
                let c = biome.tile_chance;
                let nf = chance_count(c.floor, n);
                let nw = chance_count(c.wall, n);
                let na = chance_count(c.water, n);
                let ns = chance_count(c.sand, n);
                let nt = chance_count(c.tree, n);
                &&& r@.len() == nf + nw + na + ns + nt + 1
                &&& forall|i: int|
                    0 <= i < r@.len() ==> seed_ok(#[trigger] r@[i], sizex as int, sizey as int)
                &&& forall|i: int| 0 <= i < nf ==> (#[trigger] r@[i]).kind == TileKind::Floor
                &&& forall|i: int|
                    nf <= i < nf + nw ==> (#[trigger] r@[i]).kind == TileKind::Wall
                &&& forall|i: int|
                    nf + nw <= i < nf + nw + na ==> (#[trigger] r@[i]).kind == TileKind::Water
                &&& forall|i: int|
                    nf + nw + na <= i < nf + nw + na + ns ==> (#[trigger] r@[i]).kind
                        == TileKind::Sand
                &&& forall|i: int|
                    nf + nw + na + ns <= i < nf + nw + na + ns + nt ==> (#[trigger] r@[i]).kind
                        == TileKind::Tree
                &&& r@.last().kind == spec_default_floor(biome.biome_name@)
                &&& r@.last().x == sizex / 2
                &&& r@.last().y == sizey / 2
            }),
    {
        let number_of_floor = chance_count_exec(biome.tile_chance.floor, number_of_regions);
        let number_of_wall = chance_count_exec(biome.tile_chance.wall, number_of_regions);
        let number_of_water = chance_count_exec(biome.tile_chance.water, number_of_regions);
        let number_of_sand = chance_count_exec(biome.tile_chance.sand, number_of_regions);
        let number_of_trees = chance_count_exec(biome.tile_chance.tree, number_of_regions);
        let mut voronoi_regions: Vec<Tile> = Vec::new();
        voronoi_regions = Tile::new_voronoi_tiles(
            sizex,
            sizey,
            number_of_floor,
            TileKind::Floor,
            voronoi_regions,
        );
        voronoi_regions = Tile::new_voronoi_tiles(
            sizex,
            sizey,
            number_of_wall,
            TileKind::Wall,
            voronoi_regions,
        );
        voronoi_regions = Tile::new_voronoi_tiles(
            sizex,
            sizey,
            number_of_water,
            TileKind::Water,
            voronoi_regions,
        );
        voronoi_regions = Tile::new_voronoi_tiles(
            sizex,
            sizey,
            number_of_sand,
            TileKind::Sand,
            voronoi_regions,
        );
        voronoi_regions = Tile::new_voronoi_tiles(
            sizex,
            sizey,
            number_of_trees,
            TileKind::Tree,
            voronoi_regions,
        );
        voronoi_regions.push(Tile::new(sizex / 2, sizey / 2, biome.default_floor(), Vec::new()));
        voronoi_regions
    }

    /// Gives every tile the type of its nearest seed, measured by Manhattan
    /// distance, the first-emitted seed winning ties.  Neighbors stay
    /// empty; the seed scan is linear on purpose — the tie-break order is
    /// part of the contract.
    pub fn tiles_to_voronoi(&self, voronoi_regions: &Vec<Tile>) -> (g: Grid)
        requires
            wf(self@),
            1 <= voronoi_regions@.len(),
            forall|j: int|
                0 <= j < voronoi_regions@.len() ==> (#[trigger] voronoi_regions@[j]).x <= MAX_DIM
                    && voronoi_regions@[j].y <= MAX_DIM,
        ensures
            wf(g@),
            g@.size_x == self@.size_x,
            g@.size_y == self@.size_y,
            g@.default_floor == self@.default_floor,
            g@.default_wall == self@.default_wall,
            g@.tiles.len() == self@.tiles.len(),
            forall|i: int|
                0 <= i < g@.tiles.len() ==> {
                    let t = #[trigger] g@.tiles[i];
                    let s = self@.tiles[i];
                    t.x == s.x && t.y == s.y && t.neighbors == Seq::<Coord>::empty() && t.kind
                        == voronoi_regions@[nearest_upto(
                        voronoi_regions@,
                        s.x,
                        s.y,
                        voronoi_regions@.len() as int,
                    )].kind
                },
    {
        let n = self.tiles.len();
        let m = voronoi_regions.len();
        let mut tiles: Vec<Tile> = Vec::new();
        let mut i: usize = 0;
        while i < n
            invariant
                i <= n,
                n == self@.tiles.len(),
                m == voronoi_regions@.len(),
                1 <= m,
                wf(self@),
                forall|j: int|
                    0 <= j < m ==> (#[trigger] voronoi_regions@[j]).x <= MAX_DIM
                        && voronoi_regions@[j].y <= MAX_DIM,
                tiles@.len() == i,
                forall|k: int|
                    0 <= k < i ==> {
                        let t = (#[trigger] tiles@[k])@;
                        let s = self@.tiles[k];
                        t.x == s.x && t.y == s.y && t.neighbors == Seq::<Coord>::empty() && t.kind
                            == voronoi_regions@[nearest_upto(
                            voronoi_regions@,
                            s.x,
                            s.y,
                            m as int,
                        )].kind
                    },
            decreases n - i,
        {
            let tile = &self.tiles[i];
            proof {
                lemma_index_to_coord(self@, i as int);
            }
            let mut closest: usize = 0;
            let mut j: usize = 1;
            while j < m
                invariant
                    1 <= j <= m,
                    m == voronoi_regions@.len(),
                    wf(self@),
                    i < self@.tiles.len(),
                    tile@ == self@.tiles[i as int],
                    tile.x <= MAX_DIM,
                    tile.y <= MAX_DIM,
                    forall|k: int|
                        0 <= k < m ==> (#[trigger] voronoi_regions@[k]).x <= MAX_DIM
                            && voronoi_regions@[k].y <= MAX_DIM,
                    closest == nearest_upto(voronoi_regions@, tile.x as int, tile.y as int,
                    j as int),
                    closest < j,
                decreases m - j,
            {
                let diff = Tile::distance(&voronoi_regions[j], tile);
                let old_diff = Tile::distance(&voronoi_regions[closest], tile);
                if diff < old_diff {
                    closest = j;
                }
                j = j + 1;
            }
            tiles.push(Tile::new(tile.x, tile.y, voronoi_regions[closest].kind, Vec::new()));
            i = i + 1;
        }
        Grid {
            size_x: self.size_x,
            size_y: self.size_y,
            tiles,
            default_floor: self.default_floor,
            default_wall: self.default_wall,
        }
    }
}

/// `floor(pct% of regions)`, the seed budget of one tile type.
fn chance_count_exec(pct: u32, regions: usize) -> (c: usize)
    requires
        pct <= 100,
        regions <= 4 * MAX_DIM,
    ensures
        c == chance_count(pct, regions as int),
        c <= regions,
{
    let p = pct as usize;
    proof {
        assert(p * regions <= 100 * (4 * MAX_DIM)) by (nonlinear_arith)
            requires
                p <= 100,
                regions <= 4 * MAX_DIM,
                0 <= p,
                0 <= regions,
        ;
        assert(p * regions / 100 <= regions) by (nonlinear_arith)
            requires
                p <= 100,
                0 <= regions,
        ;
    }
    p * regions / 100
}

} // verus!
