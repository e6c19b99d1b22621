//! The grid: a fixed-size 2D tile space stored row-major, with the
//! neighbor indexer and the well-formedness invariant every pass preserves.

use vstd::prelude::*;
use vstd::arithmetic::div_mod::lemma_fundamental_div_mod;
use vstd::arithmetic::div_mod::lemma_fundamental_div_mod_converse;
use crate::tile::Coord;
use crate::tile::MAX_DIM;
use crate::tile::Tile;
use crate::tile::TileKind;
use crate::tile::TileV;

verus! {

/// The mathematical image of a grid.
pub ghost struct GridV {
    pub size_x: int,
    pub size_y: int,
    pub tiles: Seq<TileV>,
    pub default_floor: TileKind,
    pub default_wall: TileKind,
}

impl GridV {
    /// Row-major position of the coordinate `(x, y)`.
    pub open spec fn idx(self, x: int, y: int) -> int {
        y * self.size_x + x
    }

    pub open spec fn in_range(self, x: int, y: int) -> bool {
        0 <= x < self.size_x && 0 <= y < self.size_y
    }

    pub open spec fn contains_coord(self, c: Coord) -> bool {
        self.in_range(c.x as int, c.y as int)
    }

    pub open spec fn kind_at(self, x: int, y: int) -> TileKind {
        self.tiles[self.idx(x, y)].kind
    }
}

/// Well-formedness: positive bounded sizes, exactly one tile per coordinate
/// at its row-major position, and neighbor lists that point into the grid.
pub open spec fn wf(v: GridV) -> bool {
    &&& 1 <= v.size_x <= MAX_DIM
    &&& 1 <= v.size_y <= MAX_DIM
    &&& v.tiles.len() == v.size_x * v.size_y
    &&& forall|i: int|
        0 <= i < v.tiles.len() ==> (#[trigger] v.tiles[i]).x == i % v.size_x && v.tiles[i].y == i
            / v.size_x
    &&& forall|i: int, j: int|
        0 <= i < v.tiles.len() && 0 <= j < v.tiles[i].neighbors.len() ==> v.contains_coord(
            #[trigger] v.tiles[i].neighbors[j],
        )
    &&& forall|i: int| 0 <= i < v.tiles.len() ==> (#[trigger] v.tiles[i]).neighbors.len() <= 8
}

/// In a well-formed grid, every in-range coordinate names exactly one tile,
/// at its row-major position.
pub proof fn lemma_coord_to_index(v: GridV, x: int, y: int)
    requires
        wf(v),
        v.in_range(x, y),
    ensures
        0 <= v.idx(x, y) < v.tiles.len(),
        v.tiles[v.idx(x, y)].x == x,
        v.tiles[v.idx(x, y)].y == y,
{
    let i = v.idx(x, y);
    assert(0 <= i && i < v.size_x * v.size_y) by (nonlinear_arith)
        requires
            0 <= x < v.size_x,
            0 <= y < v.size_y,
            i == y * v.size_x + x,
    ;
    lemma_fundamental_div_mod_converse(i, v.size_x, y, x);
}

/// In a well-formed grid, every tile sits at the position its own
/// coordinate names.
pub proof fn lemma_index_to_coord(v: GridV, i: int)
    requires
        wf(v),
        0 <= i < v.tiles.len(),
    ensures
        v.in_range(v.tiles[i].x, v.tiles[i].y),
        v.idx(v.tiles[i].x, v.tiles[i].y) == i,
{
    lemma_fundamental_div_mod(i, v.size_x);
    assert(0 <= i % v.size_x < v.size_x);
    let q = i / v.size_x;
    assert(0 <= q && q < v.size_y) by (nonlinear_arith)
        requires
            0 <= i < v.size_x * v.size_y,
            1 <= v.size_x,
            i == v.size_x * q + i % v.size_x,
            0 <= i % v.size_x < v.size_x,
    ;
}

/// The tile mapping of a well-formed `size_x` by `size_y` grid has exactly
/// `size_x * size_y` entries, their coordinate keys are pairwise distinct,
/// and every in-range coordinate is covered.
pub proof fn lemma_grid_coverage(v: GridV)
    requires
        wf(v),
    ensures
        v.tiles.len() == v.size_x * v.size_y,
        forall|x: int, y: int|
            v.in_range(x, y) ==> {
                let i = #[trigger] v.idx(x, y);
                0 <= i < v.tiles.len() && v.tiles[i].x == x && v.tiles[i].y == y
            },
        forall|i: int, j: int|
            0 <= i < v.tiles.len() && 0 <= j < v.tiles.len() && i != j ==> !((
            #[trigger] v.tiles[i]).x == (#[trigger] v.tiles[j]).x && v.tiles[i].y
                == v.tiles[j].y),
{
    assert forall|x: int, y: int| v.in_range(x, y) implies {
        let i = #[trigger] v.idx(x, y);
        0 <= i < v.tiles.len() && v.tiles[i].x == x && v.tiles[i].y == y
    } by {
        lemma_coord_to_index(v, x, y);
    }
    assert forall|i: int, j: int|
        0 <= i < v.tiles.len() && 0 <= j < v.tiles.len() && i != j implies !((
    #[trigger] v.tiles[i]).x == (#[trigger] v.tiles[j]).x && v.tiles[i].y == v.tiles[j].y) by {
        lemma_index_to_coord(v, i);
        lemma_index_to_coord(v, j);
    }
}

/// How far a coordinate is from the nearer border along one axis.
pub open spec fn margin(c: int, size: int) -> int {
    if c <= size - 1 - c {
        c
    } else {
        size - 1 - c
    }
}

/// A tile whose margin exceeds one on both axes gets all eight adjacent
/// coordinates, in this fixed order: the four sides `+y, -y, +x, -x`, then
/// the four diagonals.  Everything nearer a border gets none; this edge
/// truncation is deliberate.
pub open spec fn spec_neighbors(x: int, y: int, sx: int, sy: int) -> Seq<Coord> {
    if margin(x, sx) > 1 && margin(y, sy) > 1 {
        seq![
            Coord { x: x as usize, y: (y + 1) as usize },
            Coord { x: x as usize, y: (y - 1) as usize },
            Coord { x: (x + 1) as usize, y: y as usize },
            Coord { x: (x - 1) as usize, y: y as usize },
            Coord { x: (x + 1) as usize, y: (y + 1) as usize },
            Coord { x: (x - 1) as usize, y: (y - 1) as usize },
            Coord { x: (x + 1) as usize, y: (y - 1) as usize },
            Coord { x: (x - 1) as usize, y: (y + 1) as usize },
        ]
    } else {
        Seq::empty()
    }
}

/// Neighbor sets are symmetric between any two tiles that both lie farther
/// than one cell from every border: each lists the other exactly when they
/// are distinct and adjacent on both axes.
pub proof fn lemma_neighbors_symmetric(ax: int, ay: int, bx: int, by: int, sx: int, sy: int)
    requires
        sx <= MAX_DIM,
        sy <= MAX_DIM,
        0 <= ax < sx,
        0 <= ay < sy,
        0 <= bx < sx,
        0 <= by < sy,
        margin(ax, sx) > 1 && margin(ay, sy) > 1,
        margin(bx, sx) > 1 && margin(by, sy) > 1,
    ensures
        spec_neighbors(ax, ay, sx, sy).contains(Coord { x: bx as usize, y: by as usize })
            <==> spec_neighbors(bx, by, sx, sy).contains(Coord { x: ax as usize, y: ay as usize }),
{
    let a = Coord { x: ax as usize, y: ay as usize };
    let b = Coord { x: bx as usize, y: by as usize };
    let na = spec_neighbors(ax, ay, sx, sy);
    let nb = spec_neighbors(bx, by, sx, sy);
    if na.contains(b) {
        let k = choose|k: int| 0 <= k < na.len() && na[k] == b;
        assert(nb[flip(k)] == a);
        assert(nb.contains(a));
    }
    if nb.contains(a) {
        let k = choose|k: int| 0 <= k < nb.len() && nb[k] == a;
        assert(na[flip(k)] == b);
        assert(na.contains(b));
    }
}

/// The position of the opposite direction in the fixed neighbor order.
pub open spec fn flip(k: int) -> int {
    if k == 0 {
        1
    } else if k == 1 {
        0
    } else if k == 2 {
        3
    } else if k == 3 {
        2
    } else if k == 4 {
        5
    } else if k == 5 {
        4
    } else if k == 6 {
        7
    } else {
        6
    }
}

/// At the one-cell margin the symmetry deliberately breaks: a tile with
/// margin above one still lists an adjacent tile at or inside the margin,
/// but that tile's own neighbor set is empty.
pub proof fn lemma_neighbor_asymmetry_at_margin(
    ax: int,
    ay: int,
    bx: int,
    by: int,
    sx: int,
    sy: int,
)
    requires
        sx <= MAX_DIM,
        sy <= MAX_DIM,
        0 <= ax < sx,
        0 <= ay < sy,
        0 <= bx < sx,
        0 <= by < sy,
        margin(ax, sx) > 1 && margin(ay, sy) > 1,
        margin(bx, sx) <= 1 || margin(by, sy) <= 1,
        abs_le_one(ax - bx) && abs_le_one(ay - by),
        !(ax == bx && ay == by),
    ensures
        spec_neighbors(ax, ay, sx, sy).contains(Coord { x: bx as usize, y: by as usize }),
        spec_neighbors(bx, by, sx, sy) == Seq::<Coord>::empty(),
{
    let b = Coord { x: bx as usize, y: by as usize };
    let s = spec_neighbors(ax, ay, sx, sy);
    if bx == ax && by == ay + 1 {
        assert(s[0] == b);
    } else if bx == ax && by == ay - 1 {
        assert(s[1] == b);
    } else if bx == ax + 1 && by == ay {
        assert(s[2] == b);
    } else if bx == ax - 1 && by == ay {
        assert(s[3] == b);
    } else if bx == ax + 1 && by == ay + 1 {
        assert(s[4] == b);
    } else if bx == ax - 1 && by == ay - 1 {
        assert(s[5] == b);
    } else if bx == ax + 1 && by == ay - 1 {
        assert(s[6] == b);
    } else {
        assert(s[7] == b);
    }
}

pub open spec fn abs_le_one(d: int) -> bool {
    -1 <= d <= 1
}

/// The persistent grid.  Metadata (the dimensions and the biome's default
/// floor and wall types) lives beside the tile mapping, not inside it.
#[derive(Clone, Debug, PartialEq)]
pub struct Grid {
    pub size_x: usize,
    pub size_y: usize,
    pub tiles: Vec<Tile>,
    pub default_floor: TileKind,
    pub default_wall: TileKind,
}

impl View for Grid {
    type V = GridV;

    open spec fn view(&self) -> GridV {
        GridV {
            size_x: self.size_x as int,
            size_y: self.size_y as int,
            tiles: self.tiles@.map_values(|t: Tile| t@),
            default_floor: self.default_floor,
            default_wall: self.default_wall,
        }
    }
}

impl Grid {
    /// A fresh grid of the given size: every tile is a bare floor with no
    /// neighbors, and the metadata holds the neutral defaults.
    pub fn empty_tileset(size_x: usize, size_y: usize) -> (g: Grid)
        requires
            1 <= size_x <= MAX_DIM,
            1 <= size_y <= MAX_DIM,
        ensures
            wf(g@),
            g@.size_x == size_x,
            g@.size_y == size_y,
            g@.default_floor == TileKind::Floor,
            g@.default_wall == TileKind::Wall,
            forall|i: int|
                0 <= i < g@.tiles.len() ==> (#[trigger] g@.tiles[i]).kind == TileKind::Floor
                    && g@.tiles[i].neighbors == Seq::<Coord>::empty(),
    {
        proof {
            assert(size_x * size_y <= MAX_DIM * MAX_DIM) by (nonlinear_arith)
                requires
                    1 <= size_x <= MAX_DIM,
                    1 <= size_y <= MAX_DIM,
            ;
        }
        let total = size_x * size_y;
        let mut tiles: Vec<Tile> = Vec::new();
        let mut i: usize = 0;
        while i < total
            invariant
                i <= total,
                total == size_x * size_y,
                1 <= size_x <= MAX_DIM,
                1 <= size_y <= MAX_DIM,
                tiles@.len() == i,
                forall|k: int|
                    0 <= k < i ==> {
                        let t = (#[trigger] tiles@[k])@;
                        t.x == k % (size_x as int) && t.y == k / (size_x as int) && t.kind
                            == TileKind::Floor && t.neighbors == Seq::<Coord>::empty()
                    },
            decreases total - i,
        {
            let t = Tile::new(i % size_x, i / size_x, TileKind::Floor, Vec::new());
            tiles.push(t);
            i = i + 1;
        }
        let g = Grid {
            size_x,
            size_y,
            tiles,
            default_floor: TileKind::Floor,
            default_wall: TileKind::Wall,
        };
        g
    }

    /// The tile at an in-range coordinate.
    pub fn tile_at(&self, x: usize, y: usize) -> (t: &Tile)
        requires
            wf(self@),
            self@.in_range(x as int, y as int),
        ensures
            t@ == self@.tiles[self@.idx(x as int, y as int)],
            t@.x == x,
            t@.y == y,
    {
        proof {
            lemma_coord_to_index(self@, x as int, y as int);
            assert((y as int) * (self@.size_x) + (x as int) < MAX_DIM * MAX_DIM) by (
            nonlinear_arith)
                requires
                    0 <= (y as int) < self@.size_y <= MAX_DIM,
                    0 <= (x as int) < self@.size_x <= MAX_DIM,
            ;
            assert((y as int) * (self@.size_x) + (x as int) < self.tiles@.len());
        }
        &self.tiles[y * self.size_x + x]
    }

    /// Rebuilds every neighbor list from the grid's dimensions: eight
    /// entries for tiles farther than one cell from every border, none for
    /// the rest.  Coordinates and types pass through unchanged.
    pub fn update_all_neighbors(&self) -> (g: Grid)
        requires
            wf(self@),
        ensures
            wf(g@),
            g@.size_x == self@.size_x,
            g@.size_y == self@.size_y,
            g@.default_floor == self@.default_floor,
            g@.default_wall == self@.default_wall,
            g@.tiles.len() == self@.tiles.len(),
            forall|i: int|
                0 <= i < g@.tiles.len() ==> {
                    let t = #[trigger] g@.tiles[i];
                    let s = self@.tiles[i];
                    t.x == s.x && t.y == s.y && t.kind == s.kind && t.neighbors == spec_neighbors(
                        s.x,
                        s.y,
                        self@.size_x,
                        self@.size_y,
                    )
                },
    {
        let sx = self.size_x;
        let sy = self.size_y;
        let n = self.tiles.len();
        let mut tiles: Vec<Tile> = Vec::new();
        let mut i: usize = 0;
        while i < n
            invariant
                i <= n,
                n == self@.tiles.len(),
                wf(self@),
                sx == self@.size_x,
                sy == self@.size_y,
                tiles@.len() == i,
                forall|k: int|
                    0 <= k < i ==> {
                        let t = (#[trigger] tiles@[k])@;
                        let s = self@.tiles[k];
                        t.x == s.x && t.y == s.y && t.kind == s.kind && t.neighbors
                            == spec_neighbors(s.x, s.y, self@.size_x, self@.size_y)
                    },
            decreases n - i,
        {
            let tile = &self.tiles[i];
            let x = tile.x;
            let y = tile.y;
            proof {
                lemma_index_to_coord(self@, i as int);
            }
            let mut neighbors: Vec<Coord> = Vec::new();
            if x >= 2 && y >= 2 && x + 3 <= sx && y + 3 <= sy {
                neighbors.push(Coord { x, y: y + 1 });
                neighbors.push(Coord { x, y: y - 1 });
                neighbors.push(Coord { x: x + 1, y });
                neighbors.push(Coord { x: x - 1, y });
                neighbors.push(Coord { x: x + 1, y: y + 1 });
                neighbors.push(Coord { x: x - 1, y: y - 1 });
                neighbors.push(Coord { x: x + 1, y: y - 1 });
                neighbors.push(Coord { x: x - 1, y: y + 1 });
                assert(neighbors@ =~= spec_neighbors(x as int, y as int, sx as int, sy as int));
            } else {
                assert(neighbors@ =~= spec_neighbors(x as int, y as int, sx as int, sy as int));
            }
            tiles.push(Tile::new(x, y, tile.kind, neighbors));
            i = i + 1;
        }
        let g = Grid {
            size_x: sx,
            size_y: sy,
            tiles,
            default_floor: self.default_floor,
            default_wall: self.default_wall,
        };
        proof {
            assert forall|i2: int, j: int|
                0 <= i2 < g@.tiles.len() && 0 <= j < g@.tiles[i2].neighbors.len() implies g
                @.contains_coord(#[trigger] g@.tiles[i2].neighbors[j]) by {
                lemma_index_to_coord(self@, i2);
            }
        }
        g
    }
}

} // verus!
