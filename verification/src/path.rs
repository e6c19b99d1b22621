//! The pathfinder: an A*-style search over the tile graph with a pluggable
//! walkability policy.
//!
//! A per-call overlay of `PathTile` records carries the search state; it is
//! built fresh for each query and discarded afterwards.  Ties in the
//! open-set minimum are broken deterministically: the earliest entry of the
//! open list wins.  The heuristic is the squared Euclidean distance to
//! the goal — a deliberate design choice, though it is not admissible for
//! the Manhattan step cost, so found paths need not be shortest.

use vstd::prelude::*;
use vstd::pervasive::VecAdditionalExecFns;
use vstd::string::StringSliceAdditionalSpecFns;
use crate::grid::Grid;
use crate::grid::GridV;
use crate::grid::lemma_coord_to_index;
use crate::grid::lemma_index_to_coord;
use crate::grid::wf;
use crate::tile::Coord;
use crate::tile::MAX_DIM;
use crate::tile::Tile;
use crate::tile::TileKind;
use crate::tile::copy_coords;
use crate::tile::spec_manhattan;
use crate::tile::spec_sq_dist;
use crate::passes::tile_retyped;

verus! {

/// Which tile types one search may traverse.
#[derive(Clone, Copy, Debug, PartialEq, Eq, Structural)]
pub struct Walkability {
    pub floor: bool,
    pub wall: bool,
    pub water: bool,
    pub sand: bool,
    pub tree: bool,
    pub road: bool,
    pub exit: bool,
    pub spawn: bool,
}

impl Walkability {
    pub open spec fn spec_allows(self, k: TileKind) -> bool {
        match k {
            TileKind::Floor => self.floor,
            TileKind::Wall => self.wall,
            TileKind::Water => self.water,
            TileKind::Sand => self.sand,
            TileKind::Tree => self.tree,
            TileKind::Road => self.road,
            TileKind::Exit => self.exit,
            TileKind::Spawn => self.spawn,
        }
    }

    pub fn allows(&self, k: TileKind) -> (r: bool)
        ensures
            r == self.spec_allows(k),
    {
        match k {
            TileKind::Floor => self.floor,
            TileKind::Wall => self.wall,
            TileKind::Water => self.water,
            TileKind::Sand => self.sand,
            TileKind::Tree => self.tree,
            TileKind::Road => self.road,
            TileKind::Exit => self.exit,
            TileKind::Spawn => self.spawn,
        }
    }

    /// The default policy: everything is walkable.
    pub fn all() -> (w: Walkability)
        ensures
            forall|k: TileKind| w.spec_allows(k),
            w == all_walkable(),
    {
        Walkability {
            floor: true,
            wall: true,
            water: true,
            sand: true,
            tree: true,
            road: true,
            exit: true,
            spawn: true,
        }
    }
}

/// Search state of one tile during a query.
#[derive(Clone, Copy, Debug, PartialEq, Eq, Structural)]
pub enum NodeState {
    Unvisited,
    Open,
    Closed,
}

/// The per-query overlay record of one tile: its coordinate, the three
/// A* costs, the parent it was best reached from, its 4-directional
/// neighbors, and where it stands in the search.
#[derive(Clone, Debug)]
pub struct PathTile {
    pub x: usize,
    pub y: usize,
    pub g: usize,
    pub h: usize,
    pub f: usize,
    pub parent: Coord,
    pub neighbors: Vec<Coord>,
    pub state: NodeState,
}

/// The 4-directional, bounds-checked neighbor keys of `(x, y)`, in the
/// fixed order right, left, down, up.
pub open spec fn spec_path_neighbors(x: int, y: int, sx: int, sy: int) -> Seq<Coord> {
    (if x + 1 < sx {
        seq![Coord { x: (x + 1) as usize, y: y as usize }]
    } else {
        Seq::empty()
    }) + (if x >= 1 {
        seq![Coord { x: (x - 1) as usize, y: y as usize }]
    } else {
        Seq::empty()
    }) + (if y + 1 < sy {
        seq![Coord { x: x as usize, y: (y + 1) as usize }]
    } else {
        Seq::empty()
    }) + (if y >= 1 {
        seq![Coord { x: x as usize, y: (y - 1) as usize }]
    } else {
        Seq::empty()
    })
}

/// Two coordinates one orthogonal step apart.
pub open spec fn adjacent(a: Coord, b: Coord) -> bool {
    spec_manhattan(a.x as int, a.y as int, b.x as int, b.y as int) == 1
}

/// Every listed path neighbor is in range, one step away, and distinct
/// from the tile itself.
pub proof fn lemma_path_neighbors_sound(x: int, y: int, sx: int, sy: int)
    requires
        0 <= x < sx <= MAX_DIM,
        0 <= y < sy <= MAX_DIM,
    ensures
        forall|k: int|
            0 <= k < spec_path_neighbors(x, y, sx, sy).len() ==> {
                let c = #[trigger] spec_path_neighbors(x, y, sx, sy)[k];
                0 <= c.x < sx && 0 <= c.y < sy && adjacent(Coord { x: x as usize, y: y as usize }, c)
            },
{
}

/// Every in-range coordinate one step away is listed.
pub proof fn lemma_path_neighbors_complete(x: int, y: int, sx: int, sy: int, b: Coord)
    requires
        0 <= x < sx <= MAX_DIM,
        0 <= y < sy <= MAX_DIM,
        0 <= b.x < sx,
        0 <= b.y < sy,
        adjacent(Coord { x: x as usize, y: y as usize }, b),
    ensures
        spec_path_neighbors(x, y, sx, sy).contains(b),
{
    let s = spec_path_neighbors(x, y, sx, sy);
    let r: int = if x + 1 < sx {
        1
    } else {
        0
    };
    let l: int = if x >= 1 {
        1
    } else {
        0
    };
    let d: int = if y + 1 < sy {
        1
    } else {
        0
    };
    if b.x == x + 1 && b.y == y {
        assert(s[0] == b);
    } else if b.x == x - 1 && b.y == y {
        assert(s[r] == b);
    } else if b.x == x && b.y == y + 1 {
        assert(s[r + l] == b);
    } else {
        assert(b.x == x && b.y == y - 1);
        assert(s[r + l + d] == b);
    }
}

impl PathTile {
    /// A fresh, unvisited overlay record for the tile at `(x, y)`.
    pub fn new(x: usize, y: usize, map_size_x: usize, map_size_y: usize) -> (t: PathTile)
        requires
            x < map_size_x,
            y < map_size_y,
        ensures
            t.x == x,
            t.y == y,
            t.g == 0,
            t.h == 0,
            t.f == 0,
            t.parent == (Coord { x, y }),
            t.state == NodeState::Unvisited,
            t.neighbors@ == spec_path_neighbors(
                x as int,
                y as int,
                map_size_x as int,
                map_size_y as int,
            ),
    {
        PathTile {
            x,
            y,
            g: 0,
            h: 0,
            f: 0,
            parent: Coord { x, y },
            neighbors: PathTile::get_neighbors(x, y, map_size_x, map_size_y),
            state: NodeState::Unvisited,
        }
    }

    /// The bounds-checked 4-directional neighbor keys of `(x, y)`.
    pub fn get_neighbors(x: usize, y: usize, map_size_x: usize, map_size_y: usize) -> (r: Vec<
        Coord,
    >)
        requires
            x < map_size_x,
            y < map_size_y,
        ensures
            r@ == spec_path_neighbors(x as int, y as int, map_size_x as int, map_size_y as int),
    {
        let mut neighbors: Vec<Coord> = Vec::new();
        if x + 1 < map_size_x {
            neighbors.push(Coord { x: x + 1, y });
        }
        if x >= 1 {
            neighbors.push(Coord { x: x - 1, y });
        }
        if y + 1 < map_size_y {
            neighbors.push(Coord { x, y: y + 1 });
        }
        if y >= 1 {
            neighbors.push(Coord { x, y: y - 1 });
        }
        assert(neighbors@ =~= spec_path_neighbors(
            x as int,
            y as int,
            map_size_x as int,
            map_size_y as int,
        ));
        neighbors
    }

    /// The same record with fresh costs and parent.
    pub fn tile_update(&self, g: usize, h: usize, f: usize, parent: Coord) -> (t: PathTile)
        ensures
            t.x == self.x,
            t.y == self.y,
            t.g == g,
            t.h == h,
            t.f == f,
            t.parent == parent,
            t.state == self.state,
            t.neighbors@ == self.neighbors@,
    {
        PathTile {
            x: self.x,
            y: self.y,
            g,
            h,
            f,
            parent,
            neighbors: copy_coords(&self.neighbors),
            state: self.state,
        }
    }

    /// The record's canonical storage key, `"{x}x{y}"`.
    pub fn get_tile_key(&self) -> (s: String)
        ensures
            s@ == crate::wire::key_chars(self.x as nat, self.y as nat),
    {
        crate::wire::coord_key_string(self.x, self.y)
    }

    /// The same record with another parent.
    pub fn change_parent(&self, parent: Coord) -> (t: PathTile)
        ensures
            t.x == self.x,
            t.y == self.y,
            t.g == self.g,
            t.h == self.h,
            t.f == self.f,
            t.parent == parent,
            t.state == self.state,
            t.neighbors@ == self.neighbors@,
    {
        PathTile {
            x: self.x,
            y: self.y,
            g: self.g,
            h: self.h,
            f: self.f,
            parent,
            neighbors: copy_coords(&self.neighbors),
            state: self.state,
        }
    }
}

/// The per-query search overlay: one `PathTile` per grid tile, row-major.
pub struct PathMap {
    pub size_x: usize,
    pub size_y: usize,
    pub path_tiles: Vec<PathTile>,
}

/// The overlay mirrors the grid: one fresh record per tile, at the tile's
/// row-major position, with the 4-directional neighbor keys, zeroed
/// costs, and itself as the parent sentinel.
pub open spec fn pm_fresh(pm: PathMap, v: GridV) -> bool {
    &&& pm.size_x as int == v.size_x
    &&& pm.size_y as int == v.size_y
    &&& pm.path_tiles@.len() == v.tiles.len()
    &&& forall|i: int|
        0 <= i < pm.path_tiles@.len() ==> {
            let t = #[trigger] pm.path_tiles@[i];
            t.x == v.tiles[i].x && t.y == v.tiles[i].y && t.state == NodeState::Unvisited && t.g
                == 0 && t.h == 0 && t.f == 0 && t.parent == (Coord { x: t.x, y: t.y })
                && t.neighbors@ == spec_path_neighbors(t.x as int, t.y as int, v.size_x, v.size_y)
        }
}

impl PathMap {
    /// Builds the overlay for one query: a fresh record per grid tile.
    pub fn new(map_size_x: usize, map_size_y: usize, tileset: &Grid) -> (pm: PathMap)
        requires
            wf(tileset@),
            map_size_x == tileset.size_x,
            map_size_y == tileset.size_y,
        ensures
            pm_fresh(pm, tileset@),
    {
        let n = tileset.tiles.len();
        let mut path_tiles: Vec<PathTile> = Vec::new();
        let mut i: usize = 0;
        while i < n
            invariant
                i <= n,
                n == tileset@.tiles.len(),
                wf(tileset@),
                map_size_x == tileset@.size_x,
                map_size_y == tileset@.size_y,
                path_tiles@.len() == i,
                forall|k: int|
                    0 <= k < i ==> {
                        let t = #[trigger] path_tiles@[k];
                        t.x == tileset@.tiles[k].x && t.y == tileset@.tiles[k].y && t.state
                            == NodeState::Unvisited && t.g == 0 && t.h == 0 && t.f == 0
                            && t.parent == (Coord { x: t.x, y: t.y }) && t.neighbors@
                            == spec_path_neighbors(
                            t.x as int,
                            t.y as int,
                            tileset@.size_x,
                            tileset@.size_y,
                        )
                    },
            decreases n - i,
        {
            let tile = &tileset.tiles[i];
            proof {
                lemma_index_to_coord(tileset@, i as int);
            }
            let t = PathTile::new(tile.x, tile.y, map_size_x, map_size_y);
            path_tiles.push(t);
            i = i + 1;
        }
        PathMap { size_x: map_size_x, size_y: map_size_y, path_tiles }
    }
}

/// A walk through the grid: it starts at `s`, ends at `t`, and every later
/// step is in range, orthogonally adjacent to its predecessor, and
/// walkable.  The starting tile itself need not be walkable.
pub open spec fn valid_walk(v: GridV, w: Walkability, s: Coord, t: Coord, p: Seq<Coord>) -> bool {
    &&& p.len() >= 1
    &&& p[0] == s
    &&& p.last() == t
    &&& forall|i: int| 0 <= i < p.len() ==> v.contains_coord(#[trigger] p[i])
    &&& forall|i: int|
        1 <= i < p.len() ==> adjacent(p[i - 1], #[trigger] p[i]) && w.spec_allows(
            v.kind_at(p[i].x as int, p[i].y as int),
        )
}

/// Whether any walkable route joins `s` to `t`.
pub open spec fn connected(v: GridV, w: Walkability, s: Coord, t: Coord) -> bool {
    exists|p: Seq<Coord>| valid_walk(v, w, s, t, p)
}

pub open spec fn closed_val(t: PathTile) -> int {
    if t.state == NodeState::Closed {
        1int
    } else {
        0int
    }
}

/// How many of the first `n` overlay records are closed.
pub open spec fn count_closed_upto(s: Seq<PathTile>, n: int) -> int
    decreases n,
{
    if n <= 0 {
        0
    } else {
        count_closed_upto(s, n - 1) + closed_val(s[n - 1])
    }
}

pub open spec fn count_closed(s: Seq<PathTile>) -> int {
    count_closed_upto(s, s.len() as int)
}

pub proof fn lemma_count_upto_bound(s: Seq<PathTile>, n: int)
    requires
        0 <= n <= s.len(),
    ensures
        0 <= count_closed_upto(s, n) <= n,
    decreases n,
{
    if n > 0 {
        lemma_count_upto_bound(s, n - 1);
    }
}

pub proof fn lemma_count_upto_update(s: Seq<PathTile>, i: int, t: PathTile, n: int)
    requires
        0 <= i < s.len(),
        0 <= n <= s.len(),
    ensures
        count_closed_upto(s.update(i, t), n) == count_closed_upto(s, n) + if i < n {
            closed_val(t) - closed_val(s[i])
        } else {
            0int
        },
    decreases n,
{
    if n > 0 {
        lemma_count_upto_update(s, i, t, n - 1);
    }
}

/// Replacing one record changes the closed count by the records' difference.
pub proof fn lemma_count_closed_update(s: Seq<PathTile>, i: int, t: PathTile)
    requires
        0 <= i < s.len(),
    ensures
        count_closed(s.update(i, t)) == count_closed(s) + closed_val(t) - closed_val(s[i]),
{
    lemma_count_upto_update(s, i, t, s.len() as int);
}

/// With one record not closed, the closed count stays below the length.
pub proof fn lemma_count_missing(s: Seq<PathTile>, i: int, n: int)
    requires
        0 <= i < n <= s.len(),
        s[i].state != NodeState::Closed,
    ensures
        count_closed_upto(s, n) <= n - 1,
    decreases n,
{
    if i == n - 1 {
        lemma_count_upto_bound(s, n - 1);
    } else {
        lemma_count_missing(s, i, n - 1);
    }
}

pub open spec fn coord_of(t: PathTile) -> Coord {
    Coord { x: t.x, y: t.y }
}

/// The overlay records mirror the grid's coordinates and carry the
/// 4-directional neighbor keys.
pub open spec fn nodes_shape(v: GridV, nodes: Seq<PathTile>) -> bool {
    &&& nodes.len() == v.tiles.len()
    &&& forall|i: int|
        0 <= i < nodes.len() ==> (#[trigger] nodes[i]).x == v.tiles[i].x && nodes[i].y
            == v.tiles[i].y && nodes[i].neighbors@ == spec_path_neighbors(
            v.tiles[i].x,
            v.tiles[i].y,
            v.size_x,
            v.size_y,
        )
}
/// The per-record parent clause: a visited record other than the start
/// remembers an in-range, closed, adjacent parent one step cheaper, and
/// its own tile is walkable.
pub open spec fn parent_ok(
    v: GridV,
    w: Walkability,
    start: Coord,
    nodes: Seq<PathTile>,
    i: int,
) -> bool {
    (nodes[i].state != NodeState::Unvisited && coord_of(nodes[i]) != start) ==> {
        let p = nodes[i].parent;
        &&& v.contains_coord(p)
        &&& adjacent(p, coord_of(nodes[i]))
        &&& w.spec_allows(v.kind_at(nodes[i].x as int, nodes[i].y as int))
        &&& nodes[v.idx(p.x as int, p.y as int)].state == NodeState::Closed
        &&& nodes[i].g == nodes[v.idx(p.x as int, p.y as int)].g + 1
    }
}

/// The per-record cost clause: the g-cost of a visited record never
/// exceeds the closed count, strictly so for a closed record.
pub open spec fn cost_ok(nodes: Seq<PathTile>, i: int) -> bool {
    &&& (nodes[i].state != NodeState::Unvisited ==> nodes[i].g <= count_closed(nodes))
    &&& (nodes[i].state == NodeState::Closed ==> nodes[i].g + 1 <= count_closed(nodes))
}

/// The search invariant over the overlay: the records mirror the grid, the
/// start is visited at cost zero, and every record satisfies the parent
/// and cost clauses.
pub open spec fn search_inv(
    v: GridV,
    w: Walkability,
    start: Coord,
    nodes: Seq<PathTile>,
) -> bool {
    &&& nodes_shape(v, nodes)
    &&& v.contains_coord(start)
    &&& nodes[v.idx(start.x as int, start.y as int)].state != NodeState::Unvisited
    &&& nodes[v.idx(start.x as int, start.y as int)].g == 0
    &&& forall|i: int| 0 <= i < nodes.len() ==> #[trigger] parent_ok(v, w, start, nodes, i)
    &&& forall|i: int| 0 <= i < nodes.len() ==> #[trigger] cost_ok(nodes, i)
}

/// The per-record frontier clause: every walkable neighbor of a closed
/// record has been seen.
pub open spec fn frontier_ok(v: GridV, w: Walkability, nodes: Seq<PathTile>, i: int) -> bool {
    nodes[i].state == NodeState::Closed ==> forall|j: int|
        0 <= j < nodes[i].neighbors@.len() && w.spec_allows(
            v.kind_at(
                (#[trigger] nodes[i].neighbors@[j]).x as int,
                nodes[i].neighbors@[j].y as int,
            ),
        ) ==> nodes[v.idx(nodes[i].neighbors@[j].x as int, nodes[i].neighbors@[j].y as int)].state
            != NodeState::Unvisited
}

/// The closed set's walkable frontier lies entirely in the seen set.
pub open spec fn frontier_inv(v: GridV, w: Walkability, nodes: Seq<PathTile>) -> bool {
    forall|i: int| 0 <= i < nodes.len() ==> #[trigger] frontier_ok(v, w, nodes, i)
}

/// Whether index `i` occurs in the open list.
pub open spec fn in_open(open: Seq<usize>, i: int) -> bool {
    exists|k: int| 0 <= k < open.len() && open[k] == i
}

/// The open list holds exactly the open records, each once.
pub open spec fn open_list_inv(nodes: Seq<PathTile>, open: Seq<usize>) -> bool {
    &&& forall|k: int|
        0 <= k < open.len() ==> (#[trigger] open[k]) < nodes.len() && nodes[open[k] as int].state
            == NodeState::Open
    &&& forall|i: int|
        0 <= i < nodes.len() && (#[trigger] nodes[i]).state == NodeState::Open ==> in_open(open, i)
    &&& forall|k1: int, k2: int|
        0 <= k1 < open.len() && 0 <= k2 < open.len() && open[k1] == open[k2] ==> k1 == k2
}

/// Row-major index of an in-range coordinate, as the overlay and the grid
/// both use it.
fn coord_index(tileset: &Grid, c: Coord) -> (i: usize)
    requires
        wf(tileset@),
        tileset@.contains_coord(c),
    ensures
        i as int == tileset@.idx(c.x as int, c.y as int),
        i < tileset@.tiles.len(),
{
    proof {
        lemma_coord_to_index(tileset@, c.x as int, c.y as int);
        assert((c.y as int) * (tileset@.size_x) + (c.x as int) < MAX_DIM * MAX_DIM) by (
        nonlinear_arith)
            requires
                0 <= (c.y as int) < tileset@.size_y <= MAX_DIM,
                0 <= (c.x as int) < tileset@.size_x <= MAX_DIM,
        ;
    }
    c.y * tileset.size_x + c.x
}

/// Squared Euclidean distance between two coordinates.
fn sq_dist_exec(a: Coord, b: Coord) -> (d: usize)
    requires
        a.x <= MAX_DIM,
        a.y <= MAX_DIM,
        b.x <= MAX_DIM,
        b.y <= MAX_DIM,
    ensures
        d == spec_sq_dist(a.x as int, a.y as int, b.x as int, b.y as int),
        d <= 2 * MAX_DIM * MAX_DIM,
{
    let dx = if a.x >= b.x {
        a.x - b.x
    } else {
        b.x - a.x
    };
    let dy = if a.y >= b.y {
        a.y - b.y
    } else {
        b.y - a.y
    };
    assert(dx * dx <= MAX_DIM * MAX_DIM && dy * dy <= MAX_DIM * MAX_DIM) by (nonlinear_arith)
        requires
            0 <= dx <= MAX_DIM,
            0 <= dy <= MAX_DIM,
    ;
    dx * dx + dy * dy
}

/// Every record of a fresh overlay is unvisited, so none is closed.
proof fn lemma_count_all_zero(s: Seq<PathTile>, n: int)
    requires
        0 <= n <= s.len(),
        forall|i: int| 0 <= i < s.len() ==> closed_val(#[trigger] s[i]) == 0,
    ensures
        count_closed_upto(s, n) == 0,
    decreases n,
{
    if n > 0 {
        lemma_count_all_zero(s, n - 1);
    }
}
/// Any walk out of the start stays inside the closed set once the open set
/// has drained: each step leaves a closed record only for another one.
proof fn lemma_walk_stays_closed(
    v: GridV,
    w: Walkability,
    start: Coord,
    t: Coord,
    nodes: Seq<PathTile>,
    p: Seq<Coord>,
    k: int,
)
    requires
        wf(v),
        search_inv(v, w, start, nodes),
        frontier_inv(v, w, nodes),
        forall|i: int| 0 <= i < nodes.len() ==> (#[trigger] nodes[i]).state != NodeState::Open,
        valid_walk(v, w, start, t, p),
        0 <= k < p.len(),
    ensures
        nodes[v.idx(p[k].x as int, p[k].y as int)].state == NodeState::Closed,
    decreases k,
{
    let si = v.idx(start.x as int, start.y as int);
    lemma_coord_to_index(v, start.x as int, start.y as int);
    if k == 0 {
        assert(nodes[si].state != NodeState::Unvisited && nodes[si].state != NodeState::Open);
    } else {
        lemma_walk_stays_closed(v, w, start, t, nodes, p, k - 1);
        let a = p[k - 1];
        let b = p[k];
        let ai = v.idx(a.x as int, a.y as int);
        let bi = v.idx(b.x as int, b.y as int);
        lemma_coord_to_index(v, a.x as int, a.y as int);
        lemma_coord_to_index(v, b.x as int, b.y as int);
        lemma_path_neighbors_complete(a.x as int, a.y as int, v.size_x, v.size_y, b);
        assert(nodes[ai].neighbors@ == spec_path_neighbors(
            a.x as int,
            a.y as int,
            v.size_x,
            v.size_y,
        ));
        let j = choose|j: int| 0 <= j < nodes[ai].neighbors@.len() && nodes[ai].neighbors@[j] == b;
        assert(frontier_ok(v, w, nodes, ai));
        assert(w.spec_allows(
            v.kind_at(nodes[ai].neighbors@[j].x as int, nodes[ai].neighbors@[j].y as int),
        ));
        assert(nodes[bi].state != NodeState::Unvisited);
    }
}

/// Moves one open record into the closed set, keeping the search invariant
/// and raising the closed count by one.
fn close_node(
    nodes: &mut Vec<PathTile>,
    cur: usize,
    walk: Walkability,
    start: Coord,
    Ghost(v): Ghost<GridV>,
)
    requires
        wf(v),
        search_inv(v, walk, start, old(nodes)@),
        cur < old(nodes)@.len(),
        old(nodes)@[cur as int].state == NodeState::Open,
    ensures
        final(nodes)@.len() == old(nodes)@.len(),
        forall|i: int|
            0 <= i < old(nodes)@.len() && i != cur as int ==> final(nodes)@[i] == old(nodes)@[i],
        final(nodes)@[cur as int].x == old(nodes)@[cur as int].x,
        final(nodes)@[cur as int].y == old(nodes)@[cur as int].y,
        final(nodes)@[cur as int].g == old(nodes)@[cur as int].g,
        final(nodes)@[cur as int].neighbors@ == old(nodes)@[cur as int].neighbors@,
        final(nodes)@[cur as int].state == NodeState::Closed,
        search_inv(v, walk, start, final(nodes)@),
        count_closed(final(nodes)@) == count_closed(old(nodes)@) + 1,
        forall|i: int|
            0 <= i < old(nodes)@.len() && i != cur as int && frontier_ok(v, walk, old(nodes)@, i)
                ==> frontier_ok(v, walk, final(nodes)@, i),
{
    let ghost before = nodes@;
    let cx = nodes[cur].x;
    let cy = nodes[cur].y;
    let closed_node = PathTile {
        x: cx,
        y: cy,
        g: nodes[cur].g,
        h: nodes[cur].h,
        f: nodes[cur].f,
        parent: nodes[cur].parent,
        neighbors: copy_coords(&nodes[cur].neighbors),
        state: NodeState::Closed,
    };
    proof {
        lemma_count_closed_update(nodes@, cur as int, closed_node);
    }
    nodes.set(cur, closed_node);
    proof {
        assert forall|i: int| 0 <= i < nodes@.len() implies #[trigger] parent_ok(
            v,
            walk,
            start,
            nodes@,
            i,
        ) by {
            assert(parent_ok(v, walk, start, before, i));
            if nodes@[i].state != NodeState::Unvisited && coord_of(nodes@[i]) != start {
                let p = nodes@[i].parent;
                if i == cur as int {
                    assert(v.contains_coord(p));
                    lemma_coord_to_index(v, p.x as int, p.y as int);
                    assert(before[v.idx(p.x as int, p.y as int)].state == NodeState::Closed);
                    assert(v.idx(p.x as int, p.y as int) != cur as int);
                } else {
                    assert(nodes@[i] == before[i]);
                    assert(v.contains_coord(p));
                    lemma_coord_to_index(v, p.x as int, p.y as int);
                    assert(before[v.idx(p.x as int, p.y as int)].state == NodeState::Closed);
                    assert(v.idx(p.x as int, p.y as int) != cur as int);
                }
            }
        }
        assert(cost_ok(before, cur as int));
        assert forall|i: int| 0 <= i < nodes@.len() implies #[trigger] cost_ok(nodes@, i) by {
            assert(cost_ok(before, i));
            if i != cur as int {
                assert(nodes@[i] == before[i]);
            }
        }
        assert forall|i: int| 0 <= i < nodes@.len() implies (#[trigger] nodes@[i]).x
            == v.tiles[i].x && nodes@[i].y == v.tiles[i].y && nodes@[i].neighbors@
            == spec_path_neighbors(v.tiles[i].x, v.tiles[i].y, v.size_x, v.size_y) by {
            if i != cur as int {
                assert(nodes@[i] == before[i]);
            }
        }
        assert forall|i: int|
            0 <= i < before.len() && i != cur as int && frontier_ok(
                v,
                walk,
                before,
                i,
            ) implies frontier_ok(v, walk, nodes@, i) by {
            assert(nodes@[i] == before[i]);
            if nodes@[i].state == NodeState::Closed {
                assert forall|j: int|
                    0 <= j < nodes@[i].neighbors@.len() && walk.spec_allows(
                        v.kind_at(
                            (#[trigger] nodes@[i].neighbors@[j]).x as int,
                            nodes@[i].neighbors@[j].y as int,
                        ),
                    ) implies nodes@[v.idx(
                    nodes@[i].neighbors@[j].x as int,
                    nodes@[i].neighbors@[j].y as int,
                )].state != NodeState::Unvisited by {
                    let c2 = nodes@[i].neighbors@[j];
                    lemma_index_to_coord(v, i);
                    lemma_path_neighbors_sound(v.tiles[i].x, v.tiles[i].y, v.size_x, v.size_y);
                    lemma_coord_to_index(v, c2.x as int, c2.y as int);
                    let t = v.idx(c2.x as int, c2.y as int);
                    assert(before[t].state != NodeState::Unvisited);
                    if t != cur as int {
                        assert(nodes@[t] == before[t]);
                    }
                }
            }
        }
        let si = v.idx(start.x as int, start.y as int);
        lemma_coord_to_index(v, start.x as int, start.y as int);
        if si != cur as int {
            assert(nodes@[si] == before[si]);
        }
        assert(nodes@[si].state != NodeState::Unvisited && nodes@[si].g == 0);
        assert(search_inv(v, walk, start, nodes@));
    }
}

/// Relaxes one neighbor `c` of the just-closed record `cur`: a first visit
/// opens it with its costs and parent; a cheaper route to an already-open
/// record re-parents it; anything else is left alone.  Record states only
/// ever move forward, and the closed count does not change.
fn relax_neighbor(
    nodes: &mut Vec<PathTile>,
    open_list: &mut Vec<usize>,
    tileset: &Grid,
    walk: Walkability,
    start: Coord,
    goal: Coord,
    cur: usize,
    c: Coord,
)
    requires
        wf(tileset@),
        tileset@.contains_coord(c),
        tileset@.contains_coord(goal),
        tileset@.contains_coord(start),
        search_inv(tileset@, walk, start, old(nodes)@),
        open_list_inv(old(nodes)@, old(open_list)@),
        cur < old(nodes)@.len(),
        old(nodes)@[cur as int].state == NodeState::Closed,
        adjacent(coord_of(old(nodes)@[cur as int]), c),
        old(nodes)@[cur as int].g + 1 <= count_closed(old(nodes)@),
    ensures
        final(nodes)@.len() == old(nodes)@.len(),
        forall|i: int|
            0 <= i < old(nodes)@.len() && i != tileset@.idx(c.x as int, c.y as int)
                ==> final(nodes)@[i] == old(nodes)@[i],
        forall|i: int|
            0 <= i < old(nodes)@.len() ==> ((#[trigger] final(nodes)@[i]).state
                == old(nodes)@[i].state || (old(nodes)@[i].state == NodeState::Unvisited
                && final(nodes)@[i].state == NodeState::Open)),
        walk.spec_allows(tileset@.kind_at(c.x as int, c.y as int)) ==> final(nodes)@[tileset@.idx(
            c.x as int,
            c.y as int,
        )].state != NodeState::Unvisited,
        search_inv(tileset@, walk, start, final(nodes)@),
        open_list_inv(final(nodes)@, final(open_list)@),
        count_closed(final(nodes)@) == count_closed(old(nodes)@),
        forall|i: int|
            0 <= i < old(nodes)@.len() && frontier_ok(v_of(tileset), walk, old(nodes)@, i)
                ==> frontier_ok(v_of(tileset), walk, final(nodes)@, i),
{
    let ghost v = tileset@;
    let ni = coord_index(tileset, c);
    proof {
        lemma_coord_to_index(v, c.x as int, c.y as int);
        lemma_coord_to_index(v, start.x as int, start.y as int);
    }
    let kind = tileset.tile_at(c.x, c.y).kind;
    let cg = nodes[cur].g;
    let cx = nodes[cur].x;
    let cy = nodes[cur].y;
    let ghost before = nodes@;
    if walk.allows(kind) {
        let state = nodes[ni].state;
        match state {
            NodeState::Unvisited => {
                proof {
                    lemma_count_upto_bound(nodes@, nodes@.len() as int);
                    assert(nodes@.len() <= MAX_DIM * MAX_DIM) by (nonlinear_arith)
                        requires
                            nodes@.len() == v.size_x * v.size_y,
                            1 <= v.size_x <= MAX_DIM,
                            1 <= v.size_y <= MAX_DIM,
                    ;
                }
                let g2 = cg + 1;
                let h2 = sq_dist_exec(c, goal);
                let f2 = g2 + h2;
                let t2 = PathTile {
                    x: nodes[ni].x,
                    y: nodes[ni].y,
                    g: g2,
                    h: h2,
                    f: f2,
                    parent: Coord { x: cx, y: cy },
                    neighbors: copy_coords(&nodes[ni].neighbors),
                    state: NodeState::Open,
                };
                let ghost open_prev = open_list@;
                proof {
                    lemma_count_closed_update(nodes@, ni as int, t2);
                }
                nodes.set(ni, t2);
                open_list.push(ni);
                proof {
                    assert(coord_of(nodes@[ni as int]) == c);
                    assert(c != start) by {
                        assert(before[v.idx(start.x as int, start.y as int)].state
                            != NodeState::Unvisited);
                        if c == start {
                            assert(ni as int == v.idx(start.x as int, start.y as int));
                        }
                    }
                    assert(ni as int != v.idx(start.x as int, start.y as int));
                    assert(ni as int != cur as int);
                    lemma_index_to_coord(v, cur as int);
                    assert(coord_of(before[cur as int]) == (Coord { x: cx, y: cy }));
                    assert(v.idx(before[cur as int].x as int, before[cur as int].y as int)
                        == cur as int);
                    relax_restore(v, walk, start, before, nodes@, ni as int, cur as int);
                    assert forall|i: int|
                        0 <= i < nodes@.len() && (#[trigger] nodes@[i]).state
                            == NodeState::Open implies in_open(open_list@, i) by {
                        if i == ni as int {
                            assert(open_list@[open_list@.len() - 1] == ni);
                        } else {
                            assert(before[i].state == NodeState::Open);
                            assert(in_open(open_prev, i));
                            let k0 = choose|k0: int|
                                0 <= k0 < open_prev.len() && open_prev[k0] == i;
                            assert(open_list@[k0] == i);
                        }
                    }
                    assert forall|k2: int| 0 <= k2 < open_list@.len() implies (
                    #[trigger] open_list@[k2]) < nodes@.len()
                        && nodes@[open_list@[k2] as int].state == NodeState::Open by {
                        if k2 < open_prev.len() {
                            assert(open_list@[k2] == open_prev[k2]);
                            assert(before[open_prev[k2] as int].state == NodeState::Open);
                            assert(open_prev[k2] as int != ni as int);
                        }
                    }
                    assert forall|k1: int, k2: int|
                        0 <= k1 < open_list@.len() && 0 <= k2 < open_list@.len()
                            && open_list@[k1] == open_list@[k2] implies k1 == k2 by {
                        if k1 < open_prev.len() && k2 < open_prev.len() {
                        } else if k1 < open_prev.len() {
                            assert(before[open_prev[k1] as int].state == NodeState::Open);
                        } else if k2 < open_prev.len() {
                            assert(before[open_prev[k2] as int].state == NodeState::Open);
                        }
                    }
                }
            },
            NodeState::Open => {
                proof {
                    lemma_count_upto_bound(nodes@, nodes@.len() as int);
                    assert(nodes@.len() <= MAX_DIM * MAX_DIM) by (nonlinear_arith)
                        requires
                            nodes@.len() == v.size_x * v.size_y,
                            1 <= v.size_x <= MAX_DIM,
                            1 <= v.size_y <= MAX_DIM,
                    ;
                    assert(cost_ok(nodes@, ni as int));
                }
                let ng = cg + 1;
                if ng < nodes[ni].g {
                    let h2 = sq_dist_exec(c, goal);
                    let t2 = PathTile {
                        x: nodes[ni].x,
                        y: nodes[ni].y,
                        g: ng,
                        h: h2,
                        f: ng + h2,
                        parent: Coord { x: cx, y: cy },
                        neighbors: copy_coords(&nodes[ni].neighbors),
                        state: NodeState::Open,
                    };
                    proof {
                        lemma_count_closed_update(nodes@, ni as int, t2);
                    }
                    nodes.set(ni, t2);
                    proof {
                        assert(coord_of(nodes@[ni as int]) == c);
                        assert(c != start) by {
                            if c == start {
                                assert(ni as int == v.idx(start.x as int, start.y as int));
                                assert(before[ni as int].g == 0);
                            }
                        }
                        assert(ni as int != v.idx(start.x as int, start.y as int));
                        assert(ni as int != cur as int);
                        lemma_index_to_coord(v, cur as int);
                        assert(coord_of(before[cur as int]) == (Coord { x: cx, y: cy }));
                        assert(v.idx(before[cur as int].x as int, before[cur as int].y as int)
                            == cur as int);
                        relax_restore(v, walk, start, before, nodes@, ni as int, cur as int);
                        assert forall|i: int|
                            0 <= i < nodes@.len() && (#[trigger] nodes@[i]).state
                                == NodeState::Open implies in_open(open_list@, i) by {
                            assert(before[i].state == NodeState::Open);
                        }
                    }
                }
            },
            NodeState::Closed => {},
        }
    }
    proof {
        assert forall|i: int|
            0 <= i < before.len() implies ((#[trigger] nodes@[i]).state == before[i].state || (
        before[i].state == NodeState::Unvisited && nodes@[i].state == NodeState::Open)) by {
            if i != ni as int {
                assert(nodes@[i] == before[i]);
            }
        }
        assert forall|i: int|
            0 <= i < before.len() && frontier_ok(v, walk, before, i) implies frontier_ok(
            v,
            walk,
            nodes@,
            i,
        ) by {
            if nodes@[i].state == NodeState::Closed {
                assert(before[i].state == NodeState::Closed);
                assert(nodes@[i] == before[i]);
                assert forall|j: int|
                    0 <= j < nodes@[i].neighbors@.len() && walk.spec_allows(
                        v.kind_at(
                            (#[trigger] nodes@[i].neighbors@[j]).x as int,
                            nodes@[i].neighbors@[j].y as int,
                        ),
                    ) implies nodes@[v.idx(
                    nodes@[i].neighbors@[j].x as int,
                    nodes@[i].neighbors@[j].y as int,
                )].state != NodeState::Unvisited by {
                    let c2 = nodes@[i].neighbors@[j];
                    lemma_index_to_coord(v, i);
                    lemma_path_neighbors_sound(v.tiles[i].x, v.tiles[i].y, v.size_x, v.size_y);
                    lemma_coord_to_index(v, c2.x as int, c2.y as int);
                    let t = v.idx(c2.x as int, c2.y as int);
                    assert(before[t].state != NodeState::Unvisited);
                    if t != ni as int {
                        assert(nodes@[t] == before[t]);
                    }
                }
            }
        }
    }
}

/// The grid's mathematical image; a shorthand for contracts.
pub open spec fn v_of(tileset: &Grid) -> GridV {
    tileset@
}

/// Re-establishes the search invariant after one relaxation write at `ni`
/// with parent `cur`.
proof fn relax_restore(
    v: GridV,
    walk: Walkability,
    start: Coord,
    before: Seq<PathTile>,
    after: Seq<PathTile>,
    ni: int,
    cur: int,
)
    requires
        wf(v),
        search_inv(v, walk, start, before),
        0 <= ni < before.len(),
        0 <= cur < before.len(),
        ni != cur,
        after.len() == before.len(),
        forall|i: int| 0 <= i < before.len() && i != ni ==> after[i] == before[i],
        after[ni].x == before[ni].x,
        after[ni].y == before[ni].y,
        after[ni].neighbors@ == before[ni].neighbors@,
        after[ni].state == NodeState::Open,
        before[ni].state != NodeState::Closed,
        coord_of(after[ni]) != start,
        after[ni].parent == coord_of(before[cur]),
        before[cur].state == NodeState::Closed,
        v.contains_coord(coord_of(before[cur])),
        v.idx(before[cur].x as int, before[cur].y as int) == cur,
        adjacent(coord_of(before[cur]), coord_of(after[ni])),
        walk.spec_allows(v.kind_at(after[ni].x as int, after[ni].y as int)),
        after[ni].g == before[cur].g + 1,
        before[cur].g + 1 <= count_closed(before),
        count_closed(after) == count_closed(before),
    ensures
        search_inv(v, walk, start, after),
{
    let si = v.idx(start.x as int, start.y as int);
    lemma_coord_to_index(v, start.x as int, start.y as int);
    assert(si != ni) by {
        if si == ni {
            assert(v.tiles[si].x == start.x && v.tiles[si].y == start.y);
            assert(after[ni].x == v.tiles[ni].x && after[ni].y == v.tiles[ni].y);
        }
    }
    assert(after[si].state != NodeState::Unvisited && after[si].g == 0);
    assert forall|i: int| 0 <= i < after.len() implies #[trigger] parent_ok(
        v,
        walk,
        start,
        after,
        i,
    ) by {
        assert(parent_ok(v, walk, start, before, i));
        if after[i].state != NodeState::Unvisited && coord_of(after[i]) != start {
            let p = after[i].parent;
            if i == ni {
                assert(after[cur] == before[cur]);
                lemma_coord_to_index(v, p.x as int, p.y as int);
            } else {
                assert(after[i] == before[i]);
                assert(v.contains_coord(p));
                lemma_coord_to_index(v, p.x as int, p.y as int);
                assert(before[v.idx(p.x as int, p.y as int)].state == NodeState::Closed);
                assert(v.idx(p.x as int, p.y as int) != ni);
                assert(after[v.idx(p.x as int, p.y as int)] == before[v.idx(
                    p.x as int,
                    p.y as int,
                )]);
            }
        }
    }
    assert forall|i: int| 0 <= i < after.len() implies #[trigger] cost_ok(after, i) by {
        assert(cost_ok(before, i));
        if i != ni {
            assert(after[i] == before[i]);
        }
    }
    assert forall|i: int| 0 <= i < after.len() implies (#[trigger] after[i]).x == v.tiles[i].x
        && after[i].y == v.tiles[i].y && after[i].neighbors@ == spec_path_neighbors(
        v.tiles[i].x,
        v.tiles[i].y,
        v.size_x,
        v.size_y,
    ) by {
        if i != ni {
            assert(after[i] == before[i]);
        }
    }
}

impl PathMap {
    /// Finds a walkable route from `start_node` to `end_node` over the
    /// tile graph, or returns the empty path exactly when none exists.
    /// The returned path, when there is one, starts at `start_node`, ends
    /// at `end_node`, and moves one walkable orthogonal step at a time; it
    /// need not be a shortest route.
    #[verifier::rlimit(100)]
    pub fn find_path_coords(
        start_node: Coord,
        end_node: Coord,
        walk: Walkability,
        tileset: &Grid,
    ) -> (path: Vec<Coord>)
        requires
            wf(tileset@),
            tileset@.contains_coord(start_node),
            tileset@.contains_coord(end_node),
        ensures
            path@.len() > 0 ==> valid_walk(tileset@, walk, start_node, end_node, path@),
            path@.len() > 0 <==> connected(tileset@, walk, start_node, end_node),
    {
        let ghost v = tileset@;
        let sx = tileset.size_x;
        let sy = tileset.size_y;
        let pm = PathMap::new(sx, sy, tileset);
        let mut nodes = pm.path_tiles;
        let n = nodes.len();
        let si = coord_index(tileset, start_node);
        let gi = coord_index(tileset, end_node);
        proof {
            lemma_coord_to_index(v, start_node.x as int, start_node.y as int);
            lemma_coord_to_index(v, end_node.x as int, end_node.y as int);
        }
        let h0 = sq_dist_exec(start_node, end_node);
        let start_neighbors = copy_coords(&nodes[si].neighbors);
        let s0 = PathTile {
            x: start_node.x,
            y: start_node.y,
            g: 0,
            h: h0,
            f: h0,
            parent: start_node,
            neighbors: start_neighbors,
            state: NodeState::Open,
        };
        let ghost fresh = nodes@;
        nodes.set(si, s0);
        let mut open_list: Vec<usize> = Vec::new();
        open_list.push(si);
        let mut closed_count: usize = 0;
        let mut found = false;
        proof {
            assert(count_closed(nodes@) == 0) by {
                assert forall|i: int| 0 <= i < nodes@.len() implies closed_val(nodes@[i]) == 0 by {
                    if i != si as int {
                        assert(nodes@[i] == fresh[i]);
                    }
                }
                lemma_count_all_zero(nodes@, nodes@.len() as int);
            }
            assert(open_list@[0] == si);
            assert(nodes@[si as int].x == start_node.x && nodes@[si as int].y == start_node.y);
            assert forall|i: int| 0 <= i < nodes@.len() implies #[trigger] parent_ok(
                v,
                walk,
                start_node,
                nodes@,
                i,
            ) by {
                if i != si as int {
                    assert(nodes@[i] == fresh[i]);
                }
            }
            assert forall|i: int| 0 <= i < nodes@.len() implies #[trigger] cost_ok(nodes@, i) by {
                if i != si as int {
                    assert(nodes@[i] == fresh[i]);
                }
            }
            assert forall|i: int| 0 <= i < nodes@.len() implies #[trigger] frontier_ok(
                v,
                walk,
                nodes@,
                i,
            ) by {
                if i != si as int {
                    assert(nodes@[i] == fresh[i]);
                }
            }
            assert forall|i: int| 0 <= i < nodes@.len() implies (#[trigger] nodes@[i]).x
                == v.tiles[i].x && nodes@[i].y == v.tiles[i].y && nodes@[i].neighbors@
                == spec_path_neighbors(v.tiles[i].x, v.tiles[i].y, v.size_x, v.size_y) by {
                if i != si as int {
                    assert(nodes@[i] == fresh[i]);
                }
            }
            assert(search_inv(v, walk, start_node, nodes@));
        }
        while open_list.len() > 0 && !found
            invariant
                wf(v),
                v == tileset@,
                v.contains_coord(start_node),
                v.contains_coord(end_node),
                sx == v.size_x,
                sy == v.size_y,
                n == nodes@.len(),
                si as int == v.idx(start_node.x as int, start_node.y as int),
                gi as int == v.idx(end_node.x as int, end_node.y as int),
                gi < n,
                search_inv(v, walk, start_node, nodes@),
                open_list_inv(nodes@, open_list@),
                closed_count == count_closed(nodes@),
                closed_count <= n,
                !found ==> frontier_inv(v, walk, nodes@),
                !found ==> nodes@[gi as int].state != NodeState::Closed,
                found ==> nodes@[gi as int].state != NodeState::Unvisited,
            decreases n - closed_count,
        {
            let mut best: usize = 0;
            let mut k: usize = 1;
            while k < open_list.len()
                invariant
                    open_list@.len() > 0,
                    best < open_list@.len(),
                    k <= open_list@.len(),
                    open_list_inv(nodes@, open_list@),
                    n == nodes@.len(),
                decreases open_list@.len() - k,
            {
                let a = open_list[k];
                let b = open_list[best];
                if nodes[a].f < nodes[b].f {
                    best = k;
                }
                k = k + 1;
            }
            let cur = open_list[best];
            let ghost open_before = open_list@;
            let ghost before = nodes@;
            open_list.remove(best);
            proof {
                lemma_count_missing(nodes@, cur as int, nodes@.len() as int);
            }
            close_node(&mut nodes, cur, walk, start_node, Ghost(v));
            closed_count = closed_count + 1;
            proof {
                assert forall|k2: int| 0 <= k2 < open_list@.len() implies (#[trigger] open_list@[k2])
                    < nodes@.len() && nodes@[open_list@[k2] as int].state == NodeState::Open by {
                    if k2 < best {
                        assert(open_before[k2] == open_list@[k2]);
                        assert(open_before[k2] != open_before[best as int]);
                        assert(nodes@[open_list@[k2] as int] == before[open_list@[k2] as int]);
                    } else {
                        assert(open_before[k2 + 1] == open_list@[k2]);
                        assert(open_before[k2 + 1] != open_before[best as int]);
                        assert(nodes@[open_list@[k2] as int] == before[open_list@[k2] as int]);
                    }
                }
                assert forall|i: int|
                    0 <= i < nodes@.len() && (#[trigger] nodes@[i]).state
                        == NodeState::Open implies in_open(open_list@, i) by {
                    assert(i != cur as int);
                    assert(before[i].state == NodeState::Open);
                    let k0 = choose|k0: int| 0 <= k0 < open_before.len() && open_before[k0] == i;
                    if k0 < best {
                        assert(open_list@[k0] == i);
                    } else {
                        assert(k0 != best);
                        assert(open_list@[k0 - 1] == i);
                    }
                }
                assert forall|k1: int, k2: int|
                    0 <= k1 < open_list@.len() && 0 <= k2 < open_list@.len() && open_list@[k1]
                        == open_list@[k2] implies k1 == k2 by {
                    let m1: int = if k1 < best {
                        k1
                    } else {
                        k1 + 1
                    };
                    let m2: int = if k2 < best {
                        k2
                    } else {
                        k2 + 1
                    };
                    assert(open_before[m1] == open_list@[k1]);
                    assert(open_before[m2] == open_list@[k2]);
                }
            }
            if cur == gi {
                found = true;
            } else {
                let m_len = nodes[cur].neighbors.len();
                let cur_neighbors = copy_coords(&nodes[cur].neighbors);
                let ghost cx = nodes@[cur as int].x;
                let ghost cy = nodes@[cur as int].y;
                let mut j: usize = 0;
                proof {
                    lemma_index_to_coord(v, cur as int);
                    lemma_path_neighbors_sound(cx as int, cy as int, v.size_x, v.size_y);
                    assert(cost_ok(nodes@, cur as int));
                    assert forall|i: int|
                        0 <= i < nodes@.len() && i != cur as int implies frontier_ok(
                        v,
                        walk,
                        nodes@,
                        i,
                    ) by {
                        assert(frontier_ok(v, walk, before, i));
                    }
                }
                while j < m_len
                    invariant
                        j <= m_len,
                        wf(v),
                        v == tileset@,
                        v.contains_coord(start_node),
                        v.contains_coord(end_node),
                        sx == v.size_x,
                        sy == v.size_y,
                        n == nodes@.len(),
                        si as int == v.idx(start_node.x as int, start_node.y as int),
                        gi as int == v.idx(end_node.x as int, end_node.y as int),
                        gi < n,
                        cur < n,
                        cur as int != gi as int,
                        cur as int == v.idx(cx as int, cy as int),
                        0 <= (cx as int) < v.size_x,
                        0 <= (cy as int) < v.size_y,
                        cur_neighbors@ == spec_path_neighbors(cx as int, cy as int, v.size_x,
                        v.size_y),
                        m_len == cur_neighbors@.len(),
                        nodes@[cur as int].state == NodeState::Closed,
                        nodes@[cur as int].x == cx,
                        nodes@[cur as int].y == cy,
                        nodes@[cur as int].neighbors@ == cur_neighbors@,
                        search_inv(v, walk, start_node, nodes@),
                        open_list_inv(nodes@, open_list@),
                        closed_count == count_closed(nodes@),
                        closed_count <= n,
                        nodes@[gi as int].state != NodeState::Closed,
                        forall|i: int|
                            0 <= i < nodes@.len() && i != cur as int ==> #[trigger] frontier_ok(
                                v,
                                walk,
                                nodes@,
                                i,
                            ),
                        forall|q: int|
                            0 <= q < j && walk.spec_allows(
                                v.kind_at(
                                    (#[trigger] cur_neighbors@[q]).x as int,
                                    cur_neighbors@[q].y as int,
                                ),
                            ) ==> nodes@[v.idx(
                                cur_neighbors@[q].x as int,
                                cur_neighbors@[q].y as int,
                            )].state != NodeState::Unvisited,
                    decreases m_len - j,
                {
                    let c = cur_neighbors[j];
                    let ghost before2 = nodes@;
                    proof {
                        lemma_coord_to_index(v, c.x as int, c.y as int);
                        assert(coord_of(nodes@[cur as int]) == (Coord { x: cx, y: cy }));
                        assert(adjacent(coord_of(nodes@[cur as int]), c));
                        assert(cost_ok(nodes@, cur as int));
                    }
                    relax_neighbor(
                        &mut nodes,
                        &mut open_list,
                        tileset,
                        walk,
                        start_node,
                        end_node,
                        cur,
                        c,
                    );
                    proof {
                        lemma_path_neighbors_sound(cx as int, cy as int, v.size_x, v.size_y);
                        let ci = v.idx(c.x as int, c.y as int);
                        assert(ci != cur as int) by {
                            if ci == cur as int {
                                assert(v.tiles[ci].x == c.x && v.tiles[ci].y == c.y);
                                lemma_index_to_coord(v, cur as int);
                            }
                        }
                        assert(nodes@[cur as int] == before2[cur as int]);
                        assert forall|i: int|
                            0 <= i < nodes@.len() && i != cur as int implies
                            #[trigger] frontier_ok(v, walk, nodes@, i) by {
                            assert(frontier_ok(v, walk, before2, i));
                        }
                        assert forall|q: int|
                            0 <= q < j + 1 && walk.spec_allows(
                                v.kind_at(
                                    (#[trigger] cur_neighbors@[q]).x as int,
                                    cur_neighbors@[q].y as int,
                                ),
                            ) implies nodes@[v.idx(
                            cur_neighbors@[q].x as int,
                            cur_neighbors@[q].y as int,
                        )].state != NodeState::Unvisited by {
                            lemma_coord_to_index(
                                v,
                                cur_neighbors@[q].x as int,
                                cur_neighbors@[q].y as int,
                            );
                            if q < j {
                                assert(before2[v.idx(
                                    cur_neighbors@[q].x as int,
                                    cur_neighbors@[q].y as int,
                                )].state != NodeState::Unvisited);
                            } else {
                                assert(cur_neighbors@[q] == c);
                            }
                        }
                        assert(nodes@[gi as int].state != NodeState::Closed) by {
                            assert(before2[gi as int].state != NodeState::Closed);
                        }
                    }
                    j = j + 1;
                }
                proof {
                    assert forall|i: int| 0 <= i < nodes@.len() implies #[trigger] frontier_ok(
                        v,
                        walk,
                        nodes@,
                        i,
                    ) by {
                        if i == cur as int {
                            assert(nodes@[cur as int].neighbors@ == cur_neighbors@);
                        }
                    }
                }
            }
        }
        if found {
            let path = PathMap::trace_path(start_node, end_node, walk, tileset, &nodes);
            proof {
                assert(valid_walk(v, walk, start_node, end_node, path@));
                assert(connected(v, walk, start_node, end_node));
            }
            path
        } else {
            proof {
                assert(open_list@.len() == 0);
                assert forall|i: int| 0 <= i < nodes@.len() implies (#[trigger] nodes@[i]).state
                    != NodeState::Open by {
                    if nodes@[i].state == NodeState::Open {
                        assert(in_open(open_list@, i));
                        let k0 = choose|k0: int| 0 <= k0 < open_list@.len() && open_list@[k0] == i;
                    }
                }
                if connected(v, walk, start_node, end_node) {
                    let p = choose|p: Seq<Coord>| valid_walk(v, walk, start_node, end_node, p);
                    lemma_walk_stays_closed(v, walk, start_node, end_node, nodes@, p, p.len() - 1);
                    lemma_coord_to_index(v, end_node.x as int, end_node.y as int);
                    assert(false);
                }
            }
            Vec::new()
        }
    }

    /// Follows the parent links back from `end_node` to `start_node` and
    /// returns the walk in start-to-goal order.
    pub fn trace_path(
        start_node: Coord,
        end_node: Coord,
        walk: Walkability,
        tileset: &Grid,
        path_tiles: &Vec<PathTile>,
    ) -> (path: Vec<Coord>)
        requires
            wf(tileset@),
            tileset@.contains_coord(end_node),
            search_inv(tileset@, walk, start_node, path_tiles@),
            path_tiles@[tileset@.idx(end_node.x as int, end_node.y as int)].state
                != NodeState::Unvisited,
        ensures
            valid_walk(tileset@, walk, start_node, end_node, path@),
            path@.len() >= 1,
    {
        let ghost v = tileset@;
        let mut rev: Vec<Coord> = Vec::new();
        rev.push(end_node);
        let mut current = end_node;
        proof {
            lemma_coord_to_index(v, current.x as int, current.y as int);
        }
        while !(current.x == start_node.x && current.y == start_node.y)
            invariant
                wf(v),
                v == tileset@,
                search_inv(v, walk, start_node, path_tiles@),
                v.contains_coord(current),
                path_tiles@[v.idx(current.x as int, current.y as int)].state
                    != NodeState::Unvisited,
                rev@.len() >= 1,
                rev@[0] == end_node,
                rev@.last() == current,
                forall|i: int| 0 <= i < rev@.len() ==> v.contains_coord(#[trigger] rev@[i]),
                forall|i: int| 1 <= i < rev@.len() ==> adjacent(#[trigger] rev@[i], rev@[i - 1]),
                forall|i: int| 0 <= i < rev@.len() - 1 ==> #[trigger] rev@[i] != start_node,
                forall|i: int|
                    0 <= i < rev@.len() - 1 ==> walk.spec_allows(
                        v.kind_at((#[trigger] rev@[i]).x as int, rev@[i].y as int),
                    ),
            decreases path_tiles@[v.idx(current.x as int, current.y as int)].g,
        {
            let ci = coord_index(tileset, current);
            proof {
                lemma_coord_to_index(v, current.x as int, current.y as int);
                assert(coord_of(path_tiles@[ci as int]) == current);
                assert(current != start_node);
                assert(parent_ok(v, walk, start_node, path_tiles@, ci as int));
            }
            let p = path_tiles[ci].parent;
            proof {
                lemma_coord_to_index(v, p.x as int, p.y as int);
            }
            rev.push(p);
            current = p;
        }
        proof {
            assert(current == start_node);
            assert(rev@.last() == start_node);
        }
        let n = rev.len();
        let mut path: Vec<Coord> = Vec::new();
        let mut k: usize = 0;
        while k < n
            invariant
                k <= n,
                n == rev@.len(),
                n >= 1,
                path@.len() == k,
                forall|i: int| 0 <= i < k ==> #[trigger] path@[i] == rev@[n - 1 - i],
            decreases n - k,
        {
            path.push(rev[n - 1 - k]);
            k = k + 1;
        }
        proof {
            assert(path@[0] == rev@[n - 1]);
            assert(path@.last() == rev@[0]);
            assert forall|i: int| 1 <= i < path@.len() implies adjacent(
                path@[i - 1],
                #[trigger] path@[i],
            ) && walk.spec_allows(v.kind_at(path@[i].x as int, path@[i].y as int)) by {
                assert(path@[i - 1] == rev@[n - i]);
                assert(path@[i] == rev@[n - 1 - i]);
                assert(adjacent(rev@[n - i], rev@[n - i - 1]));
            }
        }
        path
    }

    /// Finds a route between two tile keys and returns it as keys; an
    /// unknown or out-of-range key gives the empty path.
    pub fn find_path(start_node: &str, end_node: &str, walk: Walkability, tileset: &Grid) -> (path:
        Vec<String>)
        requires
            wf(tileset@),
        ensures
            ({
                let s = crate::wire::spec_parse_key(start_node.spec_bytes());
                let t = crate::wire::spec_parse_key(end_node.spec_bytes());
                match (s, t) {
                    (Some((sx0, sy0)), Some((tx0, ty0))) => {
                        if tileset@.in_range(sx0, sy0) && tileset@.in_range(tx0, ty0) {
                            let a = Coord { x: sx0 as usize, y: sy0 as usize };
                            let b = Coord { x: tx0 as usize, y: ty0 as usize };
                            &&& (path@.len() > 0 <==> connected(tileset@, walk, a, b))
                            &&& (path@.len() > 0 ==> exists|p: Seq<Coord>|
                                valid_walk(tileset@, walk, a, b, p) && path@.len() == p.len() && (
                                forall|i: int|
                                    0 <= i < p.len() ==> (#[trigger] path@[i])@
                                        == crate::wire::key_chars(p[i].x as nat, p[i].y as nat)))
                        } else {
                            path@.len() == 0
                        }
                    },
                    _ => path@.len() == 0,
                }
            }),
    {
        let s = crate::wire::parse_key(start_node.as_bytes());
        let t = crate::wire::parse_key(end_node.as_bytes());
        match (s, t) {
            (Some((sx0, sy0)), Some((tx0, ty0))) => {
                if sx0 < tileset.size_x && sy0 < tileset.size_y && tx0 < tileset.size_x && ty0
                    < tileset.size_y {
                    let a = Coord { x: sx0, y: sy0 };
                    let b = Coord { x: tx0, y: ty0 };
                    let p = PathMap::find_path_coords(a, b, walk, tileset);
                    let mut keys: Vec<String> = Vec::new();
                    let m = p.len();
                    let mut i: usize = 0;
                    while i < m
                        invariant
                            i <= m,
                            m == p@.len(),
                            keys@.len() == i,
                            forall|k: int|
                                0 <= k < i ==> (#[trigger] keys@[k])@ == crate::wire::key_chars(
                                    (p@[k]).x as nat,
                                    p@[k].y as nat,
                                ),
                        decreases m - i,
                    {
                        let c = p[i];
                        keys.push(crate::wire::coord_key_string(c.x, c.y));
                        i = i + 1;
                    }
                    proof {
                        if p@.len() > 0 {
                            assert(valid_walk(tileset@, walk, a, b, p@));
                        }
                    }
                    keys
                } else {
                    Vec::new()
                }
            },
            _ => Vec::new(),
        }
    }
}

/// Determinism of outcome: any two results the pathfinder's contract
/// permits for one grid, walkability policy, start, and goal agree on
/// success — one is empty exactly when the other is.  The route itself
/// may differ.
pub proof fn lemma_outcome_agreement(
    v: GridV,
    w: Walkability,
    s: Coord,
    t: Coord,
    r1: Seq<Coord>,
    r2: Seq<Coord>,
)
    requires
        r1.len() > 0 ==> valid_walk(v, w, s, t, r1),
        (r1.len() > 0) == connected(v, w, s, t),
        r2.len() > 0 ==> valid_walk(v, w, s, t, r2),
        (r2.len() > 0) == connected(v, w, s, t),
    ensures
        (r1.len() > 0) == (r2.len() > 0),
{
}

/// The grid with every tile on the route turned into a road, whatever its
/// prior type.
pub open spec fn road_overlay(v: GridV, p: Seq<Coord>) -> GridV {
    GridV {
        size_x: v.size_x,
        size_y: v.size_y,
        default_floor: v.default_floor,
        default_wall: v.default_wall,
        tiles: Seq::new(
            v.tiles.len(),
            |i: int|
                if p.contains(Coord { x: v.tiles[i].x as usize, y: v.tiles[i].y as usize }) {
                    tile_retyped(v.tiles[i], TileKind::Road)
                } else {
                    v.tiles[i]
                },
        ),
    }
}

impl Grid {
    /// Draws a road between two tile keys: every tile on the found route,
    /// both ends included, becomes `Road` regardless of its prior type.
    /// With no route — or an unknown or out-of-range key — the grid comes
    /// back unchanged; that is not an error.
    pub fn draw_road(&self, start_tile: &str, end_tile: &str) -> (g: Grid)
        requires
            wf(self@),
        ensures
            wf(g@),
            ({
                let s = crate::wire::spec_parse_key(start_tile.spec_bytes());
                let t = crate::wire::spec_parse_key(end_tile.spec_bytes());
                match (s, t) {
                    (Some((sx0, sy0)), Some((tx0, ty0))) => {
                        if self@.in_range(sx0, sy0) && self@.in_range(tx0, ty0) {
                            let a = Coord { x: sx0 as usize, y: sy0 as usize };
                            let b = Coord { x: tx0 as usize, y: ty0 as usize };
                            if connected(self@, all_walkable(), a, b) {
                                exists|p: Seq<Coord>|
                                    valid_walk(self@, all_walkable(), a, b, p) && g@
                                        == road_overlay(self@, p)
                            } else {
                                g@ == self@
                            }
                        } else {
                            g@ == self@
                        }
                    },
                    _ => g@ == self@,
                }
            }),
    {
        let ghost v = self@;
        let s = crate::wire::parse_key(start_tile.as_bytes());
        let t = crate::wire::parse_key(end_tile.as_bytes());
        let mut tiles: Vec<Tile> = Vec::new();
        let n = self.tiles.len();
        let mut i: usize = 0;
        while i < n
            invariant
                i <= n,
                n == self@.tiles.len(),
                tiles@.len() == i,
                forall|k: int| 0 <= k < i ==> (#[trigger] tiles@[k])@ == self@.tiles[k],
            decreases n - i,
        {
            let tile = &self.tiles[i];
            tiles.push(Tile::new(tile.x, tile.y, tile.kind, copy_coords(&tile.neighbors)));
            i = i + 1;
        }
        let mut g = Grid {
            size_x: self.size_x,
            size_y: self.size_y,
            tiles,
            default_floor: self.default_floor,
            default_wall: self.default_wall,
        };
        proof {
            assert(g@.tiles =~= self@.tiles);
            assert(g@ == self@);
        }
        match (s, t) {
            (Some((sx0, sy0)), Some((tx0, ty0))) => {
                if sx0 < self.size_x && sy0 < self.size_y && tx0 < self.size_x && ty0
                    < self.size_y {
                    let a = Coord { x: sx0, y: sy0 };
                    let b = Coord { x: tx0, y: ty0 };
                    let walk = Walkability::all();
                    proof {
                        assert(walk == all_walkable());
                    }
                    let path = PathMap::find_path_coords(a, b, walk, self);
                    if path.len() == 0 {
                        return g;
                    }
                    let m = path.len();
                    let mut k: usize = 0;
                    while k < m
                        invariant
                            k <= m,
                            m == path@.len(),
                            wf(v),
                            v == self@,
                            forall|q: int| 0 <= q < m ==> v.contains_coord(#[trigger] path@[q]),
                            g.size_x == v.size_x,
                            g.size_y == v.size_y,
                            g.default_floor == v.default_floor,
                            g.default_wall == v.default_wall,
                            g@.tiles.len() == v.tiles.len(),
                            forall|q: int|
                                0 <= q < v.tiles.len() ==> #[trigger] g@.tiles[q]
                                    == road_overlay(v, path@.subrange(0, k as int)).tiles[q],
                        decreases m - k,
                    {
                        let c = path[k];
                        let ci = coord_index(self, c);
                        let ghost gv = g@;
                        let old_tile = &g.tiles[ci];
                        let new_tile = Tile::new(
                            old_tile.x,
                            old_tile.y,
                            TileKind::Road,
                            copy_coords(&old_tile.neighbors),
                        );
                        g.tiles.set(ci, new_tile);
                        proof {
                            lemma_coord_to_index(v, c.x as int, c.y as int);
                            assert(path@.subrange(0, k + 1) =~= path@.subrange(0, k as int).push(
                                c,
                            ));
                            assert forall|q: int| 0 <= q < v.tiles.len() implies #[trigger] g
                                @.tiles[q] == road_overlay(v, path@.subrange(0, k + 1)).tiles[q] by {
                                lemma_index_to_coord(v, q);
                                let cq = Coord { x: v.tiles[q].x as usize, y: v.tiles[q].y as usize };
                                if q == ci as int {
                                    assert(path@.subrange(0, k + 1).contains(cq)) by {
                                        assert(path@.subrange(0, k + 1).last() == c);
                                    }
                                    assert(gv.tiles[q].x == v.tiles[q].x && gv.tiles[q].y
                                        == v.tiles[q].y && gv.tiles[q].neighbors
                                        == v.tiles[q].neighbors);
                                } else {
                                    assert(g@.tiles[q] == gv.tiles[q]);
                                    assert(cq != c) by {
                                        if cq == c {
                                            assert(v.idx(cq.x as int, cq.y as int) == q);
                                        }
                                    }
                                    let sub0 = path@.subrange(0, k as int);
                                    let sub1 = path@.subrange(0, k + 1);
                                    assert(sub1.contains(cq) == sub0.contains(cq)) by {
                                        if sub0.contains(cq) {
                                            let w0 = choose|w0: int|
                                                0 <= w0 < sub0.len() && sub0[w0] == cq;
                                            assert(sub1[w0] == cq);
                                        }
                                        if sub1.contains(cq) {
                                            let w0 = choose|w0: int|
                                                0 <= w0 < sub1.len() && sub1[w0] == cq;
                                            if w0 < k {
                                                assert(sub0[w0] == cq);
                                            }
                                        }
                                    }
                                }
                            }
                        }
                        k = k + 1;
                    }
                    proof {
                        assert(path@.subrange(0, m as int) =~= path@);
                        assert(g@.tiles =~= road_overlay(v, path@).tiles);
                        assert(g@ == road_overlay(v, path@));
                        assert forall|i2: int, j2: int|
                            0 <= i2 < g@.tiles.len() && 0 <= j2
                                < g@.tiles[i2].neighbors.len() implies g@.contains_coord(
                            #[trigger] g@.tiles[i2].neighbors[j2],
                        ) by {}
                        assert(wf(g@));
                    }
                    g
                } else {
                    g
                }
            },
            _ => g,
        }
    }
}

/// The policy with every tile type walkable.
pub open spec fn all_walkable() -> Walkability {
    Walkability {
        floor: true,
        wall: true,
        water: true,
        sand: true,
        tree: true,
        road: true,
        exit: true,
        spawn: true,
    }
}

impl PathMap {
    /// The trivial default walkability test: every known tile code is
    /// walkable.  Searches that need less than that supply their own
    /// `Walkability` policy.
    pub fn is_walkable(tile_type: char) -> (r: bool)
        ensures
            r == true,
    {
        match tile_type {
            '.' => true,
            ',' => true,
            '#' => true,
            't' => true,
            '~' => true,
            _ => true,
        }
    }
}

} // verus!
