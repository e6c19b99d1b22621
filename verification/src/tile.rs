//! The grid's coordinate space and the tile record type.

use vstd::prelude::*;

verus! {

/// Largest side length a grid may have.  Keeping both dimensions at or below
/// this bound keeps every distance and cost computation far away from
/// overflow on 32-bit and 64-bit targets alike.
pub const MAX_DIM: usize = 1024;

/// A grid coordinate: `0 <= x < size_x`, `0 <= y < size_y`.
#[derive(Clone, Copy, Debug, PartialEq, Eq, Structural)]
pub struct Coord {
    pub x: usize,
    pub y: usize,
}

/// The closed enumeration of tile types.  `Spawn` is a sentinel used only
/// transiently while seeding; it never appears in a finished grid.
#[derive(Clone, Copy, Debug, PartialEq, Eq, Structural)]
pub enum TileKind {
    Floor,
    Wall,
    Water,
    Sand,
    Tree,
    Road,
    Exit,
    Spawn,
}

/// The single-character storage code of each tile type.  `Road` shares the
/// floor code on purpose: the storage format never distinguishes the two.
pub open spec fn spec_char_code(k: TileKind) -> char {
    match k {
        TileKind::Floor => '.',
        TileKind::Wall => '#',
        TileKind::Water => '~',
        TileKind::Sand => ',',
        TileKind::Tree => 't',
        TileKind::Road => '.',
        TileKind::Exit => '/',
        TileKind::Spawn => 's',
    }
}

/// The tile type a storage code denotes, if any.  Because `Road` shares the
/// floor code, a stored road comes back as `Floor`.
pub open spec fn spec_kind_of_char(c: char) -> Option<TileKind> {
    match c {
        '.' => Some(TileKind::Floor),
        '#' => Some(TileKind::Wall),
        '~' => Some(TileKind::Water),
        ',' => Some(TileKind::Sand),
        't' => Some(TileKind::Tree),
        '/' => Some(TileKind::Exit),
        's' => Some(TileKind::Spawn),
        _ => None,
    }
}

/// A tile type whose storage code decodes back to itself.
pub open spec fn round_trips(k: TileKind) -> bool {
    spec_kind_of_char(spec_char_code(k)) == Some(k)
}

impl TileKind {
    pub fn to_char(self) -> (c: char)
        ensures
            c == spec_char_code(self),
    {
        match self {
            TileKind::Floor => '.',
            TileKind::Wall => '#',
            TileKind::Water => '~',
            TileKind::Sand => ',',
            TileKind::Tree => 't',
            TileKind::Road => '.',
            TileKind::Exit => '/',
            TileKind::Spawn => 's',
        }
    }

    pub fn from_char(c: char) -> (k: Option<TileKind>)
        ensures
            k == spec_kind_of_char(c),
    {
        match c {
            '.' => Some(TileKind::Floor),
            '#' => Some(TileKind::Wall),
            '~' => Some(TileKind::Water),
            ',' => Some(TileKind::Sand),
            't' => Some(TileKind::Tree),
            '/' => Some(TileKind::Exit),
            's' => Some(TileKind::Spawn),
            _ => None,
        }
    }
}

/// The character code of each tile type, bundled as a record so that callers
/// can read the whole table at once.
#[derive(Clone, Copy, Debug, PartialEq, Eq, Structural)]
pub struct TileType {
    pub floor: char,
    pub wall: char,
    pub water: char,
    pub sand: char,
    pub tree: char,
    pub road: char,
    pub exit: char,
}

impl TileType {
    /// The code table used by the storage format.
    pub fn standard() -> (t: TileType)
        ensures
            t.floor == spec_char_code(TileKind::Floor),
            t.wall == spec_char_code(TileKind::Wall),
            t.water == spec_char_code(TileKind::Water),
            t.sand == spec_char_code(TileKind::Sand),
            t.tree == spec_char_code(TileKind::Tree),
            t.road == spec_char_code(TileKind::Road),
            t.exit == spec_char_code(TileKind::Exit),
    {
        TileType {
            floor: '.',
            wall: '#',
            water: '~',
            sand: ',',
            tree: 't',
            road: '.',
            exit: '/',
        }
    }
}

/// One tile of the grid: its coordinate, its type, and the ordered list of
/// coordinates of its neighbors.  The list is filled by the neighbor indexer;
/// until then it is empty.
#[derive(Clone, Debug, PartialEq, Eq)]
pub struct Tile {
    pub x: usize,
    pub y: usize,
    pub kind: TileKind,
    pub neighbors: Vec<Coord>,
}

/// The mathematical image of a tile.
pub ghost struct TileV {
    pub x: int,
    pub y: int,
    pub kind: TileKind,
    pub neighbors: Seq<Coord>,
}

impl View for Tile {
    type V = TileV;

    open spec fn view(&self) -> TileV {
        TileV { x: self.x as int, y: self.y as int, kind: self.kind, neighbors: self.neighbors@ }
    }
}

/// Copies a neighbor list element by element.
pub fn copy_coords(v: &Vec<Coord>) -> (r: Vec<Coord>)
    ensures
        r@ == v@,
{
    let mut out: Vec<Coord> = Vec::new();
    let n = v.len();
    let mut i: usize = 0;
    while i < n
        invariant
            i <= n,
            n == v@.len(),
            out@ == v@.subrange(0, i as int),
        decreases n - i,
    {
        out.push(v[i]);
        assert(out@ =~= v@.subrange(0, i + 1));
        i = i + 1;
    }
    assert(out@ =~= v@);
    out
}

/// `|a - b|` over mathematical integers.
pub open spec fn abs_diff(a: int, b: int) -> int {
    if a >= b {
        a - b
    } else {
        b - a
    }
}

/// Manhattan distance between two coordinates.
pub open spec fn spec_manhattan(ax: int, ay: int, bx: int, by: int) -> int {
    abs_diff(ax, bx) + abs_diff(ay, by)
}

/// Squared Euclidean distance between two coordinates.
pub open spec fn spec_sq_dist(ax: int, ay: int, bx: int, by: int) -> int {
    abs_diff(ax, bx) * abs_diff(ax, bx) + abs_diff(ay, by) * abs_diff(ay, by)
}

impl Tile {
    pub fn new(x: usize, y: usize, kind: TileKind, neighbors: Vec<Coord>) -> (t: Tile)
        ensures
            t@ == (TileV { x: x as int, y: y as int, kind, neighbors: neighbors@ }),
    {
        Tile { x, y, kind, neighbors }
    }

    /// The tile's canonical storage key, `"{x}x{y}"`.
    pub fn get_tile_key(&self) -> (s: String)
        ensures
            s@ == crate::wire::key_chars(self.x as nat, self.y as nat),
    {
        crate::wire::coord_key_string(self.x, self.y)
    }

    /// Manhattan distance between two tiles; the metric of nearest-seed
    /// assignment and of the pathfinder's step cost.
    pub fn distance(v: &Tile, t: &Tile) -> (d: usize)
        requires
            v.x <= MAX_DIM,
            v.y <= MAX_DIM,
            t.x <= MAX_DIM,
            t.y <= MAX_DIM,
        ensures
            d == spec_manhattan(v@.x, v@.y, t@.x, t@.y),
    {
        let dx = if v.x >= t.x {
            v.x - t.x
        } else {
            t.x - v.x
        };
        let dy = if v.y >= t.y {
            v.y - t.y
        } else {
            t.y - v.y
        };
        dx + dy
    }

    /// Euclidean distance between two tiles, rounded down to an integer.
    pub fn distance_slow(v: &Tile, t: &Tile) -> (d: usize)
        requires
            v.x <= MAX_DIM,
            v.y <= MAX_DIM,
            t.x <= MAX_DIM,
            t.y <= MAX_DIM,
        ensures
            d * d <= spec_sq_dist(v@.x, v@.y, t@.x, t@.y),
            spec_sq_dist(v@.x, v@.y, t@.x, t@.y) < (d + 1) * (d + 1),
    {
        let n = Tile::heuristic_distance(v, t);
        let mut d: usize = 0;
        while (d + 1) * (d + 1) <= n
            invariant
                d * d <= n,
                n <= 2 * MAX_DIM * MAX_DIM,
                d < 2 * MAX_DIM,
                (d + 1) * (d + 1) <= 4 * MAX_DIM * MAX_DIM,
            decreases 2 * MAX_DIM - d,
        {
            d = d + 1;
            assert(d < 2 * MAX_DIM) by (nonlinear_arith)
                requires
                    d * d <= n,
                    n <= 2 * MAX_DIM * MAX_DIM,
                    0 < d,
            ;
            assert((d + 1) * (d + 1) <= 4 * MAX_DIM * MAX_DIM) by (nonlinear_arith)
                requires
                    d < 2 * MAX_DIM,
            ;
        }
        d
    }

    /// Squared Euclidean distance between two tiles; the pathfinder's
    /// heuristic.
    pub fn heuristic_distance(v: &Tile, t: &Tile) -> (d: usize)
        requires
            v.x <= MAX_DIM,
            v.y <= MAX_DIM,
            t.x <= MAX_DIM,
            t.y <= MAX_DIM,
        ensures
            d == spec_sq_dist(v@.x, v@.y, t@.x, t@.y),
            d <= 2 * MAX_DIM * MAX_DIM,
    {
        let dx = if v.x >= t.x {
            v.x - t.x
        } else {
            t.x - v.x
        };
        let dy = if v.y >= t.y {
            v.y - t.y
        } else {
            t.y - v.y
        };
        assert(dx * dx <= MAX_DIM * MAX_DIM && dy * dy <= MAX_DIM * MAX_DIM) by (nonlinear_arith)
            requires
                0 <= dx <= MAX_DIM,
                0 <= dy <= MAX_DIM,
        ;
        dx * dx + dy * dy
    }
}

} // verus!
