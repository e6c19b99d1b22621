use maps::Coord;
use maps::Grid;
use maps::PathMap;
use maps::PathTile;
use maps::Tile;
use maps::TileKind;
use maps::Walkability;

fn grid_of(size: usize, kind_at: impl Fn(usize, usize) -> TileKind) -> Grid {
    let mut tiles = Vec::new();
    for y in 0..size {
        for x in 0..size {
            tiles.push(Tile::new(x, y, kind_at(x, y), Vec::new()));
        }
    }
    Grid {
        size_x: size,
        size_y: size,
        tiles,
        default_floor: TileKind::Floor,
        default_wall: TileKind::Wall,
    }
}

fn no_walls() -> Walkability {
    Walkability { wall: false, ..Walkability::all() }
}

#[test]
fn path_squeezes_through_the_wall_gap() {
    // a wall column at x = 5 with a single gap at y = 5
    let g = grid_of(10, |x, y| {
        if x == 5 && y != 5 {
            TileKind::Wall
        } else {
            TileKind::Floor
        }
    });
    let path = PathMap::find_path("0x0", "9x0", no_walls(), &g);
    assert!(!path.is_empty());
    assert_eq!(path.first().unwrap(), "0x0");
    assert_eq!(path.last().unwrap(), "9x0");
    assert!(path.iter().any(|k| k == "5x5"));
}

#[test]
fn enclosed_goal_gives_the_empty_path() {
    // a full wall ring around the goal at (5,5)
    let g = grid_of(10, |x, y| {
        let on_ring = (4..=6).contains(&x) && (4..=6).contains(&y) && !(x == 5 && y == 5);
        if on_ring {
            TileKind::Wall
        } else {
            TileKind::Floor
        }
    });
    let path = PathMap::find_path_coords(
        Coord { x: 0, y: 0 },
        Coord { x: 5, y: 5 },
        no_walls(),
        &g,
    );
    assert!(path.is_empty());
}

#[test]
fn repeated_queries_agree() {
    let g = Grid::new_biome(20, 20, String::from("Cave")).unwrap();
    let a = Coord { x: 2, y: 2 };
    let b = Coord { x: 17, y: 15 };
    let first = PathMap::find_path_coords(a, b, Walkability::all(), &g);
    let second = PathMap::find_path_coords(a, b, Walkability::all(), &g);
    assert_eq!(first.len(), second.len());
    assert_eq!(first, second);
}

#[test]
fn found_paths_take_unit_steps() {
    let g = grid_of(8, |_, _| TileKind::Floor);
    let path = PathMap::find_path_coords(
        Coord { x: 1, y: 1 },
        Coord { x: 6, y: 4 },
        Walkability::all(),
        &g,
    );
    assert!(path.len() >= 9);
    for w in path.windows(2) {
        let dx = (w[0].x as i64 - w[1].x as i64).abs();
        let dy = (w[0].y as i64 - w[1].y as i64).abs();
        assert_eq!(dx + dy, 1);
    }
}

#[test]
fn start_equal_to_goal_is_a_single_step_path() {
    let g = grid_of(4, |_, _| TileKind::Floor);
    let c = Coord { x: 2, y: 2 };
    let path = PathMap::find_path_coords(c, c, Walkability::all(), &g);
    assert_eq!(path, vec![c]);
}

#[test]
fn bad_keys_give_the_empty_path() {
    let g = grid_of(4, |_, _| TileKind::Floor);
    assert!(PathMap::find_path("meow", "1x1", Walkability::all(), &g).is_empty());
    assert!(PathMap::find_path("1x1", "9x9", Walkability::all(), &g).is_empty());
    assert!(PathMap::find_path("01x1", "1x1", Walkability::all(), &g).is_empty());
}

#[test]
fn distances_have_their_textbook_values() {
    let a = Tile::new(0, 0, TileKind::Floor, Vec::new());
    let b = Tile::new(3, 4, TileKind::Floor, Vec::new());
    assert_eq!(Tile::distance(&a, &b), 7);
    assert_eq!(Tile::heuristic_distance(&a, &b), 25);
    assert_eq!(Tile::distance_slow(&a, &b), 5);
    let c = Tile::new(1, 1, TileKind::Floor, Vec::new());
    let d = Tile::new(3, 2, TileKind::Floor, Vec::new());
    assert_eq!(Tile::heuristic_distance(&c, &d), 5);
    assert_eq!(Tile::distance_slow(&c, &d), 2);
}

#[test]
fn tile_keys_render_as_x_separated_pairs() {
    let t = Tile::new(3, 17, TileKind::Floor, Vec::new());
    assert_eq!(t.get_tile_key(), "3x17");
    let p = PathTile::new(0, 0, 5, 5);
    assert_eq!(p.get_tile_key(), "0x0");
}

#[test]
fn path_neighbors_are_bounds_checked_and_ordered() {
    assert_eq!(
        PathTile::get_neighbors(0, 0, 10, 10),
        vec![Coord { x: 1, y: 0 }, Coord { x: 0, y: 1 }]
    );
    assert_eq!(
        PathTile::get_neighbors(5, 5, 10, 10),
        vec![
            Coord { x: 6, y: 5 },
            Coord { x: 4, y: 5 },
            Coord { x: 5, y: 6 },
            Coord { x: 5, y: 4 },
        ]
    );
    assert_eq!(
        PathTile::get_neighbors(9, 9, 10, 10),
        vec![Coord { x: 8, y: 9 }, Coord { x: 9, y: 8 }]
    );
}

#[test]
fn default_walkability_allows_every_code() {
    for c in ['.', ',', '#', 't', '~', '?'] {
        assert!(PathMap::is_walkable(c));
    }
    let w = Walkability::all();
    for k in [
        TileKind::Floor,
        TileKind::Wall,
        TileKind::Water,
        TileKind::Sand,
        TileKind::Tree,
        TileKind::Road,
        TileKind::Exit,
        TileKind::Spawn,
    ] {
        assert!(w.allows(k));
    }
}

#[test]
fn drawn_roads_overwrite_the_route() {
    let g = grid_of(5, |x, _| {
        if x == 2 {
            TileKind::Wall
        } else {
            TileKind::Floor
        }
    });
    let with_road = g.draw_road("0x0", "4x4");
    let road_count = with_road.tiles.iter().filter(|t| t.kind == TileKind::Road).count();
    assert!(road_count >= 9);
    assert_eq!(with_road.tiles[0].kind, TileKind::Road);
    assert_eq!(with_road.tiles[24].kind, TileKind::Road);
    // tiles off the route keep their types
    assert_eq!(
        with_road.tiles.iter().filter(|t| t.kind == TileKind::Wall).count()
            + with_road.tiles.iter().filter(|t| t.kind == TileKind::Floor).count()
            + road_count,
        25
    );
}

#[test]
fn roads_to_nowhere_change_nothing() {
    let g = grid_of(4, |_, _| TileKind::Floor);
    let same = g.draw_road("0x0", "9x9");
    assert_eq!(g, same);
    let same2 = g.draw_road("frog", "0x0");
    assert_eq!(g, same2);
}
